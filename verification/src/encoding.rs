//! Facts that carry statements about the UTF-8 bytes of a text over to its
//! characters, and back.

use crate::substring::{is_substring, occurs_at};
use vstd::prelude::*;
use vstd::utf8::*;

verus! {

/// The encoding of a concatenation is the concatenation of the encodings.
pub proof fn lemma_encode_concat(a: Seq<char>, b: Seq<char>)
    ensures
        encode_utf8(a + b) == encode_utf8(a) + encode_utf8(b),
    decreases a.len(),
{
    if a.len() == 0 {
        assert(a + b =~= b);
        assert(encode_utf8(a) + encode_utf8(b) =~= encode_utf8(b));
    } else {
        lemma_encode_concat(a.drop_first(), b);
        assert((a + b).drop_first() =~= a.drop_first() + b);
        assert(encode_utf8(a + b) =~= encode_utf8(a) + encode_utf8(b));
    }
}

/// A text is recovered from its encoding.
pub proof fn lemma_decode_encoding(chars: Seq<char>)
    ensures
        valid_utf8(encode_utf8(chars)),
        decode_utf8(encode_utf8(chars)) == chars,
{
    encode_utf8_valid_utf8(chars);
    encode_utf8_decode_utf8(chars);
}

/// Where one valid encoding begins with another, the end of the shorter one
/// falls between two characters of the longer one.
pub proof fn lemma_boundary_after_prefix(whole: Seq<u8>, prefix: Seq<u8>)
    requires
        valid_utf8(whole),
        valid_utf8(prefix),
        prefix.len() <= whole.len(),
        whole.subrange(0, prefix.len() as int) == prefix,
    ensures
        is_char_boundary(whole, prefix.len() as int),
    decreases prefix.len(),
{
    if prefix.len() > 0 {
        let k = length_of_first_scalar(prefix);
        let start = whole.subrange(0, prefix.len() as int);
        assert(forall|j: int| 0 <= j < prefix.len() ==> whole[j] == start[j]);
        assert(length_of_first_scalar(whole) == k);
        assert(k <= prefix.len());
        assert(pop_first_scalar(whole).subrange(0, prefix.len() - k) =~= pop_first_scalar(prefix));
        lemma_boundary_after_prefix(pop_first_scalar(whole), pop_first_scalar(prefix));
    }
}

/// An ASCII character of a text is one byte of its encoding, with the
/// encodings of what stands before and after it on either side.
pub proof fn lemma_ascii_char_is_byte(chars: Seq<char>, p: int)
    requires
        0 <= p < chars.len(),
        '\0' <= chars[p] <= '\u{7f}',
    ensures
        encode_utf8(chars) == encode_utf8(chars.subrange(0, p)) + seq![chars[p] as u8]
            + encode_utf8(chars.subrange(p + 1, chars.len() as int)),
{
    let before = chars.subrange(0, p);
    let one = seq![chars[p]];
    let after = chars.subrange(p + 1, chars.len() as int);
    assert(chars =~= (before + one) + after);
    lemma_encode_concat(before + one, after);
    lemma_encode_concat(before, one);
    assert(is_ascii_chars(one));
    is_ascii_chars_encode_utf8(one);
    assert(encode_utf8(one) =~= seq![chars[p] as u8]);
}

/// An ASCII byte of a valid encoding is one character of the text, with the
/// texts of the bytes before and after it on either side.
pub proof fn lemma_ascii_byte_is_char(bytes: Seq<u8>, j: int)
    requires
        valid_utf8(bytes),
        0 <= j < bytes.len(),
        bytes[j] <= 0x7f,
    ensures
        is_char_boundary(bytes, j),
        is_char_boundary(bytes, j + 1),
        valid_utf8(bytes.subrange(0, j)),
        valid_utf8(bytes.subrange(j + 1, bytes.len() as int)),
        decode_utf8(bytes) == decode_utf8(bytes.subrange(0, j)) + seq![bytes[j] as char]
            + decode_utf8(bytes.subrange(j + 1, bytes.len() as int)),
{
    let b = bytes[j];
    let head = bytes.subrange(0, j);
    let tail = bytes.subrange(j, bytes.len() as int);
    let rest = bytes.subrange(j + 1, bytes.len() as int);
    is_char_boundary_iff_not_is_continuation_byte(bytes, j);
    valid_utf8_split(bytes, j);
    decode_utf8_split(bytes, j);
    assert(tail[0] == b);
    assert(length_of_first_scalar(tail) == 1);
    assert(pop_first_scalar(tail) =~= rest);
    assert(b & 0x7f == b) by (bit_vector)
        requires
            b <= 0x7f,
    ;
    assert(decode_first_scalar(tail) == b as u32);
    assert(decode_utf8(tail) =~= seq![b as char] + decode_utf8(rest));
    let one = seq![b];
    assert(valid_utf8(one)) by {
        assert(pop_first_scalar(one) =~= Seq::<u8>::empty());
        assert(valid_utf8(pop_first_scalar(one)));
        assert(valid_first_scalar(one));
    }
    valid_utf8_concat(head, one);
    assert(bytes.subrange(0, j + 1) =~= head + one);
    lemma_boundary_after_prefix(bytes, head + one);
}

/// A needle stands in a text exactly when its encoding stands in the text's
/// encoding: a match found on bytes never starts or ends inside a character.
pub proof fn lemma_substring_of_encoding(needle: Seq<char>, hay: Seq<char>)
    ensures
        is_substring(encode_utf8(needle), encode_utf8(hay)) == is_substring(needle, hay),
{
    let p = encode_utf8(needle);
    let b = encode_utf8(hay);
    lemma_decode_encoding(needle);
    lemma_decode_encoding(hay);
    if is_substring(needle, hay) {
        let i = choose|i: int| occurs_at(needle, hay, i);
        let before = hay.subrange(0, i);
        let after = hay.subrange(i + needle.len(), hay.len() as int);
        assert(hay =~= (before + needle) + after);
        lemma_encode_concat(before + needle, after);
        lemma_encode_concat(before, needle);
        let at = encode_utf8(before).len() as int;
        assert(b.subrange(at, at + p.len()) =~= p);
        assert(occurs_at(p, b, at));
    }
    if is_substring(p, b) {
        let k = choose|k: int| occurs_at(p, b, k);
        if needle.len() == 0 {
            assert(hay.subrange(0, 0) =~= needle);
            assert(occurs_at(needle, hay, 0));
        } else {
            encode_utf8_first_scalar(needle);
            assert(p.len() > 0);
            assert(b.subrange(k, k + p.len())[0] == b[k]);
            assert(!is_continuation_byte(b[k]));
            is_char_boundary_iff_not_is_continuation_byte(b, k);
            let tail = b.subrange(k, b.len() as int);
            valid_utf8_split(b, k);
            decode_utf8_split(b, k);
            assert(tail.subrange(0, p.len() as int) =~= p);
            lemma_boundary_after_prefix(tail, p);
            valid_utf8_split(tail, p.len() as int);
            decode_utf8_split(tail, p.len() as int);
            let before = decode_utf8(b.subrange(0, k));
            let after = decode_utf8(tail.subrange(p.len() as int, tail.len() as int));
            assert(hay =~= before + (needle + after));
            let at = before.len() as int;
            assert(hay.subrange(at, at + needle.len()) =~= needle);
            assert(occurs_at(needle, hay, at));
        }
    }
}

} // verus!
