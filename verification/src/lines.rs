//! The lines of a text: what stands between its line feeds.

use crate::encoding::{lemma_ascii_byte_is_char, lemma_ascii_char_is_byte, lemma_decode_encoding};
use vstd::prelude::*;
use vstd::string::*;
use vstd::utf8::*;

verus! {

/// Offset of the first line feed of `text`, or the length of `text` where it
/// holds none.
pub open spec fn first_break(text: Seq<char>) -> nat
    decreases text.len(),
{
    if text.len() == 0 || text[0] == '\n' {
        0
    } else {
        1 + first_break(text.drop_first())
    }
}

/// `line` less one carriage return at its end, where it ends in one.
pub open spec fn without_carriage_return(line: Seq<char>) -> Seq<char> {
    if line.len() > 0 && line.last() == '\r' {
        line.drop_last()
    } else {
        line
    }
}

/// The first line of `text`: what stands before its first line feed, less one
/// carriage return that stands just before that line feed. A text without a
/// line feed is one line as it stands, a carriage return at its end included.
pub open spec fn first_line(text: Seq<char>) -> Seq<char> {
    let k = first_break(text);
    if k < text.len() {
        without_carriage_return(text.subrange(0, k as int))
    } else {
        text
    }
}

/// What follows the first line of `text` and its line feed.
pub open spec fn after_first_line(text: Seq<char>) -> Seq<char> {
    let k = first_break(text);
    if k < text.len() {
        text.subrange(k as int + 1, text.len() as int)
    } else {
        Seq::empty()
    }
}

/// The lines of `text`, in order. The empty text has no line; a line feed at
/// the very end closes the last line and opens no further one.
pub open spec fn lines_of(text: Seq<char>) -> Seq<Seq<char>>
    decreases text.len(),
{
    if text.len() == 0 {
        Seq::empty()
    } else {
        seq![first_line(text)] + lines_of(after_first_line(text))
    }
}

/// `first_break` is the least offset that holds a line feed.
pub proof fn lemma_first_break(text: Seq<char>)
    ensures
        first_break(text) <= text.len(),
        forall|j: int| 0 <= j < first_break(text) ==> text[j] != '\n',
        first_break(text) < text.len() ==> text[first_break(text) as int] == '\n',
    decreases text.len(),
{
    if !(text.len() == 0 || text[0] == '\n') {
        let rest = text.drop_first();
        lemma_first_break(rest);
        assert forall|j: int| 0 <= j < first_break(text) implies text[j] != '\n' by {
            if j > 0 {
                assert(text[j] == rest[j - 1]);
            }
        }
    }
}

/// An offset with a line feed, or the end of the text, with no line feed
/// before it, is `first_break`.
pub proof fn lemma_first_break_is(text: Seq<char>, k: int)
    requires
        0 <= k <= text.len(),
        forall|j: int| 0 <= j < k ==> text[j] != '\n',
        k < text.len() ==> text[k] == '\n',
    ensures
        first_break(text) == k,
{
    lemma_first_break(text);
}

/// Cuts the first line off `text`. Returns the line and what follows its line
/// feed, or `None` where `text` is empty.
pub fn split_first_line<'a>(text: &'a str) -> (parts: Option<(&'a str, &'a str)>)
    ensures
        parts is None <==> text@.len() == 0,
        parts matches Some(pair) ==> pair.0@ == first_line(text@) && pair.1@ == after_first_line(
            text@,
        ),
{
    let bytes = text.as_bytes();
    let n: usize = bytes.len();
    proof {
        lemma_decode_encoding(text@);
    }
    if n == 0 {
        return None;
    }
    let mut i: usize = 0;
    while i < n && bytes[i] != 0x0a
        invariant
            n == bytes@.len(),
            i <= n,
            forall|j: int| 0 <= j < i ==> bytes@[j] != 0x0a,
        decreases n - i,
    {
        i += 1;
    }
    if i == n {
        proof {
            reveal_strlit("");
            assert forall|p: int| 0 <= p < text@.len() implies text@[p] != '\n' by {
                if text@[p] == '\n' {
                    lemma_ascii_char_is_byte(text@, p);
                    let at = encode_utf8(text@.subrange(0, p)).len() as int;
                    assert(bytes@[at] == 0x0a);
                }
            }
            lemma_first_break_is(text@, text@.len() as int);
        }
        return Some((text, ""));
    }
    proof {
        lemma_ascii_byte_is_char(bytes@, i as int);
    }
    let (head, _) = text.split_at(i);
    let (_, rest) = text.split_at(i + 1);
    proof {
        lemma_decode_encoding(head@);
        lemma_decode_encoding(rest@);
        assert(text@ =~= head@ + seq!['\n'] + rest@);
        assert forall|p: int| 0 <= p < head@.len() implies head@[p] != '\n' by {
            if head@[p] == '\n' {
                lemma_ascii_char_is_byte(head@, p);
                let at = encode_utf8(head@.subrange(0, p)).len() as int;
                assert(head.spec_bytes()[at] == 0x0a);
                assert(bytes@[at] == 0x0a);
            }
        }
        assert forall|p: int| 0 <= p < head@.len() implies text@[p] != '\n' by {
            assert(text@[p] == head@[p]);
        }
        lemma_first_break_is(text@, head@.len() as int);
        assert(text@.subrange(0, head@.len() as int) =~= head@);
        assert(text@.subrange(head@.len() as int + 1, text@.len() as int) =~= rest@);
    }
    if i > 0 && bytes[i - 1] == 0x0d {
        proof {
            lemma_ascii_byte_is_char(head.spec_bytes(), i - 1);
        }
        let (line, _) = head.split_at(i - 1);
        proof {
            lemma_decode_encoding(line@);
            assert(head.spec_bytes().subrange(i as int, i as int) =~= Seq::<u8>::empty());
            assert(head@ =~= line@ + seq!['\r']);
            assert(head@.drop_last() =~= line@);
        }
        Some((line, rest))
    } else {
        proof {
            if head@.len() > 0 && head@.last() == '\r' {
                let p = head@.len() - 1;
                lemma_ascii_char_is_byte(head@, p);
                assert(head@.subrange(p + 1, head@.len() as int) =~= Seq::<char>::empty());
                assert(head.spec_bytes()[i - 1] == 0x0d);
                assert(bytes@[i - 1] == 0x0d);
            }
        }
        Some((head, rest))
    }
}

} // verus!
