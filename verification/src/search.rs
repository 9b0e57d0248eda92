//! The two searches: the lines of a body that hold a query, compared as they
//! stand or after folding to lower case.

use crate::lines::{after_first_line, first_line, lemma_first_break, lines_of, split_first_line};
use crate::substring::{contains, is_substring, lemma_empty_is_substring};
use vstd::prelude::*;
use vstd::string::*;

verus! {

/// The text that `str::to_lowercase` returns for `text`.
pub uninterp spec fn lowercase_of(text: Seq<char>) -> Seq<char>;

/// Calls `str::to_lowercase` of the standard library. Not proved: that the
/// string it returns is determined by the characters of `text` alone, which
/// is all that `lowercase_of` stands for. Nothing is claimed of which
/// characters it holds.
#[verifier::external_body]
fn to_lowercase(text: &str) -> (lowered: String)
    ensures
        lowered@ == lowercase_of(text@),
{
    text.to_lowercase()
}

/// The form in which a text is compared when case is ignored: its lowercase
/// form. The empty text is its own folded form.
pub open spec fn folded(text: Seq<char>) -> Seq<char> {
    if text.len() == 0 {
        text
    } else {
        lowercase_of(text)
    }
}

/// Folds `text` to the form in which it is compared when case is ignored.
pub fn fold_case(text: &str) -> (key: String)
    ensures
        key@ == folded(text@),
{
    if text.is_empty() {
        String::new()
    } else {
        to_lowercase(text)
    }
}

/// The lines that hold `query` as it stands.
pub open spec fn holds_exact(query: Seq<char>) -> spec_fn(Seq<char>) -> bool {
    |line: Seq<char>| is_substring(query, line)
}

/// The lines whose folded form holds the folded form of `query`.
pub open spec fn holds_folded(query: Seq<char>) -> spec_fn(Seq<char>) -> bool {
    |line: Seq<char>| is_substring(folded(query), folded(line))
}

/// What the exact search returns for `query` in `body`.
pub open spec fn exact_matches(query: Seq<char>, body: Seq<char>) -> Seq<Seq<char>> {
    lines_of(body).filter(holds_exact(query))
}

/// What the case-ignoring search returns for `query` in `body`.
pub open spec fn folded_matches(query: Seq<char>, body: Seq<char>) -> Seq<Seq<char>> {
    lines_of(body).filter(holds_folded(query))
}

/// `found` is `lines` with lines left out and nothing else changed: the lines
/// of which `keep` holds, each as often as it stands in `lines`, and in the
/// order in which they stand there. `at[k]` is the number of the line that
/// became `found[k]`.
pub open spec fn in_body_order(
    found: Seq<Seq<char>>,
    lines: Seq<Seq<char>>,
    keep: spec_fn(Seq<char>) -> bool,
) -> bool {
    exists|at: Seq<int>| #[trigger] numbers_the_kept(at, found, lines, keep)
}

/// `at` names, in rising order, the lines of `lines` of which `keep` holds,
/// and `found` holds those lines.
pub open spec fn numbers_the_kept(
    at: Seq<int>,
    found: Seq<Seq<char>>,
    lines: Seq<Seq<char>>,
    keep: spec_fn(Seq<char>) -> bool,
) -> bool {
    &&& at.len() == found.len()
    &&& forall|k: int|
        0 <= k < at.len() ==> 0 <= #[trigger] at[k] < lines.len() && found[k] == lines[at[k]]
    &&& forall|k: int, l: int| 0 <= k < l < at.len() ==> #[trigger] at[k] < #[trigger] at[l]
    &&& forall|n: int| 0 <= n < lines.len() ==> (at.contains(n) <==> keep(#[trigger] lines[n]))
}

/// The numbers of the lines of which `keep` holds, in rising order.
spec fn kept_numbers(lines: Seq<Seq<char>>, keep: spec_fn(Seq<char>) -> bool) -> Seq<int>
    decreases lines.len(),
{
    if lines.len() == 0 {
        Seq::empty()
    } else if keep(lines.last()) {
        kept_numbers(lines.drop_last(), keep).push(lines.len() - 1)
    } else {
        kept_numbers(lines.drop_last(), keep)
    }
}

/// Filtering leaves lines out and changes nothing else.
pub proof fn lemma_filter_in_body_order(lines: Seq<Seq<char>>, keep: spec_fn(Seq<char>) -> bool)
    ensures
        in_body_order(lines.filter(keep), lines, keep),
{
    lemma_kept_numbers(lines, keep);
}

proof fn lemma_kept_numbers(lines: Seq<Seq<char>>, keep: spec_fn(Seq<char>) -> bool)
    ensures
        numbers_the_kept(kept_numbers(lines, keep), lines.filter(keep), lines, keep),
    decreases lines.len(),
{
    reveal(Seq::filter);
    let at = kept_numbers(lines, keep);
    let found = lines.filter(keep);
    if lines.len() > 0 {
        let shorter = lines.drop_last();
        let at_shorter = kept_numbers(shorter, keep);
        lemma_kept_numbers(shorter, keep);
        assert forall|n: int| 0 <= n < lines.len() implies (at.contains(n) <==> keep(
            #[trigger] lines[n],
        )) by {
            if n < shorter.len() {
                assert(lines[n] == shorter[n]);
                if at_shorter.contains(n) {
                    let k = choose|k: int| 0 <= k < at_shorter.len() && at_shorter[k] == n;
                    assert(at[k] == n);
                }
                if at.contains(n) {
                    let k = choose|k: int| 0 <= k < at.len() && at[k] == n;
                    assert(at_shorter[k] == n);
                }
            } else if keep(lines[n]) {
                assert(at[at.len() - 1] == n);
            } else {
                if at.contains(n) {
                    let k = choose|k: int| 0 <= k < at.len() && at[k] == n;
                    assert(at_shorter[k] < shorter.len());
                }
            }
        }
        assert forall|k: int| 0 <= k < at.len() implies 0 <= #[trigger] at[k] < lines.len()
            && found[k] == lines[at[k]] by {
            if k < at_shorter.len() {
                assert(at[k] == at_shorter[k]);
                assert(lines[at[k]] == shorter[at_shorter[k]]);
            }
        }
        assert forall|k: int, l: int| 0 <= k < l < at.len() implies #[trigger] at[k]
            < #[trigger] at[l] by {
            assert(at[k] == at_shorter[k]);
            if l < at_shorter.len() {
                assert(at[l] == at_shorter[l]);
            }
        }
    }
}

/// A test that holds of every line leaves no line out.
pub proof fn lemma_filter_keeps_all(lines: Seq<Seq<char>>, keep: spec_fn(Seq<char>) -> bool)
    requires
        forall|n: int| 0 <= n < lines.len() ==> keep(#[trigger] lines[n]),
    ensures
        lines.filter(keep) == lines,
    decreases lines.len(),
{
    reveal(Seq::filter);
    if lines.len() > 0 {
        let shorter = lines.drop_last();
        assert forall|n: int| 0 <= n < shorter.len() implies keep(#[trigger] shorter[n]) by {
            assert(shorter[n] == lines[n]);
        }
        lemma_filter_keeps_all(shorter, keep);
        assert(shorter.push(lines.last()) =~= lines);
    }
}

/// Where `narrow` holds of no line of which `wide` fails, filtering by
/// `narrow` gives what filtering by `wide` and then by `narrow` gives.
pub proof fn lemma_filter_twice(
    lines: Seq<Seq<char>>,
    narrow: spec_fn(Seq<char>) -> bool,
    wide: spec_fn(Seq<char>) -> bool,
)
    requires
        forall|n: int| 0 <= n < lines.len() && narrow(#[trigger] lines[n]) ==> wide(lines[n]),
    ensures
        lines.filter(narrow) == lines.filter(wide).filter(narrow),
    decreases lines.len(),
{
    reveal(Seq::filter);
    if lines.len() > 0 {
        let shorter = lines.drop_last();
        let last = lines.last();
        assert forall|n: int| 0 <= n < shorter.len() && narrow(#[trigger] shorter[n]) implies wide(
            shorter[n],
        ) by {
            assert(shorter[n] == lines[n]);
        }
        lemma_filter_twice(shorter, narrow, wide);
        if wide(last) {
            let kept = shorter.filter(wide);
            assert(lines.filter(wide) == kept.push(last));
            assert(kept.push(last).drop_last() =~= kept);
        }
    }
}

/// Walks the lines of `content` and collects those that hold `needle`, each
/// line folded first where `folding` is set. `keep` is the same test, stated
/// on texts.
fn select_lines<'a>(
    content: &'a str,
    needle: &str,
    folding: bool,
    Ghost(keep): Ghost<spec_fn(Seq<char>) -> bool>,
) -> (found: Vec<&'a str>)
    requires
        forall|line: Seq<char>| #[trigger]
            keep(line) == is_substring(
                needle@,
                if folding {
                    folded(line)
                } else {
                    line
                },
            ),
    ensures
        found.deep_view() == lines_of(content@).filter(keep),
{
    let mut found: Vec<&'a str> = Vec::new();
    let mut rest: &'a str = content;
    assert(found.deep_view() =~= Seq::<Seq<char>>::empty());
    loop
        invariant
            forall|line: Seq<char>| #[trigger]
                keep(line) == is_substring(
                    needle@,
                    if folding {
                        folded(line)
                    } else {
                        line
                    },
                ),
            found.deep_view() + lines_of(rest@).filter(keep) == lines_of(content@).filter(keep),
        decreases rest@.len(),
    {
        match split_first_line(rest) {
            None => {
                assert(lines_of(rest@).filter(keep) =~= Seq::<Seq<char>>::empty());
                assert(found.deep_view() + Seq::<Seq<char>>::empty() =~= found.deep_view());
                return found;
            },
            Some((line, tail)) => {
                let holds = if folding {
                    let key = fold_case(line);
                    contains(key.as_str(), needle)
                } else {
                    contains(line, needle)
                };
                let ghost before = found.deep_view();
                proof {
                    lemma_first_break(rest@);
                    let one = seq![line@];
                    assert(holds == keep(line@));
                    assert(lines_of(rest@) == one + lines_of(tail@));
                    Seq::filter_distributes_over_add(one, lines_of(tail@), keep);
                    reveal_with_fuel(Seq::filter, 2);
                    assert(one.drop_last() =~= Seq::<Seq<char>>::empty());
                    assert(one.filter(keep) =~= if holds {
                        one
                    } else {
                        Seq::<Seq<char>>::empty()
                    });
                }
                if holds {
                    found.push(line);
                    assert(found.deep_view() =~= before + seq![line@]);
                }
                assert(found.deep_view() + lines_of(tail@).filter(keep) =~= before + lines_of(
                    rest@,
                ).filter(keep));
                rest = tail;
            },
        }
    }
}

/// Every line that the exact search returns holds the query, and every line
/// of the body that it does not return does not hold it.
pub proof fn lemma_exact_matches_hold_query(query: Seq<char>, body: Seq<char>)
    ensures
        forall|i: int|
            0 <= i < exact_matches(query, body).len() ==> is_substring(
                query,
                #[trigger] exact_matches(query, body)[i],
            ),
        forall|n: int|
            0 <= n < lines_of(body).len() && !exact_matches(query, body).contains(
                #[trigger] lines_of(body)[n],
            ) ==> !is_substring(query, lines_of(body)[n]),
{
    lemma_filter_is_exact(lines_of(body), holds_exact(query));
}

/// Every line that the case-ignoring search returns holds the folded query
/// in its folded form, and every line of the body that it does not return
/// does not.
pub proof fn lemma_folded_matches_hold_query(query: Seq<char>, body: Seq<char>)
    ensures
        forall|i: int|
            0 <= i < folded_matches(query, body).len() ==> is_substring(
                folded(query),
                folded(#[trigger] folded_matches(query, body)[i]),
            ),
        forall|n: int|
            0 <= n < lines_of(body).len() && !folded_matches(query, body).contains(
                #[trigger] lines_of(body)[n],
            ) ==> !is_substring(folded(query), folded(lines_of(body)[n])),
{
    lemma_filter_is_exact(lines_of(body), holds_folded(query));
}

/// What a filter returns passes its test, and what it leaves out fails it.
proof fn lemma_filter_is_exact(lines: Seq<Seq<char>>, keep: spec_fn(Seq<char>) -> bool)
    ensures
        forall|i: int| 0 <= i < lines.filter(keep).len() ==> keep(#[trigger] lines.filter(keep)[i]),
        forall|n: int|
            0 <= n < lines.len() && !lines.filter(keep).contains(#[trigger] lines[n]) ==> !keep(
                lines[n],
            ),
{
    let found = lines.filter(keep);
    let at = kept_numbers(lines, keep);
    lemma_kept_numbers(lines, keep);
    assert forall|i: int| 0 <= i < found.len() implies keep(#[trigger] found[i]) by {
        assert(at.contains(at[i]));
    }
    assert forall|n: int| 0 <= n < lines.len() && keep(#[trigger] lines[n]) implies found.contains(
        lines[n],
    ) by {
        let k = choose|k: int| 0 <= k < at.len() && at[k] == n;
        assert(found[k] == lines[n]);
    }
}

/// With the empty query both searches return every line of the body.
pub proof fn lemma_empty_query_matches_every_line(query: Seq<char>, body: Seq<char>)
    requires
        query.len() == 0,
    ensures
        exact_matches(query, body) == lines_of(body),
        folded_matches(query, body) == lines_of(body),
{
    let lines = lines_of(body);
    assert(query =~= Seq::<char>::empty());
    assert forall|n: int| 0 <= n < lines.len() implies holds_exact(query)(#[trigger] lines[n]) by {
        lemma_empty_is_substring(lines[n]);
    }
    assert forall|n: int| 0 <= n < lines.len() implies holds_folded(query)(#[trigger] lines[n]) by {
        lemma_empty_is_substring(folded(lines[n]));
    }
    lemma_filter_keeps_all(lines, holds_exact(query));
    lemma_filter_keeps_all(lines, holds_folded(query));
}

/// Both searches return lines of the body in the order of the body, each as
/// often as it stands there.
pub proof fn lemma_matches_in_body_order(query: Seq<char>, body: Seq<char>)
    ensures
        in_body_order(exact_matches(query, body), lines_of(body), holds_exact(query)),
        in_body_order(folded_matches(query, body), lines_of(body), holds_folded(query)),
{
    lemma_filter_in_body_order(lines_of(body), holds_exact(query));
    lemma_filter_in_body_order(lines_of(body), holds_folded(query));
}

/// The case-ignoring search returns every line that the exact search
/// returns, wherever folding keeps the query inside the lines that hold it:
/// then the exact matches are the case-ignoring matches that hold the query
/// as it stands. Folding does not do so for every text: the lowercase form of
/// a letter may depend on the letters around it.
pub proof fn lemma_folded_matches_include_exact(query: Seq<char>, body: Seq<char>)
    requires
        forall|n: int|
            0 <= n < lines_of(body).len() && is_substring(query, #[trigger] lines_of(body)[n])
                ==> is_substring(folded(query), folded(lines_of(body)[n])),
    ensures
        exact_matches(query, body) == folded_matches(query, body).filter(holds_exact(query)),
        forall|i: int|
            0 <= i < exact_matches(query, body).len() ==> folded_matches(query, body).contains(
                #[trigger] exact_matches(query, body)[i],
            ),
{
    let lines = lines_of(body);
    let exact = exact_matches(query, body);
    let wide = folded_matches(query, body);
    lemma_filter_twice(lines, holds_exact(query), holds_folded(query));
    lemma_kept_numbers(wide, holds_exact(query));
    let at = kept_numbers(wide, holds_exact(query));
    assert forall|i: int| 0 <= i < exact.len() implies wide.contains(#[trigger] exact[i]) by {
        assert(exact[i] == wide[at[i]]);
    }
}

/// The lines of `content` that hold `query`, character for character, in the
/// order in which they stand in `content`. A line that stands there several
/// times comes back as often; the empty query is held by every line.
pub fn search<'a>(query: &str, content: &'a str) -> (found: Vec<&'a str>)
    ensures
        found.deep_view() == exact_matches(query@, content@),
        forall|i: int| 0 <= i < found.len() ==> is_substring(query@, #[trigger] found[i]@),
        forall|n: int|
            0 <= n < lines_of(content@).len() && !found.deep_view().contains(
                #[trigger] lines_of(content@)[n],
            ) ==> !is_substring(query@, lines_of(content@)[n]),
        in_body_order(found.deep_view(), lines_of(content@), holds_exact(query@)),
        query@.len() == 0 ==> found.deep_view() == lines_of(content@),
{
    let found = select_lines(content, query, false, Ghost(holds_exact(query@)));
    proof {
        lemma_exact_matches_hold_query(query@, content@);
        lemma_matches_in_body_order(query@, content@);
        if query@.len() == 0 {
            lemma_empty_query_matches_every_line(query@, content@);
        }
        assert forall|i: int| 0 <= i < found.len() implies is_substring(
            query@,
            #[trigger] found[i]@,
        ) by {
            assert(found[i]@ == found.deep_view()[i]);
        }
    }
    found
}

/// The lines of `content` whose folded form holds the folded form of
/// `query`, in the order in which they stand in `content`. The lines come
/// back as they stand in `content`, not folded. A line that stands there
/// several times comes back as often; the empty query is held by every line.
pub fn search_case_insensitive<'a>(query: &str, content: &'a str) -> (found: Vec<&'a str>)
    ensures
        found.deep_view() == folded_matches(query@, content@),
        forall|i: int|
            0 <= i < found.len() ==> is_substring(folded(query@), folded(#[trigger] found[i]@)),
        forall|n: int|
            0 <= n < lines_of(content@).len() && !found.deep_view().contains(
                #[trigger] lines_of(content@)[n],
            ) ==> !is_substring(folded(query@), folded(lines_of(content@)[n])),
        in_body_order(found.deep_view(), lines_of(content@), holds_folded(query@)),
        query@.len() == 0 ==> found.deep_view() == lines_of(content@),
{
    let needle = fold_case(query);
    let found = select_lines(content, needle.as_str(), true, Ghost(holds_folded(query@)));
    proof {
        lemma_folded_matches_hold_query(query@, content@);
        lemma_matches_in_body_order(query@, content@);
        if query@.len() == 0 {
            lemma_empty_query_matches_every_line(query@, content@);
        }
        assert forall|i: int| 0 <= i < found.len() implies is_substring(
            folded(query@),
            folded(#[trigger] found[i]@),
        ) by {
            assert(found[i]@ == found.deep_view()[i]);
        }
    }
    found
}

} // verus!
