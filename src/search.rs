//! Selecting the lines of a text that contain a query.

use vstd::prelude::*;
use crate::lines::{lines, lines_of};
use crate::text::{has_substring, line_contains};

verus! {

/// The lines of `contents` that contain `query`, in their order in `contents`.
pub open spec fn matching_lines(query: Seq<char>, contents: Seq<char>) -> Seq<Seq<char>> {
    lines_of(contents).filter(|l: Seq<char>| has_substring(l, query))
}

/// What `str::to_lowercase` makes of a string with the characters `s`.
pub uninterp spec fn lower_of(s: Seq<char>) -> Seq<char>;

/// The lines of `contents` whose lowercase form contains the lowercase form
/// of `query`, in their order in `contents`.
pub open spec fn matching_lines_ignore_case(query: Seq<char>, contents: Seq<char>) -> Seq<Seq<char>> {
    lines_of(contents).filter(|l: Seq<char>| has_substring(lower_of(l), lower_of(query)))
}

/// The lines that a search returns: exact containment when `case_sensitive`,
/// containment after lowercasing both sides otherwise.
pub open spec fn found_lines(case_sensitive: bool, query: Seq<char>, contents: Seq<char>) -> Seq<Seq<char>> {
    if case_sensitive {
        matching_lines(query, contents)
    } else {
        matching_lines_ignore_case(query, contents)
    }
}

/// Relies on `str::to_lowercase`: its result depends on the characters of
/// the argument alone.
#[verifier::external_body]
fn lowercase(s: &str) -> (r: String)
    ensures
        r@ == lower_of(s@),
{
    s.to_lowercase()
}

/// The lines of `contents` that contain `query` exactly, in order.
pub fn search<'a>(query: &str, contents: &'a str) -> (r: Vec<&'a str>)
    ensures
        r@.map_values(|l: &'a str| l@) == matching_lines(query@, contents@),
{
    let all = lines(contents);
    let ghost all_v = all@.map_values(|l: &'a str| l@);
    let ghost keep = |l: Seq<char>| has_substring(l, query@);
    let mut r: Vec<&'a str> = Vec::new();
    let mut i: usize = 0;
    assert(all_v.subrange(0, 0) =~= Seq::<Seq<char>>::empty());
    while i < all.len()
        invariant
            all_v == all@.map_values(|l: &'a str| l@),
            all_v == lines_of(contents@),
            keep == (|l: Seq<char>| has_substring(l, query@)),
            i <= all@.len(),
            r@.map_values(|l: &'a str| l@) == all_v.subrange(0, i as int).filter(keep),
        decreases all@.len() - i,
    {
        let line = all[i];
        let ghost old_r = r@.map_values(|l: &'a str| l@);
        let ghost next = all_v.subrange(0, i + 1);
        assert(next.drop_last() =~= all_v.subrange(0, i as int));
        assert(next.last() == line@);
        reveal(Seq::filter);
        assert(next.filter(keep) == if keep(line@) {
            next.drop_last().filter(keep).push(line@)
        } else {
            next.drop_last().filter(keep)
        });
        if line_contains(line, query) {
            r.push(line);
            assert(r@.map_values(|l: &'a str| l@) =~= old_r.push(line@));
        }
        i += 1;
    }
    assert(all_v.subrange(0, i as int) =~= all_v);
    r
}

/// The lines of `contents` that contain `query` when both are lowercased,
/// in order.
pub fn search_case_insensitive<'a>(query: &str, contents: &'a str) -> (r: Vec<&'a str>)
    ensures
        r@.map_values(|l: &'a str| l@) == matching_lines_ignore_case(query@, contents@),
{
    let lowered_query = lowercase(query);
    let all = lines(contents);
    let ghost all_v = all@.map_values(|l: &'a str| l@);
    let ghost keep = |l: Seq<char>| has_substring(lower_of(l), lower_of(query@));
    let mut r: Vec<&'a str> = Vec::new();
    let mut i: usize = 0;
    assert(all_v.subrange(0, 0) =~= Seq::<Seq<char>>::empty());
    while i < all.len()
        invariant
            all_v == all@.map_values(|l: &'a str| l@),
            all_v == lines_of(contents@),
            keep == (|l: Seq<char>| has_substring(lower_of(l), lower_of(query@))),
            lowered_query@ == lower_of(query@),
            i <= all@.len(),
            r@.map_values(|l: &'a str| l@) == all_v.subrange(0, i as int).filter(keep),
        decreases all@.len() - i,
    {
        let line = all[i];
        let ghost old_r = r@.map_values(|l: &'a str| l@);
        let ghost next = all_v.subrange(0, i + 1);
        assert(next.drop_last() =~= all_v.subrange(0, i as int));
        assert(next.last() == line@);
        reveal(Seq::filter);
        assert(next.filter(keep) == if keep(line@) {
            next.drop_last().filter(keep).push(line@)
        } else {
            next.drop_last().filter(keep)
        });
        let lowered_line = lowercase(line);
        if line_contains(lowered_line.as_str(), lowered_query.as_str()) {
            r.push(line);
            assert(r@.map_values(|l: &'a str| l@) =~= old_r.push(line@));
        }
        i += 1;
    }
    assert(all_v.subrange(0, i as int) =~= all_v);
    r
}

/// `pos` lists, for each item of `a`, a position in `b` that holds it, and
/// the positions increase.
pub open spec fn placed_in_order<A>(a: Seq<A>, b: Seq<A>, pos: Seq<int>) -> bool {
    &&& pos.len() == a.len()
    &&& forall|k: int| 0 <= k < a.len() ==> 0 <= #[trigger] pos[k] < b.len() && b[pos[k]] == a[k]
    &&& forall|j: int, k: int| 0 <= j < k < a.len() ==> #[trigger] pos[j] < #[trigger] pos[k]
}

/// `a` is `b` with some items left out, the others kept in their order.
pub open spec fn is_subsequence<A>(a: Seq<A>, b: Seq<A>) -> bool {
    exists|pos: Seq<int>| #[trigger] placed_in_order(a, b, pos)
}

/// Filtering leaves out items and keeps the others in their order.
pub proof fn lemma_filter_keeps_order<A>(s: Seq<A>, keep: spec_fn(A) -> bool)
    ensures
        is_subsequence(s.filter(keep), s),
    decreases s.len(),
{
    reveal(Seq::filter);
    if s.len() == 0 {
        assert(placed_in_order(s.filter(keep), s, Seq::<int>::empty()));
    } else {
        let t = s.drop_last();
        lemma_filter_keeps_order(t, keep);
        let pos = choose|pos: Seq<int>| #[trigger] placed_in_order(t.filter(keep), t, pos);
        if keep(s.last()) {
            let pos2 = pos.push(s.len() - 1);
            let a = s.filter(keep);
            assert(a == t.filter(keep).push(s.last()));
            assert forall|k: int| 0 <= k < a.len() implies 0 <= #[trigger] pos2[k] < s.len() && s[pos2[k]] == a[k] by {
                if k < a.len() - 1 {
                    assert(pos2[k] == pos[k]);
                }
            }
            assert forall|j: int, k: int| 0 <= j < k < a.len() implies #[trigger] pos2[j] < #[trigger] pos2[k] by {
                if k < a.len() - 1 {
                    assert(pos2[j] == pos[j] && pos2[k] == pos[k]);
                } else {
                    assert(pos2[j] == pos[j]);
                }
            }
            assert(placed_in_order(a, s, pos2));
        } else {
            assert(placed_in_order(s.filter(keep), s, pos));
        }
    }
}

/// Exact search returns the lines of the contents that contain the query, and
/// only those.
pub proof fn lemma_search_finds_exactly(query: Seq<char>, contents: Seq<char>)
    ensures
        forall|l: Seq<char>| #[trigger] matching_lines(query, contents).contains(l) <==> lines_of(
            contents,
        ).contains(l) && has_substring(l, query),
{
    broadcast use Seq::lemma_filter_contains_rev;

    let keep = |l: Seq<char>| has_substring(l, query);
    let all = lines_of(contents);
    assert forall|l: Seq<char>| #[trigger] matching_lines(query, contents).contains(l) <==> all.contains(l)
        && has_substring(l, query) by {
        if all.contains(l) && has_substring(l, query) {
            let i = choose|i: int| 0 <= i < all.len() && all[i] == l;
            all.lemma_filter_contains(keep, i);
        }
        if all.filter(keep).contains(l) {
            let i = choose|i: int| 0 <= i < all.filter(keep).len() && all.filter(keep)[i] == l;
            all.lemma_filter_pred(keep, i);
        }
    }
}

/// Search that ignores case returns the lines of the contents whose lowercase
/// form contains the lowercase query, and only those.
pub proof fn lemma_search_ignoring_case_finds_exactly(query: Seq<char>, contents: Seq<char>)
    ensures
        forall|l: Seq<char>| #[trigger] matching_lines_ignore_case(query, contents).contains(l)
            <==> lines_of(contents).contains(l) && has_substring(lower_of(l), lower_of(query)),
{
    broadcast use Seq::lemma_filter_contains_rev;

    let keep = |l: Seq<char>| has_substring(lower_of(l), lower_of(query));
    let all = lines_of(contents);
    assert forall|l: Seq<char>| #[trigger] matching_lines_ignore_case(query, contents).contains(l)
        <==> all.contains(l) && has_substring(lower_of(l), lower_of(query)) by {
        if all.contains(l) && has_substring(lower_of(l), lower_of(query)) {
            let i = choose|i: int| 0 <= i < all.len() && all[i] == l;
            all.lemma_filter_contains(keep, i);
        }
        if all.filter(keep).contains(l) {
            let i = choose|i: int| 0 <= i < all.filter(keep).len() && all.filter(keep)[i] == l;
            all.lemma_filter_pred(keep, i);
        }
    }
}

/// Both searches return lines in the order in which they stand in the
/// contents.
pub proof fn lemma_search_keeps_order(query: Seq<char>, contents: Seq<char>)
    ensures
        is_subsequence(matching_lines(query, contents), lines_of(contents)),
        is_subsequence(matching_lines_ignore_case(query, contents), lines_of(contents)),
{
    lemma_filter_keeps_order(lines_of(contents), |l: Seq<char>| has_substring(l, query));
    lemma_filter_keeps_order(
        lines_of(contents),
        |l: Seq<char>| has_substring(lower_of(l), lower_of(query)),
    );
}

/// Running a search twice with the same query on the same contents returns
/// the same lines both times, in either mode.
pub proof fn lemma_search_repeatable<'a>(
    case_sensitive: bool,
    query: &str,
    contents: &'a str,
    first: Seq<&'a str>,
    second: Seq<&'a str>,
)
    requires
        first.map_values(|l: &'a str| l@) == found_lines(case_sensitive, query@, contents@),
        second.map_values(|l: &'a str| l@) == found_lines(case_sensitive, query@, contents@),
    ensures
        first.len() == second.len(),
        forall|k: int| 0 <= k < first.len() ==> first[k]@ == second[k]@,
{
    assert(first.map_values(|l: &'a str| l@).len() == second.map_values(|l: &'a str| l@).len());
    assert forall|k: int| 0 <= k < first.len() implies first[k]@ == second[k]@ by {
        assert(first.map_values(|l: &'a str| l@)[k] == second.map_values(|l: &'a str| l@)[k]);
    }
}

} // verus!
