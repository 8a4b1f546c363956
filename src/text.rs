//! Characters of a string and substring occurrence.

use vstd::prelude::*;

verus! {

/// `q` occurs in `t` starting at position `i`.
pub open spec fn occurs_at(t: Seq<char>, q: Seq<char>, i: int) -> bool {
    0 <= i && i + q.len() <= t.len() && t.subrange(i, i + q.len()) == q
}

/// `q` occurs somewhere in `t` as a contiguous substring.
pub open spec fn has_substring(t: Seq<char>, q: Seq<char>) -> bool {
    exists|i: int| occurs_at(t, q, i)
}

/// The characters of `s`, in order.
pub fn chars_of(s: &str) -> (r: Vec<char>)
    ensures
        r@ == s@,
{
    let mut r: Vec<char> = Vec::new();
    for c in it: s.chars()
        invariant
            it.seq() == s@,
            r@ == it.seq().subrange(0, it.index() as int),
    {
        r.push(c);
    }
    r
}

/// Whether `q` occurs in `t` starting at position `i`.
fn matches_at(t: &Vec<char>, q: &Vec<char>, i: usize) -> (r: bool)
    requires
        i + q@.len() <= t@.len(),
    ensures
        r == occurs_at(t@, q@, i as int),
{
    let mut j: usize = 0;
    while j < q.len()
        invariant
            i + q@.len() <= t@.len(),
            j <= q@.len(),
            forall|k: int| 0 <= k < j ==> t@[i + k] == q@[k],
        decreases q@.len() - j,
    {
        assert(i + j < t@.len() && t@.len() == t.len());
        if t[i + j] != q[j] {
            assert(t@.subrange(i as int, i + q@.len())[j as int] != q@[j as int]);
            return false;
        }
        j += 1;
    }
    assert(t@.subrange(i as int, i + q@.len()) =~= q@);
    true
}

/// Whether `query` occurs in `line` as a contiguous substring. An empty
/// query occurs in every line.
pub fn line_contains(line: &str, query: &str) -> (r: bool)
    ensures
        r == has_substring(line@, query@),
{
    let t = chars_of(line);
    let q = chars_of(query);
    if q.len() > t.len() {
        return false;
    }
    let last: usize = t.len() - q.len();
    let mut i: usize = 0;
    loop
        invariant
            t@ == line@,
            q@ == query@,
            last == t@.len() - q@.len(),
            i <= last,
            forall|k: int| 0 <= k < i ==> !occurs_at(t@, q@, k),
        decreases last - i,
    {
        if matches_at(&t, &q, i) {
            return true;
        }
        if i == last {
            return false;
        }
        i += 1;
    }
}

} // verus!
