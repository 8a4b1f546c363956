//! Splitting a text into lines.
//!
//! A line ends at `\n` or at `\r\n`; the terminator is not part of the line.
//! The last line needs no terminator, and a text that ends with a terminator
//! has no empty line after it.

use vstd::prelude::*;
use vstd::string::StringSliceAdditionalSpecFns;
use vstd::utf8::{encode_scalar, encode_utf8};
use crate::slicing::{lemma_encode_concat, lemma_encode_push, split_chars, utf8_width};
use crate::text::chars_of;

verus! {

/// The pieces of `s` between `\n` characters: one more piece than there are
/// `\n` in `s`.
pub open spec fn segments(s: Seq<char>) -> Seq<Seq<char>>
    decreases s.len(),
{
    if s.len() == 0 {
        seq![Seq::empty()]
    } else {
        let p = segments(s.drop_last());
        if s.last() == '\n' {
            p.push(Seq::empty())
        } else {
            p.update(p.len() - 1, p.last().push(s.last()))
        }
    }
}

/// A piece without the `\r` that ends it, if one does.
pub open spec fn strip_cr(l: Seq<char>) -> Seq<char> {
    if l.len() > 0 && l.last() == '\r' {
        l.drop_last()
    } else {
        l
    }
}

/// The lines of `s`, in order: every piece that a `\n` closes, without a
/// `\r` before that `\n`, then the final piece unless it is empty.
pub open spec fn lines_of(s: Seq<char>) -> Seq<Seq<char>> {
    let p = segments(s);
    let closed = p.drop_last().map_values(|l: Seq<char>| strip_cr(l));
    if p.last().len() == 0 {
        closed
    } else {
        closed.push(p.last())
    }
}

/// The lines of `contents`, in order, as slices of it.
pub fn lines<'a>(contents: &'a str) -> (r: Vec<&'a str>)
    ensures
        r@.map_values(|l: &'a str| l@) == lines_of(contents@),
{
    let cs = chars_of(contents);
    let n: usize = cs.len();
    // Every byte offset below is at most the byte length, which fits in usize.
    let n_bytes: usize = contents.as_bytes().len();
    assert(encode_utf8(cs@).len() == n_bytes);
    let mut r: Vec<&'a str> = Vec::new();
    let mut rest: &'a str = contents;
    let mut start: usize = 0;
    let mut off: usize = 0;
    let mut i: usize = 0;
    assert(cs@.subrange(0, 0) =~= Seq::<char>::empty());
    assert(cs@.subrange(0, n as int) =~= cs@);
    while i < n
        invariant
            cs@ == contents@,
            n == cs@.len(),
            encode_utf8(cs@).len() <= usize::MAX,
            start <= i <= n,
            rest@ == cs@.subrange(start as int, n as int),
            off == encode_utf8(cs@.subrange(start as int, i as int)).len(),
            segments(cs@.subrange(0, i as int)).len() >= 1,
            segments(cs@.subrange(0, i as int)).last() == cs@.subrange(start as int, i as int),
            r@.map_values(|l: &'a str| l@) == segments(cs@.subrange(0, i as int)).drop_last().map_values(
                |l: Seq<char>| strip_cr(l),
            ),
        decreases n - i,
    {
        let c = cs[i];
        let ghost prev = cs@.subrange(0, i as int);
        let ghost next = cs@.subrange(0, i + 1);
        let ghost piece = cs@.subrange(start as int, i as int);
        assert(next.drop_last() =~= prev);
        assert(next.last() == c);
        let ghost old_r = r@.map_values(|l: &'a str| l@);
        if c == '\n' {
            assert(rest@ =~= piece + cs@.subrange(i as int, n as int));
            let (head, tail) = split_chars(rest, off, Ghost(piece), Ghost(cs@.subrange(i as int, n as int)));
            let line: &'a str = if i > start && cs[i - 1] == '\r' {
                let ghost body = cs@.subrange(start as int, i - 1);
                assert(piece =~= body.push('\r'));
                assert(piece =~= body + seq!['\r']);
                proof {
                    lemma_encode_push(body, '\r');
                }
                assert(encode_scalar('\r' as u32).len() == 1);
                let ghost cr = seq!['\r'];
                split_chars(head, off - 1, Ghost(body), Ghost(cr)).0
            } else {
                head
            };
            assert(line@ == strip_cr(piece));
            r.push(line);
            assert(segments(next) == segments(prev).push(Seq::empty()));
            assert(segments(next).drop_last() =~= segments(prev));
            assert(segments(prev) =~= segments(prev).drop_last().push(piece));
            assert(r@.map_values(|l: &'a str| l@) =~= old_r.push(line@));
            assert(segments(next).drop_last().map_values(|l: Seq<char>| strip_cr(l)) =~= segments(
                prev,
            ).drop_last().map_values(|l: Seq<char>| strip_cr(l)).push(strip_cr(piece)));
            let ghost after = cs@.subrange(i + 1, n as int);
            assert(tail@ =~= seq!['\n'] + after);
            proof {
                lemma_encode_push(Seq::<char>::empty(), '\n');
                assert(Seq::<char>::empty().push('\n') =~= seq!['\n']);
            }
            assert(encode_scalar('\n' as u32).len() == 1);
            let ghost nl = seq!['\n'];
            let (_, after_nl) = split_chars(tail, 1, Ghost(nl), Ghost(after));
            rest = after_nl;
            start = i + 1;
            off = 0;
            assert(cs@.subrange(start as int, i + 1) =~= Seq::<char>::empty());
        } else {
            let w = utf8_width(c);
            proof {
                assert(cs@.subrange(start as int, i + 1) =~= piece.push(c));
                lemma_encode_push(piece, c);
                let whole = cs@.subrange(0, start as int) + cs@.subrange(start as int, i + 1) + cs@.subrange(i + 1, n as int);
                assert(whole =~= cs@);
                lemma_encode_concat(cs@.subrange(0, start as int) + cs@.subrange(start as int, i + 1), cs@.subrange(i + 1, n as int));
                lemma_encode_concat(cs@.subrange(0, start as int), cs@.subrange(start as int, i + 1));
            }
            off = off + w;
            assert(segments(next).drop_last() =~= segments(prev).drop_last());
        }
        i += 1;
    }
    if start < n {
        r.push(rest);
    }
    r
}

} // verus!
