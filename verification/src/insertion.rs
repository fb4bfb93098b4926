//! Insertion sort over a range of the word store, comparing words
//! lexicographically from a given depth on: the fallback the MSD sorter uses
//! for partitions at or below its cutoff size.

use vstd::prelude::*;
use crate::word::{Word, views};
use crate::order::{lex_le, lex_lt, lemma_lex_not_lt, lemma_lex_lt_implies_le, lemma_lex_le_trans};

verus! {

/// Compares two words byte by byte from depth `d` on: a differing byte orders
/// them by byte value, and when all compared bytes agree the word exhausted
/// first is the lesser — so two words both ended before `d` are ordered by
/// their lengths. Never reads past either word's end.
pub fn less(v: &Word, w: &Word, d: usize) -> (r: bool)
    ensures
        r == lex_lt(v@, w@, d as int),
{
    let vn = v.len();
    let wn = w.len();
    let mut i = d;
    loop
        invariant
            d <= i,
            vn == v@.len(),
            wn == w@.len(),
            lex_lt(v@, w@, d as int) == lex_lt(v@, w@, i as int),
        ensures
            vn == v@.len(),
            wn == w@.len(),
            i >= vn || i >= wn,
            lex_lt(v@, w@, d as int) == lex_lt(v@, w@, i as int),
        decreases vn + wn - i,
    {
        if i >= vn || i >= wn {
            break ;
        }
        let a = v.byte_at(i);
        let b = w.byte_at(i);
        if a < b {
            return true;
        }
        if a > b {
            return false;
        }
        i += 1;
    }
    vn < wn
}

/// Exchanges the words at positions `i` and `j`.
pub fn exch(s: &mut Vec<Word>, i: usize, j: usize)
    requires
        i < old(s)@.len(),
        j < old(s)@.len(),
    ensures
        final(s)@.len() == old(s)@.len(),
        views(final(s)@) == views(old(s)@).update(i as int, views(old(s)@)[j as int]).update(
            j as int,
            views(old(s)@)[i as int],
        ),
{
    let ghost v0 = views(s@);
    let a = s[i].duplicate();
    let b = s[j].duplicate();
    s.set(i, b);
    let ghost v1 = views(s@);
    s.set(j, a);
    proof {
        assert(v1 =~= v0.update(i as int, v0[j as int]));
        assert(views(s@) =~= v1.update(j as int, v0[i as int]));
    }
}

/// Swapping two positions of a range rearranges it but keeps the same words.
proof fn lemma_swap_multiset(v: Seq<Seq<u8>>, lo: int, hi: int, a: int, b: int)
    requires
        0 <= lo <= a < hi <= v.len(),
        lo <= b < hi,
    ensures
        v.update(a, v[b]).update(b, v[a]).subrange(lo, hi).to_multiset() == v.subrange(
            lo,
            hi,
        ).to_multiset(),
{
    broadcast use vstd::seq_lib::to_multiset_update;

    let w = v.update(a, v[b]).update(b, v[a]);
    let sub0 = v.subrange(lo, hi);
    let sub1 = w.subrange(lo, hi);
    assert(sub1 =~= sub0.update(a - lo, sub0[b - lo]).update(b - lo, sub0[a - lo]));
    if a == b {
        assert(sub1.to_multiset() =~= sub0.to_multiset());
    } else {
        let m0 = sub0.to_multiset();
        assert(sub0.update(a - lo, sub0[b - lo]).to_multiset() == m0.insert(sub0[b - lo]).remove(
            sub0[a - lo],
        ));
        assert(sub0.update(a - lo, sub0[b - lo])[b - lo] == sub0[b - lo]);
        assert(sub1.to_multiset() == m0.insert(sub0[b - lo]).remove(sub0[a - lo]).insert(
            sub0[a - lo],
        ).remove(sub0[b - lo]));
        assert(sub1.to_multiset() =~= m0) by {
            broadcast use vstd::seq_lib::group_to_multiset_ensures;

            assert(sub0.to_multiset().contains(sub0[a - lo]));
        }
    }
}

/// Sorts the range `[lo, hi)` of the store in place by the lexicographic
/// order that starts comparing at depth `d`, moving each word down until its
/// predecessor is no longer greater. The range afterwards holds exactly the
/// words it held before.
pub fn sort(s: &mut Vec<Word>, lo: usize, hi: usize, d: usize)
    requires
        lo <= hi <= old(s)@.len(),
    ensures
        final(s)@.len() == old(s)@.len(),
        forall|p: int|
            0 <= p < old(s)@.len() && !(lo <= p < hi) ==> views(final(s)@)[p] == views(
                old(s)@,
            )[p],
        views(final(s)@).subrange(lo as int, hi as int).to_multiset() == views(old(s)@).subrange(
            lo as int,
            hi as int,
        ).to_multiset(),
        forall|p: int, q: int|
            lo <= p < q < hi ==> #[trigger] lex_le(
                views(final(s)@)[p],
                views(final(s)@)[q],
                d as int,
            ),
{
    let ghost orig = views(s@);
    let ghost dd = d as int;
    let mut i = lo;
    while i < hi
        invariant
            lo <= i <= hi <= s@.len(),
            dd == d as int,
            s@.len() == orig.len(),
            forall|p: int| 0 <= p < orig.len() && !(lo <= p < hi) ==> views(s@)[p] == orig[p],
            views(s@).subrange(lo as int, hi as int).to_multiset() == orig.subrange(
                lo as int,
                hi as int,
            ).to_multiset(),
            forall|p: int, q: int|
                lo <= p < q < i ==> #[trigger] lex_le(views(s@)[p], views(s@)[q], dd),
        decreases hi - i,
    {
        let mut j = i;
        while j > lo && less(&s[j], &s[j - 1], d)
            invariant
                lo <= j <= i < hi <= s@.len(),
                dd == d as int,
                s@.len() == orig.len(),
                forall|p: int| 0 <= p < orig.len() && !(lo <= p < hi) ==> views(s@)[p] == orig[p],
                views(s@).subrange(lo as int, hi as int).to_multiset() == orig.subrange(
                    lo as int,
                    hi as int,
                ).to_multiset(),
                forall|p: int, q: int|
                    lo <= p < q <= i && q != j ==> #[trigger] lex_le(
                        views(s@)[p],
                        views(s@)[q],
                        dd,
                    ),
                forall|q: int| j < q <= i ==> #[trigger] lex_le(views(s@)[j as int], views(s@)[q], dd),
            decreases j,
        {
            let ghost v0 = views(s@);
            proof {
                lemma_lex_lt_implies_le(v0[j as int], v0[j - 1], dd);
            }
            exch(s, j, j - 1);
            proof {
                lemma_swap_multiset(v0, lo as int, hi as int, j - 1, j as int);
                let v1 = views(s@);
                assert(v1 =~= v0.update(j - 1, v0[j as int]).update(j as int, v0[j - 1]));
                assert forall|p: int, q: int|
                    lo <= p < q <= i && q != j - 1 implies #[trigger] lex_le(v1[p], v1[q], dd) by {
                    if p == j - 1 {
                        assert(v1[p] == v0[j as int]);
                        if q == j {
                            assert(v1[q] == v0[j - 1]);
                            assert(lex_le(v0[j as int], v0[j - 1], dd));
                        } else {
                            assert(v1[q] == v0[q]);
                            assert(lex_le(v0[j as int], v0[q], dd));
                        }
                    } else if p == j {
                        assert(v1[p] == v0[j - 1] && v1[q] == v0[q]);
                        assert(lex_le(v0[j - 1], v0[q], dd));
                    } else if q == j {
                        assert(v1[q] == v0[j - 1] && v1[p] == v0[p]);
                        assert(lex_le(v0[p], v0[j - 1], dd));
                    } else {
                        assert(v1[p] == v0[p] && v1[q] == v0[q]);
                    }
                }
                assert forall|q: int| j - 1 < q <= i implies #[trigger] lex_le(
                    v1[j - 1],
                    v1[q],
                    dd,
                ) by {
                    assert(v1[j - 1] == v0[j as int]);
                    if q == j {
                        assert(v1[q] == v0[j - 1]);
                        assert(lex_le(v0[j as int], v0[j - 1], dd));
                    } else {
                        assert(v1[q] == v0[q]);
                        assert(lex_le(v0[j as int], v0[q], dd));
                    }
                }
            }
            j -= 1;
        }
        proof {
            let v = views(s@);
            if j > lo {
                lemma_lex_not_lt(v[j as int], v[j - 1], dd);
            }
            assert forall|p: int, q: int| lo <= p < q <= i implies #[trigger] lex_le(
                v[p],
                v[q],
                dd,
            ) by {
                if q == j && p < j - 1 {
                    assert(lex_le(v[p], v[j - 1], dd));
                    assert(lex_le(v[j - 1], v[j as int], dd));
                    lemma_lex_le_trans(v[p], v[j - 1], v[j as int], dd);
                }
            }
        }
        i += 1;
    }
}

} // verus!
