//! The most-significant-digit radix sorter: partitions a range by its byte at
//! the current depth with the counting-sort primitive, then refines each byte
//! bucket one depth further, falling back to insertion sort at the cutoff.
//! Words that end at the current depth fall into the sentinel bucket, which
//! sorts first and, since all its words are then equal, needs no refinement.

use vstd::prelude::*;
use crate::word::{Word, views};
use crate::order::{
    lex_le, key_at, key_pred, sorted_from, lemma_key_orders, lemma_sentinel_le, lemma_key_eq_step,
};
use crate::tokenize::{tokenize, tokens_of};
use vstd::string::StringSliceAdditionalSpecFns;
use crate::counting::counting_pass;
use crate::insertion;
use crate::seq_facts::lemma_filter_in;

verus! {

/// The length of the longest word in `s`, or zero for an empty sequence.
pub open spec fn max_word_len(s: Seq<Seq<u8>>) -> int
    decreases s.len(),
{
    if s.len() == 0 {
        0
    } else {
        let m = max_word_len(s.drop_last());
        if s.last().len() > m {
            s.last().len() as int
        } else {
            m
        }
    }
}

/// No word of `s` is longer than `max_word_len(s)`, which is never negative.
pub proof fn lemma_max_word_len(s: Seq<Seq<u8>>)
    ensures
        max_word_len(s) >= 0,
        forall|i: int| 0 <= i < s.len() ==> (#[trigger] s[i]).len() <= max_word_len(s),
    decreases s.len(),
{
    if s.len() > 0 {
        lemma_max_word_len(s.drop_last());
        assert forall|i: int| 0 <= i < s.len() implies (#[trigger] s[i]).len() <= max_word_len(
            s,
        ) by {
            if i < s.len() - 1 {
                assert(s.drop_last()[i] == s[i]);
            }
        }
    }
}

/// A range whose delimited segments each hold the same words as the matching
/// segments of another sequence holds, as a whole, the same words.
#[verifier::rlimit(50)]
#[verifier::spinoff_prover]
proof fn lemma_tile_multiset(rn: Seq<Seq<u8>>, r1: Seq<Seq<u8>>, b: Seq<usize>, j: int)
    requires
        b.len() == 258,
        b[0] == 0,
        b[257] == rn.len(),
        rn.len() == r1.len(),
        forall|p: int, q: int| 0 <= p <= q < 258 ==> b[p] <= b[q],
        0 <= j <= 257,
        forall|k: int| #![trigger b[k]]
            0 <= k < 257 ==> rn.subrange(b[k] as int, b[k + 1] as int).to_multiset()
                == r1.subrange(b[k] as int, b[k + 1] as int).to_multiset(),
    ensures
        rn.subrange(0, b[j] as int).to_multiset() == r1.subrange(0, b[j] as int).to_multiset(),
    decreases j,
{
    if j == 0 {
        assert(rn.subrange(0, 0) =~= r1.subrange(0, 0));
    } else {
        lemma_tile_multiset(rn, r1, b, j - 1);
        assert(rn.subrange(0, b[j] as int) =~= rn.subrange(0, b[j - 1] as int) + rn.subrange(
            b[j - 1] as int,
            b[j] as int,
        ));
        assert(r1.subrange(0, b[j] as int) =~= r1.subrange(0, b[j - 1] as int) + r1.subrange(
            b[j - 1] as int,
            b[j] as int,
        ));
        vstd::seq_lib::lemma_multiset_commutative(
            rn.subrange(0, b[j - 1] as int),
            rn.subrange(b[j - 1] as int, b[j] as int),
        );
        vstd::seq_lib::lemma_multiset_commutative(
            r1.subrange(0, b[j - 1] as int),
            r1.subrange(b[j - 1] as int, b[j] as int),
        );
    }
}

/// The bucket that offset `t` of the range falls in: walks the bound table
/// up from entry `k` until it passes `t`.
pub(crate) proof fn find_bucket(b: Seq<usize>, t: int, k: int) -> (r: int)
    requires
        b.len() == 258,
        b[257] > t,
        0 <= k < 257,
        b[k] <= t,
    ensures
        k <= r < 257,
        b[r] <= t < b[r + 1],
    decreases 257 - k,
{
    if t < b[k + 1] {
        k
    } else {
        find_bucket(b, t, k + 1)
    }
}

/// A word drawn from the words of a bucket filter carries that bucket's key.
proof fn lemma_multiset_elem_key(s: Seq<Seq<u8>>, d: int, k: int, x: Seq<u8>)
    requires
        s.filter(key_pred(d, k)).to_multiset().contains(x),
    ensures
        key_at(x, d) == k,
{
    broadcast use vstd::seq_lib::group_to_multiset_ensures;

    let f = s.filter(key_pred(d, k));
    assert(f.contains(x));
    let i = choose|i: int| 0 <= i < f.len() && f[i] == x;
    s.lemma_filter_pred(key_pred(d, k), i);
}

/// Sorts the range `[lo, hi)` of the store by the lexicographic order that
/// starts at depth `d`: one counting-sort pass on the byte at `d`, then each
/// byte bucket of two or more words is refined at depth `d + 1`. Ranges at or
/// below the cutoff size are handed to insertion sort instead. The ghost
/// `bound` caps every word length in the range and pays for termination.
#[verifier::rlimit(100)]
fn msd_range(
    words: &mut Vec<Word>,
    lo: usize,
    hi: usize,
    d: usize,
    cutoff: usize,
    Ghost(bound): Ghost<int>,
)
    requires
        lo <= hi <= old(words)@.len(),
        forall|i: int| lo <= i < hi ==> views(old(words)@)[i].len() <= bound,
        d <= bound + 1,
    ensures
        final(words)@.len() == old(words)@.len(),
        forall|p: int|
            0 <= p < old(words)@.len() && !(lo <= p < hi) ==> views(final(words)@)[p] == views(
                old(words)@,
            )[p],
        views(final(words)@).subrange(lo as int, hi as int).to_multiset() == views(
            old(words)@,
        ).subrange(lo as int, hi as int).to_multiset(),
        forall|p: int, q: int|
            lo <= p < q < hi ==> #[trigger] lex_le(
                views(final(words)@)[p],
                views(final(words)@)[q],
                d as int,
            ),
    decreases bound + 1 - d, hi - lo,
{
    if hi - lo <= cutoff || hi - lo <= 1 {
        insertion::sort(words, lo, hi, d);
        return ;
    }
    let ghost orig = views(words@);
    let ghost range0 = orig.subrange(lo as int, hi as int);
    let ghost dd = d as int;

    let bounds = counting_pass(words, lo, hi, d);
    let ghost range1 = views(words@).subrange(lo as int, hi as int);
    let n = hi - lo;

    proof {
        assert forall|p: int| lo <= p < hi implies views(words@)[p] == range1[p - lo] by {}
    }
    for c in 0..256
        invariant
            lo <= hi <= words@.len(),
            dd == d as int,
            d <= bound + 1,
            words@.len() == orig.len(),
            n == hi - lo,
            range0 == orig.subrange(lo as int, hi as int),
            range1.len() == n,
            bounds@.len() == 258,
            bounds@[0] == 0,
            bounds@[257] == n,
            forall|p: int, q: int| 0 <= p <= q < 258 ==> bounds@[p] <= bounds@[q],
            forall|k: int|
                0 <= k < 257 ==> range1.subrange(bounds@[k] as int, bounds@[k + 1] as int)
                    == range0.filter(#[trigger] key_pred(dd, k)),
            forall|t: int| 0 <= t < n ==> (#[trigger] range0[t]).len() <= bound,
            forall|p: int| 0 <= p < orig.len() && !(lo <= p < hi) ==> views(words@)[p] == orig[p],
            forall|p: int|
                lo <= p < lo + bounds@[1] as int ==> views(words@)[p] == range1[p - lo],
            forall|p: int|
                lo + bounds@[c + 1] as int <= p < hi ==> views(words@)[p] == range1[p - lo],
            forall|k: int| #![trigger bounds@[k]]
                1 <= k <= c ==> views(words@).subrange(
                    lo + bounds@[k] as int,
                    lo + bounds@[k + 1] as int,
                ).to_multiset() == range1.subrange(
                    bounds@[k] as int,
                    bounds@[k + 1] as int,
                ).to_multiset(),
            forall|k: int, p: int, q: int|
                #![trigger bounds@[k], lex_le(views(words@)[p], views(words@)[q], dd + 1)]
                1 <= k <= c && lo + bounds@[k] as int <= p < q < lo + bounds@[k + 1] as int
                    ==> lex_le(views(words@)[p], views(words@)[q], dd + 1),
    {
        let ghost wv0 = views(words@);
        let a = bounds[c + 1];
        let b = bounds[c + 2];
        proof {
            assert(bounds@[c + 1] <= bounds@[c + 2] && bounds@[c + 2] <= bounds@[257]);
            assert(a <= b && b <= n);
        }
        if b - a >= 2 {
            proof {
                let k = c + 1 as int;
                let seg = range1.subrange(bounds@[k] as int, bounds@[k + 1] as int);
                assert(seg == range0.filter(key_pred(dd, k)));
                lemma_filter_in(range0, key_pred(dd, k));
                assert forall|i: int| lo + a <= i < lo + b implies views(words@)[i].len()
                    <= bound && views(words@)[i].len() > dd by {
                    assert(views(words@)[i] == range1[i - lo]);
                    assert(range1[i - lo] == seg[i - lo - bounds@[k]]);
                    range0.lemma_filter_pred(key_pred(dd, k), i - lo - bounds@[k]);
                    assert(range0.contains(seg[i - lo - bounds@[k]]));
                    let t = choose|t: int| 0 <= t < range0.len() && range0[t] == seg[i - lo
                        - bounds@[k]];
                    assert(range0[t].len() <= bound);
                    assert(key_at(seg[i - lo - bounds@[k]], dd) == k);
                }
                assert(views(words@)[lo + a].len() > dd);
                assert(dd + 1 <= bound);
            }
            let wl = words[lo + a].len();
            proof {
                assert(wl == views(words@)[lo + a].len());
                assert(wl > d);
            }
            msd_range(words, lo + a, lo + b, d + 1, cutoff, Ghost(bound));
            proof {
                let k = c + 1 as int;
                let wv1 = views(words@);
                assert forall|p: int|
                    0 <= p < wv1.len() && !(lo + a <= p < lo + b) implies wv1[p] == wv0[p] by {}
                assert forall|kk: int| #![trigger bounds@[kk]]
                    1 <= kk <= c + 1 implies wv1.subrange(
                    lo + bounds@[kk] as int,
                    lo + bounds@[kk + 1] as int,
                ).to_multiset() == range1.subrange(
                    bounds@[kk] as int,
                    bounds@[kk + 1] as int,
                ).to_multiset() by {
                    assert(bounds@[kk] <= bounds@[kk + 1] && bounds@[kk + 1] <= bounds@[257]);
                    if kk == k {
                        assert(wv0.subrange(lo + bounds@[k] as int, lo + bounds@[k + 1] as int)
                            =~= range1.subrange(bounds@[k] as int, bounds@[k + 1] as int));
                        assert(wv1.subrange(lo + a as int, lo + b as int).to_multiset()
                            == wv0.subrange(lo + a as int, lo + b as int).to_multiset());
                    } else {
                        assert(bounds@[kk + 1] <= bounds@[k]);
                        assert(wv1.subrange(lo + bounds@[kk] as int, lo + bounds@[kk + 1] as int)
                            =~= wv0.subrange(lo + bounds@[kk] as int, lo + bounds@[kk + 1] as int));
                        assert(wv0.subrange(
                            lo + bounds@[kk] as int,
                            lo + bounds@[kk + 1] as int,
                        ).to_multiset() == range1.subrange(
                            bounds@[kk] as int,
                            bounds@[kk + 1] as int,
                        ).to_multiset());
                    }
                }
                assert forall|kk: int, p: int, q: int|
                    #![trigger bounds@[kk], lex_le(wv1[p], wv1[q], dd + 1)]
                    1 <= kk <= c + 1 && lo + bounds@[kk] as int <= p < q < lo + bounds@[kk
                        + 1] as int implies lex_le(wv1[p], wv1[q], dd + 1) by {
                    assert(bounds@[kk] <= bounds@[kk + 1] && bounds@[kk + 1] <= bounds@[257]);
                    if kk == k {
                        assert(lex_le(wv1[p], wv1[q], dd + 1));
                    } else {
                        assert(bounds@[kk + 1] <= bounds@[k]);
                        assert(wv1[p] == wv0[p] && wv1[q] == wv0[q]);
                        assert(lex_le(wv0[p], wv0[q], dd + 1));
                    }
                }
            }
        } else {
            proof {
                let k = c + 1 as int;
                assert forall|kk: int| #![trigger bounds@[kk]]
                    1 <= kk <= c + 1 implies views(words@).subrange(
                    lo + bounds@[kk] as int,
                    lo + bounds@[kk + 1] as int,
                ).to_multiset() == range1.subrange(
                    bounds@[kk] as int,
                    bounds@[kk + 1] as int,
                ).to_multiset() by {
                    assert(bounds@[kk] <= bounds@[kk + 1] && bounds@[kk + 1] <= bounds@[257]);
                    if kk == k {
                        assert(views(words@).subrange(
                            lo + bounds@[kk] as int,
                            lo + bounds@[kk + 1] as int,
                        ) =~= range1.subrange(bounds@[kk] as int, bounds@[kk + 1] as int));
                    }
                }
                assert forall|kk: int, p: int, q: int|
                    #![trigger bounds@[kk], lex_le(views(words@)[p], views(words@)[q], dd + 1)]
                    1 <= kk <= c + 1 && lo + bounds@[kk] as int <= p < q < lo + bounds@[kk
                        + 1] as int implies lex_le(
                    views(words@)[p],
                    views(words@)[q],
                    dd + 1,
                ) by {
                    assert(bounds@[kk] <= bounds@[kk + 1] && bounds@[kk + 1] <= bounds@[257]);
                    if kk == c + 1 {
                        assert(q < p + 2 && p < q);
                        assert(false);
                    }
                }
            }
        }
    }
    proof {
        lemma_msd_combine(views(words@), range1, range0, bounds@, dd, lo as int, hi as int);
        assert(views(words@).subrange(lo as int, hi as int).to_multiset() == views(
            old(words)@,
        ).subrange(lo as int, hi as int).to_multiset());
    }
}

/// After every byte bucket of the partitioned range has been refined one
/// depth further, the whole range is sorted from the current depth and holds
/// exactly the words the pass put there: earlier buckets carry strictly
/// smaller keys, the sentinel bucket's words are all equal from this depth,
/// and words within one byte bucket share their key.
#[verifier::rlimit(100)]
#[verifier::spinoff_prover]
proof fn lemma_msd_combine(
    wv: Seq<Seq<u8>>,
    range1: Seq<Seq<u8>>,
    range0: Seq<Seq<u8>>,
    bounds: Seq<usize>,
    dd: int,
    lo: int,
    hi: int,
)
    requires
        0 <= lo <= hi <= wv.len(),
        0 <= dd,
        range1.len() == hi - lo,
        range0.len() == hi - lo,
        bounds.len() == 258,
        bounds[0] == 0,
        bounds[257] == hi - lo,
        forall|p: int, q: int| 0 <= p <= q < 258 ==> bounds[p] <= bounds[q],
        forall|k: int|
            0 <= k < 257 ==> range1.subrange(bounds[k] as int, bounds[k + 1] as int)
                == range0.filter(#[trigger] key_pred(dd, k)),
        forall|p: int| lo <= p < lo + bounds[1] as int ==> wv[p] == range1[p - lo],
        forall|kk: int| #![trigger bounds[kk]]
            1 <= kk <= 256 ==> wv.subrange(
                lo + bounds[kk] as int,
                lo + bounds[kk + 1] as int,
            ).to_multiset() == range1.subrange(
                bounds[kk] as int,
                bounds[kk + 1] as int,
            ).to_multiset(),
        forall|kk: int, p: int, q: int|
            #![trigger bounds[kk], lex_le(wv[p], wv[q], dd + 1)]
            1 <= kk <= 256 && lo + bounds[kk] as int <= p < q < lo + bounds[kk + 1] as int
                ==> lex_le(wv[p], wv[q], dd + 1),
        range1.to_multiset() == range0.to_multiset(),
    ensures
        wv.subrange(lo, hi).to_multiset() == range0.to_multiset(),
        forall|p: int, q: int|
            lo <= p < q < hi ==> #[trigger] lex_le(wv[p], wv[q], dd),
{
    let n = hi - lo;
    let rn = wv.subrange(lo, hi);
    assert(rn.len() == n);
    assert forall|t: int| 0 <= t < n implies rn[t] == wv[lo + t] by {}
    // The whole range holds the words it held after the pass, bucket by
    // bucket; the sentinel bucket was never touched at all.
    assert forall|k: int| #![trigger bounds[k]]
        0 <= k < 257 implies rn.subrange(bounds[k] as int, bounds[k + 1] as int).to_multiset()
        == range1.subrange(bounds[k] as int, bounds[k + 1] as int).to_multiset() by {
        assert(bounds[k] <= bounds[k + 1] && bounds[k + 1] <= bounds[257]);
        if k == 0 {
            assert(rn.subrange(bounds[0] as int, bounds[1] as int) =~= range1.subrange(
                bounds[0] as int,
                bounds[1] as int,
            ));
        } else {
            assert(rn.subrange(bounds[k] as int, bounds[k + 1] as int) =~= wv.subrange(
                lo + bounds[k] as int,
                lo + bounds[k + 1] as int,
            ));
        }
    }
    lemma_tile_multiset(rn, range1, bounds, 257);
    assert(rn.subrange(0, n) =~= rn);
    assert(range1.subrange(0, n) =~= range1);

    // Sortedness: words in earlier buckets have smaller keys; words in one
    // bucket share their key and are sorted one depth further down.
    assert forall|p: int, q: int| lo <= p < q < hi implies #[trigger] lex_le(
        wv[p],
        wv[q],
        dd,
    ) by {
        let k1 = find_bucket(bounds, p - lo, 0);
        let k2 = find_bucket(bounds, q - lo, 0);
        assert(k1 <= k2) by {
            if k2 < k1 {
                assert(bounds[k2 + 1] <= bounds[k1]);
            }
        }
        let x = wv[p];
        let y = wv[q];
        assert(key_at(x, dd) == k1) by {
            lemma_bucket_key(rn, range1, range0, bounds, dd, k1, p - lo);
        }
        assert(key_at(y, dd) == k2) by {
            lemma_bucket_key(rn, range1, range0, bounds, dd, k2, q - lo);
        }
        if k1 < k2 {
            lemma_key_orders(x, y, dd);
        } else if k1 == 0 {
            lemma_sentinel_le(x, y, dd);
        } else {
            assert(lex_le(x, y, dd + 1)) by {
                if k1 <= 256 {
                    assert(lex_le(wv[p], wv[q], dd + 1));
                }
            }
            lemma_key_eq_step(x, y, dd);
        }
    }
}

/// A word standing in bucket `k` of the partitioned range carries key `k`:
/// it is one of the words the pass filtered into that bucket.
proof fn lemma_bucket_key(
    rn: Seq<Seq<u8>>,
    range1: Seq<Seq<u8>>,
    range0: Seq<Seq<u8>>,
    b: Seq<usize>,
    dd: int,
    k: int,
    t: int,
)
    requires
        b.len() == 258,
        0 <= k < 257,
        b[k] as int <= t < b[k + 1] as int,
        b[k + 1] <= rn.len(),
        range1.len() == rn.len(),
        range1.subrange(b[k] as int, b[k + 1] as int) == range0.filter(key_pred(dd, k)),
        rn.subrange(b[k] as int, b[k + 1] as int).to_multiset() == range1.subrange(
            b[k] as int,
            b[k + 1] as int,
        ).to_multiset(),
    ensures
        key_at(rn[t], dd) == k,
{
    broadcast use vstd::seq_lib::group_to_multiset_ensures;

    let seg = rn.subrange(b[k] as int, b[k + 1] as int);
    assert(seg[t - b[k]] == rn[t]);
    assert(seg.contains(rn[t]));
    assert(seg.to_multiset().contains(rn[t]));
    lemma_multiset_elem_key(range0, dd, k, rn[t]);
}

/// Sorts a word store into full lexicographic order, least word first:
/// byte-value order position by position, a word sorting before every longer
/// word it is a prefix of. The result holds exactly the words given, and the
/// cutoff chooses below which partition size insertion sort takes over; the
/// sorted order does not depend on it.
pub fn msd_sort_with_cutoff(words: Vec<Word>, cutoff: usize) -> (r: Vec<Word>)
    ensures
        r@.len() == words@.len(),
        views(r@).to_multiset() == views(words@).to_multiset(),
        forall|p: int, q: int|
            0 <= p < q < r@.len() ==> #[trigger] lex_le(views(r@)[p], views(r@)[q], 0),
{
    let mut w = words;
    let n = w.len();
    let ghost bound = max_word_len(views(w@));
    proof {
        lemma_max_word_len(views(w@));
        assert(views(w@).subrange(0, n as int) =~= views(w@));
    }
    msd_range(&mut w, 0, n, 0, cutoff, Ghost(bound));
    proof {
        assert(views(w@).subrange(0, n as int) =~= views(w@));
    }
    w
}

/// Sorts a word store into full lexicographic order with the default cutoff:
/// only trivial partitions of at most one word skip the radix partitioning.
pub fn msd_sort(words: Vec<Word>) -> (r: Vec<Word>)
    ensures
        r@.len() == words@.len(),
        views(r@).to_multiset() == views(words@).to_multiset(),
        forall|p: int, q: int|
            0 <= p < q < r@.len() ==> #[trigger] lex_le(views(r@)[p], views(r@)[q], 0),
{
    msd_sort_with_cutoff(words, 1)
}

/// A word store sorted by the MSD radix sorter.
#[derive(Debug)]
pub struct Msd {
    /// The words, in sorted order once a sort has run.
    pub words: Vec<Word>,
}

impl Msd {
    /// Tokenizes a text on ASCII whitespace and sorts the words into full
    /// lexicographic order.
    pub fn new(s: &str) -> (m: Msd)
        ensures
            views(m.words@).to_multiset() == tokens_of(s.spec_bytes()).to_multiset(),
            sorted_from(views(m.words@), 0),
    {
        let words = tokenize(s.as_bytes());
        let mut m = Msd { words };
        let n = m.words.len();
        let ghost tv = views(m.words@);
        m.sort(n);
        proof {
            assert(tv.subrange(0, n as int) =~= tv);
            assert(views(m.words@).subrange(0, n as int) =~= views(m.words@));
        }
        m
    }

    /// Sorts the first `hi` words of the store in place into lexicographic
    /// order, leaving the rest untouched.
    pub fn sort(&mut self, hi: usize)
        requires
            hi <= old(self).words@.len(),
        ensures
            final(self).words@.len() == old(self).words@.len(),
            forall|p: int|
                hi <= p < old(self).words@.len() ==> views(final(self).words@)[p] == views(
                    old(self).words@,
                )[p],
            views(final(self).words@).subrange(0, hi as int).to_multiset() == views(
                old(self).words@,
            ).subrange(0, hi as int).to_multiset(),
            sorted_from(views(final(self).words@).subrange(0, hi as int), 0),
    {
        let ghost bound = max_word_len(views(self.words@));
        proof {
            lemma_max_word_len(views(self.words@));
        }
        msd_range(&mut self.words, 0, hi, 0, 1, Ghost(bound));
        proof {
            let sub = views(self.words@).subrange(0, hi as int);
            assert forall|p: int, q: int| 0 <= p < q < sub.len() implies #[trigger] lex_le(
                sub[p],
                sub[q],
                0,
            ) by {
                assert(sub[p] == views(self.words@)[p] && sub[q] == views(self.words@)[q]);
            }
        }
    }

    /// The byte of word `w` at offset `d`, as a bucket value, or nothing when
    /// the word ends at or before that offset.
    pub fn char_at(&self, w: usize, d: usize) -> (r: Option<usize>)
        requires
            w < self.words@.len(),
        ensures
            r == if d < self.words@[w as int]@.len() {
                Some(self.words@[w as int]@[d as int] as usize)
            } else {
                Option::<usize>::None
            },
    {
        if d >= self.words[w].len() {
            return None;
        }
        Some(self.words[w].byte_at(d) as usize)
    }
}

} // verus!
