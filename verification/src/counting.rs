//! The counting-sort primitive shared by the LSD and the MSD sorter: one
//! stable pass over a range of the word store, keyed by the byte at one digit
//! position, with a sentinel bucket for words that have already ended.

use vstd::prelude::*;
use crate::word::{Word, views};
use crate::order::{key_at, key_pred};
use crate::seq_facts::{
    lemma_filter_push, lemma_filter_all_pos, lemma_bucket_cat_whole, lemma_bucket_cat_mono,
    bucket_cat,
};

verus! {

/// The bucket key of the word at position `i`, as executable code: `0` for a
/// word that ended before digit `d`, else its byte at `d`, plus one.
fn key_of(words: &Vec<Word>, i: usize, d: usize) -> (k: usize)
    requires
        i < words@.len(),
    ensures
        k == key_at(words@[i as int]@, d as int),
        k < 257,
{
    if d < words[i].len() {
        words[i].byte_at(d) as usize + 1
    } else {
        0
    }
}

/// Counts, bucket by bucket, the words of the range `[lo, hi)`.
fn build_counts(words: &Vec<Word>, lo: usize, hi: usize, d: usize) -> (counts: Vec<usize>)
    requires
        lo <= hi <= words@.len(),
    ensures
        counts@.len() == 257,
        forall|k: int|
            0 <= k < 257 ==> counts@[k] == views(words@).subrange(lo as int, hi as int).filter(
                #[trigger] key_pred(d as int, k),
            ).len(),
{
    let ghost range0 = views(words@).subrange(lo as int, hi as int);
    let ghost dd = d as int;
    let mut counts: Vec<usize> = Vec::new();
    for k in 0..257
        invariant
            counts@.len() == k,
            forall|p: int| 0 <= p < k ==> counts@[p] == 0,
    {
        counts.push(0);
    }
    proof {
        reveal(Seq::filter);
        assert(range0.subrange(0, 0) =~= Seq::<Seq<u8>>::empty());
    }
    let mut i = lo;
    while i < hi
        invariant
            lo <= i <= hi <= words@.len(),
            dd == d as int,
            range0 == views(words@).subrange(lo as int, hi as int),
            counts@.len() == 257,
            forall|k: int|
                0 <= k < 257 ==> counts@[k] == range0.subrange(0, i - lo).filter(
                    #[trigger] key_pred(dd, k),
                ).len(),
        decreases hi - i,
    {
        let ghost prefix = range0.subrange(0, i - lo);
        let ki = key_of(words, i, d);
        proof {
            assert(range0[i - lo] == words@[i as int]@);
            prefix.lemma_filter_len(key_pred(dd, ki as int));
            assert forall|k: int| 0 <= k < 257 implies range0.subrange(0, i + 1 - lo).filter(
                #[trigger] key_pred(dd, k),
            ) == if k == ki {
                prefix.filter(key_pred(dd, k)).push(range0[i - lo])
            } else {
                prefix.filter(key_pred(dd, k))
            } by {
                lemma_filter_push(prefix, key_pred(dd, k), range0[i - lo]);
                assert(prefix.push(range0[i - lo]) =~= range0.subrange(0, i + 1 - lo));
            }
        }
        let c = counts[ki];
        counts.set(ki, c + 1);
        i += 1;
    }
    proof {
        assert(range0.subrange(0, hi - lo) =~= range0);
    }
    counts
}

/// Exclusive prefix sums over the bucket counts: entry `k` of the result is
/// the offset where bucket `k` starts within the range.
fn build_bounds(counts: &Vec<usize>, words: &Vec<Word>, lo: usize, hi: usize, d: usize) -> (bounds:
    Vec<usize>)
    requires
        lo <= hi <= words@.len(),
        counts@.len() == 257,
        forall|k: int|
            0 <= k < 257 ==> counts@[k] == views(words@).subrange(lo as int, hi as int).filter(
                #[trigger] key_pred(d as int, k),
            ).len(),
    ensures
        bounds@.len() == 258,
        bounds@[0] == 0,
        bounds@[257] == hi - lo,
        forall|p: int, q: int| 0 <= p <= q < 258 ==> bounds@[p] <= bounds@[q],
        forall|k: int| 0 <= k < 257 ==> bounds@[k + 1] == bounds@[k] + counts@[k],
        forall|p: int|
            0 <= p < 258 ==> bounds@[p] == bucket_cat(
                views(words@).subrange(lo as int, hi as int),
                d as int,
                p,
            ).len(),
{
    let ghost range0 = views(words@).subrange(lo as int, hi as int);
    let ghost dd = d as int;
    proof {
        lemma_bucket_cat_whole(range0, dd);
    }
    let mut bounds: Vec<usize> = Vec::new();
    bounds.push(0);
    for k in 0..257
        invariant
            counts@.len() == 257,
            forall|kk: int|
                0 <= kk < 257 ==> counts@[kk] == range0.filter(#[trigger] key_pred(dd, kk)).len(),
            dd == d as int,
            range0 == views(words@).subrange(lo as int, hi as int),
            bounds@.len() == k + 1,
            bounds@[0] == 0,
            forall|p: int| 0 <= p <= k ==> bounds@[p] == bucket_cat(range0, dd, p).len(),
            forall|p: int, q: int| 0 <= p <= q <= k ==> bounds@[p] <= bounds@[q],
            bucket_cat(range0, dd, 257).len() == range0.len() == hi - lo,
    {
        proof {
            lemma_bucket_cat_mono(range0, dd, k + 1, 257);
        }
        let b = bounds[k];
        bounds.push(b + counts[k]);
    }
    bounds
}

/// Deals the words of the range out into a fresh buffer, each to its
/// bucket's next free slot, in input order: the stable distribution.
fn distribute(words: &Vec<Word>, lo: usize, hi: usize, d: usize, bounds: &Vec<usize>) -> (aux: Vec<
    Word,
>)
    requires
        lo <= hi <= words@.len(),
        bounds@.len() == 258,
        bounds@[0] == 0,
        bounds@[257] == hi - lo,
        forall|p: int, q: int| 0 <= p <= q < 258 ==> bounds@[p] <= bounds@[q],
        forall|k: int|
            0 <= k < 257 ==> bounds@[k + 1] == bounds@[k] + views(words@).subrange(
                lo as int,
                hi as int,
            ).filter(#[trigger] key_pred(d as int, k)).len(),
    ensures
        aux@.len() == hi - lo,
        forall|k: int|
            0 <= k < 257 ==> views(aux@).subrange(bounds@[k] as int, bounds@[k + 1] as int)
                == views(words@).subrange(lo as int, hi as int).filter(
                #[trigger] key_pred(d as int, k),
            ),
{
    let ghost range0 = views(words@).subrange(lo as int, hi as int);
    let ghost dd = d as int;

    let mut aux: Vec<Word> = Vec::new();
    let mut i = lo;
    while i < hi
        invariant
            lo <= i <= hi <= words@.len(),
            aux@.len() == i - lo,
        decreases hi - i,
    {
        aux.push(words[i].duplicate());
        i += 1;
    }

    let mut pos: Vec<usize> = Vec::new();
    for k in 0..257
        invariant
            bounds@.len() == 258,
            pos@.len() == k,
            forall|p: int| 0 <= p < k ==> pos@[p] == bounds@[p],
    {
        pos.push(bounds[k]);
    }

    proof {
        reveal(Seq::filter);
        assert(range0.subrange(0, 0) =~= Seq::<Seq<u8>>::empty());
        assert forall|kk: int| 0 <= kk < 257 implies views(aux@).subrange(
            bounds@[kk] as int,
            pos@[kk] as int,
        ) =~= range0.subrange(0, 0).filter(#[trigger] key_pred(dd, kk)) by {
            assert(bounds@[kk] <= bounds@[257]);
        }
    }
    let mut i = lo;
    while i < hi
        invariant
            lo <= i <= hi <= words@.len(),
            dd == d as int,
            range0 == views(words@).subrange(lo as int, hi as int),
            aux@.len() == hi - lo,
            bounds@.len() == 258,
            pos@.len() == 257,
            bounds@[0] == 0,
            bounds@[257] == hi - lo,
            forall|p: int, q: int| 0 <= p <= q < 258 ==> bounds@[p] <= bounds@[q],
            forall|kk: int|
                0 <= kk < 257 ==> bounds@[kk + 1] == bounds@[kk] + range0.filter(
                    #[trigger] key_pred(dd, kk),
                ).len(),
            forall|kk: int|
                0 <= kk < 257 ==> pos@[kk] == bounds@[kk] + range0.subrange(0, i - lo).filter(
                    #[trigger] key_pred(dd, kk),
                ).len(),
            forall|kk: int| 0 <= kk < 257 ==> pos@[kk] <= bounds@[kk + 1],
            forall|kk: int|
                0 <= kk < 257 ==> views(aux@).subrange(bounds@[kk] as int, pos@[kk] as int)
                    == range0.subrange(0, i - lo).filter(#[trigger] key_pred(dd, kk)),
        decreases hi - i,
    {
        let ghost prefix = range0.subrange(0, i - lo);
        let ghost auxv0 = views(aux@);
        let ki = key_of(words, i, d);
        let ghost kii = ki as int;
        proof {
            assert(range0[i - lo] == words@[i as int]@);
            // There is room in bucket `ki`: the rest of the range still holds
            // this word, so its filter of the whole range is longer than its
            // filter of the prefix dealt out so far.
            let rest = range0.subrange(i - lo, hi - lo);
            assert(range0 =~= prefix + rest);
            Seq::filter_distributes_over_add(prefix, rest, key_pred(dd, kii));
            let one = seq![range0[i - lo]];
            let rest2 = range0.subrange(i + 1 - lo, hi - lo);
            assert(rest =~= one + rest2);
            Seq::filter_distributes_over_add(one, rest2, key_pred(dd, kii));
            assert(one.len() == 1 && one[0] == range0[i - lo]);
            lemma_filter_all_pos(one, key_pred(dd, kii));
            assert(rest.filter(key_pred(dd, kii)).len() >= 1);
            assert(pos@[kii] < bounds@[kii + 1]);
        }
        let slot = pos[ki];
        let ghost pos0 = pos@;
        aux.set(slot, words[i].duplicate());
        pos.set(ki, slot + 1);
        proof {
            assert(views(aux@) =~= auxv0.update(slot as int, range0[i - lo]));
            assert(pos@[kii] == slot + 1);
            assert forall|kk: int| 0 <= kk < 257 && kk != kii implies pos@[kk] == pos0[kk] by {}
            lemma_distribute_step(
                auxv0,
                views(aux@),
                pos0,
                pos@,
                range0,
                bounds@,
                dd,
                i - lo,
                kii,
                slot as int,
            );
        }
        i += 1;
    }
    proof {
        assert(range0.subrange(0, hi - lo) =~= range0);
        assert forall|k: int| 0 <= k < 257 implies views(aux@).subrange(
            bounds@[k] as int,
            bounds@[k + 1] as int,
        ) == range0.filter(#[trigger] key_pred(dd, k)) by {
            assert(pos@[k] == bounds@[k] + range0.filter(key_pred(dd, k)).len());
        }
    }
    aux
}


/// Dealing out one more word keeps every bucket's segment of the buffer equal
/// to that bucket's filter of the prefix dealt so far.
#[verifier::rlimit(100)]
#[verifier::spinoff_prover]
proof fn lemma_distribute_step(
    auxv0: Seq<Seq<u8>>,
    auxv1: Seq<Seq<u8>>,
    pos0: Seq<usize>,
    pos1: Seq<usize>,
    range0: Seq<Seq<u8>>,
    bounds: Seq<usize>,
    dd: int,
    t: int,
    kii: int,
    slot: int,
)
    requires
        bounds.len() == 258,
        bounds[0] == 0,
        bounds[257] == range0.len(),
        auxv0.len() == range0.len(),
        forall|p: int, q: int| 0 <= p <= q < 258 ==> bounds[p] <= bounds[q],
        forall|kk: int|
            0 <= kk < 257 ==> bounds[kk + 1] == bounds[kk] + range0.filter(
                #[trigger] key_pred(dd, kk),
            ).len(),
        0 <= t < range0.len(),
        forall|kk: int|
            0 <= kk < 257 ==> pos0[kk] == bounds[kk] + range0.subrange(0, t).filter(
                #[trigger] key_pred(dd, kk),
            ).len(),
        forall|kk: int| 0 <= kk < 257 ==> pos0[kk] <= bounds[kk + 1],
        forall|kk: int|
            0 <= kk < 257 ==> auxv0.subrange(bounds[kk] as int, pos0[kk] as int)
                == range0.subrange(0, t).filter(#[trigger] key_pred(dd, kk)),
        pos0.len() == 257,
        kii == key_at(range0[t], dd),
        0 <= kii < 257,
        slot == pos0[kii],
        slot < bounds[kii + 1],
        auxv1 == auxv0.update(slot, range0[t]),
        pos1.len() == 257,
        pos1[kii] == slot + 1,
        forall|kk: int| 0 <= kk < 257 && kk != kii ==> pos1[kk] == pos0[kk],
    ensures
        forall|kk: int|
            0 <= kk < 257 ==> pos1[kk] == bounds[kk] + range0.subrange(0, t + 1).filter(
                #[trigger] key_pred(dd, kk),
            ).len(),
        forall|kk: int| 0 <= kk < 257 ==> pos1[kk] <= bounds[kk + 1],
        forall|kk: int|
            0 <= kk < 257 ==> auxv1.subrange(bounds[kk] as int, pos1[kk] as int)
                == range0.subrange(0, t + 1).filter(#[trigger] key_pred(dd, kk)),
{
    let prefix = range0.subrange(0, t);
    let cur = range0[t];
    let pk = key_pred(dd, kii);
    assert(pos0[kii] == bounds[kii] + prefix.filter(pk).len());
    assert(bounds[kii] <= slot);
    assert forall|kk: int| 0 <= kk < 257 implies range0.subrange(0, t + 1).filter(
        #[trigger] key_pred(dd, kk),
    ) == if kk == kii {
        prefix.filter(key_pred(dd, kk)).push(cur)
    } else {
        prefix.filter(key_pred(dd, kk))
    } by {
        lemma_filter_push(prefix, key_pred(dd, kk), cur);
        assert(prefix.push(cur) =~= range0.subrange(0, t + 1));
    }
    assert forall|kk: int| 0 <= kk < 257 implies auxv1.subrange(
        bounds[kk] as int,
        pos1[kk] as int,
    ) == range0.subrange(0, t + 1).filter(#[trigger] key_pred(dd, kk)) by {
        if kk == kii {
            assert(pos1[kk] == slot + 1);
            assert(bounds[kk] <= slot);
            assert(auxv1.subrange(bounds[kk] as int, pos1[kk] as int) =~= auxv0.subrange(
                bounds[kk] as int,
                slot,
            ).push(cur));
        } else {
            let pkk = key_pred(dd, kk);
            assert(pos0[kk] == bounds[kk] + prefix.filter(pkk).len());
            assert(pos1[kk] == pos0[kk]);
            if kk < kii {
                assert(bounds[kk + 1] <= bounds[kii]);
                assert(bounds[kii] <= slot);
            } else {
                assert(bounds[kii + 1] <= bounds[kk]);
            }
            assert(bounds[kk] <= pos0[kk]);
            assert(pos0[kk] <= bounds[kk + 1]);
            assert(bounds[kk + 1] <= bounds[257]);
            assert forall|p: int| bounds[kk] <= p < pos1[kk] implies auxv1[p] == auxv0[p] by {
                assert(p != slot);
                assert(auxv1[p] == auxv0.update(slot, cur)[p]);
            }
            assert(auxv1.subrange(bounds[kk] as int, pos1[kk] as int) =~= auxv0.subrange(
                bounds[kk] as int,
                pos0[kk] as int,
            ));
        }
    }
}

/// Copies the dealt-out buffer back over the range.
fn copy_back(words: &mut Vec<Word>, aux: &Vec<Word>, lo: usize, hi: usize)
    requires
        lo <= hi <= old(words)@.len(),
        aux@.len() == hi - lo,
    ensures
        final(words)@.len() == old(words)@.len(),
        forall|p: int|
            0 <= p < old(words)@.len() && !(lo <= p < hi) ==> views(final(words)@)[p] == views(
                old(words)@,
            )[p],
        forall|p: int| lo <= p < hi ==> views(final(words)@)[p] == views(aux@)[p - lo],
{
    let ghost orig = views(words@);
    let mut i = lo;
    while i < hi
        invariant
            lo <= i <= hi <= words@.len(),
            words@.len() == orig.len(),
            aux@.len() == hi - lo,
            forall|p: int| 0 <= p < orig.len() && !(lo <= p < i) ==> views(words@)[p] == orig[p],
            forall|p: int| lo <= p < i ==> views(words@)[p] == views(aux@)[p - lo],
        decreases hi - i,
    {
        let ghost wv0 = views(words@);
        let w = aux[i - lo].duplicate();
        words.set(i, w);
        proof {
            assert(views(words@) =~= wv0.update(i as int, views(aux@)[i - lo]));
        }
        i += 1;
    }
}

/// One stable counting-sort pass over the range `[lo, hi)` of the store, on
/// the digit at offset `d`.
///
/// The returned table has 258 entries: entry `k` is the offset, within the
/// range, where bucket `k` starts, and the final entry is the range's length.
/// Words that end before `d` fall under the sentinel bucket `0` and so sort
/// before every word that continues; no digit offset is ever out of bounds.
///
/// Stability is the heart of the contract: each bucket's segment of the
/// reordered range equals the filter of the original range by that bucket's
/// key, so words with equal keys retain their relative input order.
#[verifier::rlimit(100)]
pub fn counting_pass(words: &mut Vec<Word>, lo: usize, hi: usize, d: usize) -> (bounds: Vec<usize>)
    requires
        lo <= hi <= old(words)@.len(),
    ensures
        final(words)@.len() == old(words)@.len(),
        forall|i: int|
            0 <= i < old(words)@.len() && !(lo <= i < hi) ==> views(final(words)@)[i] == views(
                old(words)@,
            )[i],
        bounds@.len() == 258,
        bounds@[0] == 0,
        bounds@[257] == hi - lo,
        forall|p: int, q: int| 0 <= p <= q < 258 ==> bounds@[p] <= bounds@[q],
        forall|k: int|
            0 <= k < 257 ==> views(final(words)@).subrange(
                lo + bounds@[k] as int,
                lo + bounds@[k + 1] as int,
            ) == views(old(words)@).subrange(lo as int, hi as int).filter(
                #[trigger] key_pred(d as int, k),
            ),
        views(final(words)@).subrange(lo as int, hi as int).to_multiset() == views(
            old(words)@,
        ).subrange(lo as int, hi as int).to_multiset(),
{
    let ghost orig = views(words@);
    let ghost range0 = orig.subrange(lo as int, hi as int);
    let ghost dd = d as int;

    let counts = build_counts(words, lo, hi, d);
    let bounds = build_bounds(&counts, words, lo, hi, d);
    let aux = distribute(words, lo, hi, d, &bounds);
    copy_back(words, &aux, lo, hi);

    proof {
        let rn = views(words@).subrange(lo as int, hi as int);
        assert forall|k: int| 0 <= k < 257 implies views(words@).subrange(
            lo + bounds@[k] as int,
            lo + bounds@[k + 1] as int,
        ) == range0.filter(#[trigger] key_pred(dd, k)) by {
            assert(views(words@).subrange(lo + bounds@[k] as int, lo + bounds@[k + 1] as int)
                =~= views(aux@).subrange(bounds@[k] as int, bounds@[k + 1] as int));
        }
        assert forall|k: int| 0 <= k < 257 implies rn.subrange(
            bounds@[k] as int,
            bounds@[k + 1] as int,
        ) == range0.filter(#[trigger] key_pred(dd, k)) by {
            assert(rn.subrange(bounds@[k] as int, bounds@[k + 1] as int) =~= views(
                words@,
            ).subrange(lo + bounds@[k] as int, lo + bounds@[k + 1] as int));
        }
        lemma_segments_tile(rn, range0, bounds@, dd, 257);
        assert(rn.subrange(0, hi - lo) =~= rn);
        lemma_bucket_cat_whole(range0, dd);
    }
    bounds
}

/// The segments of `rn` delimited by the bucket bounds are, in order, the
/// bucket filters of `r0`; so `rn` as a whole is the bucket concatenation.
pub(crate) proof fn lemma_segments_tile(rn: Seq<Seq<u8>>, r0: Seq<Seq<u8>>, b: Seq<usize>, d: int, j: int)
    requires
        b.len() == 258,
        b[0] == 0,
        b[257] == rn.len(),
        forall|p: int, q: int| 0 <= p <= q < 258 ==> b[p] <= b[q],
        0 <= j <= 257,
        forall|k: int|
            0 <= k < 257 ==> rn.subrange(b[k] as int, b[k + 1] as int) == r0.filter(
                #[trigger] key_pred(d, k),
            ),
    ensures
        rn.subrange(0, b[j] as int) == bucket_cat(r0, d, j),
    decreases j,
{
    if j == 0 {
        assert(rn.subrange(0, 0) =~= bucket_cat(r0, d, 0));
    } else {
        lemma_segments_tile(rn, r0, b, d, j - 1);
        assert(rn.subrange(0, b[j] as int) =~= rn.subrange(0, b[j - 1] as int) + rn.subrange(
            b[j - 1] as int,
            b[j] as int,
        ));
    }
}

} // verus!
