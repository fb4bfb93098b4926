//! General facts about filtered sequences, and the decomposition of a word
//! sequence into the concatenation of its counting-sort buckets.

use vstd::prelude::*;
use crate::order::{key_at, key_pred};

verus! {

/// Filtering a sequence extended by one element keeps the filtered prefix and
/// appends the new element exactly when it satisfies the predicate.
pub proof fn lemma_filter_push<A>(s: Seq<A>, pred: spec_fn(A) -> bool, x: A)
    ensures
        s.push(x).filter(pred) == if pred(x) {
            s.filter(pred).push(x)
        } else {
            s.filter(pred)
        },
{
    reveal(Seq::filter);
    assert(s.push(x).drop_last() =~= s);
    assert(s.push(x).last() == x);
}

/// A predicate that holds of every element filters to the whole sequence.
pub proof fn lemma_filter_all_pos<A>(s: Seq<A>, pred: spec_fn(A) -> bool)
    requires
        forall|i: int| 0 <= i < s.len() ==> pred(#[trigger] s[i]),
    ensures
        s.filter(pred) == s,
    decreases s.len(),
{
    reveal(Seq::filter);
    if s.len() > 0 {
        lemma_filter_all_pos(s.drop_last(), pred);
        assert(s.drop_last().push(s.last()) =~= s);
    }
}

/// Every element of a filtered sequence occurs in the sequence it was
/// filtered from.
pub proof fn lemma_filter_in<A>(s: Seq<A>, pred: spec_fn(A) -> bool)
    ensures
        forall|p: int| 0 <= p < s.filter(pred).len() ==> s.contains(#[trigger] s.filter(pred)[p]),
    decreases s.len(),
{
    reveal(Seq::filter);
    if s.len() > 0 {
        lemma_filter_in(s.drop_last(), pred);
        assert forall|p: int| 0 <= p < s.filter(pred).len() implies s.contains(
            s.filter(pred)[p],
        ) by {
            let f = s.filter(pred);
            let fd = s.drop_last().filter(pred);
            if p < fd.len() {
                assert(fd[p] == f[p]);
                let i = choose|i: int| 0 <= i < s.drop_last().len() && s.drop_last()[i] == fd[p];
                assert(s[i] == f[p]);
            } else {
                assert(f[p] == s.last());
                assert(s[s.len() - 1] == s.last());
            }
        }
    }
}

/// Pairwise ordering survives filtering: if every pair of the sequence is
/// related by `r`, so is every pair of any filtered subsequence.
pub proof fn lemma_filter_pairwise<A>(s: Seq<A>, pred: spec_fn(A) -> bool, r: spec_fn(A, A) -> bool)
    requires
        forall|i: int, j: int| 0 <= i < j < s.len() ==> #[trigger] r(s[i], s[j]),
        forall|x: A, y: A| #[trigger] r(x, y) || r(y, x),
    ensures
        forall|p: int, q: int|
            0 <= p < q < s.filter(pred).len() ==> #[trigger] r(
                s.filter(pred)[p],
                s.filter(pred)[q],
            ),
    decreases s.len(),
{
    reveal(Seq::filter);
    if s.len() > 0 {
        lemma_filter_pairwise(s.drop_last(), pred, r);
        lemma_filter_in(s.drop_last(), pred);
        assert forall|p: int, q: int| 0 <= p < q < s.filter(pred).len() implies r(
            s.filter(pred)[p],
            s.filter(pred)[q],
        ) by {
            let f = s.filter(pred);
            let fd = s.drop_last().filter(pred);
            if q < fd.len() {
                assert(fd[p] == f[p] && fd[q] == f[q]);
            } else {
                assert(f[q] == s.last());
                assert(fd[p] == f[p]);
                assert(s.drop_last().contains(f[p]));
                let i = choose|i: int| 0 <= i < s.drop_last().len() && s.drop_last()[i] == f[p];
                if r(s[i], s.last()) {
                } else {
                    assert(r(s.last(), s[i]));
                    assert(r(s[i], s[s.len() - 1]));
                }
            }
        }
    }
}

/// Filtering twice is filtering once by the conjunction: `pq` must hold
/// exactly where both `p` and `q` hold.
pub proof fn lemma_filter_compose<A>(
    s: Seq<A>,
    p: spec_fn(A) -> bool,
    q: spec_fn(A) -> bool,
    pq: spec_fn(A) -> bool,
)
    requires
        forall|x: A| #[trigger] pq(x) == (p(x) && q(x)),
    ensures
        s.filter(p).filter(q) == s.filter(pq),
    decreases s.len(),
{
    reveal(Seq::filter);
    if s.len() == 0 {
        assert(s.filter(p) == s);
        assert(s.filter(p).filter(q) == s);
    } else {
        lemma_filter_compose(s.drop_last(), p, q, pq);
        lemma_filter_push(s.drop_last().filter(p), q, s.last());
        assert(s.drop_last().push(s.last()) =~= s);
        lemma_filter_push(s.drop_last(), p, s.last());
        lemma_filter_push(s.drop_last(), pq, s.last());
    }
}

/// The concatenation of the first `j` counting-sort buckets of `s` at digit
/// `d`: bucket `0` first, each bucket holding, in their original order, the
/// words of `s` it covers.
pub open spec fn bucket_cat(s: Seq<Seq<u8>>, d: int, j: int) -> Seq<Seq<u8>>
    decreases j,
{
    if j <= 0 {
        Seq::empty()
    } else {
        bucket_cat(s, d, j - 1) + s.filter(key_pred(d, j - 1))
    }
}

proof fn lemma_bucket_cat_empty(d: int, j: int)
    ensures
        bucket_cat(Seq::empty(), d, j).len() == 0,
    decreases j,
{
    reveal(Seq::filter);
    if j > 0 {
        lemma_bucket_cat_empty(d, j - 1);
    }
}

proof fn lemma_bucket_cat_push(s: Seq<Seq<u8>>, d: int, j: int, x: Seq<u8>)
    ensures
        bucket_cat(s.push(x), d, j).to_multiset() == if 0 <= key_at(x, d) < j {
            bucket_cat(s, d, j).to_multiset().insert(x)
        } else {
            bucket_cat(s, d, j).to_multiset()
        },
        bucket_cat(s.push(x), d, j).len() == if 0 <= key_at(x, d) < j {
            bucket_cat(s, d, j).len() + 1
        } else {
            bucket_cat(s, d, j).len()
        },
    decreases j,
{
    broadcast use vstd::seq_lib::lemma_multiset_commutative;
    broadcast use vstd::seq_lib::group_to_multiset_ensures;

    if j > 0 {
        lemma_bucket_cat_push(s, d, j - 1, x);
        let pred = key_pred(d, j - 1);
        lemma_filter_push(s, pred, x);
        if key_at(x, d) == j - 1 {
            assert(s.push(x).filter(pred) == s.filter(pred).push(x));
            assert(s.filter(pred).push(x).to_multiset() == s.filter(pred).to_multiset().insert(x));
            assert(bucket_cat(s.push(x), d, j).to_multiset() =~= bucket_cat(
                s,
                d,
                j,
            ).to_multiset().insert(x));
        } else {
            if 0 <= key_at(x, d) < j - 1 {
                assert(bucket_cat(s.push(x), d, j).to_multiset() =~= bucket_cat(
                    s,
                    d,
                    j,
                ).to_multiset().insert(x));
            } else {
                assert(bucket_cat(s.push(x), d, j).to_multiset() =~= bucket_cat(
                    s,
                    d,
                    j,
                ).to_multiset());
            }
        }
    }
}

/// Splitting a word sequence into its counting-sort buckets at a digit loses
/// and duplicates nothing: the buckets together hold exactly the words of `s`.
pub proof fn lemma_bucket_cat_whole(s: Seq<Seq<u8>>, d: int)
    ensures
        bucket_cat(s, d, 257).to_multiset() == s.to_multiset(),
        bucket_cat(s, d, 257).len() == s.len(),
    decreases s.len(),
{
    broadcast use vstd::seq_lib::group_to_multiset_ensures;

    if s.len() == 0 {
        lemma_bucket_cat_empty(d, 257);
        assert(s =~= Seq::<Seq<u8>>::empty());
        assert(bucket_cat(s, d, 257).to_multiset() =~= s.to_multiset());
    } else {
        lemma_bucket_cat_whole(s.drop_last(), d);
        lemma_bucket_cat_push(s.drop_last(), d, 257, s.last());
        assert(s.drop_last().push(s.last()) =~= s);
        assert(bucket_cat(s, d, 257).to_multiset() =~= s.to_multiset());
    }
}

/// Taking more buckets never shortens the concatenation.
pub proof fn lemma_bucket_cat_mono(s: Seq<Seq<u8>>, d: int, j1: int, j2: int)
    requires
        0 <= j1 <= j2,
    ensures
        bucket_cat(s, d, j1).len() <= bucket_cat(s, d, j2).len(),
    decreases j2 - j1,
{
    if j1 < j2 {
        lemma_bucket_cat_mono(s, d, j1, j2 - 1);
    }
}

/// Filtering the bucket decomposition by one bucket key gives back exactly
/// that bucket's filter of the underlying sequence.
pub proof fn lemma_bucket_cat_filter(s: Seq<Seq<u8>>, d: int, j: int, k: int)
    requires
        0 <= k,
    ensures
        bucket_cat(s, d, j).filter(key_pred(d, k)) == if k < j {
            s.filter(key_pred(d, k))
        } else {
            Seq::<Seq<u8>>::empty()
        },
    decreases j,
{
    reveal(Seq::filter);
    let keyk = key_pred(d, k);
    if j <= 0 {
    } else {
        lemma_bucket_cat_filter(s, d, j - 1, k);
        let keyj = key_pred(d, j - 1);
        Seq::filter_distributes_over_add(bucket_cat(s, d, j - 1), s.filter(keyj), keyk);
        broadcast use vstd::seq_lib::group_filter_ensures;

        if k == j - 1 {
            lemma_filter_all_pos(s.filter(keyj), keyk);
            assert(bucket_cat(s, d, j).filter(keyk) =~= s.filter(keyk));
        } else {
            s.filter(keyj).lemma_all_neg_filter_empty(keyk);
            assert(bucket_cat(s, d, j).filter(keyk) =~= bucket_cat(s, d, j - 1).filter(keyk));
        }
    }
}

} // verus!
