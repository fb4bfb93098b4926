//! Laws of the sorters: the sorted order of a word store is unique, so a
//! sort of a sorted store gives it back, and every correct partitioning
//! strategy gives the same answer.

use vstd::prelude::*;
use crate::order::{lex_le, sorted_from, lemma_lex_le_antisym, lemma_lex_le_antisym_from};

verus! {

/// Two sorted word sequences holding the same words are the same sequence:
/// the lexicographic order is total, so sortedness and the multiset of words
/// pin a sequence down completely.
pub proof fn lemma_sorted_unique(a: Seq<Seq<u8>>, b: Seq<Seq<u8>>)
    requires
        sorted_from(a, 0),
        sorted_from(b, 0),
        a.to_multiset() == b.to_multiset(),
    ensures
        a == b,
    decreases a.len(),
{
    broadcast use vstd::seq_lib::group_to_multiset_ensures;

    assert(a.to_multiset().len() == a.len());
    assert(b.to_multiset().len() == b.len());
    if a.len() == 0 {
        assert(b.len() == 0);
        assert(a =~= b);
    } else {
        assert(b.len() == a.len());
        assert(a.to_multiset().contains(a[0]));
        assert(b.contains(a[0]));
        assert(b.to_multiset().contains(b[0]));
        assert(a.contains(b[0]));
        let ja = choose|j: int| 0 <= j < b.len() && b[j] == a[0];
        let jb = choose|j: int| 0 <= j < a.len() && a[j] == b[0];
        assert(lex_le(b[0], a[0], 0)) by {
            if ja > 0 {
                assert(lex_le(b[0], b[ja], 0));
            } else {
                crate::order::lemma_lex_le_refl(b[0], 0);
            }
        }
        assert(lex_le(a[0], b[0], 0)) by {
            if jb > 0 {
                assert(lex_le(a[0], a[jb], 0));
            } else {
                crate::order::lemma_lex_le_refl(a[0], 0);
            }
        }
        lemma_lex_le_antisym(a[0], b[0]);
        assert(a[0] == b[0]);
        let a1 = a.drop_first();
        let b1 = b.drop_first();
        assert(a.remove(0) =~= a1);
        assert(b.remove(0) =~= b1);
        assert(a1.to_multiset() == a.to_multiset().remove(a[0]));
        assert(b1.to_multiset() == b.to_multiset().remove(b[0]));
        assert(sorted_from(a1, 0)) by {
            assert forall|p: int, q: int| 0 <= p < q < a1.len() implies #[trigger] lex_le(
                a1[p],
                a1[q],
                0,
            ) by {
                assert(a1[p] == a[p + 1] && a1[q] == a[q + 1]);
                assert(lex_le(a[p + 1], a[q + 1], 0));
            }
        }
        assert(sorted_from(b1, 0)) by {
            assert forall|p: int, q: int| 0 <= p < q < b1.len() implies #[trigger] lex_le(
                b1[p],
                b1[q],
                0,
            ) by {
                assert(b1[p] == b[p + 1] && b1[q] == b[q + 1]);
                assert(lex_le(b[p + 1], b[q + 1], 0));
            }
        }
        lemma_sorted_unique(a1, b1);
        assert(a =~= b) by {
            assert forall|t: int| 0 <= t < a.len() implies a[t] == b[t] by {
                if t > 0 {
                    assert(a1[t - 1] == b1[t - 1]);
                }
            }
        }
    }
}

/// Sorting an already-sorted store yields the same store: any output that is
/// sorted and holds the same words as a sorted input is that input.
pub proof fn lemma_sort_idempotent(input: Seq<Seq<u8>>, output: Seq<Seq<u8>>)
    requires
        sorted_from(input, 0),
        sorted_from(output, 0),
        output.to_multiset() == input.to_multiset(),
    ensures
        output == input,
{
    lemma_sorted_unique(output, input);
}

/// The insertion-sort cutoff cannot change the answer: two sorted
/// rearrangements of one input — whether a partition was refined by further
/// radix passes or handed to insertion sort — are the same sequence.
pub proof fn lemma_cutoff_agreement(input: Seq<Seq<u8>>, out1: Seq<Seq<u8>>, out2: Seq<Seq<u8>>)
    requires
        sorted_from(out1, 0),
        sorted_from(out2, 0),
        out1.to_multiset() == input.to_multiset(),
        out2.to_multiset() == input.to_multiset(),
    ensures
        out1 == out2,
{
    lemma_sorted_unique(out1, out2);
}

/// On a partition of the MSD sorter the order from depth `d` is again
/// antisymmetric: its words share their first `d` bytes, so words equal from
/// `d` on are equal outright.
pub proof fn lemma_sorted_unique_from(a: Seq<Seq<u8>>, b: Seq<Seq<u8>>, d: int)
    requires
        0 <= d,
        sorted_from(a, d),
        sorted_from(b, d),
        a.to_multiset() == b.to_multiset(),
        forall|i: int| 0 <= i < a.len() ==> d <= (#[trigger] a[i]).len(),
        forall|i: int, j: int| #![trigger a[i].subrange(0, d), a[j].subrange(0, d)]
            0 <= i < a.len() && 0 <= j < a.len() ==> a[i].subrange(0, d) == a[j].subrange(0, d),
    ensures
        a == b,
    decreases a.len(),
{
    broadcast use vstd::seq_lib::group_to_multiset_ensures;

    assert(a.to_multiset().len() == a.len());
    assert(b.to_multiset().len() == b.len());
    if a.len() == 0 {
        assert(b.len() == 0);
        assert(a =~= b);
    } else {
        assert(b.len() == a.len());
        assert(a.to_multiset().contains(a[0]));
        assert(b.contains(a[0]));
        assert(b.to_multiset().contains(b[0]));
        assert(a.contains(b[0]));
        let ja = choose|j: int| 0 <= j < b.len() && b[j] == a[0];
        let jb = choose|j: int| 0 <= j < a.len() && a[j] == b[0];
        assert(lex_le(b[0], a[0], d)) by {
            if ja > 0 {
                assert(lex_le(b[0], b[ja], d));
            } else {
                crate::order::lemma_lex_le_refl(b[0], d);
            }
        }
        assert(lex_le(a[0], b[0], d)) by {
            if jb > 0 {
                assert(lex_le(a[0], a[jb], d));
            } else {
                crate::order::lemma_lex_le_refl(a[0], d);
            }
        }
        assert(d <= b[0].len());
        lemma_lex_le_antisym_from(a[0], b[0], d);
        assert(a[0] =~= b[0]) by {
            assert(a[0].subrange(0, d) == a[jb].subrange(0, d));
            assert forall|t: int| 0 <= t < a[0].len() implies a[0][t] == b[0][t] by {
                if t < d {
                    assert(a[0].subrange(0, d)[t] == a[0][t]);
                    assert(b[0].subrange(0, d)[t] == b[0][t]);
                }
            }
        }
        let a1 = a.drop_first();
        let b1 = b.drop_first();
        assert(a.remove(0) =~= a1);
        assert(b.remove(0) =~= b1);
        assert(a1.to_multiset() == a.to_multiset().remove(a[0]));
        assert(b1.to_multiset() == b.to_multiset().remove(b[0]));
        assert(sorted_from(a1, d)) by {
            assert forall|p: int, q: int| 0 <= p < q < a1.len() implies #[trigger] lex_le(
                a1[p],
                a1[q],
                d,
            ) by {
                assert(a1[p] == a[p + 1] && a1[q] == a[q + 1]);
                assert(lex_le(a[p + 1], a[q + 1], d));
            }
        }
        assert(sorted_from(b1, d)) by {
            assert forall|p: int, q: int| 0 <= p < q < b1.len() implies #[trigger] lex_le(
                b1[p],
                b1[q],
                d,
            ) by {
                assert(b1[p] == b[p + 1] && b1[q] == b[q + 1]);
                assert(lex_le(b[p + 1], b[q + 1], d));
            }
        }
        assert forall|i: int| 0 <= i < a1.len() implies d <= (#[trigger] a1[i]).len() by {
            assert(a1[i] == a[i + 1]);
        }
        assert forall|i: int, j: int| #![trigger a1[i].subrange(0, d), a1[j].subrange(0, d)]
            0 <= i < a1.len() && 0 <= j < a1.len() implies a1[i].subrange(0, d) == a1[j].subrange(
            0,
            d,
        ) by {
            assert(a1[i] == a[i + 1] && a1[j] == a[j + 1]);
            assert(a[i + 1].subrange(0, d) == a[j + 1].subrange(0, d));
        }
        lemma_sorted_unique_from(a1, b1, d);
        assert(a =~= b) by {
            assert forall|t: int| 0 <= t < a.len() implies a[t] == b[t] by {
                if t > 0 {
                    assert(a1[t - 1] == b1[t - 1]);
                }
            }
        }
    }
}

/// The cutoff cannot change the answer at any depth of the partition tree:
/// a partition of the MSD sorter shares its first `d` bytes, and any two
/// rearrangements of it sorted from depth `d` — the insertion-sort path and
/// the radix-partition path both produce one — are the same sequence.
pub proof fn lemma_cutoff_agreement_at_depth(
    input: Seq<Seq<u8>>,
    out1: Seq<Seq<u8>>,
    out2: Seq<Seq<u8>>,
    d: int,
)
    requires
        0 <= d,
        forall|i: int| 0 <= i < input.len() ==> d <= (#[trigger] input[i]).len(),
        forall|i: int, j: int| #![trigger input[i].subrange(0, d), input[j].subrange(0, d)]
            0 <= i < input.len() && 0 <= j < input.len() ==> input[i].subrange(0, d)
                == input[j].subrange(0, d),
        sorted_from(out1, d),
        sorted_from(out2, d),
        out1.to_multiset() == input.to_multiset(),
        out2.to_multiset() == input.to_multiset(),
    ensures
        out1 == out2,
{
    broadcast use vstd::seq_lib::group_to_multiset_ensures;

    assert forall|i: int| 0 <= i < out1.len() implies d <= (#[trigger] out1[i]).len() by {
        assert(out1.to_multiset().contains(out1[i]));
        assert(input.contains(out1[i]));
        let t = choose|t: int| 0 <= t < input.len() && input[t] == out1[i];
        assert(d <= input[t].len());
    }
    assert forall|i: int, j: int| #![trigger out1[i].subrange(0, d), out1[j].subrange(0, d)]
        0 <= i < out1.len() && 0 <= j < out1.len() implies out1[i].subrange(0, d)
        == out1[j].subrange(0, d) by {
        assert(out1.to_multiset().contains(out1[i]));
        assert(out1.to_multiset().contains(out1[j]));
        assert(input.contains(out1[i]));
        assert(input.contains(out1[j]));
        let ti = choose|t: int| 0 <= t < input.len() && input[t] == out1[i];
        let tj = choose|t: int| 0 <= t < input.len() && input[t] == out1[j];
        assert(input[ti].subrange(0, d) == input[tj].subrange(0, d));
    }
    lemma_sorted_unique_from(out1, out2, d);
}

} // verus!
