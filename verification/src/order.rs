//! The lexicographic order on byte strings, compared from a given digit
//! position on, and the bucket key a word falls under at a digit position.

use vstd::prelude::*;

verus! {

/// `a` is lexicographically less than or equal to `b`, comparing bytes from
/// index `d` on. A word exhausted first is less than or equal to every word
/// that continues: a prefix sorts before its extensions.
pub open spec fn lex_le(a: Seq<u8>, b: Seq<u8>, d: int) -> bool
    decreases a.len() - d,
{
    if d >= a.len() {
        true
    } else if d >= b.len() {
        false
    } else if a[d] < b[d] {
        true
    } else if a[d] > b[d] {
        false
    } else {
        lex_le(a, b, d + 1)
    }
}

/// `a` is strictly lexicographically less than `b`, comparing bytes from
/// index `d` on: a differing byte orders by byte value, and when all compared
/// bytes agree the word exhausted first is the lesser — by length when both
/// have already ended at `d`.
pub open spec fn lex_lt(a: Seq<u8>, b: Seq<u8>, d: int) -> bool
    decreases b.len() - d,
{
    if d >= a.len() && d >= b.len() {
        a.len() < b.len()
    } else if d >= a.len() {
        true
    } else if d >= b.len() {
        false
    } else if a[d] < b[d] {
        true
    } else if a[d] > b[d] {
        false
    } else {
        lex_lt(a, b, d + 1)
    }
}

/// The counting-sort bucket of word `w` at digit position `d`: bucket `0` is
/// the sentinel for words that have ended before position `d`, and a word with
/// byte `c` at position `d` falls under bucket `c + 1`.
pub open spec fn key_at(w: Seq<u8>, d: int) -> int {
    if 0 <= d < w.len() {
        w[d] + 1
    } else {
        0
    }
}

/// The predicate selecting the words that fall under bucket `k` at digit
/// position `d`. All contracts use this one function value, so that filters
/// by the same bucket are filters by the same predicate.
pub open spec fn key_pred(d: int, k: int) -> spec_fn(Seq<u8>) -> bool {
    |w: Seq<u8>| key_at(w, d) == k
}

/// The sequence `s` is sorted under the lexicographic order that starts
/// comparing at index `d`.
pub open spec fn sorted_from(s: Seq<Seq<u8>>, d: int) -> bool {
    forall|i: int, j: int| 0 <= i < j < s.len() ==> #[trigger] lex_le(s[i], s[j], d)
}

/// The order is reflexive.
pub proof fn lemma_lex_le_refl(a: Seq<u8>, d: int)
    ensures
        lex_le(a, a, d),
    decreases a.len() - d,
{
    if d < a.len() {
        lemma_lex_le_refl(a, d + 1);
    }
}

/// A word not strictly less than another is reached by the non-strict order
/// from the other side. The two are not complements: two words that have
/// both ended compare as equal under `lex_le` in either direction, while
/// `lex_lt` still orders them by length.
pub proof fn lemma_lex_not_lt(a: Seq<u8>, b: Seq<u8>, d: int)
    ensures
        !lex_lt(a, b, d) ==> lex_le(b, a, d),
    decreases a.len() - d,
{
    if d < a.len() && d < b.len() && a[d] == b[d] {
        lemma_lex_not_lt(a, b, d + 1);
    }
}

/// Strictly less implies less than or equal.
pub proof fn lemma_lex_lt_implies_le(a: Seq<u8>, b: Seq<u8>, d: int)
    requires
        lex_lt(a, b, d),
    ensures
        lex_le(a, b, d),
    decreases b.len() - d,
{
    if d < a.len() && d < b.len() && a[d] == b[d] {
        lemma_lex_lt_implies_le(a, b, d + 1);
    }
}

/// The order is transitive at every digit position.
pub proof fn lemma_lex_le_trans(a: Seq<u8>, b: Seq<u8>, c: Seq<u8>, d: int)
    requires
        lex_le(a, b, d),
        lex_le(b, c, d),
    ensures
        lex_le(a, c, d),
    decreases a.len() - d,
{
    if d < a.len() && d < c.len() && a[d] == c[d] {
        lemma_lex_le_trans(a, b, c, d + 1);
    }
}

/// The order is antisymmetric: two byte strings each less than or equal to
/// the other, from index `d` on, agree from index `d` on.
pub proof fn lemma_lex_le_antisym_from(a: Seq<u8>, b: Seq<u8>, d: int)
    requires
        0 <= d <= a.len(),
        d <= b.len(),
        lex_le(a, b, d),
        lex_le(b, a, d),
    ensures
        a.len() == b.len(),
        forall|i: int| d <= i < a.len() ==> a[i] == b[i],
    decreases a.len() - d,
{
    if d >= a.len() {
        assert(d == b.len());
    } else {
        lemma_lex_le_antisym_from(a, b, d + 1);
    }
}

/// Antisymmetry at the start of the words: the lexicographic order is a total
/// order on whole byte strings.
pub proof fn lemma_lex_le_antisym(a: Seq<u8>, b: Seq<u8>)
    requires
        lex_le(a, b, 0),
        lex_le(b, a, 0),
    ensures
        a == b,
{
    lemma_lex_le_antisym_from(a, b, 0);
    assert(a =~= b);
}

/// A smaller bucket key at position `d` means strictly smaller in the
/// lexicographic order from `d` on.
pub proof fn lemma_key_orders(a: Seq<u8>, b: Seq<u8>, d: int)
    requires
        0 <= d,
        key_at(a, d) < key_at(b, d),
    ensures
        lex_lt(a, b, d),
        lex_le(a, b, d),
        !lex_le(b, a, d),
{
}

/// Two words in the sentinel bucket at `d` have both ended: from `d` on they
/// compare as equal, in either direction.
pub proof fn lemma_sentinel_le(a: Seq<u8>, b: Seq<u8>, d: int)
    requires
        0 <= d,
        key_at(a, d) == 0,
        key_at(b, d) == 0,
    ensures
        lex_le(a, b, d),
        lex_le(b, a, d),
{
}

/// Words sharing a bucket key at `d` compare from `d` exactly as they compare
/// from `d + 1`.
pub proof fn lemma_key_eq_step(a: Seq<u8>, b: Seq<u8>, d: int)
    requires
        0 <= d,
        key_at(a, d) == key_at(b, d),
        key_at(a, d) > 0,
    ensures
        lex_le(a, b, d) == lex_le(a, b, d + 1),
{
}

} // verus!
