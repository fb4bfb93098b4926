//! The least-significant-digit radix sorter for fixed-width words: one
//! stable counting-sort pass per digit, last digit first. Stability makes the
//! passes compose, so after the pass on digit `d` the store is ordered on the
//! digits from `d` to the width, and after all passes on the full width.

use vstd::prelude::*;
use crate::word::{Word, views};
use crate::order::{key_at, key_pred};
use crate::tokenize::{tokenize, tokens_of};
use vstd::string::StringSliceAdditionalSpecFns;
use crate::counting::{counting_pass, lemma_segments_tile};
use crate::msd::find_bucket;
use crate::seq_facts::{
    bucket_cat, lemma_filter_all_pos, lemma_filter_pairwise, lemma_filter_compose,
    lemma_bucket_cat_filter,
};

verus! {

/// Why a sort request was rejected.
#[derive(Clone, Copy, Debug, PartialEq, Eq, Structural)]
pub enum SortError {
    /// An LSD sort was asked for a width greater than some word's length.
    WordTooShort,
    /// Reserved for input outside the byte range; with words held as raw
    /// bytes every value is a byte, so this is never produced.
    InvalidByte,
}

/// `a` is less than or equal to `b` under the lexicographic order on the
/// digits from `d` up to (not including) `w`: digits outside that window are
/// ignored, and a word that ends inside the window sorts first.
pub open spec fn lexw_le(a: Seq<u8>, b: Seq<u8>, d: int, w: int) -> bool
    decreases w - d,
{
    if d >= w {
        true
    } else if d >= a.len() {
        true
    } else if d >= b.len() {
        false
    } else if a[d] < b[d] {
        true
    } else if a[d] > b[d] {
        false
    } else {
        lexw_le(a, b, d + 1, w)
    }
}

/// Any two words compare one way or the other: the windowed order is total.
pub proof fn lemma_lexw_total(a: Seq<u8>, b: Seq<u8>, d: int, w: int)
    ensures
        lexw_le(a, b, d, w) || lexw_le(b, a, d, w),
    decreases w - d,
{
    if d < w && d < a.len() && d < b.len() && a[d] == b[d] {
        lemma_lexw_total(a, b, d + 1, w);
    }
}

/// The words whose digits from `d` up to `w` read exactly `pat`: one
/// stability class of the LSD sorter. Words shorter than the width belong to
/// no class.
pub open spec fn class_pred(d: int, w: int, pat: Seq<u8>) -> spec_fn(Seq<u8>) -> bool {
    |x: Seq<u8>| w <= x.len() && x.subrange(d, w) == pat
}

/// A class at digit `d` is the conjunction of a bucket key at `d` and a
/// class at `d + 1`.
proof fn lemma_class_split(d: int, w: int, pat: Seq<u8>)
    requires
        0 <= d < w,
        pat.len() == w - d,
    ensures
        forall|x: Seq<u8>| #[trigger]
            class_pred(d, w, pat)(x) == (key_pred(d, pat[0] + 1)(x) && class_pred(
                d + 1,
                w,
                pat.drop_first(),
            )(x)),
{
    assert forall|x: Seq<u8>| #[trigger]
        class_pred(d, w, pat)(x) == (key_pred(d, pat[0] + 1)(x) && class_pred(
            d + 1,
            w,
            pat.drop_first(),
        )(x)) by {
        if w <= x.len() {
            if x.subrange(d, w) == pat {
                assert(x.subrange(d, w)[0] == x[d]);
                assert(x[d] == pat[0]);
                assert(key_at(x, d) == pat[0] + 1);
                assert(x.subrange(d + 1, w) =~= pat.drop_first()) by {
                    assert forall|i: int|
                        0 <= i < w - d - 1 implies #[trigger] x.subrange(d + 1, w)[i]
                        == pat.drop_first()[i] by {
                        assert(x.subrange(d, w)[i + 1] == x[d + 1 + i]);
                    }
                }
            } else {
                if key_at(x, d) == pat[0] + 1 && x.subrange(d + 1, w) == pat.drop_first() {
                    assert(x.subrange(d, w) =~= pat) by {
                        assert forall|i: int| 0 <= i < w - d implies #[trigger] x.subrange(d, w)[i]
                            == pat[i] by {
                            if i > 0 {
                                assert(x.subrange(d + 1, w)[i - 1] == x[d + i]);
                                assert(pat.drop_first()[i - 1] == pat[i]);
                            }
                        }
                    }
                    assert(false);
                }
            }
        }
    }
}

/// A word in any stability class has every digit of the window, so its
/// bucket key at a window digit is its byte there, plus one.
proof fn lemma_class_patterns(s: Seq<Seq<u8>>, d: int, w: int, pat: Seq<u8>)
    requires
        0 <= d <= w,
        pat.len() != w - d,
    ensures
        s.filter(class_pred(d, w, pat)).len() == 0,
{
    assert forall|i: int| 0 <= i < s.len() implies !(#[trigger] class_pred(d, w, pat)(s[i])) by {
        if w <= s[i].len() {
            assert(s[i].subrange(d, w).len() == w - d);
        }
    }
    s.lemma_all_neg_filter_empty(class_pred(d, w, pat));
}

/// One stable pass on digit `d` extends order and stability from the digits
/// above `d` to the digits from `d` on.
#[verifier::rlimit(100)]
#[verifier::spinoff_prover]
proof fn lemma_lsd_step(
    cur: Seq<Seq<u8>>,
    new: Seq<Seq<u8>>,
    orig: Seq<Seq<u8>>,
    bounds: Seq<usize>,
    d: int,
    w: int,
)
    requires
        0 <= d < w,
        new.len() == cur.len(),
        orig.len() == cur.len(),
        bounds.len() == 258,
        bounds[0] == 0,
        bounds[257] == cur.len(),
        forall|p: int, q: int| 0 <= p <= q < 258 ==> bounds[p] <= bounds[q],
        forall|k: int|
            0 <= k < 257 ==> new.subrange(bounds[k] as int, bounds[k + 1] as int) == cur.filter(
                #[trigger] key_pred(d, k),
            ),
        forall|i: int| 0 <= i < cur.len() ==> w <= (#[trigger] cur[i]).len(),
        forall|i: int| 0 <= i < orig.len() ==> w <= (#[trigger] orig[i]).len(),
        forall|p: int, q: int|
            0 <= p < q < cur.len() ==> #[trigger] lexw_le(cur[p], cur[q], d + 1, w),
        forall|pat: Seq<u8>|
            cur.filter(#[trigger] class_pred(d + 1, w, pat)) == orig.filter(
                class_pred(d + 1, w, pat),
            ),
    ensures
        forall|p: int, q: int|
            0 <= p < q < new.len() ==> #[trigger] lexw_le(new[p], new[q], d, w),
        forall|pat: Seq<u8>|
            new.filter(#[trigger] class_pred(d, w, pat)) == orig.filter(class_pred(d, w, pat)),
{
    let n = cur.len();
    lemma_segments_tile(new, cur, bounds, d, 257);
    assert(new.subrange(0, bounds[257] as int) =~= new);
    assert(new == bucket_cat(cur, d, 257));

    // Order: distinct buckets are ordered by their byte at `d`; inside one
    // bucket the words share that byte and were already ordered above `d`.
    assert forall|p: int, q: int| 0 <= p < q < n implies #[trigger] lexw_le(
        new[p],
        new[q],
        d,
        w,
    ) by {
        let k1 = find_bucket(bounds, p, 0);
        let k2 = find_bucket(bounds, q, 0);
        assert(k1 <= k2) by {
            if k2 < k1 {
                assert(bounds[k2 + 1] <= bounds[k1]);
            }
        }
        assert(new[p] == new.subrange(bounds[k1] as int, bounds[k1 + 1] as int)[p - bounds[k1]]);
        assert(new[q] == new.subrange(bounds[k2] as int, bounds[k2 + 1] as int)[q - bounds[k2]]);
        cur.lemma_filter_pred(key_pred(d, k1), p - bounds[k1]);
        cur.lemma_filter_pred(key_pred(d, k2), q - bounds[k2]);
        assert(key_at(new[p], d) == k1);
        assert(key_at(new[q], d) == k2);
        crate::seq_facts::lemma_filter_in(cur, key_pred(d, k1));
        let i1 = choose|i: int| 0 <= i < n && cur[i] == new[p];
        assert(w <= new[p].len() && w <= new[q].len()) by {
            crate::seq_facts::lemma_filter_in(cur, key_pred(d, k2));
            let i2 = choose|i: int| 0 <= i < n && cur[i] == new[q];
            assert(cur[i1].len() >= w && cur[i2].len() >= w);
        }
        if k1 < k2 {
            assert(new[p][d] + 1 == k1 && new[q][d] + 1 == k2);
            assert(new[p][d] < new[q][d]);
        } else {
            assert(k1 == k2 && k1 >= 1);
            assert(new[p][d] == new[q][d]);
            let r = (|x: Seq<u8>, y: Seq<u8>| lexw_le(x, y, d + 1, w));
            assert forall|x: Seq<u8>, y: Seq<u8>| #[trigger] r(x, y) || r(y, x) by {
                lemma_lexw_total(x, y, d + 1, w);
            }
            assert forall|p2: int, q2: int| 0 <= p2 < q2 < cur.len() implies #[trigger] r(
                cur[p2],
                cur[q2],
            ) by {}
            lemma_filter_pairwise(cur, key_pred(d, k1), r);
            let f = cur.filter(key_pred(d, k1));
            assert(new[p] == f[p - bounds[k1]] && new[q] == f[q - bounds[k1]]);
            assert(r(f[p - bounds[k1]], f[q - bounds[k1]]));
            assert(lexw_le(new[p], new[q], d + 1, w));
        }
    }

    // Stability: a class at `d` is a bucket key and a class at `d + 1`; the
    // pass kept each bucket's filter, and the passes before kept each class.
    assert forall|pat: Seq<u8>|
        new.filter(#[trigger] class_pred(d, w, pat)) == orig.filter(class_pred(d, w, pat)) by {
        if pat.len() == w - d {
            let k = pat[0] + 1;
            let keyp = key_pred(d, k);
            let restp = class_pred(d + 1, w, pat.drop_first());
            let cls = class_pred(d, w, pat);
            lemma_class_split(d, w, pat);
            assert(0 <= k < 257);
            lemma_filter_compose(new, keyp, restp, cls);
            lemma_filter_compose(cur, keyp, restp, cls);
            lemma_bucket_cat_filter(cur, d, 257, k);
            assert(new.filter(keyp) == cur.filter(keyp));
            assert(new.filter(cls) == cur.filter(keyp).filter(restp));
            assert(cur.filter(cls) == cur.filter(keyp).filter(restp));
            assert(new.filter(cls) == cur.filter(cls));
            lemma_filter_compose(cur, restp, keyp, cls);
            lemma_filter_compose(orig, restp, keyp, cls);
            assert(cur.filter(restp) == orig.filter(restp));
            assert(new.filter(cls) == orig.filter(cls));
        } else {
            lemma_class_patterns(new, d, w, pat);
            lemma_class_patterns(orig, d, w, pat);
            assert(new.filter(class_pred(d, w, pat)) =~= orig.filter(class_pred(d, w, pat)));
        }
    }
}

/// Every word of a store with the same words as another is as long as the
/// width every word of the other reaches.
proof fn lemma_len_preserved(a: Seq<Seq<u8>>, b: Seq<Seq<u8>>, w: int)
    requires
        a.to_multiset() == b.to_multiset(),
        forall|i: int| 0 <= i < a.len() ==> w <= (#[trigger] a[i]).len(),
    ensures
        forall|i: int| 0 <= i < b.len() ==> w <= (#[trigger] b[i]).len(),
{
    broadcast use vstd::seq_lib::group_to_multiset_ensures;

    assert forall|i: int| 0 <= i < b.len() implies w <= (#[trigger] b[i]).len() by {
        assert(b.to_multiset().contains(b[i]));
        assert(a.contains(b[i]));
        let j = choose|j: int| 0 <= j < a.len() && a[j] == b[i];
        assert(w <= a[j].len());
    }
}

/// Sorts fixed-width words by their first `width` bytes, least significant
/// digit first: one stable counting-sort pass per digit, from digit
/// `width - 1` down to digit `0`.
///
/// Fails fast with `WordTooShort`, touching nothing, exactly when some word
/// is shorter than the width. On success the result holds exactly the words
/// given, ordered by their width-long prefixes; words whose prefixes tie keep
/// their input order, which pins the output down completely.
pub fn lsd_sort_in_place(words: &mut Vec<Word>, width: usize) -> (r: Result<(), SortError>)
    ensures
        match r {
            Ok(()) => {
                &&& forall|i: int|
                    0 <= i < views(old(words)@).len() ==> width <= (#[trigger] views(
                        old(words)@,
                    )[i]).len()
                &&& final(words)@.len() == old(words)@.len()
                &&& views(final(words)@).to_multiset() == views(old(words)@).to_multiset()
                &&& forall|p: int, q: int|
                    0 <= p < q < final(words)@.len() ==> #[trigger] lexw_le(
                        views(final(words)@)[p],
                        views(final(words)@)[q],
                        0,
                        width as int,
                    )
                &&& forall|pat: Seq<u8>|
                    views(final(words)@).filter(#[trigger] class_pred(0, width as int, pat))
                        == views(old(words)@).filter(class_pred(0, width as int, pat))
            },
            Err(e) => {
                &&& e == SortError::WordTooShort
                &&& final(words)@ == old(words)@
                &&& exists|i: int|
                    0 <= i < views(old(words)@).len() && (#[trigger] views(
                        old(words)@,
                    )[i]).len() < width
            },
        },
{
    let n = words.len();
    let mut i: usize = 0;
    while i < n
        invariant
            i <= n == words@.len(),
            words@ == old(words)@,
            forall|j: int| 0 <= j < i ==> width <= (#[trigger] views(words@)[j]).len(),
        decreases n - i,
    {
        if words[i].len() < width {
            proof {
                assert(views(words@)[i as int].len() < width);
            }
            return Err(SortError::WordTooShort);
        }
        i += 1;
    }
    let ghost orig = views(words@);
    let w = words;
    let mut d = width;
    proof {
        assert forall|p: int, q: int| 0 <= p < q < orig.len() implies #[trigger] lexw_le(
            orig[p],
            orig[q],
            d as int,
            width as int,
        ) by {}
        assert forall|pat: Seq<u8>|
            views(w@).filter(#[trigger] class_pred(d as int, width as int, pat)) == orig.filter(
                class_pred(d as int, width as int, pat),
            ) by {
            if pat.len() == 0 {
                assert forall|i: int| 0 <= i < orig.len() implies #[trigger] class_pred(
                    d as int,
                    width as int,
                    pat,
                )(orig[i]) by {
                    assert(orig[i].subrange(width as int, width as int) =~= pat);
                }
                lemma_filter_all_pos(orig, class_pred(d as int, width as int, pat));
            } else {
                lemma_class_patterns(orig, d as int, width as int, pat);
                assert(orig.filter(class_pred(d as int, width as int, pat)) =~= orig.filter(
                    class_pred(d as int, width as int, pat),
                ));
            }
        }
    }
    while d > 0
        invariant
            d <= width,
            w@.len() == orig.len(),
            orig == views(words@),
            forall|i: int| 0 <= i < orig.len() ==> width <= (#[trigger] orig[i]).len(),
            forall|i: int| 0 <= i < w@.len() ==> width <= (#[trigger] views(w@)[i]).len(),
            views(w@).to_multiset() == orig.to_multiset(),
            forall|p: int, q: int|
                0 <= p < q < w@.len() ==> #[trigger] lexw_le(
                    views(w@)[p],
                    views(w@)[q],
                    d as int,
                    width as int,
                ),
            forall|pat: Seq<u8>|
                views(w@).filter(#[trigger] class_pred(d as int, width as int, pat)) == orig.filter(
                    class_pred(d as int, width as int, pat),
                ),
        decreases d,
    {
        d = d - 1;
        let ghost cur = views(w@);
        let n2 = w.len();
        let bounds = counting_pass(w, 0, n2, d);
        proof {
            let new = views(w@);
            assert(cur.subrange(0, n2 as int) =~= cur);
            assert(new.subrange(0, n2 as int) =~= new);
            assert forall|k: int|
                0 <= k < 257 implies new.subrange(bounds@[k] as int, bounds@[k + 1] as int)
                == cur.filter(#[trigger] key_pred(d as int, k)) by {
                assert(bounds@[k + 1] <= bounds@[257]);
                assert(new.subrange(bounds@[k] as int, bounds@[k + 1] as int) =~= new.subrange(
                    0,
                    n2 as int,
                ).subrange(bounds@[k] as int, bounds@[k + 1] as int));
            }
            lemma_lsd_step(cur, new, orig, bounds@, d as int, width as int);
            lemma_len_preserved(orig, new, width as int);
        }
    }
    Ok(())
}

/// Sorts fixed-width words by their first `width` bytes and hands the store
/// back, or `WordTooShort` when some word is shorter than the width.
pub fn lsd_sort(words: Vec<Word>, width: usize) -> (r: Result<Vec<Word>, SortError>)
    ensures
        match r {
            Ok(out) => {
                &&& forall|i: int|
                    0 <= i < views(words@).len() ==> width <= (#[trigger] views(words@)[i]).len()
                &&& out@.len() == words@.len()
                &&& views(out@).to_multiset() == views(words@).to_multiset()
                &&& forall|p: int, q: int|
                    0 <= p < q < out@.len() ==> #[trigger] lexw_le(
                        views(out@)[p],
                        views(out@)[q],
                        0,
                        width as int,
                    )
                &&& forall|pat: Seq<u8>|
                    views(out@).filter(#[trigger] class_pred(0, width as int, pat)) == views(
                        words@,
                    ).filter(class_pred(0, width as int, pat))
            },
            Err(e) => {
                &&& e == SortError::WordTooShort
                &&& exists|i: int|
                    0 <= i < views(words@).len() && (#[trigger] views(words@)[i]).len() < width
            },
        },
{
    let mut w = words;
    match lsd_sort_in_place(&mut w, width) {
        Ok(()) => Ok(w),
        Err(e) => Err(e),
    }
}

/// A word store sorted by the LSD radix sorter at a fixed width.
#[derive(Debug)]
pub struct Lsd {
    /// The words, in sorted order once a sort has run.
    pub words: Vec<Word>,
}

impl Lsd {
    /// Tokenizes a text on ASCII whitespace and sorts the words by their
    /// first `w` bytes, or fails with `WordTooShort` when some word of the
    /// text is shorter than that width.
    pub fn new(s: &str, w: u32) -> (r: Result<Lsd, SortError>)
        ensures
            match r {
                Ok(l) => {
                    &&& forall|i: int|
                        0 <= i < tokens_of(s.spec_bytes()).len() ==> w <= (#[trigger] tokens_of(
                            s.spec_bytes(),
                        )[i]).len()
                    &&& views(l.words@).to_multiset() == tokens_of(s.spec_bytes()).to_multiset()
                    &&& forall|p: int, q: int|
                        0 <= p < q < l.words@.len() ==> #[trigger] lexw_le(
                            views(l.words@)[p],
                            views(l.words@)[q],
                            0,
                            w as int,
                        )
                    &&& forall|pat: Seq<u8>|
                        views(l.words@).filter(#[trigger] class_pred(0, w as int, pat))
                            == tokens_of(s.spec_bytes()).filter(class_pred(0, w as int, pat))
                },
                Err(e) => {
                    &&& e == SortError::WordTooShort
                    &&& exists|i: int|
                        0 <= i < tokens_of(s.spec_bytes()).len() && (#[trigger] tokens_of(
                            s.spec_bytes(),
                        )[i]).len() < w
                },
            },
    {
        let mut words = tokenize(s.as_bytes());
        match lsd_sort_in_place(&mut words, w as usize) {
            Ok(()) => Ok(Lsd { words }),
            Err(e) => Err(e),
        }
    }

    /// Wraps an already-built word store without sorting it.
    pub fn with_words(words: Vec<Word>) -> (r: Lsd)
        ensures
            r.words@ == words@,
    {
        Lsd { words }
    }

    /// Sorts the held words in place by their first `w` bytes, or fails with
    /// `WordTooShort`, changing nothing, when some word is shorter.
    pub fn sort(&mut self, w: u32) -> (r: Result<(), SortError>)
        ensures
            match r {
                Ok(()) => {
                    &&& forall|i: int|
                        0 <= i < views(old(self).words@).len() ==> w <= (#[trigger] views(
                            old(self).words@,
                        )[i]).len()
                    &&& views(final(self).words@).to_multiset() == views(
                        old(self).words@,
                    ).to_multiset()
                    &&& forall|p: int, q: int|
                        0 <= p < q < final(self).words@.len() ==> #[trigger] lexw_le(
                            views(final(self).words@)[p],
                            views(final(self).words@)[q],
                            0,
                            w as int,
                        )
                    &&& forall|pat: Seq<u8>|
                        views(final(self).words@).filter(#[trigger] class_pred(0, w as int, pat))
                            == views(old(self).words@).filter(class_pred(0, w as int, pat))
                },
                Err(e) => {
                    &&& e == SortError::WordTooShort
                    &&& final(self).words@ == old(self).words@
                    &&& exists|i: int|
                        0 <= i < views(old(self).words@).len() && (#[trigger] views(
                            old(self).words@,
                        )[i]).len() < w
                },
            },
    {
        lsd_sort_in_place(&mut self.words, w as usize)
    }
}

} // verus!
