//! Splitting raw bytes into words on ASCII whitespace: how the two sorters'
//! constructors turn a text into a word store.

use vstd::prelude::*;
use crate::word::{Word, views};

verus! {

/// The ASCII whitespace bytes: space, tab, line feed, form feed, carriage
/// return.
pub open spec fn is_ws(b: u8) -> bool {
    b == 32 || b == 9 || b == 10 || b == 12 || b == 13
}

/// The position where the token starting at `i` ends: the first position at
/// or after `i` holding whitespace, or the end of the bytes.
pub open spec fn tok_end(s: Seq<u8>, i: int) -> int
    decreases s.len() - i,
{
    if i < 0 || i >= s.len() || is_ws(s[i]) {
        i
    } else {
        tok_end(s, i + 1)
    }
}

/// The token end never lies before its start, nor past the end of the bytes.
pub proof fn lemma_tok_end(s: Seq<u8>, i: int)
    requires
        0 <= i <= s.len(),
    ensures
        i <= tok_end(s, i) <= s.len(),
    decreases s.len() - i,
{
    if !(i >= s.len() || is_ws(s[i])) {
        lemma_tok_end(s, i + 1);
    }
}

/// The words of `s` from position `i` on: maximal runs of non-whitespace
/// bytes, in order, with all whitespace dropped.
pub open spec fn tokens_from(s: Seq<u8>, i: int) -> Seq<Seq<u8>>
    decreases s.len() - i,
    via tokens_from_decreases
{
    if i < 0 || i >= s.len() {
        Seq::empty()
    } else if is_ws(s[i]) {
        tokens_from(s, i + 1)
    } else {
        seq![s.subrange(i, tok_end(s, i))] + tokens_from(s, tok_end(s, i))
    }
}

#[via_fn]
proof fn tokens_from_decreases(s: Seq<u8>, i: int) {
    if 0 <= i < s.len() && !is_ws(s[i]) {
        lemma_tok_end(s, i + 1);
    }
}

/// The words of `s`: whitespace-separated runs of non-whitespace bytes.
pub open spec fn tokens_of(s: Seq<u8>) -> Seq<Seq<u8>> {
    tokens_from(s, 0)
}

/// A scan that saw no whitespace between `a` and `j`, and whitespace or the
/// end at `j`, has found the end of the token starting at `a`.
proof fn lemma_tok_end_scan(s: Seq<u8>, a: int, j: int)
    requires
        0 <= a <= j <= s.len(),
        forall|t: int| a <= t < j ==> !is_ws(#[trigger] s[t]),
        j == s.len() || is_ws(s[j]),
    ensures
        tok_end(s, a) == j,
    decreases j - a,
{
    if a < j {
        lemma_tok_end_scan(s, a + 1, j);
    }
}

/// Whether a byte is ASCII whitespace.
fn ws_byte(b: u8) -> (r: bool)
    ensures
        r == is_ws(b),
{
    b == 32 || b == 9 || b == 10 || b == 12 || b == 13
}

/// Splits bytes into words on ASCII whitespace, dropping the whitespace and
/// keeping the words in their input order.
pub fn tokenize(bytes: &[u8]) -> (r: Vec<Word>)
    ensures
        views(r@) == tokens_of(bytes@),
{
    let n = bytes.len();
    let mut out: Vec<Word> = Vec::new();
    let mut i: usize = 0;
    proof {
        assert(views(out@) + tokens_from(bytes@, 0) =~= tokens_from(bytes@, 0));
    }
    while i < n
        invariant
            i <= n == bytes@.len(),
            views(out@) + tokens_from(bytes@, i as int) == tokens_of(bytes@),
        decreases n - i,
    {
        let ghost outv0 = views(out@);
        if ws_byte(bytes[i]) {
            proof {
                assert(tokens_from(bytes@, i as int) == tokens_from(bytes@, i + 1));
            }
            i += 1;
        } else {
            let start = i;
            let mut j = i;
            while j < n && !ws_byte(bytes[j])
                invariant
                    start <= j <= n == bytes@.len(),
                    forall|t: int| start <= t < j ==> !is_ws(#[trigger] bytes@[t]),
                decreases n - j,
            {
                j += 1;
            }
            proof {
                lemma_tok_end_scan(bytes@, start as int, j as int);
            }
            let mut tok: Vec<u8> = Vec::new();
            let mut t = start;
            while t < j
                invariant
                    start <= t <= j <= bytes@.len(),
                    tok@ == bytes@.subrange(start as int, t as int),
                decreases j - t,
            {
                let ghost tv = tok@;
                tok.push(bytes[t]);
                proof {
                    assert(tok@ =~= bytes@.subrange(start as int, t + 1));
                }
                t += 1;
            }
            let w = Word::new(tok);
            out.push(w);
            proof {
                assert(tokens_from(bytes@, start as int) == seq![
                    bytes@.subrange(start as int, j as int),
                ] + tokens_from(bytes@, j as int));
                assert(views(out@) =~= outv0.push(bytes@.subrange(start as int, j as int)));
                assert(views(out@) + tokens_from(bytes@, j as int) =~= outv0 + tokens_from(
                    bytes@,
                    start as int,
                ));
            }
            i = j;
        }
    }
    proof {
        assert(tokens_from(bytes@, n as int) =~= Seq::<Seq<u8>>::empty());
        assert(views(out@) + tokens_from(bytes@, n as int) =~= views(out@));
    }
    out
}

} // verus!
