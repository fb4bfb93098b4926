//! Radix sorting of byte strings.
//!
//! Two sorters share one counting-sort primitive: a least-significant-digit
//! (LSD) radix sort for fixed-width words, and a most-significant-digit (MSD)
//! radix sort for words of arbitrary length, with an insertion-sort fallback
//! for small partitions.

pub mod counting;
pub mod insertion;
pub mod laws;
pub mod lsd;
pub mod msd;
pub mod order;
pub mod seq_facts;
pub mod tokenize;
pub mod word;

pub use word::Word;
