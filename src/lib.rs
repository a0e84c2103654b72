//! The most frequent words of a collection of log lines.
//!
//! Lines are split into tokens (maximal runs of ASCII letters and digits, folded to
//! small letters), the tokens are counted, and the counts are ranked: a higher count
//! first, and among equal counts the smaller word first.
use vstd::prelude::*;

pub mod laws;
pub mod order;
pub mod rank;
pub mod tokenize;

pub use rank::top_k_words;

verus! {

} // verus!
