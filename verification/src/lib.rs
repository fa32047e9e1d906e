//! A verified fuzzy-search index for a personal book catalog.
//!
//! The heart of the crate is a metric tree (a Burkhard-Keller tree) over
//! case-insensitive Levenshtein edit distance, together with a line-oriented
//! text codec that persists the tree and restores it exactly.  Auxiliary
//! search helpers (a year-expression filter and a spelling-candidate
//! composer) round out the library.

pub mod bk;
pub mod codec;
pub mod compare;
pub mod distance;
pub mod metric;
pub mod serialize;
pub mod spellfix;
