//! An in-memory lookup engine: a normalized exact-match index combined with
//! a bounded character trie for prefix search, orchestrated by a matching
//! engine that reports confidence-scored results.

pub mod engine;
pub mod index;
pub mod text;
pub mod trie;
