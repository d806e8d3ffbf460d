//! Approximate-match lookup over a dictionary of name/value pairs.
//!
//! The crate builds a BK-tree index over Levenshtein distance, answers
//! exact and bounded-distance queries, ranks the hits, drives the
//! incremental-search session state machine, and round-trips the index
//! through a binary blob.

pub mod codec;
pub mod distance;
pub mod pair;
pub mod search;
pub mod suggestion;
pub mod tree;
pub mod types;
