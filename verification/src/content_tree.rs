//! A height-balanced tree of mergeable runs with cached aggregates.

pub mod cursor;
pub mod edits;
pub mod entry;
pub mod laws;
pub mod metrics;
pub mod model;
pub mod mutations;
pub(crate) mod node;
pub mod rle_range;
pub mod safe_cursor;
pub mod seqs;
pub mod testrange;
pub mod tree;
