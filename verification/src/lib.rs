//! Storage core of a collaborative text engine: a canonical prefix-varint
//! codec, codepoint/byte offset helpers, and a mergeable run-length tree.

pub mod content_tree;
pub mod datasets;
pub mod encoding;
pub mod unicount;
