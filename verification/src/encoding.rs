//! Compact binary encoding of integers.

pub mod parseerror;
pub mod tools;
pub mod varint;
