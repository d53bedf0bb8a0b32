//! Errors reported while reading encoded data.

use vstd::prelude::*;

verus! {

/// Why a byte string could not be decoded.
#[derive(Debug, Clone, Copy, PartialEq, Eq, Structural)]
pub enum ParseError {
    /// A varint's first byte is malformed for the requested width, or the
    /// value it denotes does not fit in that width.
    InvalidVarInt,
    /// The input ends before the length announced by the first byte.
    UnexpectedEOF,
}

} // verus!
