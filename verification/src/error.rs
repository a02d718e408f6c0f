//! Error type for CBOR encoding operations.

use vstd::prelude::*;

verus! {

/// Errors that a CBOR operation can signal.
#[derive(Debug, Clone, Copy, PartialEq, Eq)]
pub enum Error {
    /// The output buffer is too small to contain the encoded data.
    BufferOverflow,

    /// The input contains an invalid or unsupported CBOR data type.
    /// Reserved for a decoding direction; the encoder never produces it.
    InvalidType,
}

} // verus!
