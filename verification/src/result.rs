//! Result type for CBOR encoding operations.

use vstd::prelude::*;

use crate::error::Error;

verus! {

/// A specialized result type for CBOR operations: either a successful value
/// `T` or a CBOR-specific [`Error`].
pub type EncodeResult<T> = core::result::Result<T, Error>;

} // verus!
