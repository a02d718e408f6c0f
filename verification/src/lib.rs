//! CBOR (RFC 7049) encoding of a tree of tagged values into a caller-supplied
//! fixed-size buffer, with a verified agreement between the size estimator and
//! the encoder: the number of bytes the estimator predicts is exactly the
//! number of bytes the encoder writes.

pub mod encode;
pub mod error;
pub mod result;
mod value;

pub use value::Value;
