//! CBOR value representation.
//!
//! The [`Value`] enum represents all CBOR data types of RFC 7049. A value is a
//! finite tree: arrays, maps and tags hold their children directly, so the
//! shape of a tree is fixed from construction and the encoder never mutates
//! it.

use vstd::prelude::*;
use vstd::slice::slice_to_vec;
use vstd::string::StringSliceAdditionalSpecFns;

verus! {

/// A CBOR value that can be encoded.
///
/// Each variant corresponds to one of the major types defined in the CBOR
/// specification.
#[derive(Debug, PartialEq)]
pub enum Value {
    /// Unsigned integer (major type 0), from 0 to 2^64 - 1.
    Unsigned(u64),

    /// Negative integer (major type 1), stored as a magnitude `n`; the
    /// logical value is `-1 - n`, so the representable range is -1 down to
    /// -2^64.
    Negative(u64),

    /// Byte string (major type 2): an arbitrary binary payload.
    Bytes(Vec<u8>),

    /// Text string (major type 3), held as its UTF-8 bytes. The bytes are
    /// expected to be valid UTF-8; they are not validated at encode time
    /// (the caller's responsibility, as for any CBOR text string source).
    Text(Vec<u8>),

    /// Array of CBOR data items (major type 4), elements in order.
    Array(Vec<Value>),

    /// Map of key/value pairs (major type 5), pairs in order; ordering and
    /// duplicate keys are the caller's responsibility.
    Mapping(Vec<(Value, Value)>),

    /// Tagged value (major type 6): a tag number and the single tagged item.
    Tag(u64, Box<Value>),

    /// Simple value (major type 7): 20 = false, 21 = true, 22 = null,
    /// 23 = undefined; codes 24 to 31 are reserved and not validated.
    Simple(u8),

    /// IEEE 754 double-precision float (major type 7, additional info 27),
    /// held as its 64-bit pattern. The encoder emits exactly these
    /// bits, so no floating-point arithmetic is involved.
    Float(u64),
}

impl Value {
    /// Creates a CBOR null value: simple value 22.
    pub fn null() -> (r: Value)
        ensures
            r == Value::Simple(22u8),
    {
        Value::Simple(22)
    }

    /// Creates a CBOR boolean value: simple value 21 for true, 20 for false.
    pub fn bool(value: bool) -> (r: Value)
        ensures
            r == Value::Simple(
                if value {
                    21u8
                } else {
                    20u8
                },
            ),
    {
        Value::Simple(if value { 21 } else { 20 })
    }

    /// Creates a CBOR unsigned integer value (major type 0).
    pub fn unsigned(value: u64) -> (r: Value)
        ensures
            r == Value::Unsigned(value),
    {
        Value::Unsigned(value)
    }

    /// Creates a CBOR negative integer value (major type 1) for the negative
    /// logical value `value`. Following CBOR's negative integer
    /// representation, the stored magnitude is `-1 - value`: the logical
    /// value -10 is stored as magnitude 9.
    pub fn negative(value: i64) -> (r: Value)
        requires
            value < 0,
        ensures
            r matches Value::Negative(n) && n == -1 - value,
    {
        Value::Negative((-(value + 1)) as u64)
    }

    /// Creates a CBOR byte string value (major type 2), copying the bytes.
    pub fn bytes(value: &[u8]) -> (r: Value)
        ensures
            r matches Value::Bytes(b) && b@ == value@,
    {
        Value::Bytes(slice_to_vec(value))
    }

    /// Creates a CBOR text string value (major type 3) from a string slice,
    /// copying its UTF-8 bytes.
    pub fn text(value: &str) -> (r: Value)
        ensures
            r matches Value::Text(t) && t@ == value.spec_bytes(),
    {
        Value::Text(value.as_bytes_vec())
    }

    /// Creates a CBOR array value (major type 4) from its elements.
    pub fn array(value: Vec<Value>) -> (r: Value)
        ensures
            r == Value::Array(value),
    {
        Value::Array(value)
    }

    /// Creates a CBOR map value (major type 5) from its key/value pairs.
    pub fn map(value: Vec<(Value, Value)>) -> (r: Value)
        ensures
            r == Value::Mapping(value),
    {
        Value::Mapping(value)
    }

    /// Creates a CBOR tagged value (major type 6) wrapping exactly one item.
    pub fn tag(tag: u64, item: Value) -> (r: Value)
        ensures
            r matches Value::Tag(t, i) && t == tag && *i == item,
    {
        Value::Tag(tag, Box::new(item))
    }

    /// Creates a CBOR double-precision float value (major type 7, additional
    /// info 27) from the 64-bit IEEE 754 pattern of the double.
    pub fn float(value: u64) -> (r: Value)
        ensures
            r == Value::Float(value),
    {
        Value::Float(value)
    }
}

} // verus!
