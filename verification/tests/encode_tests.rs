use const_cbor::Value;
use const_cbor::encode::{encode, encoded_size};
use const_cbor::error::Error;

/// Test encoding of unsigned integers.
///
/// This test verifies that a small unsigned integer (42) is encoded correctly using
/// the CBOR format. According to the specification, it should be encoded as:
/// - 0x18: Major type 0 (unsigned integer) with additional info 24 (8-bit uint follows)
/// - 0x2A: The value 42 in hexadecimal
#[test]
fn test_uint() {
    let value = Value::unsigned(42);
    let mut buf = vec![0u8; 16];
    let size = encode(&value, &mut buf).unwrap();

    assert_eq!(size, 2);
    assert_eq!(buf[0], 0x18);
    assert_eq!(buf[1], 42);
    assert_eq!(encoded_size(&value), 2);
}

/// Test encoding of null values.
///
/// CBOR null should be encoded as 0xF6, which is major type 7
/// (simple value) with the simple value 22.
#[test]
fn test_null() {
    let value = Value::null();
    let mut buf = vec![0u8; 16];
    let size = encode(&value, &mut buf).unwrap();

    assert_eq!(size, 1);
    assert_eq!(buf[0], 0xf6);
    assert_eq!(encoded_size(&value), 1);
}

/// Test encoding of arrays.
///
/// An array containing two unsigned integers (1 and 2) should be encoded as:
/// - 0x82: Major type 4 (array) with additional info 2 (array of 2 elements)
/// - 0x01: Unsigned integer 1
/// - 0x02: Unsigned integer 2
#[test]
fn test_array() {
    let items = vec![Value::unsigned(1), Value::unsigned(2)];

    let value = Value::array(items);

    let mut buf = vec![0u8; 16];
    let size = encode(&value, &mut buf).unwrap();

    assert_eq!(size, 3);
    assert_eq!(buf[0], 0x82);
    assert_eq!(buf[1], 0x01);
    assert_eq!(buf[2], 0x02);
    assert_eq!(encoded_size(&value), 3);
}

/// Test encoding of maps with nested structures.
#[test]
fn test_map() {
    let colors = vec![Value::text("blue"), Value::text("green")];

    let items = vec![
        (Value::text("first_name"), Value::text("River")),
        (Value::text("last_name"), Value::text("Song")),
        (Value::text("is_admin"), Value::bool(true)),
        (Value::text("favorite_colors"), Value::array(colors)),
    ];

    let map = Value::map(items);

    let mut buf = vec![0u8; 75];

    let size = encode(&map, &mut buf).unwrap();

    assert_eq!(size, 71);

    assert_eq!(
        &buf[..size],
        &[
            0xA4, // Map with 4 pairs
            0x6A, // String with 10 bytes
            0x66, 0x69, 0x72, 0x73, 0x74, 0x5F, 0x6E, 0x61, 0x6D, 0x65, // "first_name"
            0x65, // String with 5 bytes
            0x52, 0x69, 0x76, 0x65, 0x72, // "River"
            0x69, // String with 9 bytes
            0x6C, 0x61, 0x73, 0x74, 0x5F, 0x6E, 0x61, 0x6D, 0x65, // "last_name"
            0x64, // String with 4 bytes
            0x53, 0x6F, 0x6E, 0x67, // "Song"
            0x68, // String with 8 bytes
            0x69, 0x73, 0x5F, 0x61, 0x64, 0x6D, 0x69, 0x6E, // "is_admin"
            0xF5, // True
            0x6F, // String with 15 bytes
            0x66, 0x61, 0x76, 0x6F, 0x72, 0x69, 0x74, 0x65, 0x5F, 0x63, 0x6F, 0x6C, 0x6F, 0x72,
            0x73, // "favorite_colors"
            0x82, // Array with 2 items
            0x64, // String with 4 bytes
            0x62, 0x6C, 0x75, 0x65, // "blue"
            0x65, // String with 5 bytes
            0x67, 0x72, 0x65, 0x65, 0x6E, // "green"
        ]
    )
}

// Tests for different unsigned integer encodings
#[test]
fn test_encode_uint_small() {
    let value = Value::unsigned(23);
    let mut buf = vec![0u8; 16];
    let size = encode(&value, &mut buf).unwrap();
    assert_eq!(size, 1);
    assert_eq!(buf[0], 0x17); // 0x00 | 23 (direct value)
}

#[test]
fn test_encode_uint_u8() {
    let value = Value::unsigned(255);
    let mut buf = vec![0u8; 16];
    let size = encode(&value, &mut buf).unwrap();
    assert_eq!(size, 2);
    assert_eq!(buf[0], 0x18); // 0x00 | 24 (one-byte uint follows)
    assert_eq!(buf[1], 255);
}

#[test]
fn test_encode_uint_u16() {
    let value = Value::unsigned(1000);
    let mut buf = vec![0u8; 16];
    let size = encode(&value, &mut buf).unwrap();
    assert_eq!(size, 3);
    assert_eq!(buf[0], 0x19); // 0x00 | 25 (two-byte uint follows)
    assert_eq!(buf[1], 0x03); // 1000 >> 8
    assert_eq!(buf[2], 0xE8); // 1000 & 0xFF
}

#[test]
fn test_encode_uint_u32() {
    let value = Value::unsigned(1000000);
    let mut buf = vec![0u8; 16];
    let size = encode(&value, &mut buf).unwrap();
    assert_eq!(size, 5);
    assert_eq!(buf[0], 0x1A); // 0x00 | 26 (four-byte uint follows)
    assert_eq!(buf[1], 0x00); // 1000000 >> 24
    assert_eq!(buf[2], 0x0F); // (1000000 >> 16) & 0xFF
    assert_eq!(buf[3], 0x42); // (1000000 >> 8) & 0xFF
    assert_eq!(buf[4], 0x40); // 1000000 & 0xFF
}

#[test]
fn test_encode_uint_u64() {
    let value = Value::unsigned(1000000000000);
    let mut buf = vec![0u8; 16];
    let size = encode(&value, &mut buf).unwrap();
    assert_eq!(size, 9);
    assert_eq!(buf[0], 0x1B); // 0x00 | 27 (eight-byte uint follows)
    assert_eq!(&buf[1..9], &[0x00, 0x00, 0x00, 0xE8, 0xD4, 0xA5, 0x10, 0x00]);
}

// Tests for different negative integer encodings
#[test]
fn test_encode_negative_small() {
    let value = Value::negative(-10); // -10 is encoded as 9
    let mut buf = vec![0u8; 16];
    let size = encode(&value, &mut buf).unwrap();
    assert_eq!(size, 1);
    assert_eq!(buf[0], 0x29); // 0x20 | 9 (direct value)
}

#[test]
fn test_encode_negative_u8() {
    let value = Value::negative(-100); // -100 is encoded as 99
    let mut buf = vec![0u8; 16];
    let size = encode(&value, &mut buf).unwrap();
    assert_eq!(size, 2);
    assert_eq!(buf[0], 0x38); // 0x20 | 24 (one-byte uint follows)
    assert_eq!(buf[1], 99);
}

#[test]
fn test_encode_negative_u16() {
    let value = Value::negative(-1000); // -1000 is encoded as 999
    let mut buf = vec![0u8; 16];
    let size = encode(&value, &mut buf).unwrap();
    assert_eq!(size, 3);
    assert_eq!(buf[0], 0x39); // 0x20 | 25 (two-byte uint follows)
    assert_eq!(buf[1], 0x03); // 999 >> 8
    assert_eq!(buf[2], 0xE7); // 999 & 0xFF
}

#[test]
fn test_encode_negative_u32() {
    let value = Value::negative(-1000000); // -1000000 is encoded as 999999
    let mut buf = vec![0u8; 16];
    let size = encode(&value, &mut buf).unwrap();
    assert_eq!(size, 5);
    assert_eq!(buf[0], 0x3A); // 0x20 | 26 (four-byte uint follows)
    assert_eq!(buf[1], 0x00); // 999999 >> 24
    assert_eq!(buf[2], 0x0F); // (999999 >> 16) & 0xFF
    assert_eq!(buf[3], 0x42); // (999999 >> 8) & 0xFF
    assert_eq!(buf[4], 0x3F); // 999999 & 0xFF
}

// Tests for byte string encoding
#[test]
fn test_encode_empty_byte_string() {
    let value = Value::bytes(&[]);
    let mut buf = vec![0u8; 16];
    let size = encode(&value, &mut buf).unwrap();
    assert_eq!(size, 1);
    assert_eq!(buf[0], 0x40); // 0x40 | 0 (empty byte string)
}

#[test]
fn test_encode_byte_string() {
    let value = Value::bytes(&[0x01, 0x02, 0x03]);
    let mut buf = vec![0u8; 16];
    let size = encode(&value, &mut buf).unwrap();
    assert_eq!(size, 4);
    assert_eq!(buf[0], 0x43); // 0x40 | 3 (byte string of length 3)
    assert_eq!(buf[1], 0x01);
    assert_eq!(buf[2], 0x02);
    assert_eq!(buf[3], 0x03);
}

#[test]
fn test_encode_long_byte_string() {
    let bytes = [0xAA; 100];
    let value = Value::bytes(&bytes);
    let mut buf = vec![0u8; 110];
    let size = encode(&value, &mut buf).unwrap();
    assert_eq!(size, 102);
    assert_eq!(buf[0], 0x58); // 0x40 | 24, followed by length 100 as one byte
    assert_eq!(buf[1], 100);
    for i in 0..100 {
        assert_eq!(buf[i + 2], 0xAA);
    }
}

// Tests for text string encoding
#[test]
fn test_encode_empty_text_string() {
    let value = Value::text("");
    let mut buf = vec![0u8; 16];
    let size = encode(&value, &mut buf).unwrap();
    assert_eq!(size, 1);
    assert_eq!(buf[0], 0x60); // 0x60 | 0 (empty text string)
}

#[test]
fn test_encode_text_string() {
    let value = Value::text("abc");
    let mut buf = vec![0u8; 16];
    let size = encode(&value, &mut buf).unwrap();
    assert_eq!(size, 4);
    assert_eq!(buf[0], 0x63); // 0x60 | 3 (text string of length 3)
    assert_eq!(buf[1], b'a');
    assert_eq!(buf[2], b'b');
    assert_eq!(buf[3], b'c');
}

// Tests for boolean encoding
#[test]
fn test_encode_boolean_true() {
    let value = Value::bool(true);
    let mut buf = vec![0u8; 16];
    let size = encode(&value, &mut buf).unwrap();
    assert_eq!(size, 1);
    assert_eq!(buf[0], 0xF5); // 0xE0 | 21 (true)
}

#[test]
fn test_encode_boolean_false() {
    let value = Value::bool(false);
    let mut buf = vec![0u8; 16];
    let size = encode(&value, &mut buf).unwrap();
    assert_eq!(size, 1);
    assert_eq!(buf[0], 0xF4); // 0xE0 | 20 (false)
}

// Tests for complex nested structures
#[test]
fn test_encode_nested_array() {
    let inner = vec![Value::unsigned(1), Value::unsigned(2)];
    let outer = vec![Value::array(inner), Value::text("test")];
    let value = Value::array(outer);

    let mut buf = vec![0u8; 32];
    let size = encode(&value, &mut buf).unwrap();

    assert_eq!(size, 9);
    assert_eq!(buf[0], 0x82); // array of 2 items
    assert_eq!(buf[1], 0x82); // array of 2 items
    assert_eq!(buf[2], 0x01); // unsigned 1
    assert_eq!(buf[3], 0x02); // unsigned 2
    assert_eq!(buf[4], 0x64); // text string of length 4
    assert_eq!(buf[5], b't');
    assert_eq!(buf[6], b'e');
    assert_eq!(buf[7], b's');
    assert_eq!(buf[8], b't');
}

// Test for tagged value encoding
#[test]
fn test_encode_tagged_value() {
    let inner = Value::text("2024-01-01T00:00:00Z");
    let value = Value::tag(0, inner);

    let mut buf = vec![0u8; 32];
    let size = encode(&value, &mut buf).unwrap();

    assert_eq!(size, 22);
    assert_eq!(buf[0], 0xC0); // tag 0
    assert_eq!(buf[1], 0x74); // text string of length 20
    // The rest would be the UTF-8 encoding of the timestamp
}

// Test for float value encoding
#[test]
fn test_encode_float() {
    let value = Value::float(3.14159f64.to_bits());

    let mut buf = vec![0u8; 16];
    let size = encode(&value, &mut buf).unwrap();

    assert_eq!(size, 9);
    assert_eq!(buf[0], 0xFB); // 0xE0 | 27 (IEEE 754 double-precision float)
    // The next 8 bytes are the IEEE 754 encoding of 3.14159
    let expected = 3.14159f64.to_bits().to_be_bytes();
    assert_eq!(&buf[1..9], &expected);
}

// Test buffer size errors
#[test]
fn test_encode_buffer_overflow() {
    let value = Value::unsigned(42);
    let mut buf = vec![0u8; 1]; // Too small for the encoding (needs 2 bytes)

    let result = encode(&value, &mut buf);
    assert!(result.is_err());
    assert_eq!(result.unwrap_err(), Error::BufferOverflow);
}

// Test for encoded size calculation
#[test]
fn test_encoded_size() {
    let v1 = Value::unsigned(10);
    assert_eq!(encoded_size(&v1), 1);

    let v2 = Value::unsigned(1000);
    assert_eq!(encoded_size(&v2), 3);

    let v3 = Value::text("hello");
    assert_eq!(encoded_size(&v3), 6); // 1 byte header + 5 bytes for "hello"

    let v4 = Value::bytes(&[0xFF; 10]);
    assert_eq!(encoded_size(&v4), 11); // 1 byte header + 10 bytes data
}

// Test for complex structure encoded size calculation
#[test]
fn test_complex_encoded_size() {
    let colors = vec![Value::text("blue"), Value::text("green")];
    let items = vec![
        (Value::text("name"), Value::text("test")),
        (Value::text("colors"), Value::array(colors)),
    ];
    let map = Value::map(items);

    let expected_size = 30; // Calculated by hand or from actual encoding
    assert_eq!(encoded_size(&map), expected_size);

    // Verify by actually encoding
    let mut buf = vec![0u8; 64];
    let actual_size = encode(&map, &mut buf).unwrap();
    assert_eq!(actual_size, expected_size);
}
