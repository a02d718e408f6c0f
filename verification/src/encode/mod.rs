//! CBOR encoding functionality.
//!
//! This module encodes CBOR values into bytes, following RFC 7049 with
//! definite-length encodings only. The wire format is stated once, as the
//! spec functions [`size_of`] and [`bytes_of`]; the executable size
//! estimator and value encoder are both verified against them, which keeps
//! the two in lockstep: the size the estimator computes is always exactly
//! the number of bytes the encoder writes.

use vstd::prelude::*;

use crate::Value;
use crate::error::Error;
use crate::result::EncodeResult;

pub mod cursor;

use cursor::Cursor;
use cursor::wrote;

verus! {

/// CBOR major types as defined in RFC 7049.
///
/// The major type occupies the high-order 3 bits of the first byte of a data
/// item and indicates the basic type of the item.
#[derive(Debug, Clone, Copy, PartialEq, Eq, Hash)]
pub enum MajorType {
    /// Major type 0: Unsigned integer
    Unsigned,

    /// Major type 1: Negative integer
    Negative,

    /// Major type 2: Byte string
    Bytes,

    /// Major type 3: Text string
    Text,

    /// Major type 4: Array of data items
    Array,

    /// Major type 5: Map of pairs of data items
    Mapping,

    /// Major type 6: Tagged data item
    Tag,

    /// Major type 7: Simple values and floating point
    Simple,
}

impl MajorType {
    /// The 3-bit code of this major type.
    pub open spec fn spec_code(self) -> u8 {
        match self {
            MajorType::Unsigned => 0,
            MajorType::Negative => 1,
            MajorType::Bytes => 2,
            MajorType::Text => 3,
            MajorType::Array => 4,
            MajorType::Mapping => 5,
            MajorType::Tag => 6,
            MajorType::Simple => 7,
        }
    }

    /// Returns the 3-bit code of this major type.
    pub fn code(self) -> (r: u8)
        ensures
            r == self.spec_code(),
            r <= 7,
    {
        match self {
            MajorType::Unsigned => 0,
            MajorType::Negative => 1,
            MajorType::Bytes => 2,
            MajorType::Text => 3,
            MajorType::Array => 4,
            MajorType::Mapping => 5,
            MajorType::Tag => 6,
            MajorType::Simple => 7,
        }
    }
}

/// Trait for types that can be encoded as CBOR.
///
/// Implementing this trait for a type allows it to be converted to its CBOR
/// representation and written to a buffer.
pub trait Encode {
    /// Encodes the implementing type as CBOR into the provided buffer,
    /// returning the number of bytes written on success; the buffer's
    /// length never changes.
    fn as_cbor(&self, buf: &mut Vec<u8>) -> (r: EncodeResult<usize>)
        ensures
            final(buf)@.len() == old(buf)@.len(),
            r matches Ok(n) ==> n <= final(buf)@.len(),
    ;
}

impl Encode for Value {
    /// Encodes this value exactly as [`encode`] does.
    fn as_cbor(&self, buf: &mut Vec<u8>) -> (r: EncodeResult<usize>)
        ensures
            r is Ok <==> size_of(*self) <= old(buf)@.len(),
            r matches Ok(n) ==> n == size_of(*self) && final(buf)@ == bytes_of(*self) + old(
                buf,
            )@.skip(size_of(*self) as int),
            r matches Err(e) ==> e == Error::BufferOverflow && final(buf)@ == bytes_of(
                *self,
            ).take(old(buf)@.len() as int),
    {
        encode(self, buf)
    }
}

/// Number of additional bytes, beyond the header byte, that a header needs
/// for the magnitude `m`: the single source of truth for "how many bytes does
/// this magnitude need". Magnitudes up to 23 are carried inline in the header
/// byte; larger ones take the smallest of 1, 2, 4 or 8 big-endian bytes that
/// holds them.
pub open spec fn extra_len(m: int) -> nat {
    if m <= 23 {
        0
    } else if m <= 0xff {
        1
    } else if m <= 0xffff {
        2
    } else if m <= 0xffff_ffff {
        4
    } else {
        8
    }
}

/// The additional-information value stored in the low 5 bits of a header
/// byte: the magnitude itself when it is at most 23, otherwise one of the
/// codes 24, 25, 26, 27 selecting 1, 2, 4 or 8 following bytes.
pub open spec fn info_of(m: int) -> u8 {
    if m <= 23 {
        m as u8
    } else if m <= 0xff {
        24
    } else if m <= 0xffff {
        25
    } else if m <= 0xffff_ffff {
        26
    } else {
        27
    }
}

/// The header byte for major type `major` and magnitude `m`: the major type
/// in the high 3 bits, the additional information in the low 5 bits.
pub open spec fn header_byte(major: u8, m: int) -> u8
    recommends
        major <= 7,
        0 <= m < 0x1_0000_0000_0000_0000,
{
    (32 * major + info_of(m)) as u8
}

/// The `n` big-endian bytes of the magnitude `m`, for the widths a CBOR
/// header can use: byte `j` holds bits `8 * (n - 1 - j)` and up.
pub open spec fn be_bytes(m: int, n: nat) -> Seq<u8>
    recommends
        0 <= m,
{
    if n == 1 {
        seq![(m % 256) as u8]
    } else if n == 2 {
        seq![((m / 0x100) % 256) as u8, (m % 256) as u8]
    } else if n == 4 {
        seq![
            ((m / 0x100_0000) % 256) as u8,
            ((m / 0x1_0000) % 256) as u8,
            ((m / 0x100) % 256) as u8,
            (m % 256) as u8,
        ]
    } else if n == 8 {
        seq![
            ((m / 0x100_0000_0000_0000) % 256) as u8,
            ((m / 0x1_0000_0000_0000) % 256) as u8,
            ((m / 0x100_0000_0000) % 256) as u8,
            ((m / 0x1_0000_0000) % 256) as u8,
            ((m / 0x100_0000) % 256) as u8,
            ((m / 0x1_0000) % 256) as u8,
            ((m / 0x100) % 256) as u8,
            (m % 256) as u8,
        ]
    } else {
        Seq::empty()
    }
}

/// The complete header for major type `major` and magnitude `m`: the header
/// byte followed by the additional big-endian magnitude bytes, if any.
pub open spec fn header_bytes(major: u8, m: int) -> Seq<u8>
    recommends
        major <= 7,
        0 <= m < 0x1_0000_0000_0000_0000,
{
    seq![header_byte(major, m)] + be_bytes(m, extra_len(m))
}

/// The number of bytes the CBOR encoding of `v` occupies.
pub open spec fn size_of(v: Value) -> nat
    decreases v,
{
    match v {
        Value::Unsigned(n) => 1 + extra_len(n as int),
        Value::Negative(n) => 1 + extra_len(n as int),
        Value::Bytes(b) => 1 + extra_len(b@.len() as int) + b@.len(),
        Value::Text(t) => 1 + extra_len(t@.len() as int) + t@.len(),
        Value::Array(items) => 1 + extra_len(items@.len() as int) + size_of_seq(items@),
        Value::Mapping(pairs) => 1 + extra_len(pairs@.len() as int) + size_of_pairs(pairs@),
        Value::Tag(tag, item) => 1 + extra_len(tag as int) + size_of(*item),
        Value::Simple(s) => 1 + extra_len(s as int),
        Value::Float(_) => 9,
    }
}

/// Total encoded size of a sequence of values, element encodings in order.
pub open spec fn size_of_seq(s: Seq<Value>) -> nat
    decreases s,
{
    if s.len() == 0 {
        0
    } else {
        size_of(s[0]) + size_of_seq(s.drop_first())
    }
}

/// Total encoded size of a sequence of key/value pairs: for each pair the
/// key's encoding immediately followed by the value's.
pub open spec fn size_of_pairs(s: Seq<(Value, Value)>) -> nat
    decreases s,
{
    if s.len() == 0 {
        0
    } else {
        size_of(s[0].0) + size_of(s[0].1) + size_of_pairs(s.drop_first())
    }
}

/// The CBOR encoding of `v`: the header for the variant's major type and
/// magnitude, followed by the payload bytes (bytes and text), the encodings
/// of the children (arrays, maps and tags), or nothing (integers and simple
/// values). A float is always the fixed header byte 0xFB followed by the 8
/// big-endian bytes of its IEEE 754 bit pattern.
pub open spec fn bytes_of(v: Value) -> Seq<u8>
    decreases v,
{
    match v {
        Value::Unsigned(n) => header_bytes(0, n as int),
        Value::Negative(n) => header_bytes(1, n as int),
        Value::Bytes(b) => header_bytes(2, b@.len() as int) + b@,
        Value::Text(t) => header_bytes(3, t@.len() as int) + t@,
        Value::Array(items) => header_bytes(4, items@.len() as int) + bytes_of_seq(items@),
        Value::Mapping(pairs) => header_bytes(5, pairs@.len() as int) + bytes_of_pairs(pairs@),
        Value::Tag(tag, item) => header_bytes(6, tag as int) + bytes_of(*item),
        Value::Simple(s) => header_bytes(7, s as int),
        Value::Float(bits) => seq![0xFBu8] + be_bytes(bits as int, 8),
    }
}

/// The concatenated encodings of a sequence of values, in order.
pub open spec fn bytes_of_seq(s: Seq<Value>) -> Seq<u8>
    decreases s,
{
    if s.len() == 0 {
        Seq::empty()
    } else {
        bytes_of(s[0]) + bytes_of_seq(s.drop_first())
    }
}

/// The concatenated encodings of a sequence of pairs: each key immediately
/// followed by its value, pairs in order.
pub open spec fn bytes_of_pairs(s: Seq<(Value, Value)>) -> Seq<u8>
    decreases s,
{
    if s.len() == 0 {
        Seq::empty()
    } else {
        bytes_of(s[0].0) + bytes_of(s[0].1) + bytes_of_pairs(s.drop_first())
    }
}

/// The additional magnitude bytes of a header always have exactly the
/// advertised width.
pub proof fn lemma_be_bytes_len(m: int, n: nat)
    requires
        n == 0 || n == 1 || n == 2 || n == 4 || n == 8,
    ensures
        be_bytes(m, n).len() == n,
{
}

/// A complete header occupies one byte plus the additional magnitude bytes.
pub proof fn lemma_header_bytes_len(major: u8, m: int)
    ensures
        header_bytes(major, m).len() == 1 + extra_len(m),
{
    lemma_be_bytes_len(m, extra_len(m));
}

/// Sizes add over concatenation of value sequences.
proof fn lemma_size_of_seq_concat(a: Seq<Value>, b: Seq<Value>)
    ensures
        size_of_seq(a + b) == size_of_seq(a) + size_of_seq(b),
    decreases a,
{
    if a.len() == 0 {
        assert(a + b =~= b);
    } else {
        assert((a + b).drop_first() =~= a.drop_first() + b);
        lemma_size_of_seq_concat(a.drop_first(), b);
    }
}

/// Sizes add over concatenation of pair sequences.
proof fn lemma_size_of_pairs_concat(a: Seq<(Value, Value)>, b: Seq<(Value, Value)>)
    ensures
        size_of_pairs(a + b) == size_of_pairs(a) + size_of_pairs(b),
    decreases a,
{
    if a.len() == 0 {
        assert(a + b =~= b);
    } else {
        assert((a + b).drop_first() =~= a.drop_first() + b);
        lemma_size_of_pairs_concat(a.drop_first(), b);
    }
}

/// Encodings concatenate over concatenation of value sequences.
proof fn lemma_bytes_of_seq_concat(a: Seq<Value>, b: Seq<Value>)
    ensures
        bytes_of_seq(a + b) == bytes_of_seq(a) + bytes_of_seq(b),
    decreases a,
{
    if a.len() == 0 {
        assert(a + b =~= b);
        assert(bytes_of_seq(a) + bytes_of_seq(b) =~= bytes_of_seq(b));
    } else {
        assert((a + b).drop_first() =~= a.drop_first() + b);
        lemma_bytes_of_seq_concat(a.drop_first(), b);
        assert(bytes_of(a[0]) + (bytes_of_seq(a.drop_first()) + bytes_of_seq(b)) =~= (bytes_of(
            a[0],
        ) + bytes_of_seq(a.drop_first())) + bytes_of_seq(b));
    }
}

/// Encodings concatenate over concatenation of pair sequences.
proof fn lemma_bytes_of_pairs_concat(a: Seq<(Value, Value)>, b: Seq<(Value, Value)>)
    ensures
        bytes_of_pairs(a + b) == bytes_of_pairs(a) + bytes_of_pairs(b),
    decreases a,
{
    if a.len() == 0 {
        assert(a + b =~= b);
        assert(bytes_of_pairs(a) + bytes_of_pairs(b) =~= bytes_of_pairs(b));
    } else {
        assert((a + b).drop_first() =~= a.drop_first() + b);
        lemma_bytes_of_pairs_concat(a.drop_first(), b);
        assert(bytes_of(a[0].0) + bytes_of(a[0].1) + (bytes_of_pairs(a.drop_first())
            + bytes_of_pairs(b)) =~= (bytes_of(a[0].0) + bytes_of(a[0].1) + bytes_of_pairs(
            a.drop_first(),
        )) + bytes_of_pairs(b));
    }
}

/// The encoding of one more element extends the encoding of a prefix of a
/// value sequence, and its size grows accordingly.
proof fn lemma_seq_take_step(s: Seq<Value>, i: int)
    requires
        0 <= i < s.len(),
    ensures
        size_of_seq(s.take(i + 1)) == size_of_seq(s.take(i)) + size_of(s[i]),
        bytes_of_seq(s.take(i + 1)) == bytes_of_seq(s.take(i)) + bytes_of(s[i]),
{
    let single = seq![s[i]];
    assert(s.take(i + 1) =~= s.take(i) + single);
    assert(single.drop_first() =~= Seq::<Value>::empty());
    assert(size_of_seq(Seq::<Value>::empty()) == 0);
    assert(bytes_of_seq(Seq::<Value>::empty()) =~= Seq::<u8>::empty());
    assert(size_of_seq(single) == size_of(s[i]));
    assert(bytes_of_seq(single) =~= bytes_of(s[i]));
    lemma_size_of_seq_concat(s.take(i), single);
    lemma_bytes_of_seq_concat(s.take(i), single);
}

/// The encoding of one more pair extends the encoding of a prefix of a pair
/// sequence, and its size grows accordingly.
proof fn lemma_pairs_take_step(s: Seq<(Value, Value)>, i: int)
    requires
        0 <= i < s.len(),
    ensures
        size_of_pairs(s.take(i + 1)) == size_of_pairs(s.take(i)) + size_of(s[i].0) + size_of(
            s[i].1,
        ),
        bytes_of_pairs(s.take(i + 1)) == bytes_of_pairs(s.take(i)) + bytes_of(s[i].0) + bytes_of(
            s[i].1,
        ),
{
    let single = seq![s[i]];
    assert(s.take(i + 1) =~= s.take(i) + single);
    assert(single.drop_first() =~= Seq::<(Value, Value)>::empty());
    assert(size_of_pairs(Seq::<(Value, Value)>::empty()) == 0);
    assert(bytes_of_pairs(Seq::<(Value, Value)>::empty()) =~= Seq::<u8>::empty());
    assert(size_of_pairs(single) == size_of(s[i].0) + size_of(s[i].1));
    assert(bytes_of_pairs(single) =~= bytes_of(s[i].0) + bytes_of(s[i].1));
    lemma_size_of_pairs_concat(s.take(i), single);
    lemma_bytes_of_pairs_concat(s.take(i), single);
    assert(bytes_of_pairs(s.take(i)) + (bytes_of(s[i].0) + bytes_of(s[i].1)) =~= bytes_of_pairs(
        s.take(i),
    ) + bytes_of(s[i].0) + bytes_of(s[i].1));
}

/// A prefix of a value sequence takes at most the size of the whole.
proof fn lemma_size_of_seq_take_bound(s: Seq<Value>, i: int)
    requires
        0 <= i <= s.len(),
    ensures
        size_of_seq(s.take(i)) <= size_of_seq(s),
{
    assert(s =~= s.take(i) + s.skip(i));
    lemma_size_of_seq_concat(s.take(i), s.skip(i));
}

/// A prefix of a pair sequence takes at most the size of the whole.
proof fn lemma_size_of_pairs_take_bound(s: Seq<(Value, Value)>, i: int)
    requires
        0 <= i <= s.len(),
    ensures
        size_of_pairs(s.take(i)) <= size_of_pairs(s),
{
    assert(s =~= s.take(i) + s.skip(i));
    lemma_size_of_pairs_concat(s.take(i), s.skip(i));
}

/// Float fixed width: every double encodes to exactly 9 bytes — the header
/// byte 0xFB, then the 8 big-endian bytes of its IEEE 754 bit pattern —
/// whatever its magnitude.
pub proof fn lemma_float_fixed_width(bits: u64)
    ensures
        size_of(Value::Float(bits)) == 9,
        bytes_of(Value::Float(bits)).len() == 9,
        bytes_of(Value::Float(bits))[0] == 0xFBu8,
        bytes_of(Value::Float(bits)).skip(1) == be_bytes(bits as int, 8),
{
    lemma_be_bytes_len(bits as int, 8);
    assert(bytes_of(Value::Float(bits)).skip(1) =~= be_bytes(bits as int, 8));
}

/// Recursive composition for a one-pair map: its encoding is the header
/// byte 0xA1 immediately followed by the complete encoding of the key, then
/// the complete encoding of the value.
pub proof fn lemma_single_pair_map(pairs: Vec<(Value, Value)>, k: Value, v: Value)
    requires
        pairs@ == seq![(k, v)],
    ensures
        bytes_of(Value::Mapping(pairs)) == seq![0xA1u8] + bytes_of(k) + bytes_of(v),
{
    let m = Value::Mapping(pairs);
    assert(pairs@[0] == (k, v));
    assert(pairs@.drop_first() =~= Seq::<(Value, Value)>::empty());
    assert(bytes_of_pairs(Seq::<(Value, Value)>::empty()) =~= Seq::<u8>::empty());
    assert(bytes_of_pairs(pairs@) == bytes_of(k) + bytes_of(v) + Seq::<u8>::empty());
    assert(bytes_of(k) + bytes_of(v) + Seq::<u8>::empty() =~= bytes_of(k) + bytes_of(v));
    assert(header_bytes(5, 1) =~= seq![0xA1u8]);
    assert(bytes_of(m) == header_bytes(5, 1) + bytes_of_pairs(pairs@));
    assert(seq![0xA1u8] + (bytes_of(k) + bytes_of(v)) =~= seq![0xA1u8] + bytes_of(k) + bytes_of(
        v,
    ));
}

/// Size/encode agreement, stated once for every constructible value tree:
/// the size estimator's count for `v` is exactly the length of the byte
/// sequence the encoder emits for `v`.
pub proof fn lemma_encoded_len(v: Value)
    ensures
        bytes_of(v).len() == size_of(v),
    decreases v,
{
    match v {
        Value::Array(items) => {
            lemma_header_bytes_len(4, items@.len() as int);
            lemma_encoded_len_seq(items@);
        },
        Value::Mapping(pairs) => {
            lemma_header_bytes_len(5, pairs@.len() as int);
            lemma_encoded_len_pairs(pairs@);
        },
        Value::Tag(tag, item) => {
            lemma_header_bytes_len(6, tag as int);
            lemma_encoded_len(*item);
        },
        Value::Unsigned(n) => {
            lemma_header_bytes_len(0, n as int);
        },
        Value::Negative(n) => {
            lemma_header_bytes_len(1, n as int);
        },
        Value::Bytes(b) => {
            lemma_header_bytes_len(2, b@.len() as int);
        },
        Value::Text(t) => {
            lemma_header_bytes_len(3, t@.len() as int);
        },
        Value::Simple(s) => {
            lemma_header_bytes_len(7, s as int);
        },
        Value::Float(bits) => {
            lemma_be_bytes_len(bits as int, 8);
        },
    }
}

/// Size/encode agreement for every element of a value sequence.
pub proof fn lemma_encoded_len_seq(s: Seq<Value>)
    ensures
        bytes_of_seq(s).len() == size_of_seq(s),
    decreases s,
{
    if s.len() > 0 {
        lemma_encoded_len(s[0]);
        lemma_encoded_len_seq(s.drop_first());
    }
}

/// Size/encode agreement for every pair of a pair sequence.
pub proof fn lemma_encoded_len_pairs(s: Seq<(Value, Value)>)
    ensures
        bytes_of_pairs(s).len() == size_of_pairs(s),
    decreases s,
{
    if s.len() > 0 {
        lemma_encoded_len(s[0].0);
        lemma_encoded_len(s[0].1);
        lemma_encoded_len_pairs(s.drop_first());
    }
}

/// Encodes a CBOR header byte and additional bytes for the given major type
/// and magnitude.
///
/// Returns the header byte (major type in the high 3 bits, additional
/// information in the low 5 bits) and the big-endian magnitude bytes that
/// follow it: none when the magnitude fits inline (at most 23), otherwise
/// the smallest of 1, 2, 4 or 8 bytes that holds it, selected at the
/// boundaries 255, 65535 and 4294967295.
pub fn encode_header(major: u8, value: u64) -> (r: (u8, Vec<u8>))
    requires
        major <= 7,
    ensures
        r.0 == header_byte(major, value as int),
        r.1@ == be_bytes(value as int, extra_len(value as int)),
        r.1@.len() == extra_len(value as int),
        value <= 23 ==> r.1@.len() == 0,
        24 <= value <= 0xff ==> r.1@.len() == 1,
        0x100 <= value <= 0xffff ==> r.1@.len() == 2,
        0x1_0000 <= value <= 0xffff_ffff ==> r.1@.len() == 4,
        0x1_0000_0000 <= value ==> r.1@.len() == 8,
{
    let header_base = major * 32;
    let mut extra: Vec<u8> = Vec::new();
    let header: u8;
    if value <= 23 {
        header = header_base + value as u8;
    } else if value <= 0xff {
        header = header_base + 24;
        extra.push((value % 256) as u8);
    } else if value <= 0xffff {
        header = header_base + 25;
        extra.push(((value / 0x100) % 256) as u8);
        extra.push((value % 256) as u8);
    } else if value <= 0xffff_ffff {
        header = header_base + 26;
        extra.push(((value / 0x100_0000) % 256) as u8);
        extra.push(((value / 0x1_0000) % 256) as u8);
        extra.push(((value / 0x100) % 256) as u8);
        extra.push((value % 256) as u8);
    } else {
        header = header_base + 27;
        extra = be8_bytes(value);
    }
    proof {
        assert(extra@ =~= be_bytes(value as int, extra_len(value as int)));
    }
    (header, extra)
}

/// The full 8 big-endian bytes of a 64-bit magnitude, as used by the widest
/// header form and by the fixed-width float payload.
fn be8_bytes(value: u64) -> (r: Vec<u8>)
    ensures
        r@ == be_bytes(value as int, 8),
        r@.len() == 8,
{
    let mut extra: Vec<u8> = Vec::new();
    extra.push(((value / 0x100_0000_0000_0000) % 256) as u8);
    extra.push(((value / 0x1_0000_0000_0000) % 256) as u8);
    extra.push(((value / 0x100_0000_0000) % 256) as u8);
    extra.push(((value / 0x1_0000_0000) % 256) as u8);
    extra.push(((value / 0x100_0000) % 256) as u8);
    extra.push(((value / 0x1_0000) % 256) as u8);
    extra.push(((value / 0x100) % 256) as u8);
    extra.push((value % 256) as u8);
    proof {
        assert(extra@ =~= be_bytes(value as int, 8));
    }
    extra
}

/// A value sequence encodes as any of its prefixes followed by the rest.
proof fn lemma_bytes_of_seq_split(s: Seq<Value>, i: int)
    requires
        0 <= i <= s.len(),
    ensures
        bytes_of_seq(s) == bytes_of_seq(s.take(i)) + bytes_of_seq(s.skip(i)),
{
    assert(s =~= s.take(i) + s.skip(i));
    lemma_bytes_of_seq_concat(s.take(i), s.skip(i));
}

/// A pair sequence encodes as any of its prefixes followed by the rest.
proof fn lemma_bytes_of_pairs_split(s: Seq<(Value, Value)>, i: int)
    requires
        0 <= i <= s.len(),
    ensures
        bytes_of_pairs(s) == bytes_of_pairs(s.take(i)) + bytes_of_pairs(s.skip(i)),
{
    assert(s =~= s.take(i) + s.skip(i));
    lemma_bytes_of_pairs_concat(s.take(i), s.skip(i));
}

/// Writes every byte of `bytes` in order through the cursor's bounded
/// single-byte primitive, stopping at the exact byte that would pass the end
/// of the buffer.
#[verifier::loop_isolation(false)]
fn write_all(cursor: &mut Cursor, bytes: &Vec<u8>) -> (r: EncodeResult<()>)
    requires
        old(cursor).wf(),
    ensures
        final(cursor).wf(),
        wrote(*old(cursor), *final(cursor), bytes@, r is Ok),
        r matches Err(e) ==> e == Error::BufferOverflow,
{
    let ghost pre = *cursor;
    proof {
        assert(pre.data@ =~= pre.data@.take(pre.pos as int) + bytes@.take(0) + pre.data@.skip(
            pre.pos as int,
        ));
    }
    let mut i: usize = 0;
    while i < bytes.len()
        invariant
            i <= bytes@.len(),
            cursor.wf(),
            wrote(pre, *cursor, bytes@.take(i as int), true),
        decreases bytes@.len() - i,
    {
        let ghost mid = *cursor;
        let byte = bytes[i];
        match cursor.write_byte(byte) {
            Ok(_u) => {
                proof {
                    cursor::lemma_wrote_compose(
                        pre,
                        mid,
                        *cursor,
                        bytes@.take(i as int),
                        seq![byte],
                        true,
                    );
                    assert(bytes@.take(i as int) + seq![byte] =~= bytes@.take(i as int + 1));
                }
            },
            Err(e) => {
                proof {
                    cursor::lemma_wrote_compose(
                        pre,
                        mid,
                        *cursor,
                        bytes@.take(i as int),
                        seq![byte],
                        false,
                    );
                    assert(bytes@.take(i as int) + seq![byte] =~= bytes@.take(i as int + 1));
                    cursor::lemma_wrote_fail_prefix(
                        pre,
                        *cursor,
                        bytes@.take(i as int + 1),
                        bytes@,
                    );
                }
                return Err(e);
            },
        }
        i = i + 1;
    }
    proof {
        assert(bytes@.take(bytes@.len() as int) =~= bytes@);
    }
    Ok(())
}

/// Writes the complete header for `major` and `value`: the header byte, then
/// the additional big-endian magnitude bytes.
fn write_header(cursor: &mut Cursor, major: MajorType, value: u64) -> (r: EncodeResult<()>)
    requires
        old(cursor).wf(),
    ensures
        final(cursor).wf(),
        wrote(
            *old(cursor),
            *final(cursor),
            header_bytes(major.spec_code(), value as int),
            r is Ok,
        ),
        r matches Err(e) ==> e == Error::BufferOverflow,
{
    let ghost target = header_bytes(major.spec_code(), value as int);
    let (header, extra) = encode_header(major.code(), value);
    let ghost pre = *cursor;
    match cursor.write_byte(header) {
        Ok(_u) => {},
        Err(e) => {
            proof {
                assert(seq![header] =~= target.take(1));
                cursor::lemma_wrote_fail_prefix(pre, *cursor, seq![header], target);
            }
            return Err(e);
        },
    }
    let ghost mid = *cursor;
    let r = write_all(cursor, &extra);
    proof {
        cursor::lemma_wrote_compose(pre, mid, *cursor, seq![header], extra@, r is Ok);
        assert(seq![header] + extra@ =~= target);
    }
    r
}

/// Internal recursive encoder: writes the CBOR encoding of `value` at the
/// cursor's position, header first, then payload bytes or recursively
/// encoded children. The first write that would pass the end of the buffer
/// aborts the entire encoding with `BufferOverflow`; bytes already written
/// stay committed.
#[verifier::loop_isolation(false)]
fn encode_value(value: &Value, cursor: &mut Cursor) -> (r: EncodeResult<()>)
    requires
        old(cursor).wf(),
    ensures
        final(cursor).wf(),
        wrote(*old(cursor), *final(cursor), bytes_of(*value), r is Ok),
        r matches Err(e) ==> e == Error::BufferOverflow,
    decreases *value,
{
    let ghost pre = *cursor;
    let ghost target = bytes_of(*value);
    match value {
        Value::Unsigned(n) => write_header(cursor, MajorType::Unsigned, *n),
        Value::Negative(n) => write_header(cursor, MajorType::Negative, *n),
        Value::Bytes(b) => {
            let ghost h = header_bytes(2, b@.len() as int);
            match write_header(cursor, MajorType::Bytes, b.len() as u64) {
                Ok(_u) => {},
                Err(e) => {
                    proof {
                        assert(h =~= target.take(h.len() as int));
                        cursor::lemma_wrote_fail_prefix(pre, *cursor, h, target);
                    }
                    return Err(e);
                },
            }
            let ghost mid = *cursor;
            let r = write_all(cursor, b);
            proof {
                cursor::lemma_wrote_compose(pre, mid, *cursor, h, b@, r is Ok);
            }
            r
        },
        Value::Text(t) => {
            let ghost h = header_bytes(3, t@.len() as int);
            match write_header(cursor, MajorType::Text, t.len() as u64) {
                Ok(_u) => {},
                Err(e) => {
                    proof {
                        assert(h =~= target.take(h.len() as int));
                        cursor::lemma_wrote_fail_prefix(pre, *cursor, h, target);
                    }
                    return Err(e);
                },
            }
            let ghost mid = *cursor;
            let r = write_all(cursor, t);
            proof {
                cursor::lemma_wrote_compose(pre, mid, *cursor, h, t@, r is Ok);
            }
            r
        },
        Value::Array(items) => {
            let ghost h = header_bytes(4, items@.len() as int);
            match write_header(cursor, MajorType::Array, items.len() as u64) {
                Ok(_u) => {},
                Err(e) => {
                    proof {
                        assert(h =~= target.take(h.len() as int));
                        cursor::lemma_wrote_fail_prefix(pre, *cursor, h, target);
                    }
                    return Err(e);
                },
            }
            let mut i: usize = 0;
            while i < items.len()
                invariant
                    i <= items@.len(),
                    cursor.wf(),
                    wrote(pre, *cursor, h + bytes_of_seq(items@.take(i as int)), true),
                decreases items@.len() - i,
            {
                let ghost mid = *cursor;
                let ghost written = h + bytes_of_seq(items@.take(i as int));
                let r = encode_value(&items[i], cursor);
                proof {
                    lemma_seq_take_step(items@, i as int);
                    cursor::lemma_wrote_compose(
                        pre,
                        mid,
                        *cursor,
                        written,
                        bytes_of(items@[i as int]),
                        r is Ok,
                    );
                    assert(written + bytes_of(items@[i as int]) =~= h + bytes_of_seq(
                        items@.take(i as int + 1),
                    ));
                }
                match r {
                    Ok(_u) => {},
                    Err(e) => {
                        proof {
                            lemma_bytes_of_seq_split(items@, i as int + 1);
                            let done = h + bytes_of_seq(items@.take(i as int + 1));
                            assert(done =~= target.take(done.len() as int));
                            cursor::lemma_wrote_fail_prefix(pre, *cursor, done, target);
                        }
                        return Err(e);
                    },
                }
                i = i + 1;
            }
            proof {
                assert(items@.take(items@.len() as int) =~= items@);
            }
            Ok(())
        },
        Value::Mapping(pairs) => {
            let ghost h = header_bytes(5, pairs@.len() as int);
            match write_header(cursor, MajorType::Mapping, pairs.len() as u64) {
                Ok(_u) => {},
                Err(e) => {
                    proof {
                        assert(h =~= target.take(h.len() as int));
                        cursor::lemma_wrote_fail_prefix(pre, *cursor, h, target);
                    }
                    return Err(e);
                },
            }
            let mut i: usize = 0;
            while i < pairs.len()
                invariant
                    i <= pairs@.len(),
                    cursor.wf(),
                    wrote(pre, *cursor, h + bytes_of_pairs(pairs@.take(i as int)), true),
                decreases pairs@.len() - i,
            {
                let ghost mid = *cursor;
                let ghost written = h + bytes_of_pairs(pairs@.take(i as int));
                let rk = encode_value(&pairs[i].0, cursor);
                proof {
                    cursor::lemma_wrote_compose(
                        pre,
                        mid,
                        *cursor,
                        written,
                        bytes_of(pairs@[i as int].0),
                        rk is Ok,
                    );
                }
                match rk {
                    Ok(_u) => {},
                    Err(e) => {
                        proof {
                            lemma_pairs_take_step(pairs@, i as int);
                            lemma_bytes_of_pairs_split(pairs@, i as int + 1);
                            let done = written + bytes_of(pairs@[i as int].0);
                            assert(done =~= target.take(done.len() as int));
                            cursor::lemma_wrote_fail_prefix(pre, *cursor, done, target);
                        }
                        return Err(e);
                    },
                }
                let ghost mid2 = *cursor;
                let rv = encode_value(&pairs[i].1, cursor);
                proof {
                    cursor::lemma_wrote_compose(
                        pre,
                        mid2,
                        *cursor,
                        written + bytes_of(pairs@[i as int].0),
                        bytes_of(pairs@[i as int].1),
                        rv is Ok,
                    );
                    lemma_pairs_take_step(pairs@, i as int);
                    assert((written + bytes_of(pairs@[i as int].0)) + bytes_of(
                        pairs@[i as int].1,
                    ) =~= h + bytes_of_pairs(pairs@.take(i as int + 1)));
                }
                match rv {
                    Ok(_u) => {},
                    Err(e) => {
                        proof {
                            lemma_bytes_of_pairs_split(pairs@, i as int + 1);
                            let done = h + bytes_of_pairs(pairs@.take(i as int + 1));
                            assert(done =~= target.take(done.len() as int));
                            cursor::lemma_wrote_fail_prefix(pre, *cursor, done, target);
                        }
                        return Err(e);
                    },
                }
                i = i + 1;
            }
            proof {
                assert(pairs@.take(pairs@.len() as int) =~= pairs@);
            }
            Ok(())
        },
        Value::Tag(tag, item) => {
            let ghost h = header_bytes(6, *tag as int);
            match write_header(cursor, MajorType::Tag, *tag) {
                Ok(_u) => {},
                Err(e) => {
                    proof {
                        assert(h =~= target.take(h.len() as int));
                        cursor::lemma_wrote_fail_prefix(pre, *cursor, h, target);
                    }
                    return Err(e);
                },
            }
            let ghost mid = *cursor;
            let r = encode_value(&**item, cursor);
            proof {
                cursor::lemma_wrote_compose(pre, mid, *cursor, h, bytes_of(**item), r is Ok);
            }
            r
        },
        Value::Simple(s) => write_header(cursor, MajorType::Simple, *s as u64),
        Value::Float(bits) => {
            match cursor.write_byte(0xFB) {
                Ok(_u) => {},
                Err(e) => {
                    proof {
                        assert(seq![0xFBu8] =~= target.take(1));
                        cursor::lemma_wrote_fail_prefix(pre, *cursor, seq![0xFBu8], target);
                    }
                    return Err(e);
                },
            }
            let ghost mid = *cursor;
            let payload = be8_bytes(*bits);
            let r = write_all(cursor, &payload);
            proof {
                cursor::lemma_wrote_compose(pre, mid, *cursor, seq![0xFBu8], payload@, r is Ok);
            }
            r
        },
    }
}

/// Encodes a CBOR value into a byte buffer.
///
/// Writes the CBOR encoding of `value` starting at offset 0 of `buf` and
/// returns the count of bytes written on success. Encoding succeeds exactly
/// when the buffer can hold the whole encoding, and then the buffer contents
/// past it keep their old values. Otherwise the operation fails with
/// [`Error::BufferOverflow`]: the start of the encoding fills the whole
/// buffer — partial writes before the failing byte stay committed — but it
/// must not be treated as valid output. The buffer's length never changes.
pub fn encode(value: &Value, buf: &mut Vec<u8>) -> (r: EncodeResult<usize>)
    ensures
        final(buf)@.len() == old(buf)@.len(),
        r is Ok <==> size_of(*value) <= old(buf)@.len(),
        r matches Ok(n) ==> n == size_of(*value) && final(buf)@ == bytes_of(*value) + old(
            buf,
        )@.skip(size_of(*value) as int),
        r matches Err(e) ==> e == Error::BufferOverflow && final(buf)@ == bytes_of(*value).take(
            old(buf)@.len() as int,
        ),
{
    let mut data: Vec<u8> = Vec::new();
    core::mem::swap(buf, &mut data);
    let mut cursor = Cursor::new(data);
    let r = encode_value(value, &mut cursor);
    proof {
        lemma_encoded_len(*value);
        if r is Ok {
            assert(cursor.data@ =~= bytes_of(*value) + old(buf)@.skip(size_of(*value) as int));
        } else {
            assert(cursor.data@ =~= bytes_of(*value).take(old(buf)@.len() as int));
        }
    }
    let Cursor { data: mut written, pos } = cursor;
    core::mem::swap(buf, &mut written);
    match r {
        Ok(_u) => Ok(pos),
        Err(e) => Err(e),
    }
}

/// Calculates the number of bytes needed to encode a CBOR value.
///
/// This traverses the value tree recursively, with no side effects and no
/// possibility of failure, and returns exactly the length of the byte
/// sequence that encoding the value produces — useful for sizing a buffer
/// before encoding. The requirement only rules out trees whose encoding
/// could not fit in an in-memory buffer on this machine at all.
#[verifier::loop_isolation(false)]
pub fn encoded_size(value: &Value) -> (r: usize)
    requires
        size_of(*value) <= usize::MAX,
    ensures
        r == size_of(*value),
    decreases *value,
{
    match value {
        Value::Unsigned(n) => {
            let (_, extra) = encode_header(0, *n);
            1 + extra.len()
        },
        Value::Negative(n) => {
            let (_, extra) = encode_header(1, *n);
            1 + extra.len()
        },
        Value::Bytes(b) => {
            let (_, extra) = encode_header(2, b.len() as u64);
            1 + extra.len() + b.len()
        },
        Value::Text(t) => {
            let (_, extra) = encode_header(3, t.len() as u64);
            1 + extra.len() + t.len()
        },
        Value::Array(items) => {
            let (_, extra) = encode_header(4, items.len() as u64);
            let mut size: usize = 1 + extra.len();
            let mut i: usize = 0;
            while i < items.len()
                invariant
                    i <= items@.len(),
                    size == 1 + extra_len(items@.len() as int) + size_of_seq(
                        items@.take(i as int),
                    ),
                decreases items@.len() - i,
            {
                proof {
                    lemma_seq_take_step(items@, i as int);
                    lemma_size_of_seq_take_bound(items@, i as int + 1);
                }
                size = size + encoded_size(&items[i]);
                i = i + 1;
            }
            proof {
                assert(items@.take(items@.len() as int) =~= items@);
            }
            size
        },
        Value::Mapping(pairs) => {
            let (_, extra) = encode_header(5, pairs.len() as u64);
            let mut size: usize = 1 + extra.len();
            let mut i: usize = 0;
            while i < pairs.len()
                invariant
                    i <= pairs@.len(),
                    size == 1 + extra_len(pairs@.len() as int) + size_of_pairs(
                        pairs@.take(i as int),
                    ),
                decreases pairs@.len() - i,
            {
                proof {
                    lemma_pairs_take_step(pairs@, i as int);
                    lemma_size_of_pairs_take_bound(pairs@, i as int + 1);
                }
                size = size + encoded_size(&pairs[i].0);
                size = size + encoded_size(&pairs[i].1);
                i = i + 1;
            }
            proof {
                assert(pairs@.take(pairs@.len() as int) =~= pairs@);
            }
            size
        },
        Value::Tag(tag, item) => {
            let (_, extra) = encode_header(6, *tag);
            1 + extra.len() + encoded_size(&**item)
        },
        Value::Simple(s) => {
            let (_, extra) = encode_header(7, *s as u64);
            1 + extra.len()
        },
        Value::Float(_) => 9,
    }
}

} // verus!
