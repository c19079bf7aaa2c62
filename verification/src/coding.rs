//! Fixed-width integer encodings.
use vstd::prelude::*;

verus! {

/// The little-endian bytes of a 32-bit value.
pub open spec fn le32(x: u32) -> Seq<u8> {
    seq![
        (x & 0xff) as u8,
        ((x >> 8) & 0xff) as u8,
        ((x >> 16) & 0xff) as u8,
        ((x >> 24) & 0xff) as u8,
    ]
}

/// The 32-bit value whose little-endian bytes are `b[0..4]`.
pub open spec fn from_le32(b: Seq<u8>) -> u32
    recommends
        b.len() == 4,
{
    (b[0] as u32) | ((b[1] as u32) << 8) | ((b[2] as u32) << 16) | ((b[3] as u32) << 24)
}

/// The little-endian bytes of a 64-bit value.
pub open spec fn le64(x: u64) -> Seq<u8> {
    seq![
        (x & 0xff) as u8,
        ((x >> 8) & 0xff) as u8,
        ((x >> 16) & 0xff) as u8,
        ((x >> 24) & 0xff) as u8,
        ((x >> 32) & 0xff) as u8,
        ((x >> 40) & 0xff) as u8,
        ((x >> 48) & 0xff) as u8,
        ((x >> 56) & 0xff) as u8,
    ]
}

/// What `DecodeFixed64` computes: each byte is or-ed in and the
/// accumulator shifted by four bits, so byte `i` lands at bit `4 * (8 - i)`
/// and neighbouring bytes overlap.
pub open spec fn nibble_fold64(b: Seq<u8>) -> u64
    recommends
        b.len() == 8,
{
    ((b[0] as u64) << 32u64) | ((b[1] as u64) << 28u64) | ((b[2] as u64) << 24u64) | ((
    b[3] as u64) << 20u64) | ((b[4] as u64) << 16u64) | ((b[5] as u64) << 12u64) | ((
    b[6] as u64) << 8u64) | ((b[7] as u64) << 4u64)
}

/// Encodes `value` as four little-endian bytes.
pub fn EncodeFixed32(value: u32) -> (r: [u8; 4])
    ensures
        r@ == le32(value),
{
    let r = [
        (value & 0xff) as u8,
        ((value >> 8) & 0xff) as u8,
        ((value >> 16) & 0xff) as u8,
        ((value >> 24) & 0xff) as u8,
    ];
    assert(r@ =~= le32(value));
    r
}

/// Encodes `value` as eight little-endian bytes.
pub fn EncodeFixed64(value: u64) -> (r: [u8; 8])
    ensures
        r@ == le64(value),
{
    let r = [
        (value & 0xff) as u8,
        ((value >> 8) & 0xff) as u8,
        ((value >> 16) & 0xff) as u8,
        ((value >> 24) & 0xff) as u8,
        ((value >> 32) & 0xff) as u8,
        ((value >> 40) & 0xff) as u8,
        ((value >> 48) & 0xff) as u8,
        ((value >> 56) & 0xff) as u8,
    ];
    assert(r@ =~= le64(value));
    r
}

/// Decodes four little-endian bytes.
pub fn DecodeFixed32(value: [u8; 4]) -> (r: u32)
    ensures
        r == from_le32(value@),
{
    (value[0] as u32) | ((value[1] as u32) << 8) | ((value[2] as u32) << 16) | ((
    value[3] as u32) << 24)
}

/// Folds eight bytes into a 64-bit value, or-ing each byte in and shifting
/// the accumulator left by four bits after each one.
pub fn DecodeFixed64(value: [u8; 8]) -> (r: u64)
    ensures
        r == nibble_fold64(value@),
{
    let b0 = value[0];
    let b1 = value[1];
    let b2 = value[2];
    let b3 = value[3];
    let b4 = value[4];
    let b5 = value[5];
    let b6 = value[6];
    let b7 = value[7];
    let mut result: u64 = 0;
    result = (result | b0 as u64) << 4;
    result = (result | b1 as u64) << 4;
    result = (result | b2 as u64) << 4;
    result = (result | b3 as u64) << 4;
    result = (result | b4 as u64) << 4;
    result = (result | b5 as u64) << 4;
    result = (result | b6 as u64) << 4;
    result = (result | b7 as u64) << 4;
    assert(result == ((b0 as u64) << 32u64) | ((b1 as u64) << 28u64) | ((b2 as u64) << 24u64)
        | ((b3 as u64) << 20u64) | ((b4 as u64) << 16u64) | ((b5 as u64) << 12u64) | ((
    b6 as u64) << 8u64) | ((b7 as u64) << 4u64)) by (bit_vector)
        requires
            result == ((((((((((((((((0u64 | b0 as u64) << 4u64) | b1 as u64) << 4u64) | b2 as u64)
                << 4u64) | b3 as u64) << 4u64) | b4 as u64) << 4u64) | b5 as u64) << 4u64)
                | b6 as u64) << 4u64) | b7 as u64) << 4u64),
    ;
    result
}

/// Decoding the encoding of a 32-bit value gives the value back.
pub proof fn lemma_decode_encode_fixed32(x: u32)
    ensures
        le32(x).len() == 4,
        from_le32(le32(x)) == x,
{
    let s = le32(x);
    assert(s[0] == (x & 0xff) as u8);
    assert(((x & 0xff) as u8 as u32) | ((((x >> 8) & 0xff) as u8 as u32) << 8) | ((((x >> 16)
        & 0xff) as u8 as u32) << 16) | ((((x >> 24) & 0xff) as u8 as u32) << 24) == x)
        by (bit_vector);
}

/// Encoding the decoding of four bytes gives the bytes back.
pub proof fn lemma_encode_decode_fixed32(b: Seq<u8>)
    requires
        b.len() == 4,
    ensures
        le32(from_le32(b)) == b,
{
    let (b0, b1, b2, b3) = (b[0], b[1], b[2], b[3]);
    let x = from_le32(b);
    assert(x == (b0 as u32) | ((b1 as u32) << 8) | ((b2 as u32) << 16) | ((b3 as u32) << 24));
    assert(((x & 0xff) as u8 == b0 && ((x >> 8) & 0xff) as u8 == b1 && ((x >> 16) & 0xff) as u8
        == b2 && ((x >> 24) & 0xff) as u8 == b3)) by (bit_vector)
        requires
            x == (b0 as u32) | ((b1 as u32) << 8) | ((b2 as u32) << 16) | ((b3 as u32) << 24),
    ;
    assert(le32(x) =~= b);
}

} // verus!
