//! Compressed blocks framed for a file: the length of the payload as eight
//! little-endian bytes, the payload, then an eight-byte checksum of it.
use vstd::prelude::*;
use vstd::slice::{slice_subrange, slice_to_vec};
use crate::coding::le64;
use crate::crc::{crc32, crc32_ieee};

verus! {

/// The I/O error that compression reports, carried through opaque.
#[verifier::external_type_specification]
#[verifier::external_body]
pub struct ExIoError(std::io::Error);

/// The output of zstd's one-shot compression of `data` at `level`.
pub uninterp spec fn zstd_compressed(data: Seq<u8>, level: i32) -> Seq<u8>;

/// Compresses all of `data` at once at `level` (0: zstd's default).
///
/// Trusted: calls `zstd::bulk::compress`, which succeeds and returns
/// zstd's compression of `data` at `level`. The level is clamped to zstd's
/// range and the output buffer is zstd's bound for the input, so the only
/// failure left is zstd failing to allocate its working memory; like a
/// failed allocation of Rust's own, that is not covered by this contract.
#[verifier::external_body]
fn zstd_compress(data: &[u8], level: i32) -> (r: Result<Vec<u8>, std::io::Error>)
    ensures
        r is Ok,
        r matches Ok(v) ==> v@ == zstd_compressed(data@, level),
{
    zstd::bulk::compress(data, level)
}

/// The 64-bit value whose little-endian bytes are `b[0..8]`.
pub open spec fn from_le64(b: Seq<u8>) -> u64
    recommends
        b.len() == 8,
{
    (b[0] as u64) | ((b[1] as u64) << 8) | ((b[2] as u64) << 16) | ((b[3] as u64) << 24) | ((
    b[4] as u64) << 32) | ((b[5] as u64) << 40) | ((b[6] as u64) << 48) | ((b[7] as u64) << 56)
}

/// Decoding the little-endian bytes of a 64-bit value gives it back.
pub proof fn lemma_from_le64_le64(x: u64)
    ensures
        le64(x).len() == 8,
        from_le64(le64(x)) == x,
{
    let s = le64(x);
    assert(s[0] == (x & 0xff) as u8);
    assert(((x & 0xff) as u8 as u64) | ((((x >> 8) & 0xff) as u8 as u64) << 8) | ((((x >> 16)
        & 0xff) as u8 as u64) << 16) | ((((x >> 24) & 0xff) as u8 as u64) << 24) | ((((x >> 32)
        & 0xff) as u8 as u64) << 32) | ((((x >> 40) & 0xff) as u8 as u64) << 40) | ((((x >> 48)
        & 0xff) as u8 as u64) << 48) | ((((x >> 56) & 0xff) as u8 as u64) << 56) == x)
        by (bit_vector);
}

/// The checksum a frame keeps of its payload: the CRC-32 of the payload,
/// in eight bytes.
pub open spec fn frame_checksum(payload: Seq<u8>) -> u64 {
    crc32_ieee(0, payload) as u64
}

/// The frame of `payload`: its length, itself, then its checksum.
pub open spec fn frame_bytes(payload: Seq<u8>) -> Seq<u8> {
    le64(payload.len() as u64) + payload + le64(frame_checksum(payload))
}

/// The payload of the frame at the front of `bytes`: none when the bytes
/// are too few for the length field, for the payload it gives and the
/// checksum, or when the checksum does not match.
pub open spec fn frame_payload(bytes: Seq<u8>) -> Option<Seq<u8>> {
    if bytes.len() < 16 {
        None
    } else {
        let size = from_le64(bytes.subrange(0, 8));
        if size > bytes.len() - 16 {
            None
        } else {
            let payload = bytes.subrange(8, 8 + size);
            if from_le64(bytes.subrange(8 + size, 16 + size)) == frame_checksum(payload) {
                Some(payload)
            } else {
                None
            }
        }
    }
}

/// Frames `payload`.
pub fn encode_frame(payload: &[u8]) -> (r: Vec<u8>)
    ensures
        r@ == frame_bytes(payload@),
{
    let n = payload.len() as u64;
    let check = crc32(0, payload) as u64;
    let size_bytes = crate::coding::EncodeFixed64(n);
    let check_bytes = crate::coding::EncodeFixed64(check);
    let mut out: Vec<u8> = Vec::new();
    let mut i: usize = 0;
    while i < 8
        invariant
            i <= 8,
            out@ == size_bytes@.subrange(0, i as int),
        decreases 8 - i,
    {
        out.push(size_bytes[i]);
        i = i + 1;
        assert(out@ =~= size_bytes@.subrange(0, i as int));
    }
    let mut k: usize = 0;
    while k < payload.len()
        invariant
            k <= payload@.len(),
            out@ == size_bytes@ + payload@.subrange(0, k as int),
        decreases payload@.len() - k,
    {
        out.push(payload[k]);
        k = k + 1;
        assert(out@ =~= size_bytes@ + payload@.subrange(0, k as int));
    }
    let mut j: usize = 0;
    while j < 8
        invariant
            j <= 8,
            out@ == size_bytes@ + payload@ + check_bytes@.subrange(0, j as int),
        decreases 8 - j,
    {
        out.push(check_bytes[j]);
        j = j + 1;
        assert(out@ =~= size_bytes@ + payload@ + check_bytes@.subrange(0, j as int));
    }
    assert(payload@.subrange(0, payload@.len() as int) =~= payload@);
    assert(check_bytes@.subrange(0, 8) =~= check_bytes@);
    out
}

/// Reads eight little-endian bytes of `b` from `at`.
fn read_u64(b: &[u8], at: usize) -> (r: u64)
    requires
        at + 8 <= b@.len(),
    ensures
        r == from_le64(b@.subrange(at as int, at + 8)),
{
    let ghost s = b@.subrange(at as int, at + 8);
    assert(s[0] == b@[at as int] && s[1] == b@[at + 1] && s[2] == b@[at + 2] && s[3] == b@[at + 3]
        && s[4] == b@[at + 4] && s[5] == b@[at + 5] && s[6] == b@[at + 6] && s[7] == b@[at + 7]);
    (b[at] as u64) | ((b[at + 1] as u64) << 8) | ((b[at + 2] as u64) << 16) | ((b[at + 3] as u64)
        << 24) | ((b[at + 4] as u64) << 32) | ((b[at + 5] as u64) << 40) | ((b[at + 6] as u64)
        << 48) | ((b[at + 7] as u64) << 56)
}

/// The payload of the frame at the front of `bytes` (see `frame_payload`).
pub fn decode_frame(bytes: &[u8]) -> (r: Option<Vec<u8>>)
    ensures
        match frame_payload(bytes@) {
            Some(p) => r matches Some(v) && v@ == p,
            None => r is None,
        },
        r matches Some(v) ==> bytes@.len() >= 16 + v@.len() && from_le64(bytes@.subrange(0, 8))
            == v@.len() && bytes@.subrange(8, 8 + v@.len() as int) == v@ && from_le64(
            bytes@.subrange(8 + v@.len() as int, 16 + v@.len() as int),
        ) == crc32_ieee(0, v@) as u64,
{
    if bytes.len() < 16 {
        return None;
    }
    let size = read_u64(bytes, 0);
    if size > (bytes.len() - 16) as u64 {
        return None;
    }
    let n = size as usize;
    let payload = slice_subrange(bytes, 8, 8 + n);
    let stored = read_u64(bytes, 8 + n);
    let check = crc32(0, payload) as u64;
    if stored == check {
        Some(slice_to_vec(payload))
    } else {
        None
    }
}

/// The frame of what a compression gave: the frame of the compressed
/// bytes, or none when the compression failed.
pub fn frame_of_compressed(compressed: Result<Vec<u8>, std::io::Error>) -> (r: Option<Vec<u8>>)
    ensures
        match compressed {
            Ok(v) => r matches Some(f) && f@ == frame_bytes(v@),
            Err(_) => r is None,
        },
{
    match compressed {
        Ok(c) => Some(encode_frame(c.as_slice())),
        Err(_) => None,
    }
}

/// Compresses `input` at `level` and frames the compressed bytes (see
/// `frame_of_compressed`).
pub fn compress_frame(input: &[u8], level: i32) -> (r: Option<Vec<u8>>)
    ensures
        r matches Some(v) && v@ == frame_bytes(zstd_compressed(input@, level)),
{
    frame_of_compressed(zstd_compress(input, level))
}

/// A frame is accepted exactly when its stored checksum is the CRC-32 of
/// its payload: the bytes at the front give `p` back if and only if the first
/// eight hold the length of `p`, `p` follows them, and the eight bytes after
/// `p` hold the CRC-32 of `p`.
pub proof fn lemma_frame_accepted_iff_checksum(bytes: Seq<u8>, p: Seq<u8>)
    ensures
        frame_payload(bytes) == Some(p) <==> (bytes.len() >= 16 + p.len()
            && from_le64(bytes.subrange(0, 8)) == p.len()
            && bytes.subrange(8, 8 + p.len() as int) == p
            && from_le64(bytes.subrange(8 + p.len() as int, 16 + p.len() as int)) == crc32_ieee(0, p) as u64),
{
}

/// A frame reads back as its payload.
pub proof fn lemma_frame_round_trip(payload: Seq<u8>)
    requires
        payload.len() + 16 <= u64::MAX,
    ensures
        frame_payload(frame_bytes(payload)) == Some(payload),
{
    let b = frame_bytes(payload);
    let n: int = payload.len() as int;
    lemma_from_le64_le64(n as u64);
    lemma_from_le64_le64(frame_checksum(payload));
    assert(b.subrange(0, 8) =~= le64(n as u64));
    assert(b.subrange(8, 8 + n) =~= payload);
    assert(b.subrange(8 + n, 16 + n) =~= le64(frame_checksum(payload)));
}

} // verus!
