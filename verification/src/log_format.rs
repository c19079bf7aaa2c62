//! The log format: records are cut into fragments that never cross a
//! 32 KiB block, each fragment written as a physical record: a four-byte
//! CRC-32, a two-byte length, a type byte, with recyclable records a
//! four-byte log number, then the fragment.
use vstd::prelude::*;
use crate::coding::{le32, le64, from_le32};
use crate::crc::crc32_ieee;

verus! {

/// The type of a physical record.
#[derive(Debug, PartialEq, Eq, Clone, Copy, Structural)]
pub enum RecordType {
    kZeroType,
    kFullType,
    kFirstType,
    kMiddleType,
    kLastType,
    kRecyclableFullType,
    kRecyclableFirstType,
    kRecyclableMiddleType,
    kRecyclableLastType,
}

/// The largest type byte of a physical record.
pub const kMaxRecordType: u8 = 8;

/// The size of a block.
pub const kBlockSize: usize = 32768;

/// The header size of a recyclable physical record: checksum, length, type
/// and log number.
pub const kRecyclableHeaderSize: usize = 11;

/// The header size of a physical record: checksum, length and type.
pub const kHeaderSize: usize = 7;

/// The type byte of `t`.
pub open spec fn type_byte(t: RecordType) -> u8 {
    match t {
        RecordType::kZeroType => 0,
        RecordType::kFullType => 1,
        RecordType::kFirstType => 2,
        RecordType::kMiddleType => 3,
        RecordType::kLastType => 4,
        RecordType::kRecyclableFullType => 5,
        RecordType::kRecyclableFirstType => 6,
        RecordType::kRecyclableMiddleType => 7,
        RecordType::kRecyclableLastType => 8,
    }
}

/// The type byte of `t`.
pub fn record_type_byte(t: RecordType) -> (r: u8)
    ensures
        r == type_byte(t),
{
    match t {
        RecordType::kZeroType => 0,
        RecordType::kFullType => 1,
        RecordType::kFirstType => 2,
        RecordType::kMiddleType => 3,
        RecordType::kLastType => 4,
        RecordType::kRecyclableFullType => 5,
        RecordType::kRecyclableFirstType => 6,
        RecordType::kRecyclableMiddleType => 7,
        RecordType::kRecyclableLastType => 8,
    }
}

/// Whether a type byte belongs to a recyclable record.
pub open spec fn is_recyclable(t: u8) -> bool {
    5 <= t <= 8
}

/// The header size of a physical record with type byte `t`.
pub open spec fn header_size_of(t: u8) -> nat {
    if is_recyclable(t) {
        11
    } else {
        7
    }
}

/// The header size a writer uses.
pub open spec fn writer_header_size(recycle: bool) -> nat {
    if recycle {
        11
    } else {
        7
    }
}

/// The header after the checksum: the two length bytes (low byte first),
/// the type byte and, for a recyclable record, the low four bytes of the
/// log number.
pub open spec fn header_tail(t: u8, n: nat, log_number: u64) -> Seq<u8> {
    seq![(n % 256) as u8, ((n / 256) % 256) as u8, t] + if is_recyclable(t) {
        le64(log_number).subrange(0, 4)
    } else {
        Seq::<u8>::empty()
    }
}

/// The checksum of a physical record: the CRC-32 of the type byte,
/// continued over the header after the checksum, then over the fragment.
pub open spec fn record_crc(t: u8, header_rest: Seq<u8>, fragment: Seq<u8>) -> u32 {
    crc32_ieee(crc32_ieee(crc32_ieee(0, seq![t]), header_rest), fragment)
}

/// The bytes of a physical record of type `t` that holds `fragment`.
#[verifier::opaque]
pub open spec fn physical_record(t: u8, log_number: u64, fragment: Seq<u8>) -> Seq<u8> {
    let tail = header_tail(t, fragment.len(), log_number);
    le32(record_crc(t, tail, fragment)) + tail + fragment
}

/// A physical record is its header followed by its fragment.
pub proof fn lemma_physical_record_len(t: u8, log_number: u64, fragment: Seq<u8>)
    ensures
        physical_record(t, log_number, fragment).len() == header_size_of(t) + fragment.len(),
{
    reveal(physical_record);
}

/// The type of a fragment: a whole record, or the first, a middle or the
/// last fragment of one.
pub open spec fn fragment_type(recycle: bool, begin: bool, end: bool) -> u8 {
    if begin && end {
        if recycle { 5 } else { 1 }
    } else if begin {
        if recycle { 6 } else { 2 }
    } else if end {
        if recycle { 8 } else { 4 }
    } else {
        if recycle { 7 } else { 3 }
    }
}

/// `n` zero bytes.
pub open spec fn zeros(n: nat) -> Seq<u8> {
    crate::aligned_buffer::repeat_byte(0, n)
}

/// Where a fragment starts in the block: at `bo`, or at the start of the
/// next block when fewer than `h` bytes are left.
pub open spec fn block_start(bo: nat, h: nat) -> nat {
    if kBlockSize - bo < h {
        0
    } else {
        bo
    }
}

/// The zeros that fill the end of a block too short for a header of `h`
/// bytes.
pub open spec fn block_pad(bo: nat, h: nat) -> Seq<u8> {
    if kBlockSize - bo < h {
        zeros((kBlockSize - bo) as nat)
    } else {
        Seq::<u8>::empty()
    }
}

/// The length of a fragment of a rest of `n` bytes that starts at `bo1`
/// after a header of `h` bytes: as much as fits in the block.
pub open spec fn fragment_len(bo1: nat, h: nat, n: nat) -> nat {
    let avail: nat = (kBlockSize - bo1 - h) as nat;
    if n < avail {
        n
    } else {
        avail
    }
}

/// What a writer at offset `bo` of a block emits for the rest `rest` of a
/// record (`begin`: nothing of it has been emitted yet), and the block
/// offset it ends at. When less than a header fits in the block, the block
/// is filled with zeros and the next one begins; each fragment is as much
/// of the rest as fits after a header.
#[verifier::opaque]
pub open spec fn emit_rest(bo: nat, rest: Seq<u8>, begin: bool, recycle: bool, log_number: u64) -> (
    Seq<u8>,
    nat,
)
    decreases rest.len(), kBlockSize - bo,
    when bo <= kBlockSize
{
    let h = writer_header_size(recycle);
    let bo1 = block_start(bo, h);
    let n = fragment_len(bo1, h, rest.len());
    let end = rest.len() == n;
    let t = fragment_type(recycle, begin, end);
    let bytes = block_pad(bo, h) + physical_record(t, log_number, rest.subrange(0, n as int));
    let bo2 = bo1 + h + n;
    if end {
        (bytes, bo2)
    } else {
        let next = emit_rest(bo2, rest.subrange(n as int, rest.len() as int), false, recycle, log_number);
        (bytes + next.0, next.1)
    }
}

/// What a writer at block offset `bo` emits for `record`, and the block
/// offset it ends at.
pub open spec fn encode_record(bo: nat, record: Seq<u8>, recycle: bool, log_number: u64) -> (
    Seq<u8>,
    nat,
) {
    emit_rest(bo, record, true, recycle, log_number)
}

} // verus!
