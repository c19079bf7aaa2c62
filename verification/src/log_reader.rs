//! Reading records back from a log.
use vstd::prelude::*;
use vstd::slice::{slice_subrange, slice_to_vec};
use crate::coding::{DecodeFixed32, from_le32};
use crate::crc::{crc32, crc32_ieee};
use crate::env::WALRecoveryMode;
use crate::file::SequentialFile;
use crate::file_reader_writer::SequentialFileReader;
use crate::log_format::{kBlockSize, kHeaderSize, kRecyclableHeaderSize, kMaxRecordType, is_recyclable, header_size_of, record_crc, fragment_type};
use crate::status::{Code, code_byte, state};

verus! {

/// The outcomes of reading a physical record besides its type.
#[derive(Debug, PartialEq, Eq, Clone, Copy, Structural)]
pub enum RecordType {
    /// The end of the log.
    kEof,
    /// An invalid physical record: a zero record from preallocation, or one
    /// that starts before the initial offset.
    kBadRecord,
    /// A header cut off by the end of the log.
    kBadHeader,
    /// A recyclable record of an earlier log.
    kOldRecord,
    /// A length that runs past the block.
    kBadRecordLen,
    /// A checksum that does not match.
    kBadRecordChecksum,
}

/// The code of a read outcome: one past the largest type byte, and on.
pub open spec fn outcome_code(t: RecordType) -> int {
    match t {
        RecordType::kEof => kMaxRecordType + 1,
        RecordType::kBadRecord => kMaxRecordType + 2,
        RecordType::kBadHeader => kMaxRecordType + 3,
        RecordType::kOldRecord => kMaxRecordType + 4,
        RecordType::kBadRecordLen => kMaxRecordType + 5,
        RecordType::kBadRecordChecksum => kMaxRecordType + 6,
    }
}

/// The code of a read outcome.
pub fn outcome_code_of(t: RecordType) -> (r: isize)
    ensures
        r == outcome_code(t),
{
    match t {
        RecordType::kEof => 9,
        RecordType::kBadRecord => 10,
        RecordType::kBadHeader => 11,
        RecordType::kOldRecord => 12,
        RecordType::kBadRecordLen => 13,
        RecordType::kBadRecordChecksum => 14,
    }
}

/// What one read of a block returned: whether it succeeded, and the bytes.
pub struct BlockRead {
    pub ok: bool,
    pub data: Seq<u8>,
}

/// The state of a log reader: the unread bytes of the current block, whether
/// the end of the file or a read error was met, the offset in the file just
/// past the bytes read, whether the log is a recycled one, and the offset of
/// the last record returned.
pub struct ReaderState {
    pub pending: Seq<u8>,
    pub eof: bool,
    pub read_error: bool,
    pub end_offset: nat,
    pub recycled: bool,
    pub last_record_offset: nat,
}

/// The state after reading the next block, with result `r`.
pub open spec fn read_more(st: ReaderState, r: BlockRead) -> ReaderState {
    let end = st.end_offset + r.data.len();
    if !r.ok || end > u64::MAX {
        ReaderState { pending: Seq::empty(), read_error: true, end_offset: if end > u64::MAX { st.end_offset } else { end }, ..st }
    } else {
        ReaderState { pending: r.data, eof: r.data.len() < kBlockSize, end_offset: end, ..st }
    }
}

/// The result of reading one physical record: its type byte or an outcome
/// code, its fragment, the bytes dropped, the state after, and how many
/// block reads it took.
pub struct PhysicalRead {
    pub code: int,
    pub fragment: Seq<u8>,
    pub drop_size: nat,
    pub state: ReaderState,
    pub reads_used: nat,
}

/// The length field of the header at the front of `p`.
pub open spec fn header_length(p: Seq<u8>) -> nat {
    (p[4] as nat) + 256 * (p[5] as nat)
}

/// Whether `p` holds too little for the header at its front.
pub open spec fn header_incomplete(p: Seq<u8>) -> bool {
    p.len() < kHeaderSize || (is_recyclable(p[6]) && p.len() < kRecyclableHeaderSize)
}

/// Reads one physical record from the unread bytes, reading blocks from
/// `reads` while less than a header is left: a record whose length runs past
/// the block, whose checksum (when checked) does not match, or that is a
/// zero record of preallocated space, empties the block.
pub open spec fn read_physical(
    st: ReaderState,
    reads: Seq<BlockRead>,
    log_number: u64,
    checksum: bool,
    initial_offset: nat,
) -> PhysicalRead
    decreases reads.len(), st.pending.len(),
{
    let p = st.pending;
    if header_incomplete(p) {
        if !st.eof && !st.read_error {
            if reads.len() == 0 {
                PhysicalRead { code: -1, fragment: Seq::empty(), drop_size: 0, state: st, reads_used: 0 }
            } else {
                let st1 = read_more(ReaderState { pending: Seq::empty(), ..st }, reads[0]);
                if st1.read_error {
                    PhysicalRead {
                        code: outcome_code(RecordType::kEof),
                        fragment: Seq::empty(),
                        drop_size: 0,
                        state: st1,
                        reads_used: 1,
                    }
                } else {
                    let rest = read_physical(st1, reads.drop_first(), log_number, checksum, initial_offset);
                    PhysicalRead { reads_used: rest.reads_used + 1, ..rest }
                }
            }
        } else if p.len() > 0 {
            PhysicalRead {
                code: outcome_code(RecordType::kBadHeader),
                fragment: Seq::empty(),
                drop_size: p.len(),
                state: ReaderState { pending: Seq::empty(), ..st },
                reads_used: 0,
            }
        } else {
            PhysicalRead {
                code: outcome_code(RecordType::kEof),
                fragment: Seq::empty(),
                drop_size: 0,
                state: st,
                reads_used: 0,
            }
        }
    } else {
        parse_pending(st, log_number, checksum, initial_offset)
    }
}

/// Parses the physical record at the front of the unread bytes, which hold
/// at least its header.
pub open spec fn parse_pending(
    st: ReaderState,
    log_number: u64,
    checksum: bool,
    initial_offset: nat,
) -> PhysicalRead {
    let p = st.pending;
    let t = p[6];
    let length = header_length(p);
    let hs = header_size_of(t);
    let recycled = st.recycled || (is_recyclable(t) && st.end_offset == p.len());
    let st0 = ReaderState { recycled: recycled, ..st };
    let cleared = ReaderState { pending: Seq::empty(), ..st0 };
    if is_recyclable(t) && from_le32(p.subrange(7, 11)) as nat != log_number as nat {
        PhysicalRead {
            code: outcome_code(RecordType::kOldRecord),
            fragment: Seq::empty(),
            drop_size: 0,
            state: if hs + length <= p.len() {
                ReaderState { pending: p.subrange((hs + length) as int, p.len() as int), ..st0 }
            } else {
                cleared
            },
            reads_used: 0,
        }
    } else if hs + length > p.len() {
        PhysicalRead {
            code: outcome_code(RecordType::kBadRecordLen),
            fragment: Seq::empty(),
            drop_size: p.len(),
            state: cleared,
            reads_used: 0,
        }
    } else if t == 0 && length == 0 {
        PhysicalRead {
            code: outcome_code(RecordType::kBadRecord),
            fragment: Seq::empty(),
            drop_size: 0,
            state: cleared,
            reads_used: 0,
        }
    } else if checksum && from_le32(p.subrange(0, 4)) != record_crc(
        t,
        p.subrange(4, hs as int),
        p.subrange(hs as int, (hs + length) as int),
    ) {
        PhysicalRead {
            code: outcome_code(RecordType::kBadRecordChecksum),
            fragment: Seq::empty(),
            drop_size: p.len(),
            state: cleared,
            reads_used: 0,
        }
    } else {
        let after = ReaderState { pending: p.subrange((hs + length) as int, p.len() as int), ..st0 };
        if st.end_offset - after.pending.len() - hs - length < initial_offset {
            PhysicalRead {
                code: outcome_code(RecordType::kBadRecord),
                fragment: Seq::empty(),
                drop_size: 0,
                state: after,
                reads_used: 0,
            }
        } else {
            PhysicalRead {
                code: t as int,
                fragment: p.subrange(hs as int, (hs + length) as int),
                drop_size: 0,
                state: after,
                reads_used: 0,
            }
        }
    }
}

/// One physical read either took a block read or consumed unread bytes,
/// unless it met the end of the log or ran out of reads.
pub proof fn lemma_read_physical_progress(
    st: ReaderState,
    reads: Seq<BlockRead>,
    log_number: u64,
    checksum: bool,
    initial_offset: nat,
)
    ensures
        ({
            let ph = read_physical(st, reads, log_number, checksum, initial_offset);
            &&& ph.reads_used <= reads.len()
            &&& ph.code == -1 ==> ph.reads_used == reads.len()
            &&& (ph.reads_used > 0 || ph.state.pending.len() < st.pending.len() || ph.code == -1
                || ph.code == outcome_code(RecordType::kEof) || ph.code == outcome_code(
                RecordType::kBadHeader,
            ))
        }),
    decreases reads.len(), st.pending.len(),
{
    let p = st.pending;
    if header_incomplete(p) {
        if !st.eof && !st.read_error && reads.len() > 0 {
            let st1 = read_more(ReaderState { pending: Seq::empty(), ..st }, reads[0]);
            if !st1.read_error {
                lemma_read_physical_progress(st1, reads.drop_first(), log_number, checksum, initial_offset);
            }
        }
    }
}

/// Reads that a physical read did not take do not change it.
pub proof fn lemma_read_physical_frame(
    st: ReaderState,
    reads: Seq<BlockRead>,
    more: Seq<BlockRead>,
    log_number: u64,
    checksum: bool,
    initial_offset: nat,
)
    requires
        read_physical(st, reads, log_number, checksum, initial_offset).code != -1,
        read_physical(st, reads, log_number, checksum, initial_offset).reads_used == reads.len(),
    ensures
        read_physical(st, reads + more, log_number, checksum, initial_offset) == read_physical(
            st,
            reads,
            log_number,
            checksum,
            initial_offset,
        ),
    decreases reads.len(), st.pending.len(),
{
    let p = st.pending;
    if header_incomplete(p) {
        if !st.eof && !st.read_error {
            assert(reads.len() > 0);
            assert((reads + more)[0] == reads[0]);
            let st1 = read_more(ReaderState { pending: Seq::empty(), ..st }, reads[0]);
            if !st1.read_error {
                assert((reads + more).drop_first() =~= reads.drop_first() + more);
                lemma_read_physical_frame(st1, reads.drop_first(), more, log_number, checksum, initial_offset);
            }
        }
    }
}

/// The result of reading a record: whether one was found, the record, the
/// scratch space after, the state after, and how many block reads it took.
pub struct RecordRead {
    pub found: bool,
    pub record: Seq<u8>,
    pub scratch: Seq<u8>,
    pub state: ReaderState,
    pub reads_used: nat,
}

/// Whether a code is the type byte of a whole record.
pub open spec fn is_full(c: int) -> bool {
    c == 1 || c == 5
}

/// Whether a code is the type byte of a first fragment.
pub open spec fn is_first(c: int) -> bool {
    c == 2 || c == 6
}

/// Whether a code is the type byte of a middle fragment.
pub open spec fn is_middle(c: int) -> bool {
    c == 3 || c == 7
}

/// Whether a code is the type byte of a last fragment.
pub open spec fn is_last(c: int) -> bool {
    c == 4 || c == 8
}

/// What reading a record does with one physical record: ends the read,
/// with or without a record, or goes on with a new fragmented-record state.
pub enum RecordStep {
    Done { found: bool, record: Seq<u8>, scratch: Seq<u8>, state: ReaderState },
    Continue { in_fragmented_record: bool, scratch: Seq<u8>, prospective_record_offset: nat },
}

/// The step of reading a record on the physical record `ph`, read at
/// `physical_record_offset`: a whole record, or a last fragment after a
/// first one, makes a record; the end of the log (or, except when skipping
/// all damage, an old record; or, in point-in-time recovery or in a
/// recycled log tolerating a damaged tail, a damaged record) ends the read
/// without one; a first fragment
/// starts a record; middle and last fragments out of order are skipped;
/// damage drops the record being assembled.
pub open spec fn record_step(
    ph: PhysicalRead,
    physical_record_offset: nat,
    mode: WALRecoveryMode,
    in_fragmented_record: bool,
    scratch: Seq<u8>,
    prospective_record_offset: nat,
) -> RecordStep {
    let st1 = ph.state;
    let c = ph.code;
    if c == -1 {
        RecordStep::Done { found: false, record: Seq::empty(), scratch: scratch, state: st1 }
    } else if is_full(c) {
        RecordStep::Done {
            found: true,
            record: ph.fragment,
            scratch: Seq::empty(),
            state: ReaderState { last_record_offset: physical_record_offset, ..st1 },
        }
    } else if c == outcome_code(RecordType::kEof) || c == outcome_code(RecordType::kBadHeader) || (c
        == outcome_code(RecordType::kOldRecord) && mode
        != WALRecoveryMode::kSkipAnyCorruptedRecords) {
        RecordStep::Done {
            found: false,
            record: Seq::empty(),
            scratch: if in_fragmented_record { Seq::empty() } else { scratch },
            state: st1,
        }
    } else if (c == outcome_code(RecordType::kBadRecordLen) || c == outcome_code(
        RecordType::kBadRecordChecksum,
    )) && (st1.recycled && mode == WALRecoveryMode::kTolerateCorruptedTailRecords || mode
        == WALRecoveryMode::kPointInTimeRecovery) {
        RecordStep::Done { found: false, record: Seq::empty(), scratch: Seq::empty(), state: st1 }
    } else if is_last(c) && in_fragmented_record {
        RecordStep::Done {
            found: true,
            record: scratch + ph.fragment,
            scratch: scratch + ph.fragment,
            state: ReaderState { last_record_offset: prospective_record_offset, ..st1 },
        }
    } else if is_first(c) {
        RecordStep::Continue {
            in_fragmented_record: true,
            scratch: ph.fragment,
            prospective_record_offset: physical_record_offset,
        }
    } else if is_middle(c) || is_last(c) {
        if in_fragmented_record {
            RecordStep::Continue {
                in_fragmented_record: true,
                scratch: scratch + ph.fragment,
                prospective_record_offset: prospective_record_offset,
            }
        } else {
            RecordStep::Continue {
                in_fragmented_record: false,
                scratch: scratch,
                prospective_record_offset: prospective_record_offset,
            }
        }
    } else if (c == outcome_code(RecordType::kOldRecord) || c == outcome_code(RecordType::kBadRecord)
        || c == outcome_code(RecordType::kBadRecordLen) || c == outcome_code(
        RecordType::kBadRecordChecksum,
    )) && !in_fragmented_record {
        RecordStep::Continue {
            in_fragmented_record: false,
            scratch: scratch,
            prospective_record_offset: prospective_record_offset,
        }
    } else {
        RecordStep::Continue {
            in_fragmented_record: false,
            scratch: Seq::empty(),
            prospective_record_offset: prospective_record_offset,
        }
    }
}

/// Reads physical records, each with `record_step`, until the read ends.
#[verifier::opaque]
pub open spec fn read_record_from(
    st: ReaderState,
    reads: Seq<BlockRead>,
    mode: WALRecoveryMode,
    log_number: u64,
    checksum: bool,
    initial_offset: nat,
    in_fragmented_record: bool,
    scratch: Seq<u8>,
    prospective_record_offset: nat,
) -> RecordRead
    decreases reads.len(), st.pending.len(),
{
    let physical_record_offset = (st.end_offset - st.pending.len()) as nat;
    let ph = read_physical(st, reads, log_number, checksum, initial_offset);
    proof {
        lemma_read_physical_progress(st, reads, log_number, checksum, initial_offset);
    }
    match record_step(ph, physical_record_offset, mode, in_fragmented_record, scratch, prospective_record_offset) {
        RecordStep::Done { found, record, scratch, state } => RecordRead {
            found,
            record,
            scratch,
            state,
            reads_used: ph.reads_used,
        },
        RecordStep::Continue { in_fragmented_record, scratch, prospective_record_offset } => {
            let rest = read_record_from(
                ph.state,
                reads.subrange(ph.reads_used as int, reads.len() as int),
                mode,
                log_number,
                checksum,
                initial_offset,
                in_fragmented_record,
                scratch,
                prospective_record_offset,
            );
            RecordRead { reads_used: rest.reads_used + ph.reads_used, ..rest }
        },
    }
}


/// `r` with `k` more block reads counted.
pub open spec fn with_reads(r: RecordRead, k: nat) -> RecordRead {
    RecordRead { reads_used: r.reads_used + k, ..r }
}

/// How much reading is left to a reader: twice the room left below the
/// largest offset, plus one while neither the end nor an error was met.
pub open spec fn read_measure(st: ReaderState) -> int {
    (u64::MAX - st.end_offset) * 2 + if st.eof || st.read_error {
        0int
    } else {
        1int
    }
}

/// A physical read never adds to what is left to read, and takes from it
/// when it reads a block.
pub proof fn lemma_read_physical_measure(
    st: ReaderState,
    reads: Seq<BlockRead>,
    log_number: u64,
    checksum: bool,
    initial_offset: nat,
)
    requires
        st.end_offset <= u64::MAX,
    ensures
        ({
            let ph = read_physical(st, reads, log_number, checksum, initial_offset);
            &&& ph.state.end_offset <= u64::MAX
            &&& read_measure(ph.state) <= read_measure(st)
            &&& ph.reads_used > 0 ==> read_measure(ph.state) < read_measure(st)
            &&& ph.reads_used == 0 ==> ph.state.end_offset == st.end_offset && ph.state.eof
                == st.eof && ph.state.read_error == st.read_error
        }),
    decreases reads.len(), st.pending.len(),
{
    let p = st.pending;
    if header_incomplete(p) {
        if !st.eof && !st.read_error && reads.len() > 0 {
            let st1 = read_more(ReaderState { pending: Seq::empty(), ..st }, reads[0]);
            if !st1.read_error {
                lemma_read_physical_measure(st1, reads.drop_first(), log_number, checksum, initial_offset);
            }
        }
    }
}

/// Reading a record on reads that begin with those of its first physical
/// record: one step, then the rest of the reads.
pub proof fn lemma_record_unfold(
    cur: ReaderState,
    u: Seq<BlockRead>,
    fut: Seq<BlockRead>,
    mode: WALRecoveryMode,
    log_number: u64,
    checksum: bool,
    initial_offset: nat,
    in_fragmented_record: bool,
    scratch: Seq<u8>,
    prospective_record_offset: nat,
)
    requires
        read_physical(cur, u, log_number, checksum, initial_offset).code != -1,
        read_physical(cur, u, log_number, checksum, initial_offset).reads_used == u.len(),
    ensures
        ({
            let ph = read_physical(cur, u, log_number, checksum, initial_offset);
            let rr = read_record_from(cur, u + fut, mode, log_number, checksum, initial_offset, in_fragmented_record, scratch, prospective_record_offset);
            match record_step(ph, (cur.end_offset - cur.pending.len()) as nat, mode, in_fragmented_record, scratch, prospective_record_offset) {
                RecordStep::Done { found, record, scratch, state } => rr == (RecordRead {
                    found,
                    record,
                    scratch,
                    state,
                    reads_used: u.len(),
                }),
                RecordStep::Continue { in_fragmented_record, scratch, prospective_record_offset } => rr
                    == with_reads(
                    read_record_from(ph.state, fut, mode, log_number, checksum, initial_offset, in_fragmented_record, scratch, prospective_record_offset),
                    u.len(),
                ),
            }
        }),
{
    lemma_read_physical_frame(cur, u, fut, log_number, checksum, initial_offset);
    assert((u + fut).subrange(u.len() as int, (u + fut).len() as int) =~= fut);
    reveal(read_record_from);
}

/// Where a reader that skips to `initial_offset` starts: at the block that
/// holds it, or at the next one when it lies in the last six bytes of its
/// block.
pub open spec fn skip_target(initial_offset: nat) -> nat {
    let off = initial_offset % (kBlockSize as nat);
    let b = (initial_offset - off) as nat;
    if off > kBlockSize - 6 {
        b + (kBlockSize as nat)
    } else {
        b
    }
}

/// The first `k` physical records read from `st` with `reads`, one after
/// another.
pub open spec fn physical_reads(
    st: ReaderState,
    reads: Seq<BlockRead>,
    log_number: u64,
    checksum: bool,
    initial_offset: nat,
    k: nat,
) -> Seq<PhysicalRead>
    decreases k,
{
    if k == 0 {
        Seq::empty()
    } else {
        let ph = read_physical(st, reads, log_number, checksum, initial_offset);
        seq![ph] + physical_reads(
            ph.state,
            reads.subrange(ph.reads_used as int, reads.len() as int),
            log_number,
            checksum,
            initial_offset,
            (k - 1) as nat,
        )
    }
}

/// The fragments of the physical records `t`, joined in order.
pub open spec fn fragments(t: Seq<PhysicalRead>) -> Seq<u8>
    decreases t.len(),
{
    if t.len() == 0 {
        Seq::empty()
    } else {
        t[0].fragment + fragments(t.drop_first())
    }
}

/// Whether a physical record code is the type a writer gives a fragment
/// that begins a record or not, and ends one or not, in either header
/// format.
pub open spec fn written_as(c: int, begin: bool, end: bool) -> bool {
    c == fragment_type(false, begin, end) as int || c == fragment_type(true, begin, end) as int
}

/// Whether the physical records `t` end with `record` made whole: their
/// last is a whole record holding it, or it is the fragments of a first
/// physical record of `t`, of the middle ones right after it, and of the
/// last one of `t`, a last fragment, with none of them missing.
pub open spec fn ends_with_record(t: Seq<PhysicalRead>, record: Seq<u8>) -> bool {
    &&& t.len() >= 1
    &&& {
        ||| written_as(t.last().code, true, true) && record == t.last().fragment
        ||| exists|j: int|
            0 <= j < t.len() - 1 && written_as(#[trigger] t[j].code, true, false) && (forall|m: int|
                j < m < t.len() - 1 ==> written_as(#[trigger] t[m].code, false, false))
                && written_as(t.last().code, false, true) && record == fragments(
                t.subrange(j, t.len() as int),
            )
    }
}

/// Whether `st2` is the state after the last physical record of `t`, but
/// for the offset of the last record returned.
pub open spec fn stops_after(t: Seq<PhysicalRead>, st2: ReaderState) -> bool {
    t.len() >= 1 && ReaderState { last_record_offset: 0, ..t.last().state } == ReaderState {
        last_record_offset: 0,
        ..st2
    }
}

/// Whether `record` is `scratch` followed by the fragments of `t`: middle
/// fragments and a last one.
pub open spec fn ends_record_begun(t: Seq<PhysicalRead>, scratch: Seq<u8>, record: Seq<u8>) -> bool {
    &&& t.len() >= 1
    &&& forall|m: int| 0 <= m < t.len() - 1 ==> written_as(#[trigger] t[m].code, false, false)
    &&& written_as(t.last().code, false, true)
    &&& record == scratch + fragments(t)
}

proof fn lemma_physical_reads_len(
    st: ReaderState,
    reads: Seq<BlockRead>,
    log_number: u64,
    checksum: bool,
    initial_offset: nat,
    k: nat,
)
    ensures
        physical_reads(st, reads, log_number, checksum, initial_offset, k).len() == k,
    decreases k,
{
    if k > 0 {
        let ph = read_physical(st, reads, log_number, checksum, initial_offset);
        lemma_physical_reads_len(
            ph.state,
            reads.subrange(ph.reads_used as int, reads.len() as int),
            log_number,
            checksum,
            initial_offset,
            (k - 1) as nat,
        );
    }
}

/// A record read with a record begun (`scratch`, when
/// `in_fragmented_record`) is made whole by the physical records read, or
/// completes the one begun.
proof fn lemma_record_whole_from(
    st: ReaderState,
    reads: Seq<BlockRead>,
    mode: WALRecoveryMode,
    log_number: u64,
    checksum: bool,
    initial_offset: nat,
    in_fragmented_record: bool,
    scratch: Seq<u8>,
    prospective_record_offset: nat,
)
    ensures
        ({
            let rr = read_record_from(st, reads, mode, log_number, checksum, initial_offset, in_fragmented_record, scratch, prospective_record_offset);
            rr.found ==> exists|k: nat|
                {
                    let t = #[trigger] physical_reads(st, reads, log_number, checksum, initial_offset, k);
                    stops_after(t, rr.state) && (ends_with_record(t, rr.record) || (in_fragmented_record
                        && ends_record_begun(t, scratch, rr.record)))
                }
        }),
    decreases reads.len(), st.pending.len(),
{
    reveal(read_record_from);
    lemma_read_physical_progress(st, reads, log_number, checksum, initial_offset);
    let ph = read_physical(st, reads, log_number, checksum, initial_offset);
    let physical_record_offset = (st.end_offset - st.pending.len()) as nat;
    let rr = read_record_from(st, reads, mode, log_number, checksum, initial_offset, in_fragmented_record, scratch, prospective_record_offset);
    let reads2 = reads.subrange(ph.reads_used as int, reads.len() as int);
    let t1 = physical_reads(st, reads, log_number, checksum, initial_offset, 1);
    assert(physical_reads(ph.state, reads2, log_number, checksum, initial_offset, 0) =~= Seq::<PhysicalRead>::empty());
    assert(t1 =~= seq![ph]);
    assert(t1.subrange(0, 1) =~= t1);
    assert(fragments(t1.drop_first()) =~= Seq::<u8>::empty());
    assert(fragments(t1) =~= ph.fragment);
    match record_step(ph, physical_record_offset, mode, in_fragmented_record, scratch, prospective_record_offset) {
        RecordStep::Done { .. } => {
            if rr.found {
                assert(ends_with_record(t1, rr.record) || (in_fragmented_record && ends_record_begun(t1, scratch, rr.record)));
            }
        },
        RecordStep::Continue {
            in_fragmented_record: f2,
            scratch: s2,
            prospective_record_offset: p2,
        } => {
            lemma_record_whole_from(ph.state, reads2, mode, log_number, checksum, initial_offset, f2, s2, p2);
            let rest = read_record_from(ph.state, reads2, mode, log_number, checksum, initial_offset, f2, s2, p2);
            if rest.found {
                let k2 = choose|k2: nat|
                    {
                        let t = #[trigger] physical_reads(ph.state, reads2, log_number, checksum, initial_offset, k2);
                        stops_after(t, rest.state) && (ends_with_record(t, rest.record) || (f2
                            && ends_record_begun(t, s2, rest.record)))
                    };
                let t2 = physical_reads(ph.state, reads2, log_number, checksum, initial_offset, k2);
                let k = k2 + 1;
                let t = physical_reads(st, reads, log_number, checksum, initial_offset, k);
                lemma_physical_reads_len(ph.state, reads2, log_number, checksum, initial_offset, k2);
                assert(t =~= seq![ph] + t2);
                assert(t.drop_first() =~= t2);
                assert(t.last() == t2.last());
                if ends_with_record(t2, rest.record) {
                    if written_as(t2.last().code, true, true) && rest.record == t2.last().fragment {
                    } else {
                        let j2 = choose|j: int|
                            0 <= j < t2.len() - 1 && written_as(#[trigger] t2[j].code, true, false) && (forall|m: int|
                                j < m < t2.len() - 1 ==> written_as(#[trigger] t2[m].code, false, false))
                                && written_as(t2.last().code, false, true) && rest.record == fragments(
                                t2.subrange(j, t2.len() as int),
                            );
                        assert(t.subrange(j2 + 1, t.len() as int) =~= t2.subrange(j2, t2.len() as int));
                        assert(t[j2 + 1] == t2[j2]);
                        assert forall|m: int| j2 + 1 < m < t.len() - 1 implies written_as(#[trigger] t[m].code, false, false) by {
                            assert(t[m] == t2[m - 1]);
                        }
                    }
                    assert(ends_with_record(t, rr.record));
                } else {
                    assert(f2 && ends_record_begun(t2, s2, rest.record));
                    assert(fragments(t) == ph.fragment + fragments(t2));
                    assert forall|m: int| 0 < m < t.len() - 1 implies written_as(#[trigger] t[m].code, false, false) by {
                        assert(t[m] == t2[m - 1]);
                    }
                    if is_first(ph.code) {
                        assert(t.subrange(0, t.len() as int) =~= t);
                        assert(written_as(t[0].code, true, false));
                        assert(ends_with_record(t, rr.record));
                    } else {
                        assert(in_fragmented_record && is_middle(ph.code));
                        assert(s2 == scratch + ph.fragment);
                        assert(rr.record =~= scratch + fragments(t));
                        assert(written_as(t[0].code, false, false));
                        assert(ends_record_begun(t, scratch, rr.record));
                    }
                }
            }
        },
    }
}

/// A record is returned only once the physical record that completes it has
/// been read, and it is a record as the writer cut it: after some number of
/// physical reads, the last one read is a whole record, which is the
/// record; or it is a last fragment, and the record is the fragments of a
/// first fragment, of every physical record after it, all middle fragments,
/// and of that last one, joined with nothing missing. The read stops right
/// after that physical record. Damage met while a
/// record is assembled, or the end of the log, drops the record assembled
/// so far, in every recovery mode.
pub proof fn lemma_record_read_is_whole(
    st: ReaderState,
    reads: Seq<BlockRead>,
    mode: WALRecoveryMode,
    log_number: u64,
    checksum: bool,
    initial_offset: nat,
)
    ensures
        ({
            let rr = read_record_from(st, reads, mode, log_number, checksum, initial_offset, false, Seq::empty(), 0);
            rr.found ==> exists|k: nat|
                {
                    let t = #[trigger] physical_reads(st, reads, log_number, checksum, initial_offset, k);
                    stops_after(t, rr.state) && ends_with_record(t, rr.record)
                }
        }),
{
    lemma_record_whole_from(st, reads, mode, log_number, checksum, initial_offset, false, Seq::empty(), 0);
}

/// Reads the records of a log file back, as the log writer cut them up.
pub struct Reader<F: SequentialFile> {
    eof_: bool,
    buffer_: Vec<u8>,
    buffer_start_: usize,
    backing_store_: Vec<u8>,
    read_error_: bool,
    eof_offset_: usize,
    last_record_offset_: u64,
    end_of_buffer_offset_: u64,
    initial_offset_: u64,
    log_number_: u64,
    recycled_: bool,
    checksum_: bool,
    file_: SequentialFileReader<F>,
    reads_: Ghost<Seq<BlockRead>>,
    files_: Ghost<Seq<F>>,
}

impl<F: SequentialFile> Reader<F> {
    /// The state of the reader.
    pub closed spec fn model(&self) -> ReaderState {
        ReaderState {
            pending: self.buffer_@.subrange(self.buffer_start_ as int, self.buffer_@.len() as int),
            eof: self.eof_,
            read_error: self.read_error_,
            end_offset: self.end_of_buffer_offset_ as nat,
            recycled: self.recycled_,
            last_record_offset: self.last_record_offset_ as nat,
        }
    }

    /// The file read.
    pub closed spec fn file(&self) -> F {
        self.file_.file()
    }

    /// Every block read so far, in order.
    pub closed spec fn reads(&self) -> Seq<BlockRead> {
        self.reads_@
    }

    /// The file as it was before each block read, and as it is now.
    pub closed spec fn files(&self) -> Seq<F> {
        self.files_@
    }

    /// The number of the log whose recyclable records are read.
    pub closed spec fn log_number(&self) -> u64 {
        self.log_number_
    }

    /// Whether checksums are checked.
    pub closed spec fn checksum(&self) -> bool {
        self.checksum_
    }

    /// The offset before which records are skipped.
    pub closed spec fn initial_offset(&self) -> u64 {
        self.initial_offset_
    }

    /// The unread bytes lie within the buffer, and the offset past them
    /// covers them.
    pub closed spec fn wf(&self) -> bool {
        &&& self.buffer_start_ <= self.buffer_@.len()
        &&& self.buffer_@.len() - self.buffer_start_ <= self.end_of_buffer_offset_
        &&& self.initial_offset_ <= u64::MAX - kBlockSize
        &&& self.files_@.len() == self.reads_@.len() + 1
        &&& self.files_@.last() == self.file_.file()
    }

    /// A reader of `file` for log `log_num` that skips records before
    /// `initial_offset` and checks checksums when `checksum` holds.
    pub fn new(file: SequentialFileReader<F>, initial_offset: u64, log_num: u64, checksum: bool) -> (r: Reader<F>)
        requires
            initial_offset <= u64::MAX - kBlockSize,
        ensures
            r.wf(),
            r.model() == (ReaderState {
                pending: Seq::empty(),
                eof: false,
                read_error: false,
                end_offset: 0,
                recycled: false,
                last_record_offset: 0,
            }),
            r.reads() == Seq::<BlockRead>::empty(),
            r.files() == seq![file.file()],
            r.log_number() == log_num,
            r.checksum() == checksum,
            r.initial_offset() == initial_offset,
    {
        let ghost f0 = seq![file.file()];
        let r = Reader {
            eof_: false,
            buffer_: Vec::new(),
            buffer_start_: 0,
            backing_store_: Vec::new(),
            eof_offset_: 0,
            last_record_offset_: 0,
            end_of_buffer_offset_: 0,
            initial_offset_: initial_offset,
            read_error_: false,
            file_: file,
            log_number_: log_num,
            recycled_: false,
            checksum_: checksum,
            reads_: Ghost(Seq::empty()),
            files_: Ghost(f0),
        };
        assert(r.buffer_@.subrange(0, 0) =~= Seq::<u8>::empty());
        r
    }

    /// Reads the next block when the end of the file and no read error have
    /// been met: one read of `kBlockSize` bytes of the file into the emptied
    /// buffer, recorded with whether it succeeded and what it read. Otherwise
    /// leaves the file alone and reports the end of the log, or a header cut
    /// off by it when unread bytes are left (which are dropped).
    fn readMore(&mut self, drop_size: &mut usize, error: &mut isize) -> (r: bool)
        requires
            old(self).wf(),
        ensures
            final(self).wf(),
            final(self).log_number() == old(self).log_number(),
            final(self).checksum() == old(self).checksum(),
            final(self).initial_offset() == old(self).initial_offset(),
            !old(self).model().eof && !old(self).model().read_error ==> {
                &&& final(self).files() == old(self).files().push(final(self).file())
                &&& exists|file: &mut F, res: &mut Vec<u8>, scr: &mut Vec<u8>, s: state|
                    {
                        &&& *file == final(self).files()[old(self).reads().len() as int]
                        &&& mut_ref_future(file) == final(self).files()[old(self).reads().len() as int + 1]
                        &&& (*res)@ == Seq::<u8>::empty()
                        &&& mut_ref_future(res)@ == final(self).reads()[old(self).reads().len() as int].data
                        &&& final(self).reads()[old(self).reads().len() as int].ok == (s.code() == code_byte(Code::kOk))
                        &&& #[trigger] call_ensures(F::Read, (file, kBlockSize, res, scr), s)
                    }
                &&& final(self).reads().len() == old(self).reads().len() + 1
                &&& final(self).reads().subrange(0, old(self).reads().len() as int) == old(self).reads()
                &&& final(self).model() == read_more(
                    ReaderState { pending: Seq::empty(), ..old(self).model() },
                    final(self).reads().last(),
                )
                &&& r == !final(self).model().read_error
                &&& !r ==> *final(error) == outcome_code(RecordType::kEof)
                &&& *final(drop_size) == *old(drop_size)
            },
            old(self).model().eof || old(self).model().read_error ==> {
                &&& final(self).reads() == old(self).reads()
                &&& final(self).files() == old(self).files()
                &&& final(self).file() == old(self).file()
                &&& !r
                &&& old(self).model().pending.len() > 0 ==> *final(error) == outcome_code(RecordType::kBadHeader)
                    && *final(drop_size) == old(self).model().pending.len()
                    && final(self).model() == (ReaderState { pending: Seq::empty(), ..old(self).model() })
                &&& old(self).model().pending.len() == 0 ==> *final(error) == outcome_code(RecordType::kEof)
                    && final(self).model() == old(self).model()
                    && *final(drop_size) == *old(drop_size)
            },
    {
        if !self.eof_ && !self.read_error_ {
            self.buffer_.clear();
            self.buffer_start_ = 0;
            let n = kBlockSize;
            let s = self.file_.Read(n, &mut self.buffer_, &mut self.backing_store_);
            let read_ok = s.isOk();
            let ghost br = BlockRead { ok: read_ok, data: self.buffer_@ };
            proof {
                self.reads_@ = self.reads_@.push(br);
                self.files_@ = self.files_@.push(self.file_.file());
                let i = old(self).reads_@.len() as int;
                assert(self.files_@[i] == old(self).files_@.last());
            }
            assert(exists|file: &mut F, res: &mut Vec<u8>, scr: &mut Vec<u8>, s: state|
                {
                    &&& *file == self.files()[old(self).reads().len() as int]
                    &&& mut_ref_future(file) == self.files()[old(self).reads().len() as int + 1]
                    &&& (*res)@ == Seq::<u8>::empty()
                    &&& mut_ref_future(res)@ == self.reads()[old(self).reads().len() as int].data
                    &&& self.reads()[old(self).reads().len() as int].ok == (s.code() == code_byte(Code::kOk))
                    &&& #[trigger] call_ensures(F::Read, (file, kBlockSize, res, scr), s)
                });
            assert(self.buffer_@.subrange(0, self.buffer_@.len() as int) =~= br.data);
            let len = self.buffer_.len();
            if len as u64 > u64::MAX - self.end_of_buffer_offset_ {
                self.buffer_.clear();
                self.read_error_ = true;
                *error = outcome_code_of(RecordType::kEof);
                assert(self.buffer_@.subrange(0, 0) =~= Seq::<u8>::empty());
                return false;
            }
            self.end_of_buffer_offset_ = self.end_of_buffer_offset_ + len as u64;
            if !read_ok {
                self.buffer_.clear();
                self.read_error_ = true;
                *error = outcome_code_of(RecordType::kEof);
                assert(self.buffer_@.subrange(0, 0) =~= Seq::<u8>::empty());
                return false;
            } else if len < kBlockSize {
                self.eof_ = true;
                self.eof_offset_ = len;
            }
            true
        } else {
            if self.buffer_.len() - self.buffer_start_ > 0 {
                *drop_size = self.buffer_.len() - self.buffer_start_;
                self.buffer_.clear();
                self.buffer_start_ = 0;
                *error = outcome_code_of(RecordType::kBadHeader);
                assert(self.buffer_@.subrange(0, 0) =~= Seq::<u8>::empty());
                return false;
            }
            *error = outcome_code_of(RecordType::kEof);
            false
        }
    }

    fn clear_buffer(&mut self)
        requires
            old(self).wf(),
        ensures
            final(self).wf(),
            final(self).model() == (ReaderState { pending: Seq::empty(), ..old(self).model() }),
            final(self).reads() == old(self).reads(),
            final(self).files() == old(self).files(),
            final(self).log_number() == old(self).log_number(),
            final(self).checksum() == old(self).checksum(),
            final(self).initial_offset() == old(self).initial_offset(),
    {
        self.buffer_.clear();
        self.buffer_start_ = 0;
        assert(self.buffer_@.subrange(0, 0) =~= Seq::<u8>::empty());
    }

    /// Parses the physical record at the front of the unread bytes, which
    /// hold at least its header.
    #[verifier::rlimit(100)]
    #[verifier::spinoff_prover]
    fn parse_buffered(&mut self, fragment: &mut Vec<u8>, drop_size: &mut usize) -> (r: isize)
        requires
            old(self).wf(),
            !header_incomplete(old(self).model().pending),
        ensures
            final(self).wf(),
            final(self).log_number() == old(self).log_number(),
            final(self).checksum() == old(self).checksum(),
            final(self).initial_offset() == old(self).initial_offset(),
            final(self).reads() == old(self).reads(),
            final(self).files() == old(self).files(),
            ({
                let ph = parse_pending(
                    old(self).model(),
                    old(self).log_number(),
                    old(self).checksum(),
                    old(self).initial_offset() as nat,
                );
                &&& ph.code != -1
                &&& ph.reads_used == 0
                &&& r == ph.code
                &&& final(fragment)@ == ph.fragment
                &&& *final(drop_size) == ph.drop_size
                &&& final(self).model() == ph.state
            }),
    {
        let ghost st = self.model();
        let start = self.buffer_start_;
        let avail = self.buffer_.len() - start;
        let t = self.buffer_[start + 6];
        let a = self.buffer_[start + 4];
        let b = self.buffer_[start + 5];
        let length: usize = a as usize + 256 * (b as usize);
        let recyclable = 5 <= t && t <= 8;
        let header_size: usize = if recyclable {
            kRecyclableHeaderSize
        } else {
            kHeaderSize
        };
        assert(st.pending[6] == t && st.pending[4] == a && st.pending[5] == b);
        assert(header_length(st.pending) == length);
        if recyclable && self.end_of_buffer_offset_ == avail as u64 {
            self.recycled_ = true;
        }
        let ghost st0 = self.model();
        *drop_size = 0;
        fragment.clear();
        assert(fragment@ =~= Seq::<u8>::empty());
        if recyclable {
            let ln_bytes = [self.buffer_[start + 7], self.buffer_[start + 8], self.buffer_[start + 9], self.buffer_[start + 10]];
            assert(ln_bytes@ =~= st.pending.subrange(7, 11));
            let log_num = DecodeFixed32(ln_bytes);
            if log_num as u64 != self.log_number_ {
                if header_size + length <= avail {
                    self.buffer_start_ = start + header_size + length;
                    assert(self.model().pending =~= st.pending.subrange((header_size + length) as int, st.pending.len() as int));
                } else {
                    self.clear_buffer();
                }
                return outcome_code_of(RecordType::kOldRecord);
            }
        }
        if header_size + length > avail {
            *drop_size = avail;
            self.clear_buffer();
            return outcome_code_of(RecordType::kBadRecordLen);
        }
        if t == 0 && length == 0 {
            self.clear_buffer();
            return outcome_code_of(RecordType::kBadRecord);
        }
        if self.checksum_ {
            let crc_bytes = [self.buffer_[start], self.buffer_[start + 1], self.buffer_[start + 2], self.buffer_[start + 3]];
            assert(crc_bytes@ =~= st.pending.subrange(0, 4));
            let expected = DecodeFixed32(crc_bytes);
            let mut one: Vec<u8> = Vec::new();
            one.push(t);
            assert(one@ =~= seq![t]);
            let mut actual = crc32(0, one.as_slice());
            let rest_of_header = slice_subrange(self.buffer_.as_slice(), start + 4, start + header_size);
            assert(rest_of_header@ =~= st.pending.subrange(4, header_size as int));
            actual = crc32(actual, rest_of_header);
            let payload = slice_subrange(self.buffer_.as_slice(), start + header_size, start + header_size + length);
            assert(payload@ =~= st.pending.subrange(header_size as int, (header_size + length) as int));
            actual = crc32(actual, payload);
            if actual != expected {
                *drop_size = avail;
                self.clear_buffer();
                return outcome_code_of(RecordType::kBadRecordChecksum);
            }
        }
        let frag = slice_to_vec(slice_subrange(self.buffer_.as_slice(), start + header_size, start + header_size + length));
        assert(frag@ =~= st.pending.subrange(header_size as int, (header_size + length) as int));
        self.buffer_start_ = start + header_size + length;
        assert(self.model().pending =~= st.pending.subrange((header_size + length) as int, st.pending.len() as int));
        let remaining = self.buffer_.len() - self.buffer_start_;
        if self.end_of_buffer_offset_ - (remaining as u64) - ((header_size + length) as u64) < self.initial_offset_ {
            return outcome_code_of(RecordType::kBadRecord);
        }
        *fragment = frag;
        t as isize
    }

    /// Reads the next physical record, reading blocks as needed; returns its
    /// type byte, with the fragment in `fragment`, or an outcome code.
    fn readPhysicalRecord(&mut self, fragment: &mut Vec<u8>, drop_size: &mut usize) -> (r: isize)
        requires
            old(self).wf(),
        ensures
            final(self).wf(),
            final(self).log_number() == old(self).log_number(),
            final(self).checksum() == old(self).checksum(),
            final(self).initial_offset() == old(self).initial_offset(),
            final(self).reads().len() >= old(self).reads().len(),
            final(self).reads().subrange(0, old(self).reads().len() as int) == old(self).reads(),
            final(self).files().subrange(0, old(self).files().len() as int) == old(self).files(),
            forall|i: int|
                #![trigger final(self).reads()[i]]
                old(self).reads().len() <= i < final(self).reads().len() ==> exists|file: &mut F, res: &mut Vec<u8>, scr: &mut Vec<u8>, s: state|
                {
                    &&& *file == final(self).files()[i]
                    &&& mut_ref_future(file) == final(self).files()[i + 1]
                    &&& (*res)@ == Seq::<u8>::empty()
                    &&& mut_ref_future(res)@ == final(self).reads()[i].data
                    &&& final(self).reads()[i].ok == (s.code() == code_byte(Code::kOk))
                    &&& #[trigger] call_ensures(F::Read, (file, kBlockSize, res, scr), s)
                },
            ({
                let reads = final(self).reads().subrange(
                    old(self).reads().len() as int,
                    final(self).reads().len() as int,
                );
                let ph = read_physical(
                    old(self).model(),
                    reads,
                    old(self).log_number(),
                    old(self).checksum(),
                    old(self).initial_offset() as nat,
                );
                &&& ph.code != -1
                &&& ph.reads_used == reads.len()
                &&& r == ph.code
                &&& final(fragment)@ == ph.fragment
                &&& *final(drop_size) == ph.drop_size
                &&& final(self).model() == ph.state
            }),
        decreases (u64::MAX - old(self).end_of_buffer_offset_) * 2 + (if old(self).eof_
            || old(self).read_error_ {
            0int
        } else {
            1int
        }),
    {
        let ghost st = self.model();
        let ghost reads0 = self.reads_@;
        let start = self.buffer_start_;
        let avail = self.buffer_.len() - start;
        if avail < kHeaderSize || ((5 <= self.buffer_[start + 6] && self.buffer_[start + 6] <= 8) && avail
            < kRecyclableHeaderSize) {
            assert(header_incomplete(st.pending));
            let mut r: isize = outcome_code_of(RecordType::kEof);
            *drop_size = 0;
            fragment.clear();
            if !self.readMore(drop_size, &mut r) {
                proof {
                    let reads = self.reads_@.subrange(reads0.len() as int, self.reads_@.len() as int);
                    if !st.eof && !st.read_error {
                        assert(reads =~= seq![self.reads_@.last()]);
                    } else {
                        assert(reads =~= Seq::<BlockRead>::empty());
                    }
                    assert(fragment@ =~= Seq::<u8>::empty());
                    assert(self.files_@.subrange(0, old(self).files_@.len() as int) =~= old(self).files_@);
                }
                return r;
            }
            let ghost mid = self.reads_@;
            let ghost mid_files = self.files_@;
            let ghost i0 = reads0.len() as int;
            assert(exists|file: &mut F, res: &mut Vec<u8>, scr: &mut Vec<u8>, s: state|
                {
                    &&& *file == self.files()[i0]
                    &&& mut_ref_future(file) == self.files()[i0 + 1]
                    &&& (*res)@ == Seq::<u8>::empty()
                    &&& mut_ref_future(res)@ == self.reads()[i0].data
                    &&& self.reads()[i0].ok == (s.code() == code_byte(Code::kOk))
                    &&& #[trigger] call_ensures(F::Read, (file, kBlockSize, res, scr), s)
                });
            let r = self.readPhysicalRecord(fragment, drop_size);
            proof {
                assert(self.files_@.subrange(0, mid_files.len() as int) == mid_files);
                assert(self.files_@[i0] == mid_files[i0]);
                assert(self.files_@[i0 + 1] == mid_files[i0 + 1]);
                assert(self.reads_@.subrange(0, mid.len() as int) == mid);
                assert(self.reads_@[i0] == mid[i0]);
                assert(exists|file: &mut F, res: &mut Vec<u8>, scr: &mut Vec<u8>, s: state|
                    {
                        &&& *file == self.files()[i0]
                        &&& mut_ref_future(file) == self.files()[i0 + 1]
                        &&& (*res)@ == Seq::<u8>::empty()
                        &&& mut_ref_future(res)@ == self.reads()[i0].data
                        &&& self.reads()[i0].ok == (s.code() == code_byte(Code::kOk))
                        &&& #[trigger] call_ensures(F::Read, (file, kBlockSize, res, scr), s)
                    });
                assert(self.files_@.subrange(0, old(self).files_@.len() as int) =~= old(self).files_@);
                let reads = self.reads_@.subrange(reads0.len() as int, self.reads_@.len() as int);
                let rest = self.reads_@.subrange(mid.len() as int, self.reads_@.len() as int);
                assert(self.reads_@.subrange(0, reads0.len() as int) =~= reads0) by {
                    assert(self.reads_@.subrange(0, mid.len() as int) == mid);
                    assert(self.reads_@.subrange(0, reads0.len() as int) =~= mid.subrange(0, reads0.len() as int));
                }
                assert(reads[0] == mid.last());
                assert(reads.drop_first() =~= rest);
            }
            return r;
        }
        let r = self.parse_buffered(fragment, drop_size);
        assert(self.reads_@.subrange(reads0.len() as int, self.reads_@.len() as int) =~= Seq::<BlockRead>::empty());
        assert(self.files_@.subrange(0, old(self).files_@.len() as int) =~= old(self).files_@);
        r
    }

    /// Moves to the block that holds the initial offset (see `skip_target`),
    /// dropping the unread bytes, and skips there in the file; reports whether
    /// that skip succeeded.
    fn SkipToInitialBlock(&mut self) -> (r: bool)
        requires
            old(self).wf(),
        ensures
            final(self).wf(),
            final(self).model() == (ReaderState {
                pending: Seq::empty(),
                end_offset: skip_target(old(self).initial_offset() as nat),
                ..old(self).model()
            }),
            final(self).reads() == old(self).reads(),
            final(self).files() == old(self).files(),
            final(self).log_number() == old(self).log_number(),
            final(self).checksum() == old(self).checksum(),
            final(self).initial_offset() == old(self).initial_offset(),
            final(self).file() == old(self).file(),
            skip_target(old(self).initial_offset() as nat) == 0 ==> r,
            skip_target(old(self).initial_offset() as nat) > 0 ==> exists|s: state|
                {
                    &&& #[trigger] call_ensures(
                        F::Skip,
                        (&old(self).file(), skip_target(old(self).initial_offset() as nat) as i64),
                        s,
                    )
                    &&& r == (s.code() == code_byte(Code::kOk))
                },
    {
        let block_size = kBlockSize as u64;
        let initial_offset_in_block = self.initial_offset_ % block_size;
        let mut block_start_location = self.initial_offset_ - initial_offset_in_block;
        if initial_offset_in_block > block_size - 6 {
            block_start_location = block_start_location + block_size;
        }
        self.buffer_.clear();
        self.buffer_start_ = 0;
        assert(self.buffer_@.subrange(0, 0) =~= Seq::<u8>::empty());
        self.end_of_buffer_offset_ = block_start_location;
        assert(block_start_location == skip_target(self.initial_offset_ as nat));
        if block_start_location > 0 {
            let skip_status = self.file_.Skip(block_start_location as i64);
            if !skip_status.isOk() {
                return false;
            }
        }
        true
    }

    /// Reads the next record into `record`, assembling fragments in
    /// `scratch`; reports whether there was one (see `read_record_from`).
    /// A reader that has not yet returned a record past its initial offset
    /// first skips to it, and gives up when that skip fails.
    #[verifier::rlimit(60)]
    pub fn readRecord(&mut self, record: &mut Vec<u8>, scratch: &mut Vec<u8>, wal_recovery_mode: WALRecoveryMode) -> (r: bool)
        requires
            old(self).wf(),
        ensures
            final(self).wf(),
            final(self).log_number() == old(self).log_number(),
            final(self).checksum() == old(self).checksum(),
            final(self).initial_offset() == old(self).initial_offset(),
            final(self).reads().len() >= old(self).reads().len(),
            final(self).reads().subrange(0, old(self).reads().len() as int) == old(self).reads(),
            ({
                let skipping = old(self).model().last_record_offset < old(self).initial_offset();
                let st = if skipping {
                    ReaderState {
                        pending: Seq::empty(),
                        end_offset: skip_target(old(self).initial_offset() as nat),
                        ..old(self).model()
                    }
                } else {
                    old(self).model()
                };
                let reads = final(self).reads().subrange(
                    old(self).reads().len() as int,
                    final(self).reads().len() as int,
                );
                let rr = read_record_from(
                    st,
                    reads,
                    wal_recovery_mode,
                    old(self).log_number(),
                    old(self).checksum(),
                    old(self).initial_offset() as nat,
                    false,
                    Seq::empty(),
                    0,
                );
                let target = skip_target(old(self).initial_offset() as nat);
                ||| {
                    &&& skipping && target > 0 && !r
                    &&& final(self).model() == st && reads.len() == 0
                    &&& exists|s: state|
                        #[trigger] call_ensures(F::Skip, (&old(self).file(), target as i64), s)
                            && s.code() != code_byte(Code::kOk)
                }
                ||| {
                    &&& skipping && target > 0 ==> exists|s: state|
                        #[trigger] call_ensures(F::Skip, (&old(self).file(), target as i64), s)
                            && s.code() == code_byte(Code::kOk)
                    &&& rr.reads_used == reads.len() && r == rr.found && final(record)@ == rr.record
                    &&& final(scratch)@ == rr.scratch && final(self).model() == rr.state
                    &&& forall|more: Seq<BlockRead>|
                        #[trigger] read_record_from(
                            st,
                            reads + more,
                            wal_recovery_mode,
                            old(self).log_number(),
                            old(self).checksum(),
                            old(self).initial_offset() as nat,
                            false,
                            Seq::empty(),
                            0,
                        ) == rr
                }
            }),
    {
        let ghost reads_start = self.reads_@;
        if self.last_record_offset_ < self.initial_offset_ {
            if !self.SkipToInitialBlock() {
                assert(self.reads_@.subrange(reads_start.len() as int, self.reads_@.len() as int) =~= Seq::<BlockRead>::empty());
                return false;
            }
        }
        let ghost st_start = self.model();
        let ghost ln = self.log_number_;
        let ghost cs = self.checksum_;
        let ghost init = self.initial_offset_ as nat;
        let ghost mut done: Seq<BlockRead> = Seq::empty();
        record.clear();
        scratch.clear();
        let mut in_fragmented_record = false;
        let mut prospective_record_offset: u64 = 0;
        let mut fragment: Vec<u8> = Vec::new();
        assert(reads_start + done =~= reads_start);
        assert forall|fut: Seq<BlockRead>|
            #[trigger] read_record_from(st_start, done + fut, wal_recovery_mode, ln, cs, init, false, Seq::empty(), 0)
                == with_reads(
                read_record_from(self.model(), fut, wal_recovery_mode, ln, cs, init, in_fragmented_record, scratch@, prospective_record_offset as nat),
                done.len(),
            ) by {
            assert(done + fut =~= fut);
            assert(scratch@ =~= Seq::<u8>::empty());
        }
        loop
            invariant
                self.wf(),
                self.log_number_ == ln,
                self.checksum_ == cs,
                self.initial_offset_ as nat == init,
                ln == old(self).log_number_,
                cs == old(self).checksum_,
                init == old(self).initial_offset_ as nat,
                self.reads_@ == reads_start + done,
                reads_start == old(self).reads_@,
                record@ == Seq::<u8>::empty(),
                old(self).last_record_offset_ < old(self).initial_offset_ && skip_target(
                    old(self).initial_offset_ as nat,
                ) > 0 ==> exists|s: state|
                    #[trigger] call_ensures(
                        F::Skip,
                        (&old(self).file(), skip_target(old(self).initial_offset_ as nat) as i64),
                        s,
                    ) && s.code() == code_byte(Code::kOk),
                st_start == (if old(self).last_record_offset_ < old(self).initial_offset_ {
                    ReaderState {
                        pending: Seq::empty(),
                        end_offset: skip_target(old(self).initial_offset_ as nat),
                        ..old(self).model()
                    }
                } else {
                    old(self).model()
                }),
                forall|fut: Seq<BlockRead>|
                    #[trigger] read_record_from(st_start, done + fut, wal_recovery_mode, ln, cs, init, false, Seq::empty(), 0)
                        == with_reads(
                        read_record_from(self.model(), fut, wal_recovery_mode, ln, cs, init, in_fragmented_record, scratch@, prospective_record_offset as nat),
                        done.len(),
                    ),
            decreases read_measure(self.model()), self.buffer_@.len() - self.buffer_start_,
        {
            let ghost cur = self.model();
            let ghost before = self.reads_@;
            let physical_record_offset = self.end_of_buffer_offset_ - ((self.buffer_.len() - self.buffer_start_) as u64);
            let mut drop_size: usize = 0;
            let record_type = self.readPhysicalRecord(&mut fragment, &mut drop_size);
            let ghost u = self.reads_@.subrange(before.len() as int, self.reads_@.len() as int);
            let ghost ph = read_physical(cur, u, ln, cs, init);
            let ghost step = record_step(ph, physical_record_offset as nat, wal_recovery_mode, in_fragmented_record, scratch@, prospective_record_offset as nat);
            proof {
                assert(self.reads_@ =~= before + u);
                assert(self.reads_@ =~= reads_start + (done + u));
                lemma_read_physical_measure(cur, u, ln, cs, init);
                lemma_read_physical_progress(cur, u, ln, cs, init);
                assert forall|fut: Seq<BlockRead>|
                    #[trigger] read_record_from(st_start, (done + u) + fut, wal_recovery_mode, ln, cs, init, false, Seq::empty(), 0)
                        == with_reads(
                        read_record_from(cur, u + fut, wal_recovery_mode, ln, cs, init, in_fragmented_record, scratch@, prospective_record_offset as nat),
                        done.len(),
                    ) by {
                    assert((done + u) + fut =~= done + (u + fut));
                }
                assert forall|fut: Seq<BlockRead>|
                    #[trigger] read_record_from(cur, u + fut, wal_recovery_mode, ln, cs, init, in_fragmented_record, scratch@, prospective_record_offset as nat)
                        == (match step {
                        RecordStep::Done { found, record, scratch, state } => RecordRead {
                            found,
                            record,
                            scratch,
                            state,
                            reads_used: u.len(),
                        },
                        RecordStep::Continue { in_fragmented_record, scratch, prospective_record_offset } => with_reads(
                            read_record_from(ph.state, fut, wal_recovery_mode, ln, cs, init, in_fragmented_record, scratch, prospective_record_offset),
                            u.len(),
                        ),
                    }) by {
                    lemma_record_unfold(cur, u, fut, wal_recovery_mode, ln, cs, init, in_fragmented_record, scratch@, prospective_record_offset as nat);
                }
                done = done + u;
            }
            let ghost done0 = (done.subrange(0, done.len() - u.len()));
            proof {
                assert(done0 + u =~= done);
                assert(self.reads_@.subrange(reads_start.len() as int, self.reads_@.len() as int) =~= done);
            }
            let ghost old_scratch = scratch@;
            if record_type == 1 || record_type == 5 {
                scratch.clear();
                *record = slice_to_vec(fragment.as_slice());
                self.last_record_offset_ = physical_record_offset;
                proof {
                    let e = Seq::<BlockRead>::empty();
                    assert((done0 + u) + e =~= done0 + u);
                    assert(u + e =~= u);
                    assert(read_record_from(st_start, (done0 + u) + e, wal_recovery_mode, ln, cs, init, false, Seq::empty(), 0)
                        == with_reads(
                        read_record_from(cur, u + e, wal_recovery_mode, ln, cs, init, in_fragmented_record, old_scratch, prospective_record_offset as nat),
                        done0.len(),
                    ));
                    assert forall|more: Seq<BlockRead>|
                        #[trigger] read_record_from(st_start, done + more, wal_recovery_mode, ln, cs, init, false, Seq::empty(), 0)
                            == read_record_from(st_start, done, wal_recovery_mode, ln, cs, init, false, Seq::empty(), 0) by {
                        assert(done + more =~= (done0 + u) + more);
                        assert(read_record_from(cur, u + more, wal_recovery_mode, ln, cs, init, in_fragmented_record, old_scratch, prospective_record_offset as nat)
                            == read_record_from(cur, u + e, wal_recovery_mode, ln, cs, init, in_fragmented_record, old_scratch, prospective_record_offset as nat));
                    }
                }
                return true;
            }
            if record_type == 9 || record_type == 11 || (record_type == 12 && wal_recovery_mode != WALRecoveryMode::kSkipAnyCorruptedRecords) {
                if in_fragmented_record {
                    scratch.clear();
                }
                proof {
                    let e = Seq::<BlockRead>::empty();
                    assert((done0 + u) + e =~= done0 + u);
                    assert(u + e =~= u);
                    assert(read_record_from(st_start, (done0 + u) + e, wal_recovery_mode, ln, cs, init, false, Seq::empty(), 0)
                        == with_reads(
                        read_record_from(cur, u + e, wal_recovery_mode, ln, cs, init, in_fragmented_record, old_scratch, prospective_record_offset as nat),
                        done0.len(),
                    ));
                    assert forall|more: Seq<BlockRead>|
                        #[trigger] read_record_from(st_start, done + more, wal_recovery_mode, ln, cs, init, false, Seq::empty(), 0)
                            == read_record_from(st_start, done, wal_recovery_mode, ln, cs, init, false, Seq::empty(), 0) by {
                        assert(done + more =~= (done0 + u) + more);
                        assert(read_record_from(cur, u + more, wal_recovery_mode, ln, cs, init, in_fragmented_record, old_scratch, prospective_record_offset as nat)
                            == read_record_from(cur, u + e, wal_recovery_mode, ln, cs, init, in_fragmented_record, old_scratch, prospective_record_offset as nat));
                    }
                }
                return false;
            }
            if (record_type == 13 || record_type == 14) && (self.recycled_ && wal_recovery_mode
                == WALRecoveryMode::kTolerateCorruptedTailRecords || wal_recovery_mode
                == WALRecoveryMode::kPointInTimeRecovery) {
                scratch.clear();
                proof {
                    let e = Seq::<BlockRead>::empty();
                    assert((done0 + u) + e =~= done0 + u);
                    assert(u + e =~= u);
                    assert(read_record_from(st_start, (done0 + u) + e, wal_recovery_mode, ln, cs, init, false, Seq::empty(), 0)
                        == with_reads(
                        read_record_from(cur, u + e, wal_recovery_mode, ln, cs, init, in_fragmented_record, old_scratch, prospective_record_offset as nat),
                        done0.len(),
                    ));
                    assert forall|more: Seq<BlockRead>|
                        #[trigger] read_record_from(st_start, done + more, wal_recovery_mode, ln, cs, init, false, Seq::empty(), 0)
                            == read_record_from(st_start, done, wal_recovery_mode, ln, cs, init, false, Seq::empty(), 0) by {
                        assert(done + more =~= (done0 + u) + more);
                        assert(read_record_from(cur, u + more, wal_recovery_mode, ln, cs, init, in_fragmented_record, old_scratch, prospective_record_offset as nat)
                            == read_record_from(cur, u + e, wal_recovery_mode, ln, cs, init, in_fragmented_record, old_scratch, prospective_record_offset as nat));
                    }
                }
                return false;
            }
            if (record_type == 4 || record_type == 8) && in_fragmented_record {
                scratch.append(&mut fragment);
                *record = slice_to_vec(scratch.as_slice());
                self.last_record_offset_ = prospective_record_offset;
                proof {
                    let e = Seq::<BlockRead>::empty();
                    assert((done0 + u) + e =~= done0 + u);
                    assert(u + e =~= u);
                    assert(read_record_from(st_start, (done0 + u) + e, wal_recovery_mode, ln, cs, init, false, Seq::empty(), 0)
                        == with_reads(
                        read_record_from(cur, u + e, wal_recovery_mode, ln, cs, init, in_fragmented_record, old_scratch, prospective_record_offset as nat),
                        done0.len(),
                    ));
                    assert forall|more: Seq<BlockRead>|
                        #[trigger] read_record_from(st_start, done + more, wal_recovery_mode, ln, cs, init, false, Seq::empty(), 0)
                            == read_record_from(st_start, done, wal_recovery_mode, ln, cs, init, false, Seq::empty(), 0) by {
                        assert(done + more =~= (done0 + u) + more);
                        assert(read_record_from(cur, u + more, wal_recovery_mode, ln, cs, init, in_fragmented_record, old_scratch, prospective_record_offset as nat)
                            == read_record_from(cur, u + e, wal_recovery_mode, ln, cs, init, in_fragmented_record, old_scratch, prospective_record_offset as nat));
                    }
                }
                return true;
            }
            if record_type == 2 || record_type == 6 {
                prospective_record_offset = physical_record_offset;
                scratch.clear();
                scratch.append(&mut fragment);
                in_fragmented_record = true;
            } else if record_type == 3 || record_type == 7 || record_type == 4 || record_type == 8 {
                if in_fragmented_record {
                    scratch.append(&mut fragment);
                }
            } else if (record_type == 12 || record_type == 10 || record_type == 13 || record_type == 14) && !in_fragmented_record {
            } else {
                in_fragmented_record = false;
                scratch.clear();
            }
            fragment = Vec::new();
            proof {
                assert(scratch@ == (match step {
                    RecordStep::Continue { scratch, .. } => scratch,
                    _ => Seq::<u8>::empty(),
                }));
            }
        }
    }

}

} // verus!
