//! Reading a log back: a reader given the blocks of a log that a fresh
//! writer produced returns the records written, in order (from an initial
//! offset on, those that start there or later), and then the end of the
//! log.
use vstd::prelude::*;
use crate::coding::{le32, le64, from_le32, lemma_decode_encode_fixed32};
use crate::env::WALRecoveryMode;
use crate::log_format::{
    kBlockSize, block_pad, block_start, emit_rest, encode_record, fragment_len, fragment_type,
    header_tail, physical_record, record_crc, writer_header_size, header_size_of, is_recyclable,
    zeros,
};
use crate::log_reader::{
    BlockRead, PhysicalRead, ReaderState, RecordRead, read_physical, read_record_from,
    outcome_code, RecordType, is_full, is_first, is_middle, is_last, with_reads, skip_target,
};
use vstd::arithmetic::div_mod::lemma_fundamental_div_mod_converse;

verus! {

/// The offset where block `j` of a log of `len` bytes begins (the end of the
/// first `j` blocks), cut at the end of the log.
pub open spec fn block_end(len: nat, j: nat) -> nat {
    if j * 32768 <= len {
        j * 32768
    } else {
        len
    }
}

/// The bytes of block `j` of `log`: a whole block, or the shorter (maybe
/// empty) last one.
pub open spec fn block_of(log: Seq<u8>, j: nat) -> Seq<u8> {
    log.subrange(block_end(log.len(), j) as int, block_end(log.len(), j + 1) as int)
}

/// The number of block reads it takes to read all of `log`, the last one
/// shorter than a block.
pub open spec fn block_count(log: Seq<u8>) -> nat {
    log.len() / 32768 + 1
}

/// The successful reads of the blocks of `log` from block `j` on.
#[verifier::opaque]
pub open spec fn block_reads(log: Seq<u8>, j: nat) -> Seq<BlockRead> {
    if j <= block_count(log) {
        Seq::new(
            (block_count(log) - j) as nat,
            |k: int| BlockRead { ok: true, data: block_of(log, (j + k) as nat) },
        )
    } else {
        Seq::empty()
    }
}

/// A reader of `log` that has read its first `j` blocks and consumed it up
/// to offset `o`, with the last record returned at `lro` and `rec` telling
/// whether it took the log for a recycled one.
#[verifier::opaque]
pub open spec fn reader_at(log: Seq<u8>, j: nat, o: nat, lro: nat, rec: bool) -> ReaderState {
    ReaderState {
        pending: log.subrange(o as int, block_end(log.len(), j) as int),
        eof: log.len() < j * 32768,
        read_error: false,
        end_offset: block_end(log.len(), j),
        recycled: rec,
        last_record_offset: lro,
    }
}

/// The state of a reader that has read nothing yet.
pub open spec fn fresh_reader() -> ReaderState {
    ReaderState {
        pending: Seq::empty(),
        eof: false,
        read_error: false,
        end_offset: 0,
        recycled: false,
        last_record_offset: 0,
    }
}

/// What a log writer at block offset `bo` emits for `records`, one after
/// the other, and the block offset it ends at.
pub open spec fn encode_records(bo: nat, records: Seq<Seq<u8>>, recycle: bool, log_number: u64) -> (
    Seq<u8>,
    nat,
)
    decreases records.len(),
{
    if records.len() == 0 {
        (Seq::empty(), bo)
    } else {
        let e = encode_record(bo, records[0], recycle, log_number);
        let rest = encode_records(e.1, records.drop_first(), recycle, log_number);
        (e.0 + rest.0, rest.1)
    }
}

/// Writing one more record extends a log: what a writer emits for
/// `records` and then `r` is what it emits for `records`, followed by the
/// encoding of `r` from the block offset where `records` left it.
pub proof fn lemma_encode_records_push(
    bo: nat,
    records: Seq<Seq<u8>>,
    r: Seq<u8>,
    recycle: bool,
    log_number: u64,
)
    ensures
        ({
            let before = encode_records(bo, records, recycle, log_number);
            let e = encode_record(before.1, r, recycle, log_number);
            encode_records(bo, records.push(r), recycle, log_number) == (before.0 + e.0, e.1)
        }),
    decreases records.len(),
{
    let all = records.push(r);
    if records.len() == 0 {
        assert(all.drop_first() =~= Seq::<Seq<u8>>::empty());
        assert(all[0] == r);
        let e = encode_record(bo, r, recycle, log_number);
        let tail = encode_records(e.1, all.drop_first(), recycle, log_number);
        assert(tail == (Seq::<u8>::empty(), e.1));
        assert(encode_records(bo, all, recycle, log_number) == (e.0 + tail.0, tail.1));
        assert(e.0 + Seq::<u8>::empty() =~= e.0);
        assert(Seq::<u8>::empty() + e.0 =~= e.0);
    } else {
        let e0 = encode_record(bo, records[0], recycle, log_number);
        lemma_encode_records_push(e0.1, records.drop_first(), r, recycle, log_number);
        assert(all.drop_first() =~= records.drop_first().push(r));
        assert(all[0] == records[0]);
        let mid = encode_records(e0.1, records.drop_first(), recycle, log_number);
        let e = encode_record(mid.1, r, recycle, log_number);
        let tail = encode_records(e0.1, all.drop_first(), recycle, log_number);
        assert(tail == (mid.0 + e.0, e.1));
        assert(encode_records(bo, all, recycle, log_number) == (e0.0 + tail.0, tail.1));
        assert(encode_records(bo, records, recycle, log_number) == (e0.0 + mid.0, mid.1));
        assert(e0.0 + (mid.0 + e.0) =~= (e0.0 + mid.0) + e.0);
    }
}

/// The records that up to `n` successive record reads return (each with an
/// empty scratch, as a reader does), from state `st` on block reads
/// `reads`, skipping what starts before `initial_offset`; the first read
/// that finds none ends the list.
pub open spec fn read_records(
    st: ReaderState,
    reads: Seq<BlockRead>,
    n: nat,
    mode: WALRecoveryMode,
    log_number: u64,
    checksum: bool,
    initial_offset: nat,
) -> Seq<Seq<u8>>
    decreases n,
{
    if n == 0 {
        Seq::empty()
    } else {
        let rr = read_record_from(
            st,
            reads,
            mode,
            log_number,
            checksum,
            initial_offset,
            false,
            Seq::empty(),
            0,
        );
        if rr.found {
            seq![rr.record] + read_records(
                rr.state,
                reads.subrange(rr.reads_used as int, reads.len() as int),
                (n - 1) as nat,
                mode,
                log_number,
                checksum,
                initial_offset,
            )
        } else {
            Seq::empty()
        }
    }
}

/// The records of `records`, which a writer at offset `o` and block offset
/// `bo` wrote one after the other, that a reader skipping what starts
/// before `initial_offset` returns: all of them from the first whose first
/// physical record starts at or after that offset.
pub open spec fn records_from(
    o: nat,
    bo: nat,
    records: Seq<Seq<u8>>,
    recycle: bool,
    log_number: u64,
    initial_offset: nat,
) -> Seq<Seq<u8>>
    decreases records.len(),
{
    if records.len() == 0 {
        Seq::empty()
    } else if o + block_pad(bo, writer_header_size(recycle)).len() >= initial_offset {
        records
    } else {
        let e = encode_record(bo, records[0], recycle, log_number);
        records_from(
            o + e.0.len(),
            e.1,
            records.drop_first(),
            recycle,
            log_number,
            initial_offset,
        )
    }
}

/// Block `J` of a log of `len` bytes is read when the offset `(J - 1)`
/// blocks in lies within the log.
proof fn lemma_block_count(len: nat, J: nat)
    requires
        J >= 1,
        (J - 1) * 32768 <= len,
    ensures
        J <= len / 32768 + 1,
{
    lemma_fundamental_div_mod_converse(len as int, 32768, len as int / 32768, len as int % 32768);
}

/// Skipping `k` of the reads of the blocks from `j` on leaves the reads of
/// the blocks from `j + k` on.
proof fn lemma_block_reads_skip(log: Seq<u8>, j: nat, k: nat)
    requires
        j + k <= block_count(log),
    ensures
        block_reads(log, j).len() == block_count(log) - j,
        block_reads(log, j).subrange(k as int, block_reads(log, j).len() as int) == block_reads(
            log,
            j + k,
        ),
{
    reveal(block_reads);
    assert(block_reads(log, j).subrange(k as int, block_reads(log, j).len() as int) =~= block_reads(
        log,
        j + k,
    ));
}

/// The length bytes of a header give the length back.
proof fn lemma_length_bytes(n: nat)
    requires
        n < 65536,
    ensures
        ((n % 256) as u8 as nat) + 256 * ((((n / 256) % 256) as u8) as nat) == n,
{
    lemma_fundamental_div_mod_converse(n as int, 256, n as int / 256, n as int % 256);
    lemma_fundamental_div_mod_converse((n / 256) as int, 256, 0, (n / 256) as int);
}

/// The four log-number bytes of a recyclable header give a log number back
/// when it fits in 32 bits.
proof fn lemma_log_number_bytes(x: u64)
    requires
        x <= 0xffff_ffff,
    ensures
        from_le32(le64(x).subrange(0, 4)) as nat == x as nat,
{
    let b = le64(x).subrange(0, 4);
    assert(b[0] == (x & 0xff) as u8);
    assert(b[1] == ((x >> 8) & 0xff) as u8);
    assert(b[2] == ((x >> 16) & 0xff) as u8);
    assert(b[3] == ((x >> 24) & 0xff) as u8);
    assert(((((x & 0xff) as u8) as u32) | (((((x >> 8) & 0xff) as u8) as u32) << 8) | (((((x
        >> 16) & 0xff) as u8) as u32) << 16) | (((((x >> 24) & 0xff) as u8) as u32) << 24)) as u64
        == x) by (bit_vector)
        requires
            x <= 0xffff_ffff,
    ;
}

/// A reader whose unread bytes begin with a whole physical record of type
/// `t` moves past it and returns its fragment, or reports a bad record when
/// it starts before the initial offset `I`.
proof fn lemma_parse_record(
    log: Seq<u8>,
    J: nat,
    q: nat,
    t: u8,
    frag: Seq<u8>,
    log_number: u64,
    checksum: bool,
    I: nat,
    lro: nat,
    rec: bool,
)
    requires
        log.len() <= u64::MAX,
        J >= 1,
        (J - 1) * 32768 <= q,
        q + header_size_of(t) + frag.len() <= J * 32768,
        q + header_size_of(t) + frag.len() <= log.len(),
        1 <= t <= 8,
        is_recyclable(t) ==> log_number <= 0xffff_ffff,
        log.subrange(q as int, (q + header_size_of(t) + frag.len()) as int) == physical_record(
            t,
            log_number,
            frag,
        ),
    ensures
        read_physical(reader_at(log, J, q, lro, rec), block_reads(log, J), log_number, checksum, I)
            == (PhysicalRead {
            code: if q >= I {
                t as int
            } else {
                outcome_code(RecordType::kBadRecord)
            },
            fragment: if q >= I {
                frag
            } else {
                Seq::empty()
            },
            drop_size: 0,
            state: reader_at(
                log,
                J,
                q + header_size_of(t) + frag.len(),
                lro,
                rec || (is_recyclable(t) && q == 0),
            ),
            reads_used: 0,
        }),
{
    reveal(reader_at);
    reveal(physical_record);
    let n = frag.len();
    let hs = header_size_of(t);
    let st = reader_at(log, J, q, lro, rec);
    let be = block_end(log.len(), J);
    assert(be >= q + hs + n);
    let p = st.pending;
    let tail = header_tail(t, n, log_number);
    let crc = record_crc(t, tail, frag);
    lemma_decode_encode_fixed32(crc);
    assert(p.subrange(0, (hs + n) as int) =~= log.subrange(q as int, (q + hs + n) as int));
    assert(p.subrange(0, (hs + n) as int) == le32(crc) + tail + frag);
    assert(p[4] == (n % 256) as u8);
    assert(p[5] == ((n / 256) % 256) as u8);
    assert(p[6] == t);
    lemma_length_bytes(n);
    assert(p.subrange(0, 4) =~= le32(crc));
    assert(p.subrange(4, hs as int) =~= tail);
    assert(p.subrange(hs as int, (hs + n) as int) =~= frag);
    if is_recyclable(t) {
        lemma_log_number_bytes(log_number);
        assert(p.subrange(7, 11) =~= le64(log_number).subrange(0, 4));
    }
    assert(p.subrange((hs + n) as int, p.len() as int) =~= log.subrange(
        (q + hs + n) as int,
        be as int,
    ));
}

/// A reader that has consumed `log` up to `o`, either at the physical
/// record at `q` or fewer than seven bytes before it at the end of the
/// block before it (in the zeros that fill a block too short for a
/// header), reads the record as `lemma_parse_record` says, reading the
/// block it lies in when it has not yet.
proof fn lemma_physical_step(
    log: Seq<u8>,
    j: nat,
    o: nat,
    J: nat,
    q: nat,
    t: u8,
    frag: Seq<u8>,
    log_number: u64,
    checksum: bool,
    I: nat,
    lro: nat,
    rec: bool,
)
    requires
        log.len() <= u64::MAX,
        J >= 1,
        (J - 1) * 32768 <= q,
        q + header_size_of(t) + frag.len() <= J * 32768,
        q + header_size_of(t) + frag.len() <= log.len(),
        1 <= t <= 8,
        is_recyclable(t) ==> log_number <= 0xffff_ffff,
        log.subrange(q as int, (q + header_size_of(t) + frag.len()) as int) == physical_record(
            t,
            log_number,
            frag,
        ),
        (j == J && o == q) || (j + 1 == J && o <= q && q == j * 32768 && q - o < 7),
    ensures
        read_physical(reader_at(log, j, o, lro, rec), block_reads(log, j), log_number, checksum, I)
            == (PhysicalRead {
            code: if q >= I {
                t as int
            } else {
                outcome_code(RecordType::kBadRecord)
            },
            fragment: if q >= I {
                frag
            } else {
                Seq::empty()
            },
            drop_size: 0,
            state: reader_at(
                log,
                J,
                q + header_size_of(t) + frag.len(),
                lro,
                rec || (is_recyclable(t) && q == 0),
            ),
            reads_used: (J - j) as nat,
        }),
{
    reveal(reader_at);
    reveal(block_reads);
    lemma_parse_record(log, J, q, t, frag, log_number, checksum, I, lro, rec);
    if j + 1 == J {
        let st = reader_at(log, j, o, lro, rec);
        lemma_block_count(log.len(), J);
        lemma_block_reads_skip(log, j, 1);
        let reads = block_reads(log, j);
        assert(reads.len() > 0);
        assert(reads.drop_first() =~= block_reads(log, J));
        let st1 = crate::log_reader::read_more(ReaderState { pending: Seq::empty(), ..st }, reads[0]);
        assert(st1 == reader_at(log, J, q, lro, rec));
    }
}

/// A reader at seven or more zeros that fill the end of a block (too short
/// for a recyclable header) takes them for a zero record, drops them and
/// goes on at the start of the next block.
proof fn lemma_skip_trailer(
    log: Seq<u8>,
    j: nat,
    o: nat,
    mode: WALRecoveryMode,
    log_number: u64,
    checksum: bool,
    I: nat,
    lro: nat,
    rec: bool,
    scratch: Seq<u8>,
    pro: nat,
)
    requires
        j >= 1,
        o + 7 <= j * 32768,
        j * 32768 < log.len(),
        forall|i: int| o <= i < j * 32768 ==> log[i] == 0,
    ensures
        read_record_from(
            reader_at(log, j, o, lro, rec),
            block_reads(log, j),
            mode,
            log_number,
            checksum,
            I,
            false,
            scratch,
            pro,
        ) == read_record_from(
            reader_at(log, j, j * 32768, lro, rec),
            block_reads(log, j),
            mode,
            log_number,
            checksum,
            I,
            false,
            scratch,
            pro,
        ),
{
    reveal(reader_at);
    reveal(read_record_from);
    let st = reader_at(log, j, o, lro, rec);
    let p = st.pending;
    assert(p[4] == log[o + 4int]);
    assert(p[5] == log[o + 5int]);
    assert(p[6] == log[o + 6int]);
    let reads = block_reads(log, j);
    assert(reads.subrange(0, reads.len() as int) =~= reads);
    assert(log.subrange((j * 32768) as int, (j * 32768) as int) =~= Seq::<u8>::empty());
    assert(ReaderState { pending: Seq::empty(), ..st } == reader_at(log, j, j * 32768, lro, rec));
}

/// The pieces of bytes that a log holds at an offset lie one after the
/// other in it.
proof fn lemma_log_pieces(log: Seq<u8>, o: nat, a: Seq<u8>, b: Seq<u8>, c: Seq<u8>)
    requires
        o + a.len() + b.len() + c.len() <= log.len(),
        log.subrange(o as int, (o + a.len() + b.len() + c.len()) as int) == a + b + c,
    ensures
        log.subrange(o as int, (o + a.len()) as int) == a,
        log.subrange((o + a.len()) as int, (o + a.len() + b.len()) as int) == b,
        log.subrange((o + a.len() + b.len()) as int, (o + a.len() + b.len() + c.len()) as int)
            == c,
{
    let s = log.subrange(o as int, (o + a.len() + b.len() + c.len()) as int);
    assert(log.subrange(o as int, (o + a.len()) as int) =~= s.subrange(0, a.len() as int));
    assert(log.subrange((o + a.len()) as int, (o + a.len() + b.len()) as int) =~= s.subrange(
        a.len() as int,
        (a.len() + b.len()) as int,
    ));
    assert(log.subrange((o + a.len() + b.len()) as int, (o + a.len() + b.len() + c.len()) as int)
        =~= s.subrange((a.len() + b.len()) as int, s.len() as int));
    assert((a + b + c).subrange(0, a.len() as int) =~= a);
    assert((a + b + c).subrange(a.len() as int, (a.len() + b.len()) as int) =~= b);
    assert((a + b + c).subrange((a.len() + b.len()) as int, (a + b + c).len() as int) =~= c);
}

/// One step of what a writer emits for the rest of a record: the zeros that
/// fill a block too short for a header, the physical record of the next
/// fragment, then (unless that fragment ends the record, which then ends
/// its block) what it emits for the rest after it.
proof fn lemma_emit_step(bo: nat, rest: Seq<u8>, begin: bool, recycle: bool, log_number: u64)
    requires
        bo <= kBlockSize,
    ensures
        ({
            let h = writer_header_size(recycle);
            let bo1 = block_start(bo, h);
            let n = fragment_len(bo1, h, rest.len());
            let end = rest.len() == n;
            let t = fragment_type(recycle, begin, end);
            let phys = physical_record(t, log_number, rest.subrange(0, n as int));
            let bo2 = bo1 + h + n;
            let e = emit_rest(bo, rest, begin, recycle, log_number);
            let next = emit_rest(
                bo2,
                rest.subrange(n as int, rest.len() as int),
                false,
                recycle,
                log_number,
            );
            &&& h == header_size_of(t)
            &&& is_recyclable(t) == recycle
            &&& 1 <= t <= 8
            &&& n <= rest.len()
            &&& bo2 <= kBlockSize
            &&& phys.len() == h + n
            &&& (kBlockSize - bo < h ==> bo1 == 0 && block_pad(bo, h) == zeros(
                (kBlockSize - bo) as nat,
            ))
            &&& (kBlockSize - bo >= h ==> bo1 == bo && block_pad(bo, h).len() == 0)
            &&& (!end ==> bo2 == kBlockSize && (n > 0 || bo2 > bo))
            &&& (end ==> e == (block_pad(bo, h) + phys, bo2))
            &&& (!end ==> e == (block_pad(bo, h) + phys + next.0, next.1))
        }),
{
    reveal(emit_rest);
    let h = writer_header_size(recycle);
    let bo1 = block_start(bo, h);
    let n = fragment_len(bo1, h, rest.len());
    let end = rest.len() == n;
    let t = fragment_type(recycle, begin, end);
    crate::log_format::lemma_physical_record_len(t, log_number, rest.subrange(0, n as int));
}

/// Reading a record on from a physical record of type `t` at or after the
/// initial offset `I` (with the reading position as in
/// `lemma_physical_step`): a full record, or a last fragment after a first
/// one, ends the read with the record; a first or middle fragment goes on
/// reading, past the physical record, with the fragments so far.
proof fn lemma_fragment_read(
    log: Seq<u8>,
    j: nat,
    o: nat,
    J: nat,
    q: nat,
    t: u8,
    frag: Seq<u8>,
    mode: WALRecoveryMode,
    log_number: u64,
    checksum: bool,
    I: nat,
    lro: nat,
    rec: bool,
    in_fragmented_record: bool,
    scratch: Seq<u8>,
    pro: nat,
)
    requires
        log.len() <= u64::MAX,
        J >= 1,
        (J - 1) * 32768 <= q,
        q + header_size_of(t) + frag.len() <= J * 32768,
        q + header_size_of(t) + frag.len() <= log.len(),
        1 <= t <= 8,
        q >= I,
        is_recyclable(t) ==> log_number <= 0xffff_ffff,
        log.subrange(q as int, (q + header_size_of(t) + frag.len()) as int) == physical_record(
            t,
            log_number,
            frag,
        ),
        (j == J && o == q) || (j + 1 == J && o <= q && q == j * 32768 && q - o < 7),
        is_full(t as int) || is_first(t as int) ==> !in_fragmented_record,
        is_middle(t as int) || is_last(t as int) ==> in_fragmented_record,
    ensures
        ({
            let st = reader_at(log, j, o, lro, rec);
            let off = (st.end_offset - st.pending.len()) as nat;
            let o2 = q + header_size_of(t) + frag.len();
            let rec2 = rec || (is_recyclable(t) && q == 0);
            let rr = read_record_from(
                st,
                block_reads(log, j),
                mode,
                log_number,
                checksum,
                I,
                in_fragmented_record,
                scratch,
                pro,
            );
            &&& is_full(t as int) ==> rr == (RecordRead {
                found: true,
                record: frag,
                scratch: Seq::empty(),
                state: reader_at(log, J, o2, off, rec2),
                reads_used: (J - j) as nat,
            })
            &&& is_last(t as int) ==> rr == (RecordRead {
                found: true,
                record: scratch + frag,
                scratch: scratch + frag,
                state: reader_at(log, J, o2, pro, rec2),
                reads_used: (J - j) as nat,
            })
            &&& is_first(t as int) ==> rr == with_reads(
                read_record_from(
                    reader_at(log, J, o2, lro, rec2),
                    block_reads(log, J),
                    mode,
                    log_number,
                    checksum,
                    I,
                    true,
                    frag,
                    off,
                ),
                (J - j) as nat,
            )
            &&& is_middle(t as int) ==> rr == with_reads(
                read_record_from(
                    reader_at(log, J, o2, lro, rec2),
                    block_reads(log, J),
                    mode,
                    log_number,
                    checksum,
                    I,
                    true,
                    scratch + frag,
                    pro,
                ),
                (J - j) as nat,
            )
        }),
{
    reveal(reader_at);
    reveal(read_record_from);
    lemma_physical_step(log, j, o, J, q, t, frag, log_number, checksum, I, lro, rec);
    lemma_block_count(log.len(), J);
    lemma_block_reads_skip(log, j, (J - j) as nat);
}

/// A reader outside a fragmented record passes over a physical record that
/// starts before the initial offset `I`, and over a middle or last
/// fragment, and goes on reading past it.
proof fn lemma_fragment_skip(
    log: Seq<u8>,
    j: nat,
    o: nat,
    J: nat,
    q: nat,
    t: u8,
    frag: Seq<u8>,
    mode: WALRecoveryMode,
    log_number: u64,
    checksum: bool,
    I: nat,
    lro: nat,
    rec: bool,
    scratch: Seq<u8>,
    pro: nat,
)
    requires
        log.len() <= u64::MAX,
        J >= 1,
        (J - 1) * 32768 <= q,
        q + header_size_of(t) + frag.len() <= J * 32768,
        q + header_size_of(t) + frag.len() <= log.len(),
        1 <= t <= 8,
        q < I || is_middle(t as int) || is_last(t as int),
        is_recyclable(t) ==> log_number <= 0xffff_ffff,
        log.subrange(q as int, (q + header_size_of(t) + frag.len()) as int) == physical_record(
            t,
            log_number,
            frag,
        ),
        (j == J && o == q) || (j + 1 == J && o <= q && q == j * 32768 && q - o < 7),
    ensures
        read_record_from(
            reader_at(log, j, o, lro, rec),
            block_reads(log, j),
            mode,
            log_number,
            checksum,
            I,
            false,
            scratch,
            pro,
        ) == with_reads(
            read_record_from(
                reader_at(
                    log,
                    J,
                    q + header_size_of(t) + frag.len(),
                    lro,
                    rec || (is_recyclable(t) && q == 0),
                ),
                block_reads(log, J),
                mode,
                log_number,
                checksum,
                I,
                false,
                scratch,
                pro,
            ),
            (J - j) as nat,
        ),
{
    reveal(read_record_from);
    lemma_physical_step(log, j, o, J, q, t, frag, log_number, checksum, I, lro, rec);
    lemma_block_count(log.len(), J);
    lemma_block_reads_skip(log, j, (J - j) as nat);
}

/// The offset of the last record and the recycled flag of a reader state
/// are those it was given.
proof fn lemma_reader_at_fields(log: Seq<u8>, j: nat, o: nat, lro: nat, rec: bool)
    ensures
        reader_at(log, j, o, lro, rec).last_record_offset == lro,
        reader_at(log, j, o, lro, rec).recycled == rec,
{
    reveal(reader_at);
}

/// Bytes of a log that are zeros are zero one by one.
proof fn lemma_zeros_in_log(log: Seq<u8>, o: nat, q: nat)
    requires
        o <= q <= log.len(),
        log.subrange(o as int, q as int) == zeros((q - o) as nat),
    ensures
        forall|i: int| o <= i < q ==> log[i] == 0,
{
    assert forall|i: int| o <= i < q implies log[i] == 0 by {
        assert(log[i] == log.subrange(o as int, q as int)[i - o]);
    }
}

/// A reader at offset `o` of a log, where a writer at block offset `bo`
/// emitted the rest `rest` of a record (`begin`: all of it) at or after the
/// initial offset `I`, returns the record, completing the fragments read
/// before it (`scratch`), and stops past the emitted bytes, in the block
/// where the writer's block offset ends.
#[verifier::rlimit(100)]
#[verifier::spinoff_prover]
proof fn lemma_read_rest(
    log: Seq<u8>,
    j: nat,
    o: nat,
    bo: nat,
    rest: Seq<u8>,
    begin: bool,
    recycle: bool,
    mode: WALRecoveryMode,
    log_number: u64,
    checksum: bool,
    I: nat,
    lro: nat,
    rec: bool,
    scratch: Seq<u8>,
    pro: nat,
)
    requires
        log.len() <= u64::MAX,
        bo <= kBlockSize,
        !begin ==> bo == kBlockSize,
        recycle ==> log_number <= 0xffff_ffff,
        (j >= 1 && o == (j - 1) * 32768 + bo) || (j == 0 && o == 0 && bo == 0),
        o + block_pad(bo, writer_header_size(recycle)).len() >= I,
        o + emit_rest(bo, rest, begin, recycle, log_number).0.len() <= log.len(),
        log.subrange(o as int, (o + emit_rest(bo, rest, begin, recycle, log_number).0.len()) as int)
            == emit_rest(bo, rest, begin, recycle, log_number).0,
    ensures
        ({
            let e = emit_rest(bo, rest, begin, recycle, log_number);
            let rr = read_record_from(
                reader_at(log, j, o, lro, rec),
                block_reads(log, j),
                mode,
                log_number,
                checksum,
                I,
                !begin,
                scratch,
                pro,
            );
            let j2 = j + rr.reads_used;
            &&& rr.found
            &&& rr.record == if begin {
                rest
            } else {
                scratch + rest
            }
            &&& j2 >= 1
            &&& e.1 <= kBlockSize
            &&& o + e.0.len() == (j2 - 1) * 32768 + e.1
            &&& rr.state == reader_at(
                log,
                j2,
                o + e.0.len(),
                rr.state.last_record_offset,
                rr.state.recycled,
            )
        }),
    decreases rest.len(), kBlockSize - bo,
{
    lemma_emit_step(bo, rest, begin, recycle, log_number);
    let h = writer_header_size(recycle);
    let bo1 = block_start(bo, h);
    let n = fragment_len(bo1, h, rest.len());
    let end = rest.len() == n;
    let t = fragment_type(recycle, begin, end);
    let frag = rest.subrange(0, n as int);
    let pad = block_pad(bo, h);
    let phys = physical_record(t, log_number, frag);
    let bo2 = bo1 + h + n;
    let e = emit_rest(bo, rest, begin, recycle, log_number);
    let rest2 = rest.subrange(n as int, rest.len() as int);
    let next = emit_rest(bo2, rest2, false, recycle, log_number);
    let tailbytes = if end {
        Seq::<u8>::empty()
    } else {
        next.0
    };
    assert(e.0 =~= pad + phys + tailbytes);
    lemma_log_pieces(log, o, pad, phys, tailbytes);
    let q = o + pad.len();
    let J: nat = if kBlockSize - bo < h || j == 0 {
        j + 1
    } else {
        j
    };
    let o1: nat = if pad.len() >= 7 {
        q
    } else {
        o
    };
    if pad.len() >= 7 {
        lemma_zeros_in_log(log, o, q);
        lemma_skip_trailer(log, j, o, mode, log_number, checksum, I, lro, rec, scratch, pro);
    }
    assert(begin && end ==> is_full(t as int));
    assert(begin && !end ==> is_first(t as int));
    assert(!begin && end ==> is_last(t as int));
    assert(!begin && !end ==> is_middle(t as int));
    lemma_fragment_read(
        log,
        j,
        o1,
        J,
        q,
        t,
        frag,
        mode,
        log_number,
        checksum,
        I,
        lro,
        rec,
        !begin,
        scratch,
        pro,
    );
    let st = reader_at(log, j, o1, lro, rec);
    let off = (st.end_offset - st.pending.len()) as nat;
    let rec2 = rec || (recycle && q == 0);
    if !end {
        let o2 = q + h + n;
        let scratch2 = if begin {
            frag
        } else {
            scratch + frag
        };
        let pro2 = if begin {
            off
        } else {
            pro
        };
        lemma_read_rest(
            log,
            J,
            o2,
            bo2,
            rest2,
            false,
            recycle,
            mode,
            log_number,
            checksum,
            I,
            lro,
            rec2,
            scratch2,
            pro2,
        );
        assert(frag + rest2 =~= rest);
        assert(scratch + frag + rest2 =~= scratch + rest);
    } else {
        assert(frag =~= rest);
        lemma_reader_at_fields(log, J, q + h + n, off, rec2);
        lemma_reader_at_fields(log, J, q + h + n, pro, rec2);
    }
}

/// A reader outside a fragmented record, at offset `o` of a log where a
/// writer at block offset `bo` emitted the rest `rest` of a record that
/// starts before the initial offset `I` (`begin`: all of it), passes over
/// it and goes on past the emitted bytes, in block `jj - 1`.
#[verifier::rlimit(100)]
#[verifier::spinoff_prover]
proof fn lemma_skip_rest(
    log: Seq<u8>,
    j: nat,
    o: nat,
    bo: nat,
    rest: Seq<u8>,
    begin: bool,
    recycle: bool,
    mode: WALRecoveryMode,
    log_number: u64,
    checksum: bool,
    I: nat,
    lro: nat,
    rec: bool,
    scratch: Seq<u8>,
    pro: nat,
) -> (jj: nat)
    requires
        log.len() <= u64::MAX,
        bo <= kBlockSize,
        !begin ==> bo == kBlockSize,
        recycle ==> log_number <= 0xffff_ffff,
        (j >= 1 && o == (j - 1) * 32768 + bo) || (j == 0 && o == 0 && bo == 0),
        begin ==> o + block_pad(bo, writer_header_size(recycle)).len() < I,
        o + emit_rest(bo, rest, begin, recycle, log_number).0.len() <= log.len(),
        log.subrange(o as int, (o + emit_rest(bo, rest, begin, recycle, log_number).0.len()) as int)
            == emit_rest(bo, rest, begin, recycle, log_number).0,
    ensures
        ({
            let e = emit_rest(bo, rest, begin, recycle, log_number);
            &&& jj >= 1
            &&& jj >= j
            &&& e.1 <= kBlockSize
            &&& o + e.0.len() == (jj - 1) * 32768 + e.1
            &&& read_record_from(
                reader_at(log, j, o, lro, rec),
                block_reads(log, j),
                mode,
                log_number,
                checksum,
                I,
                false,
                scratch,
                pro,
            ) == with_reads(
                read_record_from(
                    reader_at(log, jj, o + e.0.len(), lro, rec || (recycle && o == 0)),
                    block_reads(log, jj),
                    mode,
                    log_number,
                    checksum,
                    I,
                    false,
                    scratch,
                    pro,
                ),
                (jj - j) as nat,
            )
        }),
    decreases rest.len(), kBlockSize - bo,
{
    lemma_emit_step(bo, rest, begin, recycle, log_number);
    let h = writer_header_size(recycle);
    let bo1 = block_start(bo, h);
    let n = fragment_len(bo1, h, rest.len());
    let end = rest.len() == n;
    let t = fragment_type(recycle, begin, end);
    let frag = rest.subrange(0, n as int);
    let pad = block_pad(bo, h);
    let phys = physical_record(t, log_number, frag);
    let bo2 = bo1 + h + n;
    let e = emit_rest(bo, rest, begin, recycle, log_number);
    let rest2 = rest.subrange(n as int, rest.len() as int);
    let next = emit_rest(bo2, rest2, false, recycle, log_number);
    let tailbytes = if end {
        Seq::<u8>::empty()
    } else {
        next.0
    };
    assert(e.0 =~= pad + phys + tailbytes);
    lemma_log_pieces(log, o, pad, phys, tailbytes);
    let q = o + pad.len();
    let J: nat = if kBlockSize - bo < h || j == 0 {
        j + 1
    } else {
        j
    };
    let o1: nat = if pad.len() >= 7 {
        q
    } else {
        o
    };
    if pad.len() >= 7 {
        lemma_zeros_in_log(log, o, q);
        lemma_skip_trailer(log, j, o, mode, log_number, checksum, I, lro, rec, scratch, pro);
    }
    assert(!begin ==> is_middle(t as int) || is_last(t as int));
    lemma_fragment_skip(
        log,
        j,
        o1,
        J,
        q,
        t,
        frag,
        mode,
        log_number,
        checksum,
        I,
        lro,
        rec,
        scratch,
        pro,
    );
    let rec2 = rec || (recycle && q == 0);
    assert(rec2 == (rec || (recycle && o == 0)));
    let o2 = q + h + n;
    if !end {
        let jj2 = lemma_skip_rest(
            log,
            J,
            o2,
            bo2,
            rest2,
            false,
            recycle,
            mode,
            log_number,
            checksum,
            I,
            lro,
            rec2,
            scratch,
            pro,
        );
        jj2
    } else {
        J
    }
}

/// A reader at the end of a log reports no record.
proof fn lemma_read_end(
    log: Seq<u8>,
    j: nat,
    bo: nat,
    mode: WALRecoveryMode,
    log_number: u64,
    checksum: bool,
    I: nat,
    lro: nat,
    rec: bool,
)
    requires
        log.len() <= u64::MAX,
        bo <= kBlockSize,
        (j >= 1 && log.len() == (j - 1) * 32768 + bo) || (j == 0 && log.len() == 0),
    ensures
        !read_record_from(
            reader_at(log, j, log.len(), lro, rec),
            block_reads(log, j),
            mode,
            log_number,
            checksum,
            I,
            false,
            Seq::empty(),
            0,
        ).found,
{
    reveal(reader_at);
    reveal(block_reads);
    reveal(read_record_from);
    let st = reader_at(log, j, log.len(), lro, rec);
    assert(st.pending =~= Seq::<u8>::empty());
    if !st.eof {
        lemma_fundamental_div_mod_converse(log.len() as int, 32768, j as int, 0);
        let reads = block_reads(log, j);
        assert(reads.len() == 1);
        assert(reads[0].data =~= Seq::<u8>::empty());
        let st1 = crate::log_reader::read_more(ReaderState { pending: Seq::empty(), ..st }, reads[0]);
        assert(st1.eof);
        assert(read_physical(st1, reads.drop_first(), log_number, checksum, I).code == outcome_code(
            RecordType::kEof,
        ));
    }
}

/// Reading a record takes no more block reads than it is given.
proof fn lemma_record_reads_bound(
    st: ReaderState,
    reads: Seq<BlockRead>,
    mode: WALRecoveryMode,
    log_number: u64,
    checksum: bool,
    I: nat,
    in_fragmented_record: bool,
    scratch: Seq<u8>,
    pro: nat,
)
    ensures
        read_record_from(
            st,
            reads,
            mode,
            log_number,
            checksum,
            I,
            in_fragmented_record,
            scratch,
            pro,
        ).reads_used <= reads.len(),
    decreases reads.len(), st.pending.len(),
{
    reveal(read_record_from);
    crate::log_reader::lemma_read_physical_progress(st, reads, log_number, checksum, I);
    let ph = read_physical(st, reads, log_number, checksum, I);
    let physical_record_offset = (st.end_offset - st.pending.len()) as nat;
    match crate::log_reader::record_step(
        ph,
        physical_record_offset,
        mode,
        in_fragmented_record,
        scratch,
        pro,
    ) {
        crate::log_reader::RecordStep::Done { .. } => {},
        crate::log_reader::RecordStep::Continue {
            in_fragmented_record: f2,
            scratch: s2,
            prospective_record_offset: p2,
        } => {
            lemma_record_reads_bound(
                ph.state,
                reads.subrange(ph.reads_used as int, reads.len() as int),
                mode,
                log_number,
                checksum,
                I,
                f2,
                s2,
                p2,
            );
        },
    }
}

/// Successive record reads from a state whose first read is that of
/// another state, with `k` more block reads before it, return the same
/// records.
proof fn lemma_read_records_shift(
    st: ReaderState,
    reads: Seq<BlockRead>,
    st2: ReaderState,
    reads2: Seq<BlockRead>,
    k: nat,
    n: nat,
    mode: WALRecoveryMode,
    log_number: u64,
    checksum: bool,
    I: nat,
)
    requires
        k <= reads.len(),
        reads.subrange(k as int, reads.len() as int) == reads2,
        read_record_from(st, reads, mode, log_number, checksum, I, false, Seq::empty(), 0)
            == with_reads(
            read_record_from(st2, reads2, mode, log_number, checksum, I, false, Seq::empty(), 0),
            k,
        ),
    ensures
        read_records(st, reads, n, mode, log_number, checksum, I) == read_records(
            st2,
            reads2,
            n,
            mode,
            log_number,
            checksum,
            I,
        ),
{
    if n > 0 {
        let rr2 = read_record_from(st2, reads2, mode, log_number, checksum, I, false, Seq::empty(), 0);
        lemma_record_reads_bound(st2, reads2, mode, log_number, checksum, I, false, Seq::empty(), 0);
        assert(reads.subrange((rr2.reads_used + k) as int, reads.len() as int) =~= reads2.subrange(
            rr2.reads_used as int,
            reads2.len() as int,
        ));
    }
}

/// A reader at offset `o` of a log whose rest a writer at block offset `bo`
/// emitted for `records` returns those of the records that start at or
/// after the initial offset, in order, and then none.
proof fn lemma_read_records(
    log: Seq<u8>,
    j: nat,
    o: nat,
    bo: nat,
    records: Seq<Seq<u8>>,
    recycle: bool,
    mode: WALRecoveryMode,
    log_number: u64,
    checksum: bool,
    I: nat,
    n: nat,
    lro: nat,
    rec: bool,
)
    requires
        log.len() <= u64::MAX,
        bo <= kBlockSize,
        recycle ==> log_number <= 0xffff_ffff,
        (j >= 1 && o == (j - 1) * 32768 + bo) || (j == 0 && o == 0 && bo == 0),
        log.len() == o + encode_records(bo, records, recycle, log_number).0.len(),
        log.subrange(o as int, log.len() as int) == encode_records(
            bo,
            records,
            recycle,
            log_number,
        ).0,
        n >= records.len() + 1,
    ensures
        read_records(
            reader_at(log, j, o, lro, rec),
            block_reads(log, j),
            n,
            mode,
            log_number,
            checksum,
            I,
        ) == records_from(o, bo, records, recycle, log_number, I),
    decreases records.len(),
{
    if records.len() == 0 {
        lemma_read_end(log, j, bo, mode, log_number, checksum, I, lro, rec);
        assert(read_records(
            reader_at(log, j, o, lro, rec),
            block_reads(log, j),
            n,
            mode,
            log_number,
            checksum,
            I,
        ) =~= records_from(o, bo, records, recycle, log_number, I));
    } else {
        let e = encode_record(bo, records[0], recycle, log_number);
        let rest = encode_records(e.1, records.drop_first(), recycle, log_number);
        assert(encode_records(bo, records, recycle, log_number).0 == e.0 + rest.0);
        assert(log.subrange(o as int, (o + e.0.len()) as int) =~= (e.0 + rest.0).subrange(
            0,
            e.0.len() as int,
        ));
        assert(log.subrange(o as int, (o + e.0.len()) as int) =~= e.0);
        let o2 = o + e.0.len();
        assert(log.subrange(o2 as int, log.len() as int) =~= (e.0 + rest.0).subrange(
            e.0.len() as int,
            (e.0 + rest.0).len() as int,
        ));
        assert(log.subrange(o2 as int, log.len() as int) =~= rest.0);
        let h = writer_header_size(recycle);
        if o + block_pad(bo, h).len() >= I {
            lemma_read_rest(
                log,
                j,
                o,
                bo,
                records[0],
                true,
                recycle,
                mode,
                log_number,
                checksum,
                I,
                lro,
                rec,
                Seq::empty(),
                0,
            );
            let rr = read_record_from(
                reader_at(log, j, o, lro, rec),
                block_reads(log, j),
                mode,
                log_number,
                checksum,
                I,
                false,
                Seq::empty(),
                0,
            );
            let j2 = j + rr.reads_used;
            lemma_block_count(log.len(), j2);
            lemma_block_reads_skip(log, j, rr.reads_used);
            lemma_read_records(
                log,
                j2,
                o2,
                e.1,
                records.drop_first(),
                recycle,
                mode,
                log_number,
                checksum,
                I,
                (n - 1) as nat,
                rr.state.last_record_offset,
                rr.state.recycled,
            );
            assert(records_from(o2, e.1, records.drop_first(), recycle, log_number, I)
                == records.drop_first());
            assert(seq![records[0]] + records.drop_first() =~= records);
        } else {
            let jj = lemma_skip_rest(
                log,
                j,
                o,
                bo,
                records[0],
                true,
                recycle,
                mode,
                log_number,
                checksum,
                I,
                lro,
                rec,
                Seq::empty(),
                0,
            );
            lemma_block_count(log.len(), jj);
            lemma_block_reads_skip(log, j, (jj - j) as nat);
            let rec2 = rec || (recycle && o == 0);
            lemma_read_records_shift(
                reader_at(log, j, o, lro, rec),
                block_reads(log, j),
                reader_at(log, jj, o2, lro, rec2),
                block_reads(log, jj),
                (jj - j) as nat,
                n,
                mode,
                log_number,
                checksum,
                I,
            );
            lemma_read_records(
                log,
                jj,
                o2,
                e.1,
                records.drop_first(),
                recycle,
                mode,
                log_number,
                checksum,
                I,
                n,
                lro,
                rec2,
            );
        }
    }
}

/// Records written from an offset at or past the initial offset all start
/// there or later, so a reader returns every one of them.
proof fn lemma_records_from_all(
    o: nat,
    bo: nat,
    records: Seq<Seq<u8>>,
    recycle: bool,
    log_number: u64,
    I: nat,
)
    requires
        o >= I,
    ensures
        records_from(o, bo, records, recycle, log_number, I) == records,
{
}

/// Reading a log back gives the records written: a fresh reader given the
/// blocks of the log that a fresh writer produced returns each record
/// written, in order, whatever the recovery mode and whether or not it
/// checks checksums, and then reports that no record is left. For a log of
/// recyclable records this holds when the log number fits in the 32 bits
/// that their headers keep of it.
pub proof fn lemma_log_replay(
    records: Seq<Seq<u8>>,
    recycle: bool,
    log_number: u64,
    mode: WALRecoveryMode,
    checksum: bool,
)
    requires
        encode_records(0, records, recycle, log_number).0.len() <= u64::MAX,
        recycle ==> log_number <= 0xffff_ffff,
    ensures
        read_records(
            fresh_reader(),
            block_reads(encode_records(0, records, recycle, log_number).0, 0),
            records.len() + 1,
            mode,
            log_number,
            checksum,
            0,
        ) == records,
{
    reveal(reader_at);
    let log = encode_records(0, records, recycle, log_number).0;
    assert(log.subrange(0, 0) =~= Seq::<u8>::empty());
    assert(fresh_reader() == reader_at(log, 0, 0, 0, false));
    assert(log.subrange(0, log.len() as int) =~= log);
    lemma_read_records(
        log,
        0,
        0,
        0,
        records,
        recycle,
        mode,
        log_number,
        checksum,
        0,
        records.len() + 1,
        0,
        false,
    );
    lemma_records_from_all(0, 0, records, recycle, log_number, 0);
}

/// Where a writer at offset `o` and block offset `bo` ends after emitting
/// the rest `rest` of a record: at a block offset in `1..=kBlockSize` of
/// block `jw2 - 1`; and the first physical record it emits lies whole in
/// block `jf - 1`.
proof fn lemma_emit_geometry(
    o: nat,
    bo: nat,
    rest: Seq<u8>,
    begin: bool,
    recycle: bool,
    log_number: u64,
    jw: nat,
) -> (res: (nat, nat))
    requires
        bo <= kBlockSize,
        !begin ==> bo == kBlockSize,
        (jw >= 1 && o == (jw - 1) * 32768 + bo && bo >= 1) || (jw == 0 && o == 0 && bo == 0),
    ensures
        ({
            let e = emit_rest(bo, rest, begin, recycle, log_number);
            let h = writer_header_size(recycle);
            let s = o + block_pad(bo, h).len();
            let (jw2, jf) = res;
            &&& jw2 >= 1
            &&& 1 <= e.1 <= kBlockSize
            &&& o + e.0.len() == (jw2 - 1) * 32768 + e.1
            &&& jf >= 1
            &&& (jf - 1) * 32768 <= s
            &&& s + h <= jf * 32768
            &&& s + h <= o + e.0.len()
        }),
    decreases rest.len(), kBlockSize - bo,
{
    lemma_emit_step(bo, rest, begin, recycle, log_number);
    let h = writer_header_size(recycle);
    let bo1 = block_start(bo, h);
    let n = fragment_len(bo1, h, rest.len());
    let end = rest.len() == n;
    let pad = block_pad(bo, h);
    let bo2 = bo1 + h + n;
    let q = o + pad.len();
    let J: nat = if kBlockSize - bo < h || jw == 0 {
        jw + 1
    } else {
        jw
    };
    let o2 = q + h + n;
    if end {
        (J, J)
    } else {
        let r = lemma_emit_geometry(
            o2,
            bo2,
            rest.subrange(n as int, rest.len() as int),
            false,
            recycle,
            log_number,
            J,
        );
        (r.0, J)
    }
}

/// A block boundary `P` inside what a writer at offset `o` and block
/// offset `bo` emits for the rest `rest` of a record, after the start of
/// its first physical record, is the boundary between two of its
/// fragments: what follows it is what a writer at the end of a block emits
/// for some later part `suffix` of the record.
proof fn lemma_walk_rest(
    o: nat,
    bo: nat,
    rest: Seq<u8>,
    begin: bool,
    recycle: bool,
    log_number: u64,
    jw: nat,
    pb: nat,
) -> (suffix: Seq<u8>)
    requires
        bo <= kBlockSize,
        !begin ==> bo == kBlockSize,
        (jw >= 1 && o == (jw - 1) * 32768 + bo && bo >= 1) || (jw == 0 && o == 0 && bo == 0),
        o + block_pad(bo, writer_header_size(recycle)).len() < pb * 32768,
        pb * 32768 < o + emit_rest(bo, rest, begin, recycle, log_number).0.len(),
    ensures
        ({
            let e = emit_rest(bo, rest, begin, recycle, log_number);
            let f = emit_rest(kBlockSize as nat, suffix, false, recycle, log_number);
            &&& e.0.subrange(pb * 32768 - o, e.0.len() as int) == f.0
            &&& e.1 == f.1
        }),
    decreases rest.len(), kBlockSize - bo,
{
    lemma_emit_step(bo, rest, begin, recycle, log_number);
    let h = writer_header_size(recycle);
    let bo1 = block_start(bo, h);
    let n = fragment_len(bo1, h, rest.len());
    let end = rest.len() == n;
    let t = fragment_type(recycle, begin, end);
    let pad = block_pad(bo, h);
    let phys = physical_record(t, log_number, rest.subrange(0, n as int));
    let bo2 = bo1 + h + n;
    let rest2 = rest.subrange(n as int, rest.len() as int);
    let next = emit_rest(bo2, rest2, false, recycle, log_number);
    let e = emit_rest(bo, rest, begin, recycle, log_number);
    let q = o + pad.len();
    let J: nat = if kBlockSize - bo < h || jw == 0 {
        jw + 1
    } else {
        jw
    };
    let o2 = q + h + n;
    assert(pb >= J);
    if end {
        assert(false);
        rest
    } else {
        assert(e.0 == pad + phys + next.0);
        if o2 == pb * 32768 {
            assert(e.0.subrange(pb * 32768 - o, e.0.len() as int) =~= next.0);
            rest2
        } else {
            let suffix = lemma_walk_rest(o2, bo2, rest2, false, recycle, log_number, J, pb);
            assert(e.0.subrange(pb * 32768 - o, e.0.len() as int) =~= next.0.subrange(
                pb * 32768 - o2,
                next.0.len() as int,
            ));
            suffix
        }
    }
}

/// What a writer emits for records from a block offset too short for a
/// header: the zeros that fill the block, then what it emits from the end
/// of the block; and the records a reader skipping to an initial offset
/// returns of them are the same.
proof fn lemma_pad_shift(
    o: nat,
    bo: nat,
    records: Seq<Seq<u8>>,
    recycle: bool,
    log_number: u64,
    I: nat,
)
    requires
        records.len() > 0,
        bo <= kBlockSize,
        kBlockSize - bo < writer_header_size(recycle),
    ensures
        encode_records(bo, records, recycle, log_number).0 == block_pad(
            bo,
            writer_header_size(recycle),
        ) + encode_records(kBlockSize as nat, records, recycle, log_number).0,
        encode_records(bo, records, recycle, log_number).1 == encode_records(
            kBlockSize as nat,
            records,
            recycle,
            log_number,
        ).1,
        records_from(o, bo, records, recycle, log_number, I) == records_from(
            o + block_pad(bo, writer_header_size(recycle)).len(),
            kBlockSize as nat,
            records,
            recycle,
            log_number,
            I,
        ),
{
    let h = writer_header_size(recycle);
    let kb = kBlockSize as nat;
    lemma_emit_step(bo, records[0], true, recycle, log_number);
    lemma_emit_step(kb, records[0], true, recycle, log_number);
    let e = emit_rest(bo, records[0], true, recycle, log_number);
    let e2 = emit_rest(kb, records[0], true, recycle, log_number);
    assert(block_pad(kb, h) =~= Seq::<u8>::empty());
    assert(e.0 =~= block_pad(bo, h) + e2.0);
    let rest = encode_records(e.1, records.drop_first(), recycle, log_number);
    assert(encode_records(bo, records, recycle, log_number).0 =~= block_pad(bo, h) + (e2.0
        + rest.0));
}

/// A reader that skipped to the start `b * 32768` of a block of a log
/// (at most five bytes past the initial offset `I`), where a writer at
/// offset `o` and block offset `bo` emitted `records` up to the end of the
/// log, returns the records that start at or after the initial offset.
#[verifier::rlimit(100)]
#[verifier::spinoff_prover]
proof fn lemma_walk_records(
    log: Seq<u8>,
    o: nat,
    bo: nat,
    jw: nat,
    records: Seq<Seq<u8>>,
    recycle: bool,
    mode: WALRecoveryMode,
    log_number: u64,
    checksum: bool,
    I: nat,
    b: nat,
    n: nat,
)
    requires
        log.len() <= u64::MAX,
        bo <= kBlockSize,
        recycle ==> log_number <= 0xffff_ffff,
        (jw >= 1 && o == (jw - 1) * 32768 + bo && bo >= 1) || (jw == 0 && o == 0 && bo == 0),
        log.len() == o + encode_records(bo, records, recycle, log_number).0.len(),
        log.subrange(o as int, log.len() as int) == encode_records(
            bo,
            records,
            recycle,
            log_number,
        ).0,
        o <= b * 32768 <= log.len(),
        b * 32768 <= I + 5,
        n >= records.len() + 1,
    ensures
        read_records(
            reader_at(log, b, b * 32768, 0, false),
            block_reads(log, b),
            n,
            mode,
            log_number,
            checksum,
            I,
        ) == records_from(o, bo, records, recycle, log_number, I),
    decreases records.len(),
{
    let P = b * 32768;
    let h = writer_header_size(recycle);
    if o == P {
        lemma_read_records(log, b, P, bo, records, recycle, mode, log_number, checksum, I, n, 0, false);
    } else if records.len() == 0 {
        assert(false);
    } else {
        let e = encode_record(bo, records[0], recycle, log_number);
        let rest = encode_records(e.1, records.drop_first(), recycle, log_number);
        assert(encode_records(bo, records, recycle, log_number).0 == e.0 + rest.0);
        let o2 = o + e.0.len();
        let s = o + block_pad(bo, h).len();
        let (jw2, jf) = lemma_emit_geometry(o, bo, records[0], true, recycle, log_number, jw);
        assert(log.subrange(o2 as int, log.len() as int) =~= (e.0 + rest.0).subrange(
            e.0.len() as int,
            (e.0 + rest.0).len() as int,
        ));
        assert(log.subrange(o2 as int, log.len() as int) =~= rest.0);
        if o2 <= P {
            assert(s < I);
            lemma_walk_records(
                log,
                o2,
                e.1,
                jw2,
                records.drop_first(),
                recycle,
                mode,
                log_number,
                checksum,
                I,
                b,
                n,
            );
        } else if s >= P {
            lemma_pad_shift(o, bo, records, recycle, log_number, I);
            assert(s == P);
            assert(log.subrange(P as int, log.len() as int) =~= log.subrange(
                o as int,
                log.len() as int,
            ).subrange(block_pad(bo, h).len() as int, (log.len() - o) as int));
            assert(log.subrange(P as int, log.len() as int) =~= encode_records(
                kBlockSize as nat,
                records,
                recycle,
                log_number,
            ).0);
            lemma_read_records(
                log,
                b,
                P,
                kBlockSize as nat,
                records,
                recycle,
                mode,
                log_number,
                checksum,
                I,
                n,
                0,
                false,
            );
        } else {
            assert(b >= jf);
            assert(s < I);
            let suffix = lemma_walk_rest(o, bo, records[0], true, recycle, log_number, jw, b);
            let f = emit_rest(kBlockSize as nat, suffix, false, recycle, log_number);
            assert(log.subrange(o as int, o2 as int) =~= e.0);
            assert(log.subrange(P as int, o2 as int) =~= e.0.subrange(P - o, e.0.len() as int));
            let jj = lemma_skip_rest(
                log,
                b,
                P,
                kBlockSize as nat,
                suffix,
                false,
                recycle,
                mode,
                log_number,
                checksum,
                I,
                0,
                false,
                Seq::empty(),
                0,
            );
            lemma_block_count(log.len(), jj);
            lemma_block_reads_skip(log, b, (jj - b) as nat);
            lemma_read_records_shift(
                reader_at(log, b, P, 0, false),
                block_reads(log, b),
                reader_at(log, jj, o2, 0, false || (recycle && P == 0)),
                block_reads(log, jj),
                (jj - b) as nat,
                n,
                mode,
                log_number,
                checksum,
                I,
            );
            lemma_read_records(
                log,
                jj,
                o2,
                e.1,
                records.drop_first(),
                recycle,
                mode,
                log_number,
                checksum,
                I,
                n,
                0,
                false || (recycle && P == 0),
            );
        }
    }
}

/// Reading a log back from an initial offset gives the records written
/// from there on: a reader that skipped to the block where reading from
/// `I` starts (as a reader made with initial offset `I` does), given the
/// blocks of the log that a fresh writer produced from there on, returns,
/// in order, each record written whose first physical record starts at or
/// after `I`, and then reports that no record is left. For a log of
/// recyclable records this holds when the log number fits in the 32 bits
/// that their headers keep of it.
pub proof fn lemma_log_replay_from(
    records: Seq<Seq<u8>>,
    recycle: bool,
    log_number: u64,
    mode: WALRecoveryMode,
    checksum: bool,
    I: nat,
)
    requires
        encode_records(0, records, recycle, log_number).0.len() <= u64::MAX,
        recycle ==> log_number <= 0xffff_ffff,
        skip_target(I) <= encode_records(0, records, recycle, log_number).0.len(),
    ensures
        read_records(
            ReaderState { pending: Seq::empty(), end_offset: skip_target(I), ..fresh_reader() },
            block_reads(encode_records(0, records, recycle, log_number).0, skip_target(I) / 32768),
            records.len() + 1,
            mode,
            log_number,
            checksum,
            I,
        ) == records_from(0, 0, records, recycle, log_number, I),
{
    reveal(reader_at);
    let log = encode_records(0, records, recycle, log_number).0;
    lemma_fundamental_div_mod_converse(I as int, 32768, I as int / 32768, I as int % 32768);
    let P = skip_target(I);
    let b = if I % 32768 > 32768 - 6 {
        I / 32768 + 1
    } else {
        I / 32768
    };
    assert(P == b * 32768);
    lemma_fundamental_div_mod_converse(P as int, 32768, b as int, 0);
    assert(log.subrange(P as int, P as int) =~= Seq::<u8>::empty());
    assert(ReaderState { pending: Seq::empty(), end_offset: P, ..fresh_reader() } == reader_at(
        log,
        b,
        P,
        0,
        false,
    ));
    assert(log.subrange(0, log.len() as int) =~= log);
    lemma_walk_records(
        log,
        0,
        0,
        0,
        records,
        recycle,
        mode,
        log_number,
        checksum,
        I,
        b,
        records.len() + 1,
    );
}

} // verus!
