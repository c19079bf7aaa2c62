//! Writing records to a log.
use vstd::prelude::*;
use vstd::slice::{slice_subrange, slice_to_vec};
use crate::coding::{EncodeFixed32, EncodeFixed64, le32, le64};
use crate::crc::{crc32, crc32_ieee};
use crate::file::WritableFile;
use crate::file_reader_writer::WritableFileWriter;
use crate::log_format::{RecordType, header_size_of, block_start, block_pad, fragment_len, kBlockSize, kMaxRecordType, kHeaderSize, kRecyclableHeaderSize, type_byte, record_type_byte, is_recyclable, header_tail, record_crc, physical_record, fragment_type, zeros, emit_rest, encode_record, writer_header_size};
use crate::status::{Code, code_byte, state};

verus! {

/// How the bytes a writer has handed to its destination relate to what the
/// destination took: `emitted` bytes were handed over since the destination
/// had taken `app0` and counted `fs0`; it now has taken `app` and counted
/// `fs`. The count grows only by complete appends, so when it grew by all of
/// `emitted`, every byte of it was taken, in order.
pub open spec fn tracks(fs0: int, app0: Seq<u8>, fs: int, app: Seq<u8>, emitted: Seq<u8>) -> bool {
    &&& fs0 <= fs <= fs0 + emitted.len()
    &&& app0.len() <= app.len() <= app0.len() + emitted.len()
    &&& app.subrange(0, app0.len() as int) == app0
    &&& fs == fs0 + emitted.len() ==> app == app0 + emitted
}

proof fn lemma_tracks_empty(fs0: int, app0: Seq<u8>)
    ensures
        tracks(fs0, app0, fs0, app0, Seq::empty()),
{
    assert(app0 + Seq::<u8>::empty() =~= app0);
    assert(app0.subrange(0, app0.len() as int) =~= app0);
}

proof fn lemma_tracks_step(
    fs0: int,
    app0: Seq<u8>,
    fs1: int,
    app1: Seq<u8>,
    emitted: Seq<u8>,
    fs2: int,
    app2: Seq<u8>,
    data: Seq<u8>,
)
    requires
        tracks(fs0, app0, fs1, app1, emitted),
        app1.len() <= app2.len() <= app1.len() + data.len(),
        app2 == app1 + data.subrange(0, app2.len() - app1.len()),
        app2 == app1 + data ==> fs2 == fs1 + data.len(),
        app2 != app1 + data ==> fs2 == fs1,
    ensures
        tracks(fs0, app0, fs2, app2, emitted + data),
{
    assert(app2.subrange(0, app0.len() as int) =~= app1.subrange(0, app0.len() as int));
    if app2 == app1 + data {
        if fs2 == fs0 + (emitted + data).len() {
            assert(fs1 == fs0 + emitted.len());
            assert(app0 + emitted + data =~= app0 + (emitted + data));
        }
    } else {
        assert(data.subrange(0, data.len() as int) =~= data);
        assert(app2.len() - app1.len() != data.len());
        assert(data.len() > 0) by {
            if data.len() == 0 {
                assert(app2 =~= app1 + data);
            }
        }
    }
}

proof fn lemma_tracks_prefix(fs0: int, app0: Seq<u8>, fs: int, app: Seq<u8>, emitted: Seq<u8>, all: Seq<u8>)
    requires
        tracks(fs0, app0, fs, app, emitted),
        emitted.len() <= all.len(),
        all.subrange(0, emitted.len() as int) == emitted,
    ensures
        tracks(fs0, app0, fs, app, all),
{
    if fs == fs0 + all.len() {
        assert(emitted.len() == all.len());
        assert(all.subrange(0, all.len() as int) =~= all);
    }
}

proof fn lemma_tracks_join(
    fs0: int,
    app0: Seq<u8>,
    fs1: int,
    app1: Seq<u8>,
    e1: Seq<u8>,
    fs2: int,
    app2: Seq<u8>,
    e2: Seq<u8>,
)
    requires
        tracks(fs0, app0, fs1, app1, e1),
        tracks(fs1, app1, fs2, app2, e2),
    ensures
        tracks(fs0, app0, fs2, app2, e1 + e2),
{
    assert(app2.subrange(0, app0.len() as int) =~= app2.subrange(0, app1.len() as int).subrange(0, app0.len() as int));
    if fs2 == fs0 + (e1 + e2).len() {
        assert(fs1 == fs0 + e1.len());
        assert(app0 + e1 + e2 =~= app0 + (e1 + e2));
    }
}

proof fn lemma_emit_step(
    emitted: Seq<u8>,
    enc0: Seq<u8>,
    bo: nat,
    rest: Seq<u8>,
    begin: bool,
    recycle: bool,
    log_number: u64,
)
    requires
        bo <= kBlockSize,
        emitted + emit_rest(bo, rest, begin, recycle, log_number).0 == enc0,
    ensures
        ({
            let h = writer_header_size(recycle);
            let bo1 = block_start(bo, h);
            let n = fragment_len(bo1, h, rest.len());
            let end = rest.len() == n;
            let pad = block_pad(bo, h);
            let phys = physical_record(fragment_type(recycle, begin, end), log_number, rest.subrange(0, n as int));
            let next = emit_rest(bo1 + h + n, rest.subrange(n as int, rest.len() as int), false, recycle, log_number);
            &&& enc0.subrange(0, (emitted + pad).len() as int) == emitted + pad
            &&& enc0.subrange(0, (emitted + pad + phys).len() as int) == emitted + pad + phys
            &&& (emitted + pad + phys).len() <= enc0.len()
            &&& end ==> enc0 == emitted + pad + phys
            &&& end ==> emit_rest(bo, rest, begin, recycle, log_number).1 == bo1 + h + n
            &&& !end ==> enc0 == emitted + pad + phys + next.0
            &&& !end ==> emit_rest(bo, rest, begin, recycle, log_number).1 == next.1
        }),
{
    let h = writer_header_size(recycle);
    let bo1 = block_start(bo, h);
    let n = fragment_len(bo1, h, rest.len());
    let end = rest.len() == n;
    let pad = block_pad(bo, h);
    let phys = physical_record(fragment_type(recycle, begin, end), log_number, rest.subrange(0, n as int));
    let next = emit_rest(bo1 + h + n, rest.subrange(n as int, rest.len() as int), false, recycle, log_number);
    reveal(emit_rest);
    if end {
        assert(enc0 =~= emitted + pad + phys);
    } else {
        assert(enc0 =~= emitted + pad + phys + next.0);
    }
    assert(enc0.subrange(0, (emitted + pad).len() as int) =~= emitted + pad);
    assert(enc0.subrange(0, (emitted + pad + phys).len() as int) =~= emitted + pad + phys);
}

/// Writes records to a log file, cut into physical records that never cross
/// a block.
pub struct Write<T: WritableFile> {
    dest_: WritableFileWriter<T>,
    block_offset_: usize,
    log_number_: u64,
    recycle_log_files_: bool,
    manual_flush_: bool,
    type_crc_: Vec<u32>,
}

impl<T: WritableFile> Write<T> {
    /// The file writer the log goes to.
    pub closed spec fn dest(&self) -> WritableFileWriter<T> {
        self.dest_
    }

    /// Every byte handed to the file writer.
    pub open spec fn logged(&self) -> Seq<u8> {
        self.dest().appended()
    }

    /// The offset within the current block.
    pub closed spec fn block_offset(&self) -> nat {
        self.block_offset_ as nat
    }

    /// The number of the log, written into recyclable records.
    pub closed spec fn log_number(&self) -> u64 {
        self.log_number_
    }

    /// Whether the records are recyclable ones.
    pub closed spec fn recycle(&self) -> bool {
        self.recycle_log_files_
    }

    /// Whether the file writer is flushed only on request.
    pub closed spec fn manual_flush(&self) -> bool {
        self.manual_flush_
    }

    /// The file writer is well formed, the block offset lies in the block,
    /// and the checksum of each type byte is at hand.
    pub closed spec fn wf(&self) -> bool {
        &&& self.dest_.wf()
        &&& self.block_offset_ <= kBlockSize
        &&& self.type_crc_@.len() == kMaxRecordType + 1
        &&& forall|i: int|
            0 <= i < self.type_crc_@.len() ==> #[trigger] self.type_crc_@[i] == crc32_ieee(
                0,
                seq![i as u8],
            )
    }

    /// A log writer to `dest`, at the start of a block.
    pub fn new(dest: WritableFileWriter<T>, log_number: u64, recycle_log_files: bool, manual_flush: bool) -> (r: Write<T>)
        requires
            dest.wf(),
        ensures
            r.wf(),
            r.dest() == dest,
            r.block_offset() == 0,
            r.log_number() == log_number,
            r.recycle() == recycle_log_files,
            r.manual_flush() == manual_flush,
    {
        let mut type_crc: Vec<u32> = Vec::new();
        let mut x: u8 = 0;
        while x < kMaxRecordType + 1
            invariant
                x <= kMaxRecordType + 1,
                type_crc@.len() == x,
                forall|i: int|
                    0 <= i < type_crc@.len() ==> #[trigger] type_crc@[i] == crc32_ieee(
                        0,
                        seq![i as u8],
                    ),
            decreases kMaxRecordType + 1 - x,
        {
            let mut one: Vec<u8> = Vec::new();
            one.push(x);
            assert(one@ =~= seq![x]);
            type_crc.push(crc32(0, one.as_slice()));
            x = x + 1;
        }
        Write {
            dest_: dest,
            block_offset_: 0,
            log_number_: log_number,
            recycle_log_files_: recycle_log_files,
            manual_flush_: manual_flush,
            type_crc_: type_crc,
        }
    }

    /// Emits the first `n` bytes of `ptr` as a physical record of type `t`:
    /// hands the header and then the fragment to the file writer, flushes it
    /// unless flushing is manual, and moves the block offset past the record,
    /// which has to fit in the current block. A record that fits in the file
    /// writer's room is logged whole. With manual flushing that is success;
    /// otherwise the status is what the file writer's flush reports.
    pub fn EmitPhysicalRecord(&mut self, t: RecordType, ptr: Vec<u8>, n: usize) -> (r: state)
        requires
            old(self).wf(),
            old(self).dest().file().direct_io() || (old(self).manual_flush()
                && header_size_of(type_byte(t)) + n <= old(self).dest().room()),
            n <= ptr@.len(),
            n <= 0xffff,
            old(self).block_offset() + header_size_of(type_byte(t)) + n <= kBlockSize,
            old(self).logged().len() + header_size_of(type_byte(t)) + n <= usize::MAX,
            old(self).dest().file_size() + header_size_of(type_byte(t)) + n <= usize::MAX,
        ensures
            final(self).wf(),
            final(self).dest().file().direct_io() == old(self).dest().file().direct_io(),
            old(self).manual_flush() ==> r.code() == code_byte(Code::kOk),
            !old(self).manual_flush() ==> exists|pre: WritableFileWriter<T>|
                #[trigger] pre.flush_result(&final(self).dest(), r),
            header_size_of(type_byte(t)) + n <= old(self).dest().room() ==> {
                &&& final(self).logged() == old(self).logged() + physical_record(
                    type_byte(t),
                    old(self).log_number(),
                    ptr@.subrange(0, n as int),
                )
                &&& final(self).dest().file_size() == old(self).dest().file_size() + header_size_of(
                    type_byte(t),
                ) + n
                &&& final(self).dest().room() >= old(self).dest().room() - header_size_of(
                    type_byte(t),
                ) - n
            },
            final(self).block_offset() == old(self).block_offset() + header_size_of(type_byte(t))
                + n,
            final(self).log_number() == old(self).log_number(),
            final(self).recycle() == old(self).recycle(),
            final(self).manual_flush() == old(self).manual_flush(),
            tracks(
                old(self).dest().file_size() as int,
                old(self).logged(),
                final(self).dest().file_size() as int,
                final(self).logged(),
                physical_record(type_byte(t), old(self).log_number(), ptr@.subrange(0, n as int)),
            ),
    {
        let ghost fs0 = self.dest_.file_size() as int;
        let ghost app0 = self.dest_.appended();
        let tb = record_type_byte(t);
        let fragment = slice_to_vec(slice_subrange(ptr.as_slice(), 0, n));
        let mut header: Vec<u8> = Vec::new();
        header.push(0);
        header.push(0);
        header.push(0);
        header.push(0);
        let lo = (n & 0xff) as u8;
        let hi = (n >> 8) as u8;
        proof {
            assert((n & 0xff) == n % 256 && (n >> 8) == n / 256) by (bit_vector)
                requires
                    n <= 0xffff,
            ;
        }
        header.push(lo);
        header.push(hi);
        header.push(tb);
        let mut crc = self.type_crc_[tb as usize];
        let header_size: usize;
        if tb < 5 {
            header_size = kHeaderSize;
        } else {
            header_size = kRecyclableHeaderSize;
            let ln = EncodeFixed64(self.log_number_);
            header.push(ln[0]);
            header.push(ln[1]);
            header.push(ln[2]);
            header.push(ln[3]);
        }
        let ghost tail = header_tail(tb, n as nat, self.log_number_);
        assert(header@.subrange(4, header_size as int) =~= tail);
        crc = crc32(crc, slice_subrange(header.as_slice(), 4, header_size));
        crc = crc32(crc, fragment.as_slice());
        let c = EncodeFixed32(crc);
        header.set(0, c[0]);
        header.set(1, c[1]);
        header.set(2, c[2]);
        header.set(3, c[3]);
        assert(header@ =~= le32(record_crc(tb, tail, fragment@)) + tail);
        assert(physical_record(tb, self.log_number_, fragment@) =~= header@ + fragment@) by {
            reveal(physical_record);
        }
        proof {
            lemma_tracks_empty(fs0, app0);
        }
        let ghost app1 = self.dest_.appended();
        let ghost fs1 = self.dest_.file_size() as int;
        let ghost hb = header@;
        let mut s = self.dest_.append(header);
        proof {
            lemma_tracks_step(fs0, app0, fs1, app1, Seq::empty(), self.dest_.file_size() as int, self.dest_.appended(), hb);
            assert(Seq::<u8>::empty() + hb =~= hb);
        }
        if s.isOk() {
            let ghost app2 = self.dest_.appended();
            let ghost fs2 = self.dest_.file_size() as int;
            let ghost fb = fragment@;
            s = self.dest_.append(fragment);
            proof {
                lemma_tracks_step(fs0, app0, fs2, app2, hb, self.dest_.file_size() as int, self.dest_.appended(), fb);
            }
            if s.isOk() && !self.manual_flush_ {
                let ghost pre = self.dest_;
                s = self.dest_.flush();
                assert(pre.flush_result(&self.dest(), s));
            }
        }
        let ghost d = self.dest();
        self.block_offset_ = self.block_offset_ + header_size + n;
        assert(self.dest() == d);
        s
    }

    /// Writes `slice` as one record: cuts it into fragments, each as much as
    /// fits in the current block after a header, zero-filling the end of a
    /// block too short for a header, and emits the fragments as full, first,
    /// middle and last physical records. Stops at the first failure, which
    /// can only be a flush of the file writer (when flushing is not manual).
    /// A record whose encoding fits in the file writer's room is logged
    /// whole on success (always, with manual flushing); on a failure what is
    /// logged is the encoding up to the end of a physical record, the rest
    /// being what emitting the rest of the record would give.
    #[verifier::rlimit(100)]
    #[verifier::spinoff_prover]
    pub fn add_record(&mut self, slice: Vec<u8>) -> (r: state)
        requires
            old(self).wf(),
            old(self).dest().file().direct_io() || (old(self).manual_flush() && encode_record(
                old(self).block_offset(),
                slice@,
                old(self).recycle(),
                old(self).log_number(),
            ).0.len() <= old(self).dest().room()),
            old(self).logged().len() + encode_record(
                old(self).block_offset(),
                slice@,
                old(self).recycle(),
                old(self).log_number(),
            ).0.len() <= usize::MAX,
            old(self).dest().file_size() + encode_record(
                old(self).block_offset(),
                slice@,
                old(self).recycle(),
                old(self).log_number(),
            ).0.len() <= usize::MAX,
        ensures
            final(self).wf(),
            final(self).dest().file().direct_io() == old(self).dest().file().direct_io(),
            old(self).manual_flush() && encode_record(
                old(self).block_offset(),
                slice@,
                old(self).recycle(),
                old(self).log_number(),
            ).0.len() <= old(self).dest().room() ==> {
                let enc = encode_record(
                    old(self).block_offset(),
                    slice@,
                    old(self).recycle(),
                    old(self).log_number(),
                ).0;
                &&& r.code() == code_byte(Code::kOk)
                &&& final(self).logged() == old(self).logged() + enc
                &&& final(self).dest().room() >= old(self).dest().room() - enc.len()
            },
            encode_record(
                old(self).block_offset(),
                slice@,
                old(self).recycle(),
                old(self).log_number(),
            ).0.len() <= old(self).dest().room() && r.code() == code_byte(Code::kOk)
                ==> final(self).logged() == old(self).logged() + encode_record(
                old(self).block_offset(),
                slice@,
                old(self).recycle(),
                old(self).log_number(),
            ).0,
            encode_record(
                old(self).block_offset(),
                slice@,
                old(self).recycle(),
                old(self).log_number(),
            ).0.len() <= old(self).dest().room() ==> {
                let enc = encode_record(
                old(self).block_offset(),
                slice@,
                old(self).recycle(),
                old(self).log_number(),
            ).0;
                ||| final(self).logged() == old(self).logged() + enc
                ||| exists|bo: nat, p: int, b: bool|
                    {
                        let rest = #[trigger] emit_rest(
                            bo,
                            slice@.subrange(p, slice@.len() as int),
                            b,
                            old(self).recycle(),
                            old(self).log_number(),
                        ).0;
                        &&& 0 <= p <= slice@.len()
                        &&& rest.len() <= enc.len()
                        &&& final(self).logged() == old(self).logged() + enc.subrange(
                            0,
                            enc.len() - rest.len(),
                        )
                        &&& enc.subrange(enc.len() - rest.len(), enc.len() as int) == rest
                    }
            },
            r.code() != code_byte(Code::kOk) ==> !old(self).manual_flush() && exists|
                pre: WritableFileWriter<T>,
            | #[trigger] pre.flush_result(&final(self).dest(), r),
            final(self).log_number() == old(self).log_number(),
            final(self).recycle() == old(self).recycle(),
            final(self).manual_flush() == old(self).manual_flush(),
            tracks(
                old(self).dest().file_size() as int,
                old(self).logged(),
                final(self).dest().file_size() as int,
                final(self).logged(),
                encode_record(
                    old(self).block_offset(),
                    slice@,
                    old(self).recycle(),
                    old(self).log_number(),
                ).0,
            ),
            r.code() == code_byte(Code::kOk) ==> final(self).block_offset() == encode_record(
                old(self).block_offset(),
                slice@,
                old(self).recycle(),
                old(self).log_number(),
            ).1,
    {
        let ghost fs0 = self.dest_.file_size() as int;
        let ghost app0 = self.dest_.appended();
        let ghost enc = encode_record(self.block_offset_ as nat, slice@, self.recycle_log_files_, self.log_number_);
        let ghost mut emitted: Seq<u8> = Seq::empty();
        let ghost fits = self.manual_flush_ && enc.0.len() <= self.dest_.room();
        let ghost roomy = enc.0.len() <= self.dest_.room();
        proof {
            lemma_tracks_empty(fs0, app0);
        }
        let mut pos: usize = 0;
        let mut left = slice.len();
        let total = slice.len();
        let header_size = if self.recycle_log_files_ {
            kRecyclableHeaderSize
        } else {
            kHeaderSize
        };
        let mut begin = true;
        let mut s = state::ok();
        assert(slice@.subrange(0, slice@.len() as int) =~= slice@);
        assert(Seq::<u8>::empty() + enc.0 =~= enc.0);
        assert(enc.0.subrange(0, 0) =~= Seq::<u8>::empty());
        loop
            invariant_except_break
                s.code() == code_byte(Code::kOk),
                emitted + emit_rest(
                    self.block_offset_ as nat,
                    slice@.subrange(pos as int, slice@.len() as int),
                    begin,
                    self.recycle_log_files_,
                    self.log_number_,
                ).0 == enc.0,
                emit_rest(
                    self.block_offset_ as nat,
                    slice@.subrange(pos as int, slice@.len() as int),
                    begin,
                    self.recycle_log_files_,
                    self.log_number_,
                ).1 == enc.1,
            invariant
                self.wf(),
                self.dest().file().direct_io() == old(self).dest().file().direct_io(),
                !self.dest().file().direct_io() ==> fits,
                fits == (old(self).manual_flush_ && enc.0.len() <= old(self).dest().room()),
                roomy == (enc.0.len() <= old(self).dest().room()),
                fits ==> self.manual_flush_ && roomy,
                roomy ==> {
                    &&& self.dest_.room() >= old(self).dest().room() - emitted.len()
                    &&& old(self).dest().room() >= enc.0.len()
                    &&& self.dest_.appended() == app0 + emitted
                    &&& self.dest_.file_size() == fs0 + emitted.len()
                },
                pos + left == slice@.len(),
                total == slice@.len(),
                header_size == writer_header_size(self.recycle_log_files_),
                self.log_number_ == old(self).log_number_,
                self.recycle_log_files_ == old(self).recycle_log_files_,
                self.manual_flush_ == old(self).manual_flush_,
                tracks(fs0, app0, self.dest_.file_size() as int, self.dest_.appended(), emitted),
                emitted.len() <= enc.0.len(),
                enc.0.subrange(0, emitted.len() as int) == emitted,
                app0.len() + enc.0.len() <= usize::MAX,
                fs0 + enc.0.len() <= usize::MAX,
                app0 == old(self).dest().appended(),
                fs0 == old(self).dest().file_size(),
                enc == encode_record(
                    old(self).block_offset_ as nat,
                    slice@,
                    old(self).recycle_log_files_,
                    old(self).log_number_,
                ),
            ensures
                tracks(fs0, app0, self.dest_.file_size() as int, self.dest_.appended(), enc.0),
                s.code() == code_byte(Code::kOk) ==> self.block_offset_ == enc.1,
                fits ==> s.code() == code_byte(Code::kOk),
                s.code() == code_byte(Code::kOk) ==> emitted == enc.0,
                roomy ==> {
                    &&& self.dest_.appended() == app0 + emitted
                    &&& self.dest_.room() >= old(self).dest().room() - emitted.len()
                },
                emitted.len() <= enc.0.len(),
                enc.0.subrange(0, emitted.len() as int) == emitted,
                emitted == enc.0 || {
                    &&& pos <= slice@.len()
                    &&& emitted + emit_rest(
                        self.block_offset_ as nat,
                        slice@.subrange(pos as int, slice@.len() as int),
                        begin,
                        self.recycle_log_files_,
                        self.log_number_,
                    ).0 == enc.0
                },
                s.code() != code_byte(Code::kOk) ==> !self.manual_flush_ && exists|pre: WritableFileWriter<T>|
                    #[trigger] pre.flush_result(&self.dest(), s),
            decreases left, kBlockSize - self.block_offset_,
        {
            let ghost rest = slice@.subrange(pos as int, slice@.len() as int);
            let ghost bo = self.block_offset_ as nat;
            let ghost h = writer_header_size(self.recycle_log_files_);
            proof {
                lemma_emit_step(emitted, enc.0, bo, rest, begin, self.recycle_log_files_, self.log_number_);
            }
            let ghost e0 = emitted;
            let leftover = kBlockSize - self.block_offset_;
            if leftover < header_size {
                if leftover > 0 {
                    let pad = crate::aligned_buffer::zeroed(leftover);
                    let ghost pad_bytes = pad@;
                    assert(pad_bytes =~= block_pad(bo, h));
                    let ghost app1 = self.dest_.appended();
                    let ghost fs1 = self.dest_.file_size() as int;
                    s = self.dest_.append(pad);
                    proof {
                        lemma_tracks_step(fs0, app0, fs1, app1, emitted, self.dest_.file_size() as int, self.dest_.appended(), pad_bytes);
                        emitted = emitted + pad_bytes;
                    }
                    if !s.isOk() {
                        proof {
                            lemma_tracks_prefix(fs0, app0, self.dest_.file_size() as int, self.dest_.appended(), emitted, enc.0);
                        }
                        break;
                    }
                } else {
                    assert(block_pad(bo, h) =~= Seq::<u8>::empty());
                    assert(e0 + block_pad(bo, h) =~= e0);
                }
                self.block_offset_ = 0;
            } else {
                assert(e0 + block_pad(bo, h) =~= e0);
            }
            assert(emitted == e0 + block_pad(bo, h));
            assert(self.block_offset_ == block_start(bo, h));
            let avail = kBlockSize - self.block_offset_ - header_size;
            let fragment_length = if left < avail {
                left
            } else {
                avail
            };
            assert(fragment_length == fragment_len(block_start(bo, h), h, rest.len()));
            let end = left == fragment_length;
            let t = if begin && end {
                if self.recycle_log_files_ {
                    RecordType::kRecyclableFullType
                } else {
                    RecordType::kFullType
                }
            } else if begin {
                if self.recycle_log_files_ {
                    RecordType::kRecyclableFirstType
                } else {
                    RecordType::kFirstType
                }
            } else if end {
                if self.recycle_log_files_ {
                    RecordType::kRecyclableLastType
                } else {
                    RecordType::kLastType
                }
            } else {
                if self.recycle_log_files_ {
                    RecordType::kRecyclableMiddleType
                } else {
                    RecordType::kMiddleType
                }
            };
            let fragment = slice_to_vec(slice_subrange(slice.as_slice(), pos, pos + fragment_length));
            let ghost frag = fragment@;
            let ghost phys = physical_record(type_byte(t), self.log_number_, frag);
            proof {
                assert(type_byte(t) == fragment_type(self.recycle_log_files_, begin, end));
                assert(frag =~= rest.subrange(0, fragment_length as int));
                assert(fragment@.subrange(0, fragment_length as int) =~= frag);
                crate::log_format::lemma_physical_record_len(type_byte(t), self.log_number_, frag);
            }
            let ghost app1 = self.dest_.appended();
            let ghost fs1 = self.dest_.file_size() as int;
            let ghost emitted_before = emitted;
            s = self.EmitPhysicalRecord(t, fragment, fragment_length);
            proof {
                emitted = emitted + phys;
                lemma_tracks_join(fs0, app0, fs1, app1, emitted_before, self.dest_.file_size() as int, self.dest_.appended(), phys);
                assert(rest.subrange(fragment_length as int, rest.len() as int) =~= slice@.subrange(
                    pos + fragment_length,
                    slice@.len() as int,
                ));
            }
            pos = pos + fragment_length;
            left = left - fragment_length;
            begin = false;
            if !(s.isOk() && left > 0) {
                proof {
                    lemma_tracks_prefix(fs0, app0, self.dest_.file_size() as int, self.dest_.appended(), emitted, enc.0);
                    if s.code() == code_byte(Code::kOk) {
                        assert(emitted == enc.0);
                    }
                    if left == 0 {
                        assert(emitted == enc.0);
                    }
                }
                break;
            }
        }
        proof {
            if roomy && emitted != enc.0 {
                let rest = emit_rest(
                    self.block_offset_ as nat,
                    slice@.subrange(pos as int, slice@.len() as int),
                    begin,
                    self.recycle_log_files_,
                    self.log_number_,
                ).0;
                assert(enc.0.subrange(0, enc.0.len() - rest.len()) =~= emitted);
                assert(enc.0.subrange(enc.0.len() - rest.len(), enc.0.len() as int) =~= rest);
            }
        }
        s
    }

    /// Closes the file writer under the log (what dropping the log writer
    /// does): flushes what it buffers and, with direct I/O, truncates the
    /// file to its counted size and syncs it, and reports as the file
    /// writer's close does, the first failure among these. Every logged byte stays logged.
    pub fn close(&mut self) -> (r: state)
        requires
            old(self).wf(),
            old(self).dest().buffered().len() > 0 && !old(self).dest().file().direct_io()
                ==> forall|open: bool|
                #[trigger] call_ensures(T::fcntl, (&old(self).dest().file(),), open) ==> !open,
        ensures
            final(self).wf(),
            final(self).dest().file().direct_io() == old(self).dest().file().direct_io(),
            final(self).logged() == old(self).logged(),
            final(self).block_offset() == old(self).block_offset(),
            final(self).dest().file_size() == old(self).dest().file_size(),
            old(self).dest().close_result(&final(self).dest(), r),
            old(self).dest().file().direct_io() ==> exists|open: bool|
                {
                    &&& #[trigger] call_ensures(T::fcntl, (&old(self).dest().file(),), open)
                    &&& open ==> exists|
                        mid: WritableFileWriter<T>,
                        s: state,
                        file: &mut T,
                        t: state,
                        y: state,
                    |
                        #![trigger old(self).dest().flush_result(&mid, s), call_ensures(T::truncate, (file, old(self).dest().file_size()), t), WritableFileWriter::<T>::direct_close_status(s, t, y)]
                        {
                            &&& old(self).dest().flush_result(&mid, s)
                            &&& *file == mid.file()
                            &&& mut_ref_future(file) == final(self).dest().file()
                            &&& call_ensures(T::truncate, (file, old(self).dest().file_size()), t)
                            &&& t.code() == code_byte(Code::kOk) ==> call_ensures(
                                T::sync,
                                (&final(self).dest().file(),),
                                y,
                            )
                            &&& r == WritableFileWriter::<T>::direct_close_status(s, t, y)
                        }
                },
    {
        self.dest_.close()
    }
}

} // verus!
