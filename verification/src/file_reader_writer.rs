//! Buffered writing to, and reading from, the files of the `file` module.
use vstd::prelude::*;
use vstd::string::StringExecFns;
use vstd::slice::{slice_subrange, slice_to_vec};
use crate::aligned_buffer::{AlignedBuffer, is_pow2, round_up_spec, truncate_to_page_boundary};
use crate::file::{SequentialFile, WritableFile};
use crate::status::{Code, code_byte, joined_message, state};

verus! {

/// The offset a file writer syncs up to: the file size less 1 MiB, rounded
/// down to a multiple of 4 KiB, or 0 while the file holds at most 1 MiB.
pub open spec fn sync_target(filesize: int) -> int {
    if filesize > 1024 * 1024 {
        (filesize - 1024 * 1024) - (filesize - 1024 * 1024) % 4096
    } else {
        0
    }
}

proof fn lemma_sync_target_monotone(a: int, b: int)
    requires
        0 <= a <= b,
    ensures
        sync_target(a) <= sync_target(b),
        0 <= sync_target(a) <= a,
{
    if a > 1024 * 1024 {
        let x = a - 1024 * 1024;
        let y = b - 1024 * 1024;
        vstd::arithmetic::div_mod::lemma_fundamental_div_mod(x, 4096);
        vstd::arithmetic::div_mod::lemma_fundamental_div_mod(y, 4096);
        vstd::arithmetic::div_mod::lemma_div_is_ordered(x, y, 4096);
        vstd::arithmetic::mul::lemma_mul_inequality(x / 4096, y / 4096, 4096);
        vstd::arithmetic::mul::lemma_mul_is_commutative(x / 4096, 4096);
        vstd::arithmetic::mul::lemma_mul_is_commutative(y / 4096, 4096);
        vstd::arithmetic::div_mod::lemma_mod_bound(x, 4096);
    }
}

proof fn lemma_four_is_pow2()
    ensures
        is_pow2(4),
{
    vstd::arithmetic::power2::lemma2_to64();
    assert(4usize as nat == vstd::arithmetic::power2::pow2(2));
}

/// Writes to a file through an aligned buffer: small appends gather in the
/// buffer and go to the file, at increasing offsets, when it fills or is
/// flushed.
pub struct WritableFileWriter<T: WritableFile> {
    writable_file_: T,
    filesize_: usize,
    max_buffer_size_: usize,
    pending_sync_: bool,
    buf_: AlignedBuffer,
    bytes_per_sync_: usize,
    last_sync_size_: usize,
    next_write_offset_: usize,
    appended_: Ghost<Seq<u8>>,
}

impl<T: WritableFile> WritableFileWriter<T> {
    /// The file written to.
    pub closed spec fn file(&self) -> T {
        self.writable_file_
    }

    /// Every byte appended so far, in order: those written to the file
    /// (before the next write offset) and those still buffered.
    pub closed spec fn appended(&self) -> Seq<u8> {
        self.appended_@
    }

    /// The bytes buffered and not yet written to the file.
    pub closed spec fn buffered(&self) -> Seq<u8> {
        self.buf_.contents()
    }

    /// The capacity of the buffer.
    pub closed spec fn buffer_capacity(&self) -> usize {
        self.buf_.cap()
    }

    /// The offset in the file where the buffered bytes go.
    pub closed spec fn next_write_offset(&self) -> usize {
        self.next_write_offset_
    }

    /// The file size counted by completed appends.
    pub closed spec fn file_size(&self) -> usize {
        self.filesize_
    }

    /// The largest size the buffer grows to.
    pub closed spec fn max_buffer_size(&self) -> usize {
        self.max_buffer_size_
    }

    /// How many bytes to write between range syncs (0: never).
    pub closed spec fn bytes_per_sync(&self) -> usize {
        self.bytes_per_sync_
    }

    /// The offset up to which the file has been range-synced.
    pub closed spec fn last_sync_size(&self) -> usize {
        self.last_sync_size_
    }

    /// Whether data was appended since the last sync.
    pub closed spec fn pending_sync(&self) -> bool {
        self.pending_sync_
    }

    /// The buffer has alignment 4 and a capacity that is a positive
    /// multiple of it; the buffered bytes are exactly the appended bytes
    /// from the next write offset on; the last sync is behind the sync target.
    pub closed spec fn wf(&self) -> bool {
        &&& self.buf_.wf()
        &&& self.buf_.align() == 4
        &&& self.buf_.cap() % 4 == 0
        &&& self.buf_.cap() >= 4
        &&& self.next_write_offset_ % 4 == 0
        &&& self.appended_@.len() == self.next_write_offset_ + self.buf_.cur()
        &&& self.appended_@.len() <= usize::MAX
        &&& self.appended_@.subrange(self.next_write_offset_ as int, self.appended_@.len() as int)
            == self.buf_.contents()
        &&& self.last_sync_size_ <= sync_target(self.filesize_ as int)
        &&& self.max_buffer_size_ + 3 <= usize::MAX
    }

    /// The bytes that the next write-out sends to the file for good: the
    /// buffered bytes up to the last multiple of 4.
    pub open spec fn write_out_len(&self) -> int {
        self.buffered().len() - self.buffered().len() % 4
    }

    /// What a write-out sends to the file: the buffered bytes padded with
    /// zeros to a multiple of 4.
    pub open spec fn write_out_bytes(&self) -> Seq<u8> {
        self.buffered() + crate::aligned_buffer::repeat_byte(
            0,
            (round_up_spec(self.buffered().len() as int, 4) - self.buffered().len()) as nat,
        )
    }

    /// Whether a flush of this writer range-syncs the file: without direct
    /// I/O, with syncing on, once the sync target is `bytes_per_sync` past
    /// the last sync.
    pub open spec fn flush_syncs(&self) -> bool {
        &&& !self.file().direct_io()
        &&& self.bytes_per_sync() > 0
        &&& self.file_size() > 1024 * 1024
        &&& sync_target(self.file_size() as int) > 0
        &&& sync_target(self.file_size() as int) - self.last_sync_size() >= self.bytes_per_sync()
    }

    /// What a flush of this writer that leaves it as `after` reports: the
    /// status of the file's flush (of the file as the write-out left it)
    /// when that fails or no range sync is due; otherwise the status of the
    /// range sync from the last sync up to the sync target.
    pub open spec fn flush_result(&self, after: &Self, r: state) -> bool {
        exists|f: state|
            {
                &&& #[trigger] call_ensures(T::flush, (&after.file(),), f)
                &&& if f.code() != code_byte(Code::kOk) || !self.flush_syncs() {
                    r == f && after.last_sync_size() == self.last_sync_size()
                } else {
                    &&& call_ensures(
                        T::range_sync,
                        (
                            &after.file(),
                            self.last_sync_size() as i64,
                            (sync_target(self.file_size() as int) - self.last_sync_size()) as i64,
                        ),
                        r,
                    )
                    &&& after.last_sync_size() == sync_target(self.file_size() as int)
                }
            }
    }

    /// The status a close with direct I/O reports from the flush's status
    /// `flushed`, the truncation's `truncated` and the sync's `synced`: the
    /// first of them that fails, or success.
    pub open spec fn direct_close_status(flushed: state, truncated: state, synced: state) -> state {
        if flushed.code() != code_byte(Code::kOk) {
            flushed
        } else if truncated.code() != code_byte(Code::kOk) {
            truncated
        } else if synced.code() != code_byte(Code::kOk) {
            synced
        } else {
            flushed
        }
    }

    /// What a close of this writer that leaves it as `after` reports: an
    /// I/O error when the file is no longer open (the writer unchanged);
    /// otherwise what the flush reports, unless with direct I/O the
    /// truncation or sync that follows fails after a successful flush, when
    /// it reports that failure.
    pub open spec fn close_result(&self, after: &Self, r: state) -> bool {
        exists|open: bool|
            {
                &&& #[trigger] call_ensures(T::fcntl, (&self.file(),), open)
                &&& !open ==> {
                    &&& r.code() == code_byte(Code::kIOError)
                    &&& r.message() == joined_message(
                        "writeable_file_ has closed"@,
                        Seq::empty(),
                    )
                    &&& *after == *self
                }
                &&& open ==> exists|mid: Self, s: state|
                    {
                        &&& #[trigger] self.flush_result(&mid, s)
                        &&& !self.file().direct_io() ==> r == s && *after == mid
                        &&& self.file().direct_io() ==> {
                            ||| r == s
                            ||| s.code() == code_byte(Code::kOk) && r.code() != code_byte(
                                Code::kOk,
                            )
                        }
                    }
            }
    }

    /// The capacity a buffer of capacity `cap` grows to when doubled `k`
    /// times, never past the largest size `max`, and rounded up to a
    /// multiple of 4.
    pub open spec fn grown_capacity(cap: int, max: int, k: nat) -> int {
        let doubled = cap * vstd::arithmetic::power2::pow2(k);
        round_up_spec(if doubled < max { doubled } else { max }, 4)
    }

    /// How many more bytes the buffer can take, grown to the largest size
    /// when that is larger than its capacity.
    pub open spec fn room(&self) -> int {
        (if self.buffer_capacity() >= self.max_buffer_size() {
            self.buffer_capacity() as int
        } else {
            self.max_buffer_size() as int
        }) - self.buffered().len()
    }

    /// A writer to `writable_file` with an empty 64 KiB buffer of alignment 4.
    pub fn new(writable_file: T, options: crate::env::EnvOptions) -> (r: WritableFileWriter<T>)
        requires
            options.writable_file_max_buffer_size + 3 <= usize::MAX,
        ensures
            r.wf(),
            r.file() == writable_file,
            r.file_size() == 0,
            r.max_buffer_size() == options.writable_file_max_buffer_size,
            r.bytes_per_sync() == options.bytes_per_sync,
            !r.pending_sync(),
            r.buffered() == Seq::<u8>::empty(),
            r.buffer_capacity() == 65536,
            r.next_write_offset() == 0,
            r.last_sync_size() == 0,
            r.appended() == Seq::<u8>::empty(),
    {
        let mut buf = AlignedBuffer::default();
        buf.alignment(4);
        proof {
            lemma_four_is_pow2();
        }
        buf.allocate_new_buffer(65536, false);
        proof {
            vstd::arithmetic::div_mod::lemma_fundamental_div_mod(65539, 4);
            assert(round_up_spec(65536, 4) == 65536);
        }
        let r = WritableFileWriter {
            writable_file_: writable_file,
            filesize_: 0,
            max_buffer_size_: options.writable_file_max_buffer_size,
            pending_sync_: false,
            bytes_per_sync_: options.bytes_per_sync,
            buf_: buf,
            last_sync_size_: 0,
            next_write_offset_: 0,
            appended_: Ghost(Seq::empty()),
        };
        assert(r.buf_.contents() =~= Seq::<u8>::empty());
        assert(r.appended_@.subrange(0, 0) =~= Seq::<u8>::empty());
        assert(r.buf_.cap() == 65536);
        assert(r.buf_.cap() % 4 == 0);
        r
    }

    /// The file size counted by completed appends.
    pub fn get_file_size(&self) -> (r: usize)
        ensures
            r == self.file_size(),
    {
        self.filesize_
    }

    /// Writes the buffered bytes to the file at the next write offset,
    /// padded with zeros to a multiple of 4. On success the bytes up to the
    /// last multiple of 4 are done with, and the rest moves to the front of
    /// the buffer to be written again with what follows.
    fn write_direct(&mut self) -> (r: state)
        requires
            old(self).wf(),
            old(self).file().direct_io(),
        ensures
            final(self).wf(),
            final(self).file().direct_io(),
            final(self).appended() == old(self).appended(),
            final(self).file_size() == old(self).file_size(),
            final(self).last_sync_size() == old(self).last_sync_size(),
            final(self).max_buffer_size() == old(self).max_buffer_size(),
            final(self).bytes_per_sync() == old(self).bytes_per_sync(),
            final(self).pending_sync() == old(self).pending_sync(),
            final(self).buffer_capacity() == old(self).buffer_capacity(),
            r.code() == code_byte(Code::kOk) ==> {
                &&& final(self).next_write_offset() == old(self).next_write_offset()
                    + old(self).write_out_len()
                &&& final(self).buffered() == old(self).buffered().subrange(
                    old(self).write_out_len(),
                    old(self).buffered().len() as int,
                )
            },
            r.code() != code_byte(Code::kOk) ==> {
                &&& final(self).next_write_offset() == old(self).next_write_offset()
                &&& final(self).buffered() == old(self).buffered()
            },
            old(self).buffered().len() == 0 ==> final(self).file() == old(self).file()
                && r.code() == code_byte(Code::kOk),
            old(self).buffered().len() > 0 ==> exists|file: &mut T, v: Vec<u8>|
                {
                    &&& *file == old(self).file()
                    &&& mut_ref_future(file) == final(self).file()
                    &&& v@ == old(self).write_out_bytes()
                    &&& #[trigger] call_ensures(
                        T::positioned_append,
                        (file, v, old(self).next_write_offset()),
                        r,
                    )
                },
    {
        let ghost old_contents = self.buf_.contents();
        let ghost old_appended = self.appended_@;
        proof {
            lemma_four_is_pow2();
        }
        let alignment = self.buf_.get_alignment();
        let cur = self.buf_.get_current_size();
        proof {
            crate::aligned_buffer::lemma_truncate_pow2(alignment, cur);
        }
        let file_advance = truncate_to_page_boundary(alignment, cur);
        let leftover_tail = cur - file_advance;
        proof {
            self.buf_.lemma_wf();
            crate::aligned_buffer::lemma_round_up_le_multiple(cur as int, self.buf_.cap() as int, 4);
            assert(round_up_spec(cur as int, 4) <= self.buf_.cap());
        }
        self.buf_.pad_to_aligment_with(0);
        let mut s = state::ok();
        let left = self.buf_.get_current_size();
        if left > 0 {
            let write_context = self.buf_.read(0, left);
            assert(write_context@ =~= old(self).write_out_bytes());
            let ghost sent = write_context;
            assert(self.writable_file_ == old(self).writable_file_);
            let offset = self.next_write_offset_;
            assert(offset == old(self).next_write_offset());
            s = self.writable_file_.positioned_append(write_context, offset);
            assert(exists|file: &mut T, v: Vec<u8>|
                {
                    &&& *file == old(self).file()
                    &&& mut_ref_future(file) == self.file()
                    &&& v@ == old(self).write_out_bytes()
                    &&& #[trigger] call_ensures(T::positioned_append, (file, v, offset), s)
                });
            let ghost sent_file = self.file();
            if !s.isOk() {
                self.buf_.size(file_advance + leftover_tail);
                assert(self.buf_.contents() =~= old_contents);
                assert(self.file() == sent_file);
                return s;
            }
        }
        let ghost end_file = self.file();
        if s.isOk() {
            self.buf_.refit_tail(file_advance, leftover_tail);
            self.next_write_offset_ = self.next_write_offset_ + file_advance;
            assert(self.buf_.contents() =~= old_contents.subrange(
                file_advance as int,
                cur as int,
            ));
            assert(self.appended_@.subrange(self.next_write_offset_ as int, self.appended_@.len() as int)
                =~= old_contents.subrange(file_advance as int, cur as int));
            proof {
                vstd::arithmetic::div_mod::lemma_mod_multiples_vanish(
                    (self.next_write_offset_ - file_advance) as int / 4,
                    file_advance as int,
                    4,
                );
                vstd::arithmetic::div_mod::lemma_fundamental_div_mod((self.next_write_offset_ - file_advance) as int, 4);
                vstd::arithmetic::div_mod::lemma_fundamental_div_mod(file_advance as int, 4);
            }
        } else {
            self.buf_.size(file_advance + leftover_tail);
            assert(self.buf_.contents() =~= old_contents);
        }
        assert(self.file() == end_file);
        s
    }

    /// Writes the buffered bytes out (with direct I/O), flushes the file, and
    /// without direct I/O range-syncs the file up to the sync target once
    /// that target is `bytes_per_sync` past the last sync.
    #[verifier::spinoff_prover]
    pub fn flush(&mut self) -> (r: state)
        requires
            old(self).wf(),
            old(self).buffered().len() > 0 ==> old(self).file().direct_io(),
        ensures
            final(self).wf(),
            final(self).file().direct_io() == old(self).file().direct_io(),
            final(self).appended() == old(self).appended(),
            final(self).file_size() == old(self).file_size(),
            final(self).max_buffer_size() == old(self).max_buffer_size(),
            final(self).bytes_per_sync() == old(self).bytes_per_sync(),
            final(self).pending_sync() == old(self).pending_sync(),
            final(self).buffer_capacity() == old(self).buffer_capacity(),
            old(self).buffered().len() == 0 ==> final(self).buffered() == old(self).buffered()
                && final(self).next_write_offset() == old(self).next_write_offset(),
            old(self).buffered().len() > 0 ==> {
                ||| final(self).next_write_offset() == old(self).next_write_offset()
                    && final(self).buffered() == old(self).buffered()
                ||| final(self).next_write_offset() == old(self).next_write_offset()
                    + old(self).write_out_len() && final(self).buffered()
                    == old(self).buffered().subrange(
                    old(self).write_out_len(),
                    old(self).buffered().len() as int,
                )
            },
            final(self).last_sync_size() == old(self).last_sync_size() || {
                &&& old(self).flush_syncs()
                &&& final(self).last_sync_size() == sync_target(old(self).file_size() as int)
            },
            old(self).flush_result(&*final(self), r),
            old(self).buffered().len() == 0 ==> final(self).file() == old(self).file(),
            old(self).buffered().len() > 0 ==> exists|file: &mut T, v: Vec<u8>, w: state|
                {
                    &&& *file == old(self).file()
                    &&& mut_ref_future(file) == final(self).file()
                    &&& v@ == old(self).write_out_bytes()
                    &&& #[trigger] call_ensures(
                        T::positioned_append,
                        (file, v, old(self).next_write_offset()),
                        w,
                    )
                    &&& w.code() == code_byte(Code::kOk) ==> {
                        &&& final(self).next_write_offset() == old(self).next_write_offset()
                            + old(self).write_out_len()
                        &&& final(self).buffered() == old(self).buffered().subrange(
                            old(self).write_out_len(),
                            old(self).buffered().len() as int,
                        )
                    }
                    &&& w.code() != code_byte(Code::kOk) ==> {
                        &&& final(self).next_write_offset() == old(self).next_write_offset()
                        &&& final(self).buffered() == old(self).buffered()
                    }
                },
    {
        let ghost mut w: state = arbitrary();
        if self.buf_.get_current_size() > 0 {
            let written = self.write_direct();
            proof {
                w = written;
            }
        }
        let ghost written_file = self.file();
        let s = self.writable_file_.flush();
        let ghost f = s;
        assert(call_ensures(T::flush, (&self.file(),), f));
        if !s.isOk() {
            assert(old(self).flush_result(self, s));
            assert(self.file() == written_file);
            return s;
        }
        let mut s = s;
        if !self.writable_file_.use_direct_io() && self.bytes_per_sync_ > 0 {
            let k_bytes_not_sync_range: usize = 1024 * 1024;
            let k_bytes_align_when_sync: usize = 4 * 1024;
            if self.filesize_ > k_bytes_not_sync_range {
                let mut offset_sync_to = self.filesize_ - k_bytes_not_sync_range;
                offset_sync_to = offset_sync_to - offset_sync_to % k_bytes_align_when_sync;
                if offset_sync_to > 0 && offset_sync_to - self.last_sync_size_
                    >= self.bytes_per_sync_ {
                    let last_sync_size = self.last_sync_size_;
                    assert(offset_sync_to == sync_target(old(self).file_size() as int));
                    assert(old(self).flush_syncs());
                    assert(f.code() == code_byte(Code::kOk));
                    let ghost before_sync = self.file();
                    s = self.range_sync(
                        last_sync_size as i64,
                        (offset_sync_to - last_sync_size) as i64,
                    );
                    self.last_sync_size_ = offset_sync_to;
                    assert(self.file() == before_sync);
                    assert(call_ensures(T::flush, (&self.file(),), f));
                    assert(old(self).flush_result(self, s));
                    return s;
                }
            }
        }
        assert(old(self).flush_result(self, s));
        assert(self.file() == written_file);
        s
    }

    /// Appends `slice`: tells the file to prepare for a write of the slice
    /// at the counted size, grows the buffer (doubling, up to the largest
    /// size) when the slice does not fit, then copies the slice into the
    /// buffer, writing the buffer out whenever it fills (with direct I/O;
    /// without it, the slice has to fit in the buffer grown to the largest
    /// size). A slice that fits in the buffer so grown is appended whole,
    /// and the file sees nothing but the preparation. Otherwise the append
    /// stops early when a write-out fails or leaves the buffer full; the
    /// appended bytes are then a prefix of the slice, and the file size is
    /// counted only for a complete append. The buffer never shrinks; it
    /// grows to the capacity doubled some number of times, at most the
    /// largest size, rounded up to a multiple of 4. Always reports success.
    pub fn append(&mut self, slice: Vec<u8>) -> (r: state)
        requires
            old(self).wf(),
            old(self).file().direct_io() || slice@.len() <= old(self).room(),
            old(self).appended().len() + slice@.len() <= usize::MAX,
            old(self).file_size() + slice@.len() <= usize::MAX,
        ensures
            final(self).wf(),
            final(self).file().direct_io() == old(self).file().direct_io(),
            slice@.len() <= old(self).room() ==> {
                &&& final(self).appended() == old(self).appended() + slice@
                &&& final(self).next_write_offset() == old(self).next_write_offset()
                &&& final(self).room() >= old(self).room() - slice@.len()
            },
            final(self).buffer_capacity() == old(self).buffer_capacity() || {
                &&& old(self).buffer_capacity() < final(self).buffer_capacity()
                &&& final(self).buffer_capacity() <= round_up_spec(
                    old(self).max_buffer_size() as int,
                    4,
                )
                &&& exists|k: nat|
                    k >= 1 && final(self).buffer_capacity() == #[trigger] Self::grown_capacity(
                        old(self).buffer_capacity() as int,
                        old(self).max_buffer_size() as int,
                        k,
                    )
            },
            exists|file: &mut T|
                {
                    &&& *file == old(self).file()
                    &&& #[trigger] call_ensures(
                        T::prepare_write,
                        (file, old(self).file_size(), slice@.len() as usize),
                        (),
                    )
                    &&& slice@.len() <= old(self).room() ==> mut_ref_future(file) == final(self).file()
                },
            r.code() == code_byte(Code::kOk),
            final(self).pending_sync(),
            old(self).appended().len() <= final(self).appended().len() <= old(self).appended().len()
                + slice@.len(),
            final(self).appended() == old(self).appended() + slice@.subrange(
                0,
                final(self).appended().len() - old(self).appended().len(),
            ),
            final(self).appended() == old(self).appended() + slice@ ==> final(self).file_size()
                == old(self).file_size() + slice@.len(),
            final(self).appended() != old(self).appended() + slice@ ==> final(self).file_size()
                == old(self).file_size(),
            final(self).max_buffer_size() == old(self).max_buffer_size(),
            final(self).bytes_per_sync() == old(self).bytes_per_sync(),
            final(self).last_sync_size() == old(self).last_sync_size(),
    {
        let ghost old_appended = self.appended_@;
        let ghost old_last_sync = self.last_sync_size_;
        let mut s = state::ok();
        let mut src: usize = 0;
        let mut left = slice.len();
        self.pending_sync_ = true;
        let fsize = self.get_file_size();
        let len = left;
        self.writable_file_.prepare_write(fsize, len);
        let ghost fp = self.writable_file_;
        assert(exists|file: &mut T|
            {
                &&& *file == old(self).file()
                &&& mut_ref_future(file) == fp
                &&& #[trigger] call_ensures(T::prepare_write, (file, fsize, len), ())
            });
        assert(fsize == old(self).file_size() && len == slice@.len() as usize);
        proof {
            self.buf_.lemma_wf();
        }
        let ghost direct = self.writable_file_.direct_io();
        let ghost room0 = self.room();
        let ghost fits = slice@.len() <= room0;
        proof {
            crate::aligned_buffer::lemma_round_up_bounds(self.max_buffer_size_ as int, 4);
        }
        assert(room0 == (if self.buf_.cap() >= self.max_buffer_size_ {
            self.buf_.cap() as int
        } else {
            self.max_buffer_size_ as int
        }) - self.buf_.cur());
        let ghost c0 = self.buf_.cap() as int;
        let ghost mut gk: nat = 0;
        if self.buf_.get_capacity() - self.buf_.get_current_size() < left {
            let mut cap = self.buf_.get_capacity();
            let ghost mut j: nat = 0;
            proof {
                vstd::arithmetic::power2::lemma2_to64();
            }
            while cap < self.max_buffer_size_
                invariant_except_break
                    cap >= self.buf_.cap(),
                    cap > 0,
                    self.buf_.cap() == old(self).buf_.cap(),
                    cap == c0 * vstd::arithmetic::power2::pow2(j) || cap >= self.max_buffer_size_,
                    fits ==> (cap < self.max_buffer_size_ || self.max_buffer_size_
                        - self.buf_.cur() < left || self.buf_.cap() - self.buf_.cur() >= left),
                invariant
                    self.wf(),
                    self.file().direct_io() == direct,
                    direct == old(self).file().direct_io(),
                    !direct ==> left <= room0,
                    fits == (left <= room0),
                    self.writable_file_ == fp,
                    self.buf_.cap() == old(self).buf_.cap() || {
                        &&& old(self).buf_.cap() < self.buf_.cap()
                        &&& self.buf_.cap() <= round_up_spec(self.max_buffer_size_ as int, 4)
                        &&& gk >= 1
                        &&& self.buf_.cap() == Self::grown_capacity(c0, self.max_buffer_size_ as int, gk)
                    },
                    c0 == old(self).buf_.cap(),
                    room0 == (if old(self).buf_.cap() >= self.max_buffer_size_ {
                        old(self).buf_.cap() as int
                    } else {
                        self.max_buffer_size_ as int
                    }) - old(self).buf_.cur(),
                    left == slice@.len(),
                    self.buf_.cur() == old(self).buf_.cur(),
                    self.buf_.cap() >= old(self).buf_.cap(),
                    self.next_write_offset_ == old(self).next_write_offset_,
                    self.appended_@ == old_appended,
                    self.last_sync_size_ == old_last_sync,
                    self.pending_sync_,
                    self.filesize_ == fsize,
                    self.max_buffer_size_ == old(self).max_buffer_size_,
                    self.bytes_per_sync_ == old(self).bytes_per_sync_,
                ensures
                    fits ==> self.buf_.cap() - self.buf_.cur() >= left,
                decreases self.max_buffer_size_ - cap,
            {
                proof {
                    self.buf_.lemma_wf();
                }
                let max = self.max_buffer_size_;
                let desired = if cap <= max / 2 {
                    if cap * 2 < max {
                        cap * 2
                    } else {
                        max
                    }
                } else {
                    max
                };
                if desired - self.buf_.get_current_size() >= left || (
                self.writable_file_.use_direct_io() && desired == max) {
                    let ghost before = self.buf_.contents();
                    proof {
                        lemma_four_is_pow2();
                    }
                    self.buf_.allocate_new_buffer(desired, true);
                    proof {
                        vstd::arithmetic::power2::lemma_pow2_unfold(j + 1);
                        assert(cap == c0 * vstd::arithmetic::power2::pow2(j));
                        assert(c0 * vstd::arithmetic::power2::pow2(j + 1) == cap * 2) by (nonlinear_arith)
                            requires
                                cap == c0 * vstd::arithmetic::power2::pow2(j),
                                vstd::arithmetic::power2::pow2(j + 1) == 2 * vstd::arithmetic::power2::pow2(j),
                        ;
                        gk = j + 1;
                        assert(self.buf_.cap() == Self::grown_capacity(c0, max as int, gk));
                        crate::aligned_buffer::lemma_round_up_bounds(desired as int, 4);
                        crate::aligned_buffer::lemma_round_up_le_multiple(
                            desired as int,
                            round_up_spec(max as int, 4),
                            4,
                        );
                        assert(self.buf_.contents() =~= before);
                    }
                    break;
                }
                proof {
                    vstd::arithmetic::power2::lemma_pow2_unfold(j + 1);
                    assert(c0 * vstd::arithmetic::power2::pow2(j + 1) == cap * 2) by (nonlinear_arith)
                        requires
                            cap == c0 * vstd::arithmetic::power2::pow2(j),
                            vstd::arithmetic::power2::pow2(j + 1) == 2 * vstd::arithmetic::power2::pow2(j),
                    ;
                }
                cap = if cap <= max / 2 {
                    cap * 2
                } else {
                    max
                };
                proof {
                    j = j + 1;
                }
            }
        }
        if !self.writable_file_.use_direct_io() && (self.buf_.get_capacity()
            - self.buf_.get_current_size() < left) {
            if self.buf_.get_current_size() > 0 {
                let s2 = self.flush();
                if !s2.isOk() {
                    assert(self.buf_.cap() == old(self).buf_.cap() || (gk >= 1 && self.buf_.cap() == Self::grown_capacity(
                        c0,
                        old(self).max_buffer_size_ as int,
                        gk,
                    )));
                    return s2;
                }
            }
        }
        assert(fits ==> self.buf_.cap() - self.buf_.cur() >= left);
        assert(fits ==> self.writable_file_ == fp);
        let ghost grown_cap = self.buf_.cap();
        if self.writable_file_.use_direct_io() || self.buf_.get_capacity() >= left {
            while left > 0
                invariant_except_break
                    s.code() == code_byte(Code::kOk),
                invariant
                    self.wf(),
                    self.file().direct_io() == direct,
                    !direct ==> fits,
                    fits ==> self.writable_file_ == fp,
                    fits ==> self.buf_.cap() - self.buf_.cur() >= left,
                    fits ==> self.next_write_offset_ == old(self).next_write_offset_,
                    self.buf_.cap() >= old(self).buf_.cap(),
                    self.buf_.cap() == grown_cap,
                    grown_cap == old(self).buf_.cap() || {
                        &&& old(self).buf_.cap() < grown_cap
                        &&& grown_cap <= round_up_spec(self.max_buffer_size_ as int, 4)
                        &&& gk >= 1
                        &&& grown_cap == Self::grown_capacity(c0, self.max_buffer_size_ as int, gk)
                    },
                    c0 == old(self).buf_.cap(),
                    src + left == slice@.len(),
                    self.appended_@ == old_appended + slice@.subrange(0, src as int),
                    self.pending_sync_,
                    self.filesize_ == fsize,
                    fsize == old(self).filesize_,
                    self.last_sync_size_ == old_last_sync,
                    old_appended.len() + slice@.len() <= usize::MAX,
                    self.max_buffer_size_ == old(self).max_buffer_size_,
                    self.bytes_per_sync_ == old(self).bytes_per_sync_,
                ensures
                    s.code() == code_byte(Code::kOk) ==> left == 0,
                    s.code() != code_byte(Code::kOk) ==> left > 0,
                    fits ==> s.code() == code_byte(Code::kOk),
                decreases left,
            {
                proof {
                    self.buf_.lemma_wf();
                }
                if self.buf_.get_current_size() == self.buf_.get_capacity() {
                    s = self.flush();
                    if !s.isOk() {
                        break;
                    }
                    proof {
                        self.buf_.lemma_wf();
                    }
                    if self.buf_.get_current_size() == self.buf_.get_capacity() {
                        s = state::new(
                            Code::kIOError,
                            String::from_str("buffer could not be written out"),
                            String::new(),
                        );
                        break;
                    }
                }
                let ghost before = self.buf_.contents();
                let chunk = slice_to_vec(slice_subrange(slice.as_slice(), src, slice.len()));
                let appended = self.buf_.append(chunk);
                proof {
                    assert(self.buf_.contents() =~= before + slice@.subrange(
                        src as int,
                        src + appended,
                    ));
                    self.appended_@ = self.appended_@ + slice@.subrange(src as int, src + appended);
                    assert(self.appended_@ =~= old_appended + slice@.subrange(
                        0,
                        src + appended,
                    ));
                    assert(self.appended_@.subrange(
                        self.next_write_offset_ as int,
                        self.appended_@.len() as int,
                    ) =~= self.buf_.contents());
                }
                left = left - appended;
                src = src + appended;
                if left > 0 {
                    s = self.flush();
                    if !s.isOk() {
                        break;
                    }
                }
            }
        } else {
            s = self.write_buffered(
                slice_to_vec(slice_subrange(slice.as_slice(), src, slice.len())),
                left,
            );
        }
        proof {
            lemma_sync_target_monotone(fsize as int, fsize + slice@.len());
        }
        proof {
            self.buf_.lemma_wf();
        }
        if s.isOk() {
            assert(src == slice@.len());
            assert(slice@.subrange(0, src as int) =~= slice@);
            self.filesize_ = self.filesize_ + slice.len();
        } else {
            assert(src < slice@.len());
            assert(self.appended_@.len() < old_appended.len() + slice@.len());
        }
        assert(self.buf_.cap() == old(self).buf_.cap() || (gk >= 1 && self.buf_.cap() == Self::grown_capacity(
            c0,
            old(self).max_buffer_size_ as int,
            gk,
        )));
        assert(fits ==> self.writable_file_ == fp);
        assert(c0 == old(self).buffer_capacity() as int && old(self).max_buffer_size() == old(self).max_buffer_size_);
        assert(self.buf_.cap() == old(self).buf_.cap() || Self::grown_capacity(
            old(self).buffer_capacity() as int,
            old(self).max_buffer_size() as int,
            gk,
        ) == self.buf_.cap());
        state::ok()
    }

    /// Appends the first `size` bytes of `data` to the file directly, for a
    /// writer whose buffer is empty; reports plain success, or the file's
    /// failure to append.
    fn write_buffered(&mut self, data: Vec<u8>, size: usize) -> (r: state)
        requires
            old(self).wf(),
            old(self).file().direct_io(),
            old(self).buffered().len() == 0,
            size <= data@.len(),
        ensures
            final(self).wf(),
            final(self).file().direct_io(),
            final(self).appended() == old(self).appended(),
            final(self).buffered() == old(self).buffered(),
            final(self).next_write_offset() == old(self).next_write_offset(),
            final(self).file_size() == old(self).file_size(),
            final(self).last_sync_size() == old(self).last_sync_size(),
            final(self).max_buffer_size() == old(self).max_buffer_size(),
            final(self).bytes_per_sync() == old(self).bytes_per_sync(),
            final(self).pending_sync() == old(self).pending_sync(),
            size == 0 ==> final(self).file() == old(self).file() && r.code() == code_byte(Code::kOk)
                && r.message() == joined_message(Seq::empty(), Seq::empty()),
            size > 0 ==> exists|file: &mut T, v: Vec<u8>, s: state|
                {
                    &&& *file == old(self).file()
                    &&& mut_ref_future(file) == final(self).file()
                    &&& v@ == data@.subrange(0, size as int)
                    &&& #[trigger] call_ensures(T::append, (file, v), s)
                    &&& s.code() == code_byte(Code::kOk) ==> r.code() == code_byte(Code::kOk)
                        && r.message() == joined_message(Seq::empty(), Seq::empty())
                    &&& s.code() != code_byte(Code::kOk) ==> r == s
                },
    {
        let mut src: usize = 0;
        let mut left = size;
        let ghost mut appended_status: state = arbitrary();
        while left > 0
            invariant
                src == 0 ==> self.writable_file_ == old(self).writable_file_,
                src > 0 ==> src == size && appended_status.code() == code_byte(Code::kOk)
                    && exists|file: &mut T, v: Vec<u8>|
                    {
                        &&& *file == old(self).file()
                        &&& mut_ref_future(file) == self.file()
                        &&& v@ == data@.subrange(0, size as int)
                        &&& #[trigger] call_ensures(T::append, (file, v), appended_status)
                    },
                src + left == size,
                size <= data@.len(),
                self.wf(),
                self.file().direct_io(),
                self.buf_ == old(self).buf_,
                self.appended_ == old(self).appended_,
                self.next_write_offset_ == old(self).next_write_offset_,
                self.filesize_ == old(self).filesize_,
                self.last_sync_size_ == old(self).last_sync_size_,
                self.max_buffer_size_ == old(self).max_buffer_size_,
                self.bytes_per_sync_ == old(self).bytes_per_sync_,
                self.pending_sync_ == old(self).pending_sync_,
            decreases left,
        {
            let allowed = left;
            let chunk = slice_to_vec(slice_subrange(data.as_slice(), src, src + left));
            let ghost chunk_view = chunk@;
            let s = self.writable_file_.append(chunk);
            proof {
                assert(chunk_view =~= data@.subrange(0, size as int));
                appended_status = s;
            }
            if !s.isOk() {
                return s;
            }
            left = left - allowed;
            src = src + allowed;
        }
        self.buf_.size(0);
        state::ok()
    }

    /// Closes the writer: reports an I/O error when the file is no longer
    /// open; otherwise flushes, and with direct I/O truncates the file to its
    /// counted size and syncs it. Reports the first failure. Buffered bytes
    /// are written out only with direct I/O, so a writer that holds some
    /// without it can be closed only once its file is closed.
    pub fn close(&mut self) -> (r: state)
        requires
            old(self).wf(),
            old(self).buffered().len() > 0 && !old(self).file().direct_io() ==> forall|open: bool|
                #[trigger] call_ensures(T::fcntl, (&old(self).file(),), open) ==> !open,
        ensures
            final(self).wf(),
            final(self).file().direct_io() == old(self).file().direct_io(),
            final(self).appended() == old(self).appended(),
            final(self).file_size() == old(self).file_size(),
            old(self).buffered().len() == 0 ==> final(self).buffered() == old(self).buffered()
                && final(self).next_write_offset() == old(self).next_write_offset(),
            old(self).buffered().len() > 0 ==> {
                ||| final(self).next_write_offset() == old(self).next_write_offset()
                    && final(self).buffered() == old(self).buffered()
                ||| final(self).next_write_offset() == old(self).next_write_offset()
                    + old(self).write_out_len() && final(self).buffered()
                    == old(self).buffered().subrange(
                    old(self).write_out_len(),
                    old(self).buffered().len() as int,
                )
            },
            old(self).close_result(&*final(self), r),
            old(self).file().direct_io() ==> exists|open: bool|
                {
                    &&& #[trigger] call_ensures(T::fcntl, (&old(self).file(),), open)
                    &&& open ==> exists|mid: Self, s: state, file: &mut T, t: state, y: state|
                        #![trigger old(self).flush_result(&mid, s), call_ensures(T::truncate, (file, old(self).file_size()), t), Self::direct_close_status(s, t, y)]
                        {
                            &&& old(self).flush_result(&mid, s)
                            &&& *file == mid.file()
                            &&& mut_ref_future(file) == final(self).file()
                            &&& call_ensures(T::truncate, (file, old(self).file_size()), t)
                            &&& t.code() == code_byte(Code::kOk) ==> call_ensures(
                                T::sync,
                                (&final(self).file(),),
                                y,
                            )
                            &&& r == Self::direct_close_status(s, t, y)
                        }
                },
    {
        let ghost start = *self;
        let open = self.writable_file_.fcntl();
        assert(call_ensures(T::fcntl, (&start.file(),), open));
        if !open {
            let r = state::new(
                Code::kIOError,
                String::from_str("writeable_file_ has closed"),
                String::new(),
            );
            proof {
                reveal_strlit("writeable_file_ has closed");
            }
            return r;
        }
        let mut s = self.flush();
        let ghost mid = *self;
        let ghost s0 = s;
        assert(start.flush_result(&mid, s0));
        if self.writable_file_.use_direct_io() {
            let mut interim = self.writable_file_.truncate(self.filesize_);
            let ghost t = interim;
            let ghost mut y = interim;
            if interim.isOk() {
                interim = self.writable_file_.sync();
                proof {
                    y = interim;
                }
            }
            if !interim.isOk() && s.isOk() {
                s = interim;
            }
            assert(s == Self::direct_close_status(s0, t, y));
        }
        assert(start.file().direct_io() == mid.file().direct_io());
        s
    }

    /// Asks the file to sync `nbytes` bytes from `offset`.
    pub fn range_sync(&mut self, offset: i64, nbytes: i64) -> (r: state)
        ensures
            *final(self) == *old(self),
            call_ensures(T::range_sync, (&old(self).file(), offset, nbytes), r),
    {
        self.writable_file_.range_sync(offset, nbytes)
    }
}

/// Reads a file from front to back.
pub struct SequentialFileReader<T: SequentialFile> {
    file_: T,
}

impl<T: SequentialFile> SequentialFileReader<T> {
    /// The file read from.
    pub closed spec fn file(&self) -> T {
        self.file_
    }

    /// A reader of `file`.
    pub fn new(file: T) -> (r: SequentialFileReader<T>)
        ensures
            r.file() == file,
    {
        SequentialFileReader { file_: file }
    }

    /// Skips `n` bytes of the file; reports what the file's skip reports.
    pub fn Skip(&self, n: i64) -> (r: state)
        ensures
            call_ensures(T::Skip, (&self.file(), n), r),
    {
        self.file_.Skip(n)
    }

    /// Reads up to `n` bytes of the file into `result`: the file, `result`
    /// and `scratch` end as, and the status is what, the file's read of `n`
    /// bytes gives.
    pub fn Read(&mut self, n: usize, result: &mut Vec<u8>, scratch: &mut Vec<u8>) -> (r: state)
        ensures
            exists|file: &mut T, res: &mut Vec<u8>, scr: &mut Vec<u8>|
                {
                    &&& *file == old(self).file()
                    &&& mut_ref_future(file) == final(self).file()
                    &&& *res == *old(result)
                    &&& mut_ref_future(res) == *final(result)
                    &&& *scr == *old(scratch)
                    &&& mut_ref_future(scr) == *final(scratch)
                    &&& #[trigger] call_ensures(T::Read, (file, n, res, scr), r)
                },
    {
        self.file_.Read(n, result, scratch)
    }
}

} // verus!
