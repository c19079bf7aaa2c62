//! The decisions of the POSIX files: what a system call's result means, and
//! what to ask of the system next. The calls themselves are made by the
//! program around the library.
use vstd::prelude::*;
use vstd::string::{StringExecFns, to_string_from_display_ensures};
use crate::env::EnvOptions;
use crate::status::{Code, code_byte, joined_message, state};

verus! {

/// The default page size.
pub const k_default_page_size: usize = 4 * 1024;

/// The logical sector size of a file: the default page size.
pub fn get_logical_buffer_size() -> (r: usize)
    ensures
        r == k_default_page_size,
{
    k_default_page_size
}

/// Whether `off` is a multiple of `sector_size`.
pub fn IsSectorAligned(off: usize, sector_size: usize) -> (r: bool)
    requires
        sector_size > 0,
    ensures
        r == (off % sector_size == 0),
{
    off % sector_size == 0
}

/// Whether a newly opened descriptor `fd` gets FD_CLOEXEC.
pub fn SetFD_CLOEXEC_wanted(fd: i32, options: &EnvOptions) -> (r: bool)
    ensures
        r == (options.set_fd_cloexec && fd > 0),
{
    options.set_fd_cloexec && fd > 0
}

/// The flags a writable file is opened with: `base` (create, and direct I/O
/// where the system has it), read-write, and appending to a reopened file
/// or truncating a new one.
pub fn writable_open_flags(reopen: bool, base: i32, o_append: i32, o_trunc: i32, o_rdwr: i32) -> (r: i32)
    ensures
        r == if reopen {
            base | o_append | o_rdwr
        } else {
            base | o_trunc | o_rdwr
        },
{
    if reopen {
        base | o_append | o_rdwr
    } else {
        base | o_trunc | o_rdwr
    }
}

/// A failure status with message `"<msg>: "`.
fn io_error(msg: &str) -> (r: state)
    ensures
        r.code() == code_byte(Code::kIOError),
        r.message() == joined_message(msg@, Seq::empty()),
{
    state::new(Code::kIOError, String::from_str(msg), String::new())
}

/// The status of a call that returned `rc`: a failure with `msg` when it is
/// negative, success otherwise.
fn rc_status(rc: i64, msg: &str) -> (r: state)
    ensures
        rc < 0 ==> r.code() == code_byte(Code::kIOError) && r.message() == joined_message(msg@, Seq::empty()),
        rc >= 0 ==> r.code() == code_byte(Code::kOk),
{
    if rc < 0 {
        io_error(msg)
    } else {
        state::ok()
    }
}

/// A file opened for writing, by name and descriptor.
#[derive(Debug)]
pub struct PosixWritableFile {
    filename_: String,
    use_direct_io_: bool,
    fd_: i32,
    preallocation_block_size_: usize,
    last_preallocated_block_: usize,
    filesize_: usize,
    logical_sector_size_: usize,
}

/// What a loop of positioned writes does next.
#[derive(Debug)]
pub enum PwriteStep {
    /// The write was interrupted: try again.
    Retry,
    /// The write went through: `left` bytes are left, to go at `offset`.
    Advance { left: usize, offset: usize },
    /// The write failed.
    Fail(state),
}

impl PosixWritableFile {
    /// The name of the file.
    pub closed spec fn filename(&self) -> Seq<char> {
        self.filename_@
    }

    /// The descriptor of the file.
    pub closed spec fn fd(&self) -> i32 {
        self.fd_
    }

    /// The size written so far.
    pub closed spec fn size(&self) -> usize {
        self.filesize_
    }

    /// The block size of preallocation (0: none).
    pub closed spec fn preallocation_block_size(&self) -> usize {
        self.preallocation_block_size_
    }

    /// The number of blocks preallocated so far.
    pub closed spec fn last_preallocated_block(&self) -> usize {
        self.last_preallocated_block_
    }

    /// The logical sector size.
    pub closed spec fn sector_size(&self) -> usize {
        self.logical_sector_size_
    }

    /// Whether the file was opened for direct I/O.
    pub closed spec fn direct(&self) -> bool {
        self.use_direct_io_
    }

    /// A file `filename` just opened as `fd`, for direct I/O, empty, with
    /// nothing preallocated.
    pub fn opened(filename: String, fd: i32, preallocation_block_size: usize) -> (r: PosixWritableFile)
        ensures
            r.filename() == filename@,
            r.fd() == fd,
            r.direct(),
            r.size() == 0,
            r.preallocation_block_size() == preallocation_block_size,
            r.last_preallocated_block() == 0,
            r.sector_size() == k_default_page_size,
    {
        PosixWritableFile {
            filename_: filename,
            use_direct_io_: true,
            fd_: fd,
            preallocation_block_size_: preallocation_block_size,
            last_preallocated_block_: 0,
            filesize_: 0,
            logical_sector_size_: get_logical_buffer_size(),
        }
    }

    /// The descriptor of the file.
    pub fn get_fd(&self) -> (r: i32)
        ensures
            r == self.fd(),
    {
        self.fd_
    }

    /// The size written so far.
    pub fn file_size(&self) -> (r: usize)
        ensures
            r == self.size(),
    {
        self.filesize_
    }

    /// The block size of preallocation (0: none).
    pub fn get_preallocation_block_size(&self) -> (r: usize)
        ensures
            r == self.preallocation_block_size(),
    {
        self.preallocation_block_size_
    }

    /// The outcome of appending `len` bytes when the write returned
    /// `written`: a failure when it is negative, otherwise success, with the
    /// size grown by `len`.
    pub fn finish_append(&mut self, written: isize, len: usize) -> (r: state)
        requires
            written >= 0 ==> old(self).size() + len <= usize::MAX,
        ensures
            written < 0 ==> r.code() == code_byte(Code::kIOError) && r.message() == joined_message(
                "cannot append"@,
                Seq::empty(),
            ) && *final(self) == *old(self),
            written >= 0 ==> r.code() == code_byte(Code::kOk) && final(self).size() == old(self).size()
                + len,
            final(self).fd() == old(self).fd(),
            final(self).direct() == old(self).direct(),
            final(self).preallocation_block_size() == old(self).preallocation_block_size(),
            final(self).last_preallocated_block() == old(self).last_preallocated_block(),
    {
        if written < 0 {
            return io_error("cannot append");
        }
        self.filesize_ = self.filesize_ + len;
        state::ok()
    }

    /// The outcome of a sync that returned `rc`.
    pub fn sync_result(rc: i32) -> (r: state)
        ensures
            rc < 0 ==> r.code() == code_byte(Code::kIOError) && r.message() == joined_message(
                "cannot sync"@,
                Seq::empty(),
            ),
            rc >= 0 ==> r.code() == code_byte(Code::kOk),
    {
        rc_status(rc as i64, "cannot sync")
    }

    /// The outcome of a close that returned `rc`.
    pub fn close_result(rc: i32) -> (r: state)
        ensures
            rc < 0 ==> r.code() == code_byte(Code::kIOError) && r.message() == joined_message(
                "cannot close"@,
                Seq::empty(),
            ),
            rc >= 0 ==> r.code() == code_byte(Code::kOk),
    {
        rc_status(rc as i64, "cannot close")
    }

    /// The outcome of a range sync that returned `rc`.
    pub fn range_sync_result(rc: i32) -> (r: state)
        ensures
            rc < 0 ==> r.code() == code_byte(Code::kIOError) && r.message() == joined_message(
                "cannot sync_file_range"@,
                Seq::empty(),
            ),
            rc >= 0 ==> r.code() == code_byte(Code::kOk),
    {
        rc_status(rc as i64, "cannot sync_file_range")
    }

    /// The outcome of a preallocation that returned `rc`.
    pub fn allocate_result(rc: i32) -> (r: state)
        ensures
            rc < 0 ==> r.code() == code_byte(Code::kIOError) && r.message() == joined_message(
                "cannot allocate"@,
                Seq::empty(),
            ),
            rc >= 0 ==> r.code() == code_byte(Code::kOk),
    {
        rc_status(rc as i64, "cannot allocate")
    }

    /// Before writing `len` bytes at `offset`: with preallocation, the range
    /// `(offset, length)` to preallocate when the write reaches past the
    /// blocks preallocated so far, which then cover it.
    pub fn prepare_write(&mut self, offset: usize, len: usize) -> (r: Option<(i64, i64)>)
        requires
            offset + len + old(self).preallocation_block_size() <= usize::MAX,
        ensures
            final(self).fd() == old(self).fd(),
            final(self).size() == old(self).size(),
            final(self).direct() == old(self).direct(),
            final(self).preallocation_block_size() == old(self).preallocation_block_size(),
            ({
                let bs = old(self).preallocation_block_size() as int;
                let last = old(self).last_preallocated_block() as int;
                let new_last = if bs == 0 { 0 } else { (offset + len + bs - 1) / bs };
                if bs == 0 || new_last <= last {
                    r is None && final(self).last_preallocated_block() == last
                } else {
                    &&& r matches Some((o, l)) && o == (bs * last) as i64 && l == (bs * (new_last
                        - last)) as i64
                    &&& final(self).last_preallocated_block() == new_last
                }
            }),
    {
        if self.preallocation_block_size_ == 0 {
            return None;
        }
        let block_size = self.preallocation_block_size_;
        let new_last_preallocated_block = (offset + len + block_size - 1) / block_size;
        if new_last_preallocated_block > self.last_preallocated_block_ {
            let num_spanned_blocks = new_last_preallocated_block - self.last_preallocated_block_;
            proof {
                let n = offset + len + block_size - 1;
                vstd::arithmetic::div_mod::lemma_fundamental_div_mod(n as int, block_size as int);
                vstd::arithmetic::mul::lemma_mul_inequality(
                    self.last_preallocated_block_ as int,
                    new_last_preallocated_block as int,
                    block_size as int,
                );
                vstd::arithmetic::mul::lemma_mul_inequality(
                    num_spanned_blocks as int,
                    new_last_preallocated_block as int,
                    block_size as int,
                );
                vstd::arithmetic::mul::lemma_mul_is_commutative(block_size as int, new_last_preallocated_block as int);
                vstd::arithmetic::mul::lemma_mul_is_commutative(block_size as int, num_spanned_blocks as int);
                vstd::arithmetic::mul::lemma_mul_is_commutative(block_size as int, self.last_preallocated_block_ as int);
            }
            let start = (block_size * self.last_preallocated_block_) as i64;
            let length = (block_size * num_spanned_blocks) as i64;
            self.last_preallocated_block_ = new_last_preallocated_block;
            return Some((start, length));
        }
        None
    }

    /// The flush of a file that buffers nothing: success.
    pub fn flush(&self) -> (r: state)
        ensures
            r.code() == code_byte(Code::kOk),
    {
        state::ok()
    }

    /// Whether the file was opened for direct I/O.
    pub fn use_direct_io(&self) -> (r: bool)
        ensures
            r == self.direct(),
    {
        self.use_direct_io_
    }

    /// Whether a status query that returned `rc` found the file open.
    pub fn fcntl_result(rc: i32) -> (r: bool)
        ensures
            r == (rc != -1),
    {
        rc != -1
    }

    /// The outcome of truncating to `size` when the call returned `rc`; on
    /// success the size becomes `size`.
    pub fn finish_truncate(&mut self, rc: i32, size: usize) -> (r: state)
        ensures
            rc < 0 ==> r.code() == code_byte(Code::kIOError) && r.message() == joined_message(
                "cannot truncate"@,
                Seq::empty(),
            ) && *final(self) == *old(self),
            rc >= 0 ==> r.code() == code_byte(Code::kOk) && final(self).size() == size,
            final(self).fd() == old(self).fd(),
            final(self).direct() == old(self).direct(),
            final(self).preallocation_block_size() == old(self).preallocation_block_size(),
            final(self).last_preallocated_block() == old(self).last_preallocated_block(),
    {
        if rc < 0 {
            return io_error("cannot truncate");
        }
        self.filesize_ = size;
        state::ok()
    }

    /// The alignment direct I/O needs: the logical sector size.
    pub fn get_required_buffer_alignment(&self) -> (r: usize)
        ensures
            r == self.sector_size(),
    {
        self.logical_sector_size_
    }

    /// After a positioned write of `left` bytes at `offset` returned `done`
    /// (`interrupted`: the call was interrupted by a signal): try again on
    /// an interrupted failure, fail on another, and otherwise go on with the
    /// rest.
    pub fn pwrite_step(left: usize, offset: usize, done: isize, interrupted: bool) -> (r: PwriteStep)
        requires
            done <= left,
            done >= 1 ==> offset + done <= usize::MAX,
        ensures
            done < 1 && interrupted ==> r is Retry,
            done < 1 && !interrupted ==> (r matches PwriteStep::Fail(s) && s.code() == code_byte(
                Code::kIOError,
            ) && exists|num: String|
                to_string_from_display_ensures::<usize>(&offset, num) && s.message()
                    == joined_message("While pwrite to file at offset "@ + num@, Seq::empty())),
            done >= 1 ==> r == (PwriteStep::Advance {
                left: (left - done) as usize,
                offset: (offset + done) as usize,
            }),
    {
        if done < 1 {
            if interrupted {
                return PwriteStep::Retry;
            }
            let mut msg = String::from_str("While pwrite to file at offset ");
            let num = offset.to_string();
            msg.append(num.as_str());
            return PwriteStep::Fail(state::new(Code::kIOError, msg, String::new()));
        }
        PwriteStep::Advance { left: left - done as usize, offset: offset + done as usize }
    }

    /// After all positioned writes went through, ending at `offset`: the
    /// size becomes `offset`.
    pub fn finish_positioned_append(&mut self, offset: usize) -> (r: state)
        ensures
            r.code() == code_byte(Code::kOk),
            final(self).size() == offset,
            final(self).fd() == old(self).fd(),
            final(self).direct() == old(self).direct(),
            final(self).preallocation_block_size() == old(self).preallocation_block_size(),
            final(self).last_preallocated_block() == old(self).last_preallocated_block(),
    {
        self.filesize_ = offset;
        state::ok()
    }
}

/// Whether a sequential open that returned `fd` (`interrupted`: the call
/// was interrupted by a signal) is tried again.
pub fn sequential_open_retry(fd: i32, interrupted: bool) -> (r: bool)
    ensures
        r == (fd < 0 && interrupted),
{
    fd < 0 && interrupted
}

/// The outcome of a sequential open that returned `fd`.
pub fn sequential_open_result(fd: i32) -> (r: state)
    ensures
        fd < 0 ==> r.code() == code_byte(Code::kIOError) && r.message() == joined_message(
            "While opening a file for sequentially reading"@,
            Seq::empty(),
        ),
        fd >= 0 ==> r.code() == code_byte(Code::kOk),
{
    rc_status(fd as i64, "While opening a file for sequentially reading")
}

/// The outcome of a skip of `n` bytes whose seek returned `rc`: a failure
/// when it is positive.
pub fn skip_result(rc: i32, n: i64) -> (r: state)
    ensures
        rc > 0 ==> r.code() == code_byte(Code::kIOError) && exists|num: String|
            to_string_from_display_ensures::<i64>(&n, num) && r.message() == joined_message(
                "While fseek to skip "@ + num@ + " bytes"@,
                Seq::empty(),
            ),
        rc <= 0 ==> r.code() == code_byte(Code::kOk),
{
    if rc > 0 {
        let mut msg = String::from_str("While fseek to skip ");
        let num = n.to_string();
        msg.append(num.as_str());
        msg.append(" bytes");
        return state::new(Code::kIOError, msg, String::new());
    }
    state::ok()
}

/// The outcome of reading `n` bytes when `r` were read and `at_eof` tells
/// whether the end of the file was met: a short read is fine at the end of
/// the file (whose error indicator is then cleared: the second result) and a
/// failure otherwise.
pub fn read_result(r: usize, n: usize, at_eof: bool) -> (res: (state, bool))
    ensures
        r >= n ==> res.0.code() == code_byte(Code::kOk) && !res.1,
        r < n && at_eof ==> res.0.code() == code_byte(Code::kOk) && res.1,
        r < n && !at_eof ==> res.0.code() == code_byte(Code::kIOError) && res.0.message()
            == joined_message("While reading file sequentially"@, Seq::empty()) && !res.1,
{
    if r < n {
        if at_eof {
            return (state::ok(), true);
        } else {
            return (io_error("While reading file sequentially"), false);
        }
    }
    (state::ok(), false)
}

/// A file opened for reading from front to back: its name, descriptor,
/// whether it reads with direct I/O, and its logical sector size. (The
/// stream the program reads it through is kept beside it.)
#[derive(Debug)]
pub struct PosixSequentialFile {
    filename_: String,
    fd_: i32,
    use_direct_io_: bool,
    logical_sector_size_: usize,
}

impl PosixSequentialFile {
    /// The name of the file.
    pub closed spec fn filename(&self) -> Seq<char> {
        self.filename_@
    }

    /// The descriptor of the file.
    pub closed spec fn fd(&self) -> i32 {
        self.fd_
    }

    /// Whether the file reads with direct I/O.
    pub closed spec fn direct(&self) -> bool {
        self.use_direct_io_
    }

    /// The logical sector size.
    pub closed spec fn sector_size(&self) -> usize {
        self.logical_sector_size_
    }

    /// A file that reads nothing yet: no name, descriptor -1.
    pub fn closed() -> (r: PosixSequentialFile)
        ensures
            r.filename() == Seq::<char>::empty(),
            r.fd() == -1,
            !r.direct(),
            r.sector_size() == 0,
    {
        PosixSequentialFile {
            filename_: String::new(),
            fd_: -1,
            use_direct_io_: false,
            logical_sector_size_: 0,
        }
    }

    /// The file `filename` just opened as `fd`: marked for direct I/O, with
    /// the default page size as its sector size.
    pub fn opened(filename: String, fd: i32) -> (r: PosixSequentialFile)
        ensures
            r.filename() == filename@,
            r.fd() == fd,
            r.direct(),
            r.sector_size() == k_default_page_size,
    {
        PosixSequentialFile {
            filename_: filename,
            fd_: fd,
            use_direct_io_: true,
            logical_sector_size_: get_logical_buffer_size(),
        }
    }

    /// The descriptor of the file.
    pub fn get_fd(&self) -> (r: i32)
        ensures
            r == self.fd(),
    {
        self.fd_
    }

    /// Whether the file reads with direct I/O.
    pub fn use_direct_io(&self) -> (r: bool)
        ensures
            r == self.direct(),
    {
        self.use_direct_io_
    }

    /// Whether the options ask for direct reads (and not for mmap reads);
    /// otherwise the file is read through a stream.
    pub fn wants_direct_reads(options: &EnvOptions) -> (r: bool)
        ensures
            r == (options.use_direct_reads && !options.use_mmap_reads),
    {
        options.use_direct_reads && !options.use_mmap_reads
    }

    /// The outcome of opening the stream on the descriptor (`opened`: it
    /// was opened).
    pub fn stream_open_result(opened: bool) -> (r: state)
        ensures
            !opened ==> r.code() == code_byte(Code::kIOError) && r.message() == joined_message(
                "While opening a file for sequentially read"@,
                Seq::empty(),
            ),
            opened ==> r.code() == code_byte(Code::kOk),
    {
        if opened {
            state::ok()
        } else {
            io_error("While opening a file for sequentially read")
        }
    }
}

} // verus!
