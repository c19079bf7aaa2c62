//! The files a log is written to and read from.
use vstd::prelude::*;
use crate::env::EnvOptions;
use crate::status::{Code, code_byte, joined_message, state};

verus! {

/// A file written sequentially, or at given offsets when it is opened for
/// direct I/O.
pub trait WritableFile: Sized {
    /// Whether writes bypass the operating system's cache.
    spec fn direct_io(&self) -> bool;

    /// Opens `filename`, appending to it when `reopen` holds and truncating
    /// it otherwise.
    fn new(filename: String, reopen: bool, preallocation_block_size: usize) -> Self;

    /// Appends `data` at the end of the file.
    fn append(&mut self, data: Vec<u8>) -> (r: state)
        ensures
            final(self).direct_io() == old(self).direct_io(),
    ;

    /// Syncs the file to disk.
    fn sync(&self) -> state;

    /// Closes the file.
    fn close(&self) -> state;

    /// Flushes what the file buffers.
    fn flush(&self) -> state;

    /// Whether the file is still open.
    fn fcntl(&self) -> bool;

    /// Truncates the file to `size` bytes.
    fn truncate(&mut self, size: usize) -> (r: state)
        ensures
            final(self).direct_io() == old(self).direct_io(),
    ;

    /// The alignment that direct I/O buffers need.
    fn get_required_buffer_alignment(&self) -> usize;

    /// Syncs `nbytes` bytes from `offset` to disk.
    fn range_sync(&self, offset: i64, nbytes: i64) -> state;

    /// Preallocates `len` bytes from `offset`; a file that does not
    /// preallocate reports success.
    fn allocate(&self, offset: i64, len: i64) -> (r: state)
        default_ensures
            r.code() == code_byte(Code::kOk),
            r.message() == joined_message(Seq::empty(), Seq::empty()),
    {
        state::ok()
    }

    /// Prepares for a write of `len` bytes at `offset`.
    fn prepare_write(&mut self, offset: usize, len: usize)
        ensures
            final(self).direct_io() == old(self).direct_io(),
    {
    }

    /// Writes `data` at `offset`; a file that cannot reports that the
    /// operation is not supported.
    fn positioned_append(&mut self, data: Vec<u8>, offset: usize) -> (r: state)
        ensures
            final(self).direct_io() == old(self).direct_io(),
        default_ensures
            r.code() == code_byte(Code::kNotSupported),
            r.message() == joined_message(Seq::empty(), Seq::empty()),
    {
        state::not_supported()
    }

    /// Syncs the file to disk, metadata included; by default, as `sync`.
    fn fsync(&self) -> (r: state)
        default_ensures
            call_ensures(Self::sync, (self,), r),
    {
        self.sync()
    }

    /// The size of the file; by default 0.
    fn get_file_size(&self) -> (r: usize)
        default_ensures
            r == 0,
    {
        0
    }

    /// Whether writes bypass the operating system's cache.
    fn use_direct_io(&self) -> (r: bool)
        ensures
            r == self.direct_io(),
    ;
}

/// A file read from front to back.
pub trait SequentialFile: Sized {
    /// Opens `filename` for reading into `*ptr`.
    fn new(filename: String, options: EnvOptions, ptr: &mut Self) -> state;

    /// Skips `n` bytes.
    fn Skip(&self, n: i64) -> state;

    /// Reads up to `n` bytes into `result`, with `scratch` as room to read into.
    fn Read(&mut self, n: usize, result: &mut Vec<u8>, scratch: &mut Vec<u8>) -> state;

    /// Whether reads bypass the operating system's cache; by default not.
    fn use_direct_io(&self) -> (r: bool)
        default_ensures
            !r,
    {
        false
    }
}

} // verus!
