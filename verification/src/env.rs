//! Options for opening files and recovering logs.
use vstd::prelude::*;

verus! {

/// How strictly a log reader treats damage in the log.
#[derive(Clone, Copy, Debug, PartialEq, Eq, Structural)]
pub enum WALRecoveryMode {
    /// Tolerate an incomplete record in the trailing data of any log.
    kTolerateCorruptedTailRecords,
    /// Expect no damage at all: the log was closed cleanly.
    kAbsoluteConsistency,
    /// Stop replaying at the first inconsistency.
    kPointInTimeRecovery,
    /// Skip every damaged record and salvage as much as possible.
    kSkipAnyCorruptedRecords,
}

/// Options for the files a log is written to and read from.
#[derive(Debug, Clone)]
pub struct EnvOptions {
    /// Read with mmap.
    pub use_mmap_reads: bool,
    /// Write with mmap.
    pub use_mmap_writes: bool,
    /// Read with O_DIRECT.
    pub use_direct_reads: bool,
    /// Write with O_DIRECT.
    pub use_direct_writes: bool,
    /// Whether fallocate is called at all.
    pub allow_fallocate: bool,
    /// Set FD_CLOEXEC on opened descriptors.
    pub set_fd_cloexec: bool,
    /// Preallocate with FALLOC_FL_KEEP_SIZE, so the file size does not change.
    pub fallocate_with_keep_size: bool,
    /// The largest buffer a file writer grows to.
    pub writable_file_max_buffer_size: usize,
    /// Sync the OS cache to disk every this many bytes (0: never).
    pub bytes_per_sync: usize,
}

impl Default for EnvOptions {
    /// Buffered mmap-free reads, direct writes, a 1 MiB write buffer.
    fn default() -> (r: EnvOptions)
        ensures
            r.use_mmap_reads == false,
            r.use_mmap_writes == true,
            r.use_direct_reads == false,
            r.use_direct_writes == true,
            r.allow_fallocate == true,
            r.set_fd_cloexec == true,
            r.fallocate_with_keep_size == true,
            r.writable_file_max_buffer_size == 1024 * 1024,
            r.bytes_per_sync == 0,
    {
        EnvOptions {
            use_mmap_reads: false,
            use_mmap_writes: true,
            use_direct_reads: false,
            use_direct_writes: true,
            allow_fallocate: true,
            set_fd_cloexec: true,
            fallocate_with_keep_size: true,
            writable_file_max_buffer_size: 1024 * 1024,
            bytes_per_sync: 0,
        }
    }
}

} // verus!
