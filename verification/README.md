# wal

A write-ahead log of checksummed records cut into 32 KiB blocks, verified
with Verus, together with the small utilities that live around it.

- `src/` is the verified library. The log writer (`log_write`) cuts records
  into fragments that never cross a 32 KiB block (`log_format`) and hands
  them to a buffered file writer (`file_reader_writer`, over
  `aligned_buffer`); the log reader (`log_reader`) puts the records back
  together, in one of four recovery modes. `log_replay` proves, of the
  model of reading (`read_record_from` over block reads), that a reader
  given the blocks of a log returns the records that were written, in
  order, from the start or from an initial offset; `Reader::readRecord` is
  proved to follow that model on the blocks it read, and the log writer
  and file writer are proved to hand on every byte of a record that fits
  in the buffer. Each block the reader reads is one read of a whole block
  of the file, recorded with its outcome; that those are the bytes that
  reached the file rests on the file implementations, outside the
  library. The file traits (`file`) are
  implemented outside the library; `posix` holds the decisions of the POSIX
  files (what a system call's result means). CRC-32 (`crc`) is computed a
  bit at a time and proved against its definition; compression comes from
  `zstd` (`frame`), behind a small trusted wrapper whose contract says what
  the library relies on.
- `tests/` runs the library, with files kept in memory.
- `app/` is the program: the POSIX files themselves (system calls through
  `libc`), futures driven by the library's poll decisions, a thread pool,
  and the other small programs, one per subcommand.

The GIF frame and resizing programs are not part of this crate. They are
built on image decoding and resizing libraries (`gif`, `resize`, OpenCV
bindings) that this crate does not depend on; their own logic (sizing and
bounding the copy of a decoded frame) stands or falls with those
libraries' types.
