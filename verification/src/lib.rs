//! A write-ahead log of checksummed records cut into 32 KiB blocks, with the small
//! utilities that surround it, verified with Verus.
#![allow(non_snake_case)]
#![allow(non_camel_case_types)]
#![allow(non_upper_case_globals)]

pub mod coding;
pub mod crc;
pub mod status;
pub mod aligned_buffer;
pub mod env;
pub mod file;
pub mod file_reader_writer;
pub mod log_format;
pub mod log_write;
pub mod log_reader;
pub mod log_replay;
pub mod primes;
pub mod routes;
pub mod number;
pub mod futures_demo;
pub mod simd;
pub mod escape;
pub mod posix;
pub mod thread_tag;
pub mod frame;
pub mod memory;
