use wal::aligned_buffer::{round_up, truncate_to_page_boundary, zeroed, Rounddown};
use wal::coding::{DecodeFixed32, DecodeFixed64, EncodeFixed32, EncodeFixed64};
use wal::env::EnvOptions;
use wal::escape::escape;
use wal::frame::{compress_frame, decode_frame, encode_frame, frame_of_compressed};
use wal::futures_demo::{add_one_poll, my_fn, my_fn_squared, run_stops, Async, MyFuture};
use wal::log_format::{record_type_byte, RecordType};
use wal::log_reader::{outcome_code_of, RecordType as ReadOutcome};
use wal::number::Number;
use wal::posix::{
    get_logical_buffer_size, read_result, sequential_open_result, sequential_open_retry,
    skip_result, writable_open_flags, IsSectorAligned, PosixSequentialFile, PosixWritableFile, PwriteStep,
    SetFD_CLOEXEC_wanted,
};
use wal::primes::{is_prime, BIG_PRIME};
use wal::routes::{hello, hello2};
use wal::simd::{byte_match_mask, sum_portable, sum_sse2};
use wal::status::{code_to_byte, state, Code};
use wal::memory::copy_memory;
use wal::thread_tag::get_tag_from_thread_name;

#[test]
fn fixed32_round_trip() {
    assert_eq!(EncodeFixed32(0x0403_0201), [1, 2, 3, 4]);
    assert_eq!(DecodeFixed32([1, 2, 3, 4]), 0x0403_0201);
    for x in [0u32, 1, 255, 256, 0xdead_beef, u32::MAX] {
        assert_eq!(DecodeFixed32(EncodeFixed32(x)), x);
    }
}

#[test]
fn fixed64_encoding_and_nibble_fold() {
    assert_eq!(EncodeFixed64(0x0807_0605_0403_0201), [1, 2, 3, 4, 5, 6, 7, 8]);
    assert_eq!(DecodeFixed64([1, 0, 0, 0, 0, 0, 0, 0]), 1u64 << 32);
    assert_eq!(DecodeFixed64([0, 0, 0, 0, 0, 0, 0, 1]), 16);
    assert_eq!(DecodeFixed64(EncodeFixed64(1)), 1u64 << 32);
}

#[test]
fn page_arithmetic() {
    assert_eq!(truncate_to_page_boundary(4096, 10000), 8192);
    assert_eq!(truncate_to_page_boundary(4, 7), 4);
    assert_eq!(round_up(5, 4), 8);
    assert_eq!(round_up(8, 4), 8);
    assert_eq!(Rounddown(13, 4), 12);
    assert_eq!(zeroed(3), vec![0, 0, 0]);
}

#[test]
fn escape_renders_bytes_printably() {
    assert_eq!(escape(b"abc"), "abc");
    assert_eq!(escape(b"a\n\r\t\"\\"), "a\\n\\r\\t\\\"\\\\");
    assert_eq!(escape(&[0x01, 0xff, 0x7f]), "\\001\\377\\177");
    assert_eq!(escape(&[]), "");
}

#[test]
fn primes() {
    assert!(is_prime(BIG_PRIME));
    assert!(is_prime(2));
    assert!(is_prime(97));
    assert!(!is_prime(91));
    assert!(!is_prime(BIG_PRIME - 2));
    assert!(!is_prime(1));
    assert!(!is_prime(0));
    assert!(!is_prime(4));
}

#[test]
fn lane_sums() {
    assert_eq!(sum_portable([1, 2, 3, 4]), 10);
    assert_eq!(sum_sse2([1, 2, 3, 4]), 10);
    assert_eq!(sum_sse2([-5, 7, 11, -13]), sum_portable([-5, 7, 11, -13]));
    assert_eq!(sum_sse2([i32::MAX, 1, 0, 0]), i32::MIN);
}

#[test]
fn my_future_is_ready_after_three_polls() {
    let mut f = MyFuture::default();
    assert_eq!(f.poll(), Ok(Async::NotReady));
    assert_eq!(f.poll(), Ok(Async::NotReady));
    assert_eq!(f.poll(), Ok(Async::NotReady));
    assert_eq!(f.poll(), Ok(Async::Ready(3)));
    assert_eq!(f.poll(), Ok(Async::Ready(3)));
    assert_eq!(f.count, 3);
}

#[test]
fn add_one_and_the_run_loop() {
    assert_eq!(add_one_poll(Ok(Async::Ready(3))), (Ok(Async::Ready(())), Some(4)));
    assert_eq!(add_one_poll(Ok(Async::NotReady)), (Ok(Async::NotReady), None));
    assert_eq!(add_one_poll(Err(())), (Err(()), None));
    assert!(run_stops(&Ok(Async::Ready(()))));
    assert!(!run_stops(&Ok(Async::NotReady)));
    assert!(run_stops(&Err(())));
}

#[test]
fn future_computations() {
    assert_eq!(*my_fn().as_ref().unwrap(), 100);
    assert_eq!(*my_fn_squared(7).as_ref().unwrap(), 49);
    assert_eq!(*my_fn_squared(100).as_ref().unwrap(), 10000);
}

#[test]
fn number_from_i32() {
    let n = Number::from(30);
    assert_eq!(n.value, 30);
    let m: Number = (-4).into();
    assert_eq!(m.value, -4);
}

#[test]
fn route_responses() {
    assert_eq!(hello(), "Hello, world!");
    assert_eq!(hello2(), "Hello, world~~!");
}

#[test]
fn status_codes_and_messages() {
    let s = state::new(Code::kIOError, String::from("x"), String::from(""));
    assert!(!s.isOk());
    assert_eq!(state::to_string(&s), "x: ");
    assert!(state::ok().isOk());
    assert!(!state::not_supported().isOk());
    assert_eq!(code_to_byte(Code::kNotSupported), 3);
    assert_eq!(code_to_byte(Code::kIOError), 5);
    let c = s.clone();
    assert_eq!(state::to_string(&c), "x: ");
}

#[test]
fn record_type_codes() {
    assert_eq!(record_type_byte(RecordType::kZeroType), 0);
    assert_eq!(record_type_byte(RecordType::kLastType), 4);
    assert_eq!(record_type_byte(RecordType::kRecyclableLastType), 8);
    assert_eq!(outcome_code_of(ReadOutcome::kEof), 9);
    assert_eq!(outcome_code_of(ReadOutcome::kBadRecordChecksum), 14);
}

#[test]
fn env_options_default() {
    let op = EnvOptions::default();
    assert!(!op.use_mmap_reads);
    assert!(op.use_mmap_writes);
    assert!(!op.use_direct_reads);
    assert!(op.use_direct_writes);
    assert!(op.allow_fallocate);
    assert!(op.set_fd_cloexec);
    assert!(op.fallocate_with_keep_size);
    assert_eq!(op.writable_file_max_buffer_size, 1024 * 1024);
    assert_eq!(op.bytes_per_sync, 0);
}

#[test]
fn posix_decisions() {
    assert_eq!(get_logical_buffer_size(), 4096);
    assert!(IsSectorAligned(8192, 4096));
    assert!(!IsSectorAligned(100, 4096));
    let op = EnvOptions::default();
    assert!(SetFD_CLOEXEC_wanted(3, &op));
    assert!(!SetFD_CLOEXEC_wanted(-1, &op));
    assert_eq!(writable_open_flags(true, 0x40, 0x400, 0x200, 0x2), 0x442);
    assert_eq!(writable_open_flags(false, 0x40, 0x400, 0x200, 0x2), 0x242);
    assert!(sequential_open_retry(-1, true));
    assert!(!sequential_open_retry(-1, false));
    assert!(!sequential_open_retry(3, true));
    assert!(sequential_open_result(3).isOk());
    assert!(!sequential_open_result(-1).isOk());
    assert!(skip_result(0, 10).isOk());
    let s = skip_result(1, 10);
    assert_eq!(state::to_string(&s), "While fseek to skip 10 bytes: ");
    let (s, clear) = read_result(10, 10, false);
    assert!(s.isOk() && !clear);
    let (s, clear) = read_result(3, 10, true);
    assert!(s.isOk() && clear);
    let (s, clear) = read_result(3, 10, false);
    assert!(!s.isOk() && !clear);
    assert_eq!(state::to_string(&s), "While reading file sequentially: ");
}

#[test]
fn posix_writable_file_bookkeeping() {
    let mut f = PosixWritableFile::opened(String::from("log"), 5, 1024);
    assert_eq!(f.get_fd(), 5);
    assert!(f.use_direct_io());
    assert_eq!(f.get_required_buffer_alignment(), 4096);
    assert_eq!(f.prepare_write(0, 10), Some((0, 1024)));
    assert_eq!(f.prepare_write(10, 10), None);
    assert_eq!(f.prepare_write(1000, 100), Some((1024, 1024)));
    assert!(f.finish_append(10, 10).isOk());
    let s = f.finish_append(-1, 10);
    assert_eq!(state::to_string(&s), "cannot append: ");
    assert!(PosixWritableFile::sync_result(0).isOk());
    assert!(!PosixWritableFile::sync_result(-1).isOk());
    assert!(!PosixWritableFile::close_result(-1).isOk());
    assert!(!PosixWritableFile::range_sync_result(-1).isOk());
    assert!(!PosixWritableFile::allocate_result(-1).isOk());
    assert!(PosixWritableFile::fcntl_result(0));
    assert!(!PosixWritableFile::fcntl_result(-1));
    assert!(f.finish_truncate(0, 3).isOk());
    assert!(!f.finish_truncate(-1, 3).isOk());
    assert!(f.flush().isOk());
    assert!(f.finish_positioned_append(64).isOk());
    let mut none = PosixWritableFile::opened(String::from("log"), 5, 0);
    assert_eq!(none.prepare_write(0, 10), None);
}

#[test]
fn positioned_write_steps() {
    assert!(matches!(PosixWritableFile::pwrite_step(10, 0, -1, true), PwriteStep::Retry));
    match PosixWritableFile::pwrite_step(10, 20, -1, false) {
        PwriteStep::Fail(s) => {
            assert_eq!(state::to_string(&s), "While pwrite to file at offset 20: ")
        },
        _ => panic!("expected a failure"),
    }
    match PosixWritableFile::pwrite_step(10, 20, 4, false) {
        PwriteStep::Advance { left, offset } => {
            assert_eq!(left, 6);
            assert_eq!(offset, 24);
        },
        _ => panic!("expected progress"),
    }
}

#[test]
fn thread_name_tags() {
    assert_eq!(get_tag_from_thread_name(Some("a::b::c")), Some(String::from("c")));
    assert_eq!(get_tag_from_thread_name(Some("pool::worker")), Some(String::from("worker")));
    assert_eq!(get_tag_from_thread_name(Some("main")), None);
    assert_eq!(get_tag_from_thread_name(None), None);
    assert_eq!(get_tag_from_thread_name(Some("a:::b")), Some(String::from(":b")));
    assert_eq!(get_tag_from_thread_name(Some("a::")), Some(String::from("")));
}

#[test]
fn copy_memory_fills_the_front() {
    let mut dst = [9u8; 5];
    copy_memory(&[1, 2, 3], &mut dst);
    assert_eq!(dst, [1, 2, 3, 9, 9]);
    copy_memory(&[], &mut dst);
    assert_eq!(dst, [1, 2, 3, 9, 9]);
}

#[test]
fn frames_round_trip_and_detect_damage() {
    let f = encode_frame(b"abc");
    let crc = wal::crc::crc32(0, b"abc") as u64;
    let mut expected = vec![3, 0, 0, 0, 0, 0, 0, 0, b'a', b'b', b'c'];
    expected.extend_from_slice(&crc.to_le_bytes());
    assert_eq!(f, expected);
    assert_eq!(decode_frame(&f), Some(b"abc".to_vec()));
    let mut damaged = f.clone();
    damaged[9] = b'x';
    assert_eq!(decode_frame(&damaged), None);
    assert_eq!(decode_frame(&f[..f.len() - 1]), None);
    assert_eq!(decode_frame(&[]), None);
    assert_eq!(decode_frame(&encode_frame(&[])), Some(vec![]));
}

#[test]
fn compressed_frame_holds_zstd_output() {
    let input = b"aaaaaaaaaaaa";
    let framed = compress_frame(input, 5).expect("compression works");
    let payload = decode_frame(&framed).expect("frame checks");
    assert_ne!(payload, input.to_vec());
    assert_eq!(zstd::bulk::decompress(&payload, 100).unwrap(), input.to_vec());
}

#[test]
fn byte_match_masks() {
    let lanes: [i8; 16] = [8, 12, 43, 5, 6, 4, 3, 44, 35, 74, 37, 35, 19, 74, 69, 54];
    assert_eq!(byte_match_mask(lanes, 8), 1);
    assert_eq!(byte_match_mask(lanes, 35), 256 + 2048);
    assert_eq!(byte_match_mask(lanes, 74), 512 + 8192);
    assert_eq!(byte_match_mask(lanes, 100), 0);
    assert_eq!(byte_match_mask([7; 16], 7), 0xffff);
}

#[test]
fn posix_sequential_file_bookkeeping() {
    let f = PosixSequentialFile::closed();
    assert_eq!(f.get_fd(), -1);
    assert!(!f.use_direct_io());
    let g = PosixSequentialFile::opened(String::from("log"), 4);
    assert_eq!(g.get_fd(), 4);
    assert!(g.use_direct_io());
    let mut op = EnvOptions::default();
    assert!(!PosixSequentialFile::wants_direct_reads(&op));
    op.use_direct_reads = true;
    assert!(PosixSequentialFile::wants_direct_reads(&op));
    op.use_mmap_reads = true;
    assert!(!PosixSequentialFile::wants_direct_reads(&op));
    assert!(PosixSequentialFile::stream_open_result(true).isOk());
    let s = PosixSequentialFile::stream_open_result(false);
    assert_eq!(state::to_string(&s), "While opening a file for sequentially read: ");
}

#[test]
fn frame_of_compressed_frames_success_and_drops_failure() {
    let framed = frame_of_compressed(Ok(b"xyz".to_vec())).expect("compression succeeded");
    assert_eq!(framed, encode_frame(b"xyz"));
    assert_eq!(decode_frame(&framed), Some(b"xyz".to_vec()));
    let failed = frame_of_compressed(Err(std::io::Error::new(std::io::ErrorKind::Other, "no room")));
    assert_eq!(failed, None);
}

#[test]
fn escape_of_concatenation_is_concatenation_of_escapes() {
    let a: Vec<u8> = vec![0x78, 0x0a, 0x02];
    let b: Vec<u8> = vec![0x22, 0x79, 0xfe];
    let mut ab = a.clone();
    ab.extend_from_slice(&b);
    assert_eq!(escape(&ab), format!("{}{}", escape(&a), escape(&b)));
    assert_eq!(escape(&ab), r#"x\n\002\"y\376"#);
}

#[test]
fn escape_tells_inputs_apart() {
    assert_ne!(escape(&[0x5c, 0x6e]), escape(&[0x0a]));
    assert_ne!(escape(&[0x0a]), escape(&[0x6e]));
    assert_eq!(escape(&[0x5c, 0x6e]), r"\\n");
    assert_eq!(escape(&[0x0a]), r"\n");
}
