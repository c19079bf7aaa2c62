use std::cell::{Cell, RefCell};
use std::rc::Rc;

use wal::aligned_buffer::AlignedBuffer;
use wal::crc::crc32;
use wal::env::{EnvOptions, WALRecoveryMode};
use wal::file::{SequentialFile, WritableFile};
use wal::file_reader_writer::{SequentialFileReader, WritableFileWriter};
use wal::log_reader::Reader;
use wal::log_write::Write;
use wal::status::{state, Code};

/// A file held in memory, shared between the writer and the reader of a test.
#[derive(Debug)]
struct MemFile {
    data: Rc<RefCell<Vec<u8>>>,
    direct: bool,
    open: bool,
    fail_flush: bool,
}

impl MemFile {
    fn on(data: &Rc<RefCell<Vec<u8>>>) -> MemFile {
        MemFile { data: data.clone(), direct: true, open: true, fail_flush: false }
    }
}

impl WritableFile for MemFile {
    fn direct_io(&self) -> bool {
        self.direct
    }

    fn new(_filename: String, _reopen: bool, _preallocation_block_size: usize) -> Self {
        MemFile { data: Rc::new(RefCell::new(Vec::new())), direct: true, open: true, fail_flush: false }
    }

    fn append(&mut self, data: Vec<u8>) -> state {
        self.data.borrow_mut().extend_from_slice(&data);
        state::ok()
    }

    fn sync(&self) -> state {
        state::ok()
    }

    fn close(&self) -> state {
        state::ok()
    }

    fn flush(&self) -> state {
        if self.fail_flush {
            state::new(Code::kIOError, String::from("flush failed"), String::new())
        } else {
            state::ok()
        }
    }

    fn fcntl(&self) -> bool {
        self.open
    }

    fn truncate(&mut self, size: usize) -> state {
        self.data.borrow_mut().resize(size, 0);
        state::ok()
    }

    fn get_required_buffer_alignment(&self) -> usize {
        4
    }

    fn range_sync(&self, _offset: i64, _nbytes: i64) -> state {
        state::ok()
    }

    fn positioned_append(&mut self, data: Vec<u8>, offset: usize) -> state {
        let mut d = self.data.borrow_mut();
        if d.len() < offset + data.len() {
            d.resize(offset + data.len(), 0);
        }
        d[offset..offset + data.len()].copy_from_slice(&data);
        state::ok()
    }

    fn use_direct_io(&self) -> bool {
        self.direct
    }
}

/// Reads a shared in-memory file from front to back.
#[derive(Debug)]
struct MemReadFile {
    data: Rc<RefCell<Vec<u8>>>,
    pos: Cell<usize>,
}

impl SequentialFile for MemReadFile {
    fn new(_filename: String, _options: EnvOptions, ptr: &mut Self) -> state {
        ptr.pos.set(0);
        state::ok()
    }

    fn Skip(&self, n: i64) -> state {
        self.pos.set(self.pos.get() + n as usize);
        state::ok()
    }

    fn Read(&mut self, n: usize, result: &mut Vec<u8>, _scratch: &mut Vec<u8>) -> state {
        let d = self.data.borrow();
        let start = if self.pos.get() < d.len() { self.pos.get() } else { d.len() };
        let end = if start + n < d.len() { start + n } else { d.len() };
        result.clear();
        result.extend_from_slice(&d[start..end]);
        self.pos.set(end);
        state::ok()
    }
}

fn write_log(data: &Rc<RefCell<Vec<u8>>>, records: &[Vec<u8>], log_number: u64, recycle: bool) {
    let mut op: EnvOptions = EnvOptions::default();
    op.writable_file_max_buffer_size = 50;
    let writer = WritableFileWriter::new(MemFile::on(data), op);
    let mut wal = Write::new(writer, log_number, recycle, true);
    for r in records {
        assert!(wal.add_record(r.clone()).isOk());
    }
    assert!(wal.close().isOk());
}

fn reader_on(data: &Rc<RefCell<Vec<u8>>>, log_number: u64, checksum: bool) -> Reader<MemReadFile> {
    reader_from(data, 0, log_number, checksum)
}

fn reader_from(
    data: &Rc<RefCell<Vec<u8>>>,
    initial_offset: u64,
    log_number: u64,
    checksum: bool,
) -> Reader<MemReadFile> {
    let sf = SequentialFileReader::new(MemReadFile { data: data.clone(), pos: Cell::new(0) });
    Reader::new(sf, initial_offset, log_number, checksum)
}

fn read_all(reader: &mut Reader<MemReadFile>, mode: WALRecoveryMode) -> Vec<Vec<u8>> {
    let mut out = Vec::new();
    let mut record: Vec<u8> = Vec::new();
    let mut scratch: Vec<u8> = Vec::new();
    while reader.readRecord(&mut record, &mut scratch, mode) {
        out.push(record.clone());
    }
    out
}

#[test]
fn test_state() {
    let s = state::new(Code::kOk, String::from("a"), String::from("b"));
    assert_eq!(true, s.isOk());
    assert_eq!(&String::from("a: b"), state::to_string(&s))
}

#[test]
fn test_aligned_buffer() {
    let mut buf: AlignedBuffer = Default::default();
    buf.alignment(4);
    buf.allocate_new_buffer(16, false);
    let appended = buf.append(String::from("abc").into_bytes());
    let result = buf.read(0, appended);
    assert_eq!(result.len(), 3);
    assert_eq!(String::from_utf8(result).unwrap(), String::from("abc"));
}

#[test]
fn test_wal() {
    let file: Rc<RefCell<Vec<u8>>> = Rc::new(RefCell::new(Vec::new()));
    {
        let fd = MemFile::on(&file);
        let mut op: EnvOptions = EnvOptions::default();
        op.writable_file_max_buffer_size = 50;
        let writer = WritableFileWriter::new(fd, op);
        let mut wal = Write::new(writer, 0, false, true);

        let input = vec![1, 2, 3];
        wal.add_record(input);
        let input = vec![1, 2, 3, 4, 5, 6, 7, 8, 9, 10];
        wal.add_record(input);
        let input = vec![1, 2, 3];
        wal.add_record(input);
        let input = vec![1, 2];
        wal.add_record(input);
        wal.close();
    }
    println!("test wal crc {:?}", crc32(0, &[1, 1, 2, 3]));
    {
        let mut pf = MemReadFile { data: file.clone(), pos: Cell::new(0) };
        let op: EnvOptions = EnvOptions::default();
        let _state = MemReadFile::new("test".to_string(), op, &mut pf);
        let sf = SequentialFileReader::new(pf);
        let mut reader = Reader::new(sf, 0, 0, true);
        let mut record: Vec<u8> = Vec::new();
        let mut scratch: Vec<u8> = Vec::new();

        {
            reader.readRecord(
                &mut record,
                &mut scratch,
                WALRecoveryMode::kAbsoluteConsistency,
            );
        }
        assert_eq!(record, vec![1, 2, 3]);
        record.clear();
        scratch.clear();
        {
            reader.readRecord(
                &mut record,
                &mut scratch,
                WALRecoveryMode::kAbsoluteConsistency,
            );
        }
        assert_eq!(record, vec![1, 2, 3, 4, 5, 6, 7, 8, 9, 10]);
    }
}

#[test]
fn physical_record_layout() {
    let file: Rc<RefCell<Vec<u8>>> = Rc::new(RefCell::new(Vec::new()));
    write_log(&file, &[vec![1, 2, 3]], 0, false);
    let bytes = file.borrow().clone();
    assert_eq!(bytes, vec![14, 152, 206, 175, 3, 0, 1, 1, 2, 3]);
}

#[test]
fn recyclable_record_layout() {
    let file: Rc<RefCell<Vec<u8>>> = Rc::new(RefCell::new(Vec::new()));
    write_log(&file, &[vec![4, 2]], 7, true);
    let bytes = file.borrow().clone();
    assert_eq!(bytes, vec![131, 48, 10, 238, 2, 0, 5, 7, 0, 0, 0, 4, 2]);
}

#[test]
fn crc_continues_from_initial_value() {
    assert_eq!(crc32(0, &[1, 1, 2, 3]), 856023414);
    assert_eq!(crc32(0, b"abc"), 891568578);
    assert_ne!(crc32(0, b"abc"), crc32(1, b"abc"));
}

#[test]
fn reads_back_every_record_then_none() {
    let file: Rc<RefCell<Vec<u8>>> = Rc::new(RefCell::new(Vec::new()));
    let records = vec![vec![1, 2, 3], vec![], vec![7u8; 100], vec![1, 2]];
    write_log(&file, &records, 0, false);
    let mut reader = reader_on(&file, 0, true);
    assert_eq!(read_all(&mut reader, WALRecoveryMode::kAbsoluteConsistency), records);
}

#[test]
fn records_that_cross_blocks() {
    let file: Rc<RefCell<Vec<u8>>> = Rc::new(RefCell::new(Vec::new()));
    let big: Vec<u8> = (0..100000u32).map(|i| (i % 251) as u8).collect();
    let records = vec![vec![9, 9], big, vec![5, 6, 7]];
    write_log(&file, &records, 0, false);
    assert!(file.borrow().len() > 3 * 32768);
    for mode in [
        WALRecoveryMode::kAbsoluteConsistency,
        WALRecoveryMode::kPointInTimeRecovery,
        WALRecoveryMode::kSkipAnyCorruptedRecords,
        WALRecoveryMode::kTolerateCorruptedTailRecords,
    ] {
        let mut reader = reader_on(&file, 0, true);
        assert_eq!(read_all(&mut reader, mode), records);
    }
}

#[test]
fn block_trailer_too_short_for_a_header_is_skipped() {
    let file: Rc<RefCell<Vec<u8>>> = Rc::new(RefCell::new(Vec::new()));
    // The first record ends 4 bytes before the end of the first block.
    let first = vec![3u8; 32768 - 7 - 4];
    let records = vec![first, vec![1, 2, 3]];
    write_log(&file, &records, 0, false);
    let bytes = file.borrow().clone();
    assert_eq!(&bytes[32764..32768], &[0, 0, 0, 0]);
    assert_eq!(bytes.len(), 32768 + 7 + 3);
    let mut reader = reader_on(&file, 0, true);
    assert_eq!(read_all(&mut reader, WALRecoveryMode::kAbsoluteConsistency), records);
}

#[test]
fn recyclable_log_reads_back_for_its_number_only() {
    let file: Rc<RefCell<Vec<u8>>> = Rc::new(RefCell::new(Vec::new()));
    let records = vec![vec![1, 2, 3], vec![8u8; 40000], vec![4]];
    write_log(&file, &records, 7, true);
    let mut reader = reader_on(&file, 7, true);
    assert_eq!(read_all(&mut reader, WALRecoveryMode::kAbsoluteConsistency), records);
    let mut other = reader_on(&file, 8, true);
    assert_eq!(read_all(&mut other, WALRecoveryMode::kAbsoluteConsistency), Vec::<Vec<u8>>::new());
}

#[test]
fn damaged_record_is_dropped_unless_checksums_are_off() {
    let file: Rc<RefCell<Vec<u8>>> = Rc::new(RefCell::new(Vec::new()));
    write_log(&file, &[vec![1, 2, 3]], 0, false);
    file.borrow_mut()[8] = 9;
    let mut reader = reader_on(&file, 0, true);
    assert_eq!(read_all(&mut reader, WALRecoveryMode::kSkipAnyCorruptedRecords), Vec::<Vec<u8>>::new());
    let mut unchecked = reader_on(&file, 0, false);
    assert_eq!(read_all(&mut unchecked, WALRecoveryMode::kAbsoluteConsistency), vec![vec![1, 9, 3]]);
}

#[test]
fn cut_off_header_ends_the_log() {
    let file: Rc<RefCell<Vec<u8>>> = Rc::new(RefCell::new(Vec::new()));
    write_log(&file, &[vec![1, 2, 3], vec![4, 5]], 0, false);
    file.borrow_mut().truncate(10 + 5);
    let mut reader = reader_on(&file, 0, true);
    assert_eq!(read_all(&mut reader, WALRecoveryMode::kAbsoluteConsistency), vec![vec![1, 2, 3]]);
}

#[test]
fn writer_close_reports_a_closed_file() {
    let file: Rc<RefCell<Vec<u8>>> = Rc::new(RefCell::new(Vec::new()));
    let mut fd = MemFile::on(&file);
    fd.open = false;
    let mut writer = WritableFileWriter::new(fd, EnvOptions::default());
    let s = writer.close();
    assert!(!s.isOk());
    assert_eq!(state::to_string(&s), "writeable_file_ has closed: ");
}

#[test]
fn writer_counts_the_file_size() {
    let file: Rc<RefCell<Vec<u8>>> = Rc::new(RefCell::new(Vec::new()));
    let mut writer = WritableFileWriter::new(MemFile::on(&file), EnvOptions::default());
    assert_eq!(writer.get_file_size(), 0);
    assert!(writer.append(vec![1, 2, 3, 4, 5]).isOk());
    assert!(writer.append(vec![6, 7]).isOk());
    assert_eq!(writer.get_file_size(), 7);
    assert!(file.borrow().is_empty());
    assert!(writer.flush().isOk());
    // The whole words go to the file; the last word is padded and kept.
    assert_eq!(file.borrow().clone(), vec![1, 2, 3, 4, 5, 6, 7, 0]);
    assert!(writer.close().isOk());
    assert_eq!(file.borrow().clone(), vec![1, 2, 3, 4, 5, 6, 7]);
}

#[test]
fn aligned_buffer_grows_and_keeps_its_data() {
    let mut buf = AlignedBuffer::default();
    buf.alignment(4);
    buf.allocate_new_buffer(5, false);
    assert_eq!(buf.get_capacity(), 8);
    assert_eq!(buf.append(vec![1, 2, 3]), 3);
    buf.allocate_new_buffer(16, true);
    assert_eq!(buf.get_capacity(), 16);
    assert_eq!(buf.get_current_size(), 3);
    assert_eq!(buf.read(0, 5), vec![1, 2, 3, 0, 0]);
    assert_eq!(buf.append(vec![9; 20]), 13);
    assert_eq!(buf.get_current_size(), 16);
}

#[test]
fn aligned_buffer_pads_and_refits() {
    let mut buf = AlignedBuffer::default();
    buf.alignment(4);
    buf.allocate_new_buffer(16, false);
    buf.append(vec![1, 2, 3, 4, 5, 6]);
    buf.pad_to_aligment_with(0xee);
    assert_eq!(buf.get_current_size(), 8);
    assert_eq!(buf.read(0, 8), vec![1, 2, 3, 4, 5, 6, 0xee, 0xee]);
    buf.refit_tail(4, 2);
    assert_eq!(buf.get_current_size(), 2);
    assert_eq!(buf.read(0, 2), vec![5, 6]);
    buf.pad_with(3, 7);
    assert_eq!(buf.read(0, 5), vec![5, 6, 7, 7, 7]);
    buf.size(1);
    assert_eq!(buf.read(0, 2), vec![5, 0]);
}

#[test]
fn recyclable_trailer_of_seven_or_more_zeros_is_skipped() {
    let file: Rc<RefCell<Vec<u8>>> = Rc::new(RefCell::new(Vec::new()));
    // The first record ends 8 bytes before the end of the first block: too
    // few for a recyclable header, enough to look like a zero record.
    let first = vec![5u8; 32768 - 11 - 8];
    let records = vec![first, vec![1, 2, 3], vec![4u8; 70000]];
    write_log(&file, &records, 3, true);
    assert_eq!(&file.borrow()[32760..32768], &[0u8; 8]);
    let mut reader = reader_on(&file, 3, true);
    assert_eq!(read_all(&mut reader, WALRecoveryMode::kAbsoluteConsistency), records);
}

#[test]
fn buffered_writer_keeps_records_in_its_buffer() {
    let file: Rc<RefCell<Vec<u8>>> = Rc::new(RefCell::new(Vec::new()));
    let mut fd = MemFile::on(&file);
    fd.direct = false;
    let mut op: EnvOptions = EnvOptions::default();
    op.writable_file_max_buffer_size = 50;
    let writer = WritableFileWriter::new(fd, op);
    let mut wal = Write::new(writer, 0, false, true);
    assert!(wal.add_record(vec![1, 2, 3]).isOk());
    assert!(wal.add_record(vec![1, 2, 3, 4, 5, 6, 7, 8, 9, 10]).isOk());
    assert!(file.borrow().is_empty());
}

#[test]
fn read_gives_back_what_append_wrote() {
    let mut buf = AlignedBuffer::default();
    buf.alignment(4);
    buf.allocate_new_buffer(8, false);
    assert_eq!(buf.append(vec![1, 2, 3]), 3);
    let n = buf.append(vec![4, 5, 6, 7, 8, 9]);
    assert_eq!(n, 5);
    assert_eq!(buf.read(3, n), vec![4, 5, 6, 7, 8]);
    assert_eq!(buf.read(0, 3), vec![1, 2, 3]);
}

#[test]
fn reader_skips_records_before_its_initial_offset() {
    let file: Rc<RefCell<Vec<u8>>> = Rc::new(RefCell::new(Vec::new()));
    let a = vec![1u8; 100];
    let b: Vec<u8> = (0..40000u32).map(|i| (i % 7) as u8).collect();
    let c = vec![3u8, 2, 1];
    write_log(&file, &[a.clone(), b.clone(), c.clone()], 0, false);
    let mode = WALRecoveryMode::kAbsoluteConsistency;
    assert_eq!(read_all(&mut reader_from(&file, 0, 0, true), mode), vec![a.clone(), b.clone(), c.clone()]);
    assert_eq!(read_all(&mut reader_from(&file, 50, 0, true), mode), vec![b.clone(), c.clone()]);
    assert_eq!(read_all(&mut reader_from(&file, 107, 0, true), mode), vec![b.clone(), c.clone()]);
    assert_eq!(read_all(&mut reader_from(&file, 108, 0, true), mode), vec![c.clone()]);
    assert_eq!(read_all(&mut reader_from(&file, 33000, 0, true), mode), vec![c.clone()]);
    assert_eq!(read_all(&mut reader_from(&file, 40122, 0, true), mode), Vec::<Vec<u8>>::new());
}

#[test]
fn writer_writes_out_a_full_buffer_before_appending() {
    let file: Rc<RefCell<Vec<u8>>> = Rc::new(RefCell::new(Vec::new()));
    let mut op: EnvOptions = EnvOptions::default();
    op.writable_file_max_buffer_size = 50;
    let mut writer = WritableFileWriter::new(MemFile::on(&file), op);
    assert!(writer.append(vec![7u8; 65536]).isOk());
    assert_eq!(writer.get_file_size(), 65536);
    assert!(file.borrow().is_empty());
    assert!(writer.append(vec![1]).isOk());
    assert_eq!(writer.get_file_size(), 65537);
    assert_eq!(file.borrow().len(), 65536);
    assert!(writer.close().isOk());
    assert_eq!(file.borrow().len(), 65537);
    assert_eq!(file.borrow()[65536], 1);
}

#[test]
fn first_record_is_one_full_physical_record() {
    let file: Rc<RefCell<Vec<u8>>> = Rc::new(RefCell::new(Vec::new()));
    write_log(&file, &[vec![1u8, 2, 3]], 0, false);
    let bytes = file.borrow().clone();
    assert_eq!(bytes.len(), 10);
    assert_eq!(bytes[4..7].to_vec(), vec![3u8, 0, 1]);
    assert_eq!(bytes[7..10].to_vec(), vec![1u8, 2, 3]);
    let crc = crc32(crc32(crc32(0, &[1u8]), &[3u8, 0, 1]), &[1u8, 2, 3]);
    assert_eq!(bytes[0..4].to_vec(), crc.to_le_bytes().to_vec());
}

#[test]
fn damage_stops_point_in_time_recovery_and_is_skipped_otherwise() {
    let file: Rc<RefCell<Vec<u8>>> = Rc::new(RefCell::new(Vec::new()));
    let first = vec![5u8; 32768 - 7];
    write_log(&file, &[first.clone(), vec![4, 5]], 0, false);
    assert_eq!(read_all(&mut reader_on(&file, 0, true), WALRecoveryMode::kPointInTimeRecovery), vec![first, vec![4, 5]]);
    file.borrow_mut()[100] = 6;
    assert_eq!(
        read_all(&mut reader_on(&file, 0, true), WALRecoveryMode::kSkipAnyCorruptedRecords),
        vec![vec![4u8, 5]]
    );
    assert_eq!(
        read_all(&mut reader_on(&file, 0, true), WALRecoveryMode::kPointInTimeRecovery),
        Vec::<Vec<u8>>::new()
    );
}

#[test]
fn crc_of_the_standard_check_string() {
    assert_eq!(crc32(0, b"123456789"), 0xcbf43926);
    assert_eq!(crc32(0, b"a"), 0xe8b7be43);
    assert_eq!(crc32(0, &[]), 0);
}

#[test]
fn a_failing_flush_is_what_add_record_reports() {
    let file: Rc<RefCell<Vec<u8>>> = Rc::new(RefCell::new(Vec::new()));
    let mut fd = MemFile::on(&file);
    fd.fail_flush = true;
    let writer = WritableFileWriter::new(fd, EnvOptions::default());
    let mut wal = Write::new(writer, 0, false, false);
    let s = wal.add_record(vec![1, 2, 3]);
    assert!(!s.isOk());
    assert_eq!(state::to_string(&s), "flush failed: ");
}

#[test]
fn records_without_manual_flush_reach_the_file_whole() {
    let file: Rc<RefCell<Vec<u8>>> = Rc::new(RefCell::new(Vec::new()));
    let writer = WritableFileWriter::new(MemFile::on(&file), EnvOptions::default());
    let mut wal = Write::new(writer, 0, false, false);
    assert!(wal.add_record(vec![1, 2, 3]).isOk());
    assert!(wal.add_record(vec![4, 5]).isOk());
    assert!(wal.close().isOk());
    let bytes = file.borrow().clone();
    assert_eq!(bytes.len(), 19);
    assert_eq!(bytes[4..10].to_vec(), vec![3u8, 0, 1, 1, 2, 3]);
    assert_eq!(bytes[14..19].to_vec(), vec![2u8, 0, 1, 4, 5]);
    let mut reader = reader_on(&file, 0, true);
    assert_eq!(read_all(&mut reader, WALRecoveryMode::kAbsoluteConsistency), vec![vec![1u8, 2, 3], vec![4u8, 5]]);
}
