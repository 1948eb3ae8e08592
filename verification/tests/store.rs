use bitcask::data::data_file::DataFile;
use bitcask::data::log_record::{LogRecord, LogRecordType};
use bitcask::error::Errors;
use bitcask::fio::memory_io::MemoryIO;
use bitcask::fio::IOManager;
use std::path::PathBuf;

fn dir() -> PathBuf {
    PathBuf::from("/tmp/bitcask-store")
}

fn record(key: &[u8], value: &[u8], record_type: LogRecordType) -> LogRecord {
    LogRecord { key: key.to_vec(), value: value.to_vec(), record_type }
}

#[test]
fn memory_io_write() {
    let mut io = MemoryIO::open(dir(), 0).unwrap();
    assert_eq!(io.write("key-a".as_bytes()), Ok(5));
    assert_eq!(io.write("key-b".as_bytes()), Ok(5));
    assert_eq!(io.size(), Ok(10));
}

#[test]
fn memory_io_read() {
    let mut io = MemoryIO::new(dir(), 0);
    assert_eq!(io.write("key-a".as_bytes()), Ok(5));
    assert_eq!(io.write("key-b".as_bytes()), Ok(5));

    let mut buf = [0u8; 5];
    assert_eq!(io.read(&mut buf, 0), Ok(5));
    assert_eq!("key-a".as_bytes(), buf);
    assert_eq!(io.read(&mut buf, 5), Ok(5));
    assert_eq!("key-b".as_bytes(), buf);
}

#[test]
fn memory_io_read_at_the_end_is_short() {
    let mut io = MemoryIO::new(dir(), 0);
    assert_eq!(io.write(b"abcdef"), Ok(6));
    let mut buf = [0u8; 4];
    assert_eq!(io.read(&mut buf, 4), Ok(2));
    assert_eq!(buf, [b'e', b'f', 0, 0]);
    assert_eq!(io.read(&mut buf, 6), Ok(0));
    assert_eq!(io.read(&mut buf, 600), Ok(0));
    let mut none: [u8; 0] = [];
    assert_eq!(io.read(&mut none, 0), Ok(0));
}

#[test]
fn memory_io_sync() {
    let mut io = MemoryIO::new(dir(), 0);
    assert_eq!(io.write("key-a".as_bytes()), Ok(5));
    assert_eq!(io.sync(), Ok(()));
    assert_eq!(io.size(), Ok(5));
    let mut buf = [0u8; 5];
    assert_eq!(io.read(&mut buf, 0), Ok(5));
    assert_eq!("key-a".as_bytes(), buf);
}

#[test]
fn memory_io_truncate() {
    let mut io = MemoryIO::new(dir(), 0);
    assert_eq!(io.write(b"abcdef"), Ok(6));
    assert_eq!(io.truncate(10), Ok(()));
    assert_eq!(io.size(), Ok(6));
    assert_eq!(io.truncate(2), Ok(()));
    assert_eq!(io.size(), Ok(2));
    assert_eq!(io.write(b"z"), Ok(1));
    let mut buf = [0u8; 3];
    assert_eq!(io.read(&mut buf, 0), Ok(3));
    assert_eq!(&buf, b"abz");
}

#[test]
fn data_file_starts_empty() {
    let file: DataFile<MemoryIO> = DataFile::new(dir(), 7).unwrap();
    assert_eq!(file.get_file_id(), 7);
    assert_eq!(file.get_write_offset(), 0);
}

#[test]
fn data_file_write_moves_the_cursor() {
    let mut file: DataFile<MemoryIO> = DataFile::new(dir(), 0).unwrap();
    assert_eq!(file.write(b"abc"), Ok(3));
    assert_eq!(file.get_write_offset(), 3);
    assert_eq!(file.write(b""), Ok(0));
    assert_eq!(file.write(b"defgh"), Ok(5));
    assert_eq!(file.get_write_offset(), 8);
    assert_eq!(file.sync(), Ok(()));
    assert_eq!(file.get_write_offset(), 8);
    assert_eq!(file.get_file_id(), 0);
}

#[test]
fn data_file_reads_the_records_it_was_given() {
    let mut file: DataFile<MemoryIO> = DataFile::new(dir(), 0).unwrap();
    let mut first = record(b"name", b"bitcask", LogRecordType::NORMAL);
    let mut second = record(b"name", b"", LogRecordType::DELETED);
    let mut third = record(&[1u8; 5000], &[2u8; 9000], LogRecordType::NORMAL);
    assert_eq!(file.write(&first.encode()), Ok(18));
    assert_eq!(file.write(&second.encode()), Ok(11));
    let len = third.encode().len();
    assert_eq!(file.write(&third.encode()), Ok(len));

    assert_eq!(file.read_log_record_sized(0), Ok((record(b"name", b"bitcask", LogRecordType::NORMAL), 18)));
    assert_eq!(file.read_log_record(0), Ok(first));
    assert_eq!(file.read_log_record_sized(18), Ok((second, 11)));
    assert_eq!(file.read_log_record_sized(29), Ok((third, len)));
}

#[test]
fn data_file_finds_no_record_where_none_starts() {
    let mut file: DataFile<MemoryIO> = DataFile::new(dir(), 0).unwrap();
    let bytes = record(b"name", b"bitcask", LogRecordType::NORMAL).encode();
    assert_eq!(file.write(&bytes), Ok(18));
    assert_eq!(file.read_log_record(18), Err(Errors::CorruptRecord));
    assert_eq!(file.read_log_record(1000), Err(Errors::CorruptRecord));
    assert_eq!(file.read_log_record(1), Err(Errors::CorruptRecord));
    assert_eq!(file.read_log_record(u64::MAX), Err(Errors::CorruptRecord));
}

#[test]
fn data_file_finds_no_record_in_a_torn_tail() {
    let mut file: DataFile<MemoryIO> = DataFile::new(dir(), 0).unwrap();
    let bytes = record(b"name", b"bitcask", LogRecordType::NORMAL).encode();
    assert_eq!(file.write(&bytes), Ok(18));
    assert_eq!(file.write(&bytes[..17]), Ok(17));
    assert!(file.read_log_record(0).is_ok());
    assert_eq!(file.read_log_record(18), Err(Errors::CorruptRecord));
}

#[test]
fn data_file_truncate_moves_the_cursor_back() {
    let mut file: DataFile<MemoryIO> = DataFile::new(dir(), 0).unwrap();
    let bytes = record(b"a", b"1", LogRecordType::NORMAL).encode();
    assert_eq!(file.write(&bytes), Ok(9));
    assert_eq!(file.write(b"garbage"), Ok(7));
    assert_eq!(file.truncate(100), Ok(()));
    assert_eq!(file.get_write_offset(), 16);
    assert_eq!(file.truncate(9), Ok(()));
    assert_eq!(file.get_write_offset(), 9);
    assert_eq!(file.write(&bytes), Ok(9));
    assert_eq!(file.read_log_record_sized(9).map(|found| found.1), Ok(9));
}
