use bitcask::data::data_file::DataFile;
use bitcask::data::log_record::{LogRecord, LogRecordPos, LogRecordType};
use bitcask::db::Engine;
use bitcask::error::{Errors, Result};
use bitcask::fio::memory_io::MemoryIO;
use bitcask::fio::{Contents, IOManager};
use bitcask::index::btree::BTree;
use bitcask::index::{Entries, Indexer};
use bitcask::options::Options;
use bytes::Bytes;
use std::path::PathBuf;

type MemoryEngine = Engine<MemoryIO, BTree>;

fn options(data_file_size: u64, sync_write: bool) -> Options {
    Options { dir_path: PathBuf::from("/tmp/t"), data_file_size, sync_write }
}

fn fresh(data_file_size: u64) -> MemoryEngine {
    Engine::open(options(data_file_size, false), BTree::new(), Vec::new()).unwrap()
}

fn reopen(data_file_size: u64, data_files: Vec<DataFile<MemoryIO>>) -> Result<MemoryEngine> {
    Engine::open(options(data_file_size, false), BTree::new(), data_files)
}

fn b(text: &'static str) -> Bytes {
    Bytes::from(text)
}

fn encoded(key: &[u8], value: &[u8], record_type: LogRecordType) -> Vec<u8> {
    LogRecord { key: key.to_vec(), value: value.to_vec(), record_type }.encode()
}

fn segment(file_id: u32, contents: &[u8]) -> DataFile<MemoryIO> {
    let mut file = DataFile::new(PathBuf::from("/tmp/t"), file_id).unwrap();
    assert_eq!(file.write(contents), Ok(contents.len()));
    file
}

fn shape(data_files: &[DataFile<MemoryIO>]) -> Vec<(u32, u64)> {
    data_files.iter().map(|f| (f.get_file_id(), f.get_write_offset())).collect()
}

#[test]
fn put_get_delete_scenario() {
    let mut engine = fresh(64);
    assert_eq!(engine.put(b("a"), b("1")), Ok(()));
    assert_eq!(engine.put(b("b"), b("2")), Ok(()));
    assert_eq!(engine.get(b("a")), Ok(b("1")));
    assert_eq!(engine.delete(b("a")), Ok(()));
    assert_eq!(engine.get(b("a")), Err(Errors::KeyNotFound));
    assert_eq!(engine.get(b("b")), Ok(b("2")));
}

#[test]
fn put_then_get_returns_the_value() {
    let mut engine = fresh(1 << 20);
    assert_eq!(engine.put(b("name"), b("bitcask")), Ok(()));
    assert_eq!(engine.get(b("name")), Ok(b("bitcask")));
    assert_eq!(engine.put(b("empty"), b("")), Ok(()));
    assert_eq!(engine.get(b("empty")), Ok(b("")));
    let big = Bytes::from(vec![7u8; 100_000]);
    assert_eq!(engine.put(b("big"), big.clone()), Ok(()));
    assert_eq!(engine.get(b("big")), Ok(big));
    assert_eq!(engine.get(b("name")), Ok(b("bitcask")));
}

#[test]
fn put_again_replaces_the_value() {
    let mut engine = fresh(64);
    assert_eq!(engine.put(b("k"), b("one")), Ok(()));
    assert_eq!(engine.put(b("k"), b("two")), Ok(()));
    assert_eq!(engine.get(b("k")), Ok(b("two")));
}

#[test]
fn the_empty_key_is_refused_by_put_and_get() {
    let mut engine = fresh(64);
    assert_eq!(engine.put(b(""), b("1")), Err(Errors::KeyIsEmpty));
    assert_eq!(engine.get(b("")), Err(Errors::KeyIsEmpty));
    assert_eq!(engine.insert(Vec::new(), b"1".to_vec()), Err(Errors::KeyIsEmpty));
    assert_eq!(engine.lookup(Vec::new()), Err(Errors::KeyIsEmpty));
    assert_eq!(shape(&engine.close().unwrap()), vec![(0, 0)]);
}

#[test]
fn delete_of_the_empty_key_does_nothing() {
    let mut engine = fresh(64);
    assert_eq!(engine.put(b("a"), b("1")), Ok(()));
    assert_eq!(engine.delete(b("")), Ok(()));
    assert_eq!(engine.remove(Vec::new()), Ok(()));
    assert_eq!(engine.get(b("a")), Ok(b("1")));
    assert_eq!(shape(&engine.close().unwrap()), vec![(0, 9)]);
}

#[test]
fn delete_removes_an_empty_key_that_a_segment_held() {
    let contents = encoded(b"", b"1", LogRecordType::NORMAL);
    let mut engine = reopen(64, vec![segment(0, &contents)]).unwrap();
    assert_eq!(engine.get(b("")), Err(Errors::KeyIsEmpty));
    assert_eq!(engine.delete(b("")), Ok(()));
    assert_eq!(shape(&engine.close().unwrap()), vec![(0, 8 + 7)]);
}

#[test]
fn get_of_an_absent_key_finds_nothing() {
    let mut engine = fresh(64);
    assert_eq!(engine.get(b("a")), Err(Errors::KeyNotFound));
    assert_eq!(engine.put(b("a"), b("1")), Ok(()));
    assert_eq!(engine.get(b("b")), Err(Errors::KeyNotFound));
}

#[test]
fn delete_then_get_finds_nothing() {
    let mut engine = fresh(64);
    assert_eq!(engine.put(b("a"), b("1")), Ok(()));
    assert_eq!(engine.delete(b("a")), Ok(()));
    assert_eq!(engine.get(b("a")), Err(Errors::KeyNotFound));
    assert_eq!(engine.put(b("a"), b("2")), Ok(()));
    assert_eq!(engine.get(b("a")), Ok(b("2")));
}

#[test]
fn delete_of_an_absent_key_writes_nothing() {
    let mut engine = fresh(64);
    assert_eq!(engine.put(b("a"), b("1")), Ok(()));
    assert_eq!(engine.delete(b("zzz")), Ok(()));
    assert_eq!(engine.delete(b("zzz")), Ok(()));
    assert_eq!(engine.get(b("a")), Ok(b("1")));
    assert_eq!(shape(&engine.close().unwrap()), vec![(0, 9)]);
}

#[test]
fn delete_twice_writes_one_tombstone() {
    let mut engine = fresh(64);
    assert_eq!(engine.put(b("a"), b("1")), Ok(()));
    assert_eq!(engine.delete(b("a")), Ok(()));
    assert_eq!(engine.delete(b("a")), Ok(()));
    assert_eq!(shape(&engine.close().unwrap()), vec![(0, 17)]);
}

#[test]
fn plain_vectors_work_as_buffers_do() {
    let mut engine = fresh(64);
    assert_eq!(engine.insert(b"a".to_vec(), b"1".to_vec()), Ok(()));
    assert_eq!(engine.lookup(b"a".to_vec()), Ok(b"1".to_vec()));
    assert_eq!(engine.get(b("a")), Ok(b("1")));
    assert_eq!(engine.remove(b"a".to_vec()), Ok(()));
    assert_eq!(engine.lookup(b"a".to_vec()), Err(Errors::KeyNotFound));
}

#[test]
fn a_write_beyond_the_size_starts_a_new_segment() {
    let mut engine = fresh(20);
    assert_eq!(engine.put(b("a"), b("1")), Ok(()));
    assert_eq!(engine.put(b("b"), b("2")), Ok(()));
    assert_eq!(engine.put(b("c"), b("3")), Ok(()));
    assert_eq!(engine.get(b("a")), Ok(b("1")));
    assert_eq!(engine.get(b("b")), Ok(b("2")));
    assert_eq!(engine.get(b("c")), Ok(b("3")));
    assert_eq!(shape(&engine.close().unwrap()), vec![(0, 18), (1, 9)]);
}

#[test]
fn a_write_up_to_the_size_stays_in_the_segment() {
    let mut engine = fresh(18);
    assert_eq!(engine.put(b("a"), b("1")), Ok(()));
    assert_eq!(engine.put(b("b"), b("2")), Ok(()));
    assert_eq!(shape(&engine.close().unwrap()), vec![(0, 18)]);
}

#[test]
fn a_tombstone_beyond_the_size_starts_a_new_segment() {
    let mut engine = fresh(16);
    assert_eq!(engine.put(b("a"), b("1")), Ok(()));
    assert_eq!(engine.delete(b("a")), Ok(()));
    assert_eq!(engine.get(b("a")), Err(Errors::KeyNotFound));
    assert_eq!(shape(&engine.close().unwrap()), vec![(0, 9), (1, 8)]);
}

#[test]
fn sealed_segments_are_written_no_more() {
    let mut engine = fresh(10);
    for key in ["a", "b", "c", "d", "e"] {
        assert_eq!(engine.put(b(key), b("1")), Ok(()));
        assert_eq!(engine.get(b(key)), Ok(b("1")));
    }
    for key in ["a", "b", "c", "d", "e"] {
        assert_eq!(engine.get(b(key)), Ok(b("1")));
    }
    let data_files = engine.close().unwrap();
    assert_eq!(shape(&data_files), vec![(0, 9), (1, 9), (2, 9), (3, 9), (4, 9)]);
    assert_eq!(
        data_files[1].read_log_record(0),
        Ok(LogRecord { key: b"b".to_vec(), value: b"1".to_vec(), record_type: LogRecordType::NORMAL })
    );
}

#[test]
fn a_record_larger_than_the_size_gets_a_segment_of_its_own() {
    let mut engine = fresh(4);
    assert_eq!(engine.put(b("a"), b("1")), Ok(()));
    assert_eq!(engine.put(b("b"), b("2")), Ok(()));
    assert_eq!(engine.get(b("a")), Ok(b("1")));
    assert_eq!(engine.get(b("b")), Ok(b("2")));
    assert_eq!(shape(&engine.close().unwrap()), vec![(0, 0), (1, 9), (2, 9)]);
}

#[test]
fn every_write_is_flushed_where_asked() {
    let mut engine: MemoryEngine =
        Engine::open(options(64, true), BTree::new(), Vec::new()).unwrap();
    assert_eq!(engine.put(b("a"), b("1")), Ok(()));
    assert_eq!(engine.get(b("a")), Ok(b("1")));
}

#[test]
fn reopening_finds_what_was_put_and_not_what_was_deleted() {
    let mut engine = fresh(20);
    assert_eq!(engine.put(b("a"), b("1")), Ok(()));
    assert_eq!(engine.put(b("b"), b("2")), Ok(()));
    assert_eq!(engine.put(b("a"), b("3")), Ok(()));
    assert_eq!(engine.put(b("c"), b("4")), Ok(()));
    assert_eq!(engine.delete(b("b")), Ok(()));
    assert_eq!(engine.put(b("d"), b("")), Ok(()));
    let data_files = engine.close().unwrap();
    let before = shape(&data_files);

    let mut engine = reopen(20, data_files).unwrap();
    assert_eq!(engine.get(b("a")), Ok(b("3")));
    assert_eq!(engine.get(b("b")), Err(Errors::KeyNotFound));
    assert_eq!(engine.get(b("c")), Ok(b("4")));
    assert_eq!(engine.get(b("d")), Ok(b("")));
    assert_eq!(engine.put(b("e"), b("5")), Ok(()));
    assert_eq!(engine.get(b("e")), Ok(b("5")));
    let after = shape(&engine.close().unwrap());
    assert_eq!(&after[..before.len() - 1], &before[..before.len() - 1]);
}

#[test]
fn reopening_puts_the_segments_in_order() {
    let mut first = encoded(b"a", b"old", LogRecordType::NORMAL);
    first.extend_from_slice(&encoded(b"b", b"2", LogRecordType::NORMAL));
    let second = encoded(b"a", b"new", LogRecordType::NORMAL);
    let third = encoded(b"b", b"", LogRecordType::DELETED);
    let data_files = vec![segment(9, &third), segment(2, &first), segment(5, &second)];

    let mut engine = reopen(1 << 20, data_files).unwrap();
    assert_eq!(engine.get(b("a")), Ok(b("new")));
    assert_eq!(engine.get(b("b")), Err(Errors::KeyNotFound));
    assert_eq!(engine.put(b("c"), b("3")), Ok(()));
    assert_eq!(
        shape(&engine.close().unwrap()),
        vec![(2, first.len() as u64), (5, second.len() as u64), (9, third.len() as u64 + 9)]
    );
}

#[test]
fn a_tombstone_hides_a_record_of_an_earlier_segment() {
    let first = encoded(b"a", b"1", LogRecordType::NORMAL);
    let second = encoded(b"a", b"", LogRecordType::DELETED);
    let mut engine = reopen(64, vec![segment(0, &first), segment(1, &second)]).unwrap();
    assert_eq!(engine.get(b("a")), Err(Errors::KeyNotFound));
    assert_eq!(engine.delete(b("a")), Ok(()));
    assert_eq!(shape(&engine.close().unwrap()), vec![(0, 9), (1, 8)]);
}

#[test]
fn empty_segments_open_by_their_ids() {
    let engine = reopen(64, vec![segment(4, b""), segment(1, b""), segment(2, b"")]).unwrap();
    assert_eq!(shape(&engine.close().unwrap()), vec![(1, 0), (2, 0), (4, 0)]);
    let res = reopen(64, vec![segment(4, b""), segment(1, b""), segment(4, b"")]);
    assert_eq!(res.err(), Some(Errors::FailedToOpenDataFile));
}

#[test]
fn two_segments_with_one_id_are_refused() {
    let first = encoded(b"a", b"1", LogRecordType::NORMAL);
    let res = reopen(64, vec![segment(3, &first), segment(1, &first), segment(3, &first)]);
    assert_eq!(res.err(), Some(Errors::FailedToOpenDataFile));
}

#[test]
fn a_damaged_last_record_is_cut_off() {
    let mut contents = encoded(b"a", b"1", LogRecordType::NORMAL);
    contents.extend_from_slice(&encoded(b"b", b"2", LogRecordType::NORMAL));
    let last = contents.len() - 1;
    contents[last] ^= 0xff;

    let mut engine = reopen(64, vec![segment(0, &contents)]).unwrap();
    assert_eq!(engine.get(b("a")), Ok(b("1")));
    assert_eq!(engine.get(b("b")), Err(Errors::KeyNotFound));
    assert_eq!(engine.put(b("c"), b("3")), Ok(()));
    assert_eq!(engine.get(b("c")), Ok(b("3")));
    let data_files = engine.close().unwrap();
    assert_eq!(shape(&data_files), vec![(0, 18)]);

    let engine = reopen(64, data_files).unwrap();
    assert_eq!(engine.get(b("a")), Ok(b("1")));
    assert_eq!(engine.get(b("b")), Err(Errors::KeyNotFound));
    assert_eq!(engine.get(b("c")), Ok(b("3")));
}

#[test]
fn a_torn_last_record_is_cut_off() {
    let mut contents = encoded(b"a", b"1", LogRecordType::NORMAL);
    contents.extend_from_slice(&encoded(b"b", b"2", LogRecordType::NORMAL)[..5]);
    let engine = reopen(64, vec![segment(0, &contents)]).unwrap();
    assert_eq!(engine.get(b("a")), Ok(b("1")));
    assert_eq!(engine.get(b("b")), Err(Errors::KeyNotFound));
    assert_eq!(shape(&engine.close().unwrap()), vec![(0, 9)]);
}

#[test]
fn a_damaged_older_segment_is_read_up_to_the_damage() {
    let mut first = encoded(b"a", b"1", LogRecordType::NORMAL);
    first.extend_from_slice(b"\x01\x01");
    let second = encoded(b"b", b"2", LogRecordType::NORMAL);
    let engine = reopen(64, vec![segment(0, &first), segment(1, &second)]).unwrap();
    assert_eq!(engine.get(b("a")), Ok(b("1")));
    assert_eq!(engine.get(b("b")), Ok(b("2")));
    assert_eq!(shape(&engine.close().unwrap()), vec![(0, 11), (1, 9)]);
}

#[test]
fn an_empty_directory_starts_with_segment_zero() {
    let engine = fresh(64);
    assert_eq!(shape(&engine.close().unwrap()), vec![(0, 0)]);
}

/// A store that fails in the one way that `MODE` names.
struct Faulty<const MODE: u8> {
    writes: u32,
    data: Vec<u8>,
}

const FAILS_TO_OPEN: u8 = 0;
const FAILS_TO_READ: u8 = 1;
const FAILS_TO_WRITE: u8 = 2;
const FAILS_TO_SYNC: u8 = 3;
const WRITES_ONE_BYTE: u8 = 4;
const OPENS_ONLY_ZERO: u8 = 5;
const WRITES_FOUR_THEN_FAILS: u8 = 6;
const NOT_EMPTY: u8 = 7;
const TEARS_SECOND_WRITE: u8 = 8;

impl<const MODE: u8> IOManager for Faulty<MODE> {
    fn view(&self) -> Contents {
        unreachable!()
    }

    fn durable(&self) -> Contents {
        unreachable!()
    }

    fn home(&self) -> (PathBuf, u32) {
        unreachable!()
    }

    fn open(_dir_path: PathBuf, file_id: u32) -> Result<Self> {
        if MODE == FAILS_TO_OPEN || (MODE == OPENS_ONLY_ZERO && file_id != 0) {
            return Err(Errors::FailedToOpenDataFile);
        }
        let data = if MODE == NOT_EMPTY { vec![0u8; 3] } else { Vec::new() };
        Ok(Faulty { writes: 0, data })
    }

    fn read(&self, buf: &mut [u8], offset: u64) -> Result<usize> {
        if MODE == FAILS_TO_READ {
            return Err(Errors::FailedToReadFromDataFile);
        }
        let start = (offset as usize).min(self.data.len());
        let n = buf.len().min(self.data.len() - start).min(3);
        buf[..n].copy_from_slice(&self.data[start..start + n]);
        Ok(n)
    }

    fn write(&mut self, buf: &[u8]) -> Result<usize> {
        if MODE == FAILS_TO_WRITE || (MODE == WRITES_FOUR_THEN_FAILS && self.data.len() >= 4) {
            return Err(Errors::FailedToWriteToDataFile);
        }
        self.writes += 1;
        if MODE == TEARS_SECOND_WRITE && self.writes == 3 {
            return Err(Errors::FailedToWriteToDataFile);
        }
        let n = if MODE == WRITES_ONE_BYTE {
            buf.len().min(1)
        } else if MODE == TEARS_SECOND_WRITE && self.writes == 2 {
            buf.len().min(4)
        } else if MODE == WRITES_FOUR_THEN_FAILS {
            buf.len().min(4)
        } else {
            buf.len()
        };
        self.data.extend_from_slice(&buf[..n]);
        Ok(n)
    }

    fn truncate(&mut self, len: u64) -> Result<()> {
        if len <= self.data.len() as u64 {
            self.data.truncate(len as usize);
        }
        Ok(())
    }

    fn size(&self) -> Result<u64> {
        Ok(self.data.len() as u64)
    }

    fn sync(&mut self) -> Result<()> {
        if MODE == FAILS_TO_SYNC {
            return Err(Errors::FailedToSyncDataFile);
        }
        Ok(())
    }
}

fn faulty<const MODE: u8>(
    data_file_size: u64,
    sync_write: bool,
) -> Result<Engine<Faulty<MODE>, BTree>> {
    Engine::open(options(data_file_size, sync_write), BTree::new(), Vec::new())
}

#[test]
fn open_fails_where_the_first_segment_cannot_be_opened() {
    let res = faulty::<FAILS_TO_OPEN>(64, false);
    assert_eq!(res.err(), Some(Errors::FailedToOpenDataFile));
}

#[test]
fn open_fails_where_the_first_segment_is_not_empty() {
    let res = faulty::<NOT_EMPTY>(64, false);
    assert_eq!(res.err(), Some(Errors::FailedToOpenDataFile));
}

#[test]
fn put_fails_where_the_store_cannot_be_written() {
    let mut engine = faulty::<FAILS_TO_WRITE>(64, false).unwrap();
    assert_eq!(engine.put(b("a"), b("1")), Err(Errors::FailedToWriteToDataFile));
    assert_eq!(engine.get(b("a")), Err(Errors::KeyNotFound));
}

#[test]
fn put_fails_where_the_store_gives_up_half_way() {
    let mut engine = faulty::<WRITES_FOUR_THEN_FAILS>(64, false).unwrap();
    assert_eq!(engine.put(b("a"), b("1")), Err(Errors::FailedToWriteToDataFile));
    assert_eq!(engine.get(b("a")), Err(Errors::KeyNotFound));
    let data_files = engine.close().unwrap();
    assert_eq!(data_files[0].get_write_offset(), 0);
    assert_eq!(data_files[0].read_log_record(0), Err(Errors::CorruptRecord));
}

#[test]
fn put_fails_where_the_write_cannot_be_flushed() {
    let mut engine = faulty::<FAILS_TO_SYNC>(64, true).unwrap();
    assert_eq!(engine.put(b("a"), b("1")), Err(Errors::FailedToSyncDataFile));
    assert_eq!(engine.get(b("a")), Err(Errors::KeyNotFound));
}

#[test]
fn delete_fails_where_the_tombstone_cannot_be_flushed() {
    let mut file: DataFile<Faulty<FAILS_TO_SYNC>> =
        DataFile::new(PathBuf::from("/tmp/t"), 0).unwrap();
    assert_eq!(file.write(&encoded(b"a", b"1", LogRecordType::NORMAL)), Ok(9));
    let mut engine: Engine<Faulty<FAILS_TO_SYNC>, BTree> =
        Engine::open(options(64, true), BTree::new(), vec![file]).unwrap();
    assert_eq!(engine.delete(b("a")), Err(Errors::FailedToSyncDataFile));
    assert_eq!(engine.get(b("a")), Ok(b("1")));
}

#[test]
fn bytes_of_a_failed_write_are_cut_before_the_next() {
    let mut engine = faulty::<TEARS_SECOND_WRITE>(64, false).unwrap();
    assert_eq!(engine.put(b("a"), b("1")), Ok(()));
    assert_eq!(engine.put(b("b"), b("2")), Err(Errors::FailedToWriteToDataFile));
    assert_eq!(engine.get(b("a")), Ok(b("1")));
    assert_eq!(engine.get(b("b")), Err(Errors::KeyNotFound));
    assert_eq!(engine.put(b("c"), b("3")), Ok(()));
    assert_eq!(engine.delete(b("a")), Ok(()));
    assert_eq!(engine.get(b("a")), Err(Errors::KeyNotFound));
    assert_eq!(engine.get(b("c")), Ok(b("3")));
    let data_files = engine.close().unwrap();
    let shapes: Vec<(u32, u64)> =
        data_files.iter().map(|f| (f.get_file_id(), f.get_write_offset())).collect();
    assert_eq!(shapes, vec![(0, 26)]);
    assert_eq!(
        data_files[0].read_log_record(9),
        Ok(LogRecord { key: b"c".to_vec(), value: b"3".to_vec(), record_type: LogRecordType::NORMAL })
    );

    let engine: Engine<Faulty<TEARS_SECOND_WRITE>, BTree> =
        Engine::open(options(64, false), BTree::new(), data_files).unwrap();
    assert_eq!(engine.get(b("a")), Err(Errors::KeyNotFound));
    assert_eq!(engine.get(b("b")), Err(Errors::KeyNotFound));
    assert_eq!(engine.get(b("c")), Ok(b("3")));
}

#[test]
fn a_record_that_fits_stays_in_the_segment_after_a_failed_write() {
    let mut engine = faulty::<TEARS_SECOND_WRITE>(18, false).unwrap();
    assert_eq!(engine.put(b("a"), b("1")), Ok(()));
    assert_eq!(engine.put(b("b"), b("2")), Err(Errors::FailedToWriteToDataFile));
    assert_eq!(engine.put(b("b"), b("2")), Ok(()));
    let data_files = engine.close().unwrap();
    let shapes: Vec<(u32, u64)> =
        data_files.iter().map(|f| (f.get_file_id(), f.get_write_offset())).collect();
    assert_eq!(shapes, vec![(0, 18)]);
}

#[test]
fn a_write_that_failed_at_once_tears_nothing() {
    let mut engine = faulty::<FAILS_TO_WRITE>(64, false).unwrap();
    assert_eq!(engine.put(b("a"), b("1")), Err(Errors::FailedToWriteToDataFile));
    assert_eq!(engine.put(b("a"), b("1")), Err(Errors::FailedToWriteToDataFile));
    let data_files = engine.close().unwrap();
    assert_eq!(data_files.len(), 1);
    assert_eq!(data_files[0].get_write_offset(), 0);
}

#[test]
fn put_fails_where_the_sealed_segment_cannot_be_flushed() {
    let mut engine = faulty::<FAILS_TO_SYNC>(10, false).unwrap();
    assert_eq!(engine.put(b("a"), b("1")), Ok(()));
    assert_eq!(engine.put(b("b"), b("2")), Err(Errors::FailedToSyncDataFile));
    assert_eq!(engine.get(b("a")), Ok(b("1")));
    assert_eq!(engine.get(b("b")), Err(Errors::KeyNotFound));
}

#[test]
fn put_fails_where_the_next_segment_cannot_be_opened() {
    let mut engine = faulty::<OPENS_ONLY_ZERO>(10, false).unwrap();
    assert_eq!(engine.put(b("a"), b("1")), Ok(()));
    assert_eq!(engine.put(b("b"), b("2")), Err(Errors::FailedToOpenDataFile));
    assert_eq!(engine.get(b("a")), Ok(b("1")));
}

#[test]
fn close_fails_where_a_segment_cannot_be_flushed() {
    let engine = faulty::<FAILS_TO_SYNC>(64, false).unwrap();
    assert_eq!(engine.close().err(), Some(Errors::FailedToSyncDataFile));
}

#[test]
fn get_fails_where_the_store_cannot_be_read() {
    let mut engine = faulty::<FAILS_TO_READ>(64, false).unwrap();
    assert_eq!(engine.put(b("a"), b("1")), Ok(()));
    assert_eq!(engine.get(b("a")), Err(Errors::FailedToReadFromDataFile));
    assert_eq!(engine.get(b("b")), Err(Errors::KeyNotFound));
}

#[test]
fn open_fails_where_a_segment_cannot_be_read() {
    let mut file: DataFile<Faulty<FAILS_TO_READ>> =
        DataFile::new(PathBuf::from("/tmp/t"), 0).unwrap();
    assert_eq!(file.write(&encoded(b"a", b"1", LogRecordType::NORMAL)), Ok(9));
    let res = Engine::open(options(64, false), BTree::new(), vec![file]);
    assert_eq!(res.err(), Some(Errors::FailedToReadFromDataFile));
}

#[test]
fn short_reads_and_writes_are_carried_on() {
    let mut engine = faulty::<WRITES_ONE_BYTE>(64, false).unwrap();
    assert_eq!(engine.put(b("name"), b("bitcask")), Ok(()));
    assert_eq!(engine.put(b("a"), b("1")), Ok(()));
    assert_eq!(engine.get(b("name")), Ok(b("bitcask")));
    assert_eq!(engine.get(b("a")), Ok(b("1")));
    let data_files = engine.close().unwrap();
    assert_eq!(data_files[0].get_write_offset(), 27);
    let engine: Engine<Faulty<WRITES_ONE_BYTE>, BTree> =
        Engine::open(options(64, false), BTree::new(), data_files).unwrap();
    assert_eq!(engine.get(b("name")), Ok(b("bitcask")));
}

/// An index that holds one key at most.
struct OneKey {
    entry: Option<(Vec<u8>, LogRecordPos)>,
}

impl Indexer for OneKey {
    fn view(&self) -> Entries {
        unreachable!()
    }

    fn put(&mut self, key: Vec<u8>, pos: LogRecordPos) -> bool {
        match &self.entry {
            Some((have, _)) if *have != key => false,
            _ => {
                self.entry = Some((key, pos));
                true
            }
        }
    }

    fn get(&self, key: Vec<u8>) -> Option<LogRecordPos> {
        match &self.entry {
            Some((have, pos)) if *have == key => Some(*pos),
            _ => None,
        }
    }

    fn delete(&mut self, key: Vec<u8>) -> bool {
        match &self.entry {
            Some((have, _)) if *have == key => {
                self.entry = None;
                true
            }
            _ => false,
        }
    }
}

#[test]
fn put_fails_where_the_index_refuses() {
    let mut engine: Engine<MemoryIO, OneKey> =
        Engine::open(options(64, false), OneKey { entry: None }, Vec::new()).unwrap();
    assert_eq!(engine.put(b("a"), b("1")), Ok(()));
    assert_eq!(engine.put(b("b"), b("2")), Err(Errors::FailedToUpdataMemIndex));
    assert_eq!(engine.get(b("a")), Ok(b("1")));
    assert_eq!(engine.get(b("b")), Err(Errors::KeyNotFound));
    assert_eq!(engine.put(b("a"), b("3")), Ok(()));
    assert_eq!(engine.get(b("a")), Ok(b("3")));
}

#[test]
fn open_fails_where_the_index_refuses() {
    let mut contents = encoded(b"a", b"1", LogRecordType::NORMAL);
    contents.extend_from_slice(&encoded(b"b", b"2", LogRecordType::NORMAL));
    let res: Result<Engine<MemoryIO, OneKey>> =
        Engine::open(options(64, false), OneKey { entry: None }, vec![segment(0, &contents)]);
    assert_eq!(res.err(), Some(Errors::FailedToUpdataMemIndex));
}
