//! A segment: one append-only file of records, with the cursor at which the
//! next record will be written.

use crate::data::log_record::{
    lemma_decode_front, lemma_decode_header_front, lemma_decode_header_len, spec_decode_header,
    spec_record_at, LogRecord, RecordHeader, MAX_HEADER_LEN,
};
use crate::error::{Errors, Result};
use crate::fio::IOManager;
use std::path::PathBuf;
use vstd::prelude::*;
use vstd::slice::slice_subrange;

verus! {

/// The most that is asked of the store in one read.
pub const READ_CHUNK: usize = 4096;

/// A segment of the log. Its contents are the bytes before the cursor: a
/// write that failed on the way may have left bytes behind it, which are cut
/// off before anything else is written or flushed.
pub struct DataFile<IO: IOManager> {
    dir_path: PathBuf,
    file_id: u32,
    write_offset: u64,
    /// Where the store ends.
    end: u64,
    io_manager: IO,
}

impl<IO: IOManager> DataFile<IO> {
    /// The directory of the segment.
    pub closed spec fn spec_dir_path(&self) -> PathBuf {
        self.dir_path
    }

    /// The id of the segment.
    pub closed spec fn spec_file_id(&self) -> u32 {
        self.file_id
    }

    /// The offset at which the next record will be written.
    pub closed spec fn spec_write_offset(&self) -> u64 {
        self.write_offset
    }

    /// The bytes of the segment: what the store holds before the cursor.
    pub closed spec fn view(&self) -> Seq<u8> {
        self.io_manager@.subrange(0, self.write_offset as int)
    }

    /// All that the store holds: the bytes of the segment, and behind them
    /// what a write that failed on the way may have left.
    pub closed spec fn stored(&self) -> Seq<u8> {
        self.io_manager@
    }

    /// The bytes of the segment that are known to have reached stable
    /// storage.
    pub closed spec fn durable(&self) -> Seq<u8> {
        self.io_manager.durable()
    }

    /// The cursor stands within the store, whose end is known; nothing
    /// behind the cursor is known to have reached stable storage; and the
    /// store was opened for this segment in its directory.
    pub closed spec fn wf(&self) -> bool {
        &&& self.write_offset <= self.end
        &&& self.end == self.io_manager@.len()
        &&& self.io_manager.durable().len() <= self.write_offset
        &&& self.io_manager.home() == (self.dir_path, self.file_id)
    }

    /// The directory and the segment id that the store of the segment was
    /// opened for.
    pub closed spec fn home(&self) -> (PathBuf, u32) {
        self.io_manager.home()
    }

    /// The cursor of a well-formed segment is the length of its contents,
    /// which are the front of what the store holds; and no more has reached
    /// stable storage than the segment holds.
    pub proof fn lemma_cursor_at_end(&self)
        requires
            self.wf(),
        ensures
            self.spec_write_offset() == self@.len(),
            self@.len() <= self.stored().len(),
            self@ == self.stored().subrange(0, self@.len() as int),
            self.durable().len() <= self@.len(),
            self.home() == (self.spec_dir_path(), self.spec_file_id()),
    {
    }

    /// Opens segment `file_id` under `dir_path`, with the cursor at its end.
    pub fn new(dir_path: PathBuf, file_id: u32) -> (res: Result<DataFile<IO>>)
        ensures
            match res {
                Ok(file) => {
                    &&& file.wf()
                    &&& file.spec_file_id() == file_id
                    &&& file.spec_dir_path() == dir_path
                    &&& file.stored() == file@
                },
                Err(e) => e == Errors::FailedToOpenDataFile,
            },
    {
        let io_manager = IO::open(dir_path.clone(), file_id)?;
        match io_manager.size() {
            Ok(size) => {
                proof {
                    assert(io_manager@.subrange(0, size as int) =~= io_manager@);
                }
                Ok(DataFile { dir_path, file_id, write_offset: size, end: size, io_manager })
            },
            Err(_) => Err(Errors::FailedToOpenDataFile),
        }
    }

    pub fn get_write_offset(&self) -> (offset: u64)
        ensures
            offset == self.spec_write_offset(),
    {
        self.write_offset
    }

    pub fn get_file_id(&self) -> (id: u32)
        ensures
            id == self.spec_file_id(),
    {
        self.file_id
    }

    /// Reads up to `len` bytes that start at `offset`: all of them, unless
    /// the segment ends before.
    fn read_up_to(&self, offset: u64, len: usize) -> (res: Result<Vec<u8>>)
        requires
            self.wf(),
            offset <= self@.len(),
        ensures
            match res {
                Ok(bytes) => bytes@ == self@.subrange(
                    offset as int,
                    if offset + len <= self@.len() {
                        offset + len
                    } else {
                        self@.len() as int
                    },
                ),
                Err(e) => e == Errors::FailedToReadFromDataFile,
            },
    {
        let available: u64 = self.write_offset - offset;
        let want: usize = if len as u64 <= available {
            len
        } else {
            available as usize
        };
        let mut bytes: Vec<u8> = Vec::new();
        let mut chunk: Vec<u8> = vec![0u8; if want < READ_CHUNK { want } else { READ_CHUNK }];
        while bytes.len() < want
            invariant
                self.wf(),
                offset + want <= self@.len(),
                bytes@.len() <= want,
                want > 0 ==> chunk@.len() > 0,
                bytes@ == self@.subrange(offset as int, offset + bytes@.len()),
            decreases want - bytes@.len(),
        {
            let got: usize = bytes.len();
            let n: usize = self.io_manager.read(chunk.as_mut_slice(), offset + got as u64)?;
            if n == 0 {
                return Err(Errors::FailedToReadFromDataFile);
            }
            let take: usize = if n < want - got {
                n
            } else {
                want - got
            };
            bytes.extend_from_slice(slice_subrange(chunk.as_slice(), 0, take));
            proof {
                let start = offset + got;
                let stored = self.io_manager@;
                assert(chunk@.subrange(0, take as int) =~= chunk@.subrange(0, n as int).subrange(
                    0,
                    take as int,
                ));
                assert(stored.subrange(start, start + n).subrange(0, take as int)
                    =~= self@.subrange(start, start + take));
                assert(bytes@ =~= self@.subrange(offset as int, offset + got + take));
            }
        }
        Ok(bytes)
    }

    /// Reads the header that starts at `offset`, and hands back the bytes
    /// that were read for it: the first `MAX_HEADER_LEN` from `offset` on, or
    /// all that are left.
    fn read_header(&self, offset: u64) -> (res: Result<(Vec<u8>, Option<RecordHeader>)>)
        requires
            self.wf(),
            offset < self@.len(),
        ensures
            match res {
                Ok((bytes, header)) => {
                    &&& header == spec_decode_header(self@.skip(offset as int))
                    &&& bytes@.len() <= self@.len() - offset
                    &&& bytes@ == self@.skip(offset as int).subrange(0, bytes@.len() as int)
                },
                Err(e) => e == Errors::FailedToReadFromDataFile,
            },
    {
        let bytes: Vec<u8> = self.read_up_to(offset, MAX_HEADER_LEN)?;
        proof {
            let rest = self@.skip(offset as int);
            assert(bytes@ =~= rest.subrange(0, bytes@.len() as int));
            lemma_decode_header_front(rest, bytes@);
        }
        let header = LogRecord::decode_header(bytes.as_slice());
        Ok((bytes, header))
    }

    /// Reads the record that starts at `offset`, and says how many bytes it
    /// takes in the segment. Fails with `CorruptRecord` where no whole record
    /// with a matching checksum starts there, with `FailedToReadFromDataFile`
    /// where the store fails. At the end of the segment and behind it nothing
    /// is read, and no record is found.
    pub fn read_log_record_sized(&self, offset: u64) -> (res: Result<(LogRecord, usize)>)
        requires
            self.wf(),
        ensures
            match res {
                Ok((record, size)) => spec_record_at(self@, offset as nat) == Some(
                    (record@, size as nat),
                ),
                Err(e) => {
                    ||| e == Errors::FailedToReadFromDataFile
                    ||| e == Errors::CorruptRecord && (spec_record_at(self@, offset as nat) matches Some(
                        found,
                    ) ==> found.1 > usize::MAX)
                },
            },
            offset >= self@.len() ==> res matches Err(Errors::CorruptRecord),
    {
        if offset >= self.write_offset {
            proof {
                if offset == self@.len() {
                    assert(self@.skip(offset as int).len() == 0);
                }
            }
            return Err(Errors::CorruptRecord);
        }
        let ghost rest = self@.skip(offset as int);
        let (mut bytes, found) = self.read_header(offset)?;
        let header = match found {
            Some(h) => h,
            None => {
                return Err(Errors::CorruptRecord);
            },
        };
        proof {
            lemma_decode_header_len(rest);
            assert(rest =~= rest.subrange(0, rest.len() as int));
            lemma_decode_front(rest, rest);
        }
        let size: usize = match header.fit(self.write_offset - offset) {
            Some(size) => size,
            None => {
                return Err(Errors::CorruptRecord);
            },
        };
        if size <= bytes.len() {
            bytes.truncate(size);
        } else {
            let have: usize = bytes.len();
            let more: Vec<u8> = self.read_up_to(offset + have as u64, size - have)?;
            bytes.extend_from_slice(more.as_slice());
        }
        proof {
            assert(bytes@ =~= rest.subrange(0, size as int));
            lemma_decode_front(rest, bytes@);
        }
        LogRecord::decode(bytes.as_slice())
    }

    /// Reads the record that starts at `offset`.
    pub fn read_log_record(&self, offset: u64) -> (res: Result<LogRecord>)
        requires
            self.wf(),
        ensures
            match res {
                Ok(record) => {
                    &&& spec_record_at(self@, offset as nat) matches Some(found)
                    &&& found.0 == record@
                },
                Err(e) => {
                    ||| e == Errors::FailedToReadFromDataFile
                    ||| e == Errors::CorruptRecord && (spec_record_at(self@, offset as nat) matches Some(
                        found,
                    ) ==> found.1 > usize::MAX)
                },
            },
            offset >= self@.len() ==> res matches Err(Errors::CorruptRecord),
    {
        match self.read_log_record_sized(offset) {
            Ok((record, _)) => Ok(record),
            Err(e) => Err(e),
        }
    }

    /// Appends all of `buf` at the cursor, and moves the cursor behind it.
    /// Where the store fails, the segment is as it was: a front part of `buf`,
    /// never all of it, may lie behind the cursor, and is cut off before the
    /// next write. Nothing is asked of the store where `buf` is empty.
    pub fn write(&mut self, buf: &[u8]) -> (res: Result<usize>)
        requires
            old(self).wf(),
        ensures
            final(self).wf(),
            final(self).spec_file_id() == old(self).spec_file_id(),
            final(self).spec_dir_path() == old(self).spec_dir_path(),
            final(self).durable() == old(self).durable(),
            buf@.len() == 0 ==> res is Ok,
            match res {
                Ok(n) => {
                    &&& n == buf@.len()
                    &&& final(self)@ == old(self)@ + buf@
                    &&& buf@.len() > 0 ==> final(self).stored() == final(self)@
                },
                Err(e) => {
                    &&& e == Errors::FailedToWriteToDataFile
                    &&& final(self)@ == old(self)@
                    &&& final(self).stored() == old(self).stored() || exists|k: int|
                        0 <= k < buf@.len() && final(self).stored() == old(self)@
                            + #[trigger] buf@.subrange(0, k)
                },
            },
    {
        let len: usize = buf.len();
        if len == 0 {
            assert(self@ + buf@ =~= self@);
            return Ok(0);
        }
        // Cut off what a failed write left behind the cursor.
        if self.end > self.write_offset {
            match self.io_manager.truncate(self.write_offset) {
                Ok(_) => {
                    self.end = self.write_offset;
                },
                Err(_) => {
                    return Err(Errors::FailedToWriteToDataFile);
                },
            }
        }
        if len as u64 > u64::MAX - self.write_offset {
            proof {
                assert(self.io_manager@ =~= old(self)@ + buf@.subrange(0, 0));
            }
            return Err(Errors::FailedToWriteToDataFile);
        }
        let mut written: usize = 0;
        proof {
            assert(self.io_manager@ =~= old(self)@ + buf@.subrange(0, 0));
        }
        while written < len
            invariant
                written <= len,
                len == buf@.len(),
                self.file_id == old(self).file_id,
                self.dir_path == old(self).dir_path,
                self.io_manager.home() == (self.dir_path, self.file_id),
                self.write_offset == old(self).write_offset,
                old(self).write_offset + len <= u64::MAX,
                self.end == old(self).write_offset + written,
                self.end == self.io_manager@.len(),
                self.io_manager.durable() == old(self).io_manager.durable(),
                self.io_manager.durable().len() <= self.write_offset,
                self.io_manager@ == old(self)@ + buf@.subrange(0, written as int),
            decreases len - written,
        {
            let n: usize = match self.io_manager.write(slice_subrange(buf, written, len)) {
                Ok(n) => n,
                Err(_) => {
                    proof {
                        assert(self@ =~= old(self)@);
                    }
                    return Err(Errors::FailedToWriteToDataFile);
                },
            };
            proof {
                assert(buf@.subrange(written as int, len as int).subrange(0, n as int)
                    =~= buf@.subrange(written as int, written + n));
                assert(buf@.subrange(0, written as int) + buf@.subrange(
                    written as int,
                    written + n,
                ) =~= buf@.subrange(0, written + n));
            }
            if n == 0 {
                proof {
                    assert(self@ =~= old(self)@);
                }
                return Err(Errors::FailedToWriteToDataFile);
            }
            written = written + n;
            self.end = self.end + n as u64;
        }
        self.write_offset = self.end;
        proof {
            assert(buf@.subrange(0, len as int) =~= buf@);
            assert(self@ =~= self.io_manager@);
        }
        Ok(len)
    }

    /// Cuts the segment down to its first `len` bytes and puts the cursor
    /// there; a segment that is no longer is left as it is. Of what had
    /// reached stable storage the first `len` bytes are still known to be
    /// there.
    pub fn truncate(&mut self, len: u64) -> (res: Result<()>)
        requires
            old(self).wf(),
        ensures
            final(self).wf(),
            final(self).spec_file_id() == old(self).spec_file_id(),
            final(self).spec_dir_path() == old(self).spec_dir_path(),
            match res {
                Ok(_) => {
                    &&& final(self)@ == if len <= old(self)@.len() {
                        old(self)@.subrange(0, len as int)
                    } else {
                        old(self)@
                    }
                    &&& final(self).durable() == if len <= old(self).durable().len() {
                        old(self).durable().subrange(0, len as int)
                    } else {
                        old(self).durable()
                    }
                },
                Err(e) => {
                    &&& e == Errors::FailedToWriteToDataFile
                    &&& final(self)@ == old(self)@
                    &&& final(self).stored() == old(self).stored()
                    &&& final(self).durable() == old(self).durable()
                },
            },
    {
        self.io_manager.truncate(len)?;
        if len < self.end {
            self.end = len;
        }
        if len < self.write_offset {
            self.write_offset = len;
        }
        proof {
            if len <= old(self)@.len() {
                assert(self@ =~= old(self)@.subrange(0, len as int));
            } else {
                assert(self@ =~= old(self)@);
            }
        }
        Ok(())
    }

    /// Forces what was written so far to stable storage: after a flush
    /// that succeeds, all of the segment has reached it, and the store holds
    /// the segment and nothing more. What a failed write left behind the
    /// cursor is cut off first. The segment and its cursor stay as they are,
    /// and a flush that fails leaves what had reached stable storage as it
    /// was.
    pub fn sync(&mut self) -> (res: Result<()>)
        requires
            old(self).wf(),
        ensures
            final(self).wf(),
            final(self)@ == old(self)@,
            final(self).spec_file_id() == old(self).spec_file_id(),
            final(self).spec_dir_path() == old(self).spec_dir_path(),
            final(self).spec_write_offset() == old(self).spec_write_offset(),
            match res {
                Ok(_) => final(self).durable() == final(self)@ && final(self).stored()
                    == final(self)@,
                Err(e) => e == Errors::FailedToSyncDataFile && final(self).durable() == old(
                    self,
                ).durable(),
            },
    {
        if self.end > self.write_offset {
            match self.io_manager.truncate(self.write_offset) {
                Ok(_) => {
                    self.end = self.write_offset;
                },
                Err(_) => {
                    return Err(Errors::FailedToSyncDataFile);
                },
            }
        }
        proof {
            assert(self@ =~= old(self)@);
        }
        let flushed = self.io_manager.sync();
        proof {
            assert(self@ =~= old(self)@);
            assert(self@ =~= self.io_manager@);
        }
        flushed
    }
}

} // verus!
