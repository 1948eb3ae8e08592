//! The storage primitive under a segment: positional reads, appending writes
//! and flushing, over a sequence of bytes.

pub mod memory_io;

use crate::error::{Errors, Result};
use std::path::PathBuf;
use vstd::prelude::*;

verus! {

/// What a store holds, as a mathematical value.
pub type Contents = Seq<u8>;

/// A byte-addressable, append-only store. Implementations may keep the bytes
/// in a file, in memory or anywhere else; the engine relies on what is
/// stated here and on nothing more.
///
/// `view`, `durable` and `home` are specification functions: contracts
/// speak of them, and nothing that runs calls them. An implementation that is
/// not verified gives them bodies that do not return, and is trusted to keep
/// the contracts.
pub trait IOManager: Sized + Sync + Send {
    /// The bytes that the store holds.
    spec fn view(&self) -> Contents;

    /// The bytes that are known to have reached stable storage: what the
    /// store held when it was last flushed, as far as it was not cut since.
    spec fn durable(&self) -> Contents;

    /// The directory and the segment id that the store was opened for.
    spec fn home(&self) -> (PathBuf, u32);

    /// Opens the store of segment `file_id` under `dir_path`, creating it if
    /// there is none. No more is known to have reached stable storage than
    /// the store holds.
    fn open(dir_path: PathBuf, file_id: u32) -> (res: Result<Self>)
        ensures
            match res {
                Ok(store) => store.home() == (dir_path, file_id) && store.durable().len()
                    <= store@.len(),
                Err(e) => e == Errors::FailedToOpenDataFile,
            },
    ;

    /// Reads into the front of `buf` the bytes that start at `offset`, and
    /// says how many were read. May read fewer than `buf` holds, but reads at
    /// least one unless `buf` is empty or `offset` is at or past the end.
    fn read(&self, buf: &mut [u8], offset: u64) -> (res: Result<usize>)
        ensures
            final(buf)@.len() == old(buf)@.len(),
            match res {
                Ok(n) => {
                    &&& n <= old(buf)@.len()
                    &&& n > 0 ==> offset + n <= self@.len() && final(buf)@.subrange(0, n as int)
                        == self@.subrange(offset as int, offset + n)
                    &&& n == 0 ==> old(buf)@.len() == 0 || offset >= self@.len()
                },
                Err(e) => e == Errors::FailedToReadFromDataFile,
            },
    ;

    /// Appends bytes from the front of `buf` to the end of the store, and
    /// says how many were written. A failed write leaves the store as it
    /// was.
    fn write(&mut self, buf: &[u8]) -> (res: Result<usize>)
        ensures
            final(self).home() == old(self).home(),
            final(self).durable() == old(self).durable(),
            match res {
                Ok(n) => n <= buf@.len() && final(self)@ == old(self)@ + buf@.subrange(
                    0,
                    n as int,
                ),
                Err(e) => e == Errors::FailedToWriteToDataFile && final(self)@ == old(self)@,
            },
    ;

    /// Cuts the store down to its first `len` bytes; a store that is no
    /// longer is left as it is. Of what had reached stable storage the first
    /// `len` bytes are still known to be there. A failed call leaves the
    /// store as it was.
    fn truncate(&mut self, len: u64) -> (res: Result<()>)
        ensures
            final(self).home() == old(self).home(),
            match res {
                Ok(_) => {
                    &&& final(self)@ == if len <= old(self)@.len() {
                        old(self)@.subrange(0, len as int)
                    } else {
                        old(self)@
                    }
                    &&& final(self).durable() == if len <= old(self).durable().len() {
                        old(self).durable().subrange(0, len as int)
                    } else {
                        old(self).durable()
                    }
                },
                Err(e) => {
                    &&& e == Errors::FailedToWriteToDataFile
                    &&& final(self)@ == old(self)@
                    &&& final(self).durable() == old(self).durable()
                },
            },
    ;

    /// The number of bytes that the store holds.
    fn size(&self) -> (res: Result<u64>)
        ensures
            match res {
                Ok(n) => n == self@.len(),
                Err(e) => e == Errors::FailedToReadFromDataFile,
            },
    ;

    /// Forces what was written so far to stable storage: after a flush
    /// that succeeds, all that the store holds has reached it. The store
    /// holds what it held, and a flush that fails leaves what had reached
    /// stable storage as it was.
    fn sync(&mut self) -> (res: Result<()>)
        ensures
            final(self).home() == old(self).home(),
            final(self)@ == old(self)@,
            match res {
                Ok(_) => final(self).durable() == final(self)@,
                Err(e) => e == Errors::FailedToSyncDataFile && final(self).durable() == old(
                    self,
                ).durable(),
            },
    ;
}

} // verus!
