//! A store that keeps its bytes in memory.

use crate::error::{Errors, Result};
use crate::fio::IOManager;
use std::path::PathBuf;
use vstd::prelude::*;

verus! {

/// An in-memory store: nothing survives the value, and a flush only marks
/// what the store holds as kept. It never fails.
pub struct MemoryIO {
    data: Vec<u8>,
    flushed: Ghost<Seq<u8>>,
    home: Ghost<(PathBuf, u32)>,
}

impl MemoryIO {
    /// An empty store for segment `file_id` under `dir_path`.
    pub fn new(dir_path: PathBuf, file_id: u32) -> (io: MemoryIO)
        ensures
            io@ == Seq::<u8>::empty(),
            io.durable() == Seq::<u8>::empty(),
            io.home() == (dir_path, file_id),
    {
        MemoryIO {
            data: Vec::new(),
            flushed: Ghost(Seq::empty()),
            home: Ghost((dir_path, file_id)),
        }
    }
}

impl IOManager for MemoryIO {
    closed spec fn view(&self) -> Seq<u8> {
        self.data@
    }

    closed spec fn durable(&self) -> Seq<u8> {
        self.flushed@
    }

    closed spec fn home(&self) -> (PathBuf, u32) {
        self.home@
    }

    fn open(dir_path: PathBuf, file_id: u32) -> (res: Result<MemoryIO>)
        ensures
            res is Ok,
            res.unwrap()@ == Seq::<u8>::empty(),
            res.unwrap().durable() == Seq::<u8>::empty(),
    {
        Ok(MemoryIO::new(dir_path, file_id))
    }

    fn read(&self, buf: &mut [u8], offset: u64) -> (res: Result<usize>)
        ensures
            res == Ok::<usize, Errors>(
                if offset >= self@.len() {
                    0usize
                } else if old(buf)@.len() < self@.len() - offset {
                    old(buf)@.len() as usize
                } else {
                    (self@.len() - offset) as usize
                },
            ),
    {
        let len: usize = self.data.len();
        if offset >= len as u64 {
            return Ok(0);
        }
        let start: usize = offset as usize;
        let available: usize = len - start;
        let n: usize = if buf.len() < available {
            buf.len()
        } else {
            available
        };
        let mut i: usize = 0;
        while i < n
            invariant
                i <= n,
                n <= buf@.len(),
                start + n <= self.data@.len() <= usize::MAX,
                buf@.len() == old(buf)@.len(),
                buf@.subrange(0, i as int) == self.data@.subrange(start as int, start + i),
            decreases n - i,
        {
            let byte: u8 = self.data[start + i];
            buf[i] = byte;
            i = i + 1;
            assert(buf@.subrange(0, i as int) =~= self.data@.subrange(start as int, start + i));
        }
        Ok(n)
    }

    fn write(&mut self, buf: &[u8]) -> (res: Result<usize>)
        ensures
            res == Ok::<usize, Errors>(buf@.len() as usize),
    {
        self.data.extend_from_slice(buf);
        assert(buf@.subrange(0, buf@.len() as int) =~= buf@);
        Ok(buf.len())
    }

    fn truncate(&mut self, len: u64) -> (res: Result<()>)
        ensures
            res is Ok,
    {
        if len <= self.data.len() as u64 {
            self.data.truncate(len as usize);
        }
        self.flushed = Ghost(
            if len <= self.flushed@.len() {
                self.flushed@.subrange(0, len as int)
            } else {
                self.flushed@
            },
        );
        Ok(())
    }

    fn size(&self) -> (res: Result<u64>)
        ensures
            res is Ok,
    {
        Ok(self.data.len() as u64)
    }

    fn sync(&mut self) -> (res: Result<()>)
        ensures
            res is Ok,
    {
        self.flushed = Ghost(self.data@);
        Ok(())
    }
}

} // verus!
