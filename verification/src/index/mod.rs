//! The in-memory index: where the latest record of each key lies.

pub mod btree;

use crate::data::log_record::LogRecordPos;
use vstd::prelude::*;

verus! {

/// What an index holds, as a mathematical value.
pub type Entries = Map<Seq<u8>, LogRecordPos>;

/// A map from keys to record positions. Any structure will do that keeps
/// what is stated here.
///
/// `view` is a specification function: contracts speak of it, and nothing
/// that runs calls it. An implementation that is not verified gives it a
/// body that does not return, and is trusted to keep the contracts.
pub trait Indexer: Sized + Sync + Send {
    /// The entries of the index.
    spec fn view(&self) -> Entries;

    /// Sets the position of `key`. An index may refuse (one with a limit on
    /// its size, say): it then says `false` and stays as it was.
    fn put(&mut self, key: Vec<u8>, pos: LogRecordPos) -> (ok: bool)
        ensures
            final(self)@ == if ok {
                old(self)@.insert(key@, pos)
            } else {
                old(self)@
            },
    ;

    /// The position of `key`, if it has one.
    fn get(&self, key: Vec<u8>) -> (pos: Option<LogRecordPos>)
        ensures
            pos == if self@.contains_key(key@) {
                Some(self@[key@])
            } else {
                None
            },
    ;

    /// Removes `key`, and says whether it was there.
    fn delete(&mut self, key: Vec<u8>) -> (removed: bool)
        ensures
            removed == old(self)@.contains_key(key@),
            final(self)@ == old(self)@.remove(key@),
    ;
}

} // verus!
