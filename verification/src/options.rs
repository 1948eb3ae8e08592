//! Configuration of an engine.

use std::path::PathBuf;
use vstd::prelude::*;

verus! {

/// A filesystem path. Nothing in the engine looks inside one: it is handed on
/// to the storage primitive.
#[verifier::external_type_specification]
#[verifier::external_body]
pub struct ExPathBuf(PathBuf);

/// `PathBuf::clone` gives a path of its own that is equal to the one it was
/// made from.
pub assume_specification[ <PathBuf as Clone>::clone ](path: &PathBuf) -> (res: PathBuf)
    ensures
        res == *path,
;

/// How an engine is set up.
pub struct Options {
    /// The directory that holds the segment files.
    pub dir_path: PathBuf,
    /// The size in bytes that no segment grows beyond, a single larger record
    /// apart.
    pub data_file_size: u64,
    /// Whether every write is flushed to stable storage before it returns.
    pub sync_write: bool,
}

} // verus!
