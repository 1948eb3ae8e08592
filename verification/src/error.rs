use vstd::prelude::*;

verus! {

/// Everything that can go wrong in the storage engine.
#[derive(Clone, Copy, Debug, PartialEq, Eq)]
pub enum Errors {
    FailedToReadFromDataFile,
    FailedToWriteToDataFile,
    FailedToSyncDataFile,
    FailedToOpenDataFile,
    KeyIsEmpty,
    FailedToUpdataMemIndex,
    KeyNotFound,
    DataFileNotFound,
    CorruptRecord,
}

pub type Result<T> = core::result::Result<T, Errors>;

impl Errors {
    /// The failure in words.
    pub open spec fn spec_message(self) -> Seq<char> {
        match self {
            Errors::FailedToReadFromDataFile => "failed to read from data file"@,
            Errors::FailedToWriteToDataFile => "failed to write to data file"@,
            Errors::FailedToSyncDataFile => "failed to sync data file"@,
            Errors::FailedToOpenDataFile => "failed to open data file"@,
            Errors::KeyIsEmpty => "key is empty"@,
            Errors::FailedToUpdataMemIndex => "failed to update memory index"@,
            Errors::KeyNotFound => "key not found"@,
            Errors::DataFileNotFound => "data file not found"@,
            Errors::CorruptRecord => "corrupt record"@,
        }
    }

    /// Says in words what failed.
    pub fn message(&self) -> (msg: &'static str)
        ensures
            msg@ == self.spec_message(),
    {
        match self {
            Errors::FailedToReadFromDataFile => "failed to read from data file",
            Errors::FailedToWriteToDataFile => "failed to write to data file",
            Errors::FailedToSyncDataFile => "failed to sync data file",
            Errors::FailedToOpenDataFile => "failed to open data file",
            Errors::KeyIsEmpty => "key is empty",
            Errors::FailedToUpdataMemIndex => "failed to update memory index",
            Errors::KeyNotFound => "key not found",
            Errors::DataFileNotFound => "data file not found",
            Errors::CorruptRecord => "corrupt record",
        }
    }

    /// True for the failures that the storage primitive reports.
    pub open spec fn is_io_failure(self) -> bool {
        self is FailedToReadFromDataFile || self is FailedToWriteToDataFile
            || self is FailedToSyncDataFile || self is FailedToOpenDataFile
    }
}

} // verus!
