//! An embedded log-structured key-value storage engine in the Bitcask style:
//! values are appended to segment files and an in-memory index maps each key
//! to the place of its latest record.

pub mod data;
pub mod db;
pub mod error;
pub mod fio;
pub mod index;
pub mod options;
pub mod recovery;
pub mod util;
