//! Log records and the segment files that hold them.

pub mod data_file;
pub mod file_name;
pub mod log_record;
