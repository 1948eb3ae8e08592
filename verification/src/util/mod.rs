//! Building blocks of the record format, and byte buffers.

pub mod buffer;
pub mod crc32;
pub mod varint;
