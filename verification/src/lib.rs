//! A sequential binary-buffer reader.
//!
//! A [`BinaryReader`] owns an in-memory byte buffer and a cursor, and decodes
//! fixed-width integers, raw byte ranges and null-terminated strings from it,
//! under a selectable byte order.

pub mod endian;
pub mod reader;

pub use endian::Endian;
pub use reader::BinaryReader;
pub use reader::ReadError;
