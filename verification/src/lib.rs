//! A small archiving library: a set of named byte entries is laid out as a
//! tar-style byte stream, compressed with LZ4, and framed with a 4-byte
//! little-endian length prefix recording the uncompressed size.

pub mod entry;
pub mod frame;
pub mod pack;
pub mod tarfmt;
