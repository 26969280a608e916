//! The VP container: a 16-byte header, entry payloads, and a flat index of
//! fixed-size records that spells out a directory tree.

pub mod compression;
pub mod fs;
pub mod parser;
pub mod types;
pub mod writer;
