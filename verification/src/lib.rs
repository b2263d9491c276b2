//! Chunk-level editor for PNG files.
//!
//! A PNG file is an 8-byte signature followed by a sequence of chunks, each
//! `length(4, big-endian) | type(4 ASCII bytes) | data(length bytes) | crc(4, big-endian)`.
//! The library decodes and encodes single chunks, scans a file while counting
//! occurrences per type tag, and rewrites a file to update, delete or insert
//! one chunk while reproducing every other byte unchanged.  All functions are
//! pure over in-memory byte vectors; reading and writing the file itself is
//! the caller's business.

pub mod bytes;
pub mod checksum;
pub mod chunk;
pub mod error;
pub mod ops;
pub mod params;
pub mod scan;
