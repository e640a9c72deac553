//! A small flat file store kept in a byte-addressable persistent memory.
//!
//! The memory is 1024 bytes. Its first 88 bytes hold a directory table of eight
//! records of eleven bytes each: the address of a file's payload (two bytes,
//! low byte first; `0xFFFF` marks an unused slot), its length (one byte) and its
//! name (eight bytes, padded with zero bytes). The rest is the data region,
//! where the payloads lie without headers.
//!
//! - [`storage`] holds the image of the memory and reads and writes its bytes.
//! - [`record`] encodes and decodes directory records.
//! - [`table`] looks slots up, formats the table, and states the invariant of
//!   the store: live payloads lie in the data region and do not overlap.
//! - [`placement`] chooses where a new payload goes, by first fit.
//! - [`files`] creates, reads, measures, removes and lists files.
//! - [`defrag`] moves the payloads together to close the gaps.
//! - [`command`] is the line interpreter on top of these.
//! - [`laws`] proves what holds across operations.
//! - [`bounded`] holds the contracts of the fixed-capacity lists in use, and
//!   [`search`] and [`text`] hold helpers.

pub mod bounded;
pub mod command;
pub mod defrag;
pub mod files;
pub mod laws;
pub mod placement;
pub mod record;
pub mod search;
pub mod storage;
pub mod table;
pub mod text;
