//! A log-structured, hash-indexed key-value storage core in the Bitcask
//! style: every write is appended to a log segment, an in-memory keydir
//! maps each live key to the location of its latest value, and compaction
//! rewrites live data into fresh segments.
//!
//! The modules hold the pure logic of the engine: the record codec, the
//! append-only segment model, the hint page buffer, the keydir, and the
//! engine facade with recovery and merge. File and directory handling is
//! left to the embedding program, which feeds segment bytes in and carries
//! segment bytes out.

pub mod entry;
pub mod errors;
pub mod hint;
pub mod keydir;
pub mod page;
pub mod segment;
pub mod store;
