//! A small single-file storage engine.
//!
//! The engine manages a database image partitioned into fixed-size pages,
//! stores table rows inside table-leaf pages using a compact tagged-record
//! encoding, and keeps a self-describing schema catalog on page 1.  The
//! database image lives in memory as plain bytes; an embedding program reads
//! the image from disk before calling in and writes it back afterwards.

use vstd::prelude::*;

pub mod serialise;
pub mod varint;
pub mod record;
pub mod record_read;
pub mod catalog;
pub mod page;
pub mod database;
pub mod values;
pub mod tables;

verus! {

/// Everything that can go wrong inside the storage engine.
#[derive(Clone, Copy, Debug, PartialEq, Eq, Structural)]
pub enum DbError {
    /// A failure of the underlying file system, reported by the embedding
    /// program; the engine itself never performs I/O.
    Io,
    /// The database image is malformed: short header, unknown page type,
    /// text payload that is not UTF-8, or inconsistent lengths.
    Corruption,
    /// The page type is recognized but not implemented
    /// (index leaf, index interior, table interior).
    Unsupported,
    /// A table-leaf insert would overflow the boundary between the
    /// cell-pointer array and the cell-content region.
    PageFull,
    /// A catalog lookup resolved to no row.
    NoSuchTable,
    /// A catalog lookup resolved to more than one row.
    AmbiguousTable,
    /// A caller-supplied string cannot be parsed into the declared column type.
    BadValue,
    /// A value outside the 8-byte signed range was offered for storage
    /// in an integer column.
    IntegerOverflow,
}

} // verus!
