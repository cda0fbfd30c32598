//! An embedded, single-process key-value store over a log-structured,
//! append-only segment layout.  Every mutation is a record appended to the
//! tail of an active segment; an in-memory index maps each live key to the
//! offset of its most recent record; compaction rewrites live records into
//! fresh segments with a hint file that accelerates the next startup.
//!
//! The store's state is modelled on byte images of the on-disk directories,
//! so the format, the rebuild protocol and the compaction handoff are all
//! verified; an embedding supplies the images from real files and mirrors
//! them back.

use vstd::prelude::*;

pub mod database;
pub mod directory;
pub mod hint;
pub mod index;
pub mod record;
pub mod segment;
pub mod varint;

verus! {

/// The error kinds the store reports.
#[derive(Debug, Clone, Copy, PartialEq, Eq, Structural)]
pub enum Error {
    /// An underlying filesystem error, reported by an embedding.
    Io,
    /// A CRC mismatch, truncated record, varint overflow, missing separator
    /// in a hint value, or unparseable decimal field.
    Corrupt,
    /// An internal invariant was violated; a bug, not a user error.
    Invariant,
    /// A segment with the requested index already exists.
    AlreadyExists,
    /// An append was attempted on an immutable segment.
    Immutable,
}

/// Flag bit marking the first byte of a padding region inside a block.
pub const FLAG_PADDING: u8 = 1;

/// Flag bit marking a tombstone record: the key is deleted.
pub const FLAG_DELETED: u8 = 2;

/// Size of one block: record headers never cross a block boundary.
pub const BLOCK_BYTES: u64 = 32768;

/// Soft cap on a segment: a write that ends at or past this size marks
/// the segment full, which triggers rotation.
pub const MAX_SEGMENT_BYTES: u64 = 1073741824;

} // verus!
