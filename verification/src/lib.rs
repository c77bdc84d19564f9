//! An embedded, persistent key-value store backed by an append-only log.
//!
//! The store keeps a map from byte-string keys to byte-string values.  Every
//! mutation is appended to the current segment of a generational log; an
//! in-memory index maps each live key to the exact byte range of its most
//! recent `Set` record.  Opening a store replays the segments in generation
//! order to rebuild the index, and a compaction pass rewrites the live records
//! into a fresh segment once enough stale bytes have accumulated.
//!
//! The library itself performs no file I/O: segments are held as byte vectors,
//! and every mutation also emits a list of [`store::FileOp`] instructions that
//! an embedding applies to the backing directory to keep it in sync.

pub mod codec;
pub mod index;
pub mod names;
pub mod store;

use vstd::prelude::*;

verus! {

/// The errors a store operation can surface.
#[derive(Clone, Copy, Debug, PartialEq, Eq, Structural)]
pub enum KvsError {
    /// `remove` was asked for a key that is not present.
    KeyNotFound,
    /// A log record was malformed or truncated: the log is corrupt.
    Corrupt,
    /// The 64-bit generation counter has no room for a fresh segment.
    GenerationsExhausted,
}

} // verus!
