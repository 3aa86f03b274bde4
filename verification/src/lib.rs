//! An embedded append-only-log key-value store in the Bitcask style, with an
//! in-memory snapshot-isolated transaction layer over an ordered backing map.
//!
//! The store keeps the log as a byte string framed into header-prefixed
//! records and serves reads from an in-memory index (the KeyDir). The
//! transaction layer assigns monotonically increasing versions, detects
//! write conflicts on versioned keys, and offers repeatable-read snapshots.
use vstd::prelude::*;

pub mod bytes;
pub mod mvcc;
pub mod omap;
pub mod store;

verus! {

/// The error kinds surfaced by the store and the transaction layer.
#[derive(Clone, Copy, Debug, PartialEq, Eq, Structural)]
pub enum Error {
    /// An underlying filesystem fault, reported by the unverified shell.
    Io,
    /// Another holder has the log's advisory file lock.
    LockBusy,
    /// A record header or key could not be read before end of file.
    CorruptRecord,
    /// A write found a versioned record that is not visible to the writer.
    Conflict,
    /// A declared but unavailable operation was invoked.
    Unimplemented,
}

} // verus!
