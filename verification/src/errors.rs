//! Error kinds surfaced by the cache core.

use vstd::prelude::*;

verus! {

/// The error taxonomy of the cache core. Kinds, not carriers: remediation
/// text and backend detail stay with the embedding.
#[derive(Clone, Copy, Debug, PartialEq, Eq, Structural)]
pub enum CacheError {
    /// Tag syntax, length or depth violated; rejects `set` and `invalidate`.
    InvalidTag,
    /// The embedded store's map is exhausted; the configured size must grow.
    StorageFull,
    /// A single-flight leader failed or the wait timed out.
    FlightLeaderFailed,
    /// A remote client could not obtain a connection.
    Connection,
    /// Any other backend failure.
    Runtime,
    /// Magic mismatch or decode failure on a stored entry.
    Corrupted,
    /// File system failure while opening the embedded store.
    Io,
    /// A host value could not be serialized or deserialized.
    Type,
}

impl CacheError {
    /// A short stable name for the kind, for logs and host exceptions.
    pub fn name(&self) -> (r: &'static str)
        ensures
            r@ == self.spec_name(),
    {
        match self {
            CacheError::InvalidTag => "invalid_tag",
            CacheError::StorageFull => "storage_full",
            CacheError::FlightLeaderFailed => "flight_leader_failed",
            CacheError::Connection => "connection",
            CacheError::Runtime => "runtime",
            CacheError::Corrupted => "corrupted",
            CacheError::Io => "io",
            CacheError::Type => "type",
        }
    }

    pub open spec fn spec_name(self) -> Seq<char> {
        match self {
            CacheError::InvalidTag => "invalid_tag"@,
            CacheError::StorageFull => "storage_full"@,
            CacheError::FlightLeaderFailed => "flight_leader_failed"@,
            CacheError::Connection => "connection"@,
            CacheError::Runtime => "runtime"@,
            CacheError::Corrupted => "corrupted"@,
            CacheError::Io => "io"@,
            CacheError::Type => "type"@,
        }
    }
}

} // verus!
