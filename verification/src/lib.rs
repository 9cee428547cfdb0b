//! In-process cache core with hierarchical tag-based invalidation.
//!
//! Values are opaque byte blobs keyed by strings; every entry carries a set of
//! dependency tags. Invalidating any prefix of a tag logically evicts every
//! entry that depends on it. Versions live in a prefix-keyed counter store;
//! entries record version snapshots at write time and are validated on read.

pub mod bus;
pub mod cache;
pub mod codec;
pub mod embedded;
pub mod errors;
pub mod flight;
pub mod hashing;
pub mod remote;
pub mod storage;
pub mod strmap;
pub mod tags;
pub mod trie;
pub mod worker;
pub mod utils;
