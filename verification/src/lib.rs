//! An in-memory extendible hash table.
//!
//! The table addresses fixed-capacity buckets through a directory of
//! `2^global_depth` slots. A key is routed by the low-order bits of its hash;
//! when a bucket overflows it is split on one more hash bit, and the directory
//! is doubled first whenever the bucket already uses every bit the directory
//! has. Growth is therefore incremental: no operation rehashes the whole table.
//!
//! The table is a single-threaded, memory-resident structure. It never
//! shrinks: deletions empty buckets but merge none.

pub mod bits;
pub mod bucket;
pub mod growth;
pub mod hasher;
pub mod laws;
pub mod table;

pub use bits::bitmask;
pub use bucket::Bucket;
pub use hasher::{DefaultKeyHasher, FnHasher, KeyHasher};
pub use table::{Error, HashTable, BUCKET_SIZE, MAX_DEPTH};
