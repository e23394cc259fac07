//! A sharded membership set for fixed-width identifiers (content digests).
//!
//! The set partitions the identifier space into a fixed number of buckets,
//! keyed by the identifier's first byte, so that work on identifiers with
//! different partition keys touches disjoint parts of the structure.

pub mod blob_id;
pub mod blob_id_set;

pub use blob_id::BlobId;
pub use blob_id::ID_LEN;
pub use blob_id_set::BlobIdSet;
pub use blob_id_set::BUCKET_COUNT;
