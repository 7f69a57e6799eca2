//! An extendible-hash key/value index.
//!
//! Keys are opaque byte strings and values are 64-bit integers. A directory
//! maps a prefix of the key's hash to a segment; each segment holds 64
//! fixed-size buckets of 16 records. When a bucket overflows, the owning
//! segment is split: its local depth rises by one, a sibling segment takes
//! the records whose next hash bit is set, and the directory (doubled first
//! if necessary) is rewired so that the sibling owns the upper half of the
//! old segment's slots.

use vstd::prelude::*;

pub mod bucket;
pub mod directory;
pub mod laws;
pub mod meh;
pub mod prefix;
pub mod serializer;
pub mod store;

verus! {

/// Number of records in a bucket.
pub const BUCKET_RECORDS: usize = 16;

/// Number of buckets in a segment.
pub const BUCKETS_PER_SEGMENT: usize = 64;

/// Bytes in a serialized record: two little-endian `u64`s.
pub const RECORD_SIZE: usize = 16;

/// Bytes in a serialized bucket.
pub const BUCKET_SIZE: usize = 256;

/// Bytes in a serialized segment: a depth byte and 64 buckets.
pub const SEGMENT_SIZE: usize = 16385;

} // verus!
