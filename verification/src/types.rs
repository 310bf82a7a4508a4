//! Common type aliases and the distance-metric selector.

use vstd::prelude::*;

verus! {

/// The unique identifier for a point in the vector database.
pub type PointId = u64;

/// The vector representation of a point: one binary32 bit pattern per
/// component.
pub type Vector = Vec<u32>;

/// A similarity score, as a binary32 bit pattern.
pub type Score = u32;

/// The unique identifier for a segment (within a shard).
pub type SegmentId = u32;

/// The unique identifier for a shard (within a collection).
pub type ShardId = u32;

/// A basic alias for collection names.
pub type CollectionName = String;

/// Describes the type of distance metric used for similarity search.
#[derive(Debug, Clone, Copy, PartialEq, Eq, Structural)]
pub enum DistanceMetric {
    Cosine,
    Dot,
    Euclidean,
}

} // verus!
