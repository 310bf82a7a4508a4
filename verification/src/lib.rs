//! A single-node vector search segment: fixed-dimension vectors with optional
//! structured payloads, approximate nearest-neighbour queries over a layered
//! proximity graph, and boolean payload filtering.
//!
//! Vector components and scores are IEEE 754 binary32 values carried as their
//! bit patterns (`u32`), so that all arithmetic and ordering on them is
//! ordinary verified integer code; see the `binary32` module.

pub mod binary32;
pub mod errors;
pub mod filters;
pub mod hnsw;
pub mod in_place;
pub mod metric;
pub mod payload;
pub(crate) mod rng;
pub mod segment;
pub mod stores;
pub mod types;
