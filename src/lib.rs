//! In-memory key-value caches: an unbounded map and a fixed-capacity cache that
//! evicts the least-recently-used entry when it overflows.
pub mod model;
pub mod lru;
pub mod cache;
pub mod laws;
