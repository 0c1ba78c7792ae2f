//! ParsecDB: an embedded vector database built around a flat index and an
//! HNSW graph, with a write-ahead log and binary snapshots.
//!
//! Coordinates and distances are IEEE-754 `f32` values; this library holds
//! them by their bit patterns (`u32`) and orders distances by a verified
//! total order on those patterns. The arithmetic on floats lives with the
//! caller, who hands the library a distance function over bit patterns.
pub mod buffer;
pub mod codec;
pub mod error;
pub mod flat;
pub mod graph;
pub mod hnsw;
pub mod protocol;
pub mod types;
pub mod wal;
