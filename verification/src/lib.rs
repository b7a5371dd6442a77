//! Multi-vector retrieval: the decisions behind building, sharding, loading,
//! searching and mutating a centroid-partitioned index.
//!
//! The library works on plain values. Tensors, devices, files and Python live
//! in the application around it, which hands over the numbers that a decision
//! needs and carries out what was decided.

pub mod index;
pub mod score;
pub mod search;
pub mod text;
pub mod utils;
