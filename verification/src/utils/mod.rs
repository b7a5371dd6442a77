//! Types and helpers shared by indexing and search.

pub mod batching;
pub mod types;
