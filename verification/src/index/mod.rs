//! Building and changing of an index.

pub mod encode;
pub mod files;
pub mod history;
pub mod packing;
pub mod rewrite;
pub mod update;
