//! What a store behind a growing memory map decides: when the map is full,
//! how it grows, and how a commit is tried again.

pub mod common;
pub mod eav;
pub mod error;
pub mod memory;
pub mod txn;
