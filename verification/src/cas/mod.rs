//! Content-addressable storage.

pub mod content;
pub mod storage;
