//! Entity-attribute-value-index storage.

pub mod content;
pub mod eavi;
pub mod query;
pub mod set;
pub mod storage;
