//! Stores that live in memory.

pub mod cas;
pub mod eav;
