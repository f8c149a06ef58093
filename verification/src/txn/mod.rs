//! Cursors: handles that read and write a pair of stores, and commit what they
//! wrote as a unit.

pub mod cursor;
pub mod manager;
pub mod staging;
pub mod steps;
pub mod suite;
