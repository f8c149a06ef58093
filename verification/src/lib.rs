//! Storage for content and for what is said about content.
//!
//! A content store keeps content under an address that is derived from the
//! content. A record store keeps records: an entity, an attribute, a value and
//! an index, where entity and value are addresses. Records are never changed;
//! a later record takes the place of an earlier one in the eyes of a query that
//! asks for the latest.
//!
//! Cursors read and write a pair of stores. A cursor that stages what it
//! writes keeps it to itself until it commits, and its commit folds all of it
//! into the primary stores or nothing. The stores stay with their owner, who
//! hands them to each operation of a cursor.
//!
//! The modules:
//!
//! - `hash`, `order`: addresses, and the order of their keys;
//! - `cas`: content, and the interface of a content store;
//! - `eav`: records, ordered sets of records, queries, and the interface of a
//!   record store;
//! - `mem`: the two stores in memory;
//! - `txn`: cursors, the persistence manager, and scenarios that every
//!   provider of cursors must pass;
//! - `lmdb`, `file`, `pickle`: what stores on disk decide, apart from the
//!   reading and writing itself;
//! - `laws`: what holds of every store and every cursor.

pub mod cas;
pub mod eav;
pub mod error;
pub mod file;
pub mod has_uuid;
pub mod hash;
pub mod json;
pub mod laws;
pub mod lmdb;
pub mod mem;
pub mod order;
pub mod pickle;
pub mod reporting;
pub mod txn;
pub mod univ_map;
