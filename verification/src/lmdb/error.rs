//! Failures of a memory-mapped store.

use crate::error::PersistenceError as BaseError;
use vstd::prelude::*;
use vstd::string::*;

verus! {

/// What a memory-mapped store reports when a call fails: that its map is
/// full, or anything else, in words.
#[derive(Debug, PartialEq, Eq)]
pub enum StoreError {
    MapFull,
    Other(String),
}

/// The words in which a full map is reported.
pub open spec fn map_full_text() -> Seq<char> {
    "environment mapsize reached"@
}

impl StoreError {
    /// The failure in words.
    pub open spec fn text(self) -> Seq<char> {
        match self {
            StoreError::MapFull => map_full_text(),
            StoreError::Other(words) => words@,
        }
    }
}

impl Clone for StoreError {
    fn clone(&self) -> (r: Self)
        ensures
            r.text() == self.text(),
            r is MapFull <==> self is MapFull,
    {
        match self {
            StoreError::MapFull => StoreError::MapFull,
            StoreError::Other(words) => StoreError::Other(words.clone()),
        }
    }
}

/// A storage error that stands for a failure of a memory-mapped store.
#[derive(Debug, PartialEq, Eq)]
pub struct PersistenceError(pub BaseError);

impl PersistenceError {
    /// The generic storage error that carries the failure in words.
    pub fn from_store_error(e: StoreError) -> (r: PersistenceError)
        ensures
            r.0 is ErrorGeneric,
            r.0.message() == e.text(),
    {
        match e {
            StoreError::MapFull => PersistenceError(
                BaseError::generic("environment mapsize reached"),
            ),
            StoreError::Other(words) => PersistenceError(BaseError::ErrorGeneric(words)),
        }
    }

    /// The storage error inside.
    pub fn into_base(self) -> (r: BaseError)
        ensures
            r == self.0,
    {
        self.0
    }
}

/// The storage error that reports a failure of a memory-mapped store: a
/// generic error that carries the failure in words.
pub fn to_api_error(e: StoreError) -> (r: BaseError)
    ensures
        r is ErrorGeneric,
        r.message() == e.text(),
{
    PersistenceError::from_store_error(e).into_base()
}

/// Whether a call failed because the map is full.
pub fn is_store_full_result<T>(result: &Result<T, StoreError>) -> (full: bool)
    ensures
        full == (result matches Err(StoreError::MapFull)),
{
    match result {
        Err(e) => is_store_full_error(e),
        Ok(_) => false,
    }
}

/// Whether the failure is that the map is full.
pub fn is_store_full_error(e: &StoreError) -> (full: bool)
    ensures
        full == (e is MapFull),
{
    match e {
        StoreError::MapFull => true,
        _ => false,
    }
}

} // verus!
