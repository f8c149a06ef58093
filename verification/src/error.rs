//! Errors that storage operations report.

use vstd::prelude::*;
use vstd::string::*;

verus! {

/// Why content could not be turned into a value, or a value into content.
#[derive(Clone, Debug, PartialEq, Eq, Hash)]
pub enum JsonError {
    ErrorGeneric(String),
    IoError(String),
    SerializationError(String),
}

/// Why a storage operation failed.
#[derive(Clone, Debug, PartialEq, Eq, Hash)]
pub enum PersistenceError {
    ErrorGeneric(String),
    SerializationError(String),
    IoError(String),
}

pub type JsonResult<T> = Result<T, JsonError>;

pub type PersistenceResult<T> = Result<T, PersistenceError>;

impl JsonError {
    /// The message that the error carries.
    pub open spec fn message(self) -> Seq<char> {
        match self {
            JsonError::ErrorGeneric(m) => m@,
            JsonError::IoError(m) => m@,
            JsonError::SerializationError(m) => m@,
        }
    }
}

impl PersistenceError {
    /// The message that the error carries.
    pub open spec fn message(self) -> Seq<char> {
        match self {
            PersistenceError::ErrorGeneric(m) => m@,
            PersistenceError::SerializationError(m) => m@,
            PersistenceError::IoError(m) => m@,
        }
    }

    /// A generic error with the given message.
    pub fn generic(message: &str) -> (e: PersistenceError)
        ensures
            e is ErrorGeneric,
            e.message() == message@,
    {
        PersistenceError::ErrorGeneric(String::from_str(message))
    }

    /// The storage error that stands for a content error: same kind, same message.
    pub fn from_json_error(error: JsonError) -> (e: PersistenceError)
        ensures
            e.message() == error.message(),
            error is ErrorGeneric <==> e is ErrorGeneric,
            error is IoError <==> e is IoError,
            error is SerializationError <==> e is SerializationError,
    {
        match error {
            JsonError::ErrorGeneric(m) => PersistenceError::ErrorGeneric(m),
            JsonError::IoError(m) => PersistenceError::IoError(m),
            JsonError::SerializationError(m) => PersistenceError::SerializationError(m),
        }
    }

    /// The error's message as an owned string.
    pub fn to_string(&self) -> (s: String)
        ensures
            s@ == self.message(),
    {
        match self {
            PersistenceError::ErrorGeneric(m) => m.clone(),
            PersistenceError::SerializationError(m) => m.clone(),
            PersistenceError::IoError(m) => m.clone(),
        }
    }
}

} // verus!
