//! Reports on the space that a store takes.

use crate::error::{PersistenceError, PersistenceResult};
use vstd::prelude::*;

verus! {

/// How many bytes a store takes on its host, approximately.
#[derive(Clone, Copy, Debug, PartialEq, Eq, Structural)]
pub struct StorageReport {
    pub bytes_total: usize,
}

impl StorageReport {
    /// The report of the given number of bytes.
    pub fn new(bytes_total: usize) -> (r: StorageReport)
        ensures
            r.bytes_total == bytes_total,
    {
        StorageReport { bytes_total }
    }
}

/// The message of the error that a store gives when it does not report.
pub open spec fn unsupported_message() -> Seq<char> {
    "Not implemented for this storage type"@
}

/// The error that a store gives when it does not report.
pub fn unsupported_report() -> (r: PersistenceResult<StorageReport>)
    ensures
        r matches Err(e) && e is ErrorGeneric && e.message() == unsupported_message(),
{
    Err(PersistenceError::generic("Not implemented for this storage type"))
}

/// The error that a store gives when it does not count its bytes.
pub fn unsupported_count() -> (r: PersistenceResult<usize>)
    ensures
        r matches Err(e) && e is ErrorGeneric && e.message() == unsupported_message(),
{
    Err(PersistenceError::generic("Not implemented for this storage type"))
}

/// A store that may report the space it takes.
pub trait ReportStorage {
    /// The number of bytes that the store reports, where it reports.
    spec fn reported_bytes(&self) -> Option<usize>;

    /// The number of bytes that the store takes on its host. A store that
    /// does not report answers with an error that says so.
    fn get_byte_count(&self) -> (r: PersistenceResult<usize>)
        ensures
            self.reported_bytes() is None ==> (r matches Err(e) && e is ErrorGeneric && e.message()
                == unsupported_message()),
            r matches Ok(bytes) ==> self.reported_bytes() == Some(bytes),
    ;

    /// The space that the store takes. A store that does not report answers
    /// with an error that says so.
    fn get_storage_report(&self) -> (r: PersistenceResult<StorageReport>)
        ensures
            self.reported_bytes() is None ==> (r matches Err(e) && e is ErrorGeneric && e.message()
                == unsupported_message()),
            r matches Ok(report) ==> self.reported_bytes() == Some(report.bytes_total),
    ;
}

} // verus!
