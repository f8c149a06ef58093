//! Identity of stores.

use vstd::prelude::*;

verus! {

/// A 128-bit identifier.
pub type Uuid = u128;

/// A store with an identity. Two handles with the same identifier stand for
/// the same store.
pub trait HasUuid {
    /// The identifier of the store.
    spec fn id(&self) -> Uuid;

    /// The identifier of the store.
    fn get_id(&self) -> (id: Uuid)
        ensures
            id == self.id(),
    ;
}

/// Calls `uuid::Uuid::new_v4` and `Uuid::as_u128`: a random identifier.
/// Nothing is claimed of the number.
#[verifier::external_body]
pub(crate) fn random_uuid() -> (id: Uuid) {
    uuid::Uuid::new_v4().as_u128()
}

} // verus!
