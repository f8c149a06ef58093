//! The interface of a content-addressable store.

use crate::cas::content::{AddressableContent, Content};
use crate::error::PersistenceResult;
use crate::has_uuid::HasUuid;
use crate::hash::Address;
use vstd::prelude::*;

verus! {

/// A store that keeps content under its address. The store has an identity,
/// which it keeps whatever it holds.
pub trait ContentAddressableStorage: HasUuid {
    /// What the store holds: content by address.
    spec fn contents(&self) -> Map<Seq<char>, Seq<char>>;

    /// Whether the store does what it is asked: a dependable store does not
    /// fail.
    spec fn dependable(&self) -> bool;

    /// Stores the content of a value under its address. A dependable store
    /// does not fail. Where the store fails, it is as it was.
    fn add<C: AddressableContent>(&mut self, content: &C) -> (r: PersistenceResult<()>)
        ensures
            r is Ok ==> final(self).contents() == old(self).contents().insert(
                content.address_text(),
                content.content_text(),
            ),
            r is Err ==> final(self).contents() == old(self).contents(),
            final(self).id() == old(self).id(),
            final(self).dependable() == old(self).dependable(),
            old(self).dependable() ==> r is Ok,
    ;

    /// Whether the store holds content under the address. A dependable store
    /// does not fail.
    fn contains(&self, address: &Address) -> (r: PersistenceResult<bool>)
        ensures
            r matches Ok(held) ==> held == self.contents().contains_key(address@),
            self.dependable() ==> r is Ok,
    ;

    /// The content under the address, if the store holds any. A dependable
    /// store does not fail.
    fn fetch(&self, address: &Address) -> (r: PersistenceResult<Option<Content>>)
        ensures
            self.dependable() ==> r is Ok,
            r matches Ok(found) ==> (match found {
                Some(content) => self.contents().contains_key(address@) && self.contents()[address@]
                    == content@,
                None => !self.contents().contains_key(address@),
            }),
    ;
}

} // verus!
