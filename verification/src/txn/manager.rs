//! The persistence manager: a content store, a record store and a provider of
//! cursors over them, under one identity.

use crate::cas::storage::ContentAddressableStorage;
use crate::eav::eavi::{Attribute, EaviView};
use crate::eav::storage::EntityAttributeValueStorage;
use crate::error::{PersistenceError, PersistenceResult};
use crate::has_uuid::{HasUuid, Uuid};
use crate::mem::cas::MemoryStorage;
use crate::mem::eav::EavMemoryStorage;
use crate::txn::cursor::{Cursor, CursorProvider, CursorRw, NonTransactionalCursor};
use crate::txn::staging::StagingCursorProvider;
use core::marker::PhantomData;
use vstd::prelude::*;

verus! {

/// Brings together a content store, a record store and the cursors over them.
pub trait PersistenceManager<A: Attribute>: CursorProvider<A> {
    /// The kind of content store.
    type Cas: ContentAddressableStorage;

    /// The kind of record store.
    type Eav: EntityAttributeValueStorage<A>;

    /// The content that the primary content store holds.
    spec fn primary_contents(&self) -> Map<Seq<char>, Seq<char>>;

    /// The records that the primary record store holds.
    spec fn primary_records(&self) -> Set<EaviView>;

    /// The identity of the manager.
    spec fn manager_id(&self) -> Uuid;

    /// The primary content store. The manager has its identity.
    fn cas(&self) -> (r: &<Self as PersistenceManager<A>>::Cas)
        ensures
            r.contents() == self.primary_contents(),
            r.id() == self.manager_id(),
    ;

    /// The primary record store.
    fn eav(&self) -> (r: &<Self as PersistenceManager<A>>::Eav)
        ensures
            r.records() == self.primary_records(),
    ;

    /// The identity of the manager: that of its content store.
    fn get_id(&self) -> (id: Uuid)
        ensures
            id == self.manager_id(),
    ;
}

/// A persistence manager made of any two stores and any provider of cursors.
#[derive(Debug)]
pub struct DefaultPersistenceManager<
    A: Attribute,
    CAS: ContentAddressableStorage,
    EAV: EntityAttributeValueStorage<A>,
    CP: CursorProvider<A>,
> {
    pub cas: CAS,
    pub eav: EAV,
    pub cursor_provider: CP,
    pub phantom: PhantomData<A>,
}

impl<
    A: Attribute,
    CAS: ContentAddressableStorage,
    EAV: EntityAttributeValueStorage<A>,
    CP: CursorProvider<A>,
> DefaultPersistenceManager<A, CAS, EAV, CP> {
    /// The manager of the given stores and provider.
    pub fn new(cas: CAS, eav: EAV, cursor_provider: CP) -> (r: Self)
        ensures
            r.cas == cas,
            r.eav == eav,
            r.cursor_provider == cursor_provider,
    {
        DefaultPersistenceManager { cas, eav, cursor_provider, phantom: PhantomData }
    }

    /// The two primary stores, to hand to a cursor that writes or commits.
    pub fn stores_mut(&mut self) -> (r: (&mut CAS, &mut EAV))
        ensures
            *r.0 == old(self).cas,
            *r.1 == old(self).eav,
            final(self).cas == *final(r.0),
            final(self).eav == *final(r.1),
            final(self).cursor_provider == old(self).cursor_provider,
    {
        (&mut self.cas, &mut self.eav)
    }
}

impl<
    A: Attribute,
    CAS: ContentAddressableStorage,
    EAV: EntityAttributeValueStorage<A>,
> DefaultPersistenceManager<A, CAS, EAV, NonTransactionalCursor<A, CAS, EAV>> {
    /// A manager whose cursors stage nothing: what they write is in the
    /// primary stores at once.
    pub fn new_non_transactional(cas: CAS, eav: EAV) -> (r: Self)
        ensures
            r.cas == cas,
            r.eav == eav,
            r.cursor_provider.id() == cas.id(),
            r.cursor_id() == r.manager_id(),
            !r.transactional(),
            r.provides(),
    {
        let cursor_provider = NonTransactionalCursor::new(&cas, &eav);
        DefaultPersistenceManager { cas, eav, cursor_provider, phantom: PhantomData }
    }
}

impl<
    A: Attribute,
    CAS: ContentAddressableStorage,
    EAV: EntityAttributeValueStorage<A>,
    CP: CursorProvider<A>,
> CursorProvider<A> for DefaultPersistenceManager<A, CAS, EAV, CP> {
    type Cursor = CP::Cursor;

    type CursorRw = CP::CursorRw;

    open spec fn transactional(&self) -> bool {
        self.cursor_provider.transactional()
    }

    open spec fn provides(&self) -> bool {
        self.cursor_provider.provides()
    }

    open spec fn cursor_id(&self) -> Uuid {
        self.cursor_provider.cursor_id()
    }

    fn create_cursor_rw(&self) -> (r: PersistenceResult<CP::CursorRw>) {
        self.cursor_provider.create_cursor_rw()
    }

    fn create_cursor(&self) -> (r: PersistenceResult<CP::Cursor>) {
        self.cursor_provider.create_cursor()
    }
}

impl<
    A: Attribute,
    CAS: ContentAddressableStorage,
    EAV: EntityAttributeValueStorage<A>,
    CP: CursorProvider<A>,
> PersistenceManager<A> for DefaultPersistenceManager<A, CAS, EAV, CP> {
    type Cas = CAS;

    type Eav = EAV;

    open spec fn primary_contents(&self) -> Map<Seq<char>, Seq<char>> {
        self.cas.contents()
    }

    open spec fn primary_records(&self) -> Set<EaviView> {
        self.eav.records()
    }

    open spec fn manager_id(&self) -> Uuid {
        self.cas.id()
    }

    /// The content store that the manager was made of.
    fn cas(&self) -> (r: &CAS)
        ensures
            *r == self.cas,
    {
        &self.cas
    }

    /// The record store that the manager was made of.
    fn eav(&self) -> (r: &EAV)
        ensures
            *r == self.eav,
    {
        &self.eav
    }

    fn get_id(&self) -> (id: Uuid) {
        self.cas.get_id()
    }
}

/// The content store of the example manager.
pub type ExampleContentAddressableStorage = MemoryStorage;

/// The record store of the example manager.
pub type ExampleEntityAttributeValueStorage<A> = EavMemoryStorage<A>;

/// A manager of stores in memory whose cursors stage nothing.
pub type ExamplePersistenceManager<A> = DefaultPersistenceManager<
    A,
    ExampleContentAddressableStorage,
    ExampleEntityAttributeValueStorage<A>,
    NonTransactionalCursor<
        A,
        ExampleContentAddressableStorage,
        ExampleEntityAttributeValueStorage<A>,
    >,
>;

/// A manager of stores in memory whose cursors stage what they write.
pub type StagingPersistenceManager<A> = DefaultPersistenceManager<
    A,
    MemoryStorage,
    EavMemoryStorage<A>,
    StagingCursorProvider<A>,
>;

/// A manager of two empty stores in memory whose cursors stage nothing.
/// Always succeeds.
pub fn new_example_persistence_manager<A: Attribute>() -> (r: PersistenceResult<
    ExamplePersistenceManager<A>,
>)
    ensures
        r is Ok,
        r.unwrap().cas.contents() == Map::<Seq<char>, Seq<char>>::empty(),
        r.unwrap().eav.records() == Set::<EaviView>::empty(),
        !r.unwrap().cursor_provider.transactional(),
        r.unwrap().cursor_id() == r.unwrap().manager_id(),
        r.unwrap().provides(),
{
    let cas = MemoryStorage::new();
    let eav: EavMemoryStorage<A> = EavMemoryStorage::new();
    let cursor_provider = NonTransactionalCursor::new(&cas, &eav);
    Ok(DefaultPersistenceManager::new(cas, eav, cursor_provider))
}

/// A manager of two empty stores in memory whose cursors stage what they
/// write and commit it as a unit.
pub fn new_staging_persistence_manager<A: Attribute>() -> (r: StagingPersistenceManager<A>)
    ensures
        r.cas.contents() == Map::<Seq<char>, Seq<char>>::empty(),
        r.eav.records() == Set::<EaviView>::empty(),
        r.cursor_provider.transactional(),
        r.cursor_provider.id() == r.cas.id(),
        r.cursor_id() == r.manager_id(),
        r.provides(),
{
    let cas = MemoryStorage::new();
    let eav: EavMemoryStorage<A> = EavMemoryStorage::new();
    let cursor_provider = StagingCursorProvider::new(cas.get_id());
    DefaultPersistenceManager::new(cas, eav, cursor_provider)
}

/// The message of the error that a degenerate environment gives for a cursor.
pub open spec fn no_cursor_message() -> Seq<char> {
    "cross transactional read/write cursors unsupported"@
}

/// The message of the error that a degenerate environment gives for a commit.
pub open spec fn no_commit_message() -> Seq<char> {
    "cross transactional cursors unsupported: commit failed"@
}

/// An environment without databases: it has no cursor to give and nothing to
/// commit, and says so.
#[derive(Clone, Copy, Debug)]
pub struct DefaultEnvironment;

impl DefaultEnvironment {
    /// The environment.
    pub fn new() -> (r: DefaultEnvironment) {
        DefaultEnvironment
    }

    /// Always fails: the environment has no cursor for any key.
    pub fn cursor_rw<A: Attribute, C: CursorRw<A>>(&mut self, key: &str) -> (r: PersistenceResult<
        C,
    >)
        ensures
            r matches Err(e) && e is ErrorGeneric && e.message() == no_cursor_message(),
    {
        Err(PersistenceError::generic("cross transactional read/write cursors unsupported"))
    }

    /// Always fails: the environment has nothing to commit to.
    pub fn commit(self) -> (r: PersistenceResult<()>)
        ensures
            r matches Err(e) && e is ErrorGeneric && e.message() == no_commit_message(),
    {
        Err(PersistenceError::generic("cross transactional cursors unsupported: commit failed"))
    }
}

} // verus!
