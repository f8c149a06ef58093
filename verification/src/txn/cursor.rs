//! The interface of cursors, and the cursor that passes everything through.
//!
//! A cursor is created by a provider for a pair of primary stores: a content
//! store and a record store. The stores stay with their owner, who hands them to
//! each operation of the cursor. What a cursor has staged is its own; a cursor
//! that is dropped takes what it staged with it.

use crate::cas::content::{AddressableContent, Content};
use crate::cas::storage::ContentAddressableStorage;
use crate::eav::eavi::{Attribute, EaviView, EntityAttributeValueIndex};
use crate::eav::query::{is_answer, query_selects, EaviQuery, QueryView};
use crate::eav::set::EaviSet;
use crate::eav::storage::{
    collides, no_index_left, persisted_as, unique_by_index, EntityAttributeValueStorage,
};
use crate::error::PersistenceResult;
use crate::has_uuid::{HasUuid, Uuid};
use crate::hash::Address;
use core::marker::PhantomData;
use vstd::prelude::*;

verus! {

/// What a cursor sees of the content: what it has staged, and behind that what
/// the primary store holds.
pub open spec fn visible(staged: Map<Seq<char>, Seq<char>>, primary: Map<Seq<char>, Seq<char>>)
    -> Map<Seq<char>, Seq<char>> {
    primary.union_prefer_right(staged)
}

/// The records over which a cursor answers a query: the staged records where
/// the query selects one of them, and the records of the primary store where
/// it selects none.
pub open spec fn query_source(staged: Set<EaviView>, primary: Set<EaviView>, q: QueryView) -> Set<
    EaviView,
> {
    if exists|r: EaviView| query_selects(q, staged, r) {
        staged
    } else {
        primary
    }
}

/// What is found under an address in content held by address.
pub open spec fn found_in(contents: Map<Seq<char>, Seq<char>>, address: Seq<char>) -> Option<
    Seq<char>,
> {
    if contents.contains_key(address) {
        Some(contents[address])
    } else {
        None
    }
}

/// The text of found content.
pub open spec fn text_of(found: Option<Content>) -> Option<Seq<char>> {
    match found {
        Some(content) => Some(content@),
        None => None,
    }
}

/// Record `s` is record `r` as stored: the same entity, attribute and value,
/// under the index of `r` or a greater one.
pub open spec fn stored_form(r: EaviView, s: EaviView) -> bool {
    s == (EaviView { index: s.index, ..r }) && r.index <= s.index
}

/// The records `after` are what a commit of the staged records makes of the
/// records `before`: every record of before is still there, every staged
/// record is there in one stored form, and nothing else is.
pub open spec fn committed_records(
    before: Set<EaviView>,
    staged: Set<EaviView>,
    after: Set<EaviView>,
) -> bool {
    exists|placed: spec_fn(EaviView) -> EaviView| committed_by(before, staged, after, placed)
}

/// The records `after` are the records `before` and, for each staged record,
/// the stored form that `placed` gives for it. A staged record that was there
/// before is placed as it is, and no two staged records are placed as one.
pub open spec fn committed_by(
    before: Set<EaviView>,
    staged: Set<EaviView>,
    after: Set<EaviView>,
    placed: spec_fn(EaviView) -> EaviView,
) -> bool {
    &&& forall|r: EaviView| staged.contains(r) ==> stored_form(r, #[trigger] placed(r))
    &&& forall|r: EaviView| staged.contains(r) && before.contains(r) ==> #[trigger] placed(r) == r
    &&& forall|r1: EaviView, r2: EaviView|
        staged.contains(r1) && staged.contains(r2) && #[trigger] placed(r1) == #[trigger] placed(r2)
            ==> r1 == r2
    &&& after == before + staged.map(placed)
}

/// The staged records can be committed to the primary store as they are: no
/// two of them are of one entity and have the same index, and the primary
/// store holds each of them already or has its index free.
pub open spec fn fits_as_is(staged: Set<EaviView>, primary: Set<EaviView>) -> bool {
    &&& unique_by_index(staged)
    &&& forall|r: EaviView| #[trigger]
        staged.contains(r) ==> primary.contains(r) || !collides(primary, r.entity, r.index)
}

/// A cursor that reads a pair of primary stores.
pub trait Cursor<A: Attribute>: HasUuid {
    /// The kind of content store that the cursor reads.
    type Cas: ContentAddressableStorage;

    /// The kind of record store that the cursor reads.
    type Eav: EntityAttributeValueStorage<A>;

    /// The content that the cursor has staged.
    spec fn staged_contents(&self) -> Map<Seq<char>, Seq<char>>;

    /// The records that the cursor has staged.
    spec fn staged_records(&self) -> Set<EaviView>;

    /// Whether the cursor keeps what it writes to itself until it commits.
    spec fn isolated(&self) -> bool;

    /// Whether the cursor does what it is asked wherever the stores that it
    /// is given do.
    spec fn dependable(&self) -> bool;

    /// The content under an address: what the cursor has staged there, else
    /// what the primary store holds there. What the cursor sees stays the same.
    /// A dependable cursor on a dependable store does not fail.
    fn fetch(&mut self, cas: &Self::Cas, address: &Address) -> (r: PersistenceResult<
        Option<Content>,
    >)
        ensures
            visible(final(self).staged_contents(), cas.contents()) == visible(
                old(self).staged_contents(),
                cas.contents(),
            ),
            final(self).staged_records() == old(self).staged_records(),
            final(self).id() == old(self).id(),
            final(self).isolated() == old(self).isolated(),
            !old(self).isolated() ==> final(self).staged_contents() == old(self).staged_contents(),
            final(self).dependable() == old(self).dependable(),
            old(self).dependable() && cas.dependable() ==> r is Ok,
            r matches Ok(found) ==> text_of(found) == found_in(
                visible(old(self).staged_contents(), cas.contents()),
                address@,
            ),
    ;

    /// Whether the cursor sees content under an address. A dependable cursor
    /// on a dependable store does not fail.
    fn contains(&mut self, cas: &Self::Cas, address: &Address) -> (r: PersistenceResult<bool>)
        ensures
            final(self).dependable() == old(self).dependable(),
            old(self).dependable() && cas.dependable() ==> r is Ok,
            visible(final(self).staged_contents(), cas.contents()) == visible(
                old(self).staged_contents(),
                cas.contents(),
            ),
            final(self).staged_records() == old(self).staged_records(),
            final(self).id() == old(self).id(),
            final(self).isolated() == old(self).isolated(),
            !old(self).isolated() ==> final(self).staged_contents() == old(self).staged_contents(),
            r matches Ok(held) ==> held == visible(
                old(self).staged_contents(),
                cas.contents(),
            ).contains_key(address@),
    ;

    /// Answers a query: over the staged records where the query selects one
    /// of them, else over the records of the primary store. An isolated
    /// cursor may stage records of the primary store that it read. A
    /// dependable cursor on a dependable store does not fail.
    fn fetch_eavi(&mut self, eav: &Self::Eav, query: &EaviQuery<A>) -> (r: PersistenceResult<
        EaviSet<A>,
    >)
        ensures
            final(self).dependable() == old(self).dependable(),
            old(self).dependable() && eav.dependable() ==> r is Ok,
            final(self).staged_contents() == old(self).staged_contents(),
            final(self).id() == old(self).id(),
            final(self).isolated() == old(self).isolated(),
            !old(self).isolated() ==> final(self).staged_records() == old(self).staged_records(),
            old(self).staged_records().subset_of(final(self).staged_records()),
            final(self).staged_records().subset_of(old(self).staged_records() + eav.records()),
            r matches Ok(out) ==> is_answer(
                query@,
                query_source(old(self).staged_records(), eav.records(), query@),
                out@,
            ),
    ;
}

/// A cursor that reads and writes a pair of primary stores.
pub trait CursorRw<A: Attribute>: Cursor<A> {
    /// Adds the content of a value. The cursor sees the content from then on.
    /// An isolated cursor leaves the primary store as it is, and any other
    /// cursor stages nothing. A dependable cursor on a dependable store does
    /// not fail.
    fn add<C: AddressableContent>(&mut self, cas: &mut Self::Cas, content: &C) -> (r:
        PersistenceResult<()>)
        ensures
            final(self).dependable() == old(self).dependable(),
            final(cas).dependable() == old(cas).dependable(),
            old(self).dependable() && old(cas).dependable() ==> r is Ok,
            final(self).isolated() == old(self).isolated(),
            final(self).id() == old(self).id(),
            final(self).staged_records() == old(self).staged_records(),
            old(self).isolated() ==> final(cas).contents() == old(cas).contents(),
            !old(self).isolated() ==> final(self).staged_contents() == old(self).staged_contents(),
            r is Ok ==> visible(final(self).staged_contents(), final(cas).contents()) == visible(
                old(self).staged_contents(),
                old(cas).contents(),
            ).insert(content.address_text(), content.content_text()),
            r is Err ==> final(self).staged_contents() == old(self).staged_contents() && final(cas).contents() == old(cas).contents(),
    ;

    /// Adds a record and returns it as it was stored: among the staged records
    /// by an isolated cursor, which leaves the primary store as it is, and in
    /// the primary store by any other. A dependable cursor on a dependable
    /// store stores the record, and fails exactly where no index is left for
    /// it among the records that it joins.
    fn add_eavi(&mut self, eav: &mut Self::Eav, eavi: &EntityAttributeValueIndex<A>) -> (r:
        PersistenceResult<Option<EntityAttributeValueIndex<A>>>)
        ensures
            final(self).dependable() == old(self).dependable(),
            final(eav).dependable() == old(eav).dependable(),
            old(self).dependable() && old(eav).dependable() ==> (r is Err <==> no_index_left(
                if old(self).isolated() {
                    old(self).staged_records()
                } else {
                    old(eav).records()
                },
                eavi@.entity,
                eavi@.index,
            )),
            old(self).dependable() && old(eav).dependable() && r is Ok ==> r.unwrap() is Some,
            final(self).isolated() == old(self).isolated(),
            final(self).id() == old(self).id(),
            final(self).staged_contents() == old(self).staged_contents(),
            old(self).isolated() ==> final(eav).records() == old(eav).records(),
            !old(self).isolated() ==> final(self).staged_records() == old(self).staged_records(),
            match r {
                Ok(Some(stored)) => if old(self).isolated() {
                    &&& persisted_as(old(self).staged_records(), eavi@, stored@)
                    &&& final(self).staged_records() == old(self).staged_records().insert(stored@)
                } else {
                    &&& persisted_as(old(eav).records(), eavi@, stored@)
                    &&& final(eav).records() == old(eav).records().insert(stored@)
                },
                _ => final(self).staged_records() == old(self).staged_records() && final(eav).records() == old(eav).records(),
            },
    ;
}

/// A cursor whose writes can be committed to the primary stores.
pub trait Writer<A: Attribute>: CursorRw<A> {
    /// Commits what the cursor has staged to the primary stores, all of it or,
    /// where that fails, nothing. The cursor is used up. A dependable cursor
    /// on dependable stores commits wherever the staged records can be
    /// committed as they are, and the record store then holds them as they are.
    fn commit(self, cas: &mut Self::Cas, eav: &mut Self::Eav) -> (r: PersistenceResult<()>)
        ensures
            final(cas).dependable() == old(cas).dependable(),
            final(eav).dependable() == old(eav).dependable(),
            final(cas).id() == old(cas).id(),
            self.dependable() && old(cas).dependable() && old(eav).dependable() && fits_as_is(
                self.staged_records(),
                old(eav).records(),
            ) ==> r is Ok && final(eav).records() == old(eav).records() + self.staged_records(),
            r is Ok ==> final(cas).contents() == visible(
                self.staged_contents(),
                old(cas).contents(),
            ) && committed_records(
                old(eav).records(),
                self.staged_records(),
                final(eav).records(),
            ),
            r is Err ==> final(cas).contents() == old(cas).contents() && final(eav).records()
                == old(eav).records(),
    ;
}

/// Creates cursors for a pair of primary stores.
pub trait CursorProvider<A: Attribute> {
    /// The kind of cursor that reads.
    type Cursor: Cursor<A>;

    /// The kind of cursor that reads, writes and commits.
    type CursorRw: Writer<A>;

    /// Whether the cursors keep what they write to themselves until they
    /// commit.
    spec fn transactional(&self) -> bool;

    /// Whether the provider has what it takes to create a cursor.
    spec fn provides(&self) -> bool;

    /// The identity that the cursors of the provider have.
    spec fn cursor_id(&self) -> Uuid;

    /// A new cursor that reads, writes and commits. It has staged nothing,
    /// and has the identity that the provider gives its cursors. A provider
    /// that has what it takes gives a dependable cursor.
    fn create_cursor_rw(&self) -> (r: PersistenceResult<Self::CursorRw>)
        ensures
            self.provides() ==> r is Ok && r.unwrap().dependable(),
            r matches Ok(cursor) ==> cursor.staged_contents() == Map::<
                Seq<char>,
                Seq<char>,
            >::empty() && cursor.staged_records() == Set::<EaviView>::empty()
                && cursor.isolated() == self.transactional() && cursor.id() == self.cursor_id(),
    ;

    /// A new cursor that reads. It has staged nothing, and has the identity
    /// that the provider gives its cursors. A provider that has what it takes
    /// gives a dependable cursor.
    fn create_cursor(&self) -> (r: PersistenceResult<Self::Cursor>)
        ensures
            self.provides() ==> r is Ok && r.unwrap().dependable(),
            r matches Ok(cursor) ==> cursor.staged_contents() == Map::<
                Seq<char>,
                Seq<char>,
            >::empty() && cursor.staged_records() == Set::<EaviView>::empty()
                && cursor.isolated() == self.transactional() && cursor.id() == self.cursor_id(),
    ;
}

/// A writer that has nothing to write.
#[derive(Clone, Copy, Debug)]
pub struct NoopWriter;

impl NoopWriter {
    /// The writer.
    pub fn new() -> (r: NoopWriter) {
        NoopWriter
    }

    /// Commits nothing, and succeeds.
    pub fn commit(self) -> (r: PersistenceResult<()>)
        ensures
            r is Ok,
    {
        Ok(())
    }
}

/// A cursor that stages nothing: it reads from the primary stores and writes
/// to them at once. Its commit has nothing left to do.
#[derive(Debug)]
pub struct NonTransactionalCursor<
    A: Attribute,
    CAS: ContentAddressableStorage,
    EAV: EntityAttributeValueStorage<A>,
> {
    id: Uuid,
    phantom: PhantomData<(A, CAS, EAV)>,
}

impl<
    A: Attribute,
    CAS: ContentAddressableStorage,
    EAV: EntityAttributeValueStorage<A>,
> NonTransactionalCursor<A, CAS, EAV> {
    /// A cursor for the given stores. It takes the identity of the content
    /// store.
    pub fn new(cas: &CAS, eav: &EAV) -> (r: Self)
        ensures
            r.id() == cas.id(),
    {
        NonTransactionalCursor { id: cas.get_id(), phantom: PhantomData }
    }
}

impl<
    A: Attribute,
    CAS: ContentAddressableStorage,
    EAV: EntityAttributeValueStorage<A>,
> Clone for NonTransactionalCursor<A, CAS, EAV> {
    fn clone(&self) -> (r: Self)
        ensures
            r.id() == self.id(),
    {
        NonTransactionalCursor { id: self.id, phantom: PhantomData }
    }
}

impl<
    A: Attribute,
    CAS: ContentAddressableStorage,
    EAV: EntityAttributeValueStorage<A>,
> HasUuid for NonTransactionalCursor<A, CAS, EAV> {
    closed spec fn id(&self) -> Uuid {
        self.id
    }

    fn get_id(&self) -> (id: Uuid) {
        self.id
    }
}

impl<
    A: Attribute,
    CAS: ContentAddressableStorage,
    EAV: EntityAttributeValueStorage<A>,
> Cursor<A> for NonTransactionalCursor<A, CAS, EAV> {
    type Cas = CAS;

    type Eav = EAV;

    open spec fn staged_contents(&self) -> Map<Seq<char>, Seq<char>> {
        Map::empty()
    }

    open spec fn staged_records(&self) -> Set<EaviView> {
        Set::empty()
    }

    open spec fn isolated(&self) -> bool {
        false
    }

    open spec fn dependable(&self) -> bool {
        true
    }

    fn fetch(&mut self, cas: &CAS, address: &Address) -> (r: PersistenceResult<Option<Content>>) {
        proof {
            assert(visible(Map::empty(), cas.contents()) =~= cas.contents());
        }
        cas.fetch(address)
    }

    fn contains(&mut self, cas: &CAS, address: &Address) -> (r: PersistenceResult<bool>) {
        proof {
            assert(visible(Map::empty(), cas.contents()) =~= cas.contents());
        }
        cas.contains(address)
    }

    fn fetch_eavi(&mut self, eav: &EAV, query: &EaviQuery<A>) -> (r: PersistenceResult<
        EaviSet<A>,
    >) {
        eav.fetch_eavi(query)
    }
}

impl<
    A: Attribute,
    CAS: ContentAddressableStorage,
    EAV: EntityAttributeValueStorage<A>,
> CursorRw<A> for NonTransactionalCursor<A, CAS, EAV> {
    fn add<C: AddressableContent>(&mut self, cas: &mut CAS, content: &C) -> (r:
        PersistenceResult<()>) {
        proof {
            assert forall|m: Map<Seq<char>, Seq<char>>| #[trigger]
                visible(Map::empty(), m) =~= m by {}
        }
        cas.add(content)
    }

    fn add_eavi(&mut self, eav: &mut EAV, eavi: &EntityAttributeValueIndex<A>) -> (r:
        PersistenceResult<Option<EntityAttributeValueIndex<A>>>) {
        eav.add_eavi(eavi)
    }
}

impl<
    A: Attribute,
    CAS: ContentAddressableStorage,
    EAV: EntityAttributeValueStorage<A>,
> Writer<A> for NonTransactionalCursor<A, CAS, EAV> {
    /// Always succeeds, and leaves the stores as they are.
    fn commit(self, cas: &mut CAS, eav: &mut EAV) -> (r: PersistenceResult<()>)
        ensures
            r is Ok,
            final(cas).contents() == old(cas).contents(),
            final(eav).records() == old(eav).records(),
    {
        proof {
            assert(visible(Map::empty(), cas.contents()) =~= cas.contents());
            let placed = |r: EaviView| r;
            let nothing = Set::<EaviView>::empty();
            assert(nothing.map(placed) =~= nothing);
            assert(eav.records() =~= eav.records() + nothing.map(placed));
            assert(committed_by(eav.records(), nothing, eav.records(), placed));
        }
        NoopWriter::new().commit()
    }
}

impl<
    A: Attribute,
    CAS: ContentAddressableStorage,
    EAV: EntityAttributeValueStorage<A>,
> CursorProvider<A> for NonTransactionalCursor<A, CAS, EAV> {
    type Cursor = Self;

    type CursorRw = Self;

    open spec fn transactional(&self) -> bool {
        false
    }

    open spec fn provides(&self) -> bool {
        true
    }

    open spec fn cursor_id(&self) -> Uuid {
        self.id()
    }

    /// Always succeeds.
    fn create_cursor_rw(&self) -> (r: PersistenceResult<Self>)
        ensures
            r is Ok,
            r.unwrap().id() == self.id(),
    {
        Ok(self.clone())
    }

    /// Always succeeds.
    fn create_cursor(&self) -> (r: PersistenceResult<Self>)
        ensures
            r is Ok,
            r.unwrap().id() == self.id(),
    {
        Ok(self.clone())
    }
}

} // verus!
