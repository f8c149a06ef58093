//! The cursor that stages its writes.
//!
//! A staging cursor keeps a content store and a record store of its own. It
//! writes to them alone. It reads them first and the primary stores behind
//! them, and stages what it read there. Its commit folds what it has staged
//! into the primary stores: all of it, or nothing.

use crate::cas::content::{AddressableContent, Content};
use crate::cas::storage::ContentAddressableStorage;
use crate::eav::eavi::{Attribute, EaviView, EntityAttributeValueIndex};
use crate::eav::query::{is_answer, query_selects, EaviQuery};
use crate::eav::set::{views, EaviSet};
use crate::eav::storage::{
    absorb_all, collides, first_free_index, lemma_absorb_as_is, lemma_absorb_places,
    persisted_as, placed_form, unique_by_index, EntityAttributeValueStorage,
};
use crate::error::PersistenceResult;
use crate::has_uuid::{HasUuid, Uuid};
use crate::hash::Address;
use crate::mem::cas::MemoryStorage;
use crate::mem::eav::EavMemoryStorage;
use core::marker::PhantomData;
use crate::txn::cursor::{
    committed_by, committed_records, fits_as_is, found_in, stored_form, text_of, visible, Cursor,
    CursorProvider, CursorRw, Writer,
};
use vstd::prelude::*;

verus! {

/// A cursor over stores in memory that stages what it writes.
#[derive(Debug)]
pub struct StagingCursor<A: Attribute> {
    id: Uuid,
    staging_cas: MemoryStorage,
    staging_eav: EavMemoryStorage<A>,
}

impl<A: Attribute> StagingCursor<A> {
    /// A cursor with the given identity that has staged nothing.
    pub fn new(id: Uuid) -> (r: StagingCursor<A>)
        ensures
            r.id() == id,
            r.staged_contents() == Map::<Seq<char>, Seq<char>>::empty(),
            r.staged_records() == Set::<EaviView>::empty(),
    {
        StagingCursor { id, staging_cas: MemoryStorage::new(), staging_eav: EavMemoryStorage::new() }
    }

    /// The staged records in their order.
    pub closed spec fn staged_sequence(&self) -> Seq<EaviView> {
        self.staging_eav.sequence()
    }

    /// The staged content under an address, if there is any. Where there is
    /// none, the primary store is to be read.
    pub fn staged_content(&self, address: &Address) -> (r: Option<Content>)
        ensures
            text_of(r) == found_in(self.staged_contents(), address@),
    {
        match self.staging_cas.fetch(address) {
            Ok(found) => found,
            Err(_) => None,
        }
    }

    /// Stages content that was read from the primary store under an address,
    /// so that the cursor reads the same again.
    pub fn keep_content(&mut self, address: &Address, content: &Content)
        ensures
            final(self).staged_contents() == old(self).staged_contents().insert(
                address@,
                content@,
            ),
            final(self).staged_records() == old(self).staged_records(),
            final(self).staged_sequence() == old(self).staged_sequence(),
            final(self).id() == old(self).id(),
    {
        self.staging_cas.put(address.clone(), content.clone());
    }

    /// Stages the content of a value.
    pub fn stage<C: AddressableContent>(&mut self, content: &C)
        ensures
            final(self).staged_contents() == old(self).staged_contents().insert(
                content.address_text(),
                content.content_text(),
            ),
            final(self).staged_records() == old(self).staged_records(),
            final(self).staged_sequence() == old(self).staged_sequence(),
            final(self).id() == old(self).id(),
    {
        self.staging_cas.put(content.address(), content.content());
    }

    /// Stages a record, under its own index or, where a staged record of its
    /// entity has that index, under the first free one. Fails only where no
    /// index is left for it among the staged records.
    pub fn stage_record(&mut self, eavi: &EntityAttributeValueIndex<A>) -> (r: PersistenceResult<
        Option<EntityAttributeValueIndex<A>>,
    >)
        ensures
            final(self).staged_contents() == old(self).staged_contents(),
            final(self).id() == old(self).id(),
            match r {
                Ok(Some(stored)) => persisted_as(old(self).staged_records(), eavi@, stored@)
                    && first_free_index(
                    old(self).staged_records(),
                    eavi@.entity,
                    eavi@.index,
                    stored@.index,
                ) && final(self).staged_records() == old(self).staged_records().insert(stored@),
                _ => final(self).staged_records() == old(self).staged_records(),
            },
            r matches Ok(kept) ==> kept is Some,
            r is Err <==> forall|j: i64|
                eavi@.index <= j ==> collides(old(self).staged_records(), eavi@.entity, j),
    {
        self.staging_eav.add_eavi(eavi)
    }

    /// The answer of a query over the staged records, where it selects one of
    /// them. Where it selects none, the primary store is to be queried.
    pub fn staged_answer(&self, query: &EaviQuery<A>) -> (r: Option<EaviSet<A>>)
        ensures
            match r {
                Some(out) => is_answer(query@, self.staged_records(), out@) && (exists|
                    x: EaviView,
                | query_selects(query@, self.staged_records(), x)),
                None => query@.limit == Some(0usize) || !(exists|x: EaviView|
                    query_selects(query@, self.staged_records(), x)),
            },
    {
        let ghost staged = self.staging_eav.records();
        match self.staging_eav.fetch_eavi(query) {
            Ok(out) => {
                if out.is_empty() {
                    proof {
                        if !(query@.limit == Some(0usize)) {
                            assert forall|x: EaviView| !query_selects(query@, staged, x) by {
                                if query_selects(query@, staged, x) {
                                    assert(!out@.contains(x));
                                }
                            }
                        }
                    }
                    None
                } else {
                    proof {
                        assert(out@.contains(out@[0]));
                        assert(query_selects(query@, staged, out@[0]));
                    }
                    Some(out)
                }
            },
            Err(_) => None,
        }
    }

    /// Stages records that were read from the primary store, each as it is,
    /// but for those whose index a staged record of their entity has.
    pub fn keep_records(&mut self, found: &EaviSet<A>)
        ensures
            final(self).staged_contents() == old(self).staged_contents(),
            final(self).id() == old(self).id(),
            old(self).staged_records().subset_of(final(self).staged_records()),
            final(self).staged_records().subset_of(old(self).staged_records() + found.set()),
            forall|x: EaviView|
                final(self).staged_records().contains(x) && !old(self).staged_records().contains(x)
                    ==> !collides(old(self).staged_records(), x.entity, x.index),
            unique_by_index(found.set()) ==> forall|x: EaviView|
                found.set().contains(x) && !collides(old(self).staged_records(), x.entity, x.index)
                    ==> final(self).staged_records().contains(x),
    {
        let ghost staged = self.staging_eav.records();
        let records = found.as_slice();
        let n = records.len();
        let mut i: usize = 0;
        while i < n
            invariant
                i <= n,
                n == records@.len(),
                views(records@) == found@,
                crate::eav::set::strictly_sorted(found@),
                self.id() == old(self).id(),
                self.staged_contents() == old(self).staged_contents(),
                staged == old(self).staged_records(),
                staged.subset_of(self.staging_eav.records()),
                self.staging_eav.records().subset_of(staged + found.set()),
                unique_by_index(found.set()) ==> forall|k: int|
                    0 <= k < i && !collides(staged, (#[trigger] found@[k]).entity, found@[k].index)
                        ==> self.staging_eav.records().contains(found@[k]),
                forall|y: EaviView|
                    self.staging_eav.records().contains(y) && !staged.contains(y) ==> exists|
                        k: int,
                    | 0 <= k < i && found@[k] == y,
                forall|y: EaviView|
                    self.staging_eav.records().contains(y) && !staged.contains(y) ==> !collides(
                        staged,
                        y.entity,
                        y.index,
                    ),
            decreases n - i,
        {
            let ghost before = self.staging_eav.records();
            let ghost x = found@[i as int];
            assert(found@.contains(x));
            self.staging_eav.insert_if_free(records[i].clone());
            proof {
                assert forall|y: EaviView|
                    self.staging_eav.records().contains(y) && !staged.contains(y) implies !collides(
                    staged,
                    y.entity,
                    y.index,
                ) by {
                    if !before.contains(y) && collides(staged, y.entity, y.index) {
                        let z = choose|z: EaviView| #[trigger]
                            staged.contains(z) && z.entity == y.entity && z.index == y.index;
                        assert(before.contains(z));
                    }
                }
                if unique_by_index(found.set()) && !collides(staged, x.entity, x.index)
                    && collides(before, x.entity, x.index) {
                    // A record that was kept before has the entity and index: the
                    // record itself, as no two records that were found have them.
                    let y = choose|y: EaviView| #[trigger]
                        before.contains(y) && y.entity == x.entity && y.index == x.index;
                    assert(!staged.contains(y));
                    let k = choose|k: int| 0 <= k < i && found@[k] == y;
                    assert(found.set().contains(y) && found.set().contains(x));
                }
                assert forall|y: EaviView|
                    self.staging_eav.records().contains(y) && !staged.contains(y) implies exists|
                    k: int,
                | 0 <= k < i + 1 && found@[k] == y by {
                    if before.contains(y) {
                        let k = choose|k: int| 0 <= k < i && found@[k] == y;
                        assert(0 <= k < i + 1 && found@[k] == y);
                    } else {
                        assert(found@[i as int] == y);
                    }
                }
            }
            i = i + 1;
        }
        proof {
            if unique_by_index(found.set()) {
                assert forall|x: EaviView|
                    found.set().contains(x) && !collides(staged, x.entity, x.index)
                        implies self.staging_eav.records().contains(x) by {
                    let k = choose|k: int| 0 <= k < found@.len() && found@[k] == x;
                    assert(found@[k] == x);
                }
            }
        }
    }

    /// The records that a commit adds to a record store that holds the given
    /// records: for each staged record that the store does not hold, the
    /// record under its own index or, where that is taken, under the first
    /// free one. Fails exactly where a staged record finds no free index.
    pub fn records_to_commit(&self, held: &EavMemoryStorage<A>) -> (r: PersistenceResult<
        Vec<EntityAttributeValueIndex<A>>,
    >)
        ensures
            r is Ok <==> absorb_all(held.records(), self.staged_sequence()) is Some,
            r matches Ok(added) ==> {
                &&& held.records() + views(added@).to_set() == absorb_all(
                    held.records(),
                    self.staged_sequence(),
                ).unwrap()
                &&& forall|x: EaviView| views(added@).contains(x) ==> !held.records().contains(x)
            },
    {
        let mut merged = held.clone();
        match merged.absorb(&self.staging_eav) {
            Ok(()) => {},
            Err(e) => {
                return Err(e);
            },
        }
        let ghost target = merged.records();
        proof {
            lemma_absorb_places(held.records(), held.records(), self.staged_sequence());
            assert(target == absorb_all(held.records(), self.staged_sequence()).unwrap());
            assert forall|x: EaviView| held.records().contains(x) implies target.contains(x) by {
                let placed = |r: EaviView|
                    placed_form(held.records(), held.records(), self.staged_sequence(), r);
                assert((held.records() + self.staged_sequence().to_set().map(placed)).contains(x));
            }
        }
        let all = merged.as_set().as_slice();
        let ghost everything = views(all@);
        let mut added: Vec<EntityAttributeValueIndex<A>> = Vec::new();
        let n = all.len();
        let mut i: usize = 0;
        while i < n
            invariant
                i <= n,
                n == all@.len(),
                everything == views(all@),
                everything.to_set() == target,
                target == absorb_all(held.records(), self.staged_sequence()).unwrap(),
                held.records().subset_of(target),
                forall|x: EaviView|
                    views(added@).contains(x) ==> target.contains(x) && !held.records().contains(x),
                forall|k: int|
                    0 <= k < i && !held.records().contains(#[trigger] everything[k]) ==> views(
                        added@,
                    ).contains(everything[k]),
            decreases n - i,
        {
            assert(everything.contains(everything[i as int]));
            if !held.holds(&all[i]) {
                let ghost before = views(added@);
                added.push(all[i].clone());
                proof {
                    let after = views(added@);
                    assert(after =~= before.push(everything[i as int]));
                    assert forall|x: EaviView| after.contains(x) implies target.contains(x)
                        && !held.records().contains(x) by {
                        let k = choose|k: int| 0 <= k < after.len() && after[k] == x;
                        if k < before.len() {
                            assert(before[k] == x);
                        }
                    }
                    assert forall|k: int|
                        0 <= k < i + 1 && !held.records().contains(
                            #[trigger] everything[k],
                        ) implies after.contains(everything[k]) by {
                        if k == i {
                            assert(after[before.len() as int] == everything[k]);
                        } else {
                            let j = choose|j: int| 0 <= j < before.len() && before[j] == everything[k];
                            assert(after[j] == everything[k]);
                        }
                    }
                }
            }
            i = i + 1;
        }
        proof {
            assert forall|x: EaviView|
                (held.records() + views(added@).to_set()).contains(x) <==> target.contains(x) by {
                if target.contains(x) && !held.records().contains(x) {
                    let k = choose|k: int| 0 <= k < everything.len() && everything[k] == x;
                    assert(everything[k] == x);
                }
                if views(added@).to_set().contains(x) {
                    assert(views(added@).contains(x));
                }
                if held.records().contains(x) {
                    assert(target.contains(x));
                }
            }
            assert(held.records() + views(added@).to_set() =~= target);
        }
        Ok(added)
    }

    /// The staged content, each address once.
    pub fn staged_entries(&self) -> (r: Vec<(Address, Content)>)
        ensures
            crate::mem::cas::entry_addresses(r@).no_duplicates(),
            crate::mem::cas::entry_map(r@) == self.staged_contents(),
    {
        self.staging_cas.entries()
    }

    /// The staged records, in their order.
    pub fn staged_set(&self) -> (r: &EaviSet<A>)
        ensures
            r.set() == self.staged_records(),
            r@ == self.staged_sequence(),
    {
        self.staging_eav.as_set()
    }
}

impl<A: Attribute> HasUuid for StagingCursor<A> {
    closed spec fn id(&self) -> Uuid {
        self.id
    }

    fn get_id(&self) -> (id: Uuid) {
        self.id
    }
}

impl<A: Attribute> Cursor<A> for StagingCursor<A> {
    type Cas = MemoryStorage;

    type Eav = EavMemoryStorage<A>;

    closed spec fn staged_contents(&self) -> Map<Seq<char>, Seq<char>> {
        self.staging_cas.contents()
    }

    closed spec fn staged_records(&self) -> Set<EaviView> {
        self.staging_eav.records()
    }

    open spec fn isolated(&self) -> bool {
        true
    }

    open spec fn dependable(&self) -> bool {
        true
    }

    /// Always succeeds. Content found in the primary store alone is staged.
    fn fetch(&mut self, cas: &MemoryStorage, address: &Address) -> (r: PersistenceResult<
        Option<Content>,
    >)
        ensures
            r is Ok,
            final(self).staged_contents() == (if old(self).staged_contents().contains_key(address@)
                || !cas.contents().contains_key(address@) {
                old(self).staged_contents()
            } else {
                old(self).staged_contents().insert(address@, cas.contents()[address@])
            }),
    {
        let ghost staged = self.staged_contents();
        match self.staged_content(address) {
            Some(content) => Ok(Some(content)),
            None => match cas.fetch(address) {
                Ok(Some(content)) => {
                    self.keep_content(address, &content);
                    proof {
                        assert(visible(self.staged_contents(), cas.contents()) =~= visible(
                            staged,
                            cas.contents(),
                        ));
                    }
                    Ok(Some(content))
                },
                _ => Ok(None),
            },
        }
    }

    /// Always succeeds.
    fn contains(&mut self, cas: &MemoryStorage, address: &Address) -> (r: PersistenceResult<bool>)
        ensures
            r is Ok,
    {
        match self.fetch(cas, address) {
            Ok(found) => Ok(found.is_some()),
            Err(e) => Err(e),
        }
    }

    /// Always succeeds. Where the query selects none of the staged records, the
    /// records that answer it from the primary store are staged, each as it
    /// is, but for those whose index a staged record of their entity has.
    fn fetch_eavi(&mut self, eav: &EavMemoryStorage<A>, query: &EaviQuery<A>) -> (r:
        PersistenceResult<EaviSet<A>>)
        ensures
            r is Ok,
            (exists|x: EaviView| query_selects(query@, old(self).staged_records(), x)) ==> final(self).staged_records() == old(self).staged_records(),
            !(exists|x: EaviView| query_selects(query@, old(self).staged_records(), x))
                ==> forall|x: EaviView|
                final(self).staged_records().contains(x) <==> old(self).staged_records().contains(x)
                    || (r.unwrap()@.contains(x) && !collides(
                    old(self).staged_records(),
                    x.entity,
                    x.index,
                )),
    {
        let ghost staged = self.staged_records();
        let ghost primary = eav.records();
        eav.unique();
        match self.staged_answer(query) {
            Some(out) => Ok(out),
            None => match eav.fetch_eavi(query) {
                Ok(out) => {
                    proof {
                        assert forall|x: EaviView, y: EaviView|
                            #![trigger out.set().contains(x), out.set().contains(y)]
                            out.set().contains(x) && out.set().contains(y) && x.entity == y.entity
                                && x.index == y.index implies x == y by {
                            assert(out@.contains(x) && out@.contains(y));
                            assert(primary.contains(x) && primary.contains(y));
                        }
                        assert(unique_by_index(out.set()));
                        assert forall|x: EaviView| out.set().contains(x) implies primary.contains(
                            x,
                        ) by {
                            assert(out@.contains(x));
                        }
                    }
                    self.keep_records(&out);
                    proof {
                        if query@.limit == Some(0usize) {
                            assert(out@.len() == 0);
                            assert(is_answer(query@, staged, out@));
                            assert(self.staged_records() =~= staged);
                        }
                        assert forall|x: EaviView|
                            self.staged_records().contains(x) <==> staged.contains(x) || (
                            out@.contains(x) && !collides(staged, x.entity, x.index)) by {
                            if self.staged_records().contains(x) && !staged.contains(x) {
                                assert((staged + out.set()).contains(x));
                            }
                            if out@.contains(x) && !collides(staged, x.entity, x.index) {
                                assert(out.set().contains(x));
                            }
                        }
                    }
                    Ok(out)
                },
                Err(e) => Err(e),
            },
        }
    }
}

impl<A: Attribute> CursorRw<A> for StagingCursor<A> {
    /// Always succeeds. The primary store is left as it is.
    fn add<C: AddressableContent>(&mut self, cas: &mut MemoryStorage, content: &C) -> (r:
        PersistenceResult<()>)
        ensures
            r is Ok,
            final(self).staged_contents() == old(self).staged_contents().insert(
                content.address_text(),
                content.content_text(),
            ),
            final(cas).id() == old(cas).id(),
    {
        let ghost staged = self.staged_contents();
        self.stage(content);
        proof {
            assert(visible(self.staged_contents(), cas.contents()) =~= visible(
                staged,
                cas.contents(),
            ).insert(content.address_text(), content.content_text()));
        }
        Ok(())
    }

    /// Fails only where no index is left for the record among the staged
    /// records. The primary store is left as it is.
    fn add_eavi(
        &mut self,
        eav: &mut EavMemoryStorage<A>,
        eavi: &EntityAttributeValueIndex<A>,
    ) -> (r: PersistenceResult<Option<EntityAttributeValueIndex<A>>>)
        ensures
            r matches Ok(kept) ==> kept is Some,
            r is Err <==> forall|j: i64|
                eavi@.index <= j ==> crate::eav::storage::collides(
                    old(self).staged_records(),
                    eavi@.entity,
                    j,
                ),
            final(eav).id() == old(eav).id(),
    {
        self.stage_record(eavi)
    }
}

/// What a commit by sequence makes of the records is a commit of the staged
/// records.
pub proof fn lemma_absorbed_is_committed(before: Set<EaviView>, staged: Seq<EaviView>)
    requires
        absorb_all(before, staged) is Some,
        staged.no_duplicates(),
    ensures
        committed_records(before, staged.to_set(), absorb_all(before, staged).unwrap()),
{
    let after = absorb_all(before, staged).unwrap();
    let placed = |r: EaviView| placed_form(before, before, staged, r);
    lemma_absorb_places(before, before, staged);
    assert forall|r: EaviView| staged.to_set().contains(r) implies stored_form(
        r,
        #[trigger] placed(r),
    ) by {
        assert(staged.contains(r));
    }
    assert forall|r: EaviView| staged.to_set().contains(r) && before.contains(r) implies (
    #[trigger] placed(r)) == r by {
        assert(staged.contains(r));
    }
    assert forall|r1: EaviView, r2: EaviView|
        staged.to_set().contains(r1) && staged.to_set().contains(r2) && #[trigger] placed(r1)
            == #[trigger] placed(r2) implies r1 == r2 by {
        assert(staged.contains(r1) && staged.contains(r2));
    }
    assert(committed_by(before, staged.to_set(), after, placed));
}

impl<A: Attribute> Writer<A> for StagingCursor<A> {
    /// Commits the staged records in their order, then the staged content. A
    /// record that the primary store holds is passed over; every other is
    /// stored under its own index or, where that is taken in the primary store,
    /// under the first free one. Fails, and leaves the primary stores as they
    /// were, exactly where a staged record finds no free index.
    fn commit(self, cas: &mut MemoryStorage, eav: &mut EavMemoryStorage<A>) -> (r:
        PersistenceResult<()>)
        ensures
            self.staged_sequence().to_set() == self.staged_records(),
            self.staged_sequence().no_duplicates(),
            r is Ok <==> absorb_all(old(eav).records(), self.staged_sequence()) is Some,
            r is Ok ==> final(eav).records() == absorb_all(
                old(eav).records(),
                self.staged_sequence(),
            ).unwrap(),
            final(cas).id() == old(cas).id(),
            final(eav).id() == old(eav).id(),
    {
        let ghost before = eav.records();
        let absorbed = eav.absorb(&self.staging_eav);
        proof {
            if fits_as_is(self.staged_records(), before) {
                let staged = self.staged_sequence();
                assert forall|k: int| 0 <= k < staged.len() implies before.contains(
                    #[trigger] staged[k],
                ) || !collides(before, staged[k].entity, staged[k].index) by {
                    assert(staged.to_set().contains(staged[k]));
                }
                lemma_absorb_as_is(before, before, staged);
            }
            if absorb_all(before, self.staged_sequence()) is Some {
                lemma_absorbed_is_committed(before, self.staged_sequence());
            }
        }
        match absorbed {
            Ok(()) => {
                cas.absorb(&self.staging_cas);
                Ok(())
            },
            Err(e) => Err(e),
        }
    }
}

/// Creates staging cursors for a pair of primary stores in memory.
#[derive(Debug)]
pub struct StagingCursorProvider<A: Attribute> {
    id: Uuid,
    phantom: PhantomData<A>,
}

impl<A: Attribute> StagingCursorProvider<A> {
    /// A provider for the primary stores with the given identity.
    pub fn new(id: Uuid) -> (r: StagingCursorProvider<A>)
        ensures
            r.id() == id,
    {
        StagingCursorProvider { id, phantom: PhantomData }
    }
}

impl<A: Attribute> Clone for StagingCursorProvider<A> {
    fn clone(&self) -> (r: Self)
        ensures
            r.id() == self.id(),
    {
        StagingCursorProvider { id: self.id, phantom: PhantomData }
    }
}

impl<A: Attribute> HasUuid for StagingCursorProvider<A> {
    closed spec fn id(&self) -> Uuid {
        self.id
    }

    fn get_id(&self) -> (id: Uuid) {
        self.id
    }
}

impl<A: Attribute> CursorProvider<A> for StagingCursorProvider<A> {
    type Cursor = StagingCursor<A>;

    type CursorRw = StagingCursor<A>;

    open spec fn transactional(&self) -> bool {
        true
    }

    open spec fn provides(&self) -> bool {
        true
    }

    open spec fn cursor_id(&self) -> Uuid {
        self.id()
    }

    /// Always succeeds.
    fn create_cursor_rw(&self) -> (r: PersistenceResult<StagingCursor<A>>)
        ensures
            r is Ok,
            r.unwrap().id() == self.id(),
    {
        Ok(StagingCursor::new(self.id))
    }

    /// Always succeeds.
    fn create_cursor(&self) -> (r: PersistenceResult<StagingCursor<A>>)
        ensures
            r is Ok,
            r.unwrap().id() == self.id(),
    {
        Ok(StagingCursor::new(self.id))
    }
}

} // verus!
