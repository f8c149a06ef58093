//! An entity-attribute-value-index store in memory.

use crate::eav::eavi::{Attribute, EaviView, EntityAttributeValueIndex};
use crate::eav::query::EaviQuery;
use crate::eav::set::EaviSet;
use crate::eav::storage::{
    absorb_all, absorb_from, absorb_one, collides, first_free_index,
    increment_key_till_no_collision, index_taken, lemma_first_free_persisted,
    lemma_persisted_keeps_unique, unique_by_index, EntityAttributeValueStorage,
};
use crate::error::PersistenceResult;
use crate::has_uuid::{random_uuid, HasUuid, Uuid};
use crate::reporting::{unsupported_count, unsupported_report, ReportStorage, StorageReport};
use vstd::prelude::*;

verus! {

/// A store of records that lives in memory.
#[derive(Debug)]
pub struct EavMemoryStorage<A: Attribute> {
    storage: EaviSet<A>,
    id: Uuid,
}

impl<A: Attribute> EavMemoryStorage<A> {
    #[verifier::type_invariant]
    spec fn one_record_per_index(&self) -> bool {
        unique_by_index(self.storage@.to_set())
    }

    /// An empty store with a fresh identity.
    pub fn new() -> (r: EavMemoryStorage<A>)
        ensures
            r.records() == Set::<EaviView>::empty(),
    {
        let r = EavMemoryStorage { storage: EaviSet::new(), id: random_uuid() };
        assert(r.records() =~= Set::<EaviView>::empty());
        r
    }

    /// Does nothing, and tells the caller that no two records of the store are
    /// of one entity and have the same index.
    pub fn unique(&self)
        ensures
            unique_by_index(self.records()),
    {
        proof {
            use_type_invariant(self);
        }
    }

    /// The records of the store, in order.
    pub fn as_set(&self) -> (r: &EaviSet<A>)
        ensures
            r.set() == self.records(),
            r@ == self.sequence(),
            unique_by_index(self.records()),
    {
        proof {
            use_type_invariant(self);
        }
        &self.storage
    }

    /// Whether the store holds the record.
    pub fn holds(&self, record: &EntityAttributeValueIndex<A>) -> (b: bool)
        ensures
            b == self.records().contains(record@),
    {
        self.storage.contains(record)
    }

    /// Stores the record as it is where no record of its entity has its index,
    /// and does nothing otherwise. Returns whether the record was stored.
    pub fn insert_if_free(&mut self, record: EntityAttributeValueIndex<A>) -> (stored: bool)
        ensures
            stored == !collides(old(self).records(), record@.entity, record@.index),
            stored ==> final(self).records() == old(self).records().insert(record@),
            !stored ==> final(self).records() == old(self).records(),
            final(self).id() == old(self).id(),
    {
        proof {
            use_type_invariant(&*self);
        }
        let entity = record.entity();
        if index_taken(self.storage.as_slice(), &entity, record.index()) {
            return false;
        }
        let ghost before = self.storage@.to_set();
        let ghost x = record@;
        let mut storage: EaviSet<A> = EaviSet::new();
        proof {
            assert(storage@.to_set() =~= Set::<EaviView>::empty());
        }
        core::mem::swap(&mut self.storage, &mut storage);
        storage.insert(record);
        proof {
            lemma_persisted_keeps_unique(before, x, x);
        }
        core::mem::swap(&mut self.storage, &mut storage);
        true
    }
}

impl<A: Attribute> EavMemoryStorage<A> {
    /// The records of the store, in order.
    pub closed spec fn sequence(&self) -> Seq<EaviView> {
        self.storage@
    }

    /// Commits the records of another store to this one, in their order: a
    /// record that this store holds is passed over, every other is stored
    /// under its first free index. Where a record finds no free index,
    /// the store is left as it was.
    pub fn absorb(&mut self, other: &EavMemoryStorage<A>) -> (r: PersistenceResult<()>)
        ensures
            final(self).id() == old(self).id(),
            other.sequence().to_set() == other.records(),
            other.sequence().no_duplicates(),
            match absorb_all(old(self).records(), other.sequence()) {
                Some(merged) => r is Ok && final(self).records() == merged,
                None => r is Err && final(self).records() == old(self).records(),
            },
    {
        proof {
            use_type_invariant(&*self);
        }
        let ghost before = self.storage@.to_set();
        other.storage.ordered();
        let staged = other.storage.as_slice();
        let ghost source = other.storage@;
        let mut work = self.storage.clone();
        let n = staged.len();
        let mut i: usize = 0;
        proof {
            assert(source.skip(0) =~= source);
        }
        while i < n
            invariant
                i <= n,
                n == staged@.len(),
                crate::eav::set::views(staged@) == source,
                source == other.sequence(),
                source.no_duplicates(),
                self.records() == before,
                old(self).records() == before,
                self.id() == old(self).id(),
                unique_by_index(work@.to_set()),
                absorb_all(before, source) == absorb_from(work@.to_set(), before, source.skip(i as int)),
            decreases n - i,
        {
            let ghost held = work@.to_set();
            let ghost rest = source.skip(i as int);
            proof {
                assert(rest[0] == source[i as int]);
                assert(rest.drop_first() =~= source.skip(i + 1));
                assert(work.set() == held);
            }
            if !self.storage.contains(&staged[i]) {
                match increment_key_till_no_collision(staged[i].clone(), &work) {
                    Ok(stored) => {
                        proof {
                            lemma_first_free_persisted(held, rest[0], stored@.index);
                            lemma_persisted_keeps_unique(held, rest[0], stored@);
                        }
                        work.insert(stored);
                    },
                    Err(e) => {
                        proof {
                            assert forall|j: i64| !first_free_index(
                                held,
                                rest[0].entity,
                                rest[0].index,
                                j,
                            ) by {
                                if rest[0].index <= j {
                                    assert(collides(held, rest[0].entity, j));
                                }
                            }
                            assert(absorb_one(held, before, rest[0]) is None);
                        }
                        return Err(e);
                    },
                }
            }
            i = i + 1;
        }
        core::mem::swap(&mut self.storage, &mut work);
        Ok(())
    }
}

impl<A: Attribute> Clone for EavMemoryStorage<A> {
    /// A copy of the store with the same identity and the same records.
    fn clone(&self) -> (r: Self)
        ensures
            r.records() == self.records(),
            r.id() == self.id(),
    {
        proof {
            use_type_invariant(self);
        }
        EavMemoryStorage { storage: self.storage.clone(), id: self.id }
    }
}

impl<A: Attribute> EntityAttributeValueStorage<A> for EavMemoryStorage<A> {
    closed spec fn records(&self) -> Set<EaviView> {
        self.storage@.to_set()
    }

    /// The store in memory is dependable.
    open spec fn dependable(&self) -> bool {
        true
    }

    /// Stores the record under the first index, from its own on, that no
    /// record of its entity has. Fails only where every such index is taken.
    fn add_eavi(&mut self, eavi: &EntityAttributeValueIndex<A>) -> (r: PersistenceResult<
        Option<EntityAttributeValueIndex<A>>,
    >)
        ensures
            final(self).id() == old(self).id(),
            r matches Ok(kept) ==> kept matches Some(stored) && first_free_index(
                old(self).records(),
                eavi@.entity,
                eavi@.index,
                stored@.index,
            ),
            r is Err <==> forall|j: i64|
                eavi@.index <= j ==> collides(old(self).records(), eavi@.entity, j),
    {
        proof {
            use_type_invariant(&*self);
        }
        let ghost before = self.storage@.to_set();
        assert(self.storage.set() == before);
        match increment_key_till_no_collision(eavi.clone(), &self.storage) {
            Ok(stored) => {
                let kept = stored.clone();
                let mut storage: EaviSet<A> = EaviSet::new();
                proof {
                    assert(storage@.to_set() =~= Set::<EaviView>::empty());
                }
                core::mem::swap(&mut self.storage, &mut storage);
                storage.insert(stored);
                proof {
                    assert(!collides(before, eavi@.entity, kept@.index));
                    lemma_persisted_keeps_unique(before, eavi@, kept@);
                }
                core::mem::swap(&mut self.storage, &mut storage);
                Ok(Some(kept))
            },
            Err(e) => Err(e),
        }
    }

    /// Always succeeds.
    fn fetch_eavi(&self, query: &EaviQuery<A>) -> (r: PersistenceResult<EaviSet<A>>)
        ensures
            r is Ok,
    {
        Ok(query.run(self.storage.as_slice()))
    }
}

impl<A: Attribute> HasUuid for EavMemoryStorage<A> {
    closed spec fn id(&self) -> Uuid {
        self.id
    }

    fn get_id(&self) -> (id: Uuid) {
        self.id
    }
}

/// The store in memory does not report the space it takes.
impl<A: Attribute> ReportStorage for EavMemoryStorage<A> {
    open spec fn reported_bytes(&self) -> Option<usize> {
        None
    }

    fn get_byte_count(&self) -> (r: PersistenceResult<usize>) {
        unsupported_count()
    }

    fn get_storage_report(&self) -> (r: PersistenceResult<StorageReport>) {
        unsupported_report()
    }
}

} // verus!
