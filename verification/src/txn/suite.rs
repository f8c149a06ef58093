//! Scenarios that every provider of cursors must pass.
//!
//! Each scenario opens a cursor, works through it on the stores that it is
//! given, commits, and tells whether everything it saw was as it must be. A
//! scenario fails with an error only where a store or a cursor did.

use crate::cas::content::AddressableContent;
use crate::cas::storage::ContentAddressableStorage;
use crate::eav::eavi::{Attribute, EaviView, EntityAttributeValueIndex};
use crate::eav::query::{query_matches, query_selects, EavFilter, EaviQuery, IndexFilter};
use crate::eav::set::{views, EaviSet};
use crate::eav::storage::{
    collides, no_index_left, unique_by_index, EntityAttributeValueStorage,
};
use crate::error::{PersistenceError, PersistenceResult};
use crate::hash::{text_key, Address};
use crate::laws::law_only_selected;
use crate::txn::cursor::{
    committed_by, committed_records, fits_as_is, stored_form, visible, Cursor, CursorProvider,
    CursorRw, Writer,
};
use crate::txn::manager::new_example_persistence_manager;
use crate::txn::steps::{
    add_record, address_of, ask, eav_round_trip_steps, finish, has_value, history_query,
    is_exactly, is_of, joined, latest_query, lemma_newest_is_latest, lemma_none_in_world,
    lemma_one_in_world, lemma_plain_fits, lemma_world_grows, newest_of, plain, record_at,
    world_of_stored,
};
use core::marker::PhantomData;
use vstd::prelude::*;

verus! {

/// The records that relate the entity to the value under each of the
/// attributes, one for each, under the indices from 1 on in the order of the
/// attributes.
pub open spec fn one_per_attribute(entity: Seq<char>, keys: Seq<Seq<u8>>, value: Seq<char>) -> Set<
    EaviView,
> {
    Set::new(
        |x: EaviView|
            exists|k: int|
                0 <= k < keys.len() && x == record_at(
                    entity,
                    #[trigger] keys[k],
                    value,
                    (k + 1) as i64,
                ),
    )
}

/// The records of a record store that held nothing, after a record about one
/// value was committed and a record about another value was added through a
/// cursor that was dropped: the first record alone where the cursors are
/// isolated, and both where they are not.
pub open spec fn kept_and_dropped(
    isolated: bool,
    key: Seq<u8>,
    kept: Seq<char>,
    dropped: Seq<char>,
    kept_index: i64,
    dropped_index: i64,
) -> Set<EaviView> {
    if isolated {
        set![record_at(kept, key, kept, kept_index)]
    } else {
        set![
            record_at(kept, key, kept, kept_index),
            record_at(dropped, key, dropped, dropped_index),
        ]
    }
}

/// The scenarios, for the cursors of two providers: one for the scenario of
/// the marker of a removal, over records with attributes of a kind of their
/// own, and one for all the others.
#[derive(Debug)]
pub struct PersistenceManagerTestSuite<
    A: Attribute,
    CP: CursorProvider<A>,
    L: Attribute,
    TCP: CursorProvider<L>,
> {
    cursor_provider: CP,
    phantom: PhantomData<(A, L)>,
    tombstone_cursor_provider: TCP,
}

impl<
    A: Attribute,
    CP: CursorProvider<A>,
    L: Attribute,
    TCP: CursorProvider<L>,
> PersistenceManagerTestSuite<A, CP, L, TCP> {
    /// The scenarios for the cursors of the given providers.
    pub fn new(cursor_provider: CP, tombstone_cursor_provider: TCP) -> (r: Self)
        ensures
            r.provider() == cursor_provider,
            r.tombstone_provider() == tombstone_cursor_provider,
    {
        PersistenceManagerTestSuite {
            cursor_provider,
            phantom: PhantomData,
            tombstone_cursor_provider,
        }
    }

    /// The provider whose cursors the scenarios use.
    pub closed spec fn provider(&self) -> CP {
        self.cursor_provider
    }

    /// The provider whose cursors the scenario of the marker of a removal
    /// uses.
    pub closed spec fn tombstone_provider(&self) -> TCP {
        self.tombstone_cursor_provider
    }

    /// Opens a cursor for a scenario: one that has staged nothing. A provider
    /// that has what it takes gives a dependable cursor.
    pub fn with_cursor(&self) -> (r: PersistenceResult<CP::CursorRw>)
        ensures
            self.provider().provides() ==> r is Ok && r.unwrap().dependable(),
            r matches Ok(cursor) ==> cursor.staged_contents() == Map::<
                Seq<char>,
                Seq<char>,
            >::empty() && cursor.staged_records() == Set::<EaviView>::empty()
                && cursor.isolated() == self.provider().transactional(),
    {
        self.cursor_provider.create_cursor_rw()
    }

    /// Adds two values through one cursor and commits. Passes where the cursor
    /// saw neither before it added them, saw each from when it was added on, and
    /// found the content of each under its address. The scenario passes
    /// wherever the content store held nothing under the two addresses and the
    /// addresses differ. After it, the content store holds both. With a
    /// provider that has what it takes and dependable stores, the scenario
    /// gives its verdict. The record store holds afterwards what it held.
    pub fn cas_round_trip_test<T: AddressableContent, O: AddressableContent>(
        &self,
        cas: &mut <CP::CursorRw as Cursor<A>>::Cas,
        eav: &mut <CP::CursorRw as Cursor<A>>::Eav,
        content: &T,
        other_content: &O,
    ) -> (r: PersistenceResult<bool>)
        ensures
            self.provider().provides() && old(cas).dependable() && old(eav).dependable() ==> r is Ok,
            final(cas).dependable() == old(cas).dependable(),
            r is Ok ==> final(cas).contents() == old(cas).contents().insert(
                content.address_text(),
                content.content_text(),
            ).insert(other_content.address_text(), other_content.content_text()),
            r is Ok ==> final(eav).records() == old(eav).records(),
            r matches Ok(passed) ==> (!old(cas).contents().contains_key(content.address_text())
                && !old(cas).contents().contains_key(other_content.address_text())
                && content.address_text() != other_content.address_text() ==> passed),
    {
        let mut cursor = match self.with_cursor() {
            Ok(cursor) => cursor,
            Err(e) => {
                return Err(e);
            },
        };
        let ghost seen0 = visible(cursor.staged_contents(), cas.contents());
        proof {
            assert(seen0 =~= cas.contents());
            assert(fits_as_is(cursor.staged_records(), eav.records()));
        }
        let address = content.address();
        let other_address = other_content.address();
        let text = content.content();
        let other_text = other_content.content();

        let held = cursor.contains(cas, &address)?;
        let found = cursor.fetch(cas, &address)?;
        let other_held = cursor.contains(cas, &other_address)?;
        let other_found = cursor.fetch(cas, &other_address)?;
        let unseen = !held && found.is_none() && !other_held && other_found.is_none();

        cursor.add(cas, content)?;
        let held = cursor.contains(cas, &address)?;
        let other_held = cursor.contains(cas, &other_address)?;
        let found = cursor.fetch(cas, &address)?;
        let first_seen = held && !other_held && match found {
            Some(f) => f.same(&text),
            None => false,
        };

        cursor.add(cas, other_content)?;
        let held = cursor.contains(cas, &address)?;
        let other_held = cursor.contains(cas, &other_address)?;
        let found = cursor.fetch(cas, &address)?;
        let other_found = cursor.fetch(cas, &other_address)?;
        let both_seen = held && other_held && (match found {
            Some(f) => f.same(&text),
            None => false,
        }) && (match other_found {
            Some(f) => f.same(&other_text),
            None => false,
        });
        let ghost seen = visible(cursor.staged_contents(), cas.contents());
        proof {
            assert(seen == seen0.insert(content.address_text(), content.content_text()).insert(
                other_content.address_text(),
                other_content.content_text(),
            ));
        }
        cursor.commit(cas, eav)?;
        Ok(unseen && first_seen && both_seen)
    }

    /// Adds one record through a cursor and commits. Passes where no record
    /// answered the query for it before, and where afterwards the record as it
    /// was stored, and it alone, answered each of five queries: the one that
    /// asks for its entity, attribute and value, the three that leave one of
    /// them open, and the one that leaves all open. The scenario passes
    /// wherever the record store held nothing; with a provider that has what
    /// it takes and dependable stores, it then gives that verdict. A record
    /// store that held nothing holds the record alone afterwards, under some
    /// index.
    pub fn eav_test_round_trip<E: AddressableContent, V: AddressableContent>(
        &self,
        cas: &mut <CP::CursorRw as Cursor<A>>::Cas,
        eav: &mut <CP::CursorRw as Cursor<A>>::Eav,
        entity_content: &E,
        attribute: A,
        value_content: &V,
    ) -> (r: PersistenceResult<bool>)
        ensures
            r is Ok ==> old(eav).records().subset_of(final(eav).records()),
            r matches Ok(passed) ==> (old(eav).records() == Set::<EaviView>::empty() ==> passed),
            self.provider().provides() && old(cas).dependable() && old(eav).dependable() && old(eav).records() == Set::<EaviView>::empty() ==> r == Ok::<bool, PersistenceError>(true),
            r is Ok && old(eav).records() == Set::<EaviView>::empty() ==> exists|i: i64|
                final(eav).records() == set![#[trigger] record_at(
                    entity_content.address_text(),
                    attribute.key(),
                    value_content.address_text(),
                    i,
                )],
    {
        let ghost fresh = eav.records() == Set::<EaviView>::empty();
        let ghost e = entity_content.address_text();
        let ghost v = value_content.address_text();
        let mut cursor = match self.with_cursor() {
            Ok(cursor) => cursor,
            Err(e) => {
                return Err(e);
            },
        };
        let verdict = eav_round_trip_steps(
            &mut cursor,
            eav,
            &entity_content.address(),
            &attribute,
            &value_content.address(),
        )?;
        let ghost before = eav.records();
        let ghost staged = cursor.staged_records();
        cursor.commit(cas, eav)?;
        proof {
            if fresh {
                let i0 = choose|i: i64|
                    staged + before == set![#[trigger] record_at(e, attribute.key(), v, i)];
                let x = record_at(e, attribute.key(), v, i0);
                let placed = choose|placed: spec_fn(EaviView) -> EaviView|
                    committed_by(before, staged, eav.records(), placed);
                assert((staged + before).contains(x));
                assert forall|y: EaviView| staged.contains(y) || before.contains(y) implies y
                    == x by {
                    assert((staged + before).contains(y));
                }
                if staged.contains(x) {
                    assert(staged =~= set![x]);
                    assert(staged.map(placed) =~= set![placed(x)]);
                    assert(stored_form(x, placed(x)));
                    if before.contains(x) {
                        assert(eav.records() =~= set![x]);
                    } else {
                        assert(before =~= Set::<EaviView>::empty());
                        assert(eav.records() =~= set![record_at(
                            e,
                            attribute.key(),
                            v,
                            placed(x).index,
                        )]);
                    }
                } else {
                    assert(staged =~= Set::<EaviView>::empty());
                    assert(before =~= set![x]);
                    assert(staged.map(placed) =~= Set::<EaviView>::empty());
                    assert(eav.records() =~= set![x]);
                }
            }
        }
        Ok(verdict)
    }

    /// Adds a value and a record about it through one cursor while another
    /// cursor is open, and commits. Passes where the first cursor saw what it
    /// added, the other cursor saw nothing of it before the commit and all of
    /// it after, and a cursor that was opened after the commit saw it too.
    /// After the scenario the content store holds what it held and the value.
    /// With a provider of isolated cursors, the scenario passes wherever the
    /// record store held nothing and the content store held nothing under the
    /// address of the value. With a provider that has what it takes and
    /// dependable stores, the scenario gives its verdict wherever the record
    /// store held nothing. A record store that held nothing holds the record
    /// alone afterwards, under some index. A provider whose cursors are not
    /// isolated does not pass: the other cursor sees the value at once.
    pub fn cas_eav_test_transaction_isolation<T: AddressableContent>(
        &self,
        cas: &mut <CP::CursorRw as Cursor<A>>::Cas,
        eav: &mut <CP::CursorRw as Cursor<A>>::Eav,
        content: &T,
        attribute: A,
    ) -> (r: PersistenceResult<bool>)
        ensures
            self.provider().provides() && old(cas).dependable() && old(eav).dependable() && old(eav).records() == Set::<EaviView>::empty() ==> r is Ok,
            r is Ok ==> final(cas).contents() == old(cas).contents().insert(
                content.address_text(),
                content.content_text(),
            ),
            r is Ok && old(eav).records() == Set::<EaviView>::empty() ==> exists|i: i64|
                final(eav).records() == set![#[trigger] record_at(
                    content.address_text(),
                    attribute.key(),
                    content.address_text(),
                    i,
                )],
            r matches Ok(passed) ==> (self.provider().transactional() && old(eav).records()
                == Set::<EaviView>::empty() && !old(cas).contents().contains_key(
                content.address_text(),
            ) ==> passed),
            r matches Ok(passed) ==> (!self.provider().transactional() ==> !passed),
    {
        let ghost isolated = self.provider().transactional();
        let ghost nothing = Set::<EaviView>::empty();
        let ghost cas0 = cas.contents();
        let ghost a = content.address_text();
        let ghost fresh = eav.records() == nothing;
        let ghost apart = isolated && eav.records() == nothing && !cas0.contains_key(a);
        let address = content.address();
        let text = content.content();
        let query = latest_query(Some(&address), Some(&attribute), Some(&address));

        let mut first = self.with_cursor()?;
        let mut other = self.with_cursor()?;
        proof {
            assert(visible(first.staged_contents(), cas0) =~= cas0);
            assert(visible(other.staged_contents(), cas0) =~= cas0);
        }
        first.add(cas, content)?;
        proof {
            if !isolated {
                assert(visible(first.staged_contents(), cas.contents()) =~= cas.contents());
                assert(cas.contents().contains_key(a));
                assert(visible(other.staged_contents(), cas.contents()) =~= cas.contents());
            }
        }
        let record = EntityAttributeValueIndex::new(&address, &attribute, &address)?;
        proof {
            if fresh {
                let base = joined(isolated, first.staged_records(), eav.records());
                assert(!collides(base, record@.entity, record@.index));
                assert(!no_index_left(base, record@.entity, record@.index));
            }
        }
        let stored = match first.add_eavi(eav, &record)? {
            Some(stored) => stored,
            None => {
                return Err(PersistenceError::generic("the record was not stored"));
            },
        };
        let ghost x = stored@;
        let ghost cas_between = cas.contents();
        let seen_by_first = first.contains(cas, &address)?;
        let ghost staged_x = first.staged_records();
        let found_by_first = first.fetch_eavi(eav, &query)?;
        proof {
            if fresh {
                if isolated {
                    assert(staged_x =~= set![x]);
                    assert(first.staged_records() =~= set![x]);
                    assert(eav.records() =~= nothing);
                } else {
                    assert(first.staged_records() =~= nothing);
                }
                assert(fits_as_is(first.staged_records(), eav.records()));
            }
            if apart {
                assert(staged_x =~= set![x]);
                lemma_one_in_world(staged_x, nothing, set![x], x, query@, found_by_first@);
                assert(first.staged_records() =~= set![x]);
            }
        }
        // The other cursor sees nothing of it.
        let seen_by_other = other.contains(cas, &address)?;
        let ghost other_staged = other.staged_records();
        let found_by_other = other.fetch_eavi(eav, &query)?;
        proof {
            if apart {
                assert(cas_between == cas0);
                lemma_none_in_world(other_staged, nothing, nothing, query@, found_by_other@);
                assert(other.staged_records() =~= nothing);
            }
        }
        let hidden = seen_by_first && found_by_first.len() == 1 && !seen_by_other
            && found_by_other.is_empty();

        let ghost staged_at_commit = first.staged_records();
        let ghost before_commit = eav.records();
        proof {
            assert(visible(first.staged_contents(), cas.contents()) == cas0.insert(
                a,
                content.content_text(),
            ));
        }
        first.commit(cas, eav)?;
        let ghost cas1 = cas.contents();
        let ghost eav1 = eav.records();
        let ghost placed = choose|placed: spec_fn(EaviView) -> EaviView|
            committed_by(nothing, staged_at_commit, eav1, placed);
        let ghost s = placed(x);
        proof {
            assert(cas1 == cas0.insert(a, content.content_text()));
            if fresh {
                if isolated {
                    assert(staged_at_commit =~= set![x]);
                    assert(committed_records(nothing, set![x], eav1));
                    assert(set![x].contains(x));
                    assert(set![x].map(placed) =~= set![s]);
                    assert(eav1 =~= set![s]);
                    assert(stored_form(x, s));
                    assert(s == record_at(a, attribute.key(), a, s.index));
                } else {
                    let as_is = choose|as_is: spec_fn(EaviView) -> EaviView|
                        committed_by(before_commit, staged_at_commit, eav1, as_is);
                    assert(staged_at_commit.map(as_is) =~= nothing);
                    assert(before_commit =~= set![x]);
                    assert(eav1 =~= set![x]);
                    assert(x == record_at(a, attribute.key(), a, x.index));
                }
            }
            if apart {
                assert(committed_records(nothing, set![x], eav1));
                assert(set![x].contains(x));
                assert(set![x].map(placed) =~= set![s]);
                assert(eav1 =~= set![s]);
                assert(stored_form(x, s));
                assert(query_matches(query@, s));
            }
        }
        // After the commit the other cursor sees all of it.
        let found = other.fetch(cas, &address)?;
        let records = other.fetch_eavi(eav, &query)?;
        proof {
            if apart {
                lemma_one_in_world(nothing, eav1, set![s], s, query@, records@);
            }
        }
        let shown = (match found {
            Some(f) => f.same(&text),
            None => false,
        }) && records.len() == 1;
        // So does a cursor that was opened after the commit.
        let mut late = self.with_cursor()?;
        proof {
            assert(visible(late.staged_contents(), cas1) =~= cas1);
        }
        let seen_late = late.contains(cas, &address)?;
        let records = late.fetch_eavi(eav, &query)?;
        proof {
            if apart {
                lemma_one_in_world(nothing, eav1, set![s], s, query@, records@);
            }
        }
        Ok(hidden && shown && seen_late && records.len() == 1)
    }

    /// Commits a value and a record about it, then adds another value and a
    /// record about that one through a cursor that is dropped without a
    /// commit. Passes where each cursor saw what it added, and where the cursor
    /// that was opened last saw what was committed and nothing of what was
    /// dropped. With a provider of isolated cursors, the content store holds
    /// afterwards what it held and the committed value; the scenario passes
    /// wherever, besides, the record store held nothing, the content store held
    /// nothing under the two addresses, and the addresses differ. With a
    /// provider that has what it takes and dependable stores, the scenario
    /// gives its verdict wherever the record store held nothing and the
    /// addresses differ; the record store then holds the committed record
    /// afterwards, and the dropped one only where the cursors are not
    /// isolated. A provider whose cursors are not isolated does not pass: what
    /// the dropped cursor added is still there.
    pub fn cas_eav_test_transaction_abort<T: AddressableContent, O: AddressableContent>(
        &self,
        cas: &mut <CP::CursorRw as Cursor<A>>::Cas,
        eav: &mut <CP::CursorRw as Cursor<A>>::Eav,
        content: &T,
        attribute: A,
        transient_content: &O,
    ) -> (r: PersistenceResult<bool>)
        ensures
            self.provider().provides() && old(cas).dependable() && old(eav).dependable() && old(eav).records() == Set::<EaviView>::empty() && content.address_text()
                != transient_content.address_text() ==> r is Ok && exists|i: i64, j: i64|
                final(eav).records() == #[trigger] kept_and_dropped(
                    self.provider().transactional(),
                    attribute.key(),
                    content.address_text(),
                    transient_content.address_text(),
                    i,
                    j,
                ),
            r is Ok && self.provider().transactional() ==> final(cas).contents() == old(cas).contents().insert(content.address_text(), content.content_text()),
            r matches Ok(passed) ==> (self.provider().transactional() && old(eav).records()
                == Set::<EaviView>::empty() && !old(cas).contents().contains_key(
                content.address_text(),
            ) && !old(cas).contents().contains_key(transient_content.address_text())
                && content.address_text() != transient_content.address_text() ==> passed),
            r matches Ok(passed) ==> (!self.provider().transactional() ==> !passed),
    {
        let ghost isolated = self.provider().transactional();
        let ghost nothing = Set::<EaviView>::empty();
        let ghost cas0 = cas.contents();
        let ghost a = content.address_text();
        let ghost t = transient_content.address_text();
        let ghost apart = isolated && eav.records() == nothing && !cas0.contains_key(a)
            && !cas0.contains_key(t) && a != t;
        let ghost good = self.provider().provides() && cas.dependable() && eav.dependable()
            && eav.records() == nothing && a != t;
        let address = content.address();
        let transient_address = transient_content.address();
        let query = latest_query(Some(&address), Some(&attribute), Some(&address));
        let transient_query = latest_query(
            Some(&transient_address),
            Some(&attribute),
            Some(&transient_address),
        );
        proof {
            if a != t {
                if text_key(a) == text_key(t) {
                    crate::hash::lemma_text_key_injective(a, t);
                }
            }
        }

        // Set the primary stores up through a first cursor.
        let mut cursor = self.with_cursor()?;
        proof {
            assert(visible(cursor.staged_contents(), cas0) =~= cas0);
        }
        cursor.add(cas, content)?;
        let record = EntityAttributeValueIndex::new(&address, &attribute, &address)?;
        proof {
            if good {
                let base = joined(isolated, cursor.staged_records(), eav.records());
                assert(!collides(base, record@.entity, record@.index));
                assert(!no_index_left(base, record@.entity, record@.index));
            }
        }
        let stored = match cursor.add_eavi(eav, &record)? {
            Some(stored) => stored,
            None => {
                return Err(PersistenceError::generic("the record was not stored"));
            },
        };
        let ghost x = stored@;
        let held = cursor.contains(cas, &address)?;
        let ghost staged_x = cursor.staged_records();
        let found = cursor.fetch_eavi(eav, &query)?;
        proof {
            if apart {
                assert(staged_x =~= set![x]);
                lemma_one_in_world(staged_x, nothing, set![x], x, query@, found@);
                assert(cursor.staged_records() =~= set![x]);
            }
        }
        let set_up = held && found.len() == 1;
        let ghost staged_at_commit = cursor.staged_records();
        proof {
            if good {
                if isolated {
                    assert(staged_x =~= set![x]);
                    assert(cursor.staged_records() =~= set![x]);
                    assert(eav.records() =~= nothing);
                } else {
                    assert(cursor.staged_records() =~= nothing);
                    assert(eav.records() =~= set![x]);
                }
                assert(fits_as_is(cursor.staged_records(), eav.records()));
            }
        }
        cursor.commit(cas, eav)?;
        let ghost cas1 = cas.contents();
        let ghost eav1 = eav.records();
        proof {
            if good {
                assert(eav1 =~= set![x]);
            }
        }
        let ghost placed = choose|placed: spec_fn(EaviView) -> EaviView|
            committed_by(nothing, staged_at_commit, eav1, placed);
        let ghost s = placed(x);
        proof {
            if isolated {
                assert(cas1 == cas0.insert(a, content.content_text()));
            }
            if apart {
                assert(committed_records(nothing, set![x], eav1));
                assert(set![x].contains(x));
                assert(set![x].map(placed) =~= set![s]);
                assert(eav1 =~= set![s]);
                assert(stored_form(x, s));
                assert(query_matches(query@, s));
                assert(!query_matches(transient_query@, s));
            }
        }

        // A second cursor sees what the first one committed.
        let mut cursor = self.with_cursor()?;
        proof {
            assert(visible(cursor.staged_contents(), cas1) =~= cas1);
        }
        let held = cursor.contains(cas, &address)?;
        let found = cursor.fetch_eavi(eav, &query)?;
        proof {
            if apart {
                lemma_one_in_world(nothing, eav1, set![s], s, query@, found@);
            }
        }
        let sane = held && found.len() == 1;
        let ghost staged_at_commit = cursor.staged_records();
        proof {
            if good {
                assert forall|y: EaviView| #[trigger]
                    staged_at_commit.contains(y) implies eav1.contains(y) by {
                    assert((nothing + eav1).contains(y));
                }
                assert(fits_as_is(staged_at_commit, eav1));
            }
        }
        cursor.commit(cas, eav)?;
        proof {
            if good {
                assert(eav.records() =~= set![x]);
            }
        }
        proof {
            if isolated {
                assert(cas.contents() == cas1);
            }
            if apart {
                let again = choose|again: spec_fn(EaviView) -> EaviView|
                    committed_by(eav1, staged_at_commit, eav.records(), again);
                assert forall|y: EaviView| staged_at_commit.map(again).contains(y) implies y
                    == s by {
                    let z = choose|z: EaviView| staged_at_commit.contains(z) && again(z) == y;
                    assert(eav1.contains(z));
                }
                assert(eav.records() =~= set![s]);
            }
        }

        // A third cursor adds more, and is dropped.
        let mut cursor = self.with_cursor()?;
        proof {
            assert(visible(cursor.staged_contents(), cas1) =~= cas1);
        }
        let transient_held = cursor.contains(cas, &transient_address)?;
        let found = cursor.fetch_eavi(eav, &transient_query)?;
        proof {
            if apart {
                lemma_none_in_world(nothing, eav.records(), set![s], transient_query@, found@);
            }
        }
        let unseen = !transient_held && found.is_empty();
        let ghost staged_third = cursor.staged_contents();
        let ghost cas_third = cas.contents();
        cursor.add(cas, transient_content)?;
        proof {
            if !isolated {
                assert(staged_third == Map::<Seq<char>, Seq<char>>::empty());
                assert(visible(staged_third, cas_third) =~= cas_third);
                assert(visible(staged_third, cas.contents()) =~= cas.contents());
                assert(cas.contents().contains_key(t));
            }
        }
        let transient_record = EntityAttributeValueIndex::new(
            &transient_address,
            &attribute,
            &transient_address,
        )?;
        let ghost staged_before = cursor.staged_records();
        proof {
            if good {
                let base = joined(isolated, staged_before, eav.records());
                assert forall|y: EaviView| #[trigger] base.contains(y) implies y == x by {
                    if isolated {
                        assert((nothing + eav.records()).contains(y));
                    }
                }
                assert(!collides(base, t, transient_record@.index));
                assert(!no_index_left(base, t, transient_record@.index));
            }
        }
        let transient_stored = match cursor.add_eavi(eav, &transient_record)? {
            Some(stored) => stored,
            None => {
                return Err(PersistenceError::generic("the record was not stored"));
            },
        };
        let ghost xt = transient_stored@;
        let ghost staged_after = cursor.staged_records();
        let found = cursor.fetch_eavi(eav, &transient_query)?;
        proof {
            if apart {
                assert(staged_after =~= staged_before.insert(xt));
                lemma_one_in_world(
                    staged_after,
                    eav.records(),
                    set![s, xt],
                    xt,
                    transient_query@,
                    found@,
                );
            }
        }
        let staged_seen = found.len() == 1;

        // A fourth cursor sees what was committed, and nothing of what was dropped.
        let mut cursor = self.with_cursor()?;
        proof {
            assert(visible(cursor.staged_contents(), cas.contents()) =~= cas.contents());
        }
        let transient_held = cursor.contains(cas, &transient_address)?;
        let held = cursor.contains(cas, &address)?;
        let found = cursor.fetch_eavi(eav, &query)?;
        proof {
            if apart {
                lemma_one_in_world(nothing, eav.records(), set![s], s, query@, found@);
            }
        }
        let ghost staged_between = cursor.staged_records();
        let transient_found = cursor.fetch_eavi(eav, &transient_query)?;
        proof {
            if apart {
                lemma_none_in_world(
                    staged_between,
                    eav.records(),
                    set![s],
                    transient_query@,
                    transient_found@,
                );
            }
        }
        let pure = !transient_held && held && found.len() == 1 && transient_found.is_empty();
        proof {
            if good {
                let staged = cursor.staged_records();
                let primary = eav.records();
                assert(primary.subset_of(set![x, xt]));
                assert forall|y: EaviView| #[trigger] staged.contains(y) implies primary.contains(
                    y,
                ) by {
                    assert((nothing + primary).contains(y));
                }
                assert(fits_as_is(staged, primary));
                if isolated {
                    assert(primary =~= set![x]);
                } else {
                    assert(primary =~= set![x, xt]);
                }
            }
        }
        let ghost before_last = eav.records();
        cursor.commit(cas, eav)?;
        proof {
            if good {
                assert(eav.records() =~= before_last);
                assert(x == record_at(a, attribute.key(), a, x.index));
                assert(xt == record_at(t, attribute.key(), t, xt.index));
                assert(eav.records() == kept_and_dropped(
                    isolated,
                    attribute.key(),
                    a,
                    t,
                    x.index,
                    xt.index,
                ));
            }
        }
        Ok(set_up && sane && unseen && staged_seen && pure)
    }

    /// Relates one entity to three values under one attribute, under the
    /// indices from 1 to 3. Passes where the query for every record of the
    /// entity and attribute is answered by the three records, the query for the
    /// latest one by the record with the greatest index, and the query for each
    /// value by records of the entity. Nothing that the record store holds is
    /// lost. The scenario passes wherever the record store held nothing; with a
    /// provider that has what it takes, dependable stores and contents `foo`,
    /// `bar` and `baz` that stand for values, it then gives that verdict, and
    /// the record store holds the three records afterwards and nothing else.
    pub fn eav_test_one_to_many<T: AddressableContent>(
        &self,
        cas: &mut <CP::CursorRw as Cursor<A>>::Cas,
        eav: &mut <CP::CursorRw as Cursor<A>>::Eav,
        attribute: &A,
    ) -> (r: PersistenceResult<bool>)
        ensures
            old(eav).records().subset_of(final(eav).records()),
            r matches Ok(passed) ==> (old(eav).records() == Set::<EaviView>::empty() ==> passed),
            self.provider().provides() && old(cas).dependable() && old(eav).dependable() && old(eav).records() == Set::<EaviView>::empty() && T::read_address("foo"@) is Some
                && T::read_address("bar"@) is Some && T::read_address("baz"@) is Some ==> r
                == Ok::<bool, PersistenceError>(true) && final(eav).records() == set![
                record_at(
                    T::read_address("foo"@).unwrap(),
                    attribute.key(),
                    T::read_address("foo"@).unwrap(),
                    1,
                ),
                record_at(
                    T::read_address("foo"@).unwrap(),
                    attribute.key(),
                    T::read_address("bar"@).unwrap(),
                    2,
                ),
                record_at(
                    T::read_address("foo"@).unwrap(),
                    attribute.key(),
                    T::read_address("baz"@).unwrap(),
                    3,
                ),
            ],
    {
        let ghost fresh = eav.records() == Set::<EaviView>::empty();
        let ghost sound = self.provider().provides() && cas.dependable() && eav.dependable();
        let one = address_of::<T>("foo")?;
        let mut many: Vec<Address> = Vec::new();
        many.push(address_of::<T>("foo")?);
        many.push(address_of::<T>("bar")?);
        many.push(address_of::<T>("baz")?);
        let mut cursor = self.with_cursor()?;
        let ghost isolated = cursor.isolated();
        proof {
            if fresh {
                assert(cursor.staged_records() + eav.records() =~= Set::<EaviView>::empty());
            }
        }
        let mut expected: EaviSet<A> = EaviSet::new();
        let mut last = add_record(&mut cursor, eav, &one, attribute, &many[0], Some(1))?;
        expected.insert(last.clone());
        let ghost mut made: Seq<EaviView> = seq![last@];
        proof {
            if fresh {
                assert(cursor.staged_records() + eav.records() =~= set![last@]);
                assert(expected.set() =~= set![last@]);
                assert(made =~= Seq::<EaviView>::empty().push(last@));
                Seq::<EaviView>::empty().lemma_push_to_set_commute(last@);
                assert(Seq::<EaviView>::empty().to_set() =~= Set::<EaviView>::empty());
                assert(made.to_set() =~= set![last@]);
                assert(last@ == record_at(one@, attribute.key(), many@[0]@, 1));
                assert(expected.set().contains(last@));
                assert(has_value(expected.set(), many@[0]@));
                assert(plain(isolated, cursor.staged_records(), eav.records()));
                assert(expected.set() == cursor.staged_records() + eav.records());
            }
        }
        let mut i: usize = 1;
        let mut index: i64 = 2;
        while i < many.len()
            invariant
                1 <= i <= many.len(),
                many@.len() == 3,
                index == i + 1,
                fresh ==> {
                    &&& made.len() == i
                    &&& expected.set() == made.to_set()
                    &&& forall|k: int|
                        0 <= k < i ==> #[trigger] made[k] == record_at(
                            one@,
                            attribute.key(),
                            many@[k]@,
                            (k + 1) as i64,
                        )
                },
                old(eav).records().subset_of(eav.records()),
                cursor.isolated() == isolated,
                sound == (self.provider().provides() && old(cas).dependable() && old(eav).dependable()),
                fresh == (old(eav).records() == Set::<EaviView>::empty()),
                sound ==> cursor.dependable() && eav.dependable(),
                fresh ==> last@.index < index,
                fresh ==> {
                    &&& plain(isolated, cursor.staged_records(), eav.records())
                    &&& expected.set() == cursor.staged_records() + eav.records()
                    &&& expected.set().contains(last@)
                    &&& forall|x: EaviView| #[trigger]
                        expected.set().contains(x) ==> x.entity == one@ && x.attribute
                            == attribute.key() && x.index <= last@.index
                    &&& forall|x: EaviView, y: EaviView|
                        #![trigger expected.set().contains(x), expected.set().contains(y)]
                        expected.set().contains(x) && expected.set().contains(y) && x.index
                            == y.index ==> x == y
                    &&& forall|k: int|
                        0 <= k < i ==> has_value(expected.set(), (#[trigger] many@[k])@)
                },
            decreases many.len() - i,
        {
            let ghost world = cursor.staged_records() + eav.records();
            let ghost before = expected.set();
            proof {
                if fresh {
                    assert(!collides(world, one@, index)) by {
                        if collides(world, one@, index) {
                            let y = choose|y: EaviView| #[trigger]
                                world.contains(y) && y.entity == one@ && y.index == index;
                            assert(before.contains(y));
                        }
                    }
                }
            }
            let stored = add_record(&mut cursor, eav, &one, attribute, &many[i], Some(index))?;
            expected.insert(stored.clone());
            if stored.index() > last.index() {
                last = stored;
            }
            proof {
                if fresh {
                    let x0 = stored@;
                    let grown = expected.set();
                    assert(grown =~= cursor.staged_records() + eav.records());
                    assert(x0 == record_at(one@, attribute.key(), many@[i as int]@, index));
                    made.lemma_push_to_set_commute(x0);
                    made = made.push(x0);
                    assert forall|x: EaviView| before.contains(x) implies x.index != x0.index by {
                        assert(world.contains(x));
                    }
                    assert forall|k: int| 0 <= k < i + 1 implies has_value(
                        grown,
                        (#[trigger] many@[k])@,
                    ) by {
                        if k < i {
                            assert(has_value(before, many@[k]@));
                            let x = choose|x: EaviView| #[trigger]
                                before.contains(x) && x.value == many@[k]@;
                            assert(grown.contains(x));
                        } else {
                            assert(grown.contains(x0));
                        }
                    }
                }
            }
            i = i + 1;
            index = index + 1;
        }
        let ghost world = cursor.staged_records() + eav.records();
        proof {
            if fresh {
                assert forall|x: EaviView, y: EaviView|
                    #![trigger world.contains(x), world.contains(y)]
                    world.contains(x) && world.contains(y) && x.entity == y.entity && x.index
                        == y.index implies x == y by {
                    assert(expected.set().contains(x) && expected.set().contains(y));
                }
                assert(unique_by_index(world));
                assert(made =~= seq![made[0], made[1], made[2]]);
                assert(world =~= set![made[0], made[1], made[2]]);
            }
        }
        let q_history = history_query(Some(&one), Some(attribute), None, None, None);
        let q_latest = latest_query(Some(&one), Some(attribute), None);
        let history = ask(&mut cursor, eav, &q_history)?;
        let mut passed = history.same_as(&expected);
        let latest = ask(&mut cursor, eav, &q_latest)?;
        passed = passed && is_exactly(&latest, &last);
        proof {
            if fresh {
                assert forall|x: EaviView| history.set().contains(x) <==> world.contains(x) by {
                    if history@.contains(x) {
                        assert(query_selects(q_history@, world, x));
                    }
                    if world.contains(x) {
                        assert(expected.set().contains(x));
                        assert(query_selects(q_history@, world, x));
                    }
                }
                assert(history.set() =~= expected.set());
                crate::order::lemma_bytes_irreflexive(text_key(last@.value));
                assert(expected.set().contains(last@));
                assert forall|y: EaviView|
                    world.contains(y) && query_matches(q_latest@, y) implies !crate::eav::query::supersedes(
                    y,
                    last@,
                ) by {
                    assert(expected.set().contains(y));
                }
                assert(query_selects(q_latest@, world, last@));
                assert forall|y: EaviView| query_selects(q_latest@, world, y) implies y
                    == last@ by {
                    assert(expected.set().contains(y));
                    if y != last@ {
                        assert(crate::eav::query::supersedes(last@, y));
                    }
                }
                law_only_selected(world, last@, q_latest@, latest@);
                assert(passed);
            }
        }
        let mut i: usize = 0;
        while i < many.len()
            invariant
                i <= many.len(),
                old(eav).records().subset_of(eav.records()),
                cursor.isolated() == isolated,
                sound == (self.provider().provides() && old(cas).dependable() && old(eav).dependable()),
                fresh == (old(eav).records() == Set::<EaviView>::empty()),
                sound ==> cursor.dependable() && eav.dependable(),
                fresh ==> unique_by_index(world),
                fresh ==> {
                    &&& passed
                    &&& plain(isolated, cursor.staged_records(), eav.records())
                    &&& world == cursor.staged_records() + eav.records()
                    &&& forall|x: EaviView| #[trigger]
                        world.contains(x) ==> x.entity == one@ && x.attribute == attribute.key()
                    &&& forall|k: int|
                        0 <= k < many.len() ==> has_value(world, (#[trigger] many@[k])@)
                },
            decreases many.len() - i,
        {
            let q_value = history_query(None, Some(attribute), Some(&many[i]), None, None);
            let by_value = ask(&mut cursor, eav, &q_value)?;
            proof {
                if fresh {
                    assert(has_value(world, many@[i as int]@));
                    let x = choose|x: EaviView| #[trigger]
                        world.contains(x) && x.value == many@[i as int]@;
                    assert(query_selects(q_value@, world, x));
                    assert(by_value@.contains(x));
                    assert(by_value@.contains(by_value@[0]));
                    assert(query_selects(q_value@, world, by_value@[0]));
                }
            }
            let entity_is_one = match by_value.get(0) {
                Some(found) => found.entity_ref().same(&one),
                None => false,
            };
            passed = passed && by_value.len() >= 1 && entity_is_one;
            i = i + 1;
        }
        proof {
            if fresh {
                lemma_plain_fits(isolated, cursor.staged_records(), eav.records());
            }
        }
        finish(cursor, cas, eav)?;
        proof {
            if fresh && sound {
                assert(eav.records() =~= world);
            }
        }
        Ok(passed)
    }

    /// Relates three entities to one value under one attribute, under the
    /// indices from 1 to 3. Passes where the query for every record of the
    /// value and attribute is answered by the three records, and the query for
    /// the latest record of each entity by the record of that entity with the
    /// greatest index. Nothing that the record store holds is lost. The
    /// scenario passes wherever the record store held nothing; with a provider
    /// that has what it takes, dependable stores and contents `foo`, `bar` and
    /// `baz` that stand for values, it then gives that verdict, and the record
    /// store holds the three records afterwards and nothing else.
    pub fn eav_test_many_to_one<T: AddressableContent>(
        &self,
        cas: &mut <CP::CursorRw as Cursor<A>>::Cas,
        eav: &mut <CP::CursorRw as Cursor<A>>::Eav,
        attribute: &A,
    ) -> (r: PersistenceResult<bool>)
        ensures
            old(eav).records().subset_of(final(eav).records()),
            r matches Ok(passed) ==> (old(eav).records() == Set::<EaviView>::empty() ==> passed),
            self.provider().provides() && old(cas).dependable() && old(eav).dependable() && old(eav).records() == Set::<EaviView>::empty() && T::read_address("foo"@) is Some
                && T::read_address("bar"@) is Some && T::read_address("baz"@) is Some ==> r
                == Ok::<bool, PersistenceError>(true) && final(eav).records() == set![
                record_at(
                    T::read_address("foo"@).unwrap(),
                    attribute.key(),
                    T::read_address("foo"@).unwrap(),
                    1,
                ),
                record_at(
                    T::read_address("bar"@).unwrap(),
                    attribute.key(),
                    T::read_address("foo"@).unwrap(),
                    2,
                ),
                record_at(
                    T::read_address("baz"@).unwrap(),
                    attribute.key(),
                    T::read_address("foo"@).unwrap(),
                    3,
                ),
            ],
    {
        let ghost fresh = eav.records() == Set::<EaviView>::empty();
        let ghost sound = self.provider().provides() && cas.dependable() && eav.dependable();
        let one = address_of::<T>("foo")?;
        let mut many: Vec<Address> = Vec::new();
        many.push(address_of::<T>("foo")?);
        many.push(address_of::<T>("bar")?);
        many.push(address_of::<T>("baz")?);
        let mut cursor = self.with_cursor()?;
        let ghost isolated = cursor.isolated();
        let mut expected: EaviSet<A> = EaviSet::new();
        let mut stored_all: Vec<EntityAttributeValueIndex<A>> = Vec::new();
        let mut index: i64 = 1;
        proof {
            if fresh {
                assert(cursor.staged_records() + eav.records() =~= Set::<EaviView>::empty());
                assert(views(stored_all@) =~= Seq::<EaviView>::empty());
                assert(views(stored_all@).to_set() =~= Set::<EaviView>::empty());
                assert(expected.set() =~= Set::<EaviView>::empty());
            }
        }
        let mut i: usize = 0;
        while i < many.len()
            invariant
                i <= many.len(),
                many@.len() == 3,
                index == i + 1,
                stored_all@.len() == i,
                old(eav).records().subset_of(eav.records()),
                cursor.isolated() == isolated,
                sound == (self.provider().provides() && old(cas).dependable() && old(eav).dependable()),
                fresh == (old(eav).records() == Set::<EaviView>::empty()),
                sound ==> cursor.dependable() && eav.dependable(),
                fresh ==> world_of_stored(
                    isolated,
                    cursor.staged_records(),
                    eav.records(),
                    expected.set(),
                    views(stored_all@),
                ),
                fresh ==> forall|k: int|
                    0 <= k < i ==> (#[trigger] views(stored_all@)[k]).entity == many@[k]@ && views(
                        stored_all@,
                    )[k].attribute == attribute.key() && views(stored_all@)[k].value == one@
                        && views(stored_all@)[k].index == k + 1,
            decreases many.len() - i,
        {
            let ghost world = cursor.staged_records() + eav.records();
            let ghost before = views(stored_all@);
            proof {
                if fresh {
                    assert(!collides(world, many@[i as int]@, index)) by {
                        if collides(world, many@[i as int]@, index) {
                            let y = choose|y: EaviView| #[trigger]
                                world.contains(y) && y.entity == many@[i as int]@ && y.index
                                    == index;
                            let k = choose|k: int| 0 <= k < before.len() && before[k] == y;
                            assert(before[k].index == k + 1);
                        }
                    }
                }
            }
            let stored = add_record(&mut cursor, eav, &many[i], attribute, &one, Some(index))?;
            let ghost x = stored@;
            expected.insert(stored.clone());
            stored_all.push(stored);
            proof {
                assert(views(stored_all@) =~= before.push(x));
                if fresh {
                    lemma_world_grows(
                        isolated,
                        world,
                        cursor.staged_records(),
                        eav.records(),
                        expected.set(),
                        before,
                        views(stored_all@),
                        x,
                    );
                    assert forall|k: int| 0 <= k < i implies (#[trigger] views(stored_all@)[k])
                        == before[k] by {}
                }
            }
            i = i + 1;
            index = index + 1;
        }
        let ghost world = cursor.staged_records() + eav.records();
        proof {
            if fresh {
                let made = views(stored_all@);
                assert(made =~= seq![made[0], made[1], made[2]]);
                assert(world =~= set![made[0], made[1], made[2]]);
                assert(made[0] == record_at(many@[0]@, attribute.key(), one@, 1));
                assert(made[1] == record_at(many@[1]@, attribute.key(), one@, 2));
                assert(made[2] == record_at(many@[2]@, attribute.key(), one@, 3));
            }
        }
        let q_all = history_query(None, Some(attribute), Some(&one), None, None);
        let all = ask(&mut cursor, eav, &q_all)?;
        proof {
            if fresh {
                assert forall|x: EaviView| all.set().contains(x) <==> world.contains(x) by {
                    if all@.contains(x) {
                        assert(query_selects(q_all@, world, x));
                    }
                    if world.contains(x) {
                        let k = choose|k: int|
                            0 <= k < views(stored_all@).len() && views(stored_all@)[k] == x;
                        assert(views(stored_all@)[k] == x);
                        assert(query_selects(q_all@, world, x));
                    }
                }
                assert(all.set() =~= expected.set());
            }
        }
        let mut passed = all.same_as(&expected);
        let mut i: usize = 0;
        while i < many.len()
            invariant
                i <= many.len(),
                stored_all@.len() == many.len(),
                old(eav).records().subset_of(eav.records()),
                cursor.isolated() == isolated,
                sound == (self.provider().provides() && old(cas).dependable() && old(eav).dependable()),
                fresh == (old(eav).records() == Set::<EaviView>::empty()),
                sound ==> cursor.dependable() && eav.dependable(),
                fresh ==> passed,
                fresh ==> world == cursor.staged_records() + eav.records(),
                fresh ==> world_of_stored(
                    isolated,
                    cursor.staged_records(),
                    eav.records(),
                    expected.set(),
                    views(stored_all@),
                ),
                fresh ==> forall|k: int|
                    0 <= k < many.len() ==> (#[trigger] views(stored_all@)[k]).entity == many@[k]@
                        && views(stored_all@)[k].attribute == attribute.key(),
            decreases many.len() - i,
        {
            let q_entity = latest_query(Some(&many[i]), Some(attribute), None);
            let by_entity = ask(&mut cursor, eav, &q_entity)?;
            let newest = newest_of(stored_all.as_slice(), &many[i], attribute);
            proof {
                if fresh {
                    assert(is_of(views(stored_all@)[i as int], many@[i as int]@, attribute.key()));
                    assert(stored_all@[i as int]@ == views(stored_all@)[i as int]);
                    let j = newest.unwrap() as int;
                    lemma_newest_is_latest(
                        world,
                        views(stored_all@),
                        many@[i as int]@,
                        attribute.key(),
                        j,
                        q_entity@,
                        by_entity@,
                    );
                }
            }
            passed = passed && match newest {
                Some(j) => is_exactly(&by_entity, &stored_all[j]),
                None => false,
            };
            i = i + 1;
        }
        proof {
            if fresh {
                lemma_plain_fits(isolated, cursor.staged_records(), eav.records());
            }
        }
        finish(cursor, cas, eav)?;
        proof {
            if fresh && sound {
                assert(eav.records() =~= world);
            }
        }
        Ok(passed)
    }

    /// Adds five records of one entity, attribute and value under the indices
    /// from 1 to 5. Passes where each record was stored under its index, and
    /// where the queries for the indices from 2 to 4, up to 2, and from 4 on
    /// are answered by the records of those indices. Nothing that the record
    /// store holds is lost. The scenario passes wherever the record store held
    /// nothing; with a provider that has what it takes, dependable stores and
    /// contents `foo` and `bar` that stand for values, it then gives that
    /// verdict, and the record store holds the five records afterwards and
    /// nothing else.
    pub fn eav_test_range<T: AddressableContent>(
        &self,
        cas: &mut <CP::CursorRw as Cursor<A>>::Cas,
        eav: &mut <CP::CursorRw as Cursor<A>>::Eav,
        attribute: &A,
    ) -> (r: PersistenceResult<bool>)
        ensures
            old(eav).records().subset_of(final(eav).records()),
            r matches Ok(passed) ==> (old(eav).records() == Set::<EaviView>::empty() ==> passed),
            self.provider().provides() && old(cas).dependable() && old(eav).dependable() && old(eav).records() == Set::<EaviView>::empty() && T::read_address("foo"@) is Some
                && T::read_address("bar"@) is Some ==> r == Ok::<bool, PersistenceError>(true)
                && final(eav).records() == set![
                record_at(
                    T::read_address("foo"@).unwrap(),
                    attribute.key(),
                    T::read_address("bar"@).unwrap(),
                    1,
                ),
                record_at(
                    T::read_address("foo"@).unwrap(),
                    attribute.key(),
                    T::read_address("bar"@).unwrap(),
                    2,
                ),
                record_at(
                    T::read_address("foo"@).unwrap(),
                    attribute.key(),
                    T::read_address("bar"@).unwrap(),
                    3,
                ),
                record_at(
                    T::read_address("foo"@).unwrap(),
                    attribute.key(),
                    T::read_address("bar"@).unwrap(),
                    4,
                ),
                record_at(
                    T::read_address("foo"@).unwrap(),
                    attribute.key(),
                    T::read_address("bar"@).unwrap(),
                    5,
                ),
            ],
    {
        let ghost fresh = eav.records() == Set::<EaviView>::empty();
        let entity = address_of::<T>("foo")?;
        let value = address_of::<T>("bar")?;
        let mut cursor = self.with_cursor()?;
        let ghost isolated = cursor.isolated();
        let ghost sound = self.provider().provides() && cas.dependable() && eav.dependable();
        let mut middle: EaviSet<A> = EaviSet::new();
        let mut low: EaviSet<A> = EaviSet::new();
        let mut high: EaviSet<A> = EaviSet::new();
        let mut passed = true;
        let mut index: i64 = 1;
        let ghost of_index = |i: i64|
            EaviView { entity: entity@, attribute: attribute.key(), value: value@, index: i };
        proof {
            if fresh {
                assert(cursor.staged_records() + eav.records() =~= Set::<EaviView>::empty());
            }
        }
        while index <= 5
            invariant
                1 <= index <= 6,
                old(eav).records().subset_of(eav.records()),
                cursor.isolated() == isolated,
                sound == (self.provider().provides() && old(cas).dependable() && old(eav).dependable()),
                fresh == (old(eav).records() == Set::<EaviView>::empty()),
                sound ==> cursor.dependable() && eav.dependable(),
                of_index == (|i: i64|
                    EaviView {
                        entity: entity@,
                        attribute: attribute.key(),
                        value: value@,
                        index: i,
                    }),
                fresh ==> {
                    &&& passed
                    &&& plain(isolated, cursor.staged_records(), eav.records())
                    &&& forall|x: EaviView|
                        (cursor.staged_records() + eav.records()).contains(x) <==> exists|i: i64|
                            1 <= i < index && x == #[trigger] of_index(i)
                    &&& forall|x: EaviView|
                        middle.set().contains(x) <==> exists|i: i64|
                            1 <= i < index && 2 <= i <= 4 && x == #[trigger] of_index(i)
                    &&& forall|x: EaviView|
                        low.set().contains(x) <==> exists|i: i64|
                            1 <= i < index && i <= 2 && x == #[trigger] of_index(i)
                    &&& forall|x: EaviView|
                        high.set().contains(x) <==> exists|i: i64|
                            1 <= i < index && 4 <= i && x == #[trigger] of_index(i)
                },
            decreases 6 - index,
        {
            let ghost world = cursor.staged_records() + eav.records();
            let ghost middle0 = middle.set();
            let ghost low0 = low.set();
            let ghost high0 = high.set();
            proof {
                if fresh {
                    assert(!collides(world, entity@, index)) by {
                        if collides(world, entity@, index) {
                            let y = choose|y: EaviView| #[trigger]
                                world.contains(y) && y.entity == entity@ && y.index == index;
                            let i = choose|i: i64| 1 <= i < index && y == #[trigger] of_index(i);
                        }
                    }
                }
            }
            let stored = add_record(&mut cursor, eav, &entity, attribute, &value, Some(index))?;
            passed = passed && stored.index() == index;
            proof {
                if fresh {
                    assert(stored@ == of_index(index));
                }
            }
            if 2 <= stored.index() && stored.index() <= 4 {
                middle.insert(stored.clone());
            }
            if stored.index() <= 2 {
                low.insert(stored.clone());
            }
            if 4 <= stored.index() {
                high.insert(stored);
            }
            proof {
                if fresh {
                    let grown = cursor.staged_records() + eav.records();
                    let x0 = of_index(index);
                    assert forall|x: EaviView| grown.contains(x) <==> exists|i: i64|
                        1 <= i < index + 1 && x == #[trigger] of_index(i) by {
                        if world.contains(x) {
                            let i = choose|i: i64| 1 <= i < index && x == #[trigger] of_index(i);
                            assert(1 <= i < index + 1 && x == of_index(i));
                        }
                        if exists|i: i64| 1 <= i < index + 1 && x == #[trigger] of_index(i) {
                            let i = choose|i: i64| 1 <= i < index + 1 && x == #[trigger] of_index(i);
                            if i < index {
                                assert(world.contains(x));
                            }
                        }
                    }
                    assert forall|x: EaviView| middle.set().contains(x) <==> exists|i: i64|
                        1 <= i < index + 1 && 2 <= i <= 4 && x == #[trigger] of_index(i) by {
                        if middle0.contains(x) {
                            let i = choose|i: i64|
                                1 <= i < index && 2 <= i <= 4 && x == #[trigger] of_index(i);
                            assert(1 <= i < index + 1 && 2 <= i <= 4 && x == of_index(i));
                        }
                        if exists|i: i64|
                            1 <= i < index + 1 && 2 <= i <= 4 && x == #[trigger] of_index(i) {
                            let i = choose|i: i64|
                                1 <= i < index + 1 && 2 <= i <= 4 && x == #[trigger] of_index(i);
                            if i < index {
                                assert(middle0.contains(x));
                            }
                        }
                    }
                    assert forall|x: EaviView| low.set().contains(x) <==> exists|i: i64|
                        1 <= i < index + 1 && i <= 2 && x == #[trigger] of_index(i) by {
                        if low0.contains(x) {
                            let i = choose|i: i64|
                                1 <= i < index && i <= 2 && x == #[trigger] of_index(i);
                            assert(1 <= i < index + 1 && i <= 2 && x == of_index(i));
                        }
                        if exists|i: i64| 1 <= i < index + 1 && i <= 2 && x == #[trigger] of_index(i) {
                            let i = choose|i: i64|
                                1 <= i < index + 1 && i <= 2 && x == #[trigger] of_index(i);
                            if i < index {
                                assert(low0.contains(x));
                            }
                        }
                    }
                    assert forall|x: EaviView| high.set().contains(x) <==> exists|i: i64|
                        1 <= i < index + 1 && 4 <= i && x == #[trigger] of_index(i) by {
                        if high0.contains(x) {
                            let i = choose|i: i64|
                                1 <= i < index && 4 <= i && x == #[trigger] of_index(i);
                            assert(1 <= i < index + 1 && 4 <= i && x == of_index(i));
                        }
                        if exists|i: i64| 1 <= i < index + 1 && 4 <= i && x == #[trigger] of_index(i) {
                            let i = choose|i: i64|
                                1 <= i < index + 1 && 4 <= i && x == #[trigger] of_index(i);
                            if i < index {
                                assert(high0.contains(x));
                            }
                        }
                    }
                }
            }
            index = index + 1;
        }
        let ghost world = cursor.staged_records() + eav.records();
        let q_middle = history_query(Some(&entity), Some(attribute), Some(&value), Some(2), Some(4));
        let q_low = history_query(Some(&entity), Some(attribute), Some(&value), None, Some(2));
        let q_high = history_query(Some(&entity), Some(attribute), Some(&value), Some(4), None);
        let from_2_to_4 = ask(&mut cursor, eav, &q_middle)?;
        let up_to_2 = ask(&mut cursor, eav, &q_low)?;
        let from_4 = ask(&mut cursor, eav, &q_high)?;
        proof {
            if fresh {
                assert forall|x: EaviView| from_2_to_4.set().contains(x) <==> middle.set().contains(
                    x,
                ) by {
                    if from_2_to_4@.contains(x) {
                        assert(query_selects(q_middle@, world, x));
                        let i = choose|i: i64| 1 <= i < 6 && x == #[trigger] of_index(i);
                        assert(1 <= i < 6 && 2 <= i <= 4 && x == of_index(i));
                    }
                    if middle.set().contains(x) {
                        let i = choose|i: i64|
                            1 <= i < 6 && 2 <= i <= 4 && x == #[trigger] of_index(i);
                        assert(1 <= i < 6 && x == of_index(i));
                        assert(query_selects(q_middle@, world, x));
                    }
                }
                assert(from_2_to_4.set() =~= middle.set());
                assert forall|x: EaviView| up_to_2.set().contains(x) <==> low.set().contains(x) by {
                    if up_to_2@.contains(x) {
                        assert(query_selects(q_low@, world, x));
                        let i = choose|i: i64| 1 <= i < 6 && x == #[trigger] of_index(i);
                        assert(1 <= i < 6 && i <= 2 && x == of_index(i));
                    }
                    if low.set().contains(x) {
                        let i = choose|i: i64| 1 <= i < 6 && i <= 2 && x == #[trigger] of_index(i);
                        assert(1 <= i < 6 && x == of_index(i));
                        assert(query_selects(q_low@, world, x));
                    }
                }
                assert(up_to_2.set() =~= low.set());
                assert forall|x: EaviView| from_4.set().contains(x) <==> high.set().contains(x) by {
                    if from_4@.contains(x) {
                        assert(query_selects(q_high@, world, x));
                        let i = choose|i: i64| 1 <= i < 6 && x == #[trigger] of_index(i);
                        assert(1 <= i < 6 && 4 <= i && x == of_index(i));
                    }
                    if high.set().contains(x) {
                        let i = choose|i: i64| 1 <= i < 6 && 4 <= i && x == #[trigger] of_index(i);
                        assert(1 <= i < 6 && x == of_index(i));
                        assert(query_selects(q_high@, world, x));
                    }
                }
                assert(from_4.set() =~= high.set());
            }
        }
        passed = passed && from_2_to_4.same_as(&middle) && up_to_2.same_as(&low) && from_4.same_as(
            &high,
        );
        proof {
            if fresh {
                assert forall|x: EaviView, y: EaviView|
                    #![trigger world.contains(x), world.contains(y)]
                    world.contains(x) && world.contains(y) && x.entity == y.entity && x.index
                        == y.index implies x == y by {
                    let i = choose|i: i64| 1 <= i < 6 && x == #[trigger] of_index(i);
                    let j = choose|j: i64| 1 <= j < 6 && y == #[trigger] of_index(j);
                }
                lemma_plain_fits(isolated, cursor.staged_records(), eav.records());
            }
        }
        finish(cursor, cas, eav)?;
        proof {
            if fresh && sound {
                assert(eav.records() =~= world);
                let first = of_index(1);
                let second = of_index(2);
                let third = of_index(3);
                let fourth = of_index(4);
                let fifth = of_index(5);
                assert forall|x: EaviView| world.contains(x) implies set![
                    first,
                    second,
                    third,
                    fourth,
                    fifth,
                ].contains(x) by {
                    let i = choose|i: i64| 1 <= i < 6 && x == #[trigger] of_index(i);
                }
                assert(world =~= set![first, second, third, fourth, fifth]);
                assert(first == record_at(entity@, attribute.key(), value@, 1));
                assert(second == record_at(entity@, attribute.key(), value@, 2));
                assert(third == record_at(entity@, attribute.key(), value@, 3));
                assert(fourth == record_at(entity@, attribute.key(), value@, 4));
                assert(fifth == record_at(entity@, attribute.key(), value@, 5));
            }
        }
        Ok(passed)
    }

    /// Relates one entity to one value under each of the given attributes,
    /// under the indices from 1 on. Passes where the query for the records of
    /// any of the attributes is answered by the records that were stored, and
    /// the query for each single attribute by the record of that attribute with
    /// the greatest index. Nothing that the record store holds is lost. The
    /// scenario passes wherever the record store held nothing; with a provider
    /// that has what it takes, dependable stores, contents `foo` and `bar` that
    /// stand for values, and fewer attributes than there are indices, it then
    /// gives that verdict, and the record store holds one record for each of
    /// the attributes afterwards and nothing else.
    pub fn eav_test_multiple_attributes<T: AddressableContent>(
        &self,
        cas: &mut <CP::CursorRw as Cursor<A>>::Cas,
        eav: &mut <CP::CursorRw as Cursor<A>>::Eav,
        attributes: Vec<A>,
    ) -> (r: PersistenceResult<bool>)
        ensures
            old(eav).records().subset_of(final(eav).records()),
            r matches Ok(passed) ==> (old(eav).records() == Set::<EaviView>::empty() ==> passed),
            self.provider().provides() && old(cas).dependable() && old(eav).dependable() && old(eav).records() == Set::<EaviView>::empty() && T::read_address("foo"@) is Some
                && T::read_address("bar"@) is Some && attributes@.len() < i64::MAX ==> r
                == Ok::<bool, PersistenceError>(true) && final(eav).records() == one_per_attribute(
                T::read_address("foo"@).unwrap(),
                crate::eav::query::keys_of(attributes@),
                T::read_address("bar"@).unwrap(),
            ),
    {
        let ghost fresh = eav.records() == Set::<EaviView>::empty();
        let ghost sound = self.provider().provides() && cas.dependable() && eav.dependable();
        let mut index: i64 = 1;
        let one = address_of::<T>("foo")?;
        let many = address_of::<T>("bar")?;
        let mut cursor = self.with_cursor()?;
        let ghost isolated = cursor.isolated();
        let ghost keys = crate::eav::query::keys_of(attributes@);
        let mut expected: EaviSet<A> = EaviSet::new();
        let mut stored_all: Vec<EntityAttributeValueIndex<A>> = Vec::new();
        proof {
            if fresh {
                assert(cursor.staged_records() + eav.records() =~= Set::<EaviView>::empty());
                assert(views(stored_all@) =~= Seq::<EaviView>::empty());
                assert(views(stored_all@).to_set() =~= Set::<EaviView>::empty());
                assert(expected.set() =~= Set::<EaviView>::empty());
            }
        }
        let mut i: usize = 0;
        while i < attributes.len()
            invariant
                i <= attributes.len(),
                index == i + 1,
                stored_all@.len() == i,
                keys == crate::eav::query::keys_of(attributes@),
                old(eav).records().subset_of(eav.records()),
                cursor.isolated() == isolated,
                sound == (self.provider().provides() && old(cas).dependable() && old(eav).dependable()),
                fresh == (old(eav).records() == Set::<EaviView>::empty()),
                sound ==> cursor.dependable() && eav.dependable(),
                fresh ==> world_of_stored(
                    isolated,
                    cursor.staged_records(),
                    eav.records(),
                    expected.set(),
                    views(stored_all@),
                ),
                fresh ==> forall|k: int|
                    0 <= k < i ==> (#[trigger] views(stored_all@)[k]).entity == one@ && views(
                        stored_all@,
                    )[k].attribute == keys[k] && views(stored_all@)[k].value == many@ && views(
                        stored_all@,
                    )[k].index == k + 1,
            decreases attributes.len() - i,
        {
            let ghost world = cursor.staged_records() + eav.records();
            let ghost before = views(stored_all@);
            if index == i64::MAX {
                return Err(PersistenceError::generic("No index is left for the record"));
            }
            proof {
                if fresh {
                    assert(!collides(world, one@, index)) by {
                        if collides(world, one@, index) {
                            let y = choose|y: EaviView| #[trigger]
                                world.contains(y) && y.entity == one@ && y.index == index;
                            let k = choose|k: int| 0 <= k < before.len() && before[k] == y;
                            assert(before[k].index == k + 1);
                        }
                    }
                }
            }
            let stored = add_record(&mut cursor, eav, &one, &attributes[i], &many, Some(index))?;
            let ghost x = stored@;
            expected.insert(stored.clone());
            stored_all.push(stored);
            proof {
                assert(views(stored_all@) =~= before.push(x));
                if fresh {
                    lemma_world_grows(
                        isolated,
                        world,
                        cursor.staged_records(),
                        eav.records(),
                        expected.set(),
                        before,
                        views(stored_all@),
                        x,
                    );
                    assert forall|k: int| 0 <= k < i implies (#[trigger] views(stored_all@)[k])
                        == before[k] by {}
                }
            }
            i = i + 1;
            index = index + 1;
        }
        let ghost world = cursor.staged_records() + eav.records();
        proof {
            if fresh {
                let made = views(stored_all@);
                let target = one_per_attribute(one@, keys, many@);
                assert forall|x: EaviView| world.contains(x) implies target.contains(x) by {
                    let k = choose|k: int| 0 <= k < made.len() && made[k] == x;
                    assert(x == record_at(one@, keys[k], many@, (k + 1) as i64));
                }
                assert forall|x: EaviView| target.contains(x) implies world.contains(x) by {
                    let k = choose|k: int|
                        0 <= k < keys.len() && x == record_at(
                            one@,
                            #[trigger] keys[k],
                            many@,
                            (k + 1) as i64,
                        );
                    assert(made[k] == x);
                    assert(made.contains(x));
                }
                assert(world =~= target);
            }
        }
        let mut passed = true;
        let mut i: usize = 0;
        while i < attributes.len()
            invariant
                i <= attributes.len(),
                stored_all@.len() == attributes.len(),
                keys == crate::eav::query::keys_of(attributes@),
                old(eav).records().subset_of(eav.records()),
                cursor.isolated() == isolated,
                sound == (self.provider().provides() && old(cas).dependable() && old(eav).dependable()),
                fresh == (old(eav).records() == Set::<EaviView>::empty()),
                sound ==> cursor.dependable() && eav.dependable(),
                fresh ==> passed,
                fresh ==> world == cursor.staged_records() + eav.records(),
                fresh ==> world_of_stored(
                    isolated,
                    cursor.staged_records(),
                    eav.records(),
                    expected.set(),
                    views(stored_all@),
                ),
                fresh ==> forall|k: int|
                    0 <= k < attributes.len() ==> (#[trigger] views(stored_all@)[k]).entity == one@
                        && views(stored_all@)[k].attribute == keys[k] && views(
                        stored_all@,
                    )[k].value == many@,
            decreases attributes.len() - i,
        {
            let q_attribute = latest_query(Some(&one), Some(&attributes[i]), Some(&many));
            let by_attribute = ask(&mut cursor, eav, &q_attribute)?;
            let newest = newest_of(stored_all.as_slice(), &one, &attributes[i]);
            proof {
                if fresh {
                    assert(keys[i as int] == attributes@[i as int].key());
                    assert(is_of(views(stored_all@)[i as int], one@, keys[i as int]));
                    assert(stored_all@[i as int]@ == views(stored_all@)[i as int]);
                    let j = newest.unwrap() as int;
                    lemma_newest_is_latest(
                        world,
                        views(stored_all@),
                        one@,
                        keys[i as int],
                        j,
                        q_attribute@,
                        by_attribute@,
                    );
                }
            }
            passed = passed && match newest {
                Some(j) => is_exactly(&by_attribute, &stored_all[j]),
                None => false,
            };
            i = i + 1;
        }
        let any_of = EaviQuery::new(
            EavFilter::single(one),
            EavFilter::multiple(attributes),
            EavFilter::single(many),
            IndexFilter::Range(None, None),
            None,
        );
        let all = ask(&mut cursor, eav, &any_of)?;
        proof {
            if fresh {
                assert forall|x: EaviView| all.set().contains(x) <==> world.contains(x) by {
                    if all@.contains(x) {
                        assert(query_selects(any_of@, world, x));
                    }
                    if world.contains(x) {
                        let k = choose|k: int|
                            0 <= k < views(stored_all@).len() && views(stored_all@)[k] == x;
                        assert(views(stored_all@)[k] == x);
                        assert(keys[k] == x.attribute);
                        assert(keys.contains(x.attribute));
                        assert(query_selects(any_of@, world, x));
                    }
                }
                assert(all.set() =~= expected.set());
            }
        }
        passed = passed && all.same_as(&expected);
        proof {
            if fresh {
                lemma_plain_fits(isolated, cursor.staged_records(), eav.records());
            }
        }
        finish(cursor, cas, eav)?;
        proof {
            if fresh && sound {
                assert(eav.records() =~= world);
            }
        }
        Ok(passed)
    }

    /// With a cursor of the second provider: relates an entity to a value
    /// under the index 1, and then, under the same attribute and the next
    /// index, to the value that marks a removal.
    /// Passes where the query for the latest record of the entity and
    /// attribute is answered by the record of the marker alone, and the query
    /// for every record by both records. Nothing that the record store holds
    /// is lost. The scenario passes wherever the record store held nothing;
    /// with a provider that has what it takes, dependable stores and contents
    /// `foo`, `bar` and `tombstone` that stand for values, it then gives that
    /// verdict, and the record store holds the two records afterwards and
    /// nothing else.
    pub fn eav_test_tombstone<T: AddressableContent>(
        &self,
        cas: &mut <TCP::CursorRw as Cursor<L>>::Cas,
        eav: &mut <TCP::CursorRw as Cursor<L>>::Eav,
        attribute: &L,
    ) -> (r: PersistenceResult<bool>)
        ensures
            old(eav).records().subset_of(final(eav).records()),
            r matches Ok(passed) ==> (old(eav).records() == Set::<EaviView>::empty() ==> passed),
            self.tombstone_provider().provides() && old(cas).dependable() && old(eav).dependable() && old(eav).records() == Set::<EaviView>::empty() && T::read_address("foo"@) is Some
                && T::read_address("bar"@) is Some && T::read_address("tombstone"@) is Some ==> r
                == Ok::<bool, PersistenceError>(true) && final(eav).records() == set![
                record_at(
                    T::read_address("foo"@).unwrap(),
                    attribute.key(),
                    T::read_address("bar"@).unwrap(),
                    1,
                ),
                record_at(
                    T::read_address("foo"@).unwrap(),
                    attribute.key(),
                    T::read_address("tombstone"@).unwrap(),
                    2,
                ),
            ],
    {
        let ghost fresh = eav.records() == Set::<EaviView>::empty();
        let ghost sound = self.tombstone_provider().provides() && cas.dependable() && eav.dependable();
        let entity = address_of::<T>("foo")?;
        let value = address_of::<T>("bar")?;
        let marker = address_of::<T>("tombstone")?;
        let mut cursor = self.tombstone_cursor_provider.create_cursor_rw()?;
        let ghost isolated = cursor.isolated();
        proof {
            if fresh {
                assert(cursor.staged_records() + eav.records() =~= Set::<EaviView>::empty());
            }
        }
        let first = add_record(&mut cursor, eav, &entity, attribute, &value, Some(1))?;
        if first.index() == i64::MAX {
            return Err(PersistenceError::generic("No index is left for the record"));
        }
        proof {
            if fresh {
                let held = cursor.staged_records() + eav.records();
                assert(held =~= set![first@]);
                assert(!collides(held, entity@, (first@.index + 1) as i64));
            }
        }
        let tombstone = add_record(
            &mut cursor,
            eav,
            &entity,
            attribute,
            &marker,
            Some(first.index() + 1),
        )?;
        let ghost x1 = first@;
        let ghost x2 = tombstone@;
        let ghost world = cursor.staged_records() + eav.records();
        let mut both: EaviSet<L> = EaviSet::new();
        both.insert(first.clone());
        both.insert(tombstone.clone());
        let latest_of_subject = latest_query(Some(&entity), Some(attribute), None);
        let history_of_subject = history_query(Some(&entity), Some(attribute), None, None, None);
        let latest = ask(&mut cursor, eav, &latest_of_subject)?;
        let history = ask(&mut cursor, eav, &history_of_subject)?;
        proof {
            if fresh {
                assert(world =~= set![x1, x2]);
                assert(both.set() =~= set![x1, x2]);
                crate::order::lemma_bytes_irreflexive(text_key(x2.value));
                let q = latest_of_subject@;
                assert(query_matches(q, x1) && query_matches(q, x2));
                assert(query_selects(q, world, x2));
                assert(crate::eav::query::supersedes(x2, x1));
                law_only_selected(world, x2, q, latest@);
                let h = history_of_subject@;
                assert(query_selects(h, world, x1) && query_selects(h, world, x2));
                assert forall|y: EaviView| history@.to_set().contains(y) <==> world.contains(y) by {
                    if history@.contains(y) {
                        assert(query_selects(h, world, y));
                    }
                }
                assert(history.set() =~= both.set());
            }
        }
        let passed = is_exactly(&latest, &tombstone) && history.same_as(&both);
        proof {
            if fresh {
                lemma_plain_fits(isolated, cursor.staged_records(), eav.records());
            }
        }
        finish(cursor, cas, eav)?;
        proof {
            if fresh && sound {
                assert(eav.records() =~= world);
                assert(x1 == record_at(entity@, attribute.key(), value@, 1));
                assert(x2 == record_at(entity@, attribute.key(), marker@, 2));
            }
        }
        Ok(passed)
    }
}

/// Runs the record round trip on a new record store in memory, through a
/// cursor that stages nothing: the record that is added answers, alone, the
/// query for its entity, attribute and value, the three queries that leave one
/// of them open, and the query that leaves all open. The round trip gives its
/// verdict, and passes.
pub fn eav_round_trip_test_runner<A: Attribute, E: AddressableContent, V: AddressableContent>(
    entity_content: E,
    attribute: A,
    value_content: V,
) -> (r: PersistenceResult<bool>)
    ensures
        r == Ok::<bool, PersistenceError>(true),
{
    let manager = new_example_persistence_manager::<A>()?;
    let mut cursor = manager.cursor_provider.create_cursor_rw()?;
    let mut eav = manager.eav;
    eav_round_trip_steps(
        &mut cursor,
        &mut eav,
        &entity_content.address(),
        &attribute,
        &value_content.address(),
    )
}

} // verus!
