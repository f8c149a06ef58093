//! The steps that scenarios are made of: asking a cursor, adding records
//! through it, and what is known of its answers where the records that it can
//! answer from are known.

use crate::cas::content::{AddressableContent, Content};
use crate::cas::storage::ContentAddressableStorage;
use crate::eav::eavi::{Attribute, EaviView, EntityAttributeValueIndex};
use crate::eav::query::{
    is_answer, query_matches, query_selects, EavFilter, EaviQuery, FilterView, IndexFilter,
    QueryView,
};
use crate::eav::set::EaviSet;
use crate::eav::storage::{
    collides, no_index_left, unique_by_index, EntityAttributeValueStorage,
};
use crate::error::{PersistenceError, PersistenceResult};
use crate::hash::{text_key, Address};
use crate::laws::{
    keeps_alone, law_no_match, law_only_match, law_only_selected, law_query_field_independence,
    open_or_exact,
};
use crate::txn::cursor::{
    committed_records, fits_as_is, query_source, visible, Cursor, CursorRw, Writer,
};
use vstd::prelude::*;

verus! {

/// One record is all that a cursor can answer from: the cursor has staged it
/// and the primary store holds nothing else, or the cursor has staged nothing
/// and the primary store holds it alone.
pub open spec fn sole_record(staged: Set<EaviView>, primary: Set<EaviView>, x: EaviView) -> bool {
    ||| staged == set![x] && primary.subset_of(set![x])
    ||| staged == Set::<EaviView>::empty() && primary == set![x]
}

/// Where one record is all that a cursor can answer from, it answers from
/// exactly that record every query that selects the record.
pub proof fn lemma_sole_source(staged: Set<EaviView>, primary: Set<EaviView>, x: EaviView, q: QueryView)
    requires
        sole_record(staged, primary, x),
        query_selects(q, set![x], x),
    ensures
        query_source(staged, primary, q) == set![x],
{
    if staged == set![x] {
        assert(query_selects(q, staged, x));
    } else {
        assert forall|r: EaviView| !query_selects(q, staged, r) by {
            assert(!staged.contains(r));
        }
    }
}

/// Whether the cursor answers the query with exactly the expected record:
/// whether what answers the query, over the records that the cursor answers
/// from, is that record alone. The answer is yes wherever that record is all
/// that the cursor can answer from and the query constrains nothing to another
/// value. A dependable cursor on a dependable store gives an answer.
pub fn answers_with<A: Attribute, W: Cursor<A>>(
    cursor: &mut W,
    eav: &W::Eav,
    query: &EaviQuery<A>,
    expected: &EntityAttributeValueIndex<A>,
) -> (r: PersistenceResult<bool>)
    ensures
        final(cursor).staged_contents() == old(cursor).staged_contents(),
        final(cursor).isolated() == old(cursor).isolated(),
        final(cursor).dependable() == old(cursor).dependable(),
        old(cursor).dependable() && eav.dependable() ==> r is Ok,
        r matches Ok(passed) ==> exists|out: Seq<EaviView>|
            #[trigger] is_answer(
                query@,
                query_source(old(cursor).staged_records(), eav.records(), query@),
                out,
            ) && passed == (out == seq![expected@]),
        old(cursor).staged_records().subset_of(final(cursor).staged_records()),
        final(cursor).staged_records().subset_of(old(cursor).staged_records() + eav.records()),
        sole_record(old(cursor).staged_records(), eav.records(), expected@) ==> sole_record(
            final(cursor).staged_records(),
            eav.records(),
            expected@,
        ),
        r matches Ok(passed) ==> (sole_record(
            old(cursor).staged_records(),
            eav.records(),
            expected@,
        ) && open_or_exact(query@.entity, text_key(expected@.entity)) && open_or_exact(
            query@.attribute,
            expected@.attribute,
        ) && open_or_exact(query@.value, text_key(expected@.value)) && keeps_alone(
            query@.index,
            expected@.index,
        ) && query@.limit != Some(0usize) ==> passed),
{
    let ghost staged = cursor.staged_records();
    let ghost primary = eav.records();
    let ghost x = expected@;
    let out = match cursor.fetch_eavi(eav, query) {
        Ok(out) => out,
        Err(e) => {
            proof {
                lemma_sole_kept(staged, cursor.staged_records(), primary, x);
            }
            return Err(e);
        },
    };
    proof {
        lemma_sole_kept(staged, cursor.staged_records(), primary, x);
        if sole_record(staged, primary, x) && open_or_exact(query@.entity, text_key(x.entity))
            && open_or_exact(query@.attribute, x.attribute) && open_or_exact(
            query@.value,
            text_key(x.value),
        ) && keeps_alone(query@.index, x.index) && query@.limit != Some(0usize) {
            crate::order::lemma_bytes_irreflexive(text_key(x.value));
            assert(query_selects(query@, set![x], x));
            lemma_sole_source(staged, primary, x, query@);
            law_query_field_independence(x, query@, out@);
        }
    }
    let passed = out.len() == 1 && match out.get(0) {
        Some(found) => found.same(expected),
        None => false,
    };
    proof {
        if passed {
            assert(out@ =~= seq![expected@]);
        }
        assert(is_answer(query@, query_source(staged, primary, query@), out@));
    }
    Ok(passed)
}

/// A cursor that could answer from one record alone still can after it has
/// staged some of what the primary store holds.
pub proof fn lemma_sole_kept(
    staged: Set<EaviView>,
    staged_after: Set<EaviView>,
    primary: Set<EaviView>,
    x: EaviView,
)
    requires
        staged.subset_of(staged_after),
        staged_after.subset_of(staged + primary),
    ensures
        sole_record(staged, primary, x) ==> sole_record(staged_after, primary, x),
{
    if sole_record(staged, primary, x) {
        if staged == set![x] {
            assert(staged_after =~= set![x]);
        } else {
            if staged_after.contains(x) {
                assert(staged_after =~= set![x]);
            } else {
                assert(staged_after =~= Set::<EaviView>::empty());
            }
        }
    }
}

/// Where all that a cursor has staged and all that the primary store holds
/// lies within a world of records of which one alone meets the constraints of
/// a query, and the cursor or the store has that record, the cursor answers
/// the query with exactly that record.
pub proof fn lemma_one_in_world(
    staged: Set<EaviView>,
    primary: Set<EaviView>,
    world: Set<EaviView>,
    x: EaviView,
    q: QueryView,
    out: Seq<EaviView>,
)
    requires
        staged.subset_of(world),
        primary.subset_of(world),
        staged.contains(x) || primary.contains(x),
        query_matches(q, x),
        keeps_alone(q.index, x.index),
        q.limit != Some(0usize),
        forall|y: EaviView| world.contains(y) && query_matches(q, y) ==> y == x,
        is_answer(q, query_source(staged, primary, q), out),
    ensures
        out == seq![x],
{
    crate::order::lemma_bytes_irreflexive(text_key(x.value));
    if staged.contains(x) {
        assert(query_selects(q, staged, x));
        law_only_match(staged, x, q, out);
    } else {
        assert forall|r: EaviView| !query_selects(q, staged, r) by {
            if staged.contains(r) && query_matches(q, r) {
                assert(world.contains(r));
            }
        }
        law_only_match(primary, x, q, out);
    }
}

/// Where all that a cursor has staged and all that the primary store holds
/// lies within a world of records of which none meets the constraints of a
/// query, the cursor answers the query with no record.
pub proof fn lemma_none_in_world(
    staged: Set<EaviView>,
    primary: Set<EaviView>,
    world: Set<EaviView>,
    q: QueryView,
    out: Seq<EaviView>,
)
    requires
        staged.subset_of(world),
        primary.subset_of(world),
        forall|y: EaviView| world.contains(y) ==> !query_matches(q, y),
        is_answer(q, query_source(staged, primary, q), out),
    ensures
        out == Seq::<EaviView>::empty(),
{
    if exists|r: EaviView| query_selects(q, staged, r) {
        law_no_match(staged, q, out);
    } else {
        law_no_match(primary, q, out);
    }
}

/// The query for a record by what is given of its entity, attribute and value,
/// which keeps the latest record only.
pub fn latest_query<A: Attribute>(
    entity: Option<&Address>,
    attribute: Option<&A>,
    value: Option<&Address>,
) -> (q: EaviQuery<A>)
    ensures
        q@.index == IndexFilter::LatestByAttribute,
        q@.limit is None,
        q@.entity == (match entity {
            Some(e) => FilterView::Exact(text_key(e@)),
            None => FilterView::Any,
        }),
        q@.attribute == (match attribute {
            Some(a) => FilterView::Exact(a.key()),
            None => FilterView::Any,
        }),
        q@.value == (match value {
            Some(v) => FilterView::Exact(text_key(v@)),
            None => FilterView::Any,
        }),
{
    let entity_filter = match entity {
        Some(e) => EavFilter::single(e.clone()),
        None => EavFilter::Any,
    };
    let attribute_filter = match attribute {
        Some(a) => EavFilter::single(a.duplicate()),
        None => EavFilter::Any,
    };
    let value_filter = match value {
        Some(v) => EavFilter::single(v.clone()),
        None => EavFilter::Any,
    };
    EaviQuery::new(
        entity_filter,
        attribute_filter,
        value_filter,
        IndexFilter::LatestByAttribute,
        None,
    )
}

/// One of the records has the value.
pub open spec fn has_value(all: Set<EaviView>, value: Seq<char>) -> bool {
    exists|x: EaviView| #[trigger] all.contains(x) && x.value == value
}

/// All that the cursor can answer from is on one side: an isolated cursor
/// reads a primary store that holds nothing, and any other cursor has staged
/// nothing.
pub open spec fn plain(isolated: bool, staged: Set<EaviView>, primary: Set<EaviView>) -> bool {
    if isolated {
        primary == Set::<EaviView>::empty()
    } else {
        staged == Set::<EaviView>::empty()
    }
}

/// Where all that a cursor can answer from is on one side, and no two of
/// the records that there are are of one entity and have the same index, what
/// the cursor has staged can be committed as it is.
pub proof fn lemma_plain_fits(isolated: bool, staged: Set<EaviView>, primary: Set<EaviView>)
    requires
        plain(isolated, staged, primary),
        unique_by_index(staged + primary),
    ensures
        fits_as_is(staged, primary),
{
    assert forall|x: EaviView, y: EaviView|
        #![trigger staged.contains(x), staged.contains(y)]
        staged.contains(x) && staged.contains(y) && x.entity == y.entity && x.index
            == y.index implies x == y by {
        assert((staged + primary).contains(x) && (staged + primary).contains(y));
    }
    assert forall|r: EaviView| #[trigger] staged.contains(r) implies primary.contains(r)
        || !collides(primary, r.entity, r.index) by {
        if isolated {
            assert(!collides(primary, r.entity, r.index));
        }
    }
}

/// Where all that a cursor can answer from is on one side, it answers a
/// query without limit over all the records that there are.
pub proof fn lemma_plain_source(
    isolated: bool,
    staged: Set<EaviView>,
    primary: Set<EaviView>,
    q: QueryView,
    out: Seq<EaviView>,
)
    requires
        plain(isolated, staged, primary),
        q.limit is None,
        is_answer(q, query_source(staged, primary, q), out),
    ensures
        is_answer(q, staged + primary, out),
{
    let nothing = Set::<EaviView>::empty();
    if isolated {
        assert(staged + primary =~= staged);
        if !(exists|r: EaviView| query_selects(q, staged, r)) {
            // Nothing is selected from the staged records, and the primary
            // store holds nothing.
            if out.len() > 0 {
                assert(out.contains(out[0]));
                assert(query_selects(q, primary, out[0]));
            }
        }
    } else {
        assert(staged + primary =~= primary);
        assert forall|r: EaviView| !query_selects(q, staged, r) by {
            assert(!staged.contains(r));
        }
    }
}

/// Asks the cursor a query: the answer is that over the records that the
/// cursor answers from. Where all that the cursor can answer from is on one
/// side, and the query has no limit, the answer is that over all the records
/// that there are, and the cursor has staged what it had. A dependable cursor
/// on a dependable store gives an answer.
pub fn ask<A: Attribute, W: Cursor<A>>(cursor: &mut W, eav: &W::Eav, query: &EaviQuery<A>) -> (r:
    PersistenceResult<EaviSet<A>>)
    ensures
        final(cursor).isolated() == old(cursor).isolated(),
        final(cursor).dependable() == old(cursor).dependable(),
        old(cursor).dependable() && eav.dependable() ==> r is Ok,
        final(cursor).staged_contents() == old(cursor).staged_contents(),
        old(cursor).staged_records().subset_of(final(cursor).staged_records()),
        final(cursor).staged_records().subset_of(old(cursor).staged_records() + eav.records()),
        plain(old(cursor).isolated(), old(cursor).staged_records(), eav.records()) ==> final(cursor).staged_records() == old(cursor).staged_records(),
        r matches Ok(out) ==> is_answer(
            query@,
            query_source(old(cursor).staged_records(), eav.records(), query@),
            out@,
        ),
        r matches Ok(out) ==> (plain(
            old(cursor).isolated(),
            old(cursor).staged_records(),
            eav.records(),
        ) && query@.limit is None ==> is_answer(
            query@,
            old(cursor).staged_records() + eav.records(),
            out@,
        )),
{
    let ghost staged = cursor.staged_records();
    let r = cursor.fetch_eavi(eav, query);
    proof {
        if plain(cursor.isolated(), staged, eav.records()) {
            if cursor.isolated() {
                assert(cursor.staged_records() =~= staged);
            }
            if r is Ok && query@.limit is None {
                lemma_plain_source(
                    cursor.isolated(),
                    staged,
                    eav.records(),
                    query@,
                    r.unwrap()@,
                );
            }
        }
    }
    r
}

/// The record of the entity, attribute, value and index.
pub open spec fn record_at(entity: Seq<char>, attribute: Seq<u8>, value: Seq<char>, index: i64)
    -> EaviView {
    EaviView { entity, attribute, value, index }
}

/// The records that a record joins which is added through a cursor: the
/// staged records of an isolated cursor, and the records of the primary store
/// of any other.
pub open spec fn joined(isolated: bool, staged: Set<EaviView>, primary: Set<EaviView>) -> Set<
    EaviView,
> {
    if isolated {
        staged
    } else {
        primary
    }
}

/// One of the records is of the entity.
pub open spec fn has_entity(all: Set<EaviView>, entity: Seq<char>) -> bool {
    exists|y: EaviView| #[trigger] all.contains(y) && y.entity == entity
}

/// Adds a record of the given entity, attribute and value through the cursor:
/// under the given index, or under the index that the clock gives where none
/// is given. Returns the record as it was stored. Nothing that the record
/// store holds is lost. A dependable cursor on a dependable store fails
/// exactly where no index from the given one on is left among the records that
/// the record joins; it does not fail, whatever the index, where none of them
/// is of the entity.
pub fn add_record<A: Attribute, W: CursorRw<A>>(
    cursor: &mut W,
    eav: &mut W::Eav,
    entity: &Address,
    attribute: &A,
    value: &Address,
    index: Option<i64>,
) -> (r: PersistenceResult<EntityAttributeValueIndex<A>>)
    ensures
        final(cursor).isolated() == old(cursor).isolated(),
        final(cursor).dependable() == old(cursor).dependable(),
        final(eav).dependable() == old(eav).dependable(),
        old(cursor).dependable() && old(eav).dependable() && index is Some ==> (r is Err
            <==> no_index_left(
            joined(old(cursor).isolated(), old(cursor).staged_records(), old(eav).records()),
            entity@,
            index.unwrap(),
        )),
        old(cursor).dependable() && old(eav).dependable() && !has_entity(
            joined(old(cursor).isolated(), old(cursor).staged_records(), old(eav).records()),
            entity@,
        ) ==> r is Ok,
        old(cursor).dependable() && old(eav).dependable() && index is Some && plain(
            old(cursor).isolated(),
            old(cursor).staged_records(),
            old(eav).records(),
        ) && !collides(
            old(cursor).staged_records() + old(eav).records(),
            entity@,
            index.unwrap(),
        ) ==> r is Ok,
        final(cursor).staged_contents() == old(cursor).staged_contents(),
        old(cursor).staged_records().subset_of(final(cursor).staged_records()),
        old(eav).records().subset_of(final(eav).records()),
        old(cursor).isolated() ==> final(eav).records() == old(eav).records(),
        r matches Ok(stored) ==> {
            &&& stored@.entity == entity@
            &&& stored@.attribute == attribute.key()
            &&& stored@.value == value@
            &&& (index matches Some(i) ==> stored@.index >= i)
            &&& (final(cursor).staged_records().contains(stored@) || final(eav).records().contains(
                stored@,
            ))
            &&& final(cursor).staged_records() + final(eav).records() == (
            old(cursor).staged_records() + old(eav).records()).insert(stored@)
            &&& (plain(old(cursor).isolated(), old(cursor).staged_records(), old(eav).records())
                ==> {
                &&& plain(
                    final(cursor).isolated(),
                    final(cursor).staged_records(),
                    final(eav).records(),
                )
                &&& !collides(
                    old(cursor).staged_records() + old(eav).records(),
                    stored@.entity,
                    stored@.index,
                )
                &&& (index is Some && !collides(
                    old(cursor).staged_records() + old(eav).records(),
                    entity@,
                    index.unwrap(),
                ) ==> stored@.index == index.unwrap())
            })
        },
        r is Err ==> final(cursor).staged_records() == old(cursor).staged_records() && final(eav).records() == old(eav).records(),
{
    let ghost staged = cursor.staged_records();
    let ghost primary = eav.records();
    let ghost base = joined(cursor.isolated(), staged, primary);
    let record = match index {
        Some(i) => EntityAttributeValueIndex::new_with_index(entity, attribute, value, i)?,
        None => EntityAttributeValueIndex::new(entity, attribute, value)?,
    };
    proof {
        if !has_entity(base, entity@) {
            assert(!collides(base, entity@, record@.index));
            assert(!no_index_left(base, entity@, record@.index));
        }
        if plain(cursor.isolated(), staged, primary) {
            assert(staged + primary =~= base);
            if index is Some && !collides(staged + primary, entity@, index.unwrap()) {
                assert(!no_index_left(base, entity@, index.unwrap()));
            }
        }
    }
    match cursor.add_eavi(eav, &record) {
        Ok(Some(stored)) => {
            proof {
                let x = stored@;
                if cursor.isolated() {
                    assert(cursor.staged_records() + eav.records() =~= (staged + primary).insert(
                        x,
                    ));
                    if plain(true, staged, primary) {
                        assert(staged + primary =~= staged);
                    }
                } else {
                    assert(cursor.staged_records() + eav.records() =~= (staged + primary).insert(
                        x,
                    ));
                    if plain(false, staged, primary) {
                        assert(staged + primary =~= primary);
                    }
                }
            }
            Ok(stored)
        },
        Ok(None) => Err(PersistenceError::generic("the record was not stored")),
        Err(e) => Err(e),
    }
}

/// Commits the cursor: all that it has staged, or nothing. Nothing that the
/// record store holds is lost. A dependable cursor on dependable stores
/// commits wherever the staged records can be committed as they are, and
/// the record store then holds them as they are.
pub fn finish<A: Attribute, W: Writer<A>>(cursor: W, cas: &mut W::Cas, eav: &mut W::Eav) -> (r:
    PersistenceResult<()>)
    ensures
        final(cas).dependable() == old(cas).dependable(),
        final(eav).dependable() == old(eav).dependable(),
        cursor.dependable() && old(cas).dependable() && old(eav).dependable() && fits_as_is(
            cursor.staged_records(),
            old(eav).records(),
        ) ==> r is Ok && final(eav).records() == old(eav).records() + cursor.staged_records(),
        old(eav).records().subset_of(final(eav).records()),
        r is Ok ==> final(cas).contents() == visible(cursor.staged_contents(), old(cas).contents())
            && committed_records(old(eav).records(), cursor.staged_records(), final(eav).records()),
        r is Err ==> final(cas).contents() == old(cas).contents() && final(eav).records() == old(eav).records(),
{
    cursor.commit(cas, eav)
}

/// The query for the records of what is given of entity, attribute and value,
/// whose index lies within the bounds.
pub fn history_query<A: Attribute>(
    entity: Option<&Address>,
    attribute: Option<&A>,
    value: Option<&Address>,
    lo: Option<i64>,
    hi: Option<i64>,
) -> (q: EaviQuery<A>)
    ensures
        q@.index == IndexFilter::Range(lo, hi),
        q@.limit is None,
        q@.entity == (match entity {
            Some(e) => FilterView::Exact(text_key(e@)),
            None => FilterView::Any,
        }),
        q@.attribute == (match attribute {
            Some(a) => FilterView::Exact(a.key()),
            None => FilterView::Any,
        }),
        q@.value == (match value {
            Some(v) => FilterView::Exact(text_key(v@)),
            None => FilterView::Any,
        }),
{
    let latest = latest_query(entity, attribute, value);
    EaviQuery::new(latest.entity, latest.attribute, latest.value, IndexFilter::Range(lo, hi), None)
}

/// The records that were stored through the cursor are all the records that
/// there are, all that the cursor can answer from is on one side, the expected
/// set holds them, and no two of them are of one entity and have the same
/// index.
pub open spec fn world_of_stored(
    isolated: bool,
    staged: Set<EaviView>,
    primary: Set<EaviView>,
    expected: Set<EaviView>,
    stored: Seq<EaviView>,
) -> bool {
    &&& plain(isolated, staged, primary)
    &&& staged + primary == stored.to_set()
    &&& expected == stored.to_set()
    &&& unique_by_index(stored.to_set())
}

/// A record that was stored under a free index joins the records that were
/// stored.
pub proof fn lemma_world_grows(
    isolated: bool,
    world: Set<EaviView>,
    staged: Set<EaviView>,
    primary: Set<EaviView>,
    expected: Set<EaviView>,
    before: Seq<EaviView>,
    after: Seq<EaviView>,
    x: EaviView,
)
    requires
        world == before.to_set(),
        unique_by_index(world),
        !collides(world, x.entity, x.index),
        plain(isolated, staged, primary),
        staged + primary == world.insert(x),
        expected == world.insert(x),
        after == before.push(x),
    ensures
        world_of_stored(isolated, staged, primary, expected, after),
{
    assert forall|y: EaviView| after.to_set().contains(y) <==> world.insert(x).contains(y) by {
        if after.contains(y) {
            let k = choose|k: int| 0 <= k < after.len() && after[k] == y;
            if k < before.len() {
                assert(before[k] == y);
                assert(before.contains(y));
            }
        }
        if before.contains(y) {
            let k = choose|k: int| 0 <= k < before.len() && before[k] == y;
            assert(after[k] == y);
        }
        if y == x {
            assert(after[before.len() as int] == y);
        }
    }
    assert(after.to_set() =~= world.insert(x));
    let grown = world.insert(x);
    assert forall|a: EaviView, b: EaviView|
        #![trigger grown.contains(a), grown.contains(b)]
        grown.contains(a) && grown.contains(b) && a.entity == b.entity && a.index
            == b.index implies a == b by {
        if a != b {
            if a == x {
                assert(world.contains(b));
            } else if b == x {
                assert(world.contains(a));
            } else {
                assert(world.contains(a) && world.contains(b));
            }
        }
    }
}

/// Among records of which no two are of one entity and have the same index,
/// the query for the latest record of an entity and attribute, whatever else
/// it asks of the value, is answered by the record of the entity and
/// attribute with the greatest index, where that record meets what is asked
/// of the value.
pub proof fn lemma_newest_is_latest(
    world: Set<EaviView>,
    stored: Seq<EaviView>,
    entity: Seq<char>,
    attribute: Seq<u8>,
    j: int,
    q: QueryView,
    out: Seq<EaviView>,
)
    requires
        world == stored.to_set(),
        unique_by_index(world),
        0 <= j < stored.len(),
        is_of(stored[j], entity, attribute),
        forall|k: int|
            0 <= k < stored.len() && is_of(#[trigger] stored[k], entity, attribute)
                ==> stored[k].index <= stored[j].index,
        q.entity == FilterView::Exact(text_key(entity)),
        q.attribute == FilterView::Exact(attribute),
        q.index == IndexFilter::LatestByAttribute,
        q.limit is None,
        crate::eav::query::filter_accepts(q.value, text_key(stored[j].value)),
        is_answer(q, world, out),
    ensures
        out == seq![stored[j]],
{
    let x = stored[j];
    assert(stored.contains(x));
    assert(world.contains(x));
    crate::order::lemma_bytes_irreflexive(text_key(x.value));
    assert forall|y: EaviView| world.contains(y) && query_matches(q, y) implies is_of(
        y,
        entity,
        attribute,
    ) && y.index <= x.index by {
        if text_key(y.entity) == text_key(entity) {
            crate::hash::lemma_text_key_injective(y.entity, entity);
        }
        let k = choose|k: int| 0 <= k < stored.len() && stored[k] == y;
        assert(stored[k] == y);
    }
    assert(query_selects(q, world, x));
    assert forall|y: EaviView| query_selects(q, world, y) implies y == x by {
        if y != x {
            assert(crate::eav::query::supersedes(x, y));
        }
    }
    law_only_selected(world, x, q, out);
}

/// Record `x` is of the entity and attribute.
pub open spec fn is_of(x: EaviView, entity: Seq<char>, attribute: Seq<u8>) -> bool {
    x.entity == entity && x.attribute == attribute
}

/// The place of the record with the greatest index among the records of the
/// entity and attribute, where there is one.
pub fn newest_of<A: Attribute>(
    records: &[EntityAttributeValueIndex<A>],
    entity: &Address,
    attribute: &A,
) -> (r: Option<usize>)
    ensures
        match r {
            Some(j) => j < records@.len() && is_of(records@[j as int]@, entity@, attribute.key())
                && forall|k: int|
                0 <= k < records@.len() && is_of(
                    (#[trigger] records@[k])@,
                    entity@,
                    attribute.key(),
                ) ==> records@[k]@.index <= records@[j as int]@.index,
            None => forall|k: int|
                0 <= k < records@.len() ==> !is_of(
                    (#[trigger] records@[k])@,
                    entity@,
                    attribute.key(),
                ),
        },
{
    let mut newest: Option<usize> = None;
    let n = records.len();
    let mut i: usize = 0;
    while i < n
        invariant
            i <= n,
            n == records@.len(),
            match newest {
                Some(j) => j < i && is_of(records@[j as int]@, entity@, attribute.key())
                    && forall|k: int|
                    0 <= k < i && is_of((#[trigger] records@[k])@, entity@, attribute.key())
                        ==> records@[k]@.index <= records@[j as int]@.index,
                None => forall|k: int|
                    0 <= k < i ==> !is_of((#[trigger] records@[k])@, entity@, attribute.key()),
            },
        decreases n - i,
    {
        if records[i].entity_ref().same(entity) && records[i].attribute_ref().compare(attribute)
            == crate::order::Precedence::Same {
            newest = match newest {
                Some(j) => if records[i].index() > records[j].index() {
                    Some(i)
                } else {
                    Some(j)
                },
                None => Some(i),
            };
        }
        i = i + 1;
    }
    newest
}

/// Whether the answer holds one record, and that one is the expected record.
pub fn is_exactly<A: Attribute>(answer: &EaviSet<A>, expected: &EntityAttributeValueIndex<A>) -> (b:
    bool)
    ensures
        b == (answer@ == seq![expected@]),
{
    if answer.len() != 1 {
        return false;
    }
    match answer.get(0) {
        Some(found) => {
            let same = found.same(expected);
            proof {
                if same {
                    assert(answer@ =~= seq![expected@]);
                }
            }
            same
        },
        None => false,
    }
}

/// The address of the value that the given content stands for.
pub(crate) fn address_of<T: AddressableContent>(text: &str) -> (r: PersistenceResult<Address>)
    ensures
        match r {
            Ok(address) => T::read_address(text@) == Some(address@),
            Err(_) => T::read_address(text@) is None,
        },
{
    match T::try_from_content(&Content::from_json(text)) {
        Ok(value) => Ok(value.address()),
        Err(e) => Err(PersistenceError::from_json_error(e)),
    }
}

/// The steps of the record round trip on an open cursor: checks that no
/// record answers the query for the record, adds the record, and checks that
/// the record as it was stored answers the five queries, alone. The verdict is
/// yes wherever the cursor had staged no record and the record store held
/// none; a dependable cursor on a dependable store then gives it, and what it
/// has staged can be committed as it is. Where the steps end without an error,
/// the record, under some index, is then all that the cursor has staged and
/// the record store holds.
pub fn eav_round_trip_steps<A: Attribute, W: CursorRw<A>>(
    cursor: &mut W,
    eav: &mut W::Eav,
    entity: &Address,
    attribute: &A,
    value: &Address,
) -> (r: PersistenceResult<bool>)
    ensures
        final(cursor).staged_contents() == old(cursor).staged_contents(),
        final(cursor).isolated() == old(cursor).isolated(),
        final(cursor).dependable() == old(cursor).dependable(),
        final(eav).dependable() == old(eav).dependable(),
        old(eav).records().subset_of(final(eav).records()),
        old(cursor).isolated() ==> final(eav).records() == old(eav).records(),
        r matches Ok(passed) ==> (old(cursor).staged_records() == Set::<EaviView>::empty() && old(eav).records() == Set::<EaviView>::empty() ==> passed),
        r is Ok && old(cursor).staged_records() == Set::<EaviView>::empty() && old(eav).records()
            == Set::<EaviView>::empty() ==> exists|i: i64|
            final(cursor).staged_records() + final(eav).records() == set![#[trigger] record_at(
                entity@,
                attribute.key(),
                value@,
                i,
            )],
        old(cursor).dependable() && old(eav).dependable() && old(cursor).staged_records()
            == Set::<EaviView>::empty() && old(eav).records() == Set::<EaviView>::empty() ==> r
            == Ok::<bool, PersistenceError>(true) && fits_as_is(
            final(cursor).staged_records(),
            final(eav).records(),
        ),
{
    let ghost fresh = cursor.staged_records() == Set::<EaviView>::empty() && eav.records()
        == Set::<EaviView>::empty();
    let ghost primary0 = eav.records();
    let exact = latest_query(Some(entity), Some(attribute), Some(value));
    let none_before = match cursor.fetch_eavi(eav, &exact) {
        Ok(out) => {
            proof {
                if fresh {
                    if out@.len() > 0 {
                        assert(out@.contains(out@[0]));
                        assert(query_selects(
                            exact@,
                            query_source(Set::<EaviView>::empty(), primary0, exact@),
                            out@[0],
                        ));
                    }
                }
            }
            out.is_empty()
        },
        Err(e) => {
            return Err(e);
        },
    };
    proof {
        if fresh {
            assert(cursor.staged_records() =~= Set::<EaviView>::empty());
        }
    }
    let record = match EntityAttributeValueIndex::new(entity, attribute, value) {
        Ok(record) => record,
        Err(e) => {
            return Err(e);
        },
    };
    let ghost staged1 = cursor.staged_records();
    proof {
        if fresh {
            let base = joined(cursor.isolated(), staged1, eav.records());
            assert(!collides(base, record@.entity, record@.index));
            assert(!no_index_left(base, record@.entity, record@.index));
        }
    }
    let stored = match cursor.add_eavi(eav, &record) {
        Ok(Some(stored)) => stored,
        Ok(None) => {
            return Err(PersistenceError::generic("the record was not stored"));
        },
        Err(e) => {
            return Err(e);
        },
    };
    let ghost x = stored@;
    proof {
        assert(stored@ == (EaviView { index: x.index, ..record@ }));
        if fresh {
            if cursor.isolated() {
                assert(cursor.staged_records() =~= set![x]);
                assert(eav.records() =~= Set::<EaviView>::empty());
            } else {
                assert(cursor.staged_records() =~= Set::<EaviView>::empty());
                assert(eav.records() =~= set![x]);
            }
            assert(sole_record(cursor.staged_records(), eav.records(), x));
        }
    }
    let by_all = answers_with(cursor, eav, &exact, &stored)?;
    let open_entity = latest_query(None, Some(attribute), Some(value));
    let by_attribute_value = answers_with(cursor, eav, &open_entity, &stored)?;
    let open_attribute = latest_query(Some(entity), None, Some(value));
    let by_entity_value = answers_with(cursor, eav, &open_attribute, &stored)?;
    let open_value = latest_query(Some(entity), Some(attribute), None);
    let by_entity_attribute = answers_with(cursor, eav, &open_value, &stored)?;
    let open = latest_query(None, None, None);
    let by_nothing = answers_with(cursor, eav, &open, &stored)?;
    proof {
        if fresh {
            assert(sole_record(cursor.staged_records(), eav.records(), x));
            assert(x == record_at(entity@, attribute.key(), value@, x.index));
            assert(cursor.staged_records() + eav.records() =~= set![x]);
            if cursor.staged_records() == set![x] {
                assert forall|r: EaviView| #[trigger]
                    cursor.staged_records().contains(r) implies eav.records().contains(r)
                    || !collides(eav.records(), r.entity, r.index) by {
                    if collides(eav.records(), r.entity, r.index) {
                        let y = choose|y: EaviView| #[trigger]
                            eav.records().contains(y) && y.entity == r.entity && y.index
                                == r.index;
                        assert(set![x].contains(y));
                    }
                }
            }
        }
    }
    Ok(
        none_before && by_all && by_attribute_value && by_entity_value && by_entity_attribute
            && by_nothing,
    )
}

} // verus!
