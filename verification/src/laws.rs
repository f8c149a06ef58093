//! What holds of every store and every cursor.
//!
//! The theorems of this module are stated over what the stores hold: content by
//! address, and sets of records. The contracts of the stores and cursors say
//! how each operation changes what is held, so the theorems hold of every
//! sequence of operations that they describe.

use crate::eav::eavi::{lemma_record_asymmetric, EaviView};
use crate::eav::query::{
    is_answer, query_matches, query_selects, same_subject, supersedes, FilterView, IndexFilter,
    QueryView,
};
use crate::eav::set::lemma_sorted_distinct;
use crate::eav::storage::{
    absorb_all, lemma_persisted_keeps_unique, persisted_as, unique_by_index,
};
use crate::hash::text_key;
use crate::order::lemma_bytes_irreflexive;
use crate::txn::cursor::{committed_records, found_in, query_source, visible};
use crate::txn::staging::lemma_absorbed_is_committed;
use crate::lmdb::common::{grown, lemma_write_all_keeps, write_all, MAP_GROWTH_FACTOR};
use vstd::prelude::*;

verus! {

/// Content that was added is found under its address, whatever was there
/// before.
pub proof fn law_round_trip(
    contents: Map<Seq<char>, Seq<char>>,
    address: Seq<char>,
    content: Seq<char>,
)
    ensures
        found_in(contents.insert(address, content), address) == Some(content),
{
}

/// A cursor finds what it added, whatever it had staged and whatever the
/// primary store holds.
pub proof fn law_cursor_reads_its_writes(
    staged: Map<Seq<char>, Seq<char>>,
    primary: Map<Seq<char>, Seq<char>>,
    address: Seq<char>,
    content: Seq<char>,
)
    ensures
        found_in(visible(staged.insert(address, content), primary), address) == Some(content),
{
}

/// Adding the same content twice leaves the store as adding it once: every
/// address is found as before, and no address is held twice.
pub proof fn law_idempotent_add(
    contents: Map<Seq<char>, Seq<char>>,
    address: Seq<char>,
    content: Seq<char>,
)
    ensures
        contents.insert(address, content).insert(address, content) == contents.insert(
            address,
            content,
        ),
        forall|other: Seq<char>|
            found_in(contents.insert(address, content).insert(address, content), other)
                == found_in(contents.insert(address, content), other),
{
    assert(contents.insert(address, content).insert(address, content) =~= contents.insert(
        address,
        content,
    ));
}

/// The query that constrains nothing and keeps every record, whatever its
/// index.
pub open spec fn open_query() -> QueryView {
    QueryView {
        entity: FilterView::Any,
        attribute: FilterView::Any,
        value: FilterView::Any,
        index: IndexFilter::Range(None, None),
        limit: None,
    }
}

/// Of two records, the one with the lesser index.
pub open spec fn earlier_of(x: EaviView, y: EaviView) -> EaviView {
    if x.index < y.index {
        x
    } else {
        y
    }
}

/// Of two records, the one with the greater index.
pub open spec fn later_of(x: EaviView, y: EaviView) -> EaviView {
    if x.index < y.index {
        y
    } else {
        x
    }
}

/// A record that is stored twice is held twice, under two different indices.
/// The query that keeps every record selects both. A query that keeps the
/// latest record only, and whose constraints the record meets, does not select
/// the earlier of the two; it selects the later one where no record that was
/// there before supersedes it.
pub proof fn law_uniqueness_by_index(
    all: Set<EaviView>,
    given: EaviView,
    first: EaviView,
    second: EaviView,
    latest: QueryView,
)
    requires
        unique_by_index(all),
        persisted_as(all, given, first),
        persisted_as(all.insert(first), given, second),
        latest.index == IndexFilter::LatestByAttribute,
        query_matches(latest, given),
    ensures
        first.index != second.index,
        unique_by_index(all.insert(first).insert(second)),
        query_selects(open_query(), all.insert(first).insert(second), first),
        query_selects(open_query(), all.insert(first).insert(second), second),
        !query_selects(latest, all.insert(first).insert(second), earlier_of(first, second)),
        (forall|y: EaviView| all.contains(y) ==> !supersedes(y, later_of(first, second)))
            ==> query_selects(latest, all.insert(first).insert(second), later_of(first, second)),
{
    let one = all.insert(first);
    let two = one.insert(second);
    let early = earlier_of(first, second);
    let late = later_of(first, second);
    assert(one.contains(first));
    lemma_persisted_keeps_unique(all, given, first);
    lemma_persisted_keeps_unique(one, given, second);
    assert(two.contains(first) && two.contains(second));
    assert(supersedes(late, early));
    assert(query_matches(latest, first));
    assert(query_matches(latest, second));
    lemma_bytes_irreflexive(text_key(late.value));
    if forall|y: EaviView| all.contains(y) ==> !supersedes(y, late) {
        assert forall|y: EaviView| two.contains(y) && query_matches(latest, y) implies !supersedes(
            y,
            late,
        ) by {
            if y != second && y != first {
                assert(all.contains(y));
            }
        }
    }
}

/// The constraint leaves the field open or asks for exactly the given key.
pub open spec fn open_or_exact(filter: FilterView, key: Seq<u8>) -> bool {
    filter == FilterView::Any || filter == FilterView::Exact(key)
}

/// The constraint asks for exactly one key, and not for the given one.
pub open spec fn exact_other(filter: FilterView, key: Seq<u8>) -> bool {
    filter matches FilterView::Exact(k) && k != key
}

/// The index filter keeps a record with the given index when it stands alone.
pub open spec fn keeps_alone(filter: IndexFilter, index: i64) -> bool {
    match filter {
        IndexFilter::LatestByAttribute => true,
        IndexFilter::Range(lo, hi) => crate::eav::query::index_within(lo, hi, index),
    }
}

/// Where one record alone of those that a store holds meets the constraints
/// of a query, and the index filter keeps it, the query is answered by exactly
/// that record.
pub proof fn law_only_match(all: Set<EaviView>, x: EaviView, q: QueryView, out: Seq<EaviView>)
    requires
        is_answer(q, all, out),
        all.contains(x),
        query_matches(q, x),
        keeps_alone(q.index, x.index),
        q.limit != Some(0usize),
        forall|y: EaviView| all.contains(y) && query_matches(q, y) ==> y == x,
    ensures
        out == seq![x],
{
    lemma_bytes_irreflexive(text_key(x.value));
    assert(query_selects(q, all, x));
    lemma_sorted_distinct(out);
    assert forall|i: int| 0 <= i < out.len() implies out[i] == x by {
        assert(out.contains(out[i]));
        assert(query_selects(q, all, out[i]));
    }
    if out.len() > 1 {
        assert(out[0] == out[1]);
    }
    if out.len() == 0 {
        assert(!out.contains(x));
    }
    if !out.contains(x) {
        assert(out.len() > 0);
        assert(out[0] == x);
        lemma_record_asymmetric(out[0], x);
    }
    assert(out =~= seq![x]);
}

/// Where a query selects one record alone of those that a store holds, it
/// is answered by exactly that record.
pub proof fn law_only_selected(all: Set<EaviView>, x: EaviView, q: QueryView, out: Seq<EaviView>)
    requires
        is_answer(q, all, out),
        query_selects(q, all, x),
        q.limit != Some(0usize),
        forall|y: EaviView| query_selects(q, all, y) ==> y == x,
    ensures
        out == seq![x],
{
    lemma_sorted_distinct(out);
    assert forall|i: int| 0 <= i < out.len() implies out[i] == x by {
        assert(out.contains(out[i]));
    }
    if out.len() > 1 {
        assert(out[0] == out[1]);
    }
    if out.len() == 0 {
        assert(!out.contains(x));
    }
    if !out.contains(x) {
        assert(out.len() > 0);
        assert(out[0] == x);
        lemma_record_asymmetric(out[0], x);
    }
    assert(out =~= seq![x]);
}

/// A query without a limit has one answer over the records that a store
/// holds: the records that it selects, in order.
pub proof fn law_answer_is_unique(
    all: Set<EaviView>,
    q: QueryView,
    first: Seq<EaviView>,
    second: Seq<EaviView>,
)
    requires
        q.limit is None,
        is_answer(q, all, first),
        is_answer(q, all, second),
    ensures
        first == second,
        forall|r: EaviView| first.contains(r) <==> query_selects(q, all, r),
{
    assert forall|r: EaviView| first.to_set().contains(r) <==> second.to_set().contains(r) by {
        if first.contains(r) {
            assert(query_selects(q, all, r));
        }
        if second.contains(r) {
            assert(query_selects(q, all, r));
        }
    }
    assert(first.to_set() =~= second.to_set());
    crate::eav::set::lemma_sorted_unique(first, second);
}

/// A store may answer a query from any of its records among which are all
/// those that meet the constraints of the query, however it finds them: what
/// answers the query over those records answers it over all the records of
/// the store, and the other way round.
pub proof fn law_indexing_is_transparent(
    all: Set<EaviView>,
    candidates: Set<EaviView>,
    q: QueryView,
    out: Seq<EaviView>,
)
    requires
        candidates.subset_of(all),
        forall|r: EaviView| all.contains(r) && query_matches(q, r) ==> candidates.contains(r),
    ensures
        is_answer(q, candidates, out) <==> is_answer(q, all, out),
        forall|r: EaviView| query_selects(q, candidates, r) <==> query_selects(q, all, r),
{
    assert forall|r: EaviView| query_selects(q, candidates, r) <==> query_selects(q, all, r) by {
        if query_selects(q, candidates, r) && q.index == IndexFilter::LatestByAttribute {
            assert forall|y: EaviView| all.contains(y) && query_matches(q, y) implies !supersedes(
                y,
                r,
            ) by {
                assert(candidates.contains(y));
            }
        }
        if query_selects(q, all, r) {
            assert(candidates.contains(r));
        }
    }
}

/// Where no record that a store holds meets the constraints of a query, the
/// query is answered by no record.
pub proof fn law_no_match(all: Set<EaviView>, q: QueryView, out: Seq<EaviView>)
    requires
        is_answer(q, all, out),
        forall|y: EaviView| all.contains(y) ==> !query_matches(q, y),
    ensures
        out == Seq::<EaviView>::empty(),
{
    if out.len() > 0 {
        assert(out.contains(out[0]));
        assert(query_selects(q, all, out[0]));
    }
    assert(out =~= Seq::<EaviView>::empty());
}

/// Over a store that holds one record: a query that constrains any of entity,
/// attribute and value to what the record has, and leaves the others open, is
/// answered by exactly that record.
pub proof fn law_query_field_independence(r: EaviView, q: QueryView, out: Seq<EaviView>)
    requires
        is_answer(q, set![r], out),
        open_or_exact(q.entity, text_key(r.entity)),
        open_or_exact(q.attribute, r.attribute),
        open_or_exact(q.value, text_key(r.value)),
        keeps_alone(q.index, r.index),
        q.limit != Some(0usize),
    ensures
        out == seq![r],
{
    law_only_match(set![r], r, q, out);
}

/// Over a store that holds one record: a query that constrains one of entity,
/// attribute and value to something else than the record has is answered by
/// no record.
pub proof fn law_wrong_value_finds_nothing(r: EaviView, q: QueryView, out: Seq<EaviView>)
    requires
        is_answer(q, set![r], out),
        exact_other(q.entity, text_key(r.entity)) || exact_other(q.attribute, r.attribute)
            || exact_other(q.value, text_key(r.value)),
    ensures
        out == Seq::<EaviView>::empty(),
{
    law_no_match(set![r], q, out);
}

/// The query for the latest record of one entity and attribute, whatever its
/// value.
pub open spec fn latest_of(entity: Seq<char>, attribute: Seq<u8>) -> QueryView {
    QueryView {
        entity: FilterView::Exact(text_key(entity)),
        attribute: FilterView::Exact(attribute),
        value: FilterView::Any,
        index: IndexFilter::LatestByAttribute,
        limit: None,
    }
}

/// The query for every record of one entity and attribute.
pub open spec fn history_of(entity: Seq<char>, attribute: Seq<u8>) -> QueryView {
    QueryView {
        entity: FilterView::Exact(text_key(entity)),
        attribute: FilterView::Exact(attribute),
        value: FilterView::Any,
        index: IndexFilter::Range(None, None),
        limit: None,
    }
}

/// A record with a later index takes the place of an earlier record of the
/// same entity and attribute: the query for the latest record selects the
/// later one, a tombstone as any other, and not the earlier one. The earlier
/// record is still held: the query for every record selects both.
pub proof fn law_tombstone(all: Set<EaviView>, earlier: EaviView, tombstone: EaviView)
    requires
        all.contains(earlier),
        all.contains(tombstone),
        same_subject(earlier, tombstone),
        earlier.index < tombstone.index,
        forall|y: EaviView| all.contains(y) && same_subject(y, tombstone) ==> y.index <= tombstone.index,
        unique_by_index(all),
    ensures
        query_selects(latest_of(tombstone.entity, tombstone.attribute), all, tombstone),
        !query_selects(latest_of(tombstone.entity, tombstone.attribute), all, earlier),
        query_selects(history_of(tombstone.entity, tombstone.attribute), all, tombstone),
        query_selects(history_of(tombstone.entity, tombstone.attribute), all, earlier),
{
    let q = latest_of(tombstone.entity, tombstone.attribute);
    assert(query_matches(q, tombstone));
    assert(query_matches(q, earlier));
    assert(supersedes(tombstone, earlier));
    assert forall|y: EaviView| all.contains(y) && query_matches(q, y) implies !supersedes(
        y,
        tombstone,
    ) by {
        if supersedes(y, tombstone) {
            assert(y.index == tombstone.index);
            assert(y == tombstone);
            lemma_bytes_irreflexive(text_key(tombstone.value));
        }
    }
}

/// What one cursor adds, another cursor does not see before the commit: the
/// first cursor stages it, and what the other one sees is made of what the
/// other one staged and of the primary store, which is as it was. After the
/// commit the other cursor sees it, unless it has staged something else under
/// the same address.
pub proof fn law_transaction_isolation(
    primary: Map<Seq<char>, Seq<char>>,
    staged_by_first: Map<Seq<char>, Seq<char>>,
    staged_by_other: Map<Seq<char>, Seq<char>>,
    address: Seq<char>,
    content: Seq<char>,
)
    requires
        !primary.contains_key(address),
        !staged_by_other.contains_key(address),
    ensures
        found_in(visible(staged_by_other, primary), address) is None,
        found_in(
            visible(staged_by_other, visible(staged_by_first.insert(address, content), primary)),
            address,
        ) == Some(content),
{
}

/// Records that one cursor staged are not among those that another cursor
/// answers from, before the commit: a query over what the other cursor staged
/// and the primary store selects nothing that neither of them holds. After a
/// commit the primary store holds every staged record in its stored form.
pub proof fn law_record_isolation(
    primary: Set<EaviView>,
    staged_by_first: Seq<EaviView>,
    staged_by_other: Set<EaviView>,
    q: QueryView,
    r: EaviView,
)
    requires
        query_selects(q, query_source(staged_by_other, primary, q), r),
    ensures
        staged_by_other.contains(r) || primary.contains(r),
        absorb_all(primary, staged_by_first) is Some && staged_by_first.no_duplicates()
            ==> committed_records(
            primary,
            staged_by_first.to_set(),
            absorb_all(primary, staged_by_first).unwrap(),
        ),
{
    if absorb_all(primary, staged_by_first) is Some && staged_by_first.no_duplicates() {
        lemma_absorbed_is_committed(primary, staged_by_first);
    }
}

/// What a cursor that was dropped had staged is seen by no cursor created
/// after it: a new cursor has staged nothing, so it sees the primary store
/// alone, and answers every query from the primary store alone.
pub proof fn law_abort_on_drop(
    primary_contents: Map<Seq<char>, Seq<char>>,
    primary_records: Set<EaviView>,
    q: QueryView,
)
    ensures
        visible(Map::<Seq<char>, Seq<char>>::empty(), primary_contents) == primary_contents,
        query_source(Set::<EaviView>::empty(), primary_records, q) == primary_records,
{
    assert(visible(Map::<Seq<char>, Seq<char>>::empty(), primary_contents) =~= primary_contents);
}

/// A write that makes the map grow loses nothing: every key that the store
/// held is still held, with its old value unless the entries that were
/// written have the key, and a map of some size that has grown at least once
/// is larger than it was.
pub proof fn law_capacity_growth(
    held: Map<Seq<char>, Seq<char>>,
    entries: Seq<(Seq<char>, Seq<char>)>,
    key: Seq<char>,
    map_size: int,
    times: nat,
)
    requires
        held.contains_key(key),
        map_size > 0,
        times > 0,
    ensures
        write_all(held, entries).contains_key(key),
        (forall|i: int| 0 <= i < entries.len() ==> (#[trigger] entries[i]).0 != key) ==> write_all(
            held,
            entries,
        )[key] == held[key],
        grown(map_size, times) > map_size,
        grown(map_size, times) >= map_size * MAP_GROWTH_FACTOR,
    decreases times,
{
    lemma_write_all_keeps(held, entries, key);
    if times > 1 {
        law_capacity_growth(held, entries, key, map_size, (times - 1) as nat);
        let before = grown(map_size, (times - 1) as nat);
        assert(before * 8 > before) by (nonlinear_arith)
            requires
                before > 0,
        ;
    } else {
        assert(grown(map_size, 0) == map_size);
        assert(map_size * 8 > map_size) by (nonlinear_arith)
            requires
                map_size > 0,
        ;
    }
}

} // verus!
