//! The interface of an entity-attribute-value-index store.
//!
//! A store never holds two records of one entity with the same index. A record
//! whose index is taken is stored under a greater index that is free.

use crate::eav::eavi::{Attribute, EaviView, EntityAttributeValueIndex};
use crate::eav::query::{is_answer, EaviQuery};
use crate::eav::set::{views, EaviSet};
use crate::error::{PersistenceError, PersistenceResult};
use crate::hash::Address;
use vstd::prelude::*;

verus! {

/// One of the records is of the given entity and has the given index.
pub open spec fn collides(all: Set<EaviView>, entity: Seq<char>, index: i64) -> bool {
    exists|y: EaviView| #[trigger] all.contains(y) && y.entity == entity && y.index == index
}

/// No two of the records are of one entity and have the same index.
pub open spec fn unique_by_index(all: Set<EaviView>) -> bool {
    forall|x: EaviView, y: EaviView|
        #![trigger all.contains(x), all.contains(y)]
        all.contains(x) && all.contains(y) && x.entity == y.entity && x.index == y.index ==> x
            == y
}

/// `stored` is what a store that holds `all` keeps for the record `given`: the
/// same entity, attribute and value, under the index of `given` where that is
/// free, and under a greater index that is free where it is taken.
pub open spec fn persisted_as(all: Set<EaviView>, given: EaviView, stored: EaviView) -> bool {
    &&& stored == (EaviView { index: stored.index, ..given })
    &&& !collides(all, stored.entity, stored.index)
    &&& if collides(all, given.entity, given.index) {
        stored.index > given.index
    } else {
        stored.index == given.index
    }
}

/// Every index from `from` on is that of a record of the entity.
pub open spec fn no_index_left(all: Set<EaviView>, entity: Seq<char>, from: i64) -> bool {
    forall|j: i64| from <= j ==> collides(all, entity, j)
}

/// `index` is the first index from `from` on that no record of the entity has.
pub open spec fn first_free_index(all: Set<EaviView>, entity: Seq<char>, from: i64, index: i64)
    -> bool {
    &&& from <= index
    &&& !collides(all, entity, index)
    &&& forall|j: i64| from <= j < index ==> collides(all, entity, j)
}

/// There is at most one first free index.
pub proof fn lemma_first_free_unique(
    all: Set<EaviView>,
    entity: Seq<char>,
    from: i64,
    i: i64,
    j: i64,
)
    requires
        first_free_index(all, entity, from, i),
        first_free_index(all, entity, from, j),
    ensures
        i == j,
{
}

/// The first index, from `from` on, that no record of the entity has, where
/// there is one.
pub open spec fn minted_index(all: Set<EaviView>, entity: Seq<char>, from: i64) -> i64 {
    choose|i: i64| first_free_index(all, entity, from, i)
}

/// A record given its first free index is stored as the store must store it.
pub proof fn lemma_first_free_persisted(all: Set<EaviView>, given: EaviView, index: i64)
    requires
        first_free_index(all, given.entity, given.index, index),
    ensures
        persisted_as(all, given, EaviView { index: index, ..given }),
        index == minted_index(all, given.entity, given.index),
{
    lemma_first_free_unique(
        all,
        given.entity,
        given.index,
        index,
        minted_index(all, given.entity, given.index),
    );
}

/// The form in which record `r` is held once it was committed to the records
/// `all`, which come from the records `held`: as it is where `held` has it, and
/// under its first free index in `all` otherwise.
pub open spec fn kept_form(all: Set<EaviView>, held: Set<EaviView>, r: EaviView) -> EaviView {
    if held.contains(r) {
        r
    } else {
        EaviView { index: minted_index(all, r.entity, r.index), ..r }
    }
}

/// What the records `all`, which come from the records `held`, become when
/// record `r` is committed to them: nothing changes where `held` has `r`; else
/// `r` joins them under its first free index; where no index is free, the
/// commit is not possible.
pub open spec fn absorb_one(all: Set<EaviView>, held: Set<EaviView>, r: EaviView) -> Option<
    Set<EaviView>,
> {
    if held.contains(r) {
        Some(all)
    } else if exists|i: i64| first_free_index(all, r.entity, r.index, i) {
        Some(all.insert(kept_form(all, held, r)))
    } else {
        None
    }
}

/// What the records `all`, which come from the records `held`, become when
/// the staged records are committed to them, one after the other.
pub open spec fn absorb_from(all: Set<EaviView>, held: Set<EaviView>, staged: Seq<EaviView>)
    -> Option<Set<EaviView>>
    decreases staged.len(),
{
    if staged.len() == 0 {
        Some(all)
    } else {
        match absorb_one(all, held, staged[0]) {
            Some(next) => absorb_from(next, held, staged.drop_first()),
            None => None,
        }
    }
}

/// What the records become when the staged records are committed to them, one
/// after the other: a staged record that they hold is passed over, every other
/// joins them under its first free index. Where a record finds no free index,
/// the commit is not possible.
pub open spec fn absorb_all(held: Set<EaviView>, staged: Seq<EaviView>) -> Option<Set<EaviView>> {
    absorb_from(held, held, staged)
}

/// The form in which record `r` is held once the staged records, of which it
/// is one, were committed one after the other to the records `all`, which
/// come from the records `held`.
pub open spec fn placed_form(
    all: Set<EaviView>,
    held: Set<EaviView>,
    staged: Seq<EaviView>,
    r: EaviView,
) -> EaviView
    decreases staged.len(),
{
    if staged.len() == 0 {
        r
    } else if staged[0] == r {
        kept_form(all, held, r)
    } else {
        match absorb_one(all, held, staged[0]) {
            Some(next) => placed_form(next, held, staged.drop_first(), r),
            None => r,
        }
    }
}

/// Committing staged records, each of them once, leaves the records that were
/// there and adds, for each staged record, the form in which it is held. A
/// staged record that was held before is held as it is.
pub proof fn lemma_absorb_places(all: Set<EaviView>, held: Set<EaviView>, staged: Seq<EaviView>)
    requires
        absorb_from(all, held, staged) is Some,
        staged.no_duplicates(),
        held.subset_of(all),
    ensures
        forall|r: EaviView|
            staged.contains(r) ==> (#[trigger] placed_form(all, held, staged, r)) == (EaviView {
                index: placed_form(all, held, staged, r).index,
                ..r
            }) && r.index <= placed_form(all, held, staged, r).index,
        forall|r: EaviView|
            staged.contains(r) && held.contains(r) ==> (#[trigger] placed_form(
                all,
                held,
                staged,
                r,
            )) == r,
        absorb_from(all, held, staged).unwrap() == all + staged.to_set().map(
            |r: EaviView| placed_form(all, held, staged, r),
        ),
        forall|r: EaviView|
            staged.contains(r) && !held.contains(r) ==> !all.contains(
                #[trigger] placed_form(all, held, staged, r),
            ),
        forall|r1: EaviView, r2: EaviView|
            staged.contains(r1) && staged.contains(r2) && r1 != r2 ==> (#[trigger] placed_form(
                all,
                held,
                staged,
                r1,
            )) != (#[trigger] placed_form(all, held, staged, r2)),
    decreases staged.len(),
{
    let result = absorb_from(all, held, staged).unwrap();
    let f = |r: EaviView| placed_form(all, held, staged, r);
    if staged.len() == 0 {
        assert(staged.to_set() =~= Set::<EaviView>::empty());
        assert(staged.to_set().map(f) =~= Set::<EaviView>::empty());
        assert(result =~= all + staged.to_set().map(f));
    } else {
        let head = staged[0];
        let next = absorb_one(all, held, head).unwrap();
        let rest = staged.drop_first();
        let g = |r: EaviView| placed_form(next, held, rest, r);
        assert(rest.no_duplicates()) by {
            assert forall|i: int, j: int| 0 <= i < rest.len() && 0 <= j < rest.len() && i
                != j implies rest[i] != rest[j] by {
                assert(rest[i] == staged[i + 1] && rest[j] == staged[j + 1]);
            }
        }
        lemma_absorb_places(next, held, rest);
        if !held.contains(head) {
            let i = choose|i: i64| first_free_index(all, head.entity, head.index, i);
            lemma_first_free_persisted(all, head, i);
        }
        assert(next =~= all.insert(kept_form(all, held, head)));
        assert forall|r: EaviView| rest.contains(r) implies r != head && f(r) == g(r)
            && staged.contains(r) by {
            let k = choose|k: int| 0 <= k < rest.len() && rest[k] == r;
            assert(staged[k + 1] == r);
        }
        assert forall|r: EaviView| staged.contains(r) implies (#[trigger] placed_form(
            all,
            held,
            staged,
            r,
        )) == (EaviView { index: placed_form(all, held, staged, r).index, ..r }) && r.index
            <= placed_form(all, held, staged, r).index by {
            if r != head {
                let k = choose|k: int| 0 <= k < staged.len() && staged[k] == r;
                assert(rest[k - 1] == r);
                assert(rest.contains(r));
            }
        }
        assert forall|r: EaviView| staged.contains(r) && held.contains(r) implies (
        #[trigger] placed_form(all, held, staged, r)) == r by {
            if r != head {
                let k = choose|k: int| 0 <= k < staged.len() && staged[k] == r;
                assert(rest[k - 1] == r);
                assert(rest.contains(r));
            }
        }
        assert forall|r: EaviView| staged.contains(r) && !held.contains(r) implies !all.contains(
            #[trigger] placed_form(all, held, staged, r),
        ) by {
            if r != head {
                let k = choose|k: int| 0 <= k < staged.len() && staged[k] == r;
                assert(rest[k - 1] == r);
                assert(rest.contains(r));
                assert(!next.contains(placed_form(next, held, rest, r)));
            }
        }
        assert forall|r1: EaviView, r2: EaviView|
            staged.contains(r1) && staged.contains(r2) && r1 != r2 implies (#[trigger] placed_form(
            all,
            held,
            staged,
            r1,
        )) != (#[trigger] placed_form(all, held, staged, r2)) by {
            let k1 = choose|k: int| 0 <= k < staged.len() && staged[k] == r1;
            let k2 = choose|k: int| 0 <= k < staged.len() && staged[k] == r2;
            if r1 != head {
                assert(rest[k1 - 1] == r1);
                assert(rest.contains(r1));
            }
            if r2 != head {
                assert(rest[k2 - 1] == r2);
                assert(rest.contains(r2));
            }
            let p1 = placed_form(all, held, staged, r1);
            let p2 = placed_form(all, held, staged, r2);
            if held.contains(r1) && !held.contains(r2) {
                assert(all.contains(p1));
            } else if !held.contains(r1) && held.contains(r2) {
                assert(all.contains(p2));
            } else if !held.contains(r1) && !held.contains(r2) {
                if r1 == head {
                    assert(next.contains(p1));
                    assert(!next.contains(placed_form(next, held, rest, r2)));
                } else if r2 == head {
                    assert(next.contains(p2));
                    assert(!next.contains(placed_form(next, held, rest, r1)));
                }
            }
        }
        assert forall|y: EaviView| result.contains(y) <==> (all + staged.to_set().map(f)).contains(
            y,
        ) by {
            if result.contains(y) && !all.contains(y) {
                if y == kept_form(all, held, head) {
                    assert(staged.to_set().contains(head));
                    assert(f(head) == y);
                } else {
                    assert(rest.to_set().map(g).contains(y));
                    let r = choose|r: EaviView| rest.to_set().contains(r) && g(r) == y;
                    assert(rest.contains(r));
                    assert(staged.to_set().contains(r) && f(r) == y);
                }
            }
            if staged.to_set().map(f).contains(y) {
                let r = choose|r: EaviView| staged.to_set().contains(r) && f(r) == y;
                if r == head {
                    assert(next.contains(y));
                } else {
                    let k = choose|k: int| 0 <= k < staged.len() && staged[k] == r;
                    assert(rest[k - 1] == r);
                    assert(rest.to_set().contains(r) && g(r) == y);
                    assert(rest.to_set().map(g).contains(y));
                }
            }
            if all.contains(y) {
                assert(next.contains(y));
            }
        }
        assert(result =~= all + staged.to_set().map(f));
    }
}

/// Where every staged record is held already or has its index free, and no
/// two staged records are of one entity and have the same index, the commit is
/// possible and adds the staged records as they are.
pub proof fn lemma_absorb_as_is(all: Set<EaviView>, held: Set<EaviView>, staged: Seq<EaviView>)
    requires
        held.subset_of(all),
        staged.no_duplicates(),
        unique_by_index(staged.to_set()),
        forall|k: int|
            0 <= k < staged.len() ==> held.contains(#[trigger] staged[k]) || !collides(
                all,
                staged[k].entity,
                staged[k].index,
            ),
    ensures
        absorb_from(all, held, staged) == Some(all + staged.to_set()),
    decreases staged.len(),
{
    if staged.len() == 0 {
        assert(staged.to_set() =~= Set::<EaviView>::empty());
        assert(all + staged.to_set() =~= all);
    } else {
        let head = staged[0];
        let rest = staged.drop_first();
        assert(staged.contains(head));
        assert forall|i: int, j: int| 0 <= i < rest.len() && 0 <= j < rest.len() && i
            != j implies rest[i] != rest[j] by {
            assert(rest[i] == staged[i + 1] && rest[j] == staged[j + 1]);
        }
        assert forall|x: EaviView| rest.contains(x) implies staged.contains(x) && x != head by {
            let k = choose|k: int| 0 <= k < rest.len() && rest[k] == x;
            assert(staged[k + 1] == x);
        }
        assert forall|x: EaviView, y: EaviView|
            #![trigger rest.to_set().contains(x), rest.to_set().contains(y)]
            rest.to_set().contains(x) && rest.to_set().contains(y) && x.entity == y.entity
                && x.index == y.index implies x == y by {
            assert(staged.to_set().contains(x) && staged.to_set().contains(y));
        }
        assert forall|x: EaviView| staged.to_set().contains(x) <==> x == head
            || rest.to_set().contains(x) by {
            if staged.contains(x) && x != head {
                let k = choose|k: int| 0 <= k < staged.len() && staged[k] == x;
                assert(rest[k - 1] == x);
            }
        }
        if held.contains(head) {
            assert forall|k: int| 0 <= k < rest.len() implies held.contains(#[trigger] rest[k])
                || !collides(all, rest[k].entity, rest[k].index) by {
                assert(rest[k] == staged[k + 1]);
            }
            lemma_absorb_as_is(all, held, rest);
            assert(all + rest.to_set() =~= all + staged.to_set());
        } else {
            assert(first_free_index(all, head.entity, head.index, head.index));
            lemma_first_free_persisted(all, head, head.index);
            assert(kept_form(all, held, head) == head);
            let next = all.insert(head);
            assert forall|k: int| 0 <= k < rest.len() implies held.contains(#[trigger] rest[k])
                || !collides(next, rest[k].entity, rest[k].index) by {
                let r = rest[k];
                assert(r == staged[k + 1]);
                assert(rest.contains(r));
                if !held.contains(r) && collides(next, r.entity, r.index) {
                    let y = choose|y: EaviView| #[trigger]
                        next.contains(y) && y.entity == r.entity && y.index == r.index;
                    if y == head {
                        assert(staged.to_set().contains(head) && staged.to_set().contains(r));
                    } else {
                        assert(all.contains(y));
                    }
                }
            }
            lemma_absorb_as_is(next, held, rest);
            assert(next + rest.to_set() =~= all + staged.to_set());
        }
    }
}

/// A record stored under a free index leaves the records unique by index.
pub proof fn lemma_persisted_keeps_unique(all: Set<EaviView>, given: EaviView, stored: EaviView)
    requires
        unique_by_index(all),
        persisted_as(all, given, stored),
    ensures
        unique_by_index(all.insert(stored)),
{
    let grown = all.insert(stored);
    assert forall|x: EaviView, y: EaviView|
        #![trigger grown.contains(x), grown.contains(y)]
        grown.contains(x) && grown.contains(y) && x.entity == y.entity && x.index
            == y.index implies x == y by {
        if x != y {
            if x == stored {
                assert(all.contains(y));
            } else if y == stored {
                assert(all.contains(x));
            } else {
                assert(all.contains(x) && all.contains(y));
            }
        }
    }
}

/// A store of records that can be queried. A store in which no two records
/// are of one entity and have the same index stays so.
pub trait EntityAttributeValueStorage<A: Attribute> {
    /// The records that the store holds.
    spec fn records(&self) -> Set<EaviView>;

    /// Whether the store does what it is asked: a dependable store fails only
    /// where no index is left for a record.
    spec fn dependable(&self) -> bool;

    /// Stores a record and returns it as it was stored. Where the index of the
    /// record is taken, the record is stored under a greater index. Where
    /// nothing is returned, the store is as it was. A dependable store stores
    /// the record, and fails exactly where no index is left for it.
    fn add_eavi(&mut self, eavi: &EntityAttributeValueIndex<A>) -> (r: PersistenceResult<
        Option<EntityAttributeValueIndex<A>>,
    >)
        ensures
            match r {
                Ok(Some(stored)) => persisted_as(old(self).records(), eavi@, stored@)
                    && final(self).records() == old(self).records().insert(stored@),
                _ => final(self).records() == old(self).records(),
            },
            unique_by_index(old(self).records()) ==> unique_by_index(final(self).records()),
            final(self).dependable() == old(self).dependable(),
            old(self).dependable() ==> (r is Err <==> no_index_left(
                old(self).records(),
                eavi@.entity,
                eavi@.index,
            )),
            old(self).dependable() && r is Ok ==> r.unwrap() is Some,
    ;

    /// Answers a query over the records of the store. A dependable store does
    /// not fail.
    fn fetch_eavi(&self, query: &EaviQuery<A>) -> (r: PersistenceResult<EaviSet<A>>)
        ensures
            r matches Ok(out) ==> is_answer(query@, self.records(), out@),
            self.dependable() ==> r is Ok,
    ;
}

/// Whether one of the records is of the given entity and has the given index.
pub fn index_taken<A: Attribute>(
    records: &[EntityAttributeValueIndex<A>],
    entity: &Address,
    index: i64,
) -> (taken: bool)
    ensures
        taken == collides(views(records@).to_set(), entity@, index),
{
    let ghost all = views(records@);
    let n = records.len();
    let mut i: usize = 0;
    while i < n
        invariant
            i <= n,
            n == records@.len(),
            all == views(records@),
            forall|k: int|
                0 <= k < i ==> !((#[trigger] all[k]).entity == entity@ && all[k].index == index),
        decreases n - i,
    {
        if records[i].index() == index && records[i].entity_ref().same(entity) {
            assert(all.to_set().contains(all[i as int]));
            return true;
        }
        i = i + 1;
    }
    proof {
        assert forall|y: EaviView| #[trigger]
            all.to_set().contains(y) implies !(y.entity == entity@ && y.index == index) by {
            let k = choose|k: int| 0 <= k < all.len() && all[k] == y;
            assert(all[k] == y);
        }
    }
    false
}

/// Gives the record the first index, from its own on, that no record of its
/// entity in `map` has. Fails where every index from its own on is taken.
pub fn increment_key_till_no_collision<A: Attribute>(
    eav: EntityAttributeValueIndex<A>,
    map: &EaviSet<A>,
) -> (r: PersistenceResult<EntityAttributeValueIndex<A>>)
    ensures
        match r {
            Ok(stored) => stored@ == (EaviView { index: stored@.index, ..eav@ })
                && first_free_index(map.set(), eav@.entity, eav@.index, stored@.index),
            Err(e) => e is ErrorGeneric && forall|j: i64|
                eav@.index <= j ==> collides(map.set(), eav@.entity, j),
        },
{
    let ghost given = eav@;
    let records = map.as_slice();
    let entity = eav.entity();
    let mut index = eav.index();
    loop
        invariant
            views(records@) == map@,
            entity@ == given.entity,
            given.index <= index,
            eav@ == given,
            map.set() == views(records@).to_set(),
            forall|j: i64| given.index <= j < index ==> collides(map.set(), given.entity, j),
        decreases i64::MAX - index,
    {
        if !index_taken(records, &entity, index) {
            let mut stored = eav;
            stored.set_index(index);
            return Ok(stored);
        }
        if index == i64::MAX {
            return Err(PersistenceError::generic("No index is left for the record"));
        }
        index = index + 1;
    }
}

} // verus!
