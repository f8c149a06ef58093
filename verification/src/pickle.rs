//! What a store in a single file of keys and values decides: the key of a
//! record, the index under which a record is kept, and the space that the
//! store reports.

use crate::eav::eavi::{Attribute, EaviView, EntityAttributeValueIndex};
use crate::eav::set::{views, EaviSet};
use crate::error::{PersistenceError, PersistenceResult};
use crate::hash::text_key;
use crate::json::{decimal, decimal_text};
use crate::reporting::StorageReport;
use vstd::prelude::*;
use vstd::string::*;

verus! {

/// The key under which a record is kept: its index in decimal.
pub fn record_key(index: i64) -> (key: String)
    ensures
        key@ == decimal_text(index),
{
    decimal(index)
}

/// One of the records has the index.
pub open spec fn index_held(all: Set<EaviView>, index: i64) -> bool {
    exists|y: EaviView| #[trigger] all.contains(y) && y.index == index
}

/// Whether one of the records has the index.
pub fn index_is_held<A: Attribute>(records: &[EntityAttributeValueIndex<A>], index: i64) -> (held:
    bool)
    ensures
        held == index_held(views(records@).to_set(), index),
{
    let ghost all = views(records@);
    let n = records.len();
    let mut i: usize = 0;
    while i < n
        invariant
            i <= n,
            n == records@.len(),
            all == views(records@),
            forall|k: int| 0 <= k < i ==> (#[trigger] all[k]).index != index,
        decreases n - i,
    {
        if records[i].index() == index {
            assert(all.to_set().contains(all[i as int]));
            return true;
        }
        i = i + 1;
    }
    proof {
        assert forall|y: EaviView| #[trigger] all.to_set().contains(y) implies y.index
            != index by {
            let k = choose|k: int| 0 <= k < all.len() && all[k] == y;
            assert(all[k] == y);
        }
    }
    false
}

/// Gives the record the first index, from its own on, that no record of the
/// store has, whatever its entity: the store keeps its records by their index
/// alone. Fails where every index from its own on is taken.
pub fn place_by_index<A: Attribute>(eav: EntityAttributeValueIndex<A>, held: &EaviSet<A>) -> (r:
    PersistenceResult<EntityAttributeValueIndex<A>>)
    ensures
        match r {
            Ok(stored) => {
                &&& stored@ == (EaviView { index: stored@.index, ..eav@ })
                &&& eav@.index <= stored@.index
                &&& !index_held(held.set(), stored@.index)
                &&& forall|j: i64| eav@.index <= j < stored@.index ==> index_held(held.set(), j)
            },
            Err(e) => e is ErrorGeneric && forall|j: i64|
                eav@.index <= j ==> index_held(held.set(), j),
        },
{
    let ghost given = eav@;
    let records = held.as_slice();
    let mut index = eav.index();
    loop
        invariant
            views(records@) == held@,
            given.index <= index,
            eav@ == given,
            held.set() == views(records@).to_set(),
            forall|j: i64| given.index <= j < index ==> index_held(held.set(), j),
        decreases i64::MAX - index,
    {
        if !index_is_held(records, index) {
            let mut stored = eav;
            stored.set_index(index);
            return Ok(stored);
        }
        if index == i64::MAX {
            return Err(PersistenceError::generic("No index is left for the record"));
        }
        index = index + 1;
    }
}

/// The bytes that the texts take together.
pub open spec fn bytes_of(contents: Seq<String>) -> nat
    decreases contents.len(),
{
    if contents.len() == 0 {
        0
    } else {
        bytes_of(contents.drop_last()) + text_key(contents.last()@).len()
    }
}

/// The bytes of fewer texts are at most the bytes of more.
proof fn lemma_bytes_grow(contents: Seq<String>, i: int, j: int)
    requires
        0 <= i <= j <= contents.len(),
    ensures
        bytes_of(contents.take(i)) <= bytes_of(contents.take(j)),
    decreases j - i,
{
    if i < j {
        lemma_bytes_grow(contents, i, j - 1);
        assert(contents.take(j).drop_last() =~= contents.take(j - 1));
    }
}

/// The report of a store that holds the given texts: the bytes that they
/// take together. There is none where they are more than the machine can
/// count.
pub fn report_of(contents: &[String]) -> (r: Option<StorageReport>)
    ensures
        match r {
            Some(report) => report.bytes_total == bytes_of(contents@),
            None => bytes_of(contents@) > usize::MAX,
        },
{
    let n = contents.len();
    let mut total: usize = 0;
    let mut i: usize = 0;
    proof {
        assert(contents@.take(0) =~= Seq::<String>::empty());
    }
    while i < n
        invariant
            i <= n,
            n == contents@.len(),
            total == bytes_of(contents@.take(i as int)),
        decreases n - i,
    {
        let bytes = contents[i].as_str().as_bytes().len();
        proof {
            assert(contents@.take(i + 1).drop_last() =~= contents@.take(i as int));
            assert(contents@.take(i + 1).last() == contents@[i as int]);
            lemma_bytes_grow(contents@, i + 1, n as int);
            assert(contents@.take(n as int) =~= contents@);
        }
        total = match total.checked_add(bytes) {
            Some(sum) => sum,
            None => {
                return None;
            },
        };
        i = i + 1;
    }
    proof {
        assert(contents@.take(n as int) =~= contents@);
    }
    Some(StorageReport::new(total))
}

} // verus!
