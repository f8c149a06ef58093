//! Queries over records.
//!
//! A query constrains the entity, the attribute and the value of a record, each
//! on its own, says which of the matching records to keep by their index, and
//! may limit how many records are returned.

use crate::eav::eavi::{
    record_precedes, Attribute, EaviView, Entity, EntityAttributeValueIndex, Value,
};
use crate::eav::set::{strictly_sorted, views, EaviSet};
use crate::hash::text_key;
use crate::order::{bytes_precede, lemma_bytes_irreflexive, lemma_bytes_order_flip, Precedence};
use vstd::prelude::*;

verus! {

/// A constraint on one field of a record.
#[derive(Debug)]
pub enum EavFilter<T: Attribute> {
    /// Every value is accepted.
    Any,
    /// Only the given value is accepted.
    Exact(T),
    /// Each of the given values is accepted.
    Multiple(Vec<T>),
    /// The values from the first to the second, both included, are accepted.
    Range(T, T),
}

/// A constraint on one field, over the keys of the values.
pub enum FilterView {
    Any,
    Exact(Seq<u8>),
    Multiple(Seq<Seq<u8>>),
    Range(Seq<u8>, Seq<u8>),
}

/// The keys of a sequence of values.
pub open spec fn keys_of<T: Attribute>(vals: Seq<T>) -> Seq<Seq<u8>> {
    vals.map_values(|v: T| v.key())
}

/// Whether the constraint accepts the value with the given key.
pub open spec fn filter_accepts(filter: FilterView, key: Seq<u8>) -> bool {
    match filter {
        FilterView::Any => true,
        FilterView::Exact(k) => key == k,
        FilterView::Multiple(ks) => ks.contains(key),
        FilterView::Range(lo, hi) => !bytes_precede(key, lo) && !bytes_precede(hi, key),
    }
}

impl<T: Attribute> View for EavFilter<T> {
    type V = FilterView;

    open spec fn view(&self) -> FilterView {
        match self {
            EavFilter::Any => FilterView::Any,
            EavFilter::Exact(v) => FilterView::Exact(v.key()),
            EavFilter::Multiple(vs) => FilterView::Multiple(keys_of(vs@)),
            EavFilter::Range(lo, hi) => FilterView::Range(lo.key(), hi.key()),
        }
    }
}

impl<T: Attribute> Default for EavFilter<T> {
    fn default() -> (r: EavFilter<T>)
        ensures
            r@ == FilterView::Any,
    {
        EavFilter::Any
    }
}

impl<T: Attribute> EavFilter<T> {
    /// The constraint that accepts the given value alone.
    pub fn single(val: T) -> (r: EavFilter<T>)
        ensures
            r@ == FilterView::Exact(val.key()),
    {
        EavFilter::Exact(val)
    }

    /// The constraint that accepts each of the given values.
    pub fn multiple(vals: Vec<T>) -> (r: EavFilter<T>)
        ensures
            r@ == FilterView::Multiple(keys_of(vals@)),
    {
        EavFilter::Multiple(vals)
    }

    /// The constraint that accepts the values from `lo` to `hi`.
    pub fn range(lo: T, hi: T) -> (r: EavFilter<T>)
        ensures
            r@ == FilterView::Range(lo.key(), hi.key()),
    {
        EavFilter::Range(lo, hi)
    }

    /// The constraint that accepts the given value alone, or every value where
    /// none is given.
    pub fn from_option(val: Option<T>) -> (r: EavFilter<T>)
        ensures
            r@ == (match val {
                Some(v) => FilterView::Exact(v.key()),
                None => FilterView::Any,
            }),
    {
        match val {
            Some(v) => EavFilter::Exact(v),
            None => EavFilter::Any,
        }
    }

    /// Whether the constraint accepts the value.
    pub fn check(&self, val: &T) -> (b: bool)
        ensures
            b == filter_accepts(self@, val.key()),
    {
        match self {
            EavFilter::Any => true,
            EavFilter::Exact(v) => v.compare(val) == Precedence::Same,
            EavFilter::Multiple(vs) => {
                let ghost keys = keys_of(vs@);
                let n = vs.len();
                let mut i: usize = 0;
                while i < n
                    invariant
                        i <= n,
                        n == vs@.len(),
                        keys == keys_of(vs@),
                        self@ == FilterView::Multiple(keys),
                        forall|k: int| 0 <= k < i ==> keys[k] != val.key(),
                    decreases n - i,
                {
                    if vs[i].compare(val) == Precedence::Same {
                        assert(keys[i as int] == val.key());
                        assert(keys.contains(val.key()));
                        return true;
                    }
                    i = i + 1;
                }
                false
            },
            EavFilter::Range(lo, hi) => {
                proof {
                    lemma_bytes_order_flip(lo.key(), val.key());
                    lemma_bytes_irreflexive(hi.key());
                }
                lo.compare(val) != Precedence::After && hi.compare(val) != Precedence::Before
            },
        }
    }
}

/// Which of the matching records a query keeps, by their index.
#[derive(Clone, Copy, Debug, PartialEq, Eq)]
pub enum IndexFilter {
    /// Of the matching records of one entity and attribute, only the latest.
    LatestByAttribute,
    /// The matching records whose index lies within the bounds, both included.
    /// A bound that is not given does not constrain; with neither, every
    /// matching record is kept.
    Range(Option<i64>, Option<i64>),
}

/// A query over records.
#[derive(Debug)]
pub struct EaviQuery<A: Attribute> {
    pub entity: EavFilter<Entity>,
    pub attribute: EavFilter<A>,
    pub value: EavFilter<Value>,
    pub index: IndexFilter,
    pub limit: Option<usize>,
}

/// A query, over the keys of the values.
pub struct QueryView {
    pub entity: FilterView,
    pub attribute: FilterView,
    pub value: FilterView,
    pub index: IndexFilter,
    pub limit: Option<usize>,
}

impl<A: Attribute> View for EaviQuery<A> {
    type V = QueryView;

    open spec fn view(&self) -> QueryView {
        QueryView {
            entity: self.entity@,
            attribute: self.attribute@,
            value: self.value@,
            index: self.index,
            limit: self.limit,
        }
    }
}

/// The record meets the three constraints of the query.
pub open spec fn query_matches(q: QueryView, r: EaviView) -> bool {
    &&& filter_accepts(q.entity, text_key(r.entity))
    &&& filter_accepts(q.attribute, r.attribute)
    &&& filter_accepts(q.value, text_key(r.value))
}

/// The two records are of the same entity and attribute.
pub open spec fn same_subject(x: EaviView, y: EaviView) -> bool {
    x.entity == y.entity && x.attribute == y.attribute
}

/// Record `y` is of the same entity and attribute as `x` and is later: its
/// index is greater, or the indices are equal and its value comes after.
pub open spec fn supersedes(y: EaviView, x: EaviView) -> bool {
    &&& same_subject(x, y)
    &&& (x.index < y.index || (x.index == y.index && bytes_precede(
        text_key(x.value),
        text_key(y.value),
    )))
}

/// The index lies within the bounds.
pub open spec fn index_within(lo: Option<i64>, hi: Option<i64>, index: i64) -> bool {
    &&& (lo matches Some(l) ==> l <= index)
    &&& (hi matches Some(h) ==> index <= h)
}

/// The query selects record `r` from the records `all`: `r` is one of them,
/// meets the constraints, and is kept by the index filter.
pub open spec fn query_selects(q: QueryView, all: Set<EaviView>, r: EaviView) -> bool {
    &&& all.contains(r)
    &&& query_matches(q, r)
    &&& match q.index {
        IndexFilter::LatestByAttribute => forall|y: EaviView|
            all.contains(y) && query_matches(q, y) ==> !supersedes(y, r),
        IndexFilter::Range(lo, hi) => index_within(lo, hi, r.index),
    }
}

/// `out` is the answer of the query over the records `all`: the selected
/// records in order, each once; with a limit, only the first ones, as many as
/// the limit allows.
pub open spec fn is_answer(q: QueryView, all: Set<EaviView>, out: Seq<EaviView>) -> bool {
    &&& strictly_sorted(out)
    &&& forall|r: EaviView| out.contains(r) ==> query_selects(q, all, r)
    &&& match q.limit {
        None => forall|r: EaviView| query_selects(q, all, r) ==> out.contains(r),
        Some(n) => {
            &&& out.len() <= n
            &&& forall|r: EaviView| #[trigger]
                query_selects(q, all, r) && !out.contains(r) ==> {
                    &&& out.len() == n
                    &&& forall|i: int| 0 <= i < out.len() ==> record_precedes(#[trigger] out[i], r)
                }
        },
    }
}

/// Whether record `y` supersedes record `x`.
fn later_of_same_subject<A: Attribute>(
    y: &EntityAttributeValueIndex<A>,
    x: &EntityAttributeValueIndex<A>,
) -> (b: bool)
    ensures
        b == supersedes(y@, x@),
{
    if !x.entity_ref().same(y.entity_ref()) {
        return false;
    }
    if x.attribute_ref().compare(y.attribute_ref()) != Precedence::Same {
        return false;
    }
    if x.index() < y.index() {
        return true;
    }
    if x.index() > y.index() {
        return false;
    }
    proof {
        lemma_bytes_irreflexive(text_key(x@.value));
    }
    x.value_ref().compare(y.value_ref()) == Precedence::Before
}

impl<A: Attribute> Default for EaviQuery<A> {
    fn default() -> (r: EaviQuery<A>)
        ensures
            r@ == (QueryView {
                entity: FilterView::Any,
                attribute: FilterView::Any,
                value: FilterView::Any,
                index: IndexFilter::LatestByAttribute,
                limit: None,
            }),
    {
        EaviQuery::new(
            EavFilter::Any,
            EavFilter::Any,
            EavFilter::Any,
            IndexFilter::LatestByAttribute,
            None,
        )
    }
}

impl<A: Attribute> EaviQuery<A> {
    /// The query with the given constraints, index filter and limit.
    pub fn new(
        entity: EavFilter<Entity>,
        attribute: EavFilter<A>,
        value: EavFilter<Value>,
        index: IndexFilter,
        limit: Option<usize>,
    ) -> (r: EaviQuery<A>)
        ensures
            r@ == (QueryView {
                entity: entity@,
                attribute: attribute@,
                value: value@,
                index: index,
                limit: limit,
            }),
    {
        EaviQuery { entity, attribute, value, index, limit }
    }

    /// The constraint on the entity.
    pub fn entity(&self) -> (r: &EavFilter<Entity>)
        ensures
            r@ == self@.entity,
    {
        &self.entity
    }

    /// The constraint on the attribute.
    pub fn attribute(&self) -> (r: &EavFilter<A>)
        ensures
            r@ == self@.attribute,
    {
        &self.attribute
    }

    /// The constraint on the value.
    pub fn value(&self) -> (r: &EavFilter<Value>)
        ensures
            r@ == self@.value,
    {
        &self.value
    }

    /// The index filter.
    pub fn index(&self) -> (r: IndexFilter)
        ensures
            r == self@.index,
    {
        self.index
    }

    /// The limit on the number of records returned.
    pub fn limit(&self) -> (r: Option<usize>)
        ensures
            r == self@.limit,
    {
        self.limit
    }

    /// Whether the record meets the three constraints.
    pub fn matches(&self, record: &EntityAttributeValueIndex<A>) -> (b: bool)
        ensures
            b == query_matches(self@, record@),
    {
        self.entity.check(record.entity_ref()) && self.attribute.check(record.attribute_ref())
            && self.value.check(record.value_ref())
    }

    /// Whether one of the given records meets the constraints and supersedes
    /// `record`.
    fn superseded(
        &self,
        records: &[EntityAttributeValueIndex<A>],
        record: &EntityAttributeValueIndex<A>,
    ) -> (b: bool)
        ensures
            b == exists|y: EaviView|
                views(records@).to_set().contains(y) && query_matches(self@, y) && supersedes(
                    y,
                    record@,
                ),
    {
        let ghost all = views(records@);
        let n = records.len();
        let mut j: usize = 0;
        while j < n
            invariant
                j <= n,
                n == records@.len(),
                all == views(records@),
                forall|k: int|
                    0 <= k < j ==> !(query_matches(self@, #[trigger] all[k]) && supersedes(
                        all[k],
                        record@,
                    )),
            decreases n - j,
        {
            if self.matches(&records[j]) && later_of_same_subject(&records[j], record) {
                assert(all.to_set().contains(all[j as int]));
                return true;
            }
            j = j + 1;
        }
        proof {
            assert forall|y: EaviView|
                all.to_set().contains(y) && query_matches(self@, y) implies !supersedes(
                y,
                record@,
            ) by {
                let k = choose|k: int| 0 <= k < all.len() && all[k] == y;
                assert(all[k] == y);
            }
        }
        false
    }

    /// Whether the index filter keeps the record, given all the records.
    fn keeps(
        &self,
        records: &[EntityAttributeValueIndex<A>],
        record: &EntityAttributeValueIndex<A>,
    ) -> (b: bool)
        requires
            views(records@).to_set().contains(record@),
        ensures
            b == query_selects(self@, views(records@).to_set(), record@),
    {
        if !self.matches(record) {
            return false;
        }
        match self.index {
            IndexFilter::LatestByAttribute => !self.superseded(records, record),
            IndexFilter::Range(lo, hi) => {
                let above = match lo {
                    Some(l) => l <= record.index(),
                    None => true,
                };
                let below = match hi {
                    Some(h) => record.index() <= h,
                    None => true,
                };
                above && below
            },
        }
    }

    /// Answers the query over the given records: the records that meet the
    /// constraints and that the index filter keeps, in order and each once,
    /// cut off at the limit.
    pub fn run(&self, records: &[EntityAttributeValueIndex<A>]) -> (out: EaviSet<A>)
        ensures
            is_answer(self@, views(records@).to_set(), out@),
    {
        let ghost all_seq = views(records@);
        let ghost all = all_seq.to_set();
        let mut out: EaviSet<A> = EaviSet::new();
        let n = records.len();
        let mut i: usize = 0;
        while i < n
            invariant
                i <= n,
                n == records@.len(),
                all_seq == views(records@),
                all == all_seq.to_set(),
                forall|r: EaviView| out@.contains(r) ==> query_selects(self@, all, r),
                forall|k: int|
                    0 <= k < i && query_selects(self@, all, #[trigger] all_seq[k])
                        ==> out@.contains(all_seq[k]),
            decreases n - i,
        {
            assert(all.contains(all_seq[i as int]));
            if self.keeps(records, &records[i]) {
                let ghost before = out@;
                out.insert(records[i].clone());
                proof {
                    assert forall|r: EaviView| out@.contains(r) implies query_selects(
                        self@,
                        all,
                        r,
                    ) by {
                        assert(out@.to_set().contains(r));
                        assert(before.to_set().insert(all_seq[i as int]).contains(r));
                    }
                    assert forall|k: int|
                        0 <= k < i + 1 && query_selects(
                            self@,
                            all,
                            #[trigger] all_seq[k],
                        ) implies out@.contains(all_seq[k]) by {
                        assert(before.to_set().insert(all_seq[i as int]).contains(all_seq[k]));
                        assert(out@.to_set().contains(all_seq[k]));
                    }
                }
            }
            i = i + 1;
        }
        out.ordered();
        proof {
            assert forall|r: EaviView| query_selects(self@, all, r) implies out@.contains(r) by {
                let k = choose|k: int| 0 <= k < all_seq.len() && all_seq[k] == r;
                assert(all_seq[k] == r);
            }
        }
        match self.limit {
            None => {},
            Some(limit) => {
                let ghost full = out@;
                out.truncate(limit);
                proof {
                    let kept = out@.len() as int;
                    assert forall|r: EaviView| out@.contains(r) implies query_selects(
                        self@,
                        all,
                        r,
                    ) by {
                        let k = choose|k: int| 0 <= k < out@.len() && out@[k] == r;
                        assert(full[k] == r);
                        assert(full.contains(r));
                    }
                    assert forall|r: EaviView| #[trigger]
                        query_selects(self@, all, r) && !out@.contains(r) implies {
                        &&& out@.len() == limit
                        &&& forall|i: int|
                            0 <= i < out@.len() ==> record_precedes(#[trigger] out@[i], r)
                    } by {
                        let k = choose|k: int| 0 <= k < full.len() && full[k] == r;
                        if k < kept {
                            assert(out@[k] == r);
                        }
                        assert forall|i: int| 0 <= i < out@.len() implies record_precedes(
                            #[trigger] out@[i],
                            r,
                        ) by {
                            assert(out@[i] == full[i]);
                        }
                    }
                }
            },
        }
        out
    }
}

} // verus!
