//! Ordered sets of records.
//!
//! A set holds each record at most once and keeps its records in the order of
//! records.

use crate::eav::eavi::{
    lemma_record_asymmetric, lemma_record_flip, lemma_record_same, lemma_record_transitive,
    record_precedes, Attribute, EaviView, EntityAttributeValueIndex,
};
use crate::order::Precedence;
use vstd::prelude::*;

verus! {

/// What a sequence of records says, record by record.
pub open spec fn views<A: Attribute>(records: Seq<EntityAttributeValueIndex<A>>) -> Seq<
    EaviView,
> {
    records.map_values(|r: EntityAttributeValueIndex<A>| r@)
}

/// Every record of the sequence comes strictly before those that follow it.
pub open spec fn strictly_sorted(s: Seq<EaviView>) -> bool {
    forall|i: int, j: int| 0 <= i < j < s.len() ==> record_precedes(#[trigger] s[i], #[trigger] s[j])
}

/// A sorted sequence holds no record twice.
pub proof fn lemma_sorted_distinct(s: Seq<EaviView>)
    requires
        strictly_sorted(s),
    ensures
        s.no_duplicates(),
{
    assert forall|i: int, j: int| 0 <= i < s.len() && 0 <= j < s.len() && i != j implies s[i]
        != s[j] by {
        if i < j {
            lemma_record_asymmetric(s[i], s[j]);
        } else {
            lemma_record_asymmetric(s[j], s[i]);
        }
    }
}

/// Two sorted sequences that hold the same records are the same sequence.
pub proof fn lemma_sorted_unique(s: Seq<EaviView>, t: Seq<EaviView>)
    requires
        strictly_sorted(s),
        strictly_sorted(t),
        s.to_set() == t.to_set(),
    ensures
        s == t,
    decreases s.len(),
{
    if s.len() == 0 {
        if t.len() > 0 {
            assert(t.to_set().contains(t[0]));
            assert(s.contains(t[0]));
        }
        assert(s =~= t);
    } else if t.len() == 0 {
        assert(s.to_set().contains(s[0]));
        assert(t.contains(s[0]));
    } else {
        // The last records agree: each is the greatest of the common set.
        let a = s.last();
        let b = t.last();
        assert(s.to_set().contains(a));
        assert(t.contains(a));
        assert(t.to_set().contains(b));
        assert(s.contains(b));
        let ia = choose|i: int| 0 <= i < t.len() && t[i] == a;
        let ib = choose|i: int| 0 <= i < s.len() && s[i] == b;
        if a != b {
            assert(ia < t.len() - 1);
            assert(ib < s.len() - 1);
            assert(record_precedes(t[ia], t[t.len() - 1]));
            assert(record_precedes(s[ib], s[s.len() - 1]));
            lemma_record_asymmetric(a, b);
        }
        let s0 = s.drop_last();
        let t0 = t.drop_last();
        lemma_sorted_distinct(s);
        lemma_sorted_distinct(t);
        assert forall|x: EaviView| s0.to_set().contains(x) <==> t0.to_set().contains(x) by {
            if s0.contains(x) {
                let i = choose|i: int| 0 <= i < s0.len() && s0[i] == x;
                assert(s[i] == x);
                assert(s.to_set().contains(x));
                assert(t.contains(x));
                let j = choose|j: int| 0 <= j < t.len() && t[j] == x;
                assert(x != a);
                assert(t0[j] == x);
            }
            if t0.contains(x) {
                let i = choose|i: int| 0 <= i < t0.len() && t0[i] == x;
                assert(t[i] == x);
                assert(t.to_set().contains(x));
                assert(s.contains(x));
                let j = choose|j: int| 0 <= j < s.len() && s[j] == x;
                assert(x != b);
                assert(s0[j] == x);
            }
        }
        assert(s0.to_set() =~= t0.to_set());
        lemma_sorted_unique(s0, t0);
        assert(s =~= s0.push(a));
        assert(t =~= t0.push(b));
    }
}

/// Where a record stands in a sorted vector: the number of records before it,
/// and whether the record at that place is the record itself.
fn locate<A: Attribute>(
    records: &Vec<EntityAttributeValueIndex<A>>,
    record: &EntityAttributeValueIndex<A>,
) -> (place: (usize, bool))
    requires
        strictly_sorted(views(records@)),
    ensures
        place.0 <= records@.len(),
        forall|k: int| 0 <= k < place.0 ==> record_precedes(#[trigger] views(records@)[k], record@),
        place.1 ==> place.0 < records@.len() && views(records@)[place.0 as int] == record@,
        !place.1 ==> forall|k: int|
            place.0 <= k < records@.len() ==> record_precedes(
                record@,
                #[trigger] views(records@)[k],
            ),
        place.1 == views(records@).contains(record@),
{
    let ghost all = views(records@);
    let n = records.len();
    let mut p: usize = 0;
    while p < n && records[p].compare(record) == Precedence::Before
        invariant
            n == records@.len(),
            p <= n,
            all == views(records@),
            forall|k: int| 0 <= k < p ==> record_precedes(#[trigger] all[k], record@),
        decreases n - p,
    {
        p = p + 1;
    }
    let found = p < n && records[p].same(record);
    proof {
        if p < n && !found {
            lemma_record_flip(all[p as int], record@);
            lemma_record_same(all[p as int], record@);
            assert forall|k: int| p <= k < n implies record_precedes(record@, #[trigger] all[k]) by {
                if k > p {
                    lemma_record_transitive(record@, all[p as int], all[k]);
                }
            }
        }
        if !found {
            assert forall|k: int| 0 <= k < n implies all[k] != record@ by {
                if k < p {
                    lemma_record_asymmetric(all[k], record@);
                } else {
                    lemma_record_asymmetric(record@, all[k]);
                }
            }
        }
    }
    (p, found)
}

/// An ordered set of records.
#[derive(Debug, PartialEq, Eq)]
pub struct EaviSet<A: Attribute> {
    records: Vec<EntityAttributeValueIndex<A>>,
}

impl<A: Attribute> View for EaviSet<A> {
    type V = Seq<EaviView>;

    closed spec fn view(&self) -> Seq<EaviView> {
        views(self.records@)
    }
}

impl<A: Attribute> EaviSet<A> {
    #[verifier::type_invariant]
    spec fn in_order(&self) -> bool {
        strictly_sorted(views(self.records@))
    }

    /// The records of the set.
    pub open spec fn set(&self) -> Set<EaviView> {
        self@.to_set()
    }

    /// The empty set.
    pub fn new() -> (r: EaviSet<A>)
        ensures
            r@ == Seq::<EaviView>::empty(),
    {
        let r = EaviSet { records: Vec::new() };
        assert(r@ =~= Seq::<EaviView>::empty());
        r
    }

    /// Does nothing, and tells the caller that the records are in order.
    pub fn ordered(&self)
        ensures
            strictly_sorted(self@),
            self@.no_duplicates(),
    {
        proof {
            use_type_invariant(self);
            lemma_sorted_distinct(self@);
        }
    }

    /// The number of records.
    pub fn len(&self) -> (n: usize)
        ensures
            n == self@.len(),
    {
        self.records.len()
    }

    /// Whether the set holds no record.
    pub fn is_empty(&self) -> (b: bool)
        ensures
            b == (self@.len() == 0),
    {
        self.records.len() == 0
    }

    /// The record at the given place in the order, if there is one.
    pub fn get(&self, i: usize) -> (r: Option<&EntityAttributeValueIndex<A>>)
        ensures
            i < self@.len() ==> r is Some && r.unwrap()@ == self@[i as int],
            i >= self@.len() ==> r is None,
    {
        if i < self.records.len() {
            Some(&self.records[i])
        } else {
            None
        }
    }

    /// The records in order.
    pub fn as_slice(&self) -> (r: &[EntityAttributeValueIndex<A>])
        ensures
            views(r@) == self@,
            strictly_sorted(self@),
    {
        proof {
            use_type_invariant(self);
        }
        self.records.as_slice()
    }

    /// Whether the set holds the record.
    pub fn contains(&self, record: &EntityAttributeValueIndex<A>) -> (b: bool)
        ensures
            b == self@.contains(record@),
    {
        proof {
            use_type_invariant(self);
        }
        locate(&self.records, record).1
    }

    /// Puts the record into the set, at its place in the order. Returns whether
    /// the set did not hold it before.
    pub fn insert(&mut self, record: EntityAttributeValueIndex<A>) -> (added: bool)
        ensures
            strictly_sorted(final(self)@),
            final(self)@.to_set() == old(self)@.to_set().insert(record@),
            added == !old(self)@.contains(record@),
            added ==> final(self)@.len() == old(self)@.len() + 1,
            !added ==> final(self)@ == old(self)@,
    {
        proof {
            use_type_invariant(&*self);
        }
        let ghost before = views(self.records@);
        let ghost x = record@;
        let (p, found) = locate(&self.records, &record);
        if found {
            assert(before.to_set().insert(x) =~= before.to_set());
            return false;
        }
        let mut records: Vec<EntityAttributeValueIndex<A>> = Vec::new();
        core::mem::swap(&mut self.records, &mut records);
        records.insert(p, record);
        proof {
            let after = views(records@);
            assert(after =~= before.insert(p as int, x));
            assert forall|i: int, j: int| 0 <= i < j < after.len() implies record_precedes(
                #[trigger] after[i],
                #[trigger] after[j],
            ) by {
                if i < p && j > p {
                    assert(record_precedes(before[i], before[j - 1]));
                } else if i < p && j < p {
                    assert(record_precedes(before[i], before[j]));
                } else if i > p {
                    assert(record_precedes(before[i - 1], before[j - 1]));
                }
            }
            assert forall|y: EaviView| after.to_set().contains(y) <==> before.to_set().insert(
                x,
            ).contains(y) by {
                if after.contains(y) {
                    let i = choose|i: int| 0 <= i < after.len() && after[i] == y;
                    if i < p {
                        assert(before[i] == y);
                    } else if i > p {
                        assert(before[i - 1] == y);
                    }
                }
                if before.contains(y) {
                    let i = choose|i: int| 0 <= i < before.len() && before[i] == y;
                    if i < p {
                        assert(after[i] == y);
                    } else {
                        assert(after[i + 1] == y);
                    }
                }
                if y == x {
                    assert(after[p as int] == y);
                }
            }
            assert(after.to_set() =~= before.to_set().insert(x));
        }
        core::mem::swap(&mut self.records, &mut records);
        true
    }

    /// Keeps the first `len` records and drops the rest.
    pub fn truncate(&mut self, len: usize)
        ensures
            final(self)@ == old(self)@.take(
                if len <= old(self)@.len() {
                    len as int
                } else {
                    old(self)@.len() as int
                },
            ),
            strictly_sorted(final(self)@),
    {
        proof {
            use_type_invariant(&*self);
        }
        let ghost before = views(self.records@);
        let mut records: Vec<EntityAttributeValueIndex<A>> = Vec::new();
        core::mem::swap(&mut self.records, &mut records);
        records.truncate(len);
        proof {
            let after = views(records@);
            let kept = if len <= before.len() {
                len as int
            } else {
                before.len() as int
            };
            assert(after =~= before.take(kept));
        }
        core::mem::swap(&mut self.records, &mut records);
    }

    /// Whether two sets hold the same records.
    pub fn same_as(&self, other: &EaviSet<A>) -> (b: bool)
        ensures
            b == (self@ == other@),
            b == (self.set() == other.set()),
    {
        proof {
            use_type_invariant(self);
            use_type_invariant(other);
            if self.set() == other.set() {
                lemma_sorted_unique(self@, other@);
            }
        }
        let n = self.records.len();
        if n != other.records.len() {
            return false;
        }
        let mut i: usize = 0;
        while i < n
            invariant
                i <= n,
                n == self.records@.len(),
                n == other.records@.len(),
                forall|k: int| 0 <= k < i ==> self@[k] == other@[k],
                self.set() == other.set() ==> self@ == other@,
            decreases n - i,
        {
            if !self.records[i].same(&other.records[i]) {
                assert(self@[i as int] != other@[i as int]);
                return false;
            }
            i = i + 1;
        }
        assert(self@ =~= other@);
        true
    }
}

impl<A: Attribute> Clone for EaviSet<A> {
    fn clone(&self) -> (r: Self)
        ensures
            r@ == self@,
    {
        proof {
            use_type_invariant(self);
        }
        let mut records: Vec<EntityAttributeValueIndex<A>> = Vec::new();
        let n = self.records.len();
        let mut i: usize = 0;
        while i < n
            invariant
                i <= n,
                n == self.records@.len(),
                views(records@) =~= views(self.records@).take(i as int),
            decreases n - i,
        {
            let ghost grown = views(records@);
            records.push(self.records[i].clone());
            assert(views(records@) =~= grown.push(self.records@[i as int]@));
            i = i + 1;
        }
        assert(views(records@) =~= views(self.records@));
        EaviSet { records }
    }
}

} // verus!
