use holochain_persistence::eav::eavi::{EntityAttributeValueIndex, ExampleAttribute};
use holochain_persistence::eav::query::{EavFilter, EaviQuery, IndexFilter};
use holochain_persistence::eav::set::EaviSet;
use holochain_persistence::eav::storage::{
    increment_key_till_no_collision, index_taken, EntityAttributeValueStorage,
};
use holochain_persistence::error::PersistenceError;
use holochain_persistence::hash::Address;
use holochain_persistence::mem::eav::EavMemoryStorage;

type Record = EntityAttributeValueIndex<ExampleAttribute>;

fn attr(payload: &str) -> ExampleAttribute {
    ExampleAttribute::WithPayload(payload.to_string())
}

fn rec(entity: &str, attribute: &str, value: &str, index: i64) -> Record {
    EntityAttributeValueIndex::new_with_index(
        &Address::from_text(entity),
        &attr(attribute),
        &Address::from_text(value),
        index,
    )
    .unwrap()
}

fn set_of(records: &[Record]) -> EaviSet<ExampleAttribute> {
    let mut set = EaviSet::new();
    for r in records {
        set.insert(r.clone());
    }
    set
}

fn entity(e: &str) -> EavFilter<Address> {
    EavFilter::single(Address::from_text(e))
}

fn all_of(e: EavFilter<Address>, a: EavFilter<ExampleAttribute>, v: EavFilter<Address>)
    -> EaviQuery<ExampleAttribute> {
    EaviQuery::new(e, a, v, IndexFilter::Range(None, None), None)
}

fn latest_of(e: EavFilter<Address>, a: EavFilter<ExampleAttribute>, v: EavFilter<Address>)
    -> EaviQuery<ExampleAttribute> {
    EaviQuery::new(e, a, v, IndexFilter::LatestByAttribute, None)
}

#[test]
fn filters_accept_what_they_say() {
    let any: EavFilter<ExampleAttribute> = EavFilter::default();
    assert!(any.check(&attr("x")));
    assert!(any.check(&ExampleAttribute::WithoutPayload));
    let exact = EavFilter::single(attr("b"));
    assert!(exact.check(&attr("b")));
    assert!(!exact.check(&attr("a")));
    assert!(!exact.check(&ExampleAttribute::WithoutPayload));
    let several = EavFilter::multiple(vec![attr("a"), attr("c")]);
    assert!(several.check(&attr("a")));
    assert!(!several.check(&attr("b")));
    assert!(several.check(&attr("c")));
    assert!(!EavFilter::multiple(vec![]).check(&attr("a")));
    let range = EavFilter::range(attr("b"), attr("d"));
    assert!(!range.check(&attr("a")));
    assert!(range.check(&attr("b")));
    assert!(range.check(&attr("c")));
    assert!(range.check(&attr("d")));
    assert!(!range.check(&attr("da")));
    assert!(!range.check(&ExampleAttribute::WithoutPayload));
    assert!(!EavFilter::range(attr("d"), attr("b")).check(&attr("c")));
    assert!(EavFilter::from_option(None).check(&attr("q")));
    assert!(EavFilter::from_option(Some(attr("q"))).check(&attr("q")));
    assert!(!EavFilter::from_option(Some(attr("q"))).check(&attr("r")));
}

#[test]
fn set_keeps_records_in_order_and_once() {
    let mut set = EaviSet::new();
    assert!(set.is_empty());
    assert!(set.insert(rec("b", "x", "v", 1)));
    assert!(set.insert(rec("a", "x", "v", 2)));
    assert!(set.insert(rec("a", "x", "v", 1)));
    assert!(!set.insert(rec("a", "x", "v", 2)));
    assert!(set.insert(rec("a", "w", "z", 9)));
    assert_eq!(set.len(), 4);
    assert_eq!(
        set.as_slice(),
        &[rec("a", "w", "z", 9), rec("a", "x", "v", 1), rec("a", "x", "v", 2), rec("b", "x", "v", 1)]
            [..]
    );
    assert!(set.contains(&rec("a", "x", "v", 2)));
    assert!(!set.contains(&rec("a", "x", "v", 3)));
    assert_eq!(set.get(0), Some(&rec("a", "w", "z", 9)));
    assert_eq!(set.get(4), None);
    assert!(set.same_as(&set.clone()));
    let mut shorter = set.clone();
    shorter.truncate(2);
    assert_eq!(shorter.len(), 2);
    assert!(!shorter.same_as(&set));
    assert_eq!(shorter, set_of(&[rec("a", "x", "v", 1), rec("a", "w", "z", 9)]));
    shorter.truncate(7);
    assert_eq!(shorter.len(), 2);
}

#[test]
fn query_constraints_are_independent() {
    let records = [rec("e", "a", "v", 1)];
    let right_e = || entity("e");
    let right_a = || EavFilter::single(attr("a"));
    let right_v = || entity("v");
    let any_e = || EavFilter::<Address>::Any;
    let any_a = || EavFilter::<ExampleAttribute>::Any;
    let expected = set_of(&records);
    for query in [
        latest_of(right_e(), right_a(), right_v()),
        latest_of(any_e(), right_a(), right_v()),
        latest_of(right_e(), any_a(), right_v()),
        latest_of(right_e(), right_a(), any_e()),
        latest_of(any_e(), any_a(), right_v()),
        latest_of(any_e(), right_a(), any_e()),
        latest_of(right_e(), any_a(), any_e()),
        latest_of(any_e(), any_a(), any_e()),
        EaviQuery::default(),
    ] {
        assert_eq!(query.run(&records), expected);
    }
    for query in [
        latest_of(entity("x"), right_a(), right_v()),
        latest_of(right_e(), EavFilter::single(attr("x")), right_v()),
        latest_of(right_e(), right_a(), entity("x")),
        latest_of(entity("v"), any_a(), entity("e")),
        all_of(entity("x"), any_a(), any_e()),
    ] {
        assert_eq!(query.run(&records), EaviSet::new());
    }
}

#[test]
fn latest_by_attribute_keeps_the_greatest_index_of_each_subject() {
    let records = [
        rec("e", "a", "v1", 1),
        rec("e", "a", "v2", 3),
        rec("e", "a", "v3", 2),
        rec("e", "b", "v1", 1),
        rec("f", "a", "v1", 7),
        rec("f", "a", "v0", 7),
    ];
    assert_eq!(
        latest_of(EavFilter::Any, EavFilter::Any, EavFilter::Any).run(&records),
        set_of(&[rec("e", "a", "v2", 3), rec("e", "b", "v1", 1), rec("f", "a", "v1", 7)])
    );
    // Only the records that meet the constraints count.
    assert_eq!(
        latest_of(EavFilter::Any, EavFilter::Any, entity("v1")).run(&records),
        set_of(&[rec("e", "a", "v1", 1), rec("e", "b", "v1", 1), rec("f", "a", "v1", 7)])
    );
    assert_eq!(
        all_of(entity("e"), EavFilter::single(attr("a")), EavFilter::Any).run(&records),
        set_of(&[rec("e", "a", "v1", 1), rec("e", "a", "v2", 3), rec("e", "a", "v3", 2)])
    );
}

#[test]
fn index_range_and_limit() {
    let records = [
        rec("e", "a", "v", 5),
        rec("e", "a", "v", 1),
        rec("e", "a", "v", 3),
        rec("e", "a", "v", 3),
        rec("e", "a", "v", 4),
        rec("e", "a", "v", 2),
    ];
    let ranged = |lo, hi, limit| {
        EaviQuery::new(
            EavFilter::Any,
            EavFilter::<ExampleAttribute>::Any,
            EavFilter::Any,
            IndexFilter::Range(lo, hi),
            limit,
        )
        .run(&records)
    };
    assert_eq!(ranged(None, None, None).len(), 5);
    assert_eq!(
        ranged(Some(2), Some(4), None),
        set_of(&[rec("e", "a", "v", 2), rec("e", "a", "v", 3), rec("e", "a", "v", 4)])
    );
    assert_eq!(ranged(Some(4), None, None), set_of(&[rec("e", "a", "v", 4), rec("e", "a", "v", 5)]));
    assert_eq!(ranged(None, Some(1), None), set_of(&[rec("e", "a", "v", 1)]));
    assert_eq!(ranged(Some(4), Some(2), None), EaviSet::new());
    assert_eq!(ranged(None, None, Some(2)), set_of(&[rec("e", "a", "v", 1), rec("e", "a", "v", 2)]));
    assert_eq!(ranged(None, None, Some(0)), EaviSet::new());
    assert_eq!(ranged(None, None, Some(9)).len(), 5);
    let query = EaviQuery::<ExampleAttribute>::new(
        EavFilter::Any,
        EavFilter::Any,
        EavFilter::Any,
        IndexFilter::Range(Some(1), None),
        Some(3),
    );
    assert_eq!(query.index(), IndexFilter::Range(Some(1), None));
    assert_eq!(query.limit(), Some(3));
    assert!(query.entity().check(&Address::from_text("z")));
    assert!(query.attribute().check(&attr("z")));
    assert!(query.value().check(&Address::from_text("z")));
    assert!(query.matches(&rec("e", "a", "v", 0)));
}

#[test]
fn attribute_range_and_several_attributes() {
    let records = [rec("e", "a", "v", 1), rec("e", "b", "v", 2), rec("e", "c", "v", 3)];
    assert_eq!(
        all_of(EavFilter::Any, EavFilter::range(attr("b"), attr("c")), EavFilter::Any)
            .run(&records),
        set_of(&[rec("e", "b", "v", 2), rec("e", "c", "v", 3)])
    );
    assert_eq!(
        all_of(EavFilter::Any, EavFilter::multiple(vec![attr("c"), attr("a")]), EavFilter::Any)
            .run(&records),
        set_of(&[rec("e", "a", "v", 1), rec("e", "c", "v", 3)])
    );
}

#[test]
fn store_gives_a_taken_index_the_next_free_one() {
    let mut store: EavMemoryStorage<ExampleAttribute> = EavMemoryStorage::new();
    let given = rec("e", "a", "v", 10);
    assert_eq!(store.add_eavi(&given), Ok(Some(rec("e", "a", "v", 10))));
    assert_eq!(store.add_eavi(&given), Ok(Some(rec("e", "a", "v", 11))));
    assert_eq!(store.add_eavi(&rec("e", "b", "w", 10)), Ok(Some(rec("e", "b", "w", 12))));
    // Another entity may have the same index.
    assert_eq!(store.add_eavi(&rec("f", "a", "v", 10)), Ok(Some(rec("f", "a", "v", 10))));
    assert!(store.holds(&rec("e", "a", "v", 11)));
    assert!(!store.holds(&rec("e", "a", "v", 12)));
    // Both records are found; the later one is the latest.
    let history = all_of(entity("e"), EavFilter::single(attr("a")), entity("v"));
    assert_eq!(
        store.fetch_eavi(&history),
        Ok(set_of(&[rec("e", "a", "v", 10), rec("e", "a", "v", 11)]))
    );
    let latest = latest_of(entity("e"), EavFilter::single(attr("a")), entity("v"));
    assert_eq!(store.fetch_eavi(&latest), Ok(set_of(&[rec("e", "a", "v", 11)])));
    assert_eq!(store.as_set().len(), 4);
}

#[test]
fn store_fails_where_no_index_is_left() {
    let mut store: EavMemoryStorage<ExampleAttribute> = EavMemoryStorage::new();
    let last = rec("e", "a", "v", i64::MAX);
    assert_eq!(store.add_eavi(&last), Ok(Some(last.clone())));
    assert_eq!(
        store.add_eavi(&last),
        Err(PersistenceError::ErrorGeneric("No index is left for the record".to_string()))
    );
    assert_eq!(store.add_eavi(&rec("e", "a", "v", i64::MAX - 1)), Ok(Some(rec("e", "a", "v", i64::MAX - 1))));
    assert_eq!(store.as_set().len(), 2);
}

#[test]
fn increment_finds_the_first_free_index() {
    let set = set_of(&[rec("e", "a", "v", 1), rec("e", "b", "w", 2), rec("f", "a", "v", 3)]);
    assert!(index_taken(set.as_slice(), &Address::from_text("e"), 2));
    assert!(!index_taken(set.as_slice(), &Address::from_text("e"), 3));
    assert!(!index_taken(set.as_slice(), &Address::from_text("g"), 1));
    assert_eq!(increment_key_till_no_collision(rec("e", "z", "z", 1), &set), Ok(rec("e", "z", "z", 3)));
    assert_eq!(increment_key_till_no_collision(rec("e", "z", "z", 0), &set), Ok(rec("e", "z", "z", 0)));
    assert_eq!(increment_key_till_no_collision(rec("f", "z", "z", 3), &set), Ok(rec("f", "z", "z", 4)));
}

#[test]
fn insert_if_free_keeps_the_record_as_it_is() {
    let mut store: EavMemoryStorage<ExampleAttribute> = EavMemoryStorage::new();
    assert!(store.insert_if_free(rec("e", "a", "v", 1)));
    assert!(!store.insert_if_free(rec("e", "a", "v", 1)));
    assert!(!store.insert_if_free(rec("e", "b", "w", 1)));
    assert!(store.insert_if_free(rec("e", "b", "w", 2)));
    assert_eq!(store.as_set(), &set_of(&[rec("e", "a", "v", 1), rec("e", "b", "w", 2)]));
}

#[test]
fn absorb_passes_over_what_is_held_and_reindexes_what_collides() {
    let mut primary: EavMemoryStorage<ExampleAttribute> = EavMemoryStorage::new();
    primary.insert_if_free(rec("e", "a", "v", 1));
    primary.insert_if_free(rec("e", "a", "v", 2));
    let mut staged: EavMemoryStorage<ExampleAttribute> = EavMemoryStorage::new();
    staged.insert_if_free(rec("e", "a", "v", 1));
    staged.insert_if_free(rec("e", "b", "w", 2));
    staged.insert_if_free(rec("f", "a", "v", 1));
    assert_eq!(primary.absorb(&staged), Ok(()));
    assert_eq!(
        primary.as_set(),
        &set_of(&[
            rec("e", "a", "v", 1),
            rec("e", "a", "v", 2),
            rec("e", "b", "w", 3),
            rec("f", "a", "v", 1)
        ])
    );
}

#[test]
fn absorb_that_fails_changes_nothing() {
    let mut primary: EavMemoryStorage<ExampleAttribute> = EavMemoryStorage::new();
    primary.insert_if_free(rec("e", "a", "v", i64::MAX));
    let mut staged: EavMemoryStorage<ExampleAttribute> = EavMemoryStorage::new();
    staged.insert_if_free(rec("a", "a", "v", 1));
    staged.insert_if_free(rec("e", "b", "w", i64::MAX));
    assert!(primary.absorb(&staged).is_err());
    assert_eq!(primary.as_set(), &set_of(&[rec("e", "a", "v", i64::MAX)]));
}
