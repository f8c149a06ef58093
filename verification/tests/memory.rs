use holochain_persistence::cas::content::{
    AddressableContent, Content, ExampleAddressableContent,
};
use holochain_persistence::eav::eavi::ExampleAttribute;
use holochain_persistence::mem::cas::MemoryStorage;
use holochain_persistence::mem::eav::EavMemoryStorage;
use holochain_persistence::txn::cursor::NonTransactionalCursor;
use holochain_persistence::txn::suite::PersistenceManagerTestSuite;

type MemoryCursor =
    NonTransactionalCursor<ExampleAttribute, MemoryStorage, EavMemoryStorage<ExampleAttribute>>;

fn memory_suite() -> (
    PersistenceManagerTestSuite<ExampleAttribute, MemoryCursor, ExampleAttribute, MemoryCursor>,
    MemoryStorage,
    EavMemoryStorage<ExampleAttribute>,
) {
    let cas = MemoryStorage::new();
    let eav = EavMemoryStorage::new();
    let suite = PersistenceManagerTestSuite::new(
        NonTransactionalCursor::new(&cas, &eav),
        NonTransactionalCursor::new(&cas, &eav),
    );
    (suite, cas, eav)
}

fn raw(text: &str) -> Content {
    Content::from_string(serde_json::to_string(text).unwrap())
}

#[test]
fn memory_eav_round_trip() {
    let (suite, mut cas, mut eav) = memory_suite();
    let entity_content = ExampleAddressableContent::try_from_content(&raw("foo")).unwrap();
    let attribute = ExampleAttribute::WithPayload("favourite-color".to_string());
    let value_content = ExampleAddressableContent::try_from_content(&raw("blue")).unwrap();
    assert_eq!(
        suite.eav_test_round_trip(&mut cas, &mut eav, &entity_content, attribute, &value_content),
        Ok(true)
    );
    assert_eq!(eav.as_set().len(), 1);
}

#[test]
fn memory_eav_one_to_many() {
    let (suite, mut cas, mut eav) = memory_suite();
    assert_eq!(
        suite.eav_test_one_to_many::<ExampleAddressableContent>(
            &mut cas,
            &mut eav,
            &ExampleAttribute::default()
        ),
        Ok(true)
    );
    assert_eq!(eav.as_set().len(), 3);
}

#[test]
fn memory_eav_many_to_one() {
    let (suite, mut cas, mut eav) = memory_suite();
    assert_eq!(
        suite.eav_test_many_to_one::<ExampleAddressableContent>(
            &mut cas,
            &mut eav,
            &ExampleAttribute::default()
        ),
        Ok(true)
    );
    assert_eq!(eav.as_set().len(), 3);
}

#[test]
fn memory_example_eav_range() {
    let (suite, mut cas, mut eav) = memory_suite();
    assert_eq!(
        suite.eav_test_range::<ExampleAddressableContent>(
            &mut cas,
            &mut eav,
            &ExampleAttribute::default()
        ),
        Ok(true)
    );
    assert_eq!(eav.as_set().len(), 5);
}

#[test]
fn memory_eav_prefixes() {
    let (suite, mut cas, mut eav) = memory_suite();
    let attributes: Vec<ExampleAttribute> = vec!["a_", "b_", "c_", "d_"]
        .into_iter()
        .map(|p| ExampleAttribute::WithPayload(p.to_string() + "one_to_many"))
        .collect();
    assert_eq!(
        suite.eav_test_multiple_attributes::<ExampleAddressableContent>(
            &mut cas,
            &mut eav,
            attributes
        ),
        Ok(true)
    );
    assert_eq!(eav.as_set().len(), 4);
}

#[test]
fn memory_tombstone() {
    let (suite, mut cas, mut eav) = memory_suite();
    assert_eq!(
        suite.eav_test_tombstone::<ExampleAddressableContent>(
            &mut cas,
            &mut eav,
            &ExampleAttribute::WithPayload("link".to_string())
        ),
        Ok(true)
    );
    // The earlier record is still held.
    assert_eq!(eav.as_set().len(), 2);
}
