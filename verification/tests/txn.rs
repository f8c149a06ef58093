use holochain_persistence::cas::content::{
    AddressableContent, Content, ExampleAddressableContent, OtherExampleAddressableContent,
};
use holochain_persistence::cas::storage::ContentAddressableStorage;
use holochain_persistence::eav::eavi::{EntityAttributeValueIndex, ExampleAttribute};
use holochain_persistence::eav::query::{EavFilter, EaviQuery, IndexFilter};
use holochain_persistence::eav::set::EaviSet;
use holochain_persistence::eav::storage::EntityAttributeValueStorage;
use holochain_persistence::error::PersistenceError;
use holochain_persistence::has_uuid::HasUuid;
use holochain_persistence::hash::Address;
use holochain_persistence::mem::cas::MemoryStorage;
use holochain_persistence::mem::eav::EavMemoryStorage;
use holochain_persistence::txn::cursor::{
    Cursor, CursorProvider, CursorRw, NonTransactionalCursor, NoopWriter, Writer,
};
use holochain_persistence::lmdb::error::StoreError;
use holochain_persistence::lmdb::txn::{next_step, CommitStep};
use holochain_persistence::txn::manager::{
    new_example_persistence_manager, new_staging_persistence_manager, DefaultEnvironment,
    DefaultPersistenceManager, PersistenceManager, StagingPersistenceManager,
};
use holochain_persistence::txn::staging::{StagingCursor, StagingCursorProvider};
use holochain_persistence::txn::steps::{
    add_record, answers_with, ask, eav_round_trip_steps, finish, history_query, is_exactly,
    latest_query, newest_of,
};
use holochain_persistence::reporting::ReportStorage;
use holochain_persistence::txn::suite::PersistenceManagerTestSuite;

type Record = EntityAttributeValueIndex<ExampleAttribute>;

fn raw(text: &str) -> Content {
    Content::from_string(serde_json::to_string(text).unwrap())
}

fn rec(entity: &str, attribute: &str, value: &str, index: i64) -> Record {
    EntityAttributeValueIndex::new_with_index(
        &Address::from_text(entity),
        &ExampleAttribute::WithPayload(attribute.to_string()),
        &Address::from_text(value),
        index,
    )
    .unwrap()
}

fn set_of(records: &[Record]) -> EaviSet<ExampleAttribute> {
    let mut set = EaviSet::new();
    for r in records {
        set.insert(r.clone());
    }
    set
}

fn everything() -> EaviQuery<ExampleAttribute> {
    EaviQuery::new(
        EavFilter::Any,
        EavFilter::Any,
        EavFilter::Any,
        IndexFilter::Range(None, None),
        None,
    )
}

fn of_entity(entity: &str) -> EaviQuery<ExampleAttribute> {
    EaviQuery::new(
        EavFilter::single(Address::from_text(entity)),
        EavFilter::Any,
        EavFilter::Any,
        IndexFilter::Range(None, None),
        None,
    )
}

fn staging() -> StagingPersistenceManager<ExampleAttribute> {
    new_staging_persistence_manager()
}

fn staging_suite() -> (
    PersistenceManagerTestSuite<
        ExampleAttribute,
        StagingCursorProvider<ExampleAttribute>,
        ExampleAttribute,
        StagingCursorProvider<ExampleAttribute>,
    >,
    MemoryStorage,
    EavMemoryStorage<ExampleAttribute>,
) {
    let manager = staging();
    (
        PersistenceManagerTestSuite::new(
            manager.cursor_provider.clone(),
            manager.cursor_provider,
        ),
        manager.cas,
        manager.eav,
    )
}

#[test]
fn noop_writer_commits() {
    assert_eq!(NoopWriter::new().commit(), Ok(()));
}

#[test]
fn default_environment_refuses() {
    let mut environment = DefaultEnvironment::new();
    let cursor: Result<StagingCursor<ExampleAttribute>, PersistenceError> =
        environment.cursor_rw("test_dbs");
    assert_eq!(
        cursor.err(),
        Some(PersistenceError::ErrorGeneric(
            "cross transactional read/write cursors unsupported".to_string()
        ))
    );
    assert_eq!(
        environment.commit(),
        Err(PersistenceError::ErrorGeneric(
            "cross transactional cursors unsupported: commit failed".to_string()
        ))
    );
}

#[test]
fn non_transactional_cursor_writes_through() {
    let mut manager = new_example_persistence_manager::<ExampleAttribute>().unwrap();
    let mut cursor = manager.create_cursor_rw().unwrap();
    assert_eq!(cursor.get_id(), manager.get_id());
    let content = ExampleAddressableContent::try_from_content(&raw("foo")).unwrap();
    let (cas, eav) = manager.stores_mut();
    assert_eq!(cursor.add(cas, &content), Ok(()));
    // The content is in the primary store before any commit.
    assert_eq!(cas.fetch(&content.address()), Ok(Some(raw("foo"))));
    assert_eq!(cursor.add_eavi(eav, &rec("e", "a", "v", 1)), Ok(Some(rec("e", "a", "v", 1))));
    assert_eq!(eav.fetch_eavi(&everything()), Ok(set_of(&[rec("e", "a", "v", 1)])));
    assert_eq!(cursor.fetch(cas, &content.address()), Ok(Some(raw("foo"))));
    assert_eq!(cursor.contains(cas, &Address::from_text("nowhere")), Ok(false));
    assert_eq!(cursor.fetch_eavi(eav, &everything()), Ok(set_of(&[rec("e", "a", "v", 1)])));
    assert_eq!(cursor.commit(cas, eav), Ok(()));
    assert_eq!(manager.cas().len(), 1);
    assert_eq!(manager.eav().as_set().len(), 1);
}

#[test]
fn manager_holds_what_it_was_given() {
    let cas = MemoryStorage::new();
    let eav: EavMemoryStorage<ExampleAttribute> = EavMemoryStorage::new();
    let id = cas.get_id();
    let manager = DefaultPersistenceManager::new_non_transactional(cas, eav);
    assert_eq!(manager.get_id(), id);
    assert_eq!(manager.cursor_provider.get_id(), id);
    assert_eq!(manager.create_cursor().unwrap().get_id(), id);
    let cas = MemoryStorage::new();
    let eav: EavMemoryStorage<ExampleAttribute> = EavMemoryStorage::new();
    let id = cas.get_id();
    let provider = NonTransactionalCursor::new(&cas, &eav);
    let manager = DefaultPersistenceManager::new(cas, eav, provider);
    assert_eq!(manager.get_id(), id);
    assert_eq!(manager.cas().get_id(), id);
    let staged = staging();
    assert_eq!(staged.cursor_provider.get_id(), staged.get_id());
}

#[test]
fn staging_cursor_keeps_its_writes_until_commit() {
    let mut manager = staging();
    let mut first = manager.create_cursor_rw().unwrap();
    let mut second = manager.create_cursor_rw().unwrap();
    let content = ExampleAddressableContent::try_from_content(&raw("foo")).unwrap();
    let address = content.address();
    let (cas, eav) = manager.stores_mut();

    assert_eq!(first.add(cas, &content), Ok(()));
    assert_eq!(first.add_eavi(eav, &rec("e", "a", "v", 1)), Ok(Some(rec("e", "a", "v", 1))));
    // The first cursor reads what it wrote.
    assert_eq!(first.fetch(cas, &address), Ok(Some(raw("foo"))));
    assert_eq!(first.contains(cas, &address), Ok(true));
    assert_eq!(first.fetch_eavi(eav, &everything()), Ok(set_of(&[rec("e", "a", "v", 1)])));
    // The primary stores and the second cursor do not.
    assert_eq!(cas.fetch(&address), Ok(None));
    assert_eq!(eav.fetch_eavi(&everything()), Ok(EaviSet::new()));
    assert_eq!(second.fetch(cas, &address), Ok(None));
    assert_eq!(second.contains(cas, &address), Ok(false));
    assert_eq!(second.fetch_eavi(eav, &everything()), Ok(EaviSet::new()));

    assert_eq!(first.commit(cas, eav), Ok(()));
    // After the commit the primary stores, the second cursor and a new one do.
    assert_eq!(cas.fetch(&address), Ok(Some(raw("foo"))));
    assert_eq!(eav.fetch_eavi(&everything()), Ok(set_of(&[rec("e", "a", "v", 1)])));
    assert_eq!(second.fetch(cas, &address), Ok(Some(raw("foo"))));
    assert_eq!(second.fetch_eavi(eav, &everything()), Ok(set_of(&[rec("e", "a", "v", 1)])));
    let mut third: StagingCursor<ExampleAttribute> = StagingCursor::new(7);
    assert_eq!(third.get_id(), 7);
    assert_eq!(third.fetch(cas, &address), Ok(Some(raw("foo"))));
}

#[test]
fn dropped_cursor_leaves_nothing() {
    let mut manager = staging();
    let content = ExampleAddressableContent::try_from_content(&raw("foo")).unwrap();
    {
        let mut cursor = manager.create_cursor_rw().unwrap();
        let (cas, eav) = manager.stores_mut();
        cursor.add(cas, &content).unwrap();
        cursor.add_eavi(eav, &rec("e", "a", "v", 1)).unwrap();
        assert_eq!(cursor.contains(cas, &content.address()), Ok(true));
    }
    let mut cursor = manager.create_cursor_rw().unwrap();
    let (cas, eav) = manager.stores_mut();
    assert_eq!(cursor.contains(cas, &content.address()), Ok(false));
    assert_eq!(cursor.fetch_eavi(eav, &everything()), Ok(EaviSet::new()));
    assert_eq!(cas.len(), 0);
    assert_eq!(eav.as_set().len(), 0);
}

#[test]
fn staging_cursor_reads_through_and_keeps_what_it_read() {
    let mut manager = staging();
    let content = ExampleAddressableContent::try_from_content(&raw("foo")).unwrap();
    let changed = OtherExampleAddressableContent::try_from_content(&raw("foo")).unwrap();
    let address = content.address();
    let (cas, eav) = manager.stores_mut();
    cas.add(&content).unwrap();
    eav.add_eavi(&rec("e", "a", "v", 1)).unwrap();
    eav.add_eavi(&rec("f", "a", "v", 1)).unwrap();

    let mut cursor: StagingCursor<ExampleAttribute> = StagingCursor::new(cas.get_id());
    assert_eq!(cursor.fetch(cas, &address), Ok(Some(raw("foo"))));
    assert_eq!(cursor.fetch_eavi(eav, &of_entity("e")), Ok(set_of(&[rec("e", "a", "v", 1)])));
    // What the cursor read once, it reads again, whatever happens to the primary stores.
    cas.put(address.clone(), Content::from_json("\"changed\""));
    eav.add_eavi(&rec("e", "b", "w", 2)).unwrap();
    assert_eq!(changed.address(), address);
    assert_eq!(cursor.fetch(cas, &address), Ok(Some(raw("foo"))));
    assert_eq!(cursor.fetch_eavi(eav, &of_entity("e")), Ok(set_of(&[rec("e", "a", "v", 1)])));
    // What it did not read, it reads from the primary store.
    assert_eq!(cursor.fetch_eavi(eav, &of_entity("f")), Ok(set_of(&[rec("f", "a", "v", 1)])));
}

#[test]
fn commit_reindexes_a_record_whose_index_is_taken() {
    let mut manager = staging();
    let mut cursor = manager.create_cursor_rw().unwrap();
    let (cas, eav) = manager.stores_mut();
    eav.add_eavi(&rec("e", "a", "v", 1)).unwrap();
    assert_eq!(cursor.add_eavi(eav, &rec("e", "b", "w", 1)), Ok(Some(rec("e", "b", "w", 1))));
    assert_eq!(cursor.add_eavi(eav, &rec("e", "b", "w", 1)), Ok(Some(rec("e", "b", "w", 2))));
    assert_eq!(cursor.commit(cas, eav), Ok(()));
    assert_eq!(
        eav.fetch_eavi(&everything()),
        Ok(set_of(&[rec("e", "a", "v", 1), rec("e", "b", "w", 2), rec("e", "b", "w", 3)]))
    );
}

#[test]
fn commit_that_fails_changes_nothing() {
    let mut manager = staging();
    let mut cursor = manager.create_cursor_rw().unwrap();
    let content = ExampleAddressableContent::try_from_content(&raw("foo")).unwrap();
    let (cas, eav) = manager.stores_mut();
    eav.add_eavi(&rec("e", "a", "v", i64::MAX)).unwrap();
    cursor.add(cas, &content).unwrap();
    cursor.add_eavi(eav, &rec("a", "a", "v", 1)).unwrap();
    cursor.add_eavi(eav, &rec("e", "b", "w", i64::MAX)).unwrap();
    assert_eq!(
        cursor.commit(cas, eav),
        Err(PersistenceError::ErrorGeneric("No index is left for the record".to_string()))
    );
    assert_eq!(cas.len(), 0);
    assert_eq!(eav.fetch_eavi(&everything()), Ok(set_of(&[rec("e", "a", "v", i64::MAX)])));
}

#[test]
fn staging_cas_round_trip() {
    let (suite, mut cas, mut eav) = staging_suite();
    let content = ExampleAddressableContent::try_from_content(&raw("foo")).unwrap();
    let other = ExampleAddressableContent::try_from_content(&raw("blue")).unwrap();
    assert_eq!(suite.cas_round_trip_test(&mut cas, &mut eav, &content, &other), Ok(true));
    assert_eq!(cas.len(), 2);
}

#[test]
fn staging_eav_scenarios() {
    let (suite, mut cas, mut eav) = staging_suite();
    let entity = ExampleAddressableContent::try_from_content(&raw("foo")).unwrap();
    let value = ExampleAddressableContent::try_from_content(&raw("blue")).unwrap();
    let attribute = ExampleAttribute::WithPayload("favourite-color".to_string());
    assert_eq!(suite.eav_test_round_trip(&mut cas, &mut eav, &entity, attribute, &value), Ok(true));
    assert_eq!(eav.as_set().len(), 1);

    let (suite, mut cas, mut eav) = staging_suite();
    let bare = ExampleAttribute::default();
    assert_eq!(
        suite.eav_test_one_to_many::<ExampleAddressableContent>(&mut cas, &mut eav, &bare),
        Ok(true)
    );
    let (suite, mut cas, mut eav) = staging_suite();
    assert_eq!(
        suite.eav_test_many_to_one::<ExampleAddressableContent>(&mut cas, &mut eav, &bare),
        Ok(true)
    );
    let (suite, mut cas, mut eav) = staging_suite();
    assert_eq!(
        suite.eav_test_range::<ExampleAddressableContent>(&mut cas, &mut eav, &bare),
        Ok(true)
    );
    assert_eq!(eav.as_set().len(), 5);
    let (suite, mut cas, mut eav) = staging_suite();
    let attributes: Vec<ExampleAttribute> = vec!["a_", "b_", "c_", "d_"]
        .into_iter()
        .map(|p| ExampleAttribute::WithPayload(p.to_string() + "one_to_many"))
        .collect();
    assert_eq!(
        suite.eav_test_multiple_attributes::<ExampleAddressableContent>(
            &mut cas,
            &mut eav,
            attributes
        ),
        Ok(true)
    );
    let (suite, mut cas, mut eav) = staging_suite();
    assert_eq!(
        suite.eav_test_tombstone::<ExampleAddressableContent>(&mut cas, &mut eav, &bare),
        Ok(true)
    );
    assert_eq!(eav.as_set().len(), 2);
}

#[test]
fn staging_transaction_abort() {
    let (suite, mut cas, mut eav) = staging_suite();
    let content = ExampleAddressableContent::try_from_content(&raw("red")).unwrap();
    let transient = ExampleAddressableContent::try_from_content(&raw("green")).unwrap();
    assert_eq!(
        suite.cas_eav_test_transaction_abort(
            &mut cas,
            &mut eav,
            &content,
            ExampleAttribute::WithoutPayload,
            &transient
        ),
        Ok(true)
    );
    assert_eq!(cas.contains(&content.address()), Ok(true));
    assert_eq!(cas.contains(&transient.address()), Ok(false));
    assert_eq!(cas.len(), 1);
    assert_eq!(eav.as_set().len(), 1);
}

#[test]
fn cursors_that_write_through_do_not_pass_the_abort_scenario() {
    let manager = new_example_persistence_manager::<ExampleAttribute>().unwrap();
    let suite = PersistenceManagerTestSuite::new(
        manager.cursor_provider,
        NonTransactionalCursor::<ExampleAttribute, _, _>::new(&manager.cas, &manager.eav),
    );
    let (mut cas, mut eav) = (manager.cas, manager.eav);
    let content = ExampleAddressableContent::try_from_content(&raw("red")).unwrap();
    let transient = ExampleAddressableContent::try_from_content(&raw("green")).unwrap();
    assert_eq!(
        suite.cas_eav_test_transaction_abort(
            &mut cas,
            &mut eav,
            &content,
            ExampleAttribute::WithoutPayload,
            &transient
        ),
        Ok(false)
    );
    assert_eq!(cas.len(), 2);
}

#[test]
fn staging_steps_for_a_primary_store_elsewhere() {
    let mut cursor: StagingCursor<ExampleAttribute> = StagingCursor::new(3);
    let content = ExampleAddressableContent::try_from_content(&raw("foo")).unwrap();
    let address = content.address();
    // Nothing is staged: the primary store is to be read.
    assert_eq!(cursor.staged_content(&address), None);
    assert_eq!(cursor.staged_answer(&everything()), None);
    assert_eq!(cursor.staged_entries(), vec![]);
    // What was read there is kept.
    cursor.keep_content(&address, &raw("foo"));
    assert_eq!(cursor.staged_content(&address), Some(raw("foo")));
    cursor.keep_records(&set_of(&[rec("e", "a", "v", 1), rec("f", "a", "v", 1)]));
    assert_eq!(
        cursor.staged_answer(&of_entity("e")),
        Some(set_of(&[rec("e", "a", "v", 1)]))
    );
    assert_eq!(cursor.staged_answer(&of_entity("g")), None);
    // A record whose index a staged record of its entity has is not kept.
    cursor.keep_records(&set_of(&[rec("e", "b", "w", 1), rec("e", "b", "w", 2)]));
    assert_eq!(
        cursor.staged_set(),
        &set_of(&[rec("e", "a", "v", 1), rec("e", "b", "w", 2), rec("f", "a", "v", 1)])
    );
    // What is written is staged.
    let other = ExampleAddressableContent::try_from_content(&raw("bar")).unwrap();
    cursor.stage(&other);
    assert_eq!(cursor.staged_content(&other.address()), Some(raw("bar")));
    assert_eq!(
        cursor.staged_entries(),
        vec![(address.clone(), raw("foo")), (other.address(), raw("bar"))]
    );
    assert_eq!(cursor.stage_record(&rec("e", "c", "x", 1)), Ok(Some(rec("e", "c", "x", 3))));
    assert_eq!(cursor.get_id(), 3);
}

#[test]
fn commit_plan_names_the_records_to_add() {
    let mut cursor: StagingCursor<ExampleAttribute> = StagingCursor::new(3);
    cursor.stage_record(&rec("e", "a", "v", 1)).unwrap();
    cursor.stage_record(&rec("e", "b", "w", 2)).unwrap();
    cursor.stage_record(&rec("f", "a", "v", 1)).unwrap();
    let mut held: EavMemoryStorage<ExampleAttribute> = EavMemoryStorage::new();
    held.insert_if_free(rec("e", "a", "v", 1));
    held.insert_if_free(rec("e", "z", "z", 2));
    assert_eq!(
        cursor.records_to_commit(&held),
        Ok(vec![rec("e", "b", "w", 3), rec("f", "a", "v", 1)])
    );
    assert_eq!(
        cursor.records_to_commit(&EavMemoryStorage::new()),
        Ok(vec![rec("e", "a", "v", 1), rec("e", "b", "w", 2), rec("f", "a", "v", 1)])
    );
    let mut full: EavMemoryStorage<ExampleAttribute> = EavMemoryStorage::new();
    full.insert_if_free(rec("f", "z", "z", 1));
    let mut last: StagingCursor<ExampleAttribute> = StagingCursor::new(3);
    last.stage_record(&rec("f", "a", "v", i64::MAX)).unwrap();
    full.insert_if_free(rec("f", "z", "z", i64::MAX));
    assert!(last.records_to_commit(&full).is_err());
}

#[test]
fn next_step_after_an_attempt_to_commit() {
    assert_eq!(next_step(Ok(()), 1024), CommitStep::Done);
    assert_eq!(next_step(Err(StoreError::MapFull), 1024), CommitStep::Grow(8192));
    assert_eq!(next_step(Err(StoreError::MapFull), 1), CommitStep::Grow(8));
    assert_eq!(
        next_step(Err(StoreError::MapFull), 0),
        CommitStep::Fail(PersistenceError::ErrorGeneric(
            "the memory map is full and cannot grow".to_string()
        ))
    );
    assert_eq!(
        next_step(Err(StoreError::MapFull), usize::MAX / 8 + 1),
        CommitStep::Fail(PersistenceError::ErrorGeneric(
            "the memory map is full and cannot grow".to_string()
        ))
    );
    assert_eq!(
        next_step(Err(StoreError::Other("disk".to_string())), 1024),
        CommitStep::Fail(PersistenceError::ErrorGeneric("disk".to_string()))
    );
}

#[test]
fn scenario_steps_on_an_open_cursor() {
    let mut manager = staging();
    let mut cursor = manager.create_cursor_rw().unwrap();
    let (cas, eav) = manager.stores_mut();
    let e = Address::from_text("e");
    let v = Address::from_text("v");
    let a = ExampleAttribute::WithPayload("a".to_string());
    assert_eq!(
        add_record(&mut cursor, eav, &e, &a, &v, Some(4)),
        Ok(rec("e", "a", "v", 4))
    );
    assert_eq!(
        add_record(&mut cursor, eav, &e, &a, &v, Some(4)),
        Ok(rec("e", "a", "v", 5))
    );
    let clocked = add_record(&mut cursor, eav, &e, &a, &v, None).unwrap();
    assert!(clocked.index() > 5);
    let latest = latest_query(Some(&e), Some(&a), None);
    let history = history_query(Some(&e), None, Some(&v), Some(4), Some(5));
    assert_eq!(ask(&mut cursor, eav, &latest), Ok(set_of(&[clocked.clone()])));
    assert_eq!(
        ask(&mut cursor, eav, &history),
        Ok(set_of(&[rec("e", "a", "v", 4), rec("e", "a", "v", 5)]))
    );
    assert_eq!(answers_with(&mut cursor, eav, &latest, &clocked), Ok(true));
    assert_eq!(answers_with(&mut cursor, eav, &history, &clocked), Ok(false));
    assert!(is_exactly(&set_of(&[clocked.clone()]), &clocked));
    assert!(!is_exactly(&set_of(&[clocked.clone(), rec("e", "a", "v", 4)]), &clocked));
    assert!(!is_exactly(&EaviSet::new(), &clocked));
    assert_eq!(finish(cursor, cas, eav), Ok(()));
    assert_eq!(eav.as_set().len(), 3);

    let mut manager = staging();
    let mut cursor = manager.create_cursor_rw().unwrap();
    let (_, eav) = manager.stores_mut();
    assert_eq!(eav_round_trip_steps(&mut cursor, eav, &e, &a, &v), Ok(true));
    // On a cursor that has staged something already, other records answer too.
    assert_eq!(
        eav_round_trip_steps(&mut cursor, eav, &Address::from_text("f"), &a, &v),
        Ok(false)
    );
}

#[test]
fn newest_of_an_entity_and_attribute() {
    let records = [
        rec("e", "a", "v", 3),
        rec("e", "b", "v", 9),
        rec("e", "a", "w", 7),
        rec("f", "a", "v", 8),
        rec("e", "a", "x", 5),
    ];
    let a = ExampleAttribute::WithPayload("a".to_string());
    assert_eq!(newest_of(&records, &Address::from_text("e"), &a), Some(2));
    assert_eq!(newest_of(&records, &Address::from_text("f"), &a), Some(3));
    assert_eq!(newest_of(&records, &Address::from_text("g"), &a), None);
    assert_eq!(newest_of(&records[..1], &Address::from_text("e"), &a), Some(0));
    assert_eq!(
        newest_of(&records, &Address::from_text("e"), &ExampleAttribute::WithoutPayload),
        None
    );
}

#[test]
fn staging_transaction_isolation() {
    let (suite, mut cas, mut eav) = staging_suite();
    let content = ExampleAddressableContent::try_from_content(&raw("red")).unwrap();
    assert_eq!(
        suite.cas_eav_test_transaction_isolation(
            &mut cas,
            &mut eav,
            &content,
            ExampleAttribute::WithoutPayload
        ),
        Ok(true)
    );
    assert_eq!(cas.fetch(&content.address()), Ok(Some(raw("red"))));
    assert_eq!(eav.as_set().len(), 1);
    // Cursors that write through show their writes to each other at once.
    let manager = new_example_persistence_manager::<ExampleAttribute>().unwrap();
    let suite = PersistenceManagerTestSuite::new(
        manager.cursor_provider,
        NonTransactionalCursor::<ExampleAttribute, _, _>::new(&manager.cas, &manager.eav),
    );
    let (mut cas, mut eav) = (manager.cas, manager.eav);
    assert_eq!(
        suite.cas_eav_test_transaction_isolation(
            &mut cas,
            &mut eav,
            &content,
            ExampleAttribute::WithoutPayload
        ),
        Ok(false)
    );
    assert_eq!(cas.fetch(&content.address()), Ok(Some(raw("red"))));
}

#[test]
fn txn_lmdb_cas_round_trip() {
    let entity_content = ExampleAddressableContent::try_from_content(&raw("foo")).unwrap();
    let other_content = ExampleAddressableContent::try_from_content(&raw("blue")).unwrap();
    let (suite, mut cas, mut eav) = staging_suite();
    assert_eq!(
        suite.cas_round_trip_test(&mut cas, &mut eav, &entity_content, &other_content),
        Ok(true)
    );
}

#[test]
fn txn_lmdb_eav_round_trip() {
    let entity_content = ExampleAddressableContent::try_from_content(&raw("foo")).unwrap();
    let attribute = ExampleAttribute::WithPayload("favourite-color".to_string());
    let value_content = ExampleAddressableContent::try_from_content(&raw("blue")).unwrap();
    let (suite, mut cas, mut eav) = staging_suite();
    assert_eq!(
        suite.eav_test_round_trip(&mut cas, &mut eav, &entity_content, attribute, &value_content),
        Ok(true)
    );
}

#[test]
fn txn_lmdb_eav_one_to_many() {
    let (suite, mut cas, mut eav) = staging_suite();
    assert_eq!(
        suite.eav_test_one_to_many::<ExampleAddressableContent>(
            &mut cas,
            &mut eav,
            &ExampleAttribute::default()
        ),
        Ok(true)
    );
}

#[test]
fn txn_lmdb_eav_many_to_one() {
    let (suite, mut cas, mut eav) = staging_suite();
    assert_eq!(
        suite.eav_test_many_to_one::<ExampleAddressableContent>(
            &mut cas,
            &mut eav,
            &ExampleAttribute::default()
        ),
        Ok(true)
    );
}

#[test]
fn txn_lmdb_eav_range() {
    let (suite, mut cas, mut eav) = staging_suite();
    assert_eq!(
        suite.eav_test_range::<ExampleAddressableContent>(
            &mut cas,
            &mut eav,
            &ExampleAttribute::default()
        ),
        Ok(true)
    );
}

#[test]
fn txn_lmdb_eav_prefixes() {
    let (suite, mut cas, mut eav) = staging_suite();
    assert_eq!(
        suite.eav_test_multiple_attributes::<ExampleAddressableContent>(
            &mut cas,
            &mut eav,
            vec!["a_", "b_", "c_", "d_"]
                .into_iter()
                .map(|p| ExampleAttribute::WithPayload(p.to_string() + "one_to_many"))
                .collect(),
        ),
        Ok(true)
    );
}

#[test]
fn txn_lmdb_cas_eav_test_transaction_abort() {
    let entity_content = ExampleAddressableContent::try_from_content(&raw("red")).unwrap();
    let attribute = ExampleAttribute::WithoutPayload;
    let transient_content = ExampleAddressableContent::try_from_content(&raw("green")).unwrap();
    let (suite, mut cas, mut eav) = staging_suite();
    assert_eq!(
        suite.cas_eav_test_transaction_abort(
            &mut cas,
            &mut eav,
            &entity_content,
            attribute,
            &transient_content
        ),
        Ok(true)
    );
}

fn standing_for(text: &str) -> Address {
    ExampleAddressableContent::try_from_content(&Content::from_json(text)).unwrap().address()
}

fn relating(entity: &str, attribute: &ExampleAttribute, value: &str, index: i64) -> Record {
    EntityAttributeValueIndex::new_with_index(
        &standing_for(entity),
        attribute,
        &standing_for(value),
        index,
    )
    .unwrap()
}

#[test]
fn one_to_many_leaves_three_records_under_the_indices_from_one() {
    let bare = ExampleAttribute::default();
    let wanted = set_of(&[
        relating("foo", &bare, "foo", 1),
        relating("foo", &bare, "bar", 2),
        relating("foo", &bare, "baz", 3),
    ]);
    let (suite, mut cas, mut eav) = staging_suite();
    assert_eq!(
        suite.eav_test_one_to_many::<ExampleAddressableContent>(&mut cas, &mut eav, &bare),
        Ok(true)
    );
    assert!(eav.as_set().same_as(&wanted));

    let manager = new_example_persistence_manager::<ExampleAttribute>().unwrap();
    let suite = PersistenceManagerTestSuite::new(
        manager.cursor_provider,
        NonTransactionalCursor::<ExampleAttribute, _, _>::new(&manager.cas, &manager.eav),
    );
    let (mut cas, mut eav) = (manager.cas, manager.eav);
    assert_eq!(
        suite.eav_test_one_to_many::<ExampleAddressableContent>(&mut cas, &mut eav, &bare),
        Ok(true)
    );
    assert!(eav.as_set().same_as(&wanted));
}

#[test]
fn many_to_one_leaves_three_records_under_the_indices_from_one() {
    let bare = ExampleAttribute::default();
    let (suite, mut cas, mut eav) = staging_suite();
    assert_eq!(
        suite.eav_test_many_to_one::<ExampleAddressableContent>(&mut cas, &mut eav, &bare),
        Ok(true)
    );
    assert!(eav.as_set().same_as(&set_of(&[
        relating("foo", &bare, "foo", 1),
        relating("bar", &bare, "foo", 2),
        relating("baz", &bare, "foo", 3),
    ])));
}

#[test]
fn range_leaves_five_records_under_the_indices_from_one_to_five() {
    let bare = ExampleAttribute::default();
    let (suite, mut cas, mut eav) = staging_suite();
    assert_eq!(
        suite.eav_test_range::<ExampleAddressableContent>(&mut cas, &mut eav, &bare),
        Ok(true)
    );
    let wanted: Vec<Record> = (1..=5).map(|i| relating("foo", &bare, "bar", i)).collect();
    assert!(eav.as_set().same_as(&set_of(&wanted)));
}

#[test]
fn multiple_attributes_leave_one_record_each() {
    let attributes: Vec<ExampleAttribute> = vec!["a_", "b_", "c_", "d_"]
        .into_iter()
        .map(|p| ExampleAttribute::WithPayload(p.to_string() + "one_to_many"))
        .collect();
    let wanted: Vec<Record> = attributes
        .iter()
        .enumerate()
        .map(|(k, attribute)| relating("foo", attribute, "bar", k as i64 + 1))
        .collect();
    let (suite, mut cas, mut eav) = staging_suite();
    assert_eq!(
        suite.eav_test_multiple_attributes::<ExampleAddressableContent>(
            &mut cas,
            &mut eav,
            attributes
        ),
        Ok(true)
    );
    assert!(eav.as_set().same_as(&set_of(&wanted)));
}

#[test]
fn no_attributes_leave_no_record() {
    let (suite, mut cas, mut eav) = staging_suite();
    assert_eq!(
        suite.eav_test_multiple_attributes::<ExampleAddressableContent>(
            &mut cas,
            &mut eav,
            Vec::new()
        ),
        Ok(true)
    );
    assert_eq!(eav.as_set().len(), 0);
}

#[test]
fn tombstone_leaves_the_value_and_the_marker() {
    let bare = ExampleAttribute::default();
    let (suite, mut cas, mut eav) = staging_suite();
    assert_eq!(
        suite.eav_test_tombstone::<ExampleAddressableContent>(&mut cas, &mut eav, &bare),
        Ok(true)
    );
    assert!(eav.as_set().same_as(&set_of(&[
        relating("foo", &bare, "bar", 1),
        relating("foo", &bare, "tombstone", 2),
    ])));
}

#[test]
fn scenarios_fail_where_the_content_stands_for_no_value() {
    let bare = ExampleAttribute::default();
    let (suite, mut cas, mut eav) = staging_suite();
    assert!(suite
        .eav_test_tombstone::<holochain_persistence::eav::eavi::ExampleEntry>(
            &mut cas, &mut eav, &bare
        )
        .is_err());
    assert_eq!(eav.as_set().len(), 0);
}

#[test]
fn content_round_trip_leaves_the_records_alone() {
    let (suite, mut cas, mut eav) = staging_suite();
    let kept = rec("e", "a", "v", 7);
    eav.add_eavi(&kept).unwrap();
    let content = ExampleAddressableContent::try_from_content(&raw("foo")).unwrap();
    let other = OtherExampleAddressableContent::try_from_content(&raw("blue")).unwrap();
    assert_eq!(suite.cas_round_trip_test(&mut cas, &mut eav, &content, &other), Ok(true));
    assert!(eav.as_set().same_as(&set_of(&[kept])));
}

#[test]
fn isolation_leaves_the_record_about_the_value() {
    let (suite, mut cas, mut eav) = staging_suite();
    let content = ExampleAddressableContent::try_from_content(&raw("red")).unwrap();
    let attribute = ExampleAttribute::WithoutPayload;
    assert_eq!(
        suite.cas_eav_test_transaction_isolation(&mut cas, &mut eav, &content, attribute.clone()),
        Ok(true)
    );
    assert_eq!(eav.as_set().len(), 1);
    let held = eav.as_set().get(0).unwrap();
    assert!(held.entity().same(&content.address()));
    assert!(held.value().same(&content.address()));
    assert_eq!(held.attribute(), attribute);
}

#[test]
fn abort_keeps_the_dropped_record_only_where_cursors_write_through() {
    let content = ExampleAddressableContent::try_from_content(&raw("red")).unwrap();
    let transient = ExampleAddressableContent::try_from_content(&raw("green")).unwrap();
    let (suite, mut cas, mut eav) = staging_suite();
    suite
        .cas_eav_test_transaction_abort(
            &mut cas,
            &mut eav,
            &content,
            ExampleAttribute::WithoutPayload,
            &transient,
        )
        .unwrap();
    assert_eq!(eav.as_set().len(), 1);
    assert!(eav.as_set().get(0).unwrap().entity().same(&content.address()));

    let manager = new_example_persistence_manager::<ExampleAttribute>().unwrap();
    let suite = PersistenceManagerTestSuite::new(
        manager.cursor_provider,
        NonTransactionalCursor::<ExampleAttribute, _, _>::new(&manager.cas, &manager.eav),
    );
    let (mut cas, mut eav) = (manager.cas, manager.eav);
    suite
        .cas_eav_test_transaction_abort(
            &mut cas,
            &mut eav,
            &content,
            ExampleAttribute::WithoutPayload,
            &transient,
        )
        .unwrap();
    assert_eq!(eav.as_set().len(), 2);
}

#[test]
fn manager_and_its_cursors_have_the_identity_of_the_content_store() {
    let manager = new_example_persistence_manager::<ExampleAttribute>().unwrap();
    assert_eq!(manager.get_id(), manager.cas().get_id());
    assert_eq!(manager.create_cursor_rw().unwrap().get_id(), manager.cas().get_id());
    assert_eq!(manager.create_cursor().unwrap().get_id(), manager.cas().get_id());
    assert_eq!(manager.cas().len(), 0);
    assert_eq!(manager.eav().as_set().len(), 0);

    let manager = staging();
    assert_eq!(manager.get_id(), manager.cas().get_id());
    assert_eq!(manager.create_cursor_rw().unwrap().get_id(), manager.cas().get_id());

    let cas = MemoryStorage::new();
    let eav: EavMemoryStorage<ExampleAttribute> = EavMemoryStorage::new();
    let id = cas.get_id();
    let manager = DefaultPersistenceManager::new_non_transactional(cas, eav);
    assert_eq!(manager.get_id(), id);
    assert_eq!(manager.cas().get_id(), id);
    assert_eq!(manager.create_cursor_rw().unwrap().get_id(), id);
}

#[test]
fn a_cursor_of_the_example_manager_writes_at_once() {
    let mut manager = new_example_persistence_manager::<ExampleAttribute>().unwrap();
    let content = ExampleAddressableContent::try_from_content(&raw("foo")).unwrap();
    let mut cursor = manager.create_cursor_rw().unwrap();
    let (cas, _eav) = manager.stores_mut();
    cursor.add(cas, &content).unwrap();
    assert_eq!(manager.cas().fetch(&content.address()), Ok(Some(content.content())));
}

#[test]
fn cursors_that_write_through_do_not_pass_the_isolation_scenario() {
    let manager = new_example_persistence_manager::<ExampleAttribute>().unwrap();
    let suite = PersistenceManagerTestSuite::new(
        manager.cursor_provider,
        NonTransactionalCursor::<ExampleAttribute, _, _>::new(&manager.cas, &manager.eav),
    );
    let (mut cas, mut eav) = (manager.cas, manager.eav);
    let content = ExampleAddressableContent::try_from_content(&raw("red")).unwrap();
    assert_eq!(
        suite.cas_eav_test_transaction_isolation(
            &mut cas,
            &mut eav,
            &content,
            ExampleAttribute::WithoutPayload
        ),
        Ok(false)
    );
    assert_eq!(cas.len(), 1);
}

#[test]
fn tombstone_scenario_uses_the_second_provider() {
    let cas = MemoryStorage::new();
    let eav: EavMemoryStorage<ExampleAttribute> = EavMemoryStorage::new();
    let suite = PersistenceManagerTestSuite::new(
        NonTransactionalCursor::<ExampleAttribute, _, _>::new(&cas, &eav),
        StagingCursorProvider::<ExampleAttribute>::new(7),
    );
    let (mut cas, mut eav) = (cas, eav);
    let marked = ExampleAttribute::WithPayload("removed".to_string());
    assert_eq!(
        suite.eav_test_tombstone::<ExampleAddressableContent>(&mut cas, &mut eav, &marked),
        Ok(true)
    );
    assert!(eav.as_set().same_as(&set_of(&[
        relating("foo", &marked, "bar", 1),
        relating("foo", &marked, "tombstone", 2),
    ])));
}

#[test]
fn stores_in_memory_do_not_count_their_bytes() {
    let unsupported = PersistenceError::ErrorGeneric(
        "Not implemented for this storage type".to_string(),
    );
    assert_eq!(MemoryStorage::new().get_byte_count(), Err(unsupported.clone()));
    assert_eq!(
        EavMemoryStorage::<ExampleAttribute>::new().get_byte_count(),
        Err(unsupported)
    );
}
