use holochain_persistence::cas::content::AddressableContent;
use holochain_persistence::eav::eavi::{EntityAttributeValueIndex, ExampleAttribute};
use holochain_persistence::eav::query::{EavFilter, EaviQuery, IndexFilter};
use holochain_persistence::eav::set::EaviSet;
use holochain_persistence::error::PersistenceError;
use holochain_persistence::file::eav::{
    fetch_from_candidates, intersect, is_among, reads_under, record_path, records_of, Tree,
};
use holochain_persistence::hash::Address;
use holochain_persistence::lmdb::eav::{
    eav_entry, eav_key, fetch_from_scan, handle_cursor_result, handle_cursor_tuple_result,
    key_is_of, record_of_value, scan_length, scan_start,
    StoredValue,
};
use holochain_persistence::lmdb::error::StoreError;
use holochain_persistence::pickle::{index_is_held, place_by_index, record_key, report_of};
use holochain_persistence::cas::content::Content;
use holochain_persistence::reporting::StorageReport;

type Record = EntityAttributeValueIndex<ExampleAttribute>;

fn rec(entity: &str, attribute: &str, value: &str, index: i64) -> Record {
    EntityAttributeValueIndex::new_with_index(
        &Address::from_text(entity),
        &ExampleAttribute::WithPayload(attribute.to_string()),
        &Address::from_text(value),
        index,
    )
    .unwrap()
}

fn text_of(record: &Record) -> String {
    record.content().to_string()
}

fn strings(texts: &[&str]) -> Vec<String> {
    texts.iter().map(|t| t.to_string()).collect()
}

fn query(entity: Option<&str>) -> EaviQuery<ExampleAttribute> {
    EaviQuery::new(
        EavFilter::from_option(entity.map(Address::from_text)),
        EavFilter::Any,
        EavFilter::Any,
        IndexFilter::Range(None, None),
        None,
    )
}

#[test]
fn record_lies_under_tree_field_index_and_address() {
    let record = rec("Qmentity", "likes", "Qmvalue", 17);
    assert_eq!(Tree::Entity.dir(), "e");
    assert_eq!(Tree::Attribute.dir(), "a");
    assert_eq!(Tree::Value.dir(), "v");
    assert_eq!(
        record_path(Tree::Entity, "Qmentity", &record),
        vec![
            "e".to_string(),
            "Qmentity".to_string(),
            "17".to_string(),
            record.address().to_string() + ".txt"
        ]
    );
    assert_eq!(record_path(Tree::Attribute, "likes", &record)[..2], strings(&["a", "likes"])[..]);
    assert_eq!(record_path(Tree::Value, "Qmvalue", &rec("e", "a", "v", -3))[2], "-3");
}

#[test]
fn intersection_keeps_what_is_in_both() {
    let first = strings(&["c", "a", "b", "d"]);
    let second = strings(&["b", "x", "c"]);
    assert_eq!(intersect(&first, &second), strings(&["c", "b"]));
    assert_eq!(intersect(&second, &first), strings(&["b", "c"]));
    assert_eq!(intersect(&strings(&["a", "b", "a"]), &strings(&["a"])), strings(&["a", "a"]));
    assert_eq!(intersect(&first, &[]), Vec::<String>::new());
    assert_eq!(intersect(&[], &second), Vec::<String>::new());
    assert!(is_among(&first, &"d".to_string()));
    assert!(!is_among(&first, &"e".to_string()));
}

#[test]
fn files_are_read_as_records() {
    let one = rec("e", "a", "v", 1);
    let two = rec("f", "b", "w", 2);
    assert_eq!(
        records_of::<ExampleAttribute>(&[text_of(&one), text_of(&two)]),
        Ok(vec![one.clone(), two.clone()])
    );
    assert_eq!(records_of::<ExampleAttribute>(&[]), Ok(vec![]));
    assert_eq!(
        records_of::<ExampleAttribute>(&[text_of(&one), "not a record".to_string()]),
        Err(PersistenceError::ErrorGeneric("Error Converting EAVs".to_string()))
    );
}

#[test]
fn query_is_answered_from_what_all_three_trees_hold() {
    let one = rec("e", "a", "v", 1);
    let two = rec("e", "b", "w", 2);
    let three = rec("f", "a", "v", 3);
    let by_entity = vec![text_of(&one), text_of(&two), text_of(&three)];
    let by_attribute = vec![text_of(&three), text_of(&one)];
    let by_value = vec![text_of(&one), text_of(&two), text_of(&three)];
    let mut expected = EaviSet::new();
    expected.insert(one.clone());
    expected.insert(three.clone());
    assert_eq!(
        fetch_from_candidates(&query(None), &by_entity, &by_attribute, &by_value),
        Ok(expected)
    );
    let mut expected = EaviSet::new();
    expected.insert(one.clone());
    assert_eq!(
        fetch_from_candidates(&query(Some("e")), &by_entity, &by_attribute, &by_value),
        Ok(expected)
    );
    // A file that holds no record counts only where all three trees have it.
    let broken = "broken".to_string();
    assert_eq!(
        fetch_from_candidates(
            &query(None),
            &[text_of(&one), broken.clone()],
            &[text_of(&one)],
            &[text_of(&one), broken.clone()]
        )
        .map(|set| set.len()),
        Ok(1)
    );
    assert_eq!(
        fetch_from_candidates(
            &query(None),
            &[broken.clone()],
            &[broken.clone()],
            &[broken.clone()]
        ),
        Err(PersistenceError::ErrorGeneric("Error Converting EAVs".to_string()))
    );
}

#[test]
fn a_query_reads_under_the_names_that_it_accepts() {
    let exact = EavFilter::single(Address::from_text("Qm1"));
    assert!(reads_under(&exact, &Address::from_text("Qm1")));
    assert!(!reads_under(&exact, &Address::from_text("Qm2")));
    assert!(reads_under(&EavFilter::Any, &Address::from_text("Qm2")));
    let named = EavFilter::single(ExampleAttribute::from_string("without-payload".to_string()));
    assert!(reads_under(&named, &ExampleAttribute::WithoutPayload));
}

#[test]
fn key_of_a_record_is_entity_and_index() {
    assert_eq!(eav_key(&Address::from_text("Qmfoo"), 5), "Qmfoo::5");
    assert_eq!(eav_key(&Address::from_text(""), -1), "::-1");
    assert_eq!(
        eav_key(&Address::from_text("e"), i64::MAX),
        "e::9223372036854775807"
    );
    let record = rec("Qmfoo", "a", "v", 12);
    assert_eq!(eav_entry(&record), ("Qmfoo::12".to_string(), text_of(&record)));
    assert_eq!(scan_start(&query(Some("Qmfoo"))), Some("Qmfoo::".to_string()));
    assert_eq!(scan_start(&query(None)), None);
    assert!(key_is_of("Qmfoo::12", &Address::from_text("Qmfoo")));
    assert!(key_is_of("Qmfoo::", &Address::from_text("Qmfoo")));
    assert!(!key_is_of("Qmfoo:12", &Address::from_text("Qmfoo")));
    assert!(!key_is_of("Qmfo", &Address::from_text("Qmfoo")));
    assert!(!key_is_of("Qmfoobar::12", &Address::from_text("Qmfoo")));
    assert!(!key_is_of("xQmfoo::12", &Address::from_text("Qmfoo")));
}

#[test]
fn what_was_read_is_content_or_a_failure() {
    assert_eq!(
        handle_cursor_tuple_result(Ok((
            "Qmfoo".to_string(),
            Some(StoredValue::Json("\"foo\"".to_string()))
        ))),
        Ok((Address::from_text("Qmfoo"), Some(Content::from_json("\"foo\""))))
    );
    assert_eq!(
        handle_cursor_tuple_result(Ok(("Qmfoo".to_string(), None))),
        Ok((Address::from_text("Qmfoo"), None))
    );
    assert_eq!(
        handle_cursor_tuple_result(Ok(("Qmfoo".to_string(), Some(StoredValue::Other)))),
        Err(StoreError::Other("data error: unexpected type, expected json".to_string()))
    );
    assert_eq!(
        handle_cursor_tuple_result(Err(StoreError::MapFull)),
        Err(StoreError::MapFull)
    );
    let record = rec("e", "a", "v", 1);
    assert_eq!(
        handle_cursor_result::<ExampleAttribute>(Ok(Some(StoredValue::Json(text_of(&record))))),
        Ok(record)
    );
    assert_eq!(
        handle_cursor_result::<ExampleAttribute>(Ok(Some(StoredValue::Json("{}".to_string())))),
        Err(StoreError::Other("data error: not a record".to_string()))
    );
    assert_eq!(
        handle_cursor_result::<ExampleAttribute>(Ok(None)),
        Err(StoreError::Other("data error: Empty".to_string()))
    );
    assert_eq!(
        handle_cursor_result::<ExampleAttribute>(Ok(Some(StoredValue::Other))),
        Err(StoreError::Other("data error: unexpected type, expected json".to_string()))
    );
    assert_eq!(
        handle_cursor_result::<ExampleAttribute>(Err(StoreError::Other("io".to_string()))),
        Err(StoreError::Other("io".to_string()))
    );
}

#[test]
fn report_counts_the_bytes_of_what_is_held() {
    assert_eq!(record_key(42), "42");
    assert_eq!(record_key(-7), "-7");
    assert_eq!(record_key(0), "0");
    assert_eq!(report_of(&[]), Some(StorageReport::new(0)));
    assert_eq!(report_of(&strings(&["some bytes"])), Some(StorageReport::new(10)));
    assert_eq!(
        report_of(&strings(&["some bytes", "more bytes"])),
        Some(StorageReport::new(10 + 10))
    );
    assert_eq!(report_of(&strings(&["ä", ""])), Some(StorageReport::new(2)));
}

#[test]
fn pickle_report_storage_test() {
    // add some content
    let mut held = vec![Content::from_json("some bytes").to_string()];
    assert_eq!(report_of(&held), Some(StorageReport::new(10)));

    // add some more
    held.push(Content::from_json("more bytes").to_string());
    assert_eq!(report_of(&held), Some(StorageReport::new(10 + 10)));
}

fn kept(record: &Record) -> (String, StoredValue) {
    let (key, text) = eav_entry(record);
    (key, StoredValue::Json(text))
}

fn set_of(records: &[Record]) -> EaviSet<ExampleAttribute> {
    let mut set = EaviSet::new();
    for r in records {
        set.insert(r.clone());
    }
    set
}

#[test]
fn scan_for_an_entity_reads_up_to_the_first_foreign_key() {
    let early = rec("Qmfoo", "a", "v", -3);
    let first = rec("Qmfoo", "a", "v", 1);
    let second = rec("Qmfoo", "b", "w", 2);
    let foreign = rec("Qmgoo", "a", "v", 1);
    let entries = vec![
        kept(&early),
        kept(&first),
        kept(&second),
        kept(&foreign),
        ("Qmfoo::9".to_string(), StoredValue::Json("no record".to_string())),
    ];
    let of_foo = query(Some("Qmfoo"));
    assert_eq!(scan_length(&of_foo, &entries), 3);
    let answer = fetch_from_scan(&of_foo, &entries).unwrap();
    assert!(answer.same_as(&set_of(&[early.clone(), first.clone(), second.clone()])));
    // A query for another entity reads nothing from this scan.
    assert_eq!(scan_length(&query(Some("Qmgoo")), &entries), 0);
    assert_eq!(fetch_from_scan(&query(Some("Qmgoo")), &entries).unwrap().len(), 0);
    // A query that leaves the entity open reads every entry, and fails on the last.
    assert_eq!(scan_length(&query(None), &entries), 5);
    assert_eq!(
        fetch_from_scan(&query(None), &entries).err(),
        Some(StoreError::Other("data error: not a record".to_string()))
    );
    assert!(fetch_from_scan(&query(None), &entries[..4])
        .unwrap()
        .same_as(&set_of(&[early, first, second, foreign])));
}

#[test]
fn scan_fails_on_the_first_entry_that_holds_no_record() {
    let first = rec("Qmfoo", "a", "v", 1);
    let entries = vec![
        kept(&first),
        ("Qmfoo::2".to_string(), StoredValue::Other),
        ("Qmfoo::3".to_string(), StoredValue::Json("{}".to_string())),
    ];
    assert_eq!(
        fetch_from_scan(&query(Some("Qmfoo")), &entries).err(),
        Some(StoreError::Other("data error: unexpected type, expected json".to_string()))
    );
    assert_eq!(
        fetch_from_scan(&query(Some("Qmfoo")), &entries[2..]).err(),
        Some(StoreError::Other("data error: not a record".to_string()))
    );
    assert_eq!(fetch_from_scan(&query(Some("Qmfoo")), &[]).unwrap().len(), 0);
    assert_eq!(
        record_of_value::<ExampleAttribute>(&StoredValue::Json(text_of(&first))),
        Ok(first)
    );
}

#[test]
fn scan_answers_the_query_over_what_it_read() {
    let old = rec("Qmfoo", "a", "v", 1);
    let new = rec("Qmfoo", "a", "w", 2);
    let other = rec("Qmfoo", "b", "v", 1);
    let entries = vec![kept(&old), kept(&other), kept(&new)];
    let latest = EaviQuery::new(
        EavFilter::single(Address::from_text("Qmfoo")),
        EavFilter::single(ExampleAttribute::WithPayload("a".to_string())),
        EavFilter::Any,
        IndexFilter::LatestByAttribute,
        None,
    );
    assert!(fetch_from_scan(&latest, &entries).unwrap().same_as(&set_of(&[new])));
}

#[test]
fn candidates_that_hold_no_record_fail_the_fetch() {
    let first = rec("Qmfoo", "a", "v", 1);
    let good = text_of(&first);
    let all = query(None);
    let both = strings(&[&good, "no record"]);
    assert_eq!(
        fetch_from_candidates(&all, &both, &both, &both).err(),
        Some(PersistenceError::ErrorGeneric("Error Converting EAVs".to_string()))
    );
    // A text that is not in all three lists is no candidate.
    let one = strings(&[&good]);
    assert!(fetch_from_candidates(&all, &both, &one, &both)
        .unwrap()
        .same_as(&set_of(&[first])));
}

#[test]
fn a_record_is_placed_under_the_first_index_that_no_record_has() {
    let held = set_of(&[
        rec("e", "a", "v", 5),
        rec("other", "a", "v", 6),
        rec("e", "b", "w", 8),
    ]);
    assert!(index_is_held(held.as_slice(), 5));
    assert!(index_is_held(held.as_slice(), 6));
    assert!(!index_is_held(held.as_slice(), 7));
    assert!(!index_is_held(&[rec("e", "a", "v", 1)][..0], 1));
    // A free index is kept.
    assert_eq!(place_by_index(rec("e", "a", "v", 4), &held), Ok(rec("e", "a", "v", 4)));
    // A taken index gives way to the next free one, whoever has taken it.
    assert_eq!(place_by_index(rec("e", "a", "v", 5), &held), Ok(rec("e", "a", "v", 7)));
    assert_eq!(place_by_index(rec("new", "a", "v", 6), &held), Ok(rec("new", "a", "v", 7)));
    assert_eq!(place_by_index(rec("e", "a", "v", 8), &held), Ok(rec("e", "a", "v", 9)));
    // No index is left after the greatest.
    let last = set_of(&[rec("e", "a", "v", i64::MAX)]);
    assert_eq!(
        place_by_index(rec("f", "a", "v", i64::MAX), &last),
        Err(PersistenceError::ErrorGeneric("No index is left for the record".to_string()))
    );
    assert_eq!(
        place_by_index(rec("f", "a", "v", i64::MAX - 1), &last),
        Ok(rec("f", "a", "v", i64::MAX - 1))
    );
}
