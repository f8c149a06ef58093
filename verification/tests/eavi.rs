use holochain_persistence::cas::content::{
    AddressableContent, Content, ExampleAddressableContent,
};
use holochain_persistence::cas::storage::ContentAddressableStorage;
use holochain_persistence::eav::content::JsonAttribute;
use holochain_persistence::eav::eavi::{
    Attribute, AttributeError, EntityAttributeValueIndex, ExampleAttribute, ExampleEntry,
};
use holochain_persistence::error::{JsonError, PersistenceError};
use holochain_persistence::hash::Address;
use holochain_persistence::json::{field, field_json, record_fields, JsonField};
use holochain_persistence::mem::cas::MemoryStorage;
use holochain_persistence::mem::eav::EavMemoryStorage;
use holochain_persistence::order::Precedence;
use holochain_persistence::txn::cursor::NonTransactionalCursor;
use holochain_persistence::txn::manager::{
    new_example_persistence_manager, ExampleContentAddressableStorage,
    ExampleEntityAttributeValueStorage,
};
use holochain_persistence::txn::suite::{eav_round_trip_test_runner, PersistenceManagerTestSuite};

type ExampleCursor = NonTransactionalCursor<
    ExampleAttribute,
    ExampleContentAddressableStorage,
    ExampleEntityAttributeValueStorage<ExampleAttribute>,
>;

fn example_suite() -> (
    PersistenceManagerTestSuite<ExampleAttribute, ExampleCursor, ExampleAttribute, ExampleCursor>,
    MemoryStorage,
    EavMemoryStorage<ExampleAttribute>,
) {
    let manager = new_example_persistence_manager::<ExampleAttribute>().unwrap();
    let for_tombstones = NonTransactionalCursor::new(&manager.cas, &manager.eav);
    (
        PersistenceManagerTestSuite::new(manager.cursor_provider, for_tombstones),
        manager.cas,
        manager.eav,
    )
}

fn raw(text: &str) -> Content {
    Content::from_string(serde_json::to_string(text).unwrap())
}

fn test_eav_entity() -> ExampleEntry {
    ExampleEntry::new(String::from("a"))
}

#[test]
fn example_eav_round_trip() {
    let (suite, mut cas, mut eav) = example_suite();
    let entity = ExampleAddressableContent::try_from_content(&raw("foo")).unwrap();
    let attribute = ExampleAttribute::WithPayload("favourite-color".into());
    let value = ExampleAddressableContent::try_from_content(&raw("blue")).unwrap();
    assert_eq!(
        suite.eav_test_round_trip(&mut cas, &mut eav, &entity, attribute, &value),
        Ok(true)
    );
}

#[test]
fn example_eav_one_to_many() {
    let (suite, mut cas, mut eav) = example_suite();
    assert_eq!(
        suite.eav_test_one_to_many::<ExampleAddressableContent>(
            &mut cas,
            &mut eav,
            &ExampleAttribute::default()
        ),
        Ok(true)
    );
}

#[test]
fn example_eav_many_to_one() {
    let (suite, mut cas, mut eav) = example_suite();
    assert_eq!(
        suite.eav_test_many_to_one::<ExampleAddressableContent>(
            &mut cas,
            &mut eav,
            &ExampleAttribute::default()
        ),
        Ok(true)
    );
}

#[test]
fn eavi_example_eav_range() {
    let (suite, mut cas, mut eav) = example_suite();
    assert_eq!(
        suite.eav_test_range::<ExampleAddressableContent>(
            &mut cas,
            &mut eav,
            &ExampleAttribute::default()
        ),
        Ok(true)
    );
}

#[test]
fn example_eav_prefixes() {
    let (suite, mut cas, mut eav) = example_suite();
    let mut attrs: Vec<ExampleAttribute> = vec!["a_", "b_", "c_", "d_"]
        .into_iter()
        .map(|p| ExampleAttribute::WithPayload(p.to_string() + "one_to_many"))
        .collect();
    attrs.push(ExampleAttribute::WithoutPayload);
    assert_eq!(
        suite.eav_test_multiple_attributes::<ExampleAddressableContent>(&mut cas, &mut eav, attrs),
        Ok(true)
    );
}

#[test]
fn validate_attribute_paths() {
    assert!(EntityAttributeValueIndex::new(
        &test_eav_entity().address(),
        &ExampleAttribute::WithPayload("abc".into()),
        &test_eav_entity().address()
    )
    .is_ok());
    assert!(EntityAttributeValueIndex::new(
        &test_eav_entity().address(),
        &ExampleAttribute::WithPayload("abc123".into()),
        &test_eav_entity().address()
    )
    .is_ok());
    assert!(EntityAttributeValueIndex::new(
        &test_eav_entity().address(),
        &ExampleAttribute::WithPayload("123".into()),
        &test_eav_entity().address()
    )
    .is_ok());
}

#[test]
fn round_trip_runner_passes() {
    let entity = ExampleAddressableContent::try_from_content(&raw("foo")).unwrap();
    let value = ExampleAddressableContent::try_from_content(&raw("blue")).unwrap();
    assert_eq!(
        eav_round_trip_test_runner(
            entity,
            ExampleAttribute::WithPayload("favourite-color".into()),
            value
        ),
        Ok(true)
    );
}

#[test]
fn record_keeps_what_it_was_made_of() {
    let entity = Address::from_text("e");
    let value = Address::from_text("v");
    let attribute = ExampleAttribute::WithPayload("likes".into());
    let mut record =
        EntityAttributeValueIndex::new_with_index(&entity, &attribute, &value, 42).unwrap();
    assert_eq!(record.entity(), entity);
    assert_eq!(record.attribute(), attribute);
    assert_eq!(record.value(), value);
    assert_eq!(record.index(), 42);
    record.set_index(-7);
    assert_eq!(record.index(), -7);
    assert_eq!(record.entity(), entity);
    assert_eq!(record.value(), value);
}

#[test]
fn new_record_is_indexed_by_the_clock() {
    let entity = Address::from_text("e");
    let record =
        EntityAttributeValueIndex::new(&entity, &ExampleAttribute::WithoutPayload, &entity)
            .unwrap();
    // Nanoseconds since the epoch, later than the first of January 2020.
    assert!(record.index() > 1_577_836_800_000_000_000);
}

#[test]
fn records_are_ordered_by_entity_attribute_value_index() {
    let a = Address::from_text("a");
    let b = Address::from_text("b");
    let bare = ExampleAttribute::WithoutPayload;
    let paid = ExampleAttribute::WithPayload("x".into());
    let make = |e: &Address, at: &ExampleAttribute, v: &Address, i: i64| {
        EntityAttributeValueIndex::new_with_index(e, at, v, i).unwrap()
    };
    let base = make(&a, &bare, &a, 5);
    assert_eq!(base.compare(&make(&a, &bare, &a, 5)), Precedence::Same);
    assert_eq!(base.compare(&make(&a, &bare, &a, 6)), Precedence::Before);
    assert_eq!(base.compare(&make(&a, &bare, &a, 4)), Precedence::After);
    // The value counts before the index.
    assert_eq!(base.compare(&make(&a, &bare, &b, 0)), Precedence::Before);
    // The attribute counts before the value.
    assert_eq!(make(&a, &paid, &a, 0).compare(&make(&a, &bare, &b, 9)), Precedence::After);
    // The entity counts before everything else.
    assert_eq!(make(&b, &bare, &a, 0).compare(&make(&a, &paid, &b, 9)), Precedence::After);
    assert!(base.same(&make(&a, &bare, &a, 5)));
    assert!(!base.same(&make(&a, &bare, &a, 6)));
}

#[test]
fn attributes_are_ordered_bare_first_then_by_payload() {
    let bare = ExampleAttribute::WithoutPayload;
    let a = ExampleAttribute::WithPayload("a".into());
    let ab = ExampleAttribute::WithPayload("ab".into());
    let b = ExampleAttribute::WithPayload("b".into());
    let empty = ExampleAttribute::WithPayload("".into());
    assert_eq!(bare.compare(&bare), Precedence::Same);
    assert_eq!(bare.compare(&empty), Precedence::Before);
    assert_eq!(empty.compare(&bare), Precedence::After);
    assert_eq!(empty.compare(&a), Precedence::Before);
    assert_eq!(a.compare(&ab), Precedence::Before);
    assert_eq!(ab.compare(&b), Precedence::Before);
    assert_eq!(b.compare(&a), Precedence::After);
    assert_eq!(ab.compare(&ab), Precedence::Same);
    // The order is that of the derived comparison.
    assert!(bare < empty && empty < a && a < ab && ab < b);
}

#[test]
fn attribute_from_and_to_text() {
    assert_eq!(
        ExampleAttribute::from_string("without-payload".to_string()),
        ExampleAttribute::WithoutPayload
    );
    assert_eq!(
        ExampleAttribute::from_string("favourite-color".to_string()),
        ExampleAttribute::WithPayload("favourite-color".to_string())
    );
    assert_eq!(ExampleAttribute::WithoutPayload.to_string(), "without-payload");
    assert_eq!(ExampleAttribute::WithPayload("abc".into()).to_string(), "abc");
    assert_eq!(ExampleAttribute::default(), ExampleAttribute::WithoutPayload);
}

#[test]
fn attribute_errors_in_words() {
    assert_eq!(
        AttributeError::Unrecognized("colour".to_string()).to_json_error(),
        JsonError::ErrorGeneric("Unknown attribute: colour".to_string())
    );
    assert_eq!(
        AttributeError::ParseError.to_json_error(),
        JsonError::ErrorGeneric("Could not parse attribute, bad regex match".to_string())
    );
    assert_eq!(
        PersistenceError::from_json_error(JsonError::IoError("disk".to_string())),
        PersistenceError::IoError("disk".to_string())
    );
    assert_eq!(
        PersistenceError::from_json_error(JsonError::SerializationError("bad".to_string())),
        PersistenceError::SerializationError("bad".to_string())
    );
    assert_eq!(PersistenceError::generic("oops").to_string(), "oops");
}

#[test]
fn example_entry_content_is_a_json_object() {
    let entry = ExampleEntry::new("a \"quoted\" word".to_string());
    assert_eq!(entry.address(), Address::from_text("a \"quoted\" word"));
    assert_eq!(
        entry.content(),
        Content::from_json("{\"data\":\"a \\\"quoted\\\" word\"}")
    );
    let back = ExampleEntry::try_from_content(&entry.content()).unwrap();
    assert_eq!(back, entry);
}

#[test]
fn example_entry_refuses_other_content() {
    for text in ["", "{}", "{\"data\":5}", "{\"date\":\"a\"}", "{\"data\":\"a\"", "\"data\""] {
        match ExampleEntry::try_from_content(&Content::from_json(text)) {
            Err(JsonError::SerializationError(_)) => {}
            other => panic!("{:?} gave {:?}", text, other),
        }
    }
}

fn test_eav_attribute() -> ExampleAttribute {
    ExampleAttribute::WithPayload("foo-attribute".into())
}

fn test_eav_value() -> ExampleEntry {
    ExampleEntry::new(String::from("b"))
}

fn test_eav() -> EntityAttributeValueIndex<ExampleAttribute> {
    EntityAttributeValueIndex::new_with_index(
        &test_eav_entity().address(),
        &test_eav_attribute(),
        &test_eav_value().address(),
        0,
    )
    .expect("Could not create eav")
}

fn test_eav_content() -> Content {
    test_eav().content()
}

fn test_eav_address() -> Address {
    test_eav().address()
}

#[test]
/// show AddressableContent implementation
fn addressable_content_test() {
    let content = test_eav_content();
    let expected_content = test_eav();
    let address = test_eav_address();
    let addressable_content =
        EntityAttributeValueIndex::<ExampleAttribute>::try_from_content(&content)
            .expect("could not create AddressableContent from Content");
    assert_eq!(addressable_content, expected_content);
    assert_eq!(content, addressable_content.content());
    assert_eq!(address, addressable_content.address());
}

#[test]
/// show CAS round trip
fn cas_round_trip_test() {
    let addressable_contents = vec![test_eav()];
    let mut cas = MemoryStorage::new();
    for f in addressable_contents {
        cas.add(&f).expect("Could not add addressable content");
        assert_eq!(
            Some(f.clone()),
            Some(
                EntityAttributeValueIndex::<ExampleAttribute>::try_from_content(
                    &cas.fetch(&f.address())
                        .expect("Could not fetch addressable content")
                        .expect("Could not fetch addressable content")
                )
                .expect("could not create AddressableContent from Content")
            )
        );
    }
}

#[test]
fn record_content_is_a_json_object() {
    assert_eq!(
        test_eav_content(),
        Content::from_json(
            "{\"index\":0,\"entity\":\"a\",\"value\":\"b\",\"attribute\":{\"WithPayload\":\"foo-attribute\"}}"
        )
    );
    assert_eq!(test_eav_address(), Address::encode_from_str(test_eav_content().as_str()));
    let bare = EntityAttributeValueIndex::new_with_index(
        &Address::from_text("e\"1"),
        &ExampleAttribute::WithoutPayload,
        &Address::from_text("v"),
        -12,
    )
    .unwrap();
    assert_eq!(
        bare.content().to_string(),
        "{\"index\":-12,\"entity\":\"e\\\"1\",\"value\":\"v\",\"attribute\":\"WithoutPayload\"}"
    );
    assert_eq!(
        EntityAttributeValueIndex::<ExampleAttribute>::try_from_content(&bare.content()),
        Ok(bare)
    );
    // The order and the spacing of the fields do not matter to the reader.
    assert_eq!(
        EntityAttributeValueIndex::<ExampleAttribute>::try_from_content(&Content::from_json(
            "{ \"attribute\": {\"WithPayload\": \"foo-attribute\"}, \"value\": \"b\", \"entity\": \"a\", \"index\": 0 }"
        )),
        Ok(test_eav())
    );
}

#[test]
fn what_is_not_a_record_is_refused() {
    for text in [
        "",
        "{}",
        "[]",
        "{\"index\":0,\"entity\":\"a\",\"value\":\"b\"}",
        "{\"index\":\"0\",\"entity\":\"a\",\"value\":\"b\",\"attribute\":\"WithoutPayload\"}",
        "{\"index\":0,\"entity\":1,\"value\":\"b\",\"attribute\":\"WithoutPayload\"}",
        "{\"index\":0,\"entity\":\"a\",\"value\":\"b\",\"attribute\":\"Unknown\"}",
        "{\"index\":0,\"entity\":\"a\",\"value\":\"b\",\"attribute\":{\"WithPayload\":7}}",
    ] {
        match EntityAttributeValueIndex::<ExampleAttribute>::try_from_content(
            &Content::from_json(text),
        ) {
            Err(JsonError::SerializationError(_)) => {}
            other => panic!("{:?} gave {:?}", text, other),
        }
    }
}

#[test]
fn attribute_to_and_from_json() {
    assert_eq!(ExampleAttribute::WithoutPayload.to_json(), "\"WithoutPayload\"");
    assert_eq!(
        ExampleAttribute::WithPayload("a\\b".into()).to_json(),
        "{\"WithPayload\":\"a\\\\b\"}"
    );
    assert_eq!(
        ExampleAttribute::from_json("\"WithoutPayload\""),
        Some(ExampleAttribute::WithoutPayload)
    );
    assert_eq!(
        ExampleAttribute::from_json("{\"WithPayload\":\"a\\\\b\"}"),
        Some(ExampleAttribute::WithPayload("a\\b".into()))
    );
    assert_eq!(ExampleAttribute::from_json("{\"WithPayload\":\"\"}"), Some(ExampleAttribute::WithPayload("".into())));
    assert_eq!(ExampleAttribute::from_json("\"WithPayload\""), None);
    assert_eq!(ExampleAttribute::from_json("{\"WithPayload\":5}"), None);
    assert_eq!(ExampleAttribute::from_json("{\"WithoutPayload\":\"x\"}"), None);
    assert_eq!(ExampleAttribute::from_json(""), None);
}

fn named(name: &str, value: JsonField) -> (String, JsonField) {
    (name.to_string(), value)
}

fn text(value: &str) -> JsonField {
    JsonField::Text(value.to_string())
}

#[test]
fn fields_of_a_record_are_read_by_name_and_kind() {
    let fields = vec![
        named("attribute", JsonField::Other("{\"WithPayload\":\"a\"}".to_string())),
        named("entity", text("Qmfoo")),
        named("extra", JsonField::Integer(1)),
        named("index", JsonField::Integer(-5)),
        named("value", text("Qmbar")),
    ];
    assert_eq!(
        record_fields(&fields),
        Some((
            -5,
            "Qmfoo".to_string(),
            "Qmbar".to_string(),
            "{\"WithPayload\":\"a\"}".to_string()
        ))
    );
    // The attribute may be of any kind, and is handed on as JSON text.
    let mut bare = vec![
        named("index", JsonField::Integer(7)),
        named("entity", text("e")),
        named("value", text("v")),
        named("attribute", text("With\"out")),
    ];
    assert_eq!(
        record_fields(&bare),
        Some((7, "e".to_string(), "v".to_string(), "\"With\\\"out\"".to_string()))
    );
    bare[3] = named("attribute", JsonField::Integer(12));
    assert_eq!(
        record_fields(&bare),
        Some((7, "e".to_string(), "v".to_string(), "12".to_string()))
    );
    // A field that is missing, or of another kind, leaves no record.
    assert_eq!(record_fields(&bare[..3]), None);
    assert_eq!(record_fields(&bare[1..]), None);
    assert_eq!(record_fields(&[]), None);
    bare[0] = named("index", text("7"));
    assert_eq!(record_fields(&bare), None);
    bare[0] = named("index", JsonField::Integer(7));
    bare[1] = named("entity", JsonField::Integer(1));
    assert_eq!(record_fields(&bare), None);
    bare[1] = named("entity", text("e"));
    bare[2] = named("value", JsonField::Other("null".to_string()));
    assert_eq!(record_fields(&bare), None);
}

#[test]
fn a_field_is_found_by_its_name() {
    let fields = vec![
        named("a", JsonField::Integer(1)),
        named("b", text("x")),
        named("a", JsonField::Integer(2)),
    ];
    assert!(matches!(field(&fields, "a"), Some(JsonField::Integer(1))));
    assert!(matches!(field(&fields, "b"), Some(JsonField::Text(_))));
    assert!(field(&fields, "c").is_none());
    assert!(field(&fields, "").is_none());
    assert_eq!(field_json(&JsonField::Integer(i64::MIN)), "-9223372036854775808");
    assert_eq!(field_json(&JsonField::Integer(0)), "0");
    assert_eq!(field_json(&text("a\nb")), "\"a\\nb\"");
    assert_eq!(field_json(&JsonField::Other("[1,2]".to_string())), "[1,2]");
}

#[test]
fn record_is_read_from_an_object_whatever_the_order_of_its_fields() {
    let written = Content::from_json(
        "{ \"value\": \"Qmbar\", \"attribute\": {\"WithPayload\": \"likes\"}, \"more\": [1, null], \"index\": 42, \"entity\": \"Qmfoo\" }",
    );
    let record = EntityAttributeValueIndex::<ExampleAttribute>::try_from_content(&written).unwrap();
    assert_eq!(record.index(), 42);
    assert!(record.entity().same(&Address::from_text("Qmfoo")));
    assert!(record.value().same(&Address::from_text("Qmbar")));
    assert_eq!(record.attribute(), ExampleAttribute::WithPayload("likes".to_string()));
    let bare = Content::from_json(
        "{\"index\":-1,\"entity\":\"e\",\"value\":\"v\",\"attribute\":\"WithoutPayload\"}",
    );
    let record = EntityAttributeValueIndex::<ExampleAttribute>::try_from_content(&bare).unwrap();
    assert_eq!(record.index(), -1);
    assert_eq!(record.attribute(), ExampleAttribute::WithoutPayload);
}

#[test]
fn texts_that_are_no_record_are_refused() {
    for refused in [
        "",
        "no json",
        "[1,2]",
        "\"text\"",
        "{}",
        "{\"index\":\"1\",\"entity\":\"e\",\"value\":\"v\",\"attribute\":\"WithoutPayload\"}",
        "{\"index\":1.5,\"entity\":\"e\",\"value\":\"v\",\"attribute\":\"WithoutPayload\"}",
        "{\"index\":9223372036854775808,\"entity\":\"e\",\"value\":\"v\",\"attribute\":\"WithoutPayload\"}",
        "{\"index\":1,\"entity\":5,\"value\":\"v\",\"attribute\":\"WithoutPayload\"}",
        "{\"index\":1,\"entity\":\"e\",\"attribute\":\"WithoutPayload\"}",
        "{\"index\":1,\"entity\":\"e\",\"value\":\"v\"}",
        "{\"index\":1,\"entity\":\"e\",\"value\":\"v\",\"attribute\":\"Unknown\"}",
        "{\"index\":1,\"entity\":\"e\",\"value\":\"v\",\"attribute\":{\"WithPayload\":5}}",
    ] {
        assert!(
            EntityAttributeValueIndex::<ExampleAttribute>::try_from_content(&Content::from_json(
                refused
            ))
            .is_err(),
            "{}",
            refused
        );
    }
}
