use holochain_persistence::cas::content::{
    AddressableContent, Content, ExampleAddressableContent, OtherExampleAddressableContent,
};
use holochain_persistence::cas::storage::ContentAddressableStorage;
use holochain_persistence::eav::eavi::ExampleAttribute;
use holochain_persistence::error::PersistenceError;
use holochain_persistence::has_uuid::HasUuid;
use holochain_persistence::hash::{Address, HashString};
use holochain_persistence::mem::cas::MemoryStorage;
use holochain_persistence::mem::eav::EavMemoryStorage;
use holochain_persistence::order::{compare_bytes, Precedence};
use holochain_persistence::reporting::{ReportStorage, StorageReport};
use holochain_persistence::txn::cursor::NonTransactionalCursor;
use holochain_persistence::txn::suite::PersistenceManagerTestSuite;

fn raw(text: &str) -> Content {
    Content::from_string(serde_json::to_string(text).unwrap())
}

#[test]
fn memory_round_trip() {
    let mut cas = MemoryStorage::new();
    let mut eav: EavMemoryStorage<ExampleAttribute> = EavMemoryStorage::new();
    let suite = PersistenceManagerTestSuite::new(
        NonTransactionalCursor::new(&cas, &eav),
        NonTransactionalCursor::<ExampleAttribute, _, _>::new(&cas, &eav),
    );
    let content = ExampleAddressableContent::try_from_content(&raw("foo")).unwrap();
    let other = OtherExampleAddressableContent::try_from_content(&raw("bar")).unwrap();
    assert_eq!(suite.cas_round_trip_test(&mut cas, &mut eav, &content, &other), Ok(true));
    assert_eq!(cas.fetch(&content.address()), Ok(Some(raw("foo"))));
    assert_eq!(cas.fetch(&other.address()), Ok(Some(raw("bar"))));
    assert_eq!(cas.len(), 2);
}

#[test]
fn address_is_the_base58_of_the_sha256_multihash() {
    // The multihash of "hello world", as the multihash crate documents it.
    assert_eq!(
        HashString::encode_from_bytes(b"hello world"),
        HashString::from_text("QmaozNR7DZHQK1ZcU9p7QdrshMvXqWK6gpu5rmrkPdT3L4")
    );
    assert_eq!(
        HashString::encode_from_str("foo").to_string(),
        "QmRJzsvyCQyizr73Gmms8ZRtvNxmgqumxc2KUp71dfEmoj"
    );
    assert_eq!(
        HashString::encode_from_str("").as_str(),
        "QmdfTbBqBPQ7VNxZEYEj14VmRuZBkqFbiwReogJgS1zR1n"
    );
    assert_eq!(
        raw("foo").address(),
        Address::from_text("QmaKze4knhzQPuofhaXfg8kPG3V92MLgDX95xe8g5eafLn")
    );
}

#[test]
fn identical_content_has_identical_address() {
    let one = ExampleAddressableContent::try_from_content(&raw("foo")).unwrap();
    let two = OtherExampleAddressableContent::try_from_content(&raw("foo")).unwrap();
    assert_eq!(one.address(), two.address());
    assert_eq!(one.content(), two.content());
    assert_ne!(
        one.address(),
        ExampleAddressableContent::try_from_content(&raw("bar")).unwrap().address()
    );
}

#[test]
fn content_is_stored_as_itself() {
    let content = raw("foo");
    assert_eq!(content.content(), content);
    assert_eq!(Content::try_from_content(&content), Ok(content.clone()));
    assert_eq!(content.to_string(), "\"foo\"");
    assert_eq!(content.as_str(), "\"foo\"");
    assert_eq!(content.byte_len(), 5);
    assert!(content.same(&Content::from_json("\"foo\"")));
    assert!(!content.same(&Content::from_json("foo")));
}

#[test]
fn adding_twice_is_adding_once() {
    let mut cas = MemoryStorage::new();
    let content = ExampleAddressableContent::try_from_content(&raw("foo")).unwrap();
    assert_eq!(cas.contains(&content.address()), Ok(false));
    assert_eq!(cas.add(&content), Ok(()));
    assert_eq!(cas.add(&content), Ok(()));
    assert_eq!(cas.len(), 1);
    assert_eq!(cas.contains(&content.address()), Ok(true));
    assert_eq!(cas.fetch(&content.address()), Ok(Some(raw("foo"))));
    assert_eq!(cas.entries(), vec![(content.address(), raw("foo"))]);
}

#[test]
fn put_replaces_what_was_there() {
    let mut cas = MemoryStorage::new();
    let address = Address::from_text("k");
    cas.put(address.clone(), Content::from_json("1"));
    cas.put(Address::from_text("l"), Content::from_json("2"));
    cas.put(address.clone(), Content::from_json("3"));
    assert_eq!(cas.len(), 2);
    assert_eq!(cas.fetch(&address), Ok(Some(Content::from_json("3"))));
    assert_eq!(cas.fetch(&Address::from_text("l")), Ok(Some(Content::from_json("2"))));
    assert_eq!(cas.fetch(&Address::from_text("m")), Ok(None));
}

#[test]
fn absorb_takes_all_and_prefers_the_other() {
    let mut cas = MemoryStorage::new();
    cas.put(Address::from_text("a"), Content::from_json("1"));
    cas.put(Address::from_text("b"), Content::from_json("2"));
    let mut other = MemoryStorage::new();
    other.put(Address::from_text("b"), Content::from_json("20"));
    other.put(Address::from_text("c"), Content::from_json("30"));
    let id = cas.get_id();
    cas.absorb(&other);
    assert_eq!(cas.get_id(), id);
    assert_eq!(cas.len(), 3);
    assert_eq!(cas.fetch(&Address::from_text("a")), Ok(Some(Content::from_json("1"))));
    assert_eq!(cas.fetch(&Address::from_text("b")), Ok(Some(Content::from_json("20"))));
    assert_eq!(cas.fetch(&Address::from_text("c")), Ok(Some(Content::from_json("30"))));
    assert_eq!(other.len(), 2);
}

#[test]
fn stores_have_their_own_identity() {
    let one = MemoryStorage::new();
    let two = MemoryStorage::new();
    assert_ne!(one.get_id(), two.get_id());
    assert_eq!(one.clone().get_id(), one.get_id());
    let eav: EavMemoryStorage<ExampleAttribute> = EavMemoryStorage::new();
    assert_ne!(eav.get_id(), one.get_id());
}

#[test]
fn memory_stores_do_not_report() {
    let cas = MemoryStorage::new();
    assert_eq!(
        cas.get_storage_report(),
        Err(PersistenceError::ErrorGeneric(
            "Not implemented for this storage type".to_string()
        ))
    );
    let eav: EavMemoryStorage<ExampleAttribute> = EavMemoryStorage::new();
    assert_eq!(
        eav.get_storage_report(),
        Err(PersistenceError::ErrorGeneric(
            "Not implemented for this storage type".to_string()
        ))
    );
    assert_eq!(StorageReport::new(10).bytes_total, 10);
}

#[test]
fn bytes_are_compared_lexicographically() {
    assert_eq!(compare_bytes(b"", b""), Precedence::Same);
    assert_eq!(compare_bytes(b"", b"a"), Precedence::Before);
    assert_eq!(compare_bytes(b"a", b""), Precedence::After);
    assert_eq!(compare_bytes(b"abc", b"abd"), Precedence::Before);
    assert_eq!(compare_bytes(b"abd", b"abc"), Precedence::After);
    assert_eq!(compare_bytes(b"ab", b"abc"), Precedence::Before);
    assert_eq!(compare_bytes(b"b", b"abc"), Precedence::After);
    assert_eq!(compare_bytes(&[255], &[0, 255]), Precedence::After);
    assert_eq!(
        Address::from_text("Qm1").compare(&Address::from_text("Qm2")),
        Precedence::Before
    );
    assert!(Address::from_text("x").same(&Address::from_string("x".to_string())));
    assert_eq!(HashString::new().to_string(), "");
}
