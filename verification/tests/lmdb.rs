use holochain_persistence::error::PersistenceError as BaseError;
use holochain_persistence::lmdb::common::{
    growth_failure, grown_map_size, initial_map_size, map_growth_factor, resizable_add,
    write_or_grow,
    write_with_growth, GrowthOutcome, ResizableStore, DEFAULT_INITIAL_MAP_SIZE,
};
use holochain_persistence::lmdb::error::{
    is_store_full_error, is_store_full_result, to_api_error, PersistenceError, StoreError,
};
use holochain_persistence::lmdb::memory::BoundedMemoryStore;
use holochain_persistence::lmdb::txn::{commit, commit_internal};

fn entry(key: &str, value: &str) -> (String, String) {
    (key.to_string(), value.to_string())
}

#[test]
fn growth_factor_and_sizes() {
    assert_eq!(map_growth_factor(), 8);
    assert_eq!(DEFAULT_INITIAL_MAP_SIZE, 100 * 1024 * 1024);
    assert_eq!(initial_map_size(None), 100 * 1024 * 1024);
    assert_eq!(initial_map_size(Some(1024)), 1024);
    assert_eq!(grown_map_size(1024 * 1024), Some(8 * 1024 * 1024));
    assert_eq!(grown_map_size(1), Some(8));
    assert_eq!(grown_map_size(0), None);
    assert_eq!(grown_map_size(usize::MAX / 8), Some(usize::MAX / 8 * 8));
    assert_eq!(grown_map_size(usize::MAX / 8 + 1), None);
}

#[test]
fn full_map_is_told_from_other_failures() {
    assert!(is_store_full_error(&StoreError::MapFull));
    assert!(!is_store_full_error(&StoreError::Other("MapFull".to_string())));
    assert!(is_store_full_result::<()>(&Err(StoreError::MapFull)));
    assert!(!is_store_full_result::<()>(&Err(StoreError::Other("io".to_string()))));
    assert!(!is_store_full_result(&Ok(5)));
    assert_eq!(
        to_api_error(StoreError::MapFull),
        BaseError::ErrorGeneric("environment mapsize reached".to_string())
    );
    assert_eq!(
        to_api_error(StoreError::Other("database corrupted".to_string())),
        BaseError::ErrorGeneric("database corrupted".to_string())
    );
    assert_eq!(
        PersistenceError::from_store_error(StoreError::MapFull).into_base(),
        BaseError::ErrorGeneric("environment mapsize reached".to_string())
    );
}

#[test]
fn can_grow_map_on_write() {
    let inititial_mmap_size = 1024 * 1024;
    let mut lmdb = BoundedMemoryStore::new(Some(inititial_mmap_size));
    // Each entry takes seven bytes of key and 16384 bytes of value.
    let content = "0".repeat(16 * 1024);
    let mut i = 0;

    // put data in there until the mmap size changes
    while lmdb.map_size().unwrap() == inititial_mmap_size {
        resizable_add(&mut lmdb, &format!("key{:04}", i), &content).unwrap();
        i += 1;
    }

    assert_eq!(
        lmdb.map_size().unwrap(),
        inititial_mmap_size * map_growth_factor()
    );
    // 63 entries fit into the first map.
    assert_eq!(i, 64);

    // Do it again for good measure
    while lmdb.map_size().unwrap() == map_growth_factor() * inititial_mmap_size {
        resizable_add(&mut lmdb, &format!("key{:04}", i), &content).unwrap();
        i += 1;
    }

    assert_eq!(
        lmdb.map_size().unwrap(),
        inititial_mmap_size * map_growth_factor() * map_growth_factor(),
    );
    // Nothing was lost on the way.
    for j in 0..i {
        assert_eq!(lmdb.get(&format!("key{:04}", j)), Some(content.clone()));
    }
}

#[test]
fn can_write_entry_larger_than_map() {
    // can write a single entry that is much larger than the current mmap
    let inititial_mmap_size = 1024 * 1024;
    let mut lmdb = BoundedMemoryStore::new(Some(inititial_mmap_size));
    resizable_add(&mut lmdb, "committed", "before").unwrap();

    let data: Vec<u8> = std::iter::repeat(0).take(10 * inititial_mmap_size).collect();
    let data = String::from_utf8(data).unwrap();

    resizable_add(&mut lmdb, "a", &data).expect("could not write to lmdb");
    // The map grows by the factor twice before it holds the entry.
    assert_eq!(lmdb.map_size(), Ok(inititial_mmap_size * 64));
    assert_eq!(lmdb.get("a"), Some(data));
    assert_eq!(lmdb.get("committed"), Some("before".to_string()));
}

#[test]
fn a_write_that_finds_the_map_full_writes_nothing() {
    let mut store = BoundedMemoryStore::new(Some(10));
    assert_eq!(store.try_write(&[entry("ab", "cd")]), Ok(()));
    assert_eq!(
        store.try_write(&[entry("k", "v"), entry("long", "value")]),
        Err(StoreError::MapFull)
    );
    assert_eq!(store.get("k"), None);
    assert_eq!(store.map_size(), Ok(10));
    // Exactly ten bytes fit.
    assert_eq!(store.try_write(&[entry("k", "v"), entry("lo", "ng")]), Ok(()));
    assert_eq!(store.get("lo"), Some("ng".to_string()));
    assert_eq!(store.try_write(&[entry("", "")]), Ok(()));
    assert_eq!(store.try_write(&[entry("x", "")]), Err(StoreError::MapFull));
    assert_eq!(
        store.set_map_size(9),
        Err(StoreError::Other("the map cannot be smaller than what it holds".to_string()))
    );
    assert_eq!(store.set_map_size(11), Ok(()));
    assert_eq!(store.try_write(&[entry("x", "")]), Ok(()));
}

#[test]
fn one_attempt_writes_or_grows() {
    let mut store = BoundedMemoryStore::new(Some(4));
    let staged = [entry("key", "value")];
    assert!(matches!(write_or_grow(&mut store, &staged), Ok(GrowthOutcome::Grown)));
    assert_eq!(store.map_size(), Ok(32));
    assert_eq!(store.get("key"), None);
    assert!(matches!(write_or_grow(&mut store, &staged), Ok(GrowthOutcome::Written)));
    assert_eq!(store.get("key"), Some("value".to_string()));

    let mut store = BoundedMemoryStore::new(Some(4));
    assert_eq!(commit_internal(&mut store, &staged), Ok(false));
    assert_eq!(store.map_size(), Ok(32));
    assert_eq!(commit_internal(&mut store, &staged), Ok(true));
    assert_eq!(store.map_size(), Ok(32));
    assert_eq!(store.get("key"), Some("value".to_string()));
}

#[test]
fn commit_retries_until_the_staged_entries_fit() {
    let mut store = BoundedMemoryStore::new(Some(2));
    let staged = [entry("a", "1"), entry("b", "22"), entry("a", "333"), entry("c", "4444")];
    assert_eq!(commit(&mut store, &staged), Ok(()));
    // Fourteen bytes: 2 grows to 16.
    assert_eq!(store.map_size(), Ok(16));
    assert_eq!(store.get("a"), Some("333".to_string()));
    assert_eq!(store.get("b"), Some("22".to_string()));
    assert_eq!(store.get("c"), Some("4444".to_string()));
    // What fits is written without growth.
    assert_eq!(write_with_growth(&mut store, &[entry("d", "5")]), Ok(()));
    assert_eq!(store.map_size(), Ok(16));
}

#[test]
fn a_map_without_size_cannot_grow() {
    let mut store = BoundedMemoryStore::new(Some(0));
    assert_eq!(
        resizable_add(&mut store, "a", "b"),
        Err(StoreError::Other("the memory map is full and cannot grow".to_string()))
    );
    assert_eq!(
        commit(&mut store, &[entry("a", "b")]),
        Err(BaseError::ErrorGeneric("the memory map is full and cannot grow".to_string()))
    );
    assert_eq!(store.get("a"), None);
    assert_eq!(store.map_size(), Ok(0));
    assert_eq!(commit(&mut store, &[]), Ok(()));
}

#[test]
fn nothing_staged_is_committed_at_once() {
    let mut store = BoundedMemoryStore::new(Some(4));
    assert_eq!(commit_internal(&mut store, &[]), Ok(true));
    assert_eq!(commit(&mut store, &[]), Ok(()));
    assert_eq!(store.map_size(), Ok(4));
    assert_eq!(store.get("key"), None);
    // So it is with a map of no size, which cannot grow.
    let mut store = BoundedMemoryStore::new(Some(0));
    assert_eq!(commit_internal(&mut store, &[]), Ok(true));
    assert_eq!(commit(&mut store, &[]), Ok(()));
    assert_eq!(store.map_size(), Ok(0));
}

#[test]
fn a_write_that_fits_leaves_the_map_as_it_is() {
    let mut store = BoundedMemoryStore::new(Some(16));
    assert_eq!(resizable_add(&mut store, "key", "value"), Ok(()));
    assert_eq!(store.map_size(), Ok(16));
    assert_eq!(resizable_add(&mut store, "k2", "v2345"), Ok(()));
    assert_eq!(store.map_size(), Ok(16));
    // One more byte fills the map, and the next one does not fit: the map
    // grows once, by the factor.
    assert_eq!(resizable_add(&mut store, "k", ""), Ok(()));
    assert_eq!(store.map_size(), Ok(16));
    assert_eq!(resizable_add(&mut store, "l", ""), Ok(()));
    assert_eq!(store.map_size(), Ok(16 * 8));
    assert_eq!(store.get("key"), Some("value".to_string()));
    assert_eq!(store.get("k2"), Some("v2345".to_string()));
    assert_eq!(store.get("k"), Some("".to_string()));
    assert_eq!(store.get("l"), Some("".to_string()));
    // A write that needs more than one growth grows as often as it needs.
    let long = "x".repeat(16 * 8 * 8);
    assert_eq!(write_with_growth(&mut store, &[entry("long", &long)]), Ok(()));
    assert_eq!(store.map_size(), Ok(16 * 8 * 8 * 8));
}

#[test]
fn a_full_map_is_never_passed_on() {
    assert_eq!(
        growth_failure(StoreError::MapFull),
        StoreError::Other("the memory map is full and cannot grow".to_string())
    );
    assert_eq!(
        growth_failure(StoreError::Other("io".to_string())),
        StoreError::Other("io".to_string())
    );
    let mut store = BoundedMemoryStore::new(Some(0));
    assert_eq!(
        resizable_add(&mut store, "key", "value"),
        Err(StoreError::Other("the memory map is full and cannot grow".to_string()))
    );
    assert_eq!(
        write_or_grow(&mut store, &[entry("key", "value")]).err(),
        Some(StoreError::Other("the memory map is full and cannot grow".to_string()))
    );
    assert_eq!(store.get("key"), None);
}
