use holochain_persistence::hash::Address;
use holochain_persistence::univ_map::{Key, UniversalMap};

#[derive(Debug, PartialEq)]
enum Held {
    Number(u8),
    Flag(bool),
}

#[test]
fn univ_map_can_get_entries() {
    let mut univ_map: UniversalMap<Address, Held> = UniversalMap::default();

    let key: Key<_, Held> = Key::new(Address::from_text("abc"));
    let key2: Key<_, Held> = Key::new(Address::from_text("def"));
    let _result = univ_map.insert(Key::new(Address::from_text("abc")), Held::Number(123));
    let _result = univ_map.insert(Key::new(Address::from_text("def")), Held::Flag(true));
    assert_eq!(univ_map.get(&key), Some(&Held::Number(123)));
    assert_eq!(univ_map.get(&key2), Some(&Held::Flag(true)))
}

#[test]
fn univ_map_holds_one_value_under_a_key() {
    let mut map: UniversalMap<Address, u32> = UniversalMap::new();
    assert!(map.is_empty());
    assert_eq!(map.len(), 0);
    assert_eq!(map.get(&Key::new(Address::from_text("a"))), None);
    assert_eq!(map.insert(Key::new(Address::from_text("a")), 1), Ok(None));
    assert_eq!(map.insert(Key::new(Address::from_text("b")), 2), Ok(None));
    assert_eq!(map.insert(Key::new(Address::from_text("a")), 3), Ok(Some(1)));
    assert_eq!(map.len(), 2);
    assert!(!map.is_empty());
    assert_eq!(map.get(&Key::new(Address::from_text("a"))), Some(&3));
    assert_eq!(map.get(&Key::new(Address::from_text("b"))), Some(&2));
    assert_eq!(map.get(&Key::new(Address::from_text("c"))), None);
    let key: Key<Address, u32> = Key::new(Address::from_text("b"));
    let other: Key<Address, bool> = key.with_value_type();
    assert_eq!(other.0, Address::from_text("b"));
}
