//! A map from typed keys to values.

use crate::eav::eavi::Attribute;
use crate::order::Precedence;
use core::marker::PhantomData;
use vstd::prelude::*;

verus! {

/// A key that also says of which type the value under it is.
#[derive(Debug)]
pub struct Key<K, V>(pub K, pub PhantomData<V>);

impl<K, V> Key<K, V> {
    /// The key with the given name.
    pub fn new(key: K) -> (r: Self)
        ensures
            r.0 == key,
    {
        Key(key, PhantomData)
    }

    /// The same name as a key for values of another type.
    pub fn with_value_type<W>(self) -> (r: Key<K, W>)
        ensures
            r.0 == self.0,
    {
        Key(self.0, PhantomData)
    }
}

/// The keys of a sequence of entries.
pub open spec fn entry_keys<K: Attribute, V>(entries: Seq<(K, V)>) -> Seq<Seq<u8>> {
    entries.map_values(|e: (K, V)| e.0.key())
}

/// The value under a key among the entries, where no key occurs twice.
pub open spec fn value_under<K: Attribute, V>(entries: Seq<(K, V)>, key: Seq<u8>) -> Option<V> {
    if entry_keys(entries).contains(key) {
        Some(entries[entry_keys(entries).index_of(key)].1)
    } else {
        None
    }
}

/// Each entry is found under its key.
proof fn lemma_value_under<K: Attribute, V>(entries: Seq<(K, V)>, i: int)
    requires
        entry_keys(entries).no_duplicates(),
        0 <= i < entries.len(),
    ensures
        value_under(entries, entries[i].0.key()) == Some(entries[i].1),
{
    let keys = entry_keys(entries);
    assert(keys[i] == entries[i].0.key());
    assert(keys.contains(entries[i].0.key()));
    let j = keys.index_of(entries[i].0.key());
    assert(keys[j] == keys[i]);
}

/// Where the entry of the key stands, if there is one.
fn find<K: Attribute, V>(entries: &Vec<(K, V)>, key: &K) -> (place: Option<usize>)
    requires
        entry_keys(entries@).no_duplicates(),
    ensures
        match place {
            Some(i) => i < entries@.len() && entries@[i as int].0.key() == key.key()
                && value_under(entries@, key.key()) == Some(entries@[i as int].1),
            None => value_under(entries@, key.key()) is None,
        },
{
    let ghost keys = entry_keys(entries@);
    let n = entries.len();
    let mut i: usize = 0;
    while i < n
        invariant
            i <= n,
            n == entries@.len(),
            keys == entry_keys(entries@),
            keys.no_duplicates(),
            forall|k: int| 0 <= k < i ==> keys[k] != key.key(),
        decreases n - i,
    {
        if entries[i].0.compare(key) == Precedence::Same {
            proof {
                lemma_value_under(entries@, i as int);
            }
            return Some(i);
        }
        i = i + 1;
    }
    None
}

/// A map from keys to values. It holds at most one value under a key.
#[derive(Debug)]
pub struct UniversalMap<K: Attribute, V> {
    entries: Vec<(K, V)>,
}

impl<K: Attribute, V> UniversalMap<K, V> {
    #[verifier::type_invariant]
    spec fn one_value_per_key(&self) -> bool {
        entry_keys(self.entries@).no_duplicates()
    }

    /// The value under a key, if the map holds one.
    pub closed spec fn at(&self, key: Seq<u8>) -> Option<V> {
        value_under(self.entries@, key)
    }

    /// The number of values that the map holds.
    pub closed spec fn count(&self) -> nat {
        self.entries@.len()
    }

    /// The empty map.
    pub fn new() -> (r: Self)
        ensures
            r.count() == 0,
            forall|key: Seq<u8>| r.at(key) is None,
    {
        let r = UniversalMap { entries: Vec::new() };
        assert(entry_keys(r.entries@) =~= Seq::<Seq<u8>>::empty());
        r
    }

    /// Puts a value under a key, in place of the value that was there, and
    /// returns that value. Always succeeds.
    pub fn insert(&mut self, key: Key<K, V>, value: V) -> (r: Result<Option<V>, String>)
        ensures
            r == Ok::<Option<V>, String>(old(self).at(key.0.key())),
            final(self).at(key.0.key()) == Some(value),
            forall|other: Seq<u8>| other != key.0.key() ==> final(self).at(other) == old(self).at(other),
            final(self).count() == old(self).count() + (if old(self).at(key.0.key()) is Some {
                0int
            } else {
                1int
            }),
    {
        proof {
            use_type_invariant(&*self);
        }
        let ghost before = self.entries@;
        let ghost k = key.0.key();
        let mut entries: Vec<(K, V)> = Vec::new();
        proof {
            assert(entry_keys(entries@) =~= Seq::<Seq<u8>>::empty());
        }
        core::mem::swap(&mut self.entries, &mut entries);
        let ghost mut gone: int = -1;
        let previous = match find(&entries, &key.0) {
            Some(i) => {
                let removed = entries.remove(i);
                proof {
                    gone = i as int;
                    let keys = entry_keys(before);
                    let left = entry_keys(entries@);
                    assert(left =~= keys.remove(i as int));
                    assert forall|a: int, b: int|
                        0 <= a < left.len() && 0 <= b < left.len() && a != b implies left[a]
                        != left[b] by {
                        let a0 = if a < i { a } else { a + 1 };
                        let b0 = if b < i { b } else { b + 1 };
                        assert(left[a] == keys[a0] && left[b] == keys[b0]);
                    }
                    assert forall|j: int| 0 <= j < left.len() implies left[j] != k by {
                        let j0 = if j < i { j } else { j + 1 };
                        assert(left[j] == keys[j0]);
                        assert(keys[i as int] == k);
                    }
                }
                Some(removed.1)
            },
            None => None,
        };
        let ghost middle = entries@;
        proof {
            if gone >= 0 {
                assert(middle =~= before.remove(gone));
                assert(entry_keys(before)[gone] == k);
            } else {
                assert(middle =~= before);
            }
        }
        entries.push((key.0, value));
        proof {
            let after = entries@;
            let keys = entry_keys(after);
            let n = middle.len() as int;
            assert(keys =~= entry_keys(middle).push(k));
            assert forall|a: int, b: int|
                0 <= a < keys.len() && 0 <= b < keys.len() && a != b implies keys[a] != keys[b] by {
                if a < n {
                    assert(entry_keys(middle)[a] == keys[a]);
                    assert(entry_keys(middle).contains(keys[a]));
                }
                if b < n {
                    assert(entry_keys(middle)[b] == keys[b]);
                    assert(entry_keys(middle).contains(keys[b]));
                }
            }
            lemma_value_under(after, n);
            assert forall|other: Seq<u8>| other != k implies value_under(after, other)
                == value_under(before, other) by {
                if entry_keys(before).contains(other) {
                    let j = entry_keys(before).index_of(other);
                    assert(entry_keys(before)[j] == other);
                    lemma_value_under(before, j);
                    // The entry is still there, at its place or one before it.
                    let m = if gone >= 0 && j > gone {
                        j - 1
                    } else {
                        j
                    };
                    assert(middle[m] == before[j]);
                    assert(after[m] == before[j]);
                    lemma_value_under(after, m);
                }
                if entry_keys(after).contains(other) {
                    let j = entry_keys(after).index_of(other);
                    assert(entry_keys(after)[j] == other);
                    assert(j < n);
                    lemma_value_under(after, j);
                    let m = if gone >= 0 && j >= gone {
                        j + 1
                    } else {
                        j
                    };
                    assert(before[m] == middle[j]);
                    lemma_value_under(before, m);
                }
            }
        }
        core::mem::swap(&mut self.entries, &mut entries);
        Ok(previous)
    }

    /// The value under a key, if the map holds one.
    pub fn get(&self, key: &Key<K, V>) -> (r: Option<&V>)
        ensures
            r is Some <==> self.at(key.0.key()) is Some,
            r matches Some(value) ==> self.at(key.0.key()) == Some(*value),
    {
        proof {
            use_type_invariant(self);
        }
        match find(&self.entries, &key.0) {
            Some(i) => Some(&self.entries[i].1),
            None => None,
        }
    }

    /// Whether the map holds no value.
    pub fn is_empty(&self) -> (b: bool)
        ensures
            b == (self.count() == 0),
    {
        self.entries.len() == 0
    }

    /// The number of values that the map holds.
    pub fn len(&self) -> (n: usize)
        ensures
            n == self.count(),
    {
        self.entries.len()
    }
}

impl<K: Attribute, V> Default for UniversalMap<K, V> {
    fn default() -> (r: Self)
        ensures
            r.count() == 0,
    {
        UniversalMap::new()
    }
}

} // verus!
