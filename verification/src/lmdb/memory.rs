//! A store in memory behind a map of bounded size.
//!
//! The store counts the bytes of the keys and values that were written to it.
//! A write that would take the count beyond the size of the map finds the map
//! full.

use crate::cas::content::Content;
use crate::cas::storage::ContentAddressableStorage;
use crate::hash::{text_key, Address};
use crate::lmdb::common::{entry_texts, initial_map_size, write_all, ResizableStore};
use crate::lmdb::error::StoreError;
use crate::mem::cas::MemoryStorage;
use vstd::prelude::*;
use vstd::string::*;

verus! {

/// The bytes that the keys and values of the entries take.
pub open spec fn entries_cost(entries: Seq<(Seq<char>, Seq<char>)>) -> nat
    decreases entries.len(),
{
    if entries.len() == 0 {
        0
    } else {
        (entries_cost(entries.drop_last()) + text_key(entries.last().0).len() + text_key(
            entries.last().1,
        ).len()) as nat
    }
}

/// A store in memory behind a map of bounded size.
#[derive(Debug)]
pub struct BoundedMemoryStore {
    map_size: usize,
    used: usize,
    store: MemoryStorage,
}

impl BoundedMemoryStore {
    /// An empty store behind a map of the size that is asked for, or of the
    /// default size where none is.
    pub fn new(initial_map_bytes: Option<usize>) -> (r: BoundedMemoryStore)
        ensures
            r.held() == Map::<Seq<char>, Seq<char>>::empty(),
            r.map_bytes() == (match initial_map_bytes {
                Some(bytes) => bytes,
                None => crate::lmdb::common::DEFAULT_INITIAL_MAP_SIZE,
            }),
            r.used_bytes() == 0,
            r.dependable(),
    {
        BoundedMemoryStore {
            map_size: initial_map_size(initial_map_bytes),
            used: 0,
            store: MemoryStorage::new(),
        }
    }

    /// The bytes that were written to the store.
    pub closed spec fn used_bytes(&self) -> usize {
        self.used
    }

    /// The value under a key, if the store holds one.
    pub fn get(&self, key: &str) -> (r: Option<String>)
        ensures
            r is Some <==> self.held().contains_key(key@),
            r matches Some(value) ==> value@ == self.held()[key@],
    {
        match self.store.fetch(&Address::from_text(key)) {
            Ok(Some(content)) => Some(content.to_string()),
            _ => None,
        }
    }

    /// The bytes that the keys and values of the entries take, or nothing
    /// where they are more than the machine can count.
    fn cost_of(entries: &[(String, String)]) -> (r: Option<usize>)
        ensures
            match r {
                Some(cost) => cost == entries_cost(entry_texts(entries@)),
                None => entries_cost(entry_texts(entries@)) > usize::MAX,
            },
    {
        let ghost texts = entry_texts(entries@);
        let n = entries.len();
        let mut total: usize = 0;
        let mut i: usize = 0;
        proof {
            assert(texts.take(0) =~= Seq::<(Seq<char>, Seq<char>)>::empty());
        }
        while i < n
            invariant
                i <= n,
                n == entries@.len(),
                texts == entry_texts(entries@),
                total == entries_cost(texts.take(i as int)),
            decreases n - i,
        {
            let key_bytes = entries[i].0.as_str().as_bytes().len();
            let value_bytes = entries[i].1.as_str().as_bytes().len();
            proof {
                assert(texts.take(i + 1).drop_last() =~= texts.take(i as int));
                assert(texts.take(i + 1).last() == texts[i as int]);
                lemma_cost_grows(texts, i + 1, n as int);
                assert(texts.take(n as int) =~= texts);
            }
            let with_key = match total.checked_add(key_bytes) {
                Some(sum) => sum,
                None => {
                    return None;
                },
            };
            total = match with_key.checked_add(value_bytes) {
                Some(sum) => sum,
                None => {
                    return None;
                },
            };
            i = i + 1;
        }
        proof {
            assert(texts.take(n as int) =~= texts);
        }
        Some(total)
    }
}

/// More entries take at least as many bytes.
proof fn lemma_cost_grows(entries: Seq<(Seq<char>, Seq<char>)>, i: int, j: int)
    requires
        0 <= i <= j <= entries.len(),
    ensures
        entries_cost(entries.take(i)) <= entries_cost(entries.take(j)),
    decreases j - i,
{
    if i < j {
        lemma_cost_grows(entries, i, j - 1);
        assert(entries.take(j).drop_last() =~= entries.take(j - 1));
    }
}

impl ResizableStore for BoundedMemoryStore {
    closed spec fn held(&self) -> Map<Seq<char>, Seq<char>> {
        self.store.contents()
    }

    closed spec fn map_bytes(&self) -> usize {
        self.map_size
    }

    /// The bytes that were written, and those that the entries take.
    open spec fn demand(&self, entries: Seq<(Seq<char>, Seq<char>)>) -> nat {
        (self.used_bytes() + entries_cost(entries)) as nat
    }

    /// The store is dependable while the bytes that were written fit the map.
    open spec fn dependable(&self) -> bool {
        self.used_bytes() <= self.map_bytes()
    }

    /// Finds the map full exactly where the write demands more than the map
    /// has, and succeeds everywhere else.
    fn try_write(&mut self, entries: &[(String, String)]) -> (r: Result<(), StoreError>)
        ensures
            r is Ok <==> old(self).demand(entry_texts(entries@)) <= old(self).map_bytes(),
            r is Err ==> r matches Err(StoreError::MapFull),
            r is Ok ==> final(self).used_bytes() == old(self).demand(entry_texts(entries@)),
            r is Err ==> final(self).used_bytes() == old(self).used_bytes(),
    {
        let ghost texts = entry_texts(entries@);
        let ghost before = self.store.contents();
        let total = match BoundedMemoryStore::cost_of(entries) {
            Some(cost) => match self.used.checked_add(cost) {
                Some(sum) => sum,
                None => {
                    return Err(StoreError::MapFull);
                },
            },
            None => {
                return Err(StoreError::MapFull);
            },
        };
        if total > self.map_size {
            return Err(StoreError::MapFull);
        }
        let n = entries.len();
        let mut i: usize = 0;
        proof {
            assert(texts.take(0) =~= Seq::<(Seq<char>, Seq<char>)>::empty());
        }
        while i < n
            invariant
                i <= n,
                n == entries@.len(),
                texts == entry_texts(entries@),
                self.map_size == old(self).map_size,
                self.used == old(self).used,
                self.store.contents() == write_all(before, texts.take(i as int)),
            decreases n - i,
        {
            self.store.put(
                Address::from_text(entries[i].0.as_str()),
                Content::from_json(entries[i].1.as_str()),
            );
            proof {
                assert(texts.take(i + 1).drop_last() =~= texts.take(i as int));
                assert(texts.take(i + 1).last() == texts[i as int]);
            }
            i = i + 1;
        }
        proof {
            assert(texts.take(n as int) =~= texts);
        }
        self.used = total;
        Ok(())
    }

    /// Always succeeds.
    fn map_size(&self) -> (r: Result<usize, StoreError>)
        ensures
            r is Ok,
    {
        Ok(self.map_size)
    }

    /// Succeeds exactly where the new size holds the bytes that were written.
    fn set_map_size(&mut self, size: usize) -> (r: Result<(), StoreError>)
        ensures
            r is Ok <==> size >= old(self).used_bytes(),
            final(self).used_bytes() == old(self).used_bytes(),
    {
        if size < self.used {
            return Err(
                StoreError::Other(
                    String::from_str("the map cannot be smaller than what it holds"),
                ),
            );
        }
        self.map_size = size;
        Ok(())
    }
}

} // verus!
