//! A content-addressable store in memory.

use crate::cas::content::{AddressableContent, Content};
use crate::cas::storage::ContentAddressableStorage;
use crate::error::PersistenceResult;
use crate::has_uuid::{random_uuid, HasUuid, Uuid};
use crate::hash::Address;
use crate::reporting::{unsupported_count, unsupported_report, ReportStorage, StorageReport};
use vstd::prelude::*;

verus! {

/// The addresses of a sequence of entries.
pub open spec fn entry_addresses(entries: Seq<(Address, Content)>) -> Seq<Seq<char>> {
    entries.map_values(|e: (Address, Content)| e.0@)
}

/// The content by address that a sequence of entries holds, where no address
/// occurs twice.
pub open spec fn entry_map(entries: Seq<(Address, Content)>) -> Map<Seq<char>, Seq<char>> {
    Map::new(
        |a: Seq<char>| entry_addresses(entries).contains(a),
        |a: Seq<char>| entries[entry_addresses(entries).index_of(a)].1@,
    )
}

/// Each entry is held under its address, and whatever is held is an entry.
pub proof fn lemma_entry_map(entries: Seq<(Address, Content)>)
    requires
        entry_addresses(entries).no_duplicates(),
    ensures
        forall|j: int|
            0 <= j < entries.len() ==> entry_map(entries).contains_key((#[trigger] entries[j]).0@)
                && entry_map(entries)[entries[j].0@] == entries[j].1@,
        forall|x: Seq<char>| #[trigger]
            entry_map(entries).contains_key(x) ==> exists|j: int|
                0 <= j < entries.len() && (#[trigger] entries[j]).0@ == x,
{
    let addresses = entry_addresses(entries);
    assert forall|j: int| 0 <= j < entries.len() implies entry_map(entries).contains_key(
        (#[trigger] entries[j]).0@,
    ) && entry_map(entries)[entries[j].0@] == entries[j].1@ by {
        assert(addresses[j] == entries[j].0@);
        assert(addresses.contains(entries[j].0@));
        let k = addresses.index_of(entries[j].0@);
        assert(addresses[k] == addresses[j]);
    }
    assert forall|x: Seq<char>| #[trigger] entry_map(entries).contains_key(x) implies exists|
        j: int,
    |
        0 <= j < entries.len() && (#[trigger] entries[j]).0@ == x by {
        let k = addresses.index_of(x);
        assert(addresses[k] == x);
        assert(entries[k].0@ == x);
    }
}

/// An entry under a new address, put behind the others, is held beside them.
pub proof fn lemma_entry_map_push(entries: Seq<(Address, Content)>, entry: (Address, Content))
    requires
        entry_addresses(entries).no_duplicates(),
        !entry_map(entries).contains_key(entry.0@),
    ensures
        entry_addresses(entries.push(entry)).no_duplicates(),
        entry_map(entries.push(entry)) == entry_map(entries).insert(entry.0@, entry.1@),
{
    let after = entries.push(entry);
    let grown = entry_addresses(after);
    let n = entries.len() as int;
    lemma_entry_map(entries);
    assert(grown =~= entry_addresses(entries).push(entry.0@));
    assert forall|i: int, j: int|
        0 <= i < grown.len() && 0 <= j < grown.len() && i != j implies grown[i] != grown[j] by {
        if i < n {
            assert(entries[i].0@ == grown[i]);
        }
        if j < n {
            assert(entries[j].0@ == grown[j]);
        }
    }
    lemma_entry_map(after);
    let target = entry_map(entries).insert(entry.0@, entry.1@);
    assert forall|x: Seq<char>| entry_map(after).contains_key(x) <==> target.contains_key(x) by {
        if entry_map(after).contains_key(x) {
            let j = choose|j: int| 0 <= j < after.len() && (#[trigger] after[j]).0@ == x;
            if j < n {
                assert(entries[j].0@ == x);
            }
        }
        if entry_map(entries).contains_key(x) {
            let j = choose|j: int| 0 <= j < entries.len() && (#[trigger] entries[j]).0@ == x;
            assert(after[j].0@ == x);
        }
        if x == entry.0@ {
            assert(after[n].0@ == x);
        }
    }
    assert forall|x: Seq<char>| entry_map(after).contains_key(x) implies (#[trigger] entry_map(
        after,
    )[x]) == target[x] by {
        let j = choose|j: int| 0 <= j < after.len() && (#[trigger] after[j]).0@ == x;
        if j < n {
            assert(entries[j].0@ == x);
        } else {
            assert(after[n].0@ == x);
        }
    }
    assert(entry_map(after) =~= target);
}

/// Where the entry of the address stands in the vector, if there is one.
fn find_entry(entries: &Vec<(Address, Content)>, address: &Address) -> (place: Option<usize>)
    requires
        entry_addresses(entries@).no_duplicates(),
    ensures
        match place {
            Some(i) => i < entries@.len() && entries@[i as int].0@ == address@
                && entry_map(entries@).contains_key(address@) && entry_map(entries@)[address@]
                == entries@[i as int].1@,
            None => !entry_map(entries@).contains_key(address@),
        },
{
    let ghost addresses = entry_addresses(entries@);
    let n = entries.len();
    let mut i: usize = 0;
    while i < n
        invariant
            i <= n,
            n == entries@.len(),
            addresses == entry_addresses(entries@),
            addresses.no_duplicates(),
            forall|k: int| 0 <= k < i ==> addresses[k] != address@,
        decreases n - i,
    {
        if entries[i].0.same(address) {
            proof {
                lemma_entry_map(entries@);
            }
            return Some(i);
        }
        i = i + 1;
    }
    None
}

/// A content-addressable store that lives in memory.
#[derive(Debug)]
pub struct MemoryStorage {
    entries: Vec<(Address, Content)>,
    id: Uuid,
}

impl MemoryStorage {
    #[verifier::type_invariant]
    spec fn one_entry_per_address(&self) -> bool {
        entry_addresses(self.entries@).no_duplicates()
    }

    /// An empty store with a fresh identity.
    pub fn new() -> (r: MemoryStorage)
        ensures
            r.contents() == Map::<Seq<char>, Seq<char>>::empty(),
    {
        let r = MemoryStorage { entries: Vec::new(), id: random_uuid() };
        assert(r.contents() =~= Map::<Seq<char>, Seq<char>>::empty());
        r
    }

    /// The number of addresses that the store holds content under.
    pub fn len(&self) -> (n: usize)
        ensures
            n == self.contents().dom().len(),
            self.contents().dom().finite(),
    {
        proof {
            use_type_invariant(self);
            let addresses = entry_addresses(self.entries@);
            assert(self.contents().dom() =~= addresses.to_set());
            addresses.unique_seq_to_set();
        }
        self.entries.len()
    }

    /// Stores content under an address, in place of what was there.
    pub fn put(&mut self, address: Address, content: Content)
        ensures
            final(self).contents() == old(self).contents().insert(address@, content@),
            final(self).id() == old(self).id(),
    {
        proof {
            use_type_invariant(&*self);
        }
        let ghost before = self.entries@;
        let ghost a = address@;
        let ghost c = content@;
        let mut entries: Vec<(Address, Content)> = Vec::new();
        core::mem::swap(&mut self.entries, &mut entries);
        let ghost old_map = entry_map(before);
        let ghost mut slot: int = 0;
        match find_entry(&entries, &address) {
            Some(i) => {
                entries[i] = (address, content);
                proof {
                    slot = i as int;
                    assert(entry_addresses(entries@) =~= entry_addresses(before));
                }
            },
            None => {
                entries.push((address, content));
                proof {
                    slot = before.len() as int;
                    lemma_entry_map_push(before, entries@[slot]);
                    assert(entries@ =~= before.push(entries@[slot]));
                }
            },
        }
        proof {
            let after = entries@;
            lemma_entry_map(before);
            lemma_entry_map(after);
            assert(after[slot].0@ == a && after[slot].1@ == c);
            assert forall|x: Seq<char>|
                entry_map(after).contains_key(x) <==> old_map.insert(a, c).contains_key(x) by {
                if entry_map(after).contains_key(x) {
                    let j = choose|j: int| 0 <= j < after.len() && (#[trigger] after[j]).0@ == x;
                    if j < before.len() && x != a {
                        assert(before[j].0@ == x);
                    }
                }
                if old_map.contains_key(x) {
                    let j = choose|j: int| 0 <= j < before.len() && (#[trigger] before[j]).0@ == x;
                    assert(after[j].0@ == x);
                }
                if x == a {
                    assert(after[slot].0@ == x);
                }
            }
            assert forall|x: Seq<char>| entry_map(after).contains_key(x) implies (
            #[trigger] entry_map(after)[x]) == old_map.insert(a, c)[x] by {
                let j = choose|j: int| 0 <= j < after.len() && (#[trigger] after[j]).0@ == x;
                if x != a {
                    assert(before[j].0@ == x);
                }
            }
            assert(entry_map(after) =~= old_map.insert(a, c));
        }
        core::mem::swap(&mut self.entries, &mut entries);
    }
}

impl MemoryStorage {
    /// Stores all the content of another store, in place of what was there
    /// under the same addresses.
    pub fn absorb(&mut self, other: &MemoryStorage)
        ensures
            final(self).contents() == old(self).contents().union_prefer_right(other.contents()),
            final(self).id() == old(self).id(),
    {
        proof {
            use_type_invariant(other);
        }
        let ghost before = self.contents();
        let ghost source = other.entries@;
        let n = other.entries.len();
        let mut i: usize = 0;
        proof {
            assert(source.take(0) =~= Seq::<(Address, Content)>::empty());
            assert(entry_map(source.take(0)) =~= Map::<Seq<char>, Seq<char>>::empty());
            assert(before.union_prefer_right(entry_map(source.take(0))) =~= before);
        }
        while i < n
            invariant
                i <= n,
                n == source.len(),
                source == other.entries@,
                entry_addresses(source).no_duplicates(),
                entry_addresses(source.take(i as int)).no_duplicates(),
                self.id() == old(self).id(),
                self.contents() == before.union_prefer_right(entry_map(source.take(i as int))),
            decreases n - i,
        {
            let ghost done = source.take(i as int);
            self.put(other.entries[i].0.clone(), other.entries[i].1.clone());
            proof {
                let entry = source[i as int];
                assert(source.take(i + 1) =~= done.push(entry));
                lemma_entry_map(done);
                if entry_map(done).contains_key(entry.0@) {
                    let k = choose|k: int| 0 <= k < done.len() && (#[trigger] done[k]).0@ == entry.0@;
                    assert(entry_addresses(source)[k] == source[k].0@);
                    assert(entry_addresses(source)[i as int] == entry.0@);
                }
                lemma_entry_map_push(done, entry);
                assert(before.union_prefer_right(entry_map(done)).insert(entry.0@, entry.1@)
                    =~= before.union_prefer_right(entry_map(done).insert(entry.0@, entry.1@)));
            }
            i = i + 1;
        }
        proof {
            assert(source.take(n as int) =~= source);
        }
    }
}

impl MemoryStorage {
    /// The addresses with their content, each address once, in the order in
    /// which the addresses were first added.
    pub fn entries(&self) -> (r: Vec<(Address, Content)>)
        ensures
            entry_addresses(r@).no_duplicates(),
            entry_map(r@) == self.contents(),
    {
        proof {
            use_type_invariant(self);
        }
        let mut entries: Vec<(Address, Content)> = Vec::new();
        let n = self.entries.len();
        let mut i: usize = 0;
        while i < n
            invariant
                i <= n,
                n == self.entries@.len(),
                entries@.len() == i,
                forall|k: int|
                    0 <= k < i ==> (#[trigger] entries@[k]).0@ == self.entries@[k].0@
                        && entries@[k].1@ == self.entries@[k].1@,
            decreases n - i,
        {
            entries.push((self.entries[i].0.clone(), self.entries[i].1.clone()));
            i = i + 1;
        }
        proof {
            assert(entry_addresses(entries@) =~= entry_addresses(self.entries@));
            lemma_entry_map(entries@);
            lemma_entry_map(self.entries@);
            assert forall|x: Seq<char>| entry_map(entries@).contains_key(x) implies (
            #[trigger] entry_map(entries@)[x]) == entry_map(self.entries@)[x] by {
                let j = choose|j: int| 0 <= j < entries@.len() && (#[trigger] entries@[j]).0@ == x;
                assert(self.entries@[j].0@ == x);
            }
            assert(entry_map(entries@) =~= entry_map(self.entries@));
        }
        entries
    }
}

impl Clone for MemoryStorage {
    /// A copy of the store with the same identity and the same content.
    fn clone(&self) -> (r: Self)
        ensures
            r.contents() == self.contents(),
            r.id() == self.id(),
    {
        MemoryStorage { entries: self.entries(), id: self.id }
    }
}

impl ContentAddressableStorage for MemoryStorage {
    closed spec fn contents(&self) -> Map<Seq<char>, Seq<char>> {
        entry_map(self.entries@)
    }

    /// The store in memory is dependable.
    open spec fn dependable(&self) -> bool {
        true
    }

    /// Always succeeds.
    fn add<C: AddressableContent>(&mut self, content: &C) -> (r: PersistenceResult<()>)
        ensures
            r is Ok,
            final(self).id() == old(self).id(),
    {
        self.put(content.address(), content.content());
        Ok(())
    }

    /// Always succeeds.
    fn contains(&self, address: &Address) -> (r: PersistenceResult<bool>)
        ensures
            r is Ok,
    {
        proof {
            use_type_invariant(self);
        }
        Ok(find_entry(&self.entries, address).is_some())
    }

    /// Always succeeds.
    fn fetch(&self, address: &Address) -> (r: PersistenceResult<Option<Content>>)
        ensures
            r is Ok,
    {
        proof {
            use_type_invariant(self);
        }
        match find_entry(&self.entries, address) {
            Some(i) => Ok(Some(self.entries[i].1.clone())),
            None => Ok(None),
        }
    }
}

impl HasUuid for MemoryStorage {
    closed spec fn id(&self) -> Uuid {
        self.id
    }

    fn get_id(&self) -> (id: Uuid) {
        self.id
    }
}

/// The store in memory does not report the space it takes.
impl ReportStorage for MemoryStorage {
    open spec fn reported_bytes(&self) -> Option<usize> {
        None
    }

    fn get_byte_count(&self) -> (r: PersistenceResult<usize>) {
        unsupported_count()
    }

    fn get_storage_report(&self) -> (r: PersistenceResult<StorageReport>) {
        unsupported_report()
    }
}

} // verus!
