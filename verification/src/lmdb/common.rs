//! Writing to a memory-mapped store whose map grows when it is full.
//!
//! A write that finds the map full is given up as a whole. The map is then made
//! larger by a fixed factor and the whole write is tried again, until it fits
//! or the map cannot grow any more.

use crate::lmdb::error::{is_store_full_error, StoreError};
use vstd::prelude::*;
use vstd::string::*;

verus! {

/// The size of a map for which none is asked, in bytes.
pub const DEFAULT_INITIAL_MAP_SIZE: usize = 104857600;

/// The factor by which a full map grows.
pub const MAP_GROWTH_FACTOR: usize = 8;

/// The factor by which a full map grows.
pub fn map_growth_factor() -> (factor: usize)
    ensures
        factor == MAP_GROWTH_FACTOR,
{
    MAP_GROWTH_FACTOR
}

/// The size of the map that is asked for, or the default size where none is.
pub fn initial_map_size(asked: Option<usize>) -> (size: usize)
    ensures
        size == (match asked {
            Some(bytes) => bytes,
            None => DEFAULT_INITIAL_MAP_SIZE,
        }),
{
    match asked {
        Some(bytes) => bytes,
        None => DEFAULT_INITIAL_MAP_SIZE,
    }
}

/// The size to which a full map of the given size grows: the size times the
/// growth factor. There is none where the map has no size to multiply, or
/// where the product is more than the machine can address.
pub fn grown_map_size(map_size: usize) -> (grown: Option<usize>)
    ensures
        match grown {
            Some(size) => size == map_size * MAP_GROWTH_FACTOR && size > map_size,
            None => map_size == 0 || map_size * MAP_GROWTH_FACTOR > usize::MAX,
        },
{
    if map_size == 0 {
        return None;
    }
    assert(map_size * 8 > map_size) by (nonlinear_arith)
        requires
            map_size > 0,
    ;
    map_size.checked_mul(map_growth_factor())
}

/// The size of a map that has grown the given number of times.
pub open spec fn grown(map_size: int, times: nat) -> int
    decreases times,
{
    if times == 0 {
        map_size
    } else {
        grown(map_size, (times - 1) as nat) * MAP_GROWTH_FACTOR
    }
}

/// The texts of a sequence of keys and values.
pub open spec fn entry_texts(entries: Seq<(String, String)>) -> Seq<(Seq<char>, Seq<char>)> {
    entries.map_values(|e: (String, String)| (e.0@, e.1@))
}

/// What a store holds after the entries were written to it in their order.
pub open spec fn write_all(
    held: Map<Seq<char>, Seq<char>>,
    entries: Seq<(Seq<char>, Seq<char>)>,
) -> Map<Seq<char>, Seq<char>>
    decreases entries.len(),
{
    if entries.len() == 0 {
        held
    } else {
        write_all(held, entries.drop_last()).insert(entries.last().0, entries.last().1)
    }
}

/// Nothing that a store holds is lost when entries are written to it: every
/// key is still held, and it has its old value unless the entries have the
/// key.
pub proof fn lemma_write_all_keeps(
    held: Map<Seq<char>, Seq<char>>,
    entries: Seq<(Seq<char>, Seq<char>)>,
    key: Seq<char>,
)
    requires
        held.contains_key(key),
    ensures
        write_all(held, entries).contains_key(key),
        (forall|i: int| 0 <= i < entries.len() ==> (#[trigger] entries[i]).0 != key) ==> write_all(
            held,
            entries,
        )[key] == held[key],
    decreases entries.len(),
{
    if entries.len() > 0 {
        lemma_write_all_keeps(held, entries.drop_last(), key);
        if forall|i: int| 0 <= i < entries.len() ==> (#[trigger] entries[i]).0 != key {
            assert forall|i: int| 0 <= i < entries.drop_last().len() implies (
            #[trigger] entries.drop_last()[i]).0 != key by {
                assert(entries.drop_last()[i] == entries[i]);
            }
            assert(entries.last() == entries[entries.len() - 1]);
        }
    }
}

/// A store behind a memory map of a size that can be set. A write fits or
/// finds the map full by the space that it demands.
pub trait ResizableStore {
    /// The values that the store holds, by key.
    spec fn held(&self) -> Map<Seq<char>, Seq<char>>;

    /// The size of the map, in bytes.
    spec fn map_bytes(&self) -> usize;

    /// The size that the map must have for the entries to be written.
    spec fn demand(&self, entries: Seq<(Seq<char>, Seq<char>)>) -> nat;

    /// Whether the store fails for no other reason than a full map.
    spec fn dependable(&self) -> bool;

    /// Writes the entries in one transaction: all of them, or none. The
    /// write finds the map full only where it demands more than the map has,
    /// and succeeds only where it does not.
    fn try_write(&mut self, entries: &[(String, String)]) -> (r: Result<(), StoreError>)
        ensures
            final(self).map_bytes() == old(self).map_bytes(),
            old(self).dependable() ==> final(self).dependable(),
            r is Ok ==> final(self).held() == write_all(old(self).held(), entry_texts(entries@))
                && old(self).demand(entry_texts(entries@)) <= old(self).map_bytes(),
            r is Err ==> final(self).held() == old(self).held() && final(self).demand(
                entry_texts(entries@),
            ) == old(self).demand(entry_texts(entries@)),
            r matches Err(StoreError::MapFull) ==> old(self).demand(entry_texts(entries@)) > old(self).map_bytes(),
            old(self).dependable() ==> r is Ok || r matches Err(StoreError::MapFull),
    ;

    /// The size of the map.
    fn map_size(&self) -> (r: Result<usize, StoreError>)
        ensures
            r matches Ok(size) ==> size == self.map_bytes(),
            self.dependable() ==> r is Ok,
    ;

    /// Sets the size of the map. What the store holds and what a write demands
    /// stay as they are.
    fn set_map_size(&mut self, size: usize) -> (r: Result<(), StoreError>)
        ensures
            final(self).held() == old(self).held(),
            old(self).dependable() ==> final(self).dependable(),
            forall|entries: Seq<(Seq<char>, Seq<char>)>| #[trigger]
                final(self).demand(entries) == old(self).demand(entries),
            r is Ok ==> final(self).map_bytes() == size,
            r is Err ==> final(self).map_bytes() == old(self).map_bytes(),
            old(self).dependable() && size >= old(self).map_bytes() ==> r is Ok,
    ;
}

/// How a write with growth ended.
pub enum GrowthOutcome {
    /// The entries were written.
    Written,
    /// The map was full; it has grown, and the write is to be tried again.
    Grown,
}

/// The failure that is reported where a full map cannot grow.
pub open spec fn cannot_grow_text() -> Seq<char> {
    "the memory map is full and cannot grow"@
}

/// The failure to report where a map could not be made larger: the failure
/// itself, but never that of a full map, which is not passed on.
pub fn growth_failure(e: StoreError) -> (r: StoreError)
    ensures
        !(r is MapFull),
        !(e is MapFull) ==> r == e,
        e is MapFull ==> r.text() == cannot_grow_text(),
{
    match e {
        StoreError::MapFull => StoreError::Other(
            String::from_str("the memory map is full and cannot grow"),
        ),
        other => other,
    }
}

/// Tries once to write the entries. Where the map is full, the map grows by
/// the growth factor and nothing is written. Every other failure is passed on,
/// and the store holds what it held. A full map is never reported.
pub fn write_or_grow<S: ResizableStore>(store: &mut S, entries: &[(String, String)]) -> (r:
    Result<GrowthOutcome, StoreError>)
    ensures
        old(store).dependable() ==> final(store).dependable(),
        final(store).demand(entry_texts(entries@)) == old(store).demand(entry_texts(entries@))
            || r matches Ok(GrowthOutcome::Written),
        match r {
            Ok(GrowthOutcome::Written) => {
                &&& final(store).held() == write_all(old(store).held(), entry_texts(entries@))
                &&& final(store).map_bytes() == old(store).map_bytes()
                &&& old(store).demand(entry_texts(entries@)) <= old(store).map_bytes()
            },
            Ok(GrowthOutcome::Grown) => {
                &&& final(store).held() == old(store).held()
                &&& final(store).map_bytes() == old(store).map_bytes() * MAP_GROWTH_FACTOR
                &&& final(store).map_bytes() > old(store).map_bytes()
                &&& old(store).demand(entry_texts(entries@)) > old(store).map_bytes()
            },
            Err(e) => {
                &&& !(e is MapFull)
                &&& final(store).held() == old(store).held()
                &&& final(store).map_bytes() == old(store).map_bytes()
                &&& old(store).dependable() ==> {
                    &&& old(store).demand(entry_texts(entries@)) > old(store).map_bytes()
                    &&& (old(store).map_bytes() == 0 || old(store).map_bytes() * MAP_GROWTH_FACTOR
                        > usize::MAX)
                }
            },
        },
{
    match store.try_write(entries) {
        Ok(()) => Ok(GrowthOutcome::Written),
        Err(e) => {
            if !is_store_full_error(&e) {
                return Err(e);
            }
            let map_size = match store.map_size() {
                Ok(size) => size,
                Err(e) => {
                    return Err(growth_failure(e));
                },
            };
            match grown_map_size(map_size) {
                Some(size) => match store.set_map_size(size) {
                    Ok(()) => Ok(GrowthOutcome::Grown),
                    Err(e) => Err(growth_failure(e)),
                },
                None => Err(
                    StoreError::Other(String::from_str("the memory map is full and cannot grow")),
                ),
            }
        },
    }
}

/// Writes the entries in one transaction, and makes the map larger as often
/// as the write finds it full. The entries are written as a whole or not at
/// all. The map has grown some number of times: not at all where the write
/// fitted, and at least once where it did not and was written. A full map is
/// never reported. A dependable store fails only where the map is full and
/// cannot grow; with a map of some size it writes the entries whenever the
/// demand, times the growth factor, is a size that the machine can address.
pub fn write_with_growth<S: ResizableStore>(store: &mut S, entries: &[(String, String)]) -> (r:
    Result<(), StoreError>)
    ensures
        old(store).dependable() ==> final(store).dependable(),
        final(store).map_bytes() >= old(store).map_bytes(),
        exists|times: nat| final(store).map_bytes() == #[trigger] grown(old(store).map_bytes() as int, times),
        old(store).demand(entry_texts(entries@)) <= old(store).map_bytes() ==> final(store).map_bytes() == old(store).map_bytes(),
        r is Ok ==> final(store).held() == write_all(old(store).held(), entry_texts(entries@)),
        r is Ok && old(store).demand(entry_texts(entries@)) > old(store).map_bytes() ==> final(store).map_bytes() > old(store).map_bytes(),
        r matches Err(e) ==> !(e is MapFull),
        r is Err ==> final(store).held() == old(store).held(),
        r is Err && old(store).dependable() ==> {
            &&& old(store).demand(entry_texts(entries@)) > final(store).map_bytes()
            &&& (final(store).map_bytes() == 0 || final(store).map_bytes() * MAP_GROWTH_FACTOR
                > usize::MAX)
        },
        old(store).dependable() && old(store).map_bytes() > 0 && old(store).demand(
            entry_texts(entries@),
        ) * MAP_GROWTH_FACTOR <= usize::MAX ==> r is Ok,
{
    let ghost demand = store.demand(entry_texts(entries@));
    let ghost mut times: nat = 0;
    loop
        invariant
            old(store).dependable() ==> store.dependable(),
            store.held() == old(store).held(),
            store.map_bytes() >= old(store).map_bytes(),
            store.map_bytes() == grown(old(store).map_bytes() as int, times),
            demand <= old(store).map_bytes() ==> store.map_bytes() == old(store).map_bytes(),
            store.demand(entry_texts(entries@)) == demand,
            demand == old(store).demand(entry_texts(entries@)),
            store.map_bytes() > old(store).map_bytes() || demand > store.map_bytes() || demand
                <= old(store).map_bytes(),
        decreases usize::MAX - store.map_bytes(),
    {
        let ghost size_before = store.map_bytes();
        match write_or_grow(store, entries) {
            Ok(GrowthOutcome::Written) => {
                return Ok(());
            },
            Ok(GrowthOutcome::Grown) => {
                proof {
                    times = times + 1;
                }
            },
            Err(e) => {
                proof {
                    if old(store).dependable() && old(store).map_bytes() > 0 && demand * 8
                        <= usize::MAX {
                        assert(size_before * 8 > usize::MAX);
                        assert(demand > size_before);
                        assert(demand * 8 > size_before * 8) by (nonlinear_arith)
                            requires
                                demand > size_before,
                        ;
                    }
                }
                return Err(e);
            },
        }
    }
}

/// Puts a value into the store under a key, and makes the map larger as often
/// as the write finds it full. The map has grown some number of times: not at
/// all where the write fitted. A full map is never reported.
pub fn resizable_add<S: ResizableStore>(store: &mut S, key: &str, value: &str) -> (r: Result<
    (),
    StoreError,
>)
    ensures
        old(store).dependable() ==> final(store).dependable(),
        final(store).map_bytes() >= old(store).map_bytes(),
        exists|times: nat| final(store).map_bytes() == #[trigger] grown(old(store).map_bytes() as int, times),
        old(store).demand(seq![(key@, value@)]) <= old(store).map_bytes() ==> final(store).map_bytes() == old(store).map_bytes(),
        r is Ok ==> final(store).held() == old(store).held().insert(key@, value@),
        r is Ok && old(store).demand(seq![(key@, value@)]) > old(store).map_bytes() ==> final(store).map_bytes() > old(store).map_bytes(),
        r matches Err(e) ==> !(e is MapFull),
        r is Err ==> final(store).held() == old(store).held(),
        r is Err && old(store).dependable() ==> {
            &&& old(store).demand(seq![(key@, value@)]) > final(store).map_bytes()
            &&& (final(store).map_bytes() == 0 || final(store).map_bytes() * MAP_GROWTH_FACTOR
                > usize::MAX)
        },
        old(store).dependable() && old(store).map_bytes() > 0 && old(store).demand(
            seq![(key@, value@)],
        ) * MAP_GROWTH_FACTOR <= usize::MAX ==> r is Ok,
{
    let mut entries: Vec<(String, String)> = Vec::new();
    entries.push((String::from_str(key), String::from_str(value)));
    proof {
        let texts = entry_texts(entries@);
        assert(texts =~= seq![(key@, value@)]);
        assert(texts.drop_last() =~= Seq::<(Seq<char>, Seq<char>)>::empty());
        assert(write_all(store.held(), texts) == write_all(store.held(), texts.drop_last()).insert(
            key@,
            value@,
        ));
        assert(write_all(store.held(), texts.drop_last()) == store.held());
    }
    write_with_growth(store, entries.as_slice())
}

} // verus!
