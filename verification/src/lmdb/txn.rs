//! Committing staged entries to a store behind a growing memory map.

use crate::error::PersistenceResult;
use crate::lmdb::common::{
    entry_texts, grown, grown_map_size, write_all, write_or_grow, GrowthOutcome,
    ResizableStore, MAP_GROWTH_FACTOR,
};
use crate::lmdb::error::{to_api_error, StoreError};
use vstd::prelude::*;

verus! {

/// What is to be done after an attempt to commit.
#[derive(Debug, PartialEq, Eq)]
pub enum CommitStep {
    /// The commit is done.
    Done,
    /// The map is to be given the size, and the commit is to be tried again.
    Grow(usize),
    /// The commit has failed with the error.
    Fail(crate::error::PersistenceError),
}

/// Decides what is to be done after an attempt to commit, from how the
/// attempt ended and the size that the map has. After a success the commit
/// is done. After a full map the map is to grow by the growth factor, and
/// where it cannot, the commit has failed. After any other failure the commit
/// has failed with it.
pub fn next_step(outcome: Result<(), StoreError>, map_size: usize) -> (step: CommitStep)
    ensures
        match outcome {
            Ok(()) => step == CommitStep::Done,
            Err(StoreError::MapFull) => if map_size > 0 && map_size * MAP_GROWTH_FACTOR
                <= usize::MAX {
                step == CommitStep::Grow((map_size * MAP_GROWTH_FACTOR) as usize)
            } else {
                step matches CommitStep::Fail(e) && e is ErrorGeneric && e.message()
                    == crate::lmdb::common::cannot_grow_text()
            },
            Err(StoreError::Other(words)) => step matches CommitStep::Fail(e) && e is ErrorGeneric
                && e.message() == words@,
        },
{
    match outcome {
        Ok(()) => CommitStep::Done,
        Err(StoreError::MapFull) => match grown_map_size(map_size) {
            Some(size) => CommitStep::Grow(size),
            None => CommitStep::Fail(
                crate::error::PersistenceError::generic("the memory map is full and cannot grow"),
            ),
        },
        Err(e) => CommitStep::Fail(to_api_error(e)),
    }
}

/// Tries once to commit the staged entries to the primary store, in one
/// transaction. Returns true where they were committed; with nothing staged
/// there is nothing to commit, and the store is left alone. Returns false
/// where the map was full: nothing was committed, the map has grown by the
/// growth factor, and the commit is to be tried again. Every other failure is
/// reported, and the primary store holds what it held.
pub fn commit_internal<S: ResizableStore>(primary: &mut S, staged: &[(String, String)]) -> (r:
    PersistenceResult<bool>)
    ensures
        old(primary).dependable() ==> final(primary).dependable(),
        final(primary).demand(entry_texts(staged@)) == old(primary).demand(entry_texts(staged@))
            || r matches Ok(true),
        staged@.len() == 0 ==> r == Ok::<bool, crate::error::PersistenceError>(true)
            && *final(primary) == *old(primary),
        match r {
            Ok(true) => {
                &&& final(primary).held() == write_all(old(primary).held(), entry_texts(staged@))
                &&& final(primary).map_bytes() == old(primary).map_bytes()
                &&& staged@.len() > 0 ==> old(primary).demand(entry_texts(staged@)) <= old(primary).map_bytes()
            },
            Ok(false) => {
                &&& final(primary).held() == old(primary).held()
                &&& final(primary).map_bytes() == old(primary).map_bytes() * MAP_GROWTH_FACTOR
                &&& final(primary).map_bytes() > old(primary).map_bytes()
                &&& old(primary).demand(entry_texts(staged@)) > old(primary).map_bytes()
            },
            Err(e) => {
                &&& e is ErrorGeneric
                &&& final(primary).held() == old(primary).held()
                &&& final(primary).map_bytes() == old(primary).map_bytes()
                &&& old(primary).dependable() ==> {
                    &&& old(primary).demand(entry_texts(staged@)) > old(primary).map_bytes()
                    &&& (old(primary).map_bytes() == 0 || old(primary).map_bytes()
                        * MAP_GROWTH_FACTOR > usize::MAX)
                }
            },
        },
{
    if staged.len() == 0 {
        assert(entry_texts(staged@) =~= Seq::<(Seq<char>, Seq<char>)>::empty());
        return Ok(true);
    }
    match write_or_grow(primary, staged) {
        Ok(GrowthOutcome::Written) => Ok(true),
        Ok(GrowthOutcome::Grown) => Ok(false),
        Err(e) => Err(to_api_error(e)),
    }
}

/// Commits the staged entries to the primary store: tries as often as the map
/// is found full, and lets it grow in between. The entries are committed as a
/// whole or not at all. With nothing staged the commit succeeds and leaves
/// the store alone. The map has grown some number of times: not at all where
/// the entries fitted, and at least once where they did not and were
/// committed. A dependable store fails only where the map is full and cannot
/// grow; with a map of some size it commits the entries whenever the demand,
/// times the growth factor, is a size that the machine can address.
pub fn commit<S: ResizableStore>(primary: &mut S, staged: &[(String, String)]) -> (r:
    PersistenceResult<()>)
    ensures
        old(primary).dependable() ==> final(primary).dependable(),
        final(primary).map_bytes() >= old(primary).map_bytes(),
        staged@.len() == 0 ==> r is Ok && *final(primary) == *old(primary),
        exists|times: nat|
            final(primary).map_bytes() == #[trigger] grown(old(primary).map_bytes() as int, times),
        old(primary).demand(entry_texts(staged@)) <= old(primary).map_bytes() ==> final(primary).map_bytes() == old(primary).map_bytes(),
        r is Ok ==> final(primary).held() == write_all(old(primary).held(), entry_texts(staged@)),
        r is Ok && staged@.len() > 0 && old(primary).demand(entry_texts(staged@)) > old(primary).map_bytes() ==> final(primary).map_bytes() > old(primary).map_bytes(),
        r is Err ==> final(primary).held() == old(primary).held(),
        r is Err && old(primary).dependable() ==> {
            &&& old(primary).demand(entry_texts(staged@)) > final(primary).map_bytes()
            &&& (final(primary).map_bytes() == 0 || final(primary).map_bytes()
                * MAP_GROWTH_FACTOR > usize::MAX)
        },
        old(primary).dependable() && old(primary).map_bytes() > 0 && old(primary).demand(
            entry_texts(staged@),
        ) * MAP_GROWTH_FACTOR <= usize::MAX ==> r is Ok,
{
    let ghost demand = primary.demand(entry_texts(staged@));
    let ghost mut times: nat = 0;
    loop
        invariant
            old(primary).dependable() ==> primary.dependable(),
            primary.held() == old(primary).held(),
            primary.map_bytes() >= old(primary).map_bytes(),
            primary.map_bytes() == grown(old(primary).map_bytes() as int, times),
            times == 0 ==> *primary == *old(primary),
            staged@.len() == 0 ==> times == 0,
            demand <= old(primary).map_bytes() ==> primary.map_bytes() == old(primary).map_bytes(),
            primary.demand(entry_texts(staged@)) == demand,
            demand == old(primary).demand(entry_texts(staged@)),
            primary.map_bytes() > old(primary).map_bytes() || demand > primary.map_bytes()
                || demand <= old(primary).map_bytes(),
        decreases usize::MAX - primary.map_bytes(),
    {
        let ghost size_before = primary.map_bytes();
        match commit_internal(primary, staged) {
            Ok(committed) => {
                if committed {
                    return Ok(());
                }
                proof {
                    times = times + 1;
                }
            },
            Err(e) => {
                proof {
                    if old(primary).dependable() && old(primary).map_bytes() > 0 && demand * 8
                        <= usize::MAX {
                        assert(demand * 8 > size_before * 8) by (nonlinear_arith)
                            requires
                                demand > size_before,
                        ;
                    }
                }
                return Err(e);
            },
        }
    }
}

} // verus!
