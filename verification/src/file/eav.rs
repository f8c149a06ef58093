//! Records in files.
//!
//! A record is written three times: into a tree by entity, a tree by attribute
//! and a tree by value. In each tree it lies under the text of that field, then
//! under its index, in a file named by its address. A query reads from each
//! tree the files under the texts that its constraint on that field accepts,
//! and answers from the records that it found in all three trees.

use crate::cas::content::{AddressableContent, Content};
use crate::eav::content::{record_of_text, JsonAttribute};
use crate::eav::eavi::{Attribute, EaviView, EntityAttributeValueIndex};
use crate::eav::query::{filter_accepts, is_answer, EavFilter, EaviQuery};
use crate::eav::set::{views, EaviSet};
use crate::error::{PersistenceError, PersistenceResult};
use crate::json::{decimal, decimal_text};
use vstd::prelude::*;
use vstd::string::*;

verus! {

/// One of the three trees.
#[derive(Clone, Copy, Debug, PartialEq, Eq, Structural)]
pub enum Tree {
    Entity,
    Attribute,
    Value,
}

impl Tree {
    /// The name of the directory of the tree.
    pub fn dir(self) -> (name: &'static str)
        ensures
            name@ == self.dir_name(),
    {
        match self {
            Tree::Entity => "e",
            Tree::Attribute => "a",
            Tree::Value => "v",
        }
    }

    /// The name of the directory of the tree: `e`, `a` or `v`.
    pub open spec fn dir_name(self) -> Seq<char> {
        match self {
            Tree::Entity => "e"@,
            Tree::Attribute => "a"@,
            Tree::Value => "v"@,
        }
    }
}

/// The texts of a sequence of strings.
pub open spec fn texts(strings: Seq<String>) -> Seq<Seq<char>> {
    strings.map_values(|s: String| s@)
}

/// The path of the file of a record in one tree, below the directory of the
/// store: the name of the tree, the text of the field that the tree goes by,
/// the index, and the address of the record with the extension of a text file.
pub fn record_path<A: JsonAttribute>(
    tree: Tree,
    field_text: &str,
    record: &EntityAttributeValueIndex<A>,
) -> (path: Vec<String>)
    ensures
        texts(path@) == seq![
            tree.dir_name(),
            field_text@,
            decimal_text(record@.index),
            record.address_text() + ".txt"@,
        ],
{
    let mut path: Vec<String> = Vec::new();
    path.push(String::from_str(tree.dir()));
    path.push(String::from_str(field_text));
    path.push(decimal(record.index()));
    path.push(record.address().to_string().concat(".txt"));
    assert(texts(path@) =~= seq![
        tree.dir_name(),
        field_text@,
        decimal_text(record@.index),
        record.address_text() + ".txt"@,
    ]);
    path
}

/// Whether a text is among the given ones.
pub fn is_among(candidates: &[String], text: &String) -> (found: bool)
    ensures
        found == texts(candidates@).contains(text@),
{
    let ghost all = texts(candidates@);
    let n = candidates.len();
    let mut i: usize = 0;
    while i < n
        invariant
            i <= n,
            n == candidates@.len(),
            all == texts(candidates@),
            forall|k: int| 0 <= k < i ==> all[k] != text@,
        decreases n - i,
    {
        if candidates[i] == *text {
            assert(all[i as int] == text@);
            return true;
        }
        i = i + 1;
    }
    false
}

/// The texts of the first sequence that are in the second one too, in their
/// order.
pub open spec fn in_both(first: Seq<Seq<char>>, second: Seq<Seq<char>>) -> Seq<Seq<char>>
    decreases first.len(),
{
    if first.len() == 0 {
        Seq::empty()
    } else {
        let before = in_both(first.drop_last(), second);
        if second.contains(first.last()) {
            before.push(first.last())
        } else {
            before
        }
    }
}

/// The texts that are in both sequences, in the order of the first.
pub fn intersect(first: &[String], second: &[String]) -> (both: Vec<String>)
    ensures
        texts(both@) == in_both(texts(first@), texts(second@)),
        forall|t: Seq<char>|
            texts(both@).contains(t) <==> texts(first@).contains(t) && texts(second@).contains(t),
{
    let ghost one = texts(first@);
    let ghost two = texts(second@);
    let mut both: Vec<String> = Vec::new();
    let n = first.len();
    let mut i: usize = 0;
    proof {
        assert(one.take(0) =~= Seq::<Seq<char>>::empty());
        assert(texts(both@) =~= in_both(one.take(0), two));
    }
    while i < n
        invariant
            i <= n,
            n == first@.len(),
            one == texts(first@),
            two == texts(second@),
            texts(both@) == in_both(one.take(i as int), two),
            forall|t: Seq<char>| texts(both@).contains(t) ==> one.contains(t) && two.contains(t),
            forall|k: int| 0 <= k < i && two.contains(#[trigger] one[k]) ==> texts(both@).contains(
                one[k],
            ),
        decreases n - i,
    {
        proof {
            let longer = one.take(i + 1);
            assert(longer.drop_last() =~= one.take(i as int));
            assert(longer.last() == one[i as int]);
            assert(in_both(longer, two) == (if two.contains(one[i as int]) {
                in_both(one.take(i as int), two).push(one[i as int])
            } else {
                in_both(one.take(i as int), two)
            }));
        }
        if is_among(second, &first[i]) {
            let ghost before = texts(both@);
            both.push(first[i].clone());
            proof {
                let after = texts(both@);
                assert(after =~= before.push(one[i as int]));
                assert(one.contains(one[i as int]));
                assert forall|t: Seq<char>| after.contains(t) implies one.contains(t)
                    && two.contains(t) by {
                    let k = choose|k: int| 0 <= k < after.len() && after[k] == t;
                    if k < before.len() {
                        assert(before[k] == t);
                    }
                }
                assert forall|k: int| 0 <= k < i + 1 && two.contains(
                    #[trigger] one[k],
                ) implies after.contains(one[k]) by {
                    if k == i {
                        assert(after[before.len() as int] == one[k]);
                    } else {
                        let j = choose|j: int| 0 <= j < before.len() && before[j] == one[k];
                        assert(after[j] == one[k]);
                    }
                }
            }
        }
        i = i + 1;
    }
    proof {
        assert(one.take(n as int) =~= one);
        assert forall|t: Seq<char>| one.contains(t) && two.contains(t) implies texts(
            both@,
        ).contains(t) by {
            let k = choose|k: int| 0 <= k < one.len() && one[k] == t;
            assert(one[k] == t);
        }
    }
    both
}

/// The records that the given texts stand for.
pub open spec fn records_in<A: JsonAttribute>(contents: Seq<Seq<char>>) -> Set<EaviView> {
    Set::new(
        |r: EaviView|
            exists|t: Seq<char>| contents.contains(t) && record_of_text::<A>(t) == Some(r),
    )
}

/// The records that the texts stand for that are in all three sequences.
pub open spec fn records_in_all<A: JsonAttribute>(
    first: Seq<Seq<char>>,
    second: Seq<Seq<char>>,
    third: Seq<Seq<char>>,
) -> Set<EaviView> {
    Set::new(
        |r: EaviView|
            exists|t: Seq<char>|
                first.contains(t) && second.contains(t) && third.contains(t) && record_of_text::<A>(
                    t,
                ) == Some(r),
    )
}

/// The message of the error that is reported where a file does not hold a
/// record.
pub open spec fn conversion_message() -> Seq<char> {
    "Error Converting EAVs"@
}

/// Reads each text as a record, in their order. Fails where one of them does
/// not stand for a record.
pub fn records_of<A: JsonAttribute>(contents: &[String]) -> (r: PersistenceResult<
    Vec<EntityAttributeValueIndex<A>>,
>)
    ensures
        match r {
            Ok(records) => views(records@).to_set() == records_in::<A>(texts(contents@))
                && records@.len() == contents@.len() && (forall|k: int|
                0 <= k < records@.len() ==> record_of_text::<A>(texts(contents@)[k]) == Some(
                    #[trigger] views(records@)[k],
                )) && forall|t: Seq<char>| #[trigger]
                texts(contents@).contains(t) ==> record_of_text::<A>(t) is Some,
            Err(e) => e is ErrorGeneric && e.message() == conversion_message() && exists|
                t: Seq<char>,
            | #[trigger] texts(contents@).contains(t) && record_of_text::<A>(t) is None,
        },
{
    let ghost all = texts(contents@);
    let mut records: Vec<EntityAttributeValueIndex<A>> = Vec::new();
    let n = contents.len();
    let mut i: usize = 0;
    while i < n
        invariant
            i <= n,
            n == contents@.len(),
            all == texts(contents@),
            records@.len() == i,
            forall|k: int|
                0 <= k < i ==> record_of_text::<A>(all[k]) == Some(#[trigger] views(records@)[k]),
        decreases n - i,
    {
        match EntityAttributeValueIndex::<A>::try_from_content(
            &Content::from_json(contents[i].as_str()),
        ) {
            Ok(record) => {
                let ghost before = views(records@);
                records.push(record);
                assert(views(records@) =~= before.push(records@[i as int]@));
            },
            Err(_) => {
                assert(all.contains(all[i as int]));
                return Err(PersistenceError::generic("Error Converting EAVs"));
            },
        }
        i = i + 1;
    }
    proof {
        let found = views(records@);
        assert forall|r: EaviView| found.to_set().contains(r) <==> records_in::<A>(all).contains(
            r,
        ) by {
            if found.contains(r) {
                let k = choose|k: int| 0 <= k < found.len() && found[k] == r;
                assert(all.contains(all[k]) && record_of_text::<A>(all[k]) == Some(r));
            }
            if records_in::<A>(all).contains(r) {
                let t = choose|t: Seq<char>| all.contains(t) && record_of_text::<A>(t) == Some(r);
                let k = choose|k: int| 0 <= k < all.len() && all[k] == t;
                assert(found[k] == r);
            }
        }
        assert(found.to_set() =~= records_in::<A>(all));
        assert forall|t: Seq<char>| #[trigger] all.contains(t) implies record_of_text::<A>(
            t,
        ) is Some by {
            let k = choose|k: int| 0 <= k < all.len() && all[k] == t;
            assert(record_of_text::<A>(all[k]) == Some(found[k]));
        }
    }
    Ok(records)
}

/// Answers a query from what was read in the three trees: the contents of
/// the files under the entities, the attributes and the values that the query
/// accepts. The records that were found in all three trees are read, and the
/// query is answered over them. Fails exactly where one of those files does
/// not hold a record: no file is left out of an answer.
pub fn fetch_from_candidates<A: JsonAttribute>(
    query: &EaviQuery<A>,
    by_entity: &[String],
    by_attribute: &[String],
    by_value: &[String],
) -> (r: PersistenceResult<EaviSet<A>>)
    ensures
        match r {
            Ok(out) => is_answer(
                query@,
                records_in_all::<A>(texts(by_entity@), texts(by_attribute@), texts(by_value@)),
                out@,
            ) && forall|t: Seq<char>|
                texts(by_entity@).contains(t) && texts(by_attribute@).contains(t) && texts(
                    by_value@,
                ).contains(t) ==> #[trigger] record_of_text::<A>(t) is Some,
            Err(e) => e is ErrorGeneric && e.message() == conversion_message() && exists|
                t: Seq<char>,
            | #[trigger]
                texts(by_entity@).contains(t) && texts(by_attribute@).contains(t) && texts(
                    by_value@,
                ).contains(t) && record_of_text::<A>(t) is None,
        },
{
    let attribute_value = intersect(by_value, by_attribute);
    let common = intersect(attribute_value.as_slice(), by_entity);
    match records_of::<A>(common.as_slice()) {
        Ok(records) => {
            let out = query.run(records.as_slice());
            proof {
                let found = texts(common@);
                assert forall|t: Seq<char>|
                    found.contains(t) <==> texts(by_entity@).contains(t) && texts(
                        by_attribute@,
                    ).contains(t) && texts(by_value@).contains(t) by {
                    if found.contains(t) {
                        assert(texts(attribute_value@).contains(t));
                    }
                    if texts(by_entity@).contains(t) && texts(by_attribute@).contains(t) && texts(
                        by_value@,
                    ).contains(t) {
                        assert(texts(attribute_value@).contains(t));
                    }
                }
                let wanted = records_in_all::<A>(
                    texts(by_entity@),
                    texts(by_attribute@),
                    texts(by_value@),
                );
                assert forall|r: EaviView| records_in::<A>(found).contains(r) <==> wanted.contains(
                    r,
                ) by {
                    if records_in::<A>(found).contains(r) {
                        let t = choose|t: Seq<char>|
                            found.contains(t) && record_of_text::<A>(t) == Some(r);
                        assert(texts(by_entity@).contains(t) && texts(by_attribute@).contains(t)
                            && texts(by_value@).contains(t));
                    }
                    if wanted.contains(r) {
                        let t = choose|t: Seq<char>|
                            texts(by_entity@).contains(t) && texts(by_attribute@).contains(t)
                                && texts(by_value@).contains(t) && record_of_text::<A>(t) == Some(
                                r,
                            );
                        assert(found.contains(t));
                    }
                }
                assert(records_in::<A>(found) =~= wanted);
                assert forall|t: Seq<char>|
                    texts(by_entity@).contains(t) && texts(by_attribute@).contains(t) && texts(
                        by_value@,
                    ).contains(t) implies #[trigger] record_of_text::<A>(t) is Some by {
                    assert(found.contains(t));
                }
            }
            Ok(out)
        },
        Err(e) => {
            proof {
                let t = choose|t: Seq<char>| #[trigger]
                    texts(common@).contains(t) && record_of_text::<A>(t) is None;
                assert(texts(attribute_value@).contains(t));
            }
            Err(e)
        },
    }
}

/// Whether a query reads the files under a name in a tree: whether its
/// constraint on the field of the tree accepts the value of that name.
pub fn reads_under<T: Attribute>(filter: &EavFilter<T>, named: &T) -> (reads: bool)
    ensures
        reads == filter_accepts(filter@, named.key()),
{
    filter.check(named)
}

} // verus!
