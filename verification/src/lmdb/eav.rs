//! Records in a store behind a memory map.
//!
//! A record is kept under a key made of its entity and its index, so that the
//! records of one entity lie together and a query for one entity reads them
//! alone.

use crate::cas::content::{AddressableContent, Content};
use crate::eav::content::{record_of_text, JsonAttribute};
use crate::eav::eavi::{Attribute, EaviView, EntityAttributeValueIndex};
use crate::eav::query::{is_answer, query_matches, EavFilter, EaviQuery};
use crate::eav::set::{views, EaviSet};
use crate::hash::{lemma_text_key_injective, Address};
use crate::laws::law_indexing_is_transparent;
use crate::json::{decimal, decimal_text};
use crate::lmdb::error::StoreError;
use vstd::prelude::*;
use vstd::string::*;

verus! {

/// What stands between the entity and the index in a key.
pub open spec fn key_separator() -> Seq<char> {
    "::"@
}

/// The key of a record: its entity, the separator, and its index in decimal.
pub open spec fn eav_key_text(entity: Seq<char>, index: i64) -> Seq<char> {
    entity + key_separator() + decimal_text(index)
}

/// The key under which the record of an entity and index is kept.
pub fn eav_key(entity: &Address, index: i64) -> (key: String)
    ensures
        key@ == eav_key_text(entity@, index),
{
    entity.to_string().concat("::").concat(decimal(index).as_str())
}

/// The key under which a record is kept, and the text that is kept there.
pub fn eav_entry<A: JsonAttribute>(record: &EntityAttributeValueIndex<A>) -> (entry: (
    String,
    String,
))
    ensures
        entry.0@ == eav_key_text(record@.entity, record@.index),
        entry.1@ == record.content_text(),
{
    (eav_key(record.entity_ref(), record.index()), record.content().to_string())
}

/// The entity whose records a query reads alone, where it asks for one
/// entity.
pub open spec fn scanned_entity<A: Attribute>(query: &EaviQuery<A>) -> Option<Seq<char>> {
    match query.entity {
        EavFilter::Exact(entity) => Some(entity@),
        _ => None,
    }
}

/// The key from which a query reads: the entity and the separator, which
/// every key of a record of the entity begins with, where it asks for one
/// entity; and none, for the start of the table, where it does not.
pub fn scan_start<A: Attribute>(query: &EaviQuery<A>) -> (start: Option<String>)
    ensures
        match start {
            Some(key) => scanned_entity(query) is Some && key@ == scanned_entity(query).unwrap()
                + key_separator(),
            None => scanned_entity(query) is None,
        },
{
    match &query.entity {
        EavFilter::Exact(entity) => Some(entity.to_string().concat("::")),
        _ => None,
    }
}

/// A key is that of a record of the entity: it begins with the entity and
/// the separator.
pub open spec fn key_of_entity(key: Seq<char>, entity: Seq<char>) -> bool {
    key.len() >= entity.len() + 2 && key.subrange(0, entity.len() as int + 2) == entity
        + key_separator()
}

/// Whether a key is that of a record of the entity.
pub fn key_is_of(key: &str, entity: &Address) -> (belongs: bool)
    ensures
        belongs == key_of_entity(key@, entity@),
{
    proof {
        reveal_strlit("::");
    }
    let prefix = entity.to_string().concat("::");
    let wanted = prefix.as_str().unicode_len();
    if key.unicode_len() < wanted {
        return false;
    }
    key.substring_char(0, wanted).to_owned() == prefix
}

/// What is kept under a key: JSON text, or a value of another type.
#[derive(Debug, PartialEq, Eq)]
pub enum StoredValue {
    Json(String),
    Other,
}

/// The words in which a missing value is reported.
pub open spec fn empty_text() -> Seq<char> {
    "data error: Empty"@
}

/// The words in which a value of another type than JSON is reported.
pub open spec fn unexpected_type_text() -> Seq<char> {
    "data error: unexpected type, expected json"@
}

/// The words in which a text that stands for no record is reported.
pub open spec fn not_a_record_text() -> Seq<char> {
    "data error: not a record"@
}

/// The content that was read under an address: the JSON text as content,
/// nothing where nothing is kept there. A value of another type and a failure
/// of the read are failures.
pub fn handle_cursor_tuple_result(result: Result<(String, Option<StoredValue>), StoreError>) -> (r:
    Result<(Address, Option<Content>), StoreError>)
    ensures
        match result {
            Ok((address, Some(StoredValue::Json(text)))) => r matches Ok((a, Some(c))) && a@
                == address@ && c@ == text@,
            Ok((address, None)) => r matches Ok((a, None)) && a@ == address@,
            Ok((_, Some(StoredValue::Other))) => r matches Err(e) && e.text()
                == unexpected_type_text(),
            Err(e) => r matches Err(f) && f == e,
        },
{
    match result {
        Ok((address, Some(StoredValue::Json(text)))) => Ok(
            (Address::from_string(address), Some(Content::from_string(text))),
        ),
        Ok((address, None)) => Ok((Address::from_string(address), None)),
        Ok((_, Some(StoredValue::Other))) => Err(
            StoreError::Other(String::from_str("data error: unexpected type, expected json")),
        ),
        Err(e) => Err(e),
    }
}

/// The record that was read under a key. A missing value, a value of another
/// type, a text that stands for no record and a failure of the read are
/// failures.
pub fn handle_cursor_result<A: JsonAttribute>(result: Result<Option<StoredValue>, StoreError>) -> (r:
    Result<EntityAttributeValueIndex<A>, StoreError>)
    ensures
        match result {
            Ok(Some(StoredValue::Json(text))) => match record_of_text::<A>(text@) {
                Some(record) => r matches Ok(found) && found@ == record,
                None => r matches Err(e) && e.text() == not_a_record_text(),
            },
            Ok(None) => r matches Err(e) && e.text() == empty_text(),
            Ok(Some(StoredValue::Other)) => r matches Err(e) && e.text() == unexpected_type_text(),
            Err(e) => r matches Err(f) && f == e,
        },
{
    match result {
        Ok(Some(value)) => record_of_value(&value),
        Ok(None) => Err(StoreError::Other(String::from_str("data error: Empty"))),
        Err(e) => Err(e),
    }
}

/// The record that an entry holds, where it holds one.
pub open spec fn record_of_entry<A: JsonAttribute>(entry: (String, StoredValue)) -> Option<
    EaviView,
> {
    match entry.1 {
        StoredValue::Json(text) => record_of_text::<A>(text@),
        StoredValue::Other => None,
    }
}

/// The words in which an entry that holds no record is reported.
pub open spec fn no_record_text(entry: (String, StoredValue)) -> Seq<char> {
    match entry.1 {
        StoredValue::Json(_) => not_a_record_text(),
        StoredValue::Other => unexpected_type_text(),
    }
}

/// How many entries at the start have a key of the entity.
pub open spec fn leading(entries: Seq<(String, StoredValue)>, entity: Seq<char>) -> nat
    decreases entries.len(),
{
    if entries.len() == 0 || !key_of_entity(entries[0].0@, entity) {
        0
    } else {
        1 + leading(entries.drop_first(), entity)
    }
}

/// How many of the entries a query reads: where it asks for one entity, the
/// entries up to the first whose key is not of that entity; else all.
pub open spec fn read_count<A: Attribute>(
    query: &EaviQuery<A>,
    entries: Seq<(String, StoredValue)>,
) -> nat {
    match scanned_entity(query) {
        Some(entity) => leading(entries, entity),
        None => entries.len(),
    }
}

/// The records that the first `n` entries hold.
pub open spec fn records_of_entries<A: JsonAttribute>(
    entries: Seq<(String, StoredValue)>,
    n: nat,
) -> Set<EaviView> {
    Set::new(
        |r: EaviView|
            exists|k: int| 0 <= k < n && k < entries.len() && record_of_entry::<A>(entries[k]) == Some(r),
    )
}

/// The entries at the start whose key is of the entity are those before the
/// first whose key is not.
pub proof fn lemma_leading(entries: Seq<(String, StoredValue)>, entity: Seq<char>)
    ensures
        leading(entries, entity) <= entries.len(),
        forall|k: int|
            0 <= k < leading(entries, entity) ==> key_of_entity((#[trigger] entries[k]).0@, entity),
        leading(entries, entity) < entries.len() ==> !key_of_entity(
            entries[leading(entries, entity) as int].0@,
            entity,
        ),
    decreases entries.len(),
{
    if entries.len() > 0 && key_of_entity(entries[0].0@, entity) {
        let rest = entries.drop_first();
        lemma_leading(rest, entity);
        assert forall|k: int| 0 <= k < leading(entries, entity) implies key_of_entity(
            (#[trigger] entries[k]).0@,
            entity,
        ) by {
            if k > 0 {
                assert(entries[k] == rest[k - 1]);
            }
        }
        if leading(entries, entity) < entries.len() {
            assert(entries[leading(entries, entity) as int] == rest[leading(rest, entity) as int]);
        }
    }
}

/// How many of the entries the query reads.
pub fn scan_length<A: Attribute>(query: &EaviQuery<A>, entries: &[(String, StoredValue)]) -> (n:
    usize)
    ensures
        n == read_count(query, entries@),
        n <= entries@.len(),
{
    match &query.entity {
        EavFilter::Exact(entity) => {
            let mut i: usize = 0;
            assert(entries@.skip(0) =~= entries@);
            while i < entries.len()
                invariant
                    i <= entries@.len(),
                    scanned_entity(query) == Some(entity@),
                    leading(entries@, entity@) == i + leading(entries@.skip(i as int), entity@),
                decreases entries.len() - i,
            {
                proof {
                    assert(entries@.skip(i as int)[0] == entries@[i as int]);
                    assert(entries@.skip(i as int).drop_first() =~= entries@.skip(i + 1));
                }
                if !key_is_of(entries[i].0.as_str(), entity) {
                    return i;
                }
                i = i + 1;
            }
            i
        },
        _ => entries.len(),
    }
}

/// The record that is kept as the given value. A value of another type and a
/// text that stands for no record are failures.
pub fn record_of_value<A: JsonAttribute>(value: &StoredValue) -> (r: Result<
    EntityAttributeValueIndex<A>,
    StoreError,
>)
    ensures
        match value {
            StoredValue::Json(text) => match record_of_text::<A>(text@) {
                Some(record) => r matches Ok(found) && found@ == record,
                None => r matches Err(e) && e.text() == not_a_record_text(),
            },
            StoredValue::Other => r matches Err(e) && e.text() == unexpected_type_text(),
        },
{
    match value {
        StoredValue::Json(text) => {
            match EntityAttributeValueIndex::<A>::try_from_content(
                &Content::from_json(text.as_str()),
            ) {
                Ok(record) => Ok(record),
                Err(_) => Err(StoreError::Other(String::from_str("data error: not a record"))),
            }
        },
        StoredValue::Other => Err(
            StoreError::Other(String::from_str("data error: unexpected type, expected json")),
        ),
    }
}

/// Answers a query from the entries that a scan of the table gave, in the
/// order of their keys: from the entries up to the first whose key is not of
/// the entity, where the query asks for one entity, and from all of them
/// where it does not. Fails exactly where one of those entries holds no
/// record, with the words for the first such entry.
pub fn fetch_from_scan<A: JsonAttribute>(
    query: &EaviQuery<A>,
    entries: &[(String, StoredValue)],
) -> (r: Result<EaviSet<A>, StoreError>)
    ensures
        match r {
            Ok(out) => is_answer(
                query@,
                records_of_entries::<A>(entries@, read_count(query, entries@)),
                out@,
            ) && forall|k: int|
                0 <= k < read_count(query, entries@) ==> record_of_entry::<A>(
                    #[trigger] entries@[k],
                ) is Some,
            Err(e) => exists|k: int|
                0 <= k < read_count(query, entries@) && record_of_entry::<A>(
                    #[trigger] entries@[k],
                ) is None && e.text() == no_record_text(entries@[k]) && forall|j: int|
                    0 <= j < k ==> record_of_entry::<A>(#[trigger] entries@[j]) is Some,
        },
{
    let n = scan_length(query, entries);
    let mut records: Vec<EntityAttributeValueIndex<A>> = Vec::new();
    let mut i: usize = 0;
    while i < n
        invariant
            i <= n <= entries@.len(),
            n == read_count(query, entries@),
            records@.len() == i,
            forall|k: int|
                0 <= k < i ==> record_of_entry::<A>(#[trigger] entries@[k]) == Some(
                    views(records@)[k],
                ),
        decreases n - i,
    {
        match record_of_value::<A>(&entries[i].1) {
            Ok(record) => {
                let ghost before = views(records@);
                records.push(record);
                assert(views(records@) =~= before.push(records@[i as int]@));
            },
            Err(e) => {
                assert(record_of_entry::<A>(entries@[i as int]) is None);
                return Err(e);
            },
        }
        i = i + 1;
    }
    let out = query.run(records.as_slice());
    proof {
        let found = views(records@);
        let read = records_of_entries::<A>(entries@, n as nat);
        assert forall|r: EaviView| found.to_set().contains(r) <==> read.contains(r) by {
            if found.contains(r) {
                let k = choose|k: int| 0 <= k < found.len() && found[k] == r;
                assert(record_of_entry::<A>(entries@[k]) == Some(r));
            }
            if read.contains(r) {
                let k = choose|k: int|
                    0 <= k < n && k < entries@.len() && record_of_entry::<A>(entries@[k]) == Some(
                        r,
                    );
                assert(found[k] == r);
            }
        }
        assert(found.to_set() =~= read);
    }
    Ok(out)
}

/// A query for one entity is answered from a part of the table as it is from
/// the whole table. This holds of a table in which every record is kept
/// under the key of its entity and index, and in which, as in a table that is
/// sorted by key, the keys of the entity lie together: none before the place
/// where the scan begins, and none after a key from there on that is not of
/// the entity.
pub proof fn law_scan_is_transparent<A: JsonAttribute>(
    query: &EaviQuery<A>,
    table: Seq<(String, StoredValue)>,
    from: int,
    out: Seq<EaviView>,
)
    requires
        0 <= from <= table.len(),
        scanned_entity(query) is Some,
        forall|k: int|
            0 <= k < table.len() ==> (record_of_entry::<A>(#[trigger] table[k]) matches Some(r)
                ==> table[k].0@ == eav_key_text(r.entity, r.index)),
        forall|k: int|
            0 <= k < from ==> !key_of_entity(
                (#[trigger] table[k]).0@,
                scanned_entity(query).unwrap(),
            ),
        forall|j: int, k: int|
            from <= j <= k < table.len() && key_of_entity(
                (#[trigger] table[k]).0@,
                scanned_entity(query).unwrap(),
            ) ==> key_of_entity((#[trigger] table[j]).0@, scanned_entity(query).unwrap()),
    ensures
        is_answer(
            query@,
            records_of_entries::<A>(table.skip(from), read_count(query, table.skip(from))),
            out,
        ) <==> is_answer(query@, records_of_entries::<A>(table, table.len()), out),
{
    reveal_strlit("::");
    let entity = scanned_entity(query).unwrap();
    let part = table.skip(from);
    let n = leading(part, entity);
    lemma_leading(part, entity);
    let read = records_of_entries::<A>(part, n);
    let all = records_of_entries::<A>(table, table.len());
    assert forall|r: EaviView| read.contains(r) implies all.contains(r) by {
        let k = choose|k: int|
            0 <= k < n && k < part.len() && record_of_entry::<A>(part[k]) == Some(r);
        assert(part[k] == table[from + k]);
    }
    assert forall|r: EaviView| all.contains(r) && query_matches(query@, r) implies read.contains(
        r,
    ) by {
        let k = choose|k: int|
            0 <= k < table.len() && k < table.len() && record_of_entry::<A>(table[k]) == Some(r);
        lemma_text_key_injective(r.entity, entity);
        let key = table[k].0@;
        assert(key == eav_key_text(entity, r.index));
        assert(key.subrange(0, entity.len() as int + 2) =~= entity + key_separator());
        assert(key_of_entity(key, entity));
        assert(k >= from);
        if k - from >= n {
            assert(part[n as int] == table[from + n]);
            assert(key_of_entity(table[from + n].0@, entity));
        }
        assert(part[k - from] == table[k]);
    }
    law_indexing_is_transparent(all, read, query@, out);
}

} // verus!
