//! JSON as far as records need it: strings, integers in decimal, and the
//! fields of an object.

use vstd::prelude::*;

verus! {

/// The JSON text of a string: the string between quotes, with what JSON
/// cannot hold as it is written as an escape.
pub uninterp spec fn json_string_text(raw: Seq<char>) -> Seq<char>;

/// The string that a JSON text stands for, where the text is that of a
/// string.
pub uninterp spec fn json_string_value(text: Seq<char>) -> Option<Seq<char>>;

/// Calls `serde_json::to_string` on a string slice. The contract names the
/// text that it returns, and claims that the call succeeds: a string slice
/// serializes itself without failing, and the text is written to memory.
#[verifier::external_body]
pub(crate) fn quote(raw: &str) -> (text: Option<String>)
    ensures
        text is Some,
        text.unwrap()@ == json_string_text(raw@),
{
    serde_json::to_string(raw).ok()
}

/// Calls `serde_json::from_str` for a `String`. The contract names what it
/// returns: the string, or nothing where the text is not the JSON text of a
/// string.
#[verifier::external_body]
pub(crate) fn unquote(text: &str) -> (raw: Option<String>)
    ensures
        raw.is_some() == json_string_value(text@).is_some(),
        raw is Some ==> raw.unwrap()@ == json_string_value(text@).unwrap(),
{
    serde_json::from_str::<String>(text).ok()
}

/// The character of a digit.
pub open spec fn digit_char(d: nat) -> char {
    seq!['0', '1', '2', '3', '4', '5', '6', '7', '8', '9'][d as int % 10]
}

/// The decimal digits of a number, without leading zeros.
pub open spec fn digits_of(n: nat) -> Seq<char>
    decreases n,
{
    if n < 10 {
        seq![digit_char(n)]
    } else {
        digits_of(n / 10).push(digit_char(n % 10))
    }
}

/// The decimal text of an integer: its digits, after a minus sign where it is
/// negative.
pub open spec fn decimal_text(n: i64) -> Seq<char> {
    if n < 0 {
        seq!['-'] + digits_of((-n) as nat)
    } else {
        digits_of(n as nat)
    }
}

/// Calls `i64::to_string`, which writes the integer in decimal, with a minus
/// sign where it is negative.
#[verifier::external_body]
pub(crate) fn decimal(n: i64) -> (text: String)
    ensures
        text@ == decimal_text(n),
{
    n.to_string()
}

/// The value of one field of a JSON object.
#[derive(Debug)]
pub enum JsonField {
    /// An integer that fits in 64 bits with a sign.
    Integer(i64),
    /// A string.
    Text(String),
    /// Any other value, as compact JSON text.
    Other(String),
}

/// The value of one field of a JSON object, as a mathematical value.
pub ghost enum JsonFieldView {
    Integer(i64),
    Text(Seq<char>),
    Other(Seq<char>),
}

impl View for JsonField {
    type V = JsonFieldView;

    open spec fn view(&self) -> JsonFieldView {
        match self {
            JsonField::Integer(n) => JsonFieldView::Integer(*n),
            JsonField::Text(text) => JsonFieldView::Text(text@),
            JsonField::Other(text) => JsonFieldView::Other(text@),
        }
    }
}

/// The names and values of fields, as mathematical values.
pub open spec fn field_views(fields: Seq<(String, JsonField)>) -> Seq<(Seq<char>, JsonFieldView)> {
    Seq::new(fields.len(), |k: int| (fields[k].0@, fields[k].1@))
}

/// The fields of the object that a JSON text stands for, each with its name,
/// where the text is that of an object.
pub uninterp spec fn json_object_of(text: Seq<char>) -> Option<Seq<(Seq<char>, JsonFieldView)>>;

/// Calls `serde_json::from_str` for a `serde_json::Map`, and hands out each
/// field with its name: an integer by `Value::as_i64`, a string as it is,
/// and any other value as the compact JSON that `Value::to_string` writes.
/// The contract names what comes back: the fields, or nothing where the text
/// is not that of an object.
#[verifier::external_body]
pub(crate) fn json_object(text: &str) -> (fields: Option<Vec<(String, JsonField)>>)
    ensures
        fields.is_some() == json_object_of(text@).is_some(),
        fields is Some ==> field_views(fields.unwrap()@) == json_object_of(text@).unwrap(),
{
    let parsed: serde_json::Map<String, serde_json::Value> = serde_json::from_str(text).ok()?;
    let mut fields = Vec::new();
    for (name, value) in parsed {
        fields.push((name, match (value.as_i64(), value) {
            (Some(n), _) => JsonField::Integer(n),
            (None, serde_json::Value::String(s)) => JsonField::Text(s),
            (None, other) => JsonField::Other(other.to_string()),
        }));
    }
    Some(fields)
}

/// The value of the first field of the given name.
pub open spec fn field_named(fields: Seq<(Seq<char>, JsonFieldView)>, name: Seq<char>) -> Option<
    JsonFieldView,
>
    decreases fields.len(),
{
    if fields.len() == 0 {
        None
    } else if fields[0].0 == name {
        Some(fields[0].1)
    } else {
        field_named(fields.drop_first(), name)
    }
}

/// The compact JSON text of the value of a field.
pub open spec fn json_text_of(field: JsonFieldView) -> Seq<char> {
    match field {
        JsonFieldView::Integer(n) => decimal_text(n),
        JsonFieldView::Text(text) => json_string_text(text),
        JsonFieldView::Other(text) => text,
    }
}

/// The index, the entity, the value and the JSON text of the attribute that
/// an object holds as a record: it has an integer `index`, strings `entity`
/// and `value`, and an `attribute` of any kind.
pub open spec fn record_fields_in(fields: Seq<(Seq<char>, JsonFieldView)>) -> Option<
    (i64, Seq<char>, Seq<char>, Seq<char>),
> {
    match (
        field_named(fields, "index"@),
        field_named(fields, "entity"@),
        field_named(fields, "value"@),
        field_named(fields, "attribute"@),
    ) {
        (
            Some(JsonFieldView::Integer(index)),
            Some(JsonFieldView::Text(entity)),
            Some(JsonFieldView::Text(value)),
            Some(attribute),
        ) => Some((index, entity, value, json_text_of(attribute))),
        _ => None,
    }
}

/// The value of the first field of the given name.
pub fn field<'a>(fields: &'a [(String, JsonField)], name: &str) -> (r: Option<&'a JsonField>)
    ensures
        match r {
            Some(found) => field_named(field_views(fields@), name@) == Some(found@),
            None => field_named(field_views(fields@), name@) is None,
        },
{
    let ghost all = field_views(fields@);
    let wanted = name.to_owned();
    let mut i: usize = 0;
    assert(all.skip(0) =~= all);
    while i < fields.len()
        invariant
            i <= fields.len(),
            all == field_views(fields@),
            wanted@ == name@,
            field_named(all, name@) == field_named(all.skip(i as int), name@),
        decreases fields.len() - i,
    {
        proof {
            assert(all.skip(i as int)[0] == all[i as int]);
            assert(all.skip(i as int).drop_first() =~= all.skip(i + 1));
        }
        if fields[i].0 == wanted {
            return Some(&fields[i].1);
        }
        i = i + 1;
    }
    None
}

/// The JSON text of the value of a field.
pub fn field_json(field: &JsonField) -> (text: String)
    ensures
        text@ == json_text_of(field@),
{
    match field {
        JsonField::Integer(n) => decimal(*n),
        JsonField::Text(raw) => match quote(raw.as_str()) {
            Some(text) => text,
            None => String::new(),
        },
        JsonField::Other(text) => text.clone(),
    }
}

/// Reads the fields of an object as those of a record: the index, the
/// entity, the value and the JSON text of the attribute, or nothing where the
/// object lacks one of them or holds a value of another kind for it.
pub fn record_fields(fields: &[(String, JsonField)]) -> (r: Option<(i64, String, String, String)>)
    ensures
        match r {
            Some(found) => record_fields_in(field_views(fields@)) == Some(
                (found.0, found.1@, found.2@, found.3@),
            ),
            None => record_fields_in(field_views(fields@)) is None,
        },
{
    let index = match field(fields, "index") {
        Some(JsonField::Integer(n)) => *n,
        _ => {
            return None;
        },
    };
    let entity = match field(fields, "entity") {
        Some(JsonField::Text(text)) => text.clone(),
        _ => {
            return None;
        },
    };
    let value = match field(fields, "value") {
        Some(JsonField::Text(text)) => text.clone(),
        _ => {
            return None;
        },
    };
    let attribute = match field(fields, "attribute") {
        Some(found) => field_json(found),
        None => {
            return None;
        },
    };
    Some((index, entity, value, attribute))
}

} // verus!
