//! Entity-attribute-value-index records.
//!
//! A record relates an entity to a value under an attribute, and carries an
//! index: a logical timestamp that orders the records of one entity and tells
//! them apart.

use crate::cas::content::{AddressableContent, Content};
use crate::error::{JsonError, JsonResult, PersistenceResult};
use crate::json::{json_string_text, json_string_value, quote, unquote};
use crate::hash::{lemma_text_key_injective, text_key, Address};
use crate::order::{
    bytes_order, bytes_precede, compare_bytes, lemma_bytes_asymmetric, lemma_bytes_connected,
    lemma_bytes_irreflexive, lemma_bytes_shared_head, lemma_bytes_transitive, Precedence,
};
use vstd::prelude::*;
use vstd::string::*;

verus! {

/// Address of the content that a record is about.
pub type Entity = Address;

/// Address of the content that a record points to.
pub type Value = Address;

/// Logical timestamp of a record.
pub type Index = i64;

/// What relates an entity to a value. Attributes are identified and ordered by
/// a key of bytes.
pub trait Attribute: Sized {
    /// The key that identifies the attribute and orders it among the others.
    spec fn key(&self) -> Seq<u8>;

    /// Where this attribute stands relative to another.
    fn compare(&self, other: &Self) -> (r: Precedence)
        ensures
            r == bytes_order(self.key(), other.key()),
    ;

    /// A copy of the attribute.
    fn duplicate(&self) -> (r: Self)
        ensures
            r.key() == self.key(),
    ;
}

/// An address can stand where an attribute stands: its key is the bytes of its
/// text.
impl Attribute for Address {
    open spec fn key(&self) -> Seq<u8> {
        text_key(self@)
    }

    fn compare(&self, other: &Self) -> (r: Precedence) {
        Address::compare(self, other)
    }

    fn duplicate(&self) -> (r: Self)
        ensures
            r@ == self@,
    {
        self.clone()
    }
}

/// An attribute that is either bare or carries a payload.
#[derive(Debug, PartialEq, Eq, PartialOrd, Ord, Hash)]
pub enum ExampleAttribute {
    WithoutPayload,
    WithPayload(String),
}

impl Clone for ExampleAttribute {
    fn clone(&self) -> (r: Self)
        ensures
            r == *self,
    {
        match self {
            ExampleAttribute::WithoutPayload => ExampleAttribute::WithoutPayload,
            ExampleAttribute::WithPayload(payload) => ExampleAttribute::WithPayload(
                payload.clone(),
            ),
        }
    }
}

impl Default for ExampleAttribute {
    fn default() -> (r: ExampleAttribute)
        ensures
            r == ExampleAttribute::WithoutPayload,
    {
        ExampleAttribute::WithoutPayload
    }
}

impl ExampleAttribute {
    /// The text that a bare attribute is written as.
    pub open spec fn bare_text() -> Seq<char> {
        "without-payload"@
    }

    /// The text that the attribute is written as.
    pub open spec fn text(self) -> Seq<char> {
        match self {
            ExampleAttribute::WithoutPayload => Self::bare_text(),
            ExampleAttribute::WithPayload(payload) => payload@,
        }
    }

    /// The attribute that a text stands for: the bare attribute for its own
    /// text, and an attribute with the text as payload for every other.
    pub fn from_string(text: String) -> (r: ExampleAttribute)
        ensures
            text@ == Self::bare_text() ==> r == ExampleAttribute::WithoutPayload,
            text@ != Self::bare_text() ==> r == ExampleAttribute::WithPayload(text),
    {
        let bare = String::from_str("without-payload");
        if text == bare {
            ExampleAttribute::WithoutPayload
        } else {
            ExampleAttribute::WithPayload(text)
        }
    }

    /// The text that the attribute is written as.
    pub fn to_string(&self) -> (r: String)
        ensures
            r@ == self.text(),
    {
        match self {
            ExampleAttribute::WithoutPayload => String::from_str("without-payload"),
            ExampleAttribute::WithPayload(payload) => payload.clone(),
        }
    }
}

impl Attribute for ExampleAttribute {
    /// A tag byte, 0 for the bare attribute and 1 for one with a payload, then
    /// the bytes of the payload.
    open spec fn key(&self) -> Seq<u8> {
        match self {
            ExampleAttribute::WithoutPayload => seq![0u8],
            ExampleAttribute::WithPayload(payload) => seq![1u8] + text_key(payload@),
        }
    }

    fn compare(&self, other: &Self) -> (r: Precedence) {
        match self {
            ExampleAttribute::WithoutPayload => match other {
                ExampleAttribute::WithoutPayload => Precedence::Same,
                ExampleAttribute::WithPayload(_) => {
                    assert(self.key()[0] != other.key()[0]);
                    Precedence::Before
                },
            },
            ExampleAttribute::WithPayload(mine) => match other {
                ExampleAttribute::WithoutPayload => {
                    assert(self.key()[0] != other.key()[0]);
                    Precedence::After
                },
                ExampleAttribute::WithPayload(theirs) => {
                    proof {
                        lemma_bytes_shared_head(1u8, text_key(mine@), text_key(theirs@));
                    }
                    compare_bytes(mine.as_str().as_bytes(), theirs.as_str().as_bytes())
                },
            },
        }
    }

    fn duplicate(&self) -> (r: Self) {
        self.clone()
    }
}

/// Why a text could not be read as an attribute.
#[derive(Debug, PartialEq, Eq)]
pub enum AttributeError {
    Unrecognized(String),
    ParseError,
}

impl AttributeError {
    /// The message of the error.
    pub open spec fn message(self) -> Seq<char> {
        match self {
            AttributeError::Unrecognized(attribute) => "Unknown attribute: "@ + attribute@,
            AttributeError::ParseError => "Could not parse attribute, bad regex match"@,
        }
    }

    /// The content error that reports this attribute error.
    pub fn to_json_error(self) -> (e: crate::error::JsonError)
        ensures
            e is ErrorGeneric,
            e.message() == self.message(),
    {
        match self {
            AttributeError::Unrecognized(attribute) => {
                let message = String::from_str("Unknown attribute: ").concat(attribute.as_str());
                crate::error::JsonError::ErrorGeneric(message)
            },
            AttributeError::ParseError => crate::error::JsonError::ErrorGeneric(
                String::from_str("Could not parse attribute, bad regex match"),
            ),
        }
    }
}

/// What a record says, as mathematical values.
pub struct EaviView {
    pub entity: Seq<char>,
    pub attribute: Seq<u8>,
    pub value: Seq<char>,
    pub index: i64,
}

/// Where record `x` stands relative to record `y`: by entity, then attribute,
/// then value, then index.
pub open spec fn record_order(x: EaviView, y: EaviView) -> Precedence {
    let by_entity = bytes_order(text_key(x.entity), text_key(y.entity));
    let by_attribute = bytes_order(x.attribute, y.attribute);
    let by_value = bytes_order(text_key(x.value), text_key(y.value));
    if by_entity != Precedence::Same {
        by_entity
    } else if by_attribute != Precedence::Same {
        by_attribute
    } else if by_value != Precedence::Same {
        by_value
    } else if x.index < y.index {
        Precedence::Before
    } else if x.index == y.index {
        Precedence::Same
    } else {
        Precedence::After
    }
}

/// Record `x` comes strictly before record `y`.
pub open spec fn record_precedes(x: EaviView, y: EaviView) -> bool {
    record_order(x, y) == Precedence::Before
}

/// Two records stand at the same place exactly when they are the same record.
pub proof fn lemma_record_same(x: EaviView, y: EaviView)
    ensures
        record_order(x, y) == Precedence::Same <==> x == y,
{
    if record_order(x, y) == Precedence::Same {
        lemma_text_key_injective(x.entity, y.entity);
        lemma_text_key_injective(x.value, y.value);
    }
}

/// Reading a comparison in the other direction swaps before and after.
pub proof fn lemma_record_flip(x: EaviView, y: EaviView)
    ensures
        record_order(x, y) == Precedence::After <==> record_precedes(y, x),
        record_order(x, y) == Precedence::Same <==> record_order(y, x) == Precedence::Same,
{
    crate::order::lemma_bytes_order_flip(text_key(x.entity), text_key(y.entity));
    crate::order::lemma_bytes_order_flip(x.attribute, y.attribute);
    crate::order::lemma_bytes_order_flip(text_key(x.value), text_key(y.value));
    crate::order::lemma_bytes_order_flip(text_key(y.entity), text_key(x.entity));
    crate::order::lemma_bytes_order_flip(y.attribute, x.attribute);
    crate::order::lemma_bytes_order_flip(text_key(y.value), text_key(x.value));
}

/// No record comes before itself, and of two records at most one comes before
/// the other.
pub proof fn lemma_record_asymmetric(x: EaviView, y: EaviView)
    requires
        record_precedes(x, y),
    ensures
        !record_precedes(y, x),
        x != y,
{
    lemma_record_flip(x, y);
    lemma_record_flip(y, x);
    lemma_record_same(x, y);
}

/// The order of records is transitive.
pub proof fn lemma_record_transitive(x: EaviView, y: EaviView, z: EaviView)
    requires
        record_precedes(x, y),
        record_precedes(y, z),
    ensures
        record_precedes(x, z),
{
    lemma_key_pair_transitive(text_key(x.entity), text_key(y.entity), text_key(z.entity));
    lemma_key_pair_transitive(x.attribute, y.attribute, z.attribute);
    lemma_key_pair_transitive(text_key(x.value), text_key(y.value), text_key(z.value));
}

/// What two ordered steps on one component say of the step across both.
proof fn lemma_key_pair_transitive(a: Seq<u8>, b: Seq<u8>, c: Seq<u8>)
    ensures
        bytes_order(a, b) == Precedence::Before && bytes_order(b, c) != Precedence::After
            ==> bytes_order(a, c) == Precedence::Before,
        bytes_order(a, b) != Precedence::After && bytes_order(b, c) == Precedence::Before
            ==> bytes_order(a, c) == Precedence::Before,
        bytes_order(a, b) == Precedence::Same && bytes_order(b, c) == Precedence::Same
            ==> bytes_order(a, c) == Precedence::Same,
{
    lemma_bytes_irreflexive(a);
    lemma_bytes_connected(a, b);
    lemma_bytes_connected(b, c);
    if bytes_precede(a, b) && bytes_precede(b, c) {
        lemma_bytes_transitive(a, b, c);
    }
    if bytes_precede(a, c) {
        lemma_bytes_asymmetric(a, c);
    }
}

/// A record: an entity, an attribute, a value and an index.
#[derive(Debug, PartialEq, Eq, Hash)]
pub struct EntityAttributeValueIndex<A: Attribute> {
    index: Index,
    entity: Entity,
    value: Value,
    attribute: A,
}

impl<A: Attribute> View for EntityAttributeValueIndex<A> {
    type V = EaviView;

    closed spec fn view(&self) -> EaviView {
        EaviView {
            entity: self.entity@,
            attribute: self.attribute.key(),
            value: self.value@,
            index: self.index,
        }
    }
}

impl<A: Attribute> EntityAttributeValueIndex<A> {
    /// The attribute of the record.
    pub closed spec fn attribute_spec(&self) -> A {
        self.attribute
    }

    /// What the record says of its attribute is the key of the attribute.
    pub proof fn lemma_attribute_key(&self)
        ensures
            self@.attribute == self.attribute_spec().key(),
    {
    }
}

impl<A: Attribute> Clone for EntityAttributeValueIndex<A> {
    fn clone(&self) -> (r: Self)
        ensures
            r@ == self@,
    {
        EntityAttributeValueIndex {
            index: self.index,
            entity: self.entity.clone(),
            value: self.value.clone(),
            attribute: self.attribute.duplicate(),
        }
    }
}

/// Calls `chrono::Utc::now` and `DateTime::timestamp_nanos`: the wall clock in
/// nanoseconds since the epoch, which an `i64` counts up to the year 2262.
/// Nothing is claimed of the number.
#[verifier::external_body]
fn clock_nanos() -> (now: i64) {
    chrono::Utc::now().timestamp_nanos()
}

impl<A: Attribute> EntityAttributeValueIndex<A> {
    /// A record of the given entity, attribute and value, indexed by the wall
    /// clock.
    pub fn new(entity: &Entity, attribute: &A, value: &Value) -> (r: PersistenceResult<
        EntityAttributeValueIndex<A>,
    >)
        ensures
            r is Ok,
            r.unwrap()@.entity == entity@,
            r.unwrap()@.attribute == attribute.key(),
            r.unwrap()@.value == value@,
    {
        EntityAttributeValueIndex::new_with_index(entity, attribute, value, clock_nanos())
    }

    /// A record of the given entity, attribute, value and index.
    pub fn new_with_index(entity: &Entity, attribute: &A, value: &Value, timestamp: i64) -> (r:
        PersistenceResult<EntityAttributeValueIndex<A>>)
        ensures
            r is Ok,
            r.unwrap()@ == (EaviView {
                entity: entity@,
                attribute: attribute.key(),
                value: value@,
                index: timestamp,
            }),
    {
        Ok(
            EntityAttributeValueIndex {
                index: timestamp,
                entity: entity.clone(),
                value: value.clone(),
                attribute: attribute.duplicate(),
            },
        )
    }

    /// The entity of the record.
    pub fn entity(&self) -> (r: Entity)
        ensures
            r@ == self@.entity,
    {
        self.entity.clone()
    }

    /// The attribute of the record.
    pub fn attribute(&self) -> (r: A)
        ensures
            r.key() == self@.attribute,
    {
        self.attribute.duplicate()
    }

    /// The value of the record.
    pub fn value(&self) -> (r: Value)
        ensures
            r@ == self@.value,
    {
        self.value.clone()
    }

    /// The index of the record.
    pub fn index(&self) -> (r: Index)
        ensures
            r == self@.index,
    {
        self.index
    }

    /// Gives the record another index and leaves the rest as it is.
    pub fn set_index(&mut self, new_index: i64)
        ensures
            final(self)@ == (EaviView { index: new_index, ..old(self)@ }),
    {
        self.index = new_index
    }

    /// The entity of the record, borrowed.
    pub fn entity_ref(&self) -> (r: &Entity)
        ensures
            r@ == self@.entity,
    {
        &self.entity
    }

    /// The attribute of the record, borrowed.
    pub fn attribute_ref(&self) -> (r: &A)
        ensures
            r.key() == self@.attribute,
            *r == self.attribute_spec(),
    {
        &self.attribute
    }

    /// The value of the record, borrowed.
    pub fn value_ref(&self) -> (r: &Value)
        ensures
            r@ == self@.value,
    {
        &self.value
    }

    /// Where this record stands relative to another in the order of records.
    pub fn compare(&self, other: &Self) -> (r: Precedence)
        ensures
            r == record_order(self@, other@),
    {
        let by_entity = self.entity.compare(&other.entity);
        if by_entity != Precedence::Same {
            return by_entity;
        }
        let by_attribute = self.attribute.compare(&other.attribute);
        if by_attribute != Precedence::Same {
            return by_attribute;
        }
        let by_value = self.value.compare(&other.value);
        if by_value != Precedence::Same {
            return by_value;
        }
        if self.index < other.index {
            Precedence::Before
        } else if self.index == other.index {
            Precedence::Same
        } else {
            Precedence::After
        }
    }

    /// Whether two records say the same.
    pub fn same(&self, other: &Self) -> (r: bool)
        ensures
            r == (self@ == other@),
    {
        proof {
            lemma_record_same(self@, other@);
        }
        self.compare(other) == Precedence::Same
    }
}

/// A value that is stored under its own data as address.
#[derive(Debug, PartialEq, Eq)]
pub struct ExampleEntry {
    pub data: String,
}

impl Clone for ExampleEntry {
    fn clone(&self) -> (r: Self)
        ensures
            r.data@ == self.data@,
    {
        ExampleEntry { data: self.data.clone() }
    }
}

/// The text before the data in the content of an example entry.
pub open spec fn entry_opening() -> Seq<char> {
    "{\"data\":"@
}

/// The text behind the data in the content of an example entry.
pub open spec fn entry_closing() -> Seq<char> {
    "}"@
}

/// The text is that of an example entry around some JSON text.
pub open spec fn entry_framed(text: Seq<char>) -> bool {
    &&& text.len() >= 9
    &&& text.subrange(0, 8) == entry_opening()
    &&& text.subrange(text.len() - 1, text.len() as int) == entry_closing()
}

/// The JSON text inside the frame of an example entry.
pub open spec fn entry_inside(text: Seq<char>) -> Seq<char> {
    text.subrange(8, text.len() - 1)
}

impl ExampleEntry {
    /// The entry with the given data.
    pub fn new(data: String) -> (r: Self)
        ensures
            r.data == data,
    {
        Self { data }
    }
}

impl AddressableContent for ExampleEntry {
    /// An object with the one field `data`.
    open spec fn content_text(&self) -> Seq<char> {
        entry_opening() + json_string_text(self.data@) + entry_closing()
    }

    /// The data itself.
    open spec fn address_text(&self) -> Seq<char> {
        self.data@
    }

    fn address(&self) -> (r: Address) {
        Address::from_string(self.data.clone())
    }

    fn content(&self) -> (r: Content) {
        let inside = match quote(self.data.as_str()) {
            Some(text) => text,
            None => String::new(),
        };
        let text = String::from_str("{\"data\":").concat(inside.as_str()).concat("}");
        Content::from_string(text)
    }

    /// The data of the entry, where the content is an object with the one
    /// field `data`, written without spaces, whose value is a string.
    open spec fn read_address(content: Seq<char>) -> Option<Seq<char>> {
        if entry_framed(content) {
            json_string_value(entry_inside(content))
        } else {
            None
        }
    }

    /// Succeeds exactly where the content is an object with the one field
    /// `data`, written without spaces, whose value is a string.
    fn try_from_content(content: &Content) -> (r: JsonResult<Self>)
        ensures
            r is Ok <==> entry_framed(content@) && json_string_value(entry_inside(content@)) is Some,
            r matches Ok(entry) ==> entry.data@ == json_string_value(
                entry_inside(content@),
            ).unwrap(),
            r matches Err(e) ==> e is SerializationError,
    {
        let text = content.as_str();
        let n = text.unicode_len();
        proof {
            reveal_strlit("{\"data\":");
            reveal_strlit("}");
        }
        if n < 9 {
            return Err(JsonError::SerializationError(String::from_str("not an example entry")));
        }
        let opening = text.substring_char(0, 8).to_owned();
        let closing = text.substring_char(n - 1, n).to_owned();
        if opening != String::from_str("{\"data\":") || closing != String::from_str("}") {
            return Err(JsonError::SerializationError(String::from_str("not an example entry")));
        }
        match unquote(text.substring_char(8, n - 1)) {
            Some(data) => Ok(ExampleEntry { data }),
            None => Err(JsonError::SerializationError(String::from_str("not an example entry"))),
        }
    }
}

} // verus!
