//! Records as content: a record is stored as a JSON object, under the hash of
//! that text.

use crate::cas::content::{AddressableContent, Content};
use crate::eav::eavi::{Attribute, EaviView, EntityAttributeValueIndex, ExampleAttribute};
use crate::error::{JsonError, JsonResult};
use crate::hash::{address_of_text, text_key, Address, HashString};
use crate::json::{
    decimal, decimal_text, field_views, json_object, json_object_of, json_string_text,
    json_string_value, quote, record_fields, record_fields_in, unquote,
};
use vstd::prelude::*;
use vstd::string::*;

verus! {

/// An attribute that can be written as JSON and read back.
pub trait JsonAttribute: Attribute {
    /// The JSON text of the attribute.
    spec fn json(&self) -> Seq<char>;

    /// The key of the attribute that a JSON text stands for, where it stands
    /// for one.
    spec fn parsed(text: Seq<char>) -> Option<Seq<u8>>;

    /// The JSON text of the attribute with the given key.
    spec fn json_of(key: Seq<u8>) -> Seq<char>;

    /// The JSON text of an attribute is that of its key.
    proof fn json_is_of_key(&self)
        ensures
            self.json() == Self::json_of(self.key()),
    ;

    /// The JSON text of the attribute.
    fn to_json(&self) -> (text: String)
        ensures
            text@ == self.json(),
    ;

    /// The attribute that a JSON text stands for, where it stands for one.
    fn from_json(text: &str) -> (r: Option<Self>)
        ensures
            match r {
                Some(attribute) => Self::parsed(text@) == Some(attribute.key()),
                None => Self::parsed(text@) is None,
            },
    ;
}

/// The JSON text of the bare attribute.
pub open spec fn bare_json() -> Seq<char> {
    "\"WithoutPayload\""@
}

/// The text before the payload in the JSON text of an attribute with payload.
pub open spec fn payload_opening() -> Seq<char> {
    "{\"WithPayload\":"@
}

/// The text is that of an attribute with payload around some JSON text.
pub open spec fn payload_framed(text: Seq<char>) -> bool {
    &&& text.len() >= 16
    &&& text.subrange(0, 15) == payload_opening()
    &&& text.subrange(text.len() - 1, text.len() as int) == "}"@
}

impl JsonAttribute for ExampleAttribute {
    /// The name of the variant, as a string for the bare attribute, and as the
    /// one field of an object, with the payload as its value, for the other.
    open spec fn json(&self) -> Seq<char> {
        match self {
            ExampleAttribute::WithoutPayload => bare_json(),
            ExampleAttribute::WithPayload(payload) => payload_opening() + json_string_text(
                payload@,
            ) + "}"@,
        }
    }

    open spec fn json_of(key: Seq<u8>) -> Seq<char> {
        if key == seq![0u8] {
            bare_json()
        } else {
            payload_opening() + json_string_text(vstd::utf8::decode_utf8(key.skip(1))) + "}"@
        }
    }

    proof fn json_is_of_key(&self) {
        match self {
            ExampleAttribute::WithoutPayload => {},
            ExampleAttribute::WithPayload(payload) => {
                let key = self.key();
                assert(key[0] == 1u8);
                assert(key.skip(1) =~= text_key(payload@));
                vstd::utf8::encode_utf8_decode_utf8(payload@);
            },
        }
    }

    open spec fn parsed(text: Seq<char>) -> Option<Seq<u8>> {
        if text == bare_json() {
            Some(seq![0u8])
        } else if payload_framed(text) {
            match json_string_value(text.subrange(15, text.len() - 1)) {
                Some(payload) => Some(seq![1u8] + text_key(payload)),
                None => None,
            }
        } else {
            None
        }
    }

    fn to_json(&self) -> (text: String) {
        match self {
            ExampleAttribute::WithoutPayload => String::from_str("\"WithoutPayload\""),
            ExampleAttribute::WithPayload(payload) => {
                let inside = match quote(payload.as_str()) {
                    Some(text) => text,
                    None => String::new(),
                };
                String::from_str("{\"WithPayload\":").concat(inside.as_str()).concat("}")
            },
        }
    }

    fn from_json(text: &str) -> (r: Option<Self>) {
        proof {
            reveal_strlit("\"WithoutPayload\"");
            reveal_strlit("{\"WithPayload\":");
            reveal_strlit("}");
        }
        if text.to_owned() == String::from_str("\"WithoutPayload\"") {
            return Some(ExampleAttribute::WithoutPayload);
        }
        let n = text.unicode_len();
        if n < 16 {
            return None;
        }
        let opening = text.substring_char(0, 15).to_owned();
        let closing = text.substring_char(n - 1, n).to_owned();
        if opening != String::from_str("{\"WithPayload\":") || closing != String::from_str("}") {
            return None;
        }
        match unquote(text.substring_char(15, n - 1)) {
            Some(payload) => Some(ExampleAttribute::WithPayload(payload)),
            None => None,
        }
    }
}

/// The JSON text of a record: an object with the index, the entity, the
/// value and the attribute, in this order.
pub open spec fn record_json(r: EaviView, attribute_json: Seq<char>) -> Seq<char> {
    "{\"index\":"@ + decimal_text(r.index) + ",\"entity\":"@ + json_string_text(r.entity)
        + ",\"value\":"@ + json_string_text(r.value) + ",\"attribute\":"@ + attribute_json + "}"@
}

/// The record that a JSON text stands for, where it stands for one: the text
/// is an object with an integer `index`, strings `entity` and `value`, and an
/// `attribute` that stands for an attribute.
pub open spec fn record_of_text<A: JsonAttribute>(text: Seq<char>) -> Option<EaviView> {
    match json_object_of(text) {
        Some(object) => match record_fields_in(object) {
            Some(fields) => match A::parsed(fields.3) {
                Some(key) => Some(
                    EaviView { entity: fields.1, attribute: key, value: fields.2, index: fields.0 },
                ),
                None => None,
            },
            None => None,
        },
        None => None,
    }
}

impl<A: JsonAttribute> EntityAttributeValueIndex<A> {
    /// The JSON text of the attribute of the record.
    pub closed spec fn attribute_json(&self) -> Seq<char> {
        self.attribute_spec().json()
    }
}

impl<A: JsonAttribute> AddressableContent for EntityAttributeValueIndex<A> {
    open spec fn content_text(&self) -> Seq<char> {
        record_json(self@, self.attribute_json())
    }

    /// The hash of the content.
    open spec fn address_text(&self) -> Seq<char> {
        address_of_text(self.content_text())
    }

    fn address(&self) -> (r: Address) {
        HashString::encode_from_str(self.content().as_str())
    }

    fn content(&self) -> (r: Content) {
        let entity = match quote(self.entity_ref().as_str()) {
            Some(text) => text,
            None => String::new(),
        };
        let value = match quote(self.value_ref().as_str()) {
            Some(text) => text,
            None => String::new(),
        };
        let text = String::from_str("{\"index\":").concat(decimal(self.index()).as_str()).concat(
            ",\"entity\":",
        ).concat(entity.as_str()).concat(",\"value\":").concat(value.as_str()).concat(
            ",\"attribute\":",
        ).concat(self.attribute_ref().to_json().as_str()).concat("}");
        Content::from_string(text)
    }

    /// The hash of the record as it is written, where the content stands for
    /// a record.
    open spec fn read_address(content: Seq<char>) -> Option<Seq<char>> {
        match record_of_text::<A>(content) {
            Some(record) => Some(
                address_of_text(record_json(record, A::json_of(record.attribute))),
            ),
            None => None,
        }
    }

    /// Succeeds exactly where the content stands for a record.
    fn try_from_content(content: &Content) -> (r: JsonResult<Self>)
        ensures
            r is Ok <==> record_of_text::<A>(content@) is Some,
            r matches Ok(record) ==> Some(record@) == record_of_text::<A>(content@),
            r matches Err(e) ==> e is SerializationError,
    {
        let object = match json_object(content.as_str()) {
            Some(object) => object,
            None => {
                return Err(JsonError::SerializationError(String::from_str("not a record")));
            },
        };
        let fields = match record_fields(object.as_slice()) {
            Some(fields) => fields,
            None => {
                return Err(JsonError::SerializationError(String::from_str("not a record")));
            },
        };
        let attribute = match A::from_json(fields.3.as_str()) {
            Some(attribute) => attribute,
            None => {
                return Err(JsonError::SerializationError(String::from_str("not a record")));
            },
        };
        let entity = Address::from_string(fields.1);
        let value = Address::from_string(fields.2);
        match EntityAttributeValueIndex::new_with_index(&entity, &attribute, &value, fields.0) {
            Ok(record) => {
                proof {
                    record.lemma_attribute_key();
                    record.attribute_spec().json_is_of_key();
                }
                Ok(record)
            },
            Err(_) => Err(JsonError::SerializationError(String::from_str("not a record"))),
        }
    }
}

} // verus!
