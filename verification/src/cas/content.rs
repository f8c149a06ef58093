//! Content and the values that can be stored as content.

use crate::error::JsonResult;
use crate::hash::{address_of_text, Address, HashString};
use vstd::prelude::*;
use vstd::string::*;

verus! {

/// A value in its canonical serialized form.
#[derive(Debug, PartialEq, Eq, Hash)]
pub struct JsonString {
    text: String,
}

/// What a content-addressable store holds.
pub type Content = JsonString;

impl View for JsonString {
    type V = Seq<char>;

    closed spec fn view(&self) -> Seq<char> {
        self.text@
    }
}

impl Clone for JsonString {
    fn clone(&self) -> (r: Self)
        ensures
            r@ == self@,
    {
        JsonString { text: self.text.clone() }
    }
}

impl JsonString {
    /// The content with the given serialized text.
    pub fn from_json(text: &str) -> (r: JsonString)
        ensures
            r@ == text@,
    {
        JsonString { text: String::from_str(text) }
    }

    /// The content with the given serialized text.
    pub fn from_string(text: String) -> (r: JsonString)
        ensures
            r@ == text@,
    {
        JsonString { text }
    }

    /// The serialized text.
    pub fn as_str(&self) -> (r: &str)
        ensures
            r@ == self@,
    {
        self.text.as_str()
    }

    /// The serialized text as an owned string.
    pub fn to_string(&self) -> (r: String)
        ensures
            r@ == self@,
    {
        self.text.clone()
    }

    /// The number of bytes of the serialized text.
    pub fn byte_len(&self) -> (n: usize)
        ensures
            n == crate::hash::text_key(self@).len(),
    {
        self.text.as_str().as_bytes().len()
    }

    /// Whether two contents hold the same text.
    pub fn same(&self, other: &JsonString) -> (r: bool)
        ensures
            r == (self@ == other@),
    {
        self.text == other.text
    }
}

/// A value that a content-addressable store can hold: it has content, and an
/// address under which that content is stored.
pub trait AddressableContent: Sized {
    /// The content of the value.
    spec fn content_text(&self) -> Seq<char>;

    /// The address of the value.
    spec fn address_text(&self) -> Seq<char>;

    /// The address under which the value is stored.
    fn address(&self) -> (r: Address)
        ensures
            r@ == self.address_text(),
    ;

    /// The content that is stored for the value.
    fn content(&self) -> (r: Content)
        ensures
            r@ == self.content_text(),
    ;

    /// The address of the value that the content stands for, where the
    /// content stands for a value.
    spec fn read_address(content: Seq<char>) -> Option<Seq<char>>;

    /// The value that the given content stands for. Fails exactly where the
    /// content stands for no value.
    fn try_from_content(content: &Content) -> (r: JsonResult<Self>)
        ensures
            match r {
                Ok(value) => Self::read_address(content@) == Some(value.address_text()),
                Err(_) => Self::read_address(content@) is None,
            },
    ;
}

/// Content is stored as itself, under the hash of its text.
impl AddressableContent for JsonString {
    open spec fn content_text(&self) -> Seq<char> {
        self@
    }

    open spec fn address_text(&self) -> Seq<char> {
        address_of_text(self@)
    }

    fn address(&self) -> (r: Address) {
        HashString::encode_from_str(self.as_str())
    }

    fn content(&self) -> (r: Content) {
        self.clone()
    }

    /// Every content stands for itself.
    open spec fn read_address(content: Seq<char>) -> Option<Seq<char>> {
        Some(address_of_text(content))
    }

    fn try_from_content(content: &Content) -> (r: JsonResult<Self>)
        ensures
            r is Ok,
            r.unwrap()@ == content@,
    {
        Ok(content.clone())
    }
}

/// A value whose address is the hash of its content.
#[derive(Debug, PartialEq, Eq, Hash)]
pub struct ExampleAddressableContent {
    content: Content,
}

impl Clone for ExampleAddressableContent {
    fn clone(&self) -> (r: Self)
        ensures
            r.content_text() == self.content_text(),
            r.address_text() == self.address_text(),
    {
        ExampleAddressableContent { content: self.content.clone() }
    }
}

impl AddressableContent for ExampleAddressableContent {
    closed spec fn content_text(&self) -> Seq<char> {
        self.content@
    }

    closed spec fn address_text(&self) -> Seq<char> {
        address_of_text(self.content@)
    }

    fn address(&self) -> (r: Address)
        ensures
            r@ == address_of_text(self.content_text()),
    {
        HashString::encode_from_str(self.content.as_str())
    }

    fn content(&self) -> (r: Content) {
        self.content.clone()
    }

    /// Every content stands for a value.
    open spec fn read_address(content: Seq<char>) -> Option<Seq<char>> {
        Some(address_of_text(content))
    }

    fn try_from_content(content: &Content) -> (r: JsonResult<Self>)
        ensures
            r is Ok,
            r.unwrap().content_text() == content@,
            r.unwrap().address_text() == address_of_text(content@),
    {
        Ok(ExampleAddressableContent { content: content.clone() })
    }
}

/// A value that keeps its address beside its content.
#[derive(Debug, PartialEq, Eq, Hash)]
pub struct OtherExampleAddressableContent {
    content: Content,
    address: Address,
}

impl Clone for OtherExampleAddressableContent {
    fn clone(&self) -> (r: Self)
        ensures
            r.content_text() == self.content_text(),
            r.address_text() == self.address_text(),
    {
        OtherExampleAddressableContent {
            content: self.content.clone(),
            address: self.address.clone(),
        }
    }
}

impl AddressableContent for OtherExampleAddressableContent {
    closed spec fn content_text(&self) -> Seq<char> {
        self.content@
    }

    closed spec fn address_text(&self) -> Seq<char> {
        self.address@
    }

    fn address(&self) -> (r: Address) {
        self.address.clone()
    }

    fn content(&self) -> (r: Content) {
        self.content.clone()
    }

    /// Every content stands for a value.
    open spec fn read_address(content: Seq<char>) -> Option<Seq<char>> {
        Some(address_of_text(content))
    }

    fn try_from_content(content: &Content) -> (r: JsonResult<Self>)
        ensures
            r is Ok,
            r.unwrap().content_text() == content@,
            r.unwrap().address_text() == address_of_text(content@),
    {
        Ok(
            OtherExampleAddressableContent {
                content: content.clone(),
                address: HashString::encode_from_str(content.as_str()),
            },
        )
    }
}

} // verus!
