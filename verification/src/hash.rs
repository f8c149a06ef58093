//! Addresses: the printable hashes under which content is stored.

use crate::order::{bytes_order, compare_bytes, Precedence};
use vstd::prelude::*;
use vstd::string::*;
use vstd::utf8::*;

verus! {

/// The SHA2-256 multihash of a byte string: the hash code, the digest length and
/// the digest.
pub uninterp spec fn multihash_sha2_256(input: Seq<u8>) -> Seq<u8>;

/// The base58 text (Bitcoin alphabet) of a byte string.
pub uninterp spec fn base58_text(bytes: Seq<u8>) -> Seq<char>;

/// The key by which a text is ordered: its UTF-8 bytes.
pub open spec fn text_key(text: Seq<char>) -> Seq<u8> {
    encode_utf8(text)
}

/// The address that a byte string hashes to.
pub open spec fn address_of_bytes(bytes: Seq<u8>) -> Seq<char> {
    base58_text(multihash_sha2_256(bytes))
}

/// The address that a text hashes to.
pub open spec fn address_of_text(text: Seq<char>) -> Seq<char> {
    address_of_bytes(text_key(text))
}

/// Texts with the same key are the same text.
pub proof fn lemma_text_key_injective(a: Seq<char>, b: Seq<char>)
    requires
        text_key(a) == text_key(b),
    ensures
        a == b,
{
    encode_utf8_decode_utf8(a);
    encode_utf8_decode_utf8(b);
}

/// Calls `multihash::encode` with `Hash::SHA2256`. The contract claims that the
/// call succeeds for this hash type and names the bytes it returns.
#[verifier::external_body]
fn sha2_256_multihash(input: &[u8]) -> (digest: Option<Vec<u8>>)
    ensures
        digest is Some,
        digest.unwrap()@ == multihash_sha2_256(input@),
{
    multihash::encode(multihash::Hash::SHA2256, input).ok()
}

/// Calls `rust_base58::ToBase58::to_base58` on a byte slice and names the text
/// it returns.
#[verifier::external_body]
fn to_base58(bytes: &[u8]) -> (text: String)
    ensures
        text@ == base58_text(bytes@),
{
    rust_base58::ToBase58::to_base58(bytes)
}

/// A hash in printable form.
#[derive(Debug, PartialEq, Eq, Hash)]
pub struct HashString {
    text: String,
}

/// Where content lives in a store.
pub type Address = HashString;

impl View for HashString {
    type V = Seq<char>;

    closed spec fn view(&self) -> Seq<char> {
        self.text@
    }
}

impl Clone for HashString {
    fn clone(&self) -> (r: Self)
        ensures
            r@ == self@,
    {
        HashString { text: self.text.clone() }
    }
}

impl HashString {
    /// The empty hash string.
    pub fn new() -> (r: HashString)
        ensures
            r@ == Seq::<char>::empty(),
    {
        HashString { text: String::new() }
    }

    /// The hash string with the given text.
    pub fn from_string(text: String) -> (r: HashString)
        ensures
            r@ == text@,
    {
        HashString { text }
    }

    /// The hash string with the given text.
    pub fn from_text(text: &str) -> (r: HashString)
        ensures
            r@ == text@,
    {
        HashString { text: String::from_str(text) }
    }

    /// The text of the hash.
    pub fn as_str(&self) -> (r: &str)
        ensures
            r@ == self@,
    {
        self.text.as_str()
    }

    /// The text of the hash as an owned string.
    pub fn to_string(&self) -> (r: String)
        ensures
            r@ == self@,
    {
        self.text.clone()
    }

    /// Hashes bytes with SHA2-256 and prints the multihash in base58.
    pub fn encode_from_bytes(bytes: &[u8]) -> (r: HashString)
        ensures
            r@ == address_of_bytes(bytes@),
    {
        match sha2_256_multihash(bytes) {
            Some(digest) => HashString { text: to_base58(digest.as_slice()) },
            None => HashString::new(),
        }
    }

    /// Hashes the UTF-8 bytes of a text.
    pub fn encode_from_str(text: &str) -> (r: HashString)
        ensures
            r@ == address_of_text(text@),
    {
        HashString::encode_from_bytes(text.as_bytes())
    }

    /// Whether two hash strings hold the same text.
    pub fn same(&self, other: &HashString) -> (r: bool)
        ensures
            r == (self@ == other@),
    {
        self.text == other.text
    }

    /// Where this hash stands relative to another, by the bytes of the text.
    pub fn compare(&self, other: &HashString) -> (r: Precedence)
        ensures
            r == bytes_order(text_key(self@), text_key(other@)),
    {
        compare_bytes(self.text.as_str().as_bytes(), other.text.as_str().as_bytes())
    }
}

} // verus!
