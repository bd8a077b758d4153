//! A small kind of content with a string in it, and a handful of values to
//! try things out with.

use crate::content::{Address, AddressableContent, Content};
use crate::codec::encode_eavi;
use crate::eavi::{Eavi, EntityAttributeValueIndex};
use crate::error::PersistenceError;
use crate::example_attribute::ExampleAttribute;
use crate::text::string_from_utf8;
use vstd::prelude::*;
use vstd::slice::slice_to_vec;
use vstd::utf8::{
    decode_utf8, decode_utf8_encode_utf8, encode_utf8, encode_utf8_valid_utf8, valid_utf8,
};

verus! {

/// Content that is a string, stored under the string itself.
#[derive(Debug, PartialEq, Eq)]
pub struct ExampleEntry {
    pub data: String,
}

impl Clone for ExampleEntry {
    fn clone(&self) -> (copy: Self)
        ensures
            copy == *self,
    {
        ExampleEntry { data: self.data.clone() }
    }
}

impl ExampleEntry {
    /// The entry that holds `data`.
    pub fn new(data: String) -> (entry: Self)
        ensures
            entry.data == data,
    {
        Self { data }
    }
}

impl AddressableContent for ExampleEntry {
    open spec fn address_spec(&self) -> Seq<u8> {
        encode_utf8(self.data@)
    }

    open spec fn content_spec(&self) -> Seq<u8> {
        encode_utf8(self.data@)
    }

    open spec fn decodable(content: Seq<u8>) -> bool {
        valid_utf8(content)
    }

    proof fn lemma_content_decodable(&self) {
        encode_utf8_valid_utf8(self.data@);
    }

    fn address(&self) -> (address: Address) {
        Address::from_text(self.data.as_str())
    }

    fn content(&self) -> (content: Content) {
        Content::from_text(self.data.as_str())
    }

    /// Reads an entry from its content, which must be UTF-8; content that is
    /// not is refused as `Serialization`.
    fn try_from_content(content: &Content) -> (result: Result<Self, PersistenceError>)
        ensures
            result matches Ok(entry) ==> entry.data@ == decode_utf8(content@),
            result matches Err(error) ==> error == PersistenceError::Serialization,
    {
        match string_from_utf8(slice_to_vec(content.as_bytes())) {
            Some(data) => {
                proof {
                    decode_utf8_encode_utf8(content@);
                }
                Ok(ExampleEntry { data })
            },
            None => Err(PersistenceError::Serialization),
        }
    }
}

/// The entry that holds `a`.
pub fn test_entry_a() -> (entry: ExampleEntry)
    ensures
        entry.data@ == "a"@,
{
    ExampleEntry::new(String::from_str("a"))
}

/// The entry that holds `b`.
pub fn test_entry_b() -> (entry: ExampleEntry)
    ensures
        entry.data@ == "b"@,
{
    ExampleEntry::new(String::from_str("b"))
}

/// The entry whose address is the entity of `test_eav`.
pub fn test_eav_entity() -> (entry: ExampleEntry)
    ensures
        entry.data@ == "a"@,
{
    test_entry_a()
}

/// The attribute of `test_eav`.
pub fn test_eav_attribute() -> (attribute: ExampleAttribute)
    ensures
        attribute matches ExampleAttribute::WithPayload(payload) && payload@ == "foo-attribute"@,
{
    ExampleAttribute::WithPayload(String::from_str("foo-attribute"))
}

/// The entry whose address is the value of `test_eav`.
pub fn test_eav_value() -> (entry: ExampleEntry)
    ensures
        entry.data@ == "b"@,
{
    test_entry_b()
}

/// What `test_eav` says.
pub open spec fn test_eav_spec() -> Eavi {
    Eavi {
        entity: encode_utf8("a"@),
        attribute: "with-"@ + "foo-attribute"@,
        value: encode_utf8("b"@),
        index: 0,
    }
}

/// A record with the index 0 that relates `a` to `b`.
pub fn test_eav() -> (record: EntityAttributeValueIndex<ExampleAttribute>)
    ensures
        record@ == test_eav_spec(),
{
    EntityAttributeValueIndex::with_index(
        &test_eav_entity().address(),
        &test_eav_attribute(),
        &test_eav_value().address(),
        0,
    )
}

/// The content of `test_eav`.
pub fn test_eav_content() -> (content: Content)
    ensures
        content@ == encode_eavi(test_eav_spec()),
{
    test_eav().content()
}

/// The address of `test_eav`.
pub fn test_eav_address() -> (address: Address)
    ensures
        address@ == encode_eavi(test_eav_spec()),
{
    test_eav().address()
}

} // verus!
