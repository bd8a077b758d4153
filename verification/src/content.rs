//! Addresses, content, and what it takes to be stored under an address.

use crate::error::PersistenceError;
use crate::order::{bytes_lt, rank_bytes, Rank};
use vstd::prelude::*;
use vstd::utf8::encode_utf8;

verus! {

/// A stable, comparable identifier of a piece of content: a byte string,
/// ordered byte by byte.
#[derive(Debug, PartialEq, Eq, Hash, PartialOrd, Ord)]
pub struct Address {
    bytes: Vec<u8>,
}

impl View for Address {
    type V = Seq<u8>;

    closed spec fn view(&self) -> Seq<u8> {
        self.bytes@
    }
}

impl Clone for Address {
    fn clone(&self) -> (copy: Self)
        ensures
            copy@ == self@,
    {
        Address { bytes: self.bytes.clone() }
    }
}

impl Address {
    /// The address made of `bytes`.
    pub fn new(bytes: Vec<u8>) -> (address: Address)
        ensures
            address@ == bytes@,
    {
        Address { bytes }
    }

    /// The address made of the UTF-8 bytes of `text`.
    pub fn from_text(text: &str) -> (address: Address)
        ensures
            address@ == encode_utf8(text@),
    {
        Address { bytes: text.as_bytes_vec() }
    }

    /// The bytes of the address.
    pub fn as_bytes(&self) -> (bytes: &[u8])
        ensures
            bytes@ == self@,
    {
        self.bytes.as_slice()
    }

    /// The number of bytes in the address.
    pub fn len(&self) -> (n: usize)
        ensures
            n == self@.len(),
    {
        self.bytes.len()
    }

    /// Where this address stands relative to `other`, byte by byte.
    pub fn rank(&self, other: &Address) -> (rank: Rank)
        ensures
            rank == Rank::Before <==> bytes_lt(self@, other@),
            rank == Rank::Same <==> self@ == other@,
            rank == Rank::After <==> bytes_lt(other@, self@),
    {
        rank_bytes(self.bytes.as_slice(), other.bytes.as_slice())
    }

    /// Whether the two addresses hold the same bytes.
    pub fn same_as(&self, other: &Address) -> (same: bool)
        ensures
            same == (self@ == other@),
    {
        self.rank(other) == Rank::Same
    }
}

/// An opaque payload of bytes.
#[derive(Debug, PartialEq, Eq, Hash)]
pub struct Content {
    bytes: Vec<u8>,
}

impl View for Content {
    type V = Seq<u8>;

    closed spec fn view(&self) -> Seq<u8> {
        self.bytes@
    }
}

impl Clone for Content {
    fn clone(&self) -> (copy: Self)
        ensures
            copy@ == self@,
    {
        Content { bytes: self.bytes.clone() }
    }
}

impl Content {
    /// The content made of `bytes`.
    pub fn new(bytes: Vec<u8>) -> (content: Content)
        ensures
            content@ == bytes@,
    {
        Content { bytes }
    }

    /// The content made of the UTF-8 bytes of `text`.
    pub fn from_text(text: &str) -> (content: Content)
        ensures
            content@ == encode_utf8(text@),
    {
        Content { bytes: text.as_bytes_vec() }
    }

    /// The bytes of the content.
    pub fn as_bytes(&self) -> (bytes: &[u8])
        ensures
            bytes@ == self@,
    {
        self.bytes.as_slice()
    }

    /// The number of bytes in the content.
    pub fn len(&self) -> (n: usize)
        ensures
            n == self@.len(),
    {
        self.bytes.len()
    }

    /// Whether the two contents hold the same bytes.
    pub fn same_as(&self, other: &Content) -> (same: bool)
        ensures
            same == (self@ == other@),
    {
        rank_bytes(self.bytes.as_slice(), other.bytes.as_slice()) == Rank::Same
    }
}

/// A value that can be kept in a content-addressable store: it has content,
/// an address that is a function of it, and can be read back from its content.
pub trait AddressableContent: Sized {
    /// The address under which the value is stored.
    spec fn address_spec(&self) -> Seq<u8>;

    /// The bytes that are stored for the value.
    spec fn content_spec(&self) -> Seq<u8>;

    /// Whether `content` is the content of some value of this type.
    spec fn decodable(content: Seq<u8>) -> bool;

    /// The content of every value that fits into memory can be read back.
    proof fn lemma_content_decodable(&self)
        requires
            self.content_spec().len() <= usize::MAX,
        ensures
            Self::decodable(self.content_spec()),
    ;

    /// The address under which the value is stored.
    fn address(&self) -> (address: Address)
        ensures
            address@ == self.address_spec(),
    ;

    /// The bytes that are stored for the value.
    fn content(&self) -> (content: Content)
        ensures
            content@ == self.content_spec(),
    ;

    /// Reads a value back from its content. It succeeds exactly on the
    /// content of a value of this type, and returns a value with that content.
    fn try_from_content(content: &Content) -> (result: Result<Self, PersistenceError>)
        ensures
            result is Ok <==> Self::decodable(content@),
            result matches Ok(value) ==> value.content_spec() == content@,
    ;
}

} // verus!
