//! Attributes: the names under which one address is related to another.

use crate::error::PersistenceError;
use crate::order::{bytes_lt, rank_bytes, Rank};
use vstd::prelude::*;
use vstd::std_specs::convert::FromSpecImpl;
use vstd::utf8::{encode_utf8, encode_utf8_decode_utf8};

verus! {

/// Why a string is not the string form of an attribute.
#[derive(Debug, PartialEq)]
pub enum AttributeError {
    /// The string names no known attribute.
    Unrecognized(String),
    /// The string does not have the shape of an attribute.
    ParseError,
}

impl AttributeError {
    /// A sentence that says what went wrong.
    pub fn message(&self) -> (message: String)
        ensures
            message@ == (match self {
                AttributeError::Unrecognized(name) => "Unknown attribute: "@ + name@,
                AttributeError::ParseError => "Could not parse attribute, bad regex match"@,
            }),
    {
        match self {
            AttributeError::Unrecognized(name) => String::from_str("Unknown attribute: ").concat(
                name.as_str(),
            ),
            AttributeError::ParseError => String::from_str(
                "Could not parse attribute, bad regex match",
            ),
        }
    }
}

impl From<AttributeError> for PersistenceError {
    fn from(error: AttributeError) -> (kind: PersistenceError) {
        PersistenceError::InvalidArgument
    }
}

impl FromSpecImpl<AttributeError> for PersistenceError {
    open spec fn obeys_from_spec() -> bool {
        true
    }

    open spec fn from_spec(error: AttributeError) -> PersistenceError {
        PersistenceError::InvalidArgument
    }
}

/// What a type must offer to name relations in the index: a string form from
/// which the attribute can be read back without loss. Two attributes with the
/// same string form are the same attribute.
pub trait Attribute: Sized {
    /// The string form of the attribute.
    spec fn text(&self) -> Seq<char>;

    /// The string form of the attribute that `text` is read as, or `None`
    /// where `text` is read as no attribute.
    spec fn parsed(text: Seq<char>) -> Option<Seq<char>>;

    /// The string form of an attribute is read as that attribute.
    proof fn lemma_lossless(&self)
        ensures
            Self::parsed(self.text()) == Some(self.text()),
    ;

    /// The string form of the attribute.
    fn to_text(&self) -> (text: String)
        ensures
            text@ == self.text(),
    ;

    /// Reads an attribute from a string.
    fn try_from_string(text: String) -> (result: Result<Self, AttributeError>)
        ensures
            result is Ok <==> Self::parsed(text@) is Some,
            result matches Ok(attribute) ==> Some(attribute.text()) == Self::parsed(text@),
    ;

    /// A copy of the attribute.
    fn duplicate(&self) -> (copy: Self)
        ensures
            copy.text() == self.text(),
    ;
}

/// `a` comes strictly before `b` when their UTF-8 bytes are compared.
pub open spec fn text_lt(a: Seq<char>, b: Seq<char>) -> bool {
    bytes_lt(encode_utf8(a), encode_utf8(b))
}

/// Two strings with the same UTF-8 bytes are the same string.
pub proof fn lemma_encode_utf8_injective(a: Seq<char>, b: Seq<char>)
    requires
        encode_utf8(a) == encode_utf8(b),
    ensures
        a == b,
{
    encode_utf8_decode_utf8(a);
    encode_utf8_decode_utf8(b);
}

/// Ranks the string `a` against `b` by their UTF-8 bytes.
pub fn rank_text(a: &str, b: &str) -> (rank: Rank)
    ensures
        rank == Rank::Before <==> text_lt(a@, b@),
        rank == Rank::Same <==> a@ == b@,
        rank == Rank::After <==> text_lt(b@, a@),
{
    let rank = rank_bytes(a.as_bytes(), b.as_bytes());
    proof {
        if encode_utf8(a@) == encode_utf8(b@) {
            lemma_encode_utf8_injective(a@, b@);
        }
    }
    rank
}

/// Whether two attributes are the same attribute.
pub fn same_attribute<A: Attribute>(a: &A, b: &A) -> (same: bool)
    ensures
        same == (a.text() == b.text()),
{
    let left = a.to_text();
    let right = b.to_text();
    left == right
}

} // verus!
