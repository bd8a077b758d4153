//! Strings out of bytes.

use vstd::prelude::*;
use vstd::utf8::{decode_utf8, valid_utf8};

verus! {

/// Reads `bytes` as UTF-8: `String::from_utf8` of the standard library, with
/// its error dropped.
///
/// The contract is believed, not proved. It claims what the documentation of
/// `String::from_utf8` says: the call succeeds exactly on valid UTF-8, and
/// the string then holds the characters that the bytes encode.
#[verifier::external_body]
pub(crate) fn string_from_utf8(bytes: Vec<u8>) -> (text: Option<String>)
    ensures
        text is Some <==> valid_utf8(bytes@),
        text matches Some(string) ==> string@ == decode_utf8(bytes@),
{
    String::from_utf8(bytes).ok()
}

} // verus!
