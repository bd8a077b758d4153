//! Identifiers of stores and cursors.

use vstd::prelude::*;

verus! {

/// `id` has the shape of a random UUID: its version is 4 and its variant is
/// that of RFC 9562.
pub open spec fn is_random_uuid(id: u128) -> bool {
    id & 0x0000_0000_0000_f000_c000_0000_0000_0000u128
        == 0x0000_0000_0000_4000_8000_0000_0000_0000u128
}

/// Draws an identifier at random: `Uuid::new_v4()` of the `uuid` crate, read
/// as a number by `Uuid::as_u128()`.
///
/// The contract is believed, not proved. It claims only what holds of every
/// draw, the version and variant bits that `new_v4` sets. The call panics if
/// the operating system cannot supply random bytes.
#[verifier::external_body]
pub(crate) fn fresh_id() -> (id: u128)
    ensures
        is_random_uuid(id),
{
    uuid::Uuid::new_v4().as_u128()
}

} // verus!
