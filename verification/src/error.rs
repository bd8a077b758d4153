//! The one error type of the library.

use vstd::prelude::*;

verus! {

/// Why an operation on a store or a cursor failed.
///
/// An address that is simply absent is no error: lookups answer `Ok(None)`.
#[derive(Clone, Copy, Debug, PartialEq, Eq, Structural)]
pub enum PersistenceError {
    /// The backing store failed at the level of the operating system.
    BackendIo,
    /// A stored value is malformed.
    Corruption,
    /// The mapped region is full. A commit absorbs this by growing the map.
    CapacityExhausted,
    /// A value could not be encoded or decoded.
    Serialization,
    /// An argument is malformed, such as an attribute's string form.
    InvalidArgument,
    /// An invariant of the library was found broken.
    Internal,
}

} // verus!
