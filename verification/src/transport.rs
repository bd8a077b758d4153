//! What a pool of connections to remote nodes reports while it is polled.
//! Nothing in this crate sends or receives; the events are here for what
//! feeds the stores from a network.

use vstd::prelude::*;

verus! {

/// The name of a connection.
pub type TransportId = String;

/// What went wrong on a connection, in words.
#[derive(Debug, PartialEq, Clone)]
pub struct TransportError(pub String);

/// What can happen on a connection while it is polled.
#[derive(Debug, PartialEq, Clone)]
pub enum TransportEvent {
    /// The connection failed.
    TransportError(TransportId, TransportError),
    /// The connection was made.
    Connect(TransportId),
    /// A payload came in.
    Message(TransportId, Vec<u8>),
    /// The connection was closed.
    Close(TransportId),
}

} // verus!
