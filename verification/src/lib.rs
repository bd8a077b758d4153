//! Transactional persistence over a content-addressable store and an
//! entity-attribute-value index.
//!
//! A manager holds two primary stores: one maps addresses to content, the
//! other keeps an ordered set of records that relate one address to another
//! under a named attribute. The two share one region of limited size that
//! can be grown. A cursor puts a staging pair of its own, in a region of its
//! own, in front of the primary stores. What is written through a cursor is
//! staged, and no other cursor sees it; what is read through a cursor comes
//! from staging or, failing that, from the primary. A commit moves what is
//! staged into the primary, all of it or none, and grows a region that is
//! full rather than fail.
//!
//! The stores of this crate live in memory. What a backend on disk needs to
//! decide the same way is here too: the encoding of records, the evaluation
//! of queries, and what a commit does after each write.
//!
//! The modules, from the ground up:
//!
//! - `order`, `content`, `attribute`, `eavi`, `eavi_order`: byte strings in
//!   their order, addresses and content, attributes, and records with the
//!   order of records;
//! - `text`, `codec`: strings out of bytes, and records as bytes;
//! - `query`: what a query keeps of a list of records;
//! - `cas`, `eav`, `reporting`: the two kinds of store, and how much a store
//!   holds;
//! - `error`: the kinds of failure;
//! - `txn`: writers, cursors and managers in general;
//! - `cursor`: the cursor that stages, and its commit;
//! - `clock`, `ident`: indices that only grow, and identities;
//! - `example_attribute`, `example_entry`, `suite`: a small attribute type
//!   and a small kind of content, and a check of storage with them;
//! - `transport`: the events of a connection to a remote node;
//! - `laws`: what holds of all of it.

pub mod order;
pub mod error;
pub mod content;
pub mod attribute;
pub mod example_attribute;
pub mod clock;
pub mod eavi;
pub mod eavi_order;
pub mod ident;
pub mod cas;
pub mod text;
pub mod codec;
pub mod query;
pub mod eav;
pub mod reporting;
pub mod txn;
pub mod cursor;
pub mod example_entry;
pub mod laws;
pub mod suite;
pub mod transport;
