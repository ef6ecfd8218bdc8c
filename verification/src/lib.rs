//! Schema-driven reconstruction of hierarchical entity values from a
//! normalized relational store, together with the schema model it walks,
//! generic single/paginated resolvers over the entity table, and a typed
//! publish/subscribe broker for live entity updates.

use vstd::prelude::*;

pub mod broker;
pub mod engine;
pub mod entity;
pub mod naming;
pub mod resolver;
pub mod schema;
pub mod store;
pub mod types;

verus! {

/// Failure taxonomy: connection acquisition, storage-side query failure,
/// a row shape that does not match the declared schema, or an invalid
/// client-supplied argument.
#[derive(Clone, Copy, Debug, PartialEq, Eq, Structural)]
pub enum Error {
    Connection,
    Query,
    DataIntegrity,
    Argument,
}

} // verus!
