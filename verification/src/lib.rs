//! Runtime core of a differential Datalog engine.
//!
//! The crate has three layers:
//!
//! * a description of a Datalog program — relations, rules built from a fixed
//!   algebra of dataflow operators, recursive components and arrangements —
//!   together with its dependency analysis and structural validation;
//! * per-relation runtime state (element sets and delta sets) with the
//!   transactional update semantics of set, multiset, stream and keyed
//!   relations;
//! * a single-writer transaction driver that validates client updates,
//!   dispatches batches to a pool of worker threads over channels, and
//!   implements the commit / rollback / query protocols.
//!
//! The workers themselves run the compiled dataflow and are collaborators
//! reachable only by message; they are outside this crate.

use vstd::prelude::*;

pub mod ast;
pub mod chan;
pub mod delta;
pub mod deps;
pub mod driver;
pub mod instance;
pub mod kv;
pub mod laws;
pub mod model;
pub mod msg;
pub mod update;
pub mod validate;
pub mod weight;

verus! {

/// Unique identifier of a relation.
pub type RelId = usize;

/// Unique identifier of an index.
pub type IdxId = usize;

/// Identifier of an arranged relation: the relation id plus the index of the
/// arrangement within that relation.
pub type ArrId = (RelId, usize);

/// Logical timestamp: an epoch counter advanced on each commit.
pub type TS = u64;

/// A record stored in a relation.
///
/// The engine treats records as opaque values with equality and a designated
/// key: a record is modelled as a 64-bit word whose upper half is the key
/// used by keyed relations.
pub type Val = u64;

/// Result type returned by this crate: errors are diagnostic strings.
pub type Response<X> = Result<X, String>;

/// The key of a record, as used by keyed (indexed) relations.
pub open spec fn spec_key_of(v: Val) -> Val {
    v >> 32
}

/// Extract the key half of a record.
pub fn key_of(v: Val) -> (k: Val)
    ensures
        k == spec_key_of(v),
{
    v >> 32
}

} // verus!
