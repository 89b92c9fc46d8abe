//! Client updates to input relations.
//!
//! An update either names a record outright (`Insert`, `InsertOrUpdate`,
//! `DeleteValue`) or names a key of a keyed relation (`DeleteKey`).  Keyed
//! relations also support in-place modification of the record stored under a
//! key; that operation carries an opaque mutator and is exposed directly as
//! [`crate::driver::RunningProgram::modify_key`].

use vstd::prelude::*;
use crate::{RelId, Val};

verus! {

/// One update to an input relation.
#[derive(Clone, Copy, Debug, PartialEq, Eq, Structural)]
pub enum Update {
    /// Add a record; for a keyed relation the key half must be fresh.
    Insert { relid: RelId, v: Val },
    /// Add a record, replacing any record stored under the same key.
    InsertOrUpdate { relid: RelId, v: Val },
    /// Remove a record that is present.
    DeleteValue { relid: RelId, v: Val },
    /// Remove whatever record is stored under a key of a keyed relation.
    DeleteKey { relid: RelId, k: Val },
}

impl Update {
    /// The relation this update addresses.
    pub fn relid(&self) -> (r: RelId)
        ensures
            r == self.spec_relid(),
    {
        match self {
            Update::Insert { relid, .. } => *relid,
            Update::InsertOrUpdate { relid, .. } => *relid,
            Update::DeleteValue { relid, .. } => *relid,
            Update::DeleteKey { relid, .. } => *relid,
        }
    }

    /// The relation this update addresses, in specifications.
    pub open spec fn spec_relid(&self) -> RelId {
        match self {
            Update::Insert { relid, .. } => *relid,
            Update::InsertOrUpdate { relid, .. } => *relid,
            Update::DeleteValue { relid, .. } => *relid,
            Update::DeleteKey { relid, .. } => *relid,
        }
    }
}

} // verus!
