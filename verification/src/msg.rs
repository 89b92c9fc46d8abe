//! Messages exchanged with the worker pool.
//!
//! The driver owns one command channel per worker and one reply channel per
//! worker.  Workers are collaborators reachable only by message: they apply
//! update batches into the running dataflow, acknowledge flushes, and answer
//! arrangement queries.

use vstd::prelude::*;
use crate::{ArrId, TS, Val};
use crate::update::Update;

verus! {

/// A command sent to a worker thread.
#[derive(Debug)]
pub enum Msg {
    /// Apply a batch of updates at the given timestamp.
    Update { updates: Vec<Update>, timestamp: TS },
    /// Propagate all pending changes and advance to the given timestamp,
    /// then acknowledge with [`Reply::FlushAck`].
    Flush { advance_to: TS },
    /// Report the values of an arrangement: all of them, or those stored
    /// under one key.  A worker that does not know the arrangement answers
    /// `QueryRes(None)`.
    Query(ArrId, Option<Val>),
    /// Stop the worker.
    Stop,
}

/// A reply from a worker thread.
#[derive(Debug)]
pub enum Reply {
    /// A flush has fully propagated through this worker.
    FlushAck,
    /// This worker's part of a query answer, or `None` when the arrangement
    /// id is unknown to it.
    QueryRes(Option<Vec<Val>>),
}

} // verus!
