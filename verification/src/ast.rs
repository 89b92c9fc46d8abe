//! Description of a Datalog program.
//!
//! A program is an ordered list of nodes: individual relations, applications
//! of opaque dataflow transformers, and strongly connected components of
//! mutually recursive relations.  Rules are chains of dataflow operators
//! rooted at a source collection or arrangement.  The operator functions
//! themselves (maps, filters, join value constructors, and so on) are opaque
//! user code owned by the embedder; the description here captures the
//! operator structure and every relation and arrangement a chain consults,
//! which is what dependency analysis and structural validation read.

use vstd::prelude::*;
use crate::{ArrId, RelId, TS, Val};
use crate::weight::Weight;

verus! {

/// Invoked by the workers when a record is added to or removed from a
/// relation's output.  Implementations are supplied by the embedder; they
/// must be thread-safe and must not call back into the engine, since the
/// dataflow invokes them outside the transactional boundary.
pub trait RelationCallback: Send + Sync {
    /// A record of `relid` changed by `w` occurrences.
    fn relation_changed(&self, relid: RelId, v: &Val, w: Weight);
}

/// Caching mode for input relations.
///
/// `Stream` keeps no elements; `CacheSet` caches the relation as a set
/// (keyed when the relation has a key); `CacheMultiset` caches it as a
/// generalized multiset with signed counts.
#[derive(Clone, Copy, Debug, PartialEq, Eq, Structural)]
pub enum CachingMode {
    Stream,
    CacheSet,
    CacheMultiset,
}

/// Describes an arrangement of a relation.
#[derive(Clone, Copy, Debug, PartialEq, Eq, Structural)]
pub enum Arrangement {
    /// Arrange into (key, value) pairs; may be queried from the client when
    /// flagged queryable.
    MapArr { queryable: bool },
    /// Arrange into a set of values; `distinct` applies a distinct operator
    /// before arranging, which an antijoin against this arrangement
    /// requires.
    SetArr { distinct: bool },
}

impl Arrangement {
    /// Whether the client may query this arrangement.
    pub fn queryable(&self) -> (r: bool)
        ensures
            r == self.spec_queryable(),
    {
        match self {
            Arrangement::MapArr { queryable } => *queryable,
            Arrangement::SetArr { .. } => false,
        }
    }

    /// Whether the client may query this arrangement, in specifications.
    pub open spec fn spec_queryable(&self) -> bool {
        match self {
            Arrangement::MapArr { queryable } => *queryable,
            Arrangement::SetArr { .. } => false,
        }
    }
}

/// A transformation chain rooted at an arrangement.
pub enum XFormArrangement {
    /// Flat-map the arranged values into a collection.
    FlatMap { next: Box<Option<XFormCollection>> },
    /// Filter and map the arranged values into a collection.
    FilterMap { next: Box<Option<XFormCollection>> },
    /// Group by key and aggregate each group to at most one value.
    Aggregate { next: Box<Option<XFormCollection>> },
    /// Join against a map arrangement.
    Join { arrangement: ArrId, next: Box<Option<XFormCollection>> },
    /// Semijoin against a set arrangement.
    Semijoin { arrangement: ArrId, next: Box<Option<XFormCollection>> },
    /// Keep the values whose keys do not occur in a set arrangement; the
    /// target arrangement must be distinct.
    Antijoin { arrangement: ArrId, next: Box<Option<XFormCollection>> },
    /// Join the arrangement against the stream of changes of a relation,
    /// without arranging that relation.
    StreamJoin { rel: RelId, next: Box<Option<XFormCollection>> },
    /// Semijoin the arrangement against the stream of changes of a relation.
    StreamSemijoin { rel: RelId, next: Box<Option<XFormCollection>> },
}

/// A transformation chain over a flat collection.
pub enum XFormCollection {
    /// Arrange the collection by key and continue with an arrangement chain.
    Arrange { next: Box<XFormArrangement> },
    /// Subtract the previous epoch's value of the collection from its
    /// current value; only available at the top level of the dataflow.
    Differentiate { next: Box<Option<XFormCollection>> },
    /// Transform every element.
    MapElems { next: Box<Option<XFormCollection>> },
    /// Expand every element into zero or more elements.
    FlatMap { next: Box<Option<XFormCollection>> },
    /// Keep the elements accepted by a predicate.
    Filter { next: Box<Option<XFormCollection>> },
    /// Filter and transform in one pass.
    FilterMap { next: Box<Option<XFormCollection>> },
    /// Observe every change without altering it.
    Inspect { next: Box<Option<XFormCollection>> },
    /// Join the collection against a map arrangement without arranging the
    /// collection.
    StreamJoin { arrangement: ArrId, next: Box<Option<XFormCollection>> },
    /// Semijoin the collection against a set arrangement without arranging
    /// the collection.
    StreamSemijoin { arrangement: ArrId, next: Box<Option<XFormCollection>> },
    /// Apply `xform` to the per-epoch changes of the collection inside a
    /// nested scope, discarding intermediate arrangements; only available at
    /// the top level of the dataflow.
    StreamXForm { xform: Box<Option<XFormCollection>>, next: Box<Option<XFormCollection>> },
}

/// The body of a rule: a source and a chain of transformations.
pub enum Rule {
    /// Start from a relation's collection.
    CollectionRule { rel: RelId, xform: Option<XFormCollection> },
    /// Start from an arrangement, which must be a map arrangement.
    ArrangementRule { arr: ArrId, xform: XFormArrangement },
}

/// A Datalog relation: its identity, role, caching, rules and arrangements.
pub struct Relation {
    /// Relation name; does not have to be unique.
    pub name: String,
    /// Input relations are populated by the client; they have no rules.
    pub input: bool,
    /// Apply a distinct operator after concatenating the relation's rules.
    pub distinct: bool,
    /// Caching mode, meaningful for input relations only.
    pub caching_mode: CachingMode,
    /// A keyed relation stores each record under the record's key half,
    /// which must be unique.  Meaningful together with `CacheSet`.
    pub keyed: bool,
    /// Unique relation id.
    pub id: RelId,
    /// Rules that define the relation's content; empty for input relations.
    pub rules: Vec<Rule>,
    /// Arrangements of this relation; the position in this list together
    /// with the relation id forms the arrangement id.
    pub arrangements: Vec<Arrangement>,
}

impl Relation {
    /// The relation's name.
    pub fn name(&self) -> (r: &str)
        ensures
            r@ == self.name@,
    {
        self.name.as_str()
    }
}

/// A relation computed in a nested scope as a fixed point.  The `distinct`
/// flag forces convergence by applying a distinct operator before closing
/// the loop.
pub struct RecursiveRelation {
    pub rel: Relation,
    pub distinct: bool,
}

/// One node of a program.
pub enum ProgNode {
    /// An individual, non-recursive relation.
    Rel { rel: Relation },
    /// An opaque dataflow fragment supplied by the embedder, identified by
    /// name; it may only extend the top-level collection map.
    Apply { transformer: String },
    /// A strongly connected component of mutually recursive relations.
    Scc { rels: Vec<RecursiveRelation> },
}

/// The contents of a base relation as of `delay` epochs ago; `delay` must be
/// positive.
pub struct DelayedRelation {
    /// Unique id of the delayed relation, in the same space as relation ids.
    pub id: RelId,
    /// The base relation this delays.
    pub rel_id: RelId,
    /// The number of epochs to delay by.
    pub delay: TS,
}

/// A Datalog program: nodes in dependency order, delayed relations, and
/// initial contents of input relations.
pub struct Program {
    /// Nodes, ordered so that rules only consult relations of earlier nodes
    /// or of the same component.
    pub nodes: Vec<ProgNode>,
    /// Delayed relations used by the program.
    pub delayed_rels: Vec<DelayedRelation>,
    /// Initial records, applied when the program starts.
    pub init_data: Vec<(RelId, Val)>,
}

/// A dependency of a rule: a relation consulted by name, or an arrangement
/// probed by a join.
#[derive(Clone, Copy, Debug, Hash)]
pub enum Dep {
    Rel(RelId),
    Arr(ArrId),
}

impl PartialEq for Dep {
    fn eq(&self, other: &Dep) -> (r: bool)
        ensures
            r <==> *self == *other,
    {
        match (self, other) {
            (Dep::Rel(a), Dep::Rel(b)) => a == b,
            (Dep::Arr((ra, ia)), Dep::Arr((rb, ib))) => ra == rb && ia == ib,
            _ => false,
        }
    }
}

impl vstd::std_specs::cmp::PartialEqSpecImpl for Dep {
    open spec fn obeys_eq_spec() -> bool {
        true
    }

    open spec fn eq_spec(&self, other: &Dep) -> bool {
        *self == *other
    }
}

impl Eq for Dep {

}

impl Dep {
    /// The relation the dependency ultimately points at.
    pub fn relid(&self) -> (r: RelId)
        ensures
            r == self.spec_relid(),
    {
        match self {
            Dep::Rel(relid) => *relid,
            Dep::Arr((relid, _)) => *relid,
        }
    }

    /// The relation the dependency ultimately points at, in specifications.
    pub open spec fn spec_relid(&self) -> RelId {
        match self {
            Dep::Rel(relid) => *relid,
            Dep::Arr((relid, _)) => *relid,
        }
    }
}

} // verus!
