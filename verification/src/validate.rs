//! Structural validation of a program, before any dataflow is built.
//!
//! The dataflow compiler realizes each operator only under side conditions:
//! joins need a map arrangement and semijoins a set arrangement; an antijoin
//! needs a set arrangement built with the distinct flag, or its weight
//! arithmetic would be wrong on multisets; a rule rooted at an arrangement
//! needs a map arrangement, since joins and aggregations need values; the
//! differentiate operator needs the top-level clock and cannot stand in a
//! nested scope (a recursive component, or the scope a stream
//! transformation opens); a stream transformation must not stand where
//! stream transformations are already forbidden; stream joins look the
//! target arrangement up in the local scope, which inside a recursive
//! component holds only imported arrangements, so they are confined to the
//! top level; recursive components may not contain input relations; and a
//! delayed relation must delay a relation of the program by at least one
//! epoch.  This pass checks all of that at build time.

use vstd::prelude::*;
use crate::{ArrId, RelId, Response};
use crate::ast::{Arrangement, DelayedRelation, ProgNode, Program, RecursiveRelation, Relation,
    Rule, XFormArrangement, XFormCollection};

verus! {

/// The relation a program defines under an id: the first one in node order.
pub open spec fn find_rel_nodes(nodes: Seq<ProgNode>, relid: RelId) -> Option<Relation>
    decreases nodes.len(),
{
    if nodes.len() == 0 {
        None
    } else {
        match find_rel_node(nodes[0], relid) {
            Some(r) => Some(r),
            None => find_rel_nodes(nodes.drop_first(), relid),
        }
    }
}

/// The relation one node defines under an id.
pub open spec fn find_rel_node(n: ProgNode, relid: RelId) -> Option<Relation> {
    match n {
        ProgNode::Rel { rel } => if rel.id == relid {
            Some(rel)
        } else {
            None
        },
        ProgNode::Apply { .. } => None,
        ProgNode::Scc { rels } => find_rel_members(rels@, relid),
    }
}

/// The relation a recursive component defines under an id.
pub open spec fn find_rel_members(rels: Seq<RecursiveRelation>, relid: RelId) -> Option<Relation>
    decreases rels.len(),
{
    if rels.len() == 0 {
        None
    } else if rels[0].rel.id == relid {
        Some(rels[0].rel)
    } else {
        find_rel_members(rels.drop_first(), relid)
    }
}

/// Whether the program defines a relation under the id.
pub open spec fn prog_has_rel(p: Program, relid: RelId) -> bool {
    find_rel_nodes(p.nodes@, relid) is Some
}

/// The arrangement an arrangement id names, when the relation exists and the
/// index is within its arrangement list.
pub open spec fn arr_of(p: Program, arrid: ArrId) -> Option<Arrangement> {
    match find_rel_nodes(p.nodes@, arrid.0) {
        None => None,
        Some(rel) => if arrid.1 < rel.arrangements@.len() {
            Some(rel.arrangements@[arrid.1 as int])
        } else {
            None
        },
    }
}

/// Side conditions of a collection chain.  `streamful` permits the stream
/// transformation; `top` means the chain runs against the top-level clock,
/// which the differentiate operator and stream joins need.
pub open spec fn xc_valid(p: Program, x: XFormCollection, streamful: bool, top: bool) -> bool
    decreases x,
{
    match x {
        XFormCollection::Arrange { next } => xa_valid(p, *next, top),
        XFormCollection::Differentiate { next } => top && opt_xc_valid(p, *next, streamful, top),
        XFormCollection::MapElems { next } => opt_xc_valid(p, *next, streamful, top),
        XFormCollection::FlatMap { next } => opt_xc_valid(p, *next, streamful, top),
        XFormCollection::Filter { next } => opt_xc_valid(p, *next, streamful, top),
        XFormCollection::FilterMap { next } => opt_xc_valid(p, *next, streamful, top),
        XFormCollection::Inspect { next } => opt_xc_valid(p, *next, streamful, top),
        XFormCollection::StreamJoin { arrangement, next } => top && (match arr_of(p, arrangement) {
            Some(Arrangement::MapArr { .. }) => true,
            _ => false,
        }) && opt_xc_valid(p, *next, streamful, top),
        XFormCollection::StreamSemijoin { arrangement, next } => top && (match arr_of(
            p,
            arrangement,
        ) {
            Some(Arrangement::SetArr { .. }) => true,
            _ => false,
        }) && opt_xc_valid(p, *next, streamful, top),
        XFormCollection::StreamXForm { xform, next } => streamful && opt_xc_valid(
            p,
            *xform,
            false,
            false,
        ) && opt_xc_valid(p, *next, streamful, top),
    }
}

/// Side conditions of an optional continuation.
pub open spec fn opt_xc_valid(p: Program, x: Option<XFormCollection>, streamful: bool, top: bool) -> bool
    decreases x,
{
    match x {
        None => true,
        Some(n) => xc_valid(p, n, streamful, top),
    }
}

/// Side conditions of an arrangement-rooted chain.  Continuations of
/// arrangement operators never permit the stream transformation.
pub open spec fn xa_valid(p: Program, x: XFormArrangement, top: bool) -> bool
    decreases x,
{
    match x {
        XFormArrangement::FlatMap { next } => opt_xc_valid(p, *next, false, top),
        XFormArrangement::FilterMap { next } => opt_xc_valid(p, *next, false, top),
        XFormArrangement::Aggregate { next } => opt_xc_valid(p, *next, false, top),
        XFormArrangement::Join { arrangement, next } => (match arr_of(p, arrangement) {
            Some(Arrangement::MapArr { .. }) => true,
            _ => false,
        }) && opt_xc_valid(p, *next, false, top),
        XFormArrangement::Semijoin { arrangement, next } => (match arr_of(p, arrangement) {
            Some(Arrangement::SetArr { .. }) => true,
            _ => false,
        }) && opt_xc_valid(p, *next, false, top),
        XFormArrangement::Antijoin { arrangement, next } => (match arr_of(p, arrangement) {
            Some(Arrangement::SetArr { distinct }) => distinct,
            _ => false,
        }) && opt_xc_valid(p, *next, false, top),
        XFormArrangement::StreamJoin { rel, next } => top && prog_has_rel(p, rel) && opt_xc_valid(
            p,
            *next,
            false,
            top,
        ),
        XFormArrangement::StreamSemijoin { rel, next } => top && prog_has_rel(p, rel)
            && opt_xc_valid(p, *next, false, top),
    }
}

/// Side conditions of a rule.  `top` is false inside a recursive component,
/// whose chains run against the iteration clock.
pub open spec fn rule_valid(p: Program, r: Rule, top: bool) -> bool {
    match r {
        Rule::CollectionRule { rel, xform } => prog_has_rel(p, rel) && opt_xc_valid(
            p,
            xform,
            top,
            top,
        ),
        Rule::ArrangementRule { arr, xform } => (match arr_of(p, arr) {
            Some(Arrangement::MapArr { .. }) => true,
            _ => false,
        }) && xa_valid(p, xform, top),
    }
}

/// Side conditions of one relation's rules.
pub open spec fn rel_valid(p: Program, rel: Relation, top: bool) -> bool {
    forall|i: int| 0 <= i < rel.rules@.len() ==> rule_valid(p, #[trigger] rel.rules@[i], top)
}

/// Side conditions of one node.
pub open spec fn node_valid(p: Program, n: ProgNode) -> bool {
    match n {
        ProgNode::Rel { rel } => rel_valid(p, rel, true),
        ProgNode::Apply { .. } => true,
        ProgNode::Scc { rels } => forall|i: int|
            0 <= i < rels@.len() ==> !(#[trigger] rels@[i]).rel.input && rel_valid(
                p,
                rels@[i].rel,
                false,
            ),
    }
}

/// Side conditions of a delayed relation: a positive delay of a relation the
/// program defines.
pub open spec fn delayed_valid(p: Program, d: DelayedRelation) -> bool {
    d.delay > 0 && prog_has_rel(p, d.rel_id)
}

/// A program the dataflow compiler can realize.
pub open spec fn prog_valid(p: Program) -> bool {
    &&& forall|i: int| 0 <= i < p.nodes@.len() ==> node_valid(p, #[trigger] p.nodes@[i])
    &&& forall|i: int| 0 <= i < p.delayed_rels@.len() ==> delayed_valid(
        p,
        #[trigger] p.delayed_rels@[i],
    )
}

impl Program {
    /// Look a relation up by id, anywhere in the program: the first
    /// relation in node order, or `None` exactly when the program defines
    /// no relation under that id.
    pub fn get_relation(&self, relid: RelId) -> (r: Option<&Relation>)
        ensures
            match r {
                Some(rel) => find_rel_nodes(self.nodes@, relid) == Some(*rel),
                None => find_rel_nodes(self.nodes@, relid) is None,
            },
    {
        let n = self.nodes.len();
        let mut i: usize = 0;
        proof {
            assert(self.nodes@.skip(0) =~= self.nodes@);
        }
        while i < n
            invariant
                n == self.nodes@.len(),
                i <= n,
                find_rel_nodes(self.nodes@, relid) == find_rel_nodes(
                    self.nodes@.skip(i as int),
                    relid,
                ),
            decreases n - i,
        {
            proof {
                assert(self.nodes@.skip(i as int)[0] == self.nodes@[i as int]);
                assert(self.nodes@.skip(i as int).drop_first() =~= self.nodes@.skip(i as int + 1));
            }
            match &self.nodes[i] {
                ProgNode::Rel { rel } => {
                    if rel.id == relid {
                        return Some(rel);
                    }
                },
                ProgNode::Apply { .. } => {},
                ProgNode::Scc { rels } => {
                    match Self::lookup_rel_members(rels, relid) {
                        Some(rel) => {
                            return Some(rel);
                        },
                        None => {},
                    }
                },
            }
            i += 1;
        }
        None
    }

    /// Look the relation of an id up among recursive members.
    fn lookup_rel_members(rels: &Vec<RecursiveRelation>, relid: RelId) -> (r: Option<&Relation>)
        ensures
            match r {
                Some(rel) => find_rel_members(rels@, relid) == Some(*rel),
                None => find_rel_members(rels@, relid) is None,
            },
    {
        let n = rels.len();
        let mut i: usize = 0;
        proof {
            assert(rels@.skip(0) =~= rels@);
        }
        while i < n
            invariant
                n == rels@.len(),
                i <= n,
                find_rel_members(rels@, relid) == find_rel_members(rels@.skip(i as int), relid),
            decreases n - i,
        {
            proof {
                assert(rels@.skip(i as int)[0] == rels@[i as int]);
                assert(rels@.skip(i as int).drop_first() =~= rels@.skip(i as int + 1));
            }
            if rels[i].rel.id == relid {
                return Some(&rels[i].rel);
            }
            i += 1;
        }
        None
    }

    /// The arrangement an arrangement id names, if any.
    fn lookup_arrangement(&self, arrid: ArrId) -> (r: Option<Arrangement>)
        ensures
            r == arr_of(*self, arrid),
    {
        match self.get_relation(arrid.0) {
            None => None,
            Some(rel) => {
                if arrid.1 < rel.arrangements.len() {
                    Some(rel.arrangements[arrid.1])
                } else {
                    None
                }
            },
        }
    }

    /// Check a collection chain's side conditions.
    fn check_xc(&self, x: &XFormCollection, streamful: bool, top: bool) -> (r: Response<()>)
        ensures
            r is Ok <==> xc_valid(*self, *x, streamful, top),
        decreases *x,
    {
        match x {
            XFormCollection::Arrange { next } => self.check_xa(next, top),
            XFormCollection::Differentiate { next } => {
                if !top {
                    return Err("differentiate operator used in a nested scope".to_owned());
                }
                self.check_opt_xc(next, streamful, top)
            },
            XFormCollection::MapElems { next } => self.check_opt_xc(next, streamful, top),
            XFormCollection::FlatMap { next } => self.check_opt_xc(next, streamful, top),
            XFormCollection::Filter { next } => self.check_opt_xc(next, streamful, top),
            XFormCollection::FilterMap { next } => self.check_opt_xc(next, streamful, top),
            XFormCollection::Inspect { next } => self.check_opt_xc(next, streamful, top),
            XFormCollection::StreamJoin { arrangement, next } => {
                if !top {
                    return Err("stream join against a foreign arrangement".to_owned());
                }
                match self.lookup_arrangement(*arrangement) {
                    Some(Arrangement::MapArr { .. }) => self.check_opt_xc(next, streamful, top),
                    _ => Err("stream join: not a map arrangement".to_owned()),
                }
            },
            XFormCollection::StreamSemijoin { arrangement, next } => {
                if !top {
                    return Err("stream semijoin against a foreign arrangement".to_owned());
                }
                match self.lookup_arrangement(*arrangement) {
                    Some(Arrangement::SetArr { .. }) => self.check_opt_xc(next, streamful, top),
                    _ => Err("stream semijoin: not a set arrangement".to_owned()),
                }
            },
            XFormCollection::StreamXForm { xform, next } => {
                if !streamful {
                    return Err("stream transformation in a nested scope".to_owned());
                }
                match self.check_opt_xc(xform, false, false) {
                    Err(e) => Err(e),
                    Ok(()) => self.check_opt_xc(next, streamful, top),
                }
            },
        }
    }

    /// Check an optional continuation's side conditions.
    fn check_opt_xc(&self, x: &Option<XFormCollection>, streamful: bool, top: bool) -> (r:
        Response<()>)
        ensures
            r is Ok <==> opt_xc_valid(*self, *x, streamful, top),
        decreases *x,
    {
        match x {
            None => Ok(()),
            Some(n) => self.check_xc(n, streamful, top),
        }
    }

    /// Check an arrangement chain's side conditions.
    fn check_xa(&self, x: &XFormArrangement, top: bool) -> (r: Response<()>)
        ensures
            r is Ok <==> xa_valid(*self, *x, top),
        decreases *x,
    {
        match x {
            XFormArrangement::FlatMap { next } => self.check_opt_xc(next, false, top),
            XFormArrangement::FilterMap { next } => self.check_opt_xc(next, false, top),
            XFormArrangement::Aggregate { next } => self.check_opt_xc(next, false, top),
            XFormArrangement::Join { arrangement, next } => {
                match self.lookup_arrangement(*arrangement) {
                    Some(Arrangement::MapArr { .. }) => self.check_opt_xc(next, false, top),
                    _ => Err("join: not a map arrangement".to_owned()),
                }
            },
            XFormArrangement::Semijoin { arrangement, next } => {
                match self.lookup_arrangement(*arrangement) {
                    Some(Arrangement::SetArr { .. }) => self.check_opt_xc(next, false, top),
                    _ => Err("semijoin: not a set arrangement".to_owned()),
                }
            },
            XFormArrangement::Antijoin { arrangement, next } => {
                match self.lookup_arrangement(*arrangement) {
                    Some(Arrangement::SetArr { distinct }) => {
                        if distinct {
                            self.check_opt_xc(next, false, top)
                        } else {
                            Err("antijoin requires a distinct set arrangement".to_owned())
                        }
                    },
                    _ => Err("antijoin: not a set arrangement".to_owned()),
                }
            },
            XFormArrangement::StreamJoin { rel, next } => {
                if !top {
                    return Err("stream join against a foreign arrangement".to_owned());
                }
                match self.get_relation(*rel) {
                    Some(_) => self.check_opt_xc(next, false, top),
                    None => Err("stream join: unknown relation".to_owned()),
                }
            },
            XFormArrangement::StreamSemijoin { rel, next } => {
                if !top {
                    return Err("stream semijoin against a foreign arrangement".to_owned());
                }
                match self.get_relation(*rel) {
                    Some(_) => self.check_opt_xc(next, false, top),
                    None => Err("stream semijoin: unknown relation".to_owned()),
                }
            },
        }
    }

    /// Check one rule's side conditions.
    fn check_rule(&self, r: &Rule, top: bool) -> (res: Response<()>)
        ensures
            res is Ok <==> rule_valid(*self, *r, top),
    {
        match r {
            Rule::CollectionRule { rel, xform } => {
                match self.get_relation(*rel) {
                    None => Err("rule source: unknown relation".to_owned()),
                    Some(_) => self.check_opt_xc(xform, top, top),
                }
            },
            Rule::ArrangementRule { arr, xform } => {
                match self.lookup_arrangement(*arr) {
                    Some(Arrangement::MapArr { .. }) => self.check_xa(xform, top),
                    _ => Err("rule starts with a set arrangement".to_owned()),
                }
            },
        }
    }

    /// Check one relation's rules.
    fn check_rel(&self, rel: &Relation, top: bool) -> (res: Response<()>)
        ensures
            res is Ok <==> rel_valid(*self, *rel, top),
    {
        let n = rel.rules.len();
        let mut i: usize = 0;
        while i < n
            invariant
                n == rel.rules@.len(),
                i <= n,
                forall|j: int| 0 <= j < i ==> rule_valid(*self, #[trigger] rel.rules@[j], top),
            decreases n - i,
        {
            match self.check_rule(&rel.rules[i], top) {
                Err(e) => {
                    return Err(e);
                },
                Ok(()) => {},
            }
            i += 1;
        }
        Ok(())
    }

    /// Check every side condition the dataflow compiler relies on.  A
    /// program that passes builds without any of the construction failures:
    /// wrong arrangement flavors, antijoins against non-distinct
    /// arrangements, stream operators outside the top scope, input relations
    /// inside recursive components, or delayed relations without a base.
    pub fn validate(&self) -> (r: Response<()>)
        ensures
            r is Ok <==> prog_valid(*self),
    {
        let n = self.nodes.len();
        let mut i: usize = 0;
        while i < n
            invariant
                n == self.nodes@.len(),
                i <= n,
                forall|j: int| 0 <= j < i ==> node_valid(*self, #[trigger] self.nodes@[j]),
            decreases n - i,
        {
            match &self.nodes[i] {
                ProgNode::Rel { rel } => {
                    match self.check_rel(rel, true) {
                        Err(e) => {
                            return Err(e);
                        },
                        Ok(()) => {},
                    }
                },
                ProgNode::Apply { .. } => {},
                ProgNode::Scc { rels } => {
                    let m = rels.len();
                    let mut j: usize = 0;
                    while j < m
                        invariant
                            i < self.nodes@.len(),
                            self.nodes@[i as int] is Scc,
                            self.nodes@[i as int]->Scc_rels == *rels,
                            m == rels@.len(),
                            j <= m,
                            forall|q: int|
                                0 <= q < j ==> !(#[trigger] rels@[q]).rel.input && rel_valid(
                                    *self,
                                    rels@[q].rel,
                                    false,
                                ),
                        decreases m - j,
                    {
                        if rels[j].rel.input {
                            proof {
                                assert((rels@[j as int]).rel.input);
                                assert(!node_valid(*self, self.nodes@[i as int]));
                            }
                            return Err("input relation in a recursive component".to_owned());
                        }
                        match self.check_rel(&rels[j].rel, false) {
                            Err(e) => {
                                proof {
                                    assert(!rel_valid(*self, (rels@[j as int]).rel, false));
                                    assert(!node_valid(*self, self.nodes@[i as int]));
                                }
                                return Err(e);
                            },
                            Ok(()) => {},
                        }
                        j += 1;
                    }
                },
            }
            i += 1;
        }
        let dn = self.delayed_rels.len();
        let mut d: usize = 0;
        while d < dn
            invariant
                dn == self.delayed_rels@.len(),
                d <= dn,
                forall|j: int| 0 <= j < self.nodes@.len() ==> node_valid(
                    *self,
                    #[trigger] self.nodes@[j],
                ),
                forall|j: int| 0 <= j < d ==> delayed_valid(
                    *self,
                    #[trigger] self.delayed_rels@[j],
                ),
            decreases dn - d,
        {
            if self.delayed_rels[d].delay == 0 {
                return Err("delayed relation must delay by at least one epoch".to_owned());
            }
            match self.get_relation(self.delayed_rels[d].rel_id) {
                None => {
                    return Err("delayed relation: unknown base relation".to_owned());
                },
                Some(_) => {},
            }
            d += 1;
        }
        Ok(())
    }

    /// The ids of the program's input relations, which are always top-level
    /// nodes; fails exactly when a recursive component contains an input
    /// relation.
    pub fn input_relations(&self) -> (r: Response<Vec<RelId>>)
        ensures
            r matches Ok(ids) ==> ids@ == input_ids(self.nodes@),
            r is Ok <==> !scc_has_input(self.nodes@),
            r matches Err(e) ==> e@ == msg_scc_input(),
    {
        let mut ids: Vec<RelId> = Vec::new();
        let n = self.nodes.len();
        let mut i: usize = 0;
        proof {
            assert(input_ids(self.nodes@.take(0)) =~= Seq::<RelId>::empty());
        }
        while i < n
            invariant
                n == self.nodes@.len(),
                i <= n,
                ids@ == input_ids(self.nodes@.take(i as int)),
                forall|p: int| 0 <= p < i ==> !node_has_input_member(#[trigger] self.nodes@[p]),
            decreases n - i,
        {
            proof {
                assert(self.nodes@.take(i as int + 1).drop_last() =~= self.nodes@.take(i as int));
                assert(self.nodes@.take(i as int + 1).last() == self.nodes@[i as int]);
            }
            match &self.nodes[i] {
                ProgNode::Rel { rel } => {
                    if rel.input {
                        ids.push(rel.id);
                    }
                },
                ProgNode::Apply { .. } => {},
                ProgNode::Scc { rels } => {
                    let m = rels.len();
                    let mut j: usize = 0;
                    while j < m
                        invariant
                            i < self.nodes@.len(),
                            self.nodes@[i as int] is Scc,
                            self.nodes@[i as int]->Scc_rels == *rels,
                            m == rels@.len(),
                            j <= m,
                            forall|q: int| 0 <= q < j ==> !(#[trigger] rels@[q]).rel.input,
                        decreases m - j,
                    {
                        if rels[j].rel.input {
                            proof {
                                assert((rels@[j as int]).rel.input);
                                assert(node_has_input_member(self.nodes@[i as int]));
                            }
                            return Err("input relation in a recursive component".to_owned());
                        }
                        j += 1;
                    }
                },
            }
            i += 1;
        }
        proof {
            assert(self.nodes@.take(n as int) =~= self.nodes@);
            if scc_has_input(self.nodes@) {
                let p = choose|p: int|
                    0 <= p < self.nodes@.len() && node_has_input_member(
                        #[trigger] self.nodes@[p],
                    );
            }
        }
        Ok(ids)
    }
}

/// Diagnostic for an input relation inside a recursive component.
pub open spec fn msg_scc_input() -> Seq<char> {
    "input relation in a recursive component"@
}

/// Whether a node is a recursive component with an input relation in it.
pub open spec fn node_has_input_member(n: ProgNode) -> bool {
    match n {
        ProgNode::Scc { rels } => exists|i: int|
            0 <= i < rels@.len() && (#[trigger] rels@[i]).rel.input,
        _ => false,
    }
}

/// Whether any recursive component of a node list contains an input
/// relation.
pub open spec fn scc_has_input(nodes: Seq<ProgNode>) -> bool {
    exists|i: int| 0 <= i < nodes.len() && node_has_input_member(#[trigger] nodes[i])
}

/// A recursive component with an input relation makes the program invalid.
pub proof fn lemma_scc_input_invalid(p: Program)
    requires
        scc_has_input(p.nodes@),
    ensures
        !prog_valid(p),
{
    let i = choose|i: int|
        0 <= i < p.nodes@.len() && node_has_input_member(#[trigger] p.nodes@[i]);
    let rels = p.nodes@[i]->Scc_rels;
    let j = choose|j: int| 0 <= j < rels@.len() && (#[trigger] rels@[j]).rel.input;
    assert(!node_valid(p, p.nodes@[i]));
}

/// The input relation ids of a node list, in order.
pub open spec fn input_ids(nodes: Seq<ProgNode>) -> Seq<RelId>
    decreases nodes.len(),
{
    if nodes.len() == 0 {
        Seq::empty()
    } else {
        input_ids(nodes.drop_last()) + (match nodes.last() {
            ProgNode::Rel { rel } => if rel.input {
                seq![rel.id]
            } else {
                Seq::empty()
            },
            _ => Seq::empty(),
        })
    }
}

} // verus!
