//! Dependency analysis of rules and programs.
//!
//! Each operator chain reports the set of dependencies it induces: `Rel(id)`
//! for collections consulted by name and `Arr(id)` for arrangements probed
//! by joins.  A rule's dependencies add its own source; a component's
//! dependencies are the union over its rules, minus the relations of the
//! component itself.  The dataflow compiler uses these sets to decide which
//! collections and arrangements must be in scope when a node is built.

use vstd::prelude::*;
use crate::{ArrId, RelId};
use crate::ast::{Dep, ProgNode, Program, RecursiveRelation, Relation, Rule, XFormArrangement,
    XFormCollection};

verus! {

/// Dependencies of an arrangement-rooted chain.
pub open spec fn xa_deps(x: XFormArrangement) -> Set<Dep>
    decreases x,
{
    match x {
        XFormArrangement::FlatMap { next } => opt_xc_deps(*next),
        XFormArrangement::FilterMap { next } => opt_xc_deps(*next),
        XFormArrangement::Aggregate { next } => opt_xc_deps(*next),
        XFormArrangement::Join { arrangement, next } => opt_xc_deps(*next).insert(
            Dep::Arr(arrangement),
        ),
        XFormArrangement::Semijoin { arrangement, next } => opt_xc_deps(*next).insert(
            Dep::Arr(arrangement),
        ),
        XFormArrangement::Antijoin { arrangement, next } => opt_xc_deps(*next).insert(
            Dep::Arr(arrangement),
        ),
        XFormArrangement::StreamJoin { rel, next } => opt_xc_deps(*next).insert(Dep::Rel(rel)),
        XFormArrangement::StreamSemijoin { rel, next } => opt_xc_deps(*next).insert(
            Dep::Rel(rel),
        ),
    }
}

/// Dependencies of a collection chain.
pub open spec fn xc_deps(x: XFormCollection) -> Set<Dep>
    decreases x,
{
    match x {
        XFormCollection::Arrange { next } => xa_deps(*next),
        XFormCollection::Differentiate { next } => opt_xc_deps(*next),
        XFormCollection::MapElems { next } => opt_xc_deps(*next),
        XFormCollection::FlatMap { next } => opt_xc_deps(*next),
        XFormCollection::Filter { next } => opt_xc_deps(*next),
        XFormCollection::FilterMap { next } => opt_xc_deps(*next),
        XFormCollection::Inspect { next } => opt_xc_deps(*next),
        XFormCollection::StreamJoin { arrangement, next } => opt_xc_deps(*next).insert(
            Dep::Arr(arrangement),
        ),
        XFormCollection::StreamSemijoin { arrangement, next } => opt_xc_deps(*next).insert(
            Dep::Arr(arrangement),
        ),
        XFormCollection::StreamXForm { xform, next } => opt_xc_deps(*xform).union(
            opt_xc_deps(*next),
        ),
    }
}

/// Dependencies of an optional continuation.
pub open spec fn opt_xc_deps(x: Option<XFormCollection>) -> Set<Dep>
    decreases x,
{
    match x {
        None => Set::empty(),
        Some(n) => xc_deps(n),
    }
}

/// Dependencies of a rule: its chain's dependencies plus its own source.
pub open spec fn rule_deps(r: Rule) -> Set<Dep> {
    match r {
        Rule::CollectionRule { rel, xform } => opt_xc_deps(xform).insert(Dep::Rel(rel)),
        Rule::ArrangementRule { arr, xform } => xa_deps(xform).insert(Dep::Arr(arr)),
    }
}

/// Add a dependency unless it is already present.
fn push_dep(deps: &mut Vec<Dep>, d: Dep) -> (r: ())
    ensures
        final(deps)@.to_set() == old(deps)@.to_set().insert(d),
        final(deps)@.no_duplicates() == old(deps)@.no_duplicates(),
{
    let n = deps.len();
    let mut i: usize = 0;
    while i < n
        invariant
            n == deps@.len(),
            i <= n,
            forall|j: int| 0 <= j < i ==> #[trigger] deps@[j] != d,
        decreases n - i,
    {
        if deps[i] == d {
            proof {
                assert(deps@.to_set().contains(d));
                assert(deps@.to_set().insert(d) =~= deps@.to_set());
            }
            return ;
        }
        i += 1;
    }
    let ghost pre = deps@;
    deps.push(d);
    proof {
        assert(deps@.drop_last() =~= pre);
        assert forall|w: Dep| deps@.to_set().contains(w) implies pre.to_set().insert(d).contains(
            w,
        ) by {
            let p = choose|p: int| 0 <= p < deps@.len() && deps@[p] == w;
            if p < pre.len() {
                assert(pre[p] == w);
            }
        }
        assert forall|w: Dep| pre.to_set().insert(d).contains(w) implies deps@.to_set().contains(
            w,
        ) by {
            if w == d {
                assert(deps@[deps@.len() - 1] == w);
            } else {
                let p = choose|p: int| 0 <= p < pre.len() && pre[p] == w;
                assert(deps@[p] == w);
            }
        }
        assert(deps@.to_set() =~= pre.to_set().insert(d));
        if pre.no_duplicates() {
            assert forall|p: int, q: int|
                0 <= p < q < deps@.len() implies #[trigger] deps@[p] != #[trigger] deps@[q] by {
                if q == deps@.len() - 1 {
                    assert(pre[p] != d);
                } else {
                    assert(pre[p] != pre[q]);
                }
            }
        } else {
            let (p, q) = choose|p: int, q: int|
                0 <= p < q < pre.len() && #[trigger] pre[p] == #[trigger] pre[q];
            assert(deps@[p] == deps@[q]);
            assert(!deps@.no_duplicates());
        }
    }
}

/// Merge one dependency list into another.
fn merge_deps(deps: &mut Vec<Dep>, other: &Vec<Dep>)
    requires
        old(deps)@.no_duplicates(),
    ensures
        final(deps)@.to_set() == old(deps)@.to_set().union(other@.to_set()),
        final(deps)@.no_duplicates(),
{
    let n = other.len();
    let mut i: usize = 0;
    proof {
        assert(deps@.to_set() =~= deps@.to_set().union(other@.take(0).to_set()));
    }
    while i < n
        invariant
            deps@.no_duplicates(),
            n == other@.len(),
            i <= n,
            deps@.to_set() == old(deps)@.to_set().union(other@.take(i as int).to_set()),
        decreases n - i,
    {
        let d = other[i];
        push_dep(deps, d);
        proof {
            assert(other@.take(i as int + 1) =~= other@.take(i as int).push(d));
            crate::deps::lemma_dep_to_set_push(other@.take(i as int), d);
            assert(deps@.to_set() =~= old(deps)@.to_set().union(
                other@.take(i as int + 1).to_set(),
            ));
        }
        i += 1;
    }
    proof {
        assert(other@.take(n as int) =~= other@);
    }
}

/// Appending one dependency extends the dependency set by it.
proof fn lemma_dep_to_set_push(s: Seq<Dep>, d: Dep)
    ensures
        s.push(d).to_set() == s.to_set().insert(d),
{
    let sn = s.push(d);
    assert forall|w: Dep| sn.to_set().contains(w) implies s.to_set().insert(d).contains(w) by {
        let p = choose|p: int| 0 <= p < sn.len() && sn[p] == w;
        if p < s.len() {
            assert(s[p] == w);
        }
    }
    assert forall|w: Dep| s.to_set().insert(d).contains(w) implies sn.to_set().contains(w) by {
        if w == d {
            assert(sn[sn.len() - 1] == w);
        } else {
            let p = choose|p: int| 0 <= p < s.len() && s[p] == w;
            assert(sn[p] == w);
        }
    }
    assert(sn.to_set() =~= s.to_set().insert(d));
}

impl XFormArrangement {
    /// The dependencies this chain induces, without duplicates.
    pub fn dependencies(&self) -> (r: Vec<Dep>)
        ensures
            r@.to_set() == xa_deps(*self),
            r@.no_duplicates(),
        decreases *self,
    {
        match self {
            XFormArrangement::FlatMap { next } => Self::opt_dependencies(next),
            XFormArrangement::FilterMap { next } => Self::opt_dependencies(next),
            XFormArrangement::Aggregate { next } => Self::opt_dependencies(next),
            XFormArrangement::Join { arrangement, next } => {
                let mut deps = Self::opt_dependencies(next);
                push_dep(&mut deps, Dep::Arr(*arrangement));
                deps
            },
            XFormArrangement::Semijoin { arrangement, next } => {
                let mut deps = Self::opt_dependencies(next);
                push_dep(&mut deps, Dep::Arr(*arrangement));
                deps
            },
            XFormArrangement::Antijoin { arrangement, next } => {
                let mut deps = Self::opt_dependencies(next);
                push_dep(&mut deps, Dep::Arr(*arrangement));
                deps
            },
            XFormArrangement::StreamJoin { rel, next } => {
                let mut deps = Self::opt_dependencies(next);
                push_dep(&mut deps, Dep::Rel(*rel));
                deps
            },
            XFormArrangement::StreamSemijoin { rel, next } => {
                let mut deps = Self::opt_dependencies(next);
                push_dep(&mut deps, Dep::Rel(*rel));
                deps
            },
        }
    }

    /// Dependencies of an optional continuation.
    fn opt_dependencies(next: &Option<XFormCollection>) -> (r: Vec<Dep>)
        ensures
            r@.to_set() == opt_xc_deps(*next),
            r@.no_duplicates(),
        decreases *next,
    {
        match next {
            None => Vec::new(),
            Some(n) => n.dependencies(),
        }
    }
}

impl XFormCollection {
    /// The dependencies this chain induces, without duplicates.
    pub fn dependencies(&self) -> (r: Vec<Dep>)
        ensures
            r@.to_set() == xc_deps(*self),
            r@.no_duplicates(),
        decreases *self,
    {
        match self {
            XFormCollection::Arrange { next } => next.dependencies(),
            XFormCollection::Differentiate { next } => XFormArrangement::opt_dependencies(next),
            XFormCollection::MapElems { next } => XFormArrangement::opt_dependencies(next),
            XFormCollection::FlatMap { next } => XFormArrangement::opt_dependencies(next),
            XFormCollection::Filter { next } => XFormArrangement::opt_dependencies(next),
            XFormCollection::FilterMap { next } => XFormArrangement::opt_dependencies(next),
            XFormCollection::Inspect { next } => XFormArrangement::opt_dependencies(next),
            XFormCollection::StreamJoin { arrangement, next } => {
                let mut deps = XFormArrangement::opt_dependencies(next);
                push_dep(&mut deps, Dep::Arr(*arrangement));
                deps
            },
            XFormCollection::StreamSemijoin { arrangement, next } => {
                let mut deps = XFormArrangement::opt_dependencies(next);
                push_dep(&mut deps, Dep::Arr(*arrangement));
                deps
            },
            XFormCollection::StreamXForm { xform, next } => {
                let mut deps = XFormArrangement::opt_dependencies(xform);
                let deps2 = XFormArrangement::opt_dependencies(next);
                merge_deps(&mut deps, &deps2);
                deps
            },
        }
    }
}

impl Rule {
    /// The dependencies of this rule, without duplicates: its chain's
    /// dependencies plus the rule's own source.
    pub fn dependencies(&self) -> (r: Vec<Dep>)
        ensures
            r@.to_set() == rule_deps(*self),
            r@.no_duplicates(),
    {
        match self {
            Rule::CollectionRule { rel, xform } => {
                let mut deps = XFormArrangement::opt_dependencies(xform);
                push_dep(&mut deps, Dep::Rel(*rel));
                deps
            },
            Rule::ArrangementRule { arr, xform } => {
                let mut deps = xform.dependencies();
                push_dep(&mut deps, Dep::Arr(*arr));
                deps
            },
        }
    }

    /// Whether this rule probes the given arrangement.
    pub fn uses_arrangement(&self, arrid: ArrId) -> (r: bool)
        ensures
            r <==> rule_deps(*self).contains(Dep::Arr(arrid)),
    {
        let deps = self.dependencies();
        let n = deps.len();
        let mut i: usize = 0;
        while i < n
            invariant
                n == deps@.len(),
                deps@.to_set() == rule_deps(*self),
                i <= n,
                forall|j: int| 0 <= j < i ==> #[trigger] deps@[j] != Dep::Arr(arrid),
            decreases n - i,
        {
            if deps[i] == Dep::Arr(arrid) {
                proof {
                    assert(deps@.to_set().contains(Dep::Arr(arrid)));
                }
                return true;
            }
            i += 1;
        }
        proof {
            if deps@.to_set().contains(Dep::Arr(arrid)) {
                let p = choose|p: int| 0 <= p < deps@.len() && deps@[p] == Dep::Arr(arrid);
            }
        }
        false
    }
}

/// Whether any rule of a relation probes the given arrangement.
pub open spec fn spec_rel_uses_arrangement(r: Relation, arrid: ArrId) -> bool {
    exists|i: int| 0 <= i < r.rules@.len() && #[trigger] rule_deps(r.rules@[i]).contains(
        Dep::Arr(arrid),
    )
}

/// Whether a node's relations probe the given arrangement.
pub open spec fn spec_node_uses_arrangement(n: ProgNode, arrid: ArrId) -> bool {
    match n {
        ProgNode::Rel { rel } => spec_rel_uses_arrangement(rel, arrid),
        ProgNode::Apply { .. } => false,
        ProgNode::Scc { rels } => exists|i: int|
            0 <= i < rels@.len() && spec_rel_uses_arrangement(
                (#[trigger] rels@[i]).rel,
                arrid,
            ),
    }
}

impl Relation {
    /// Whether any rule of this relation probes the given arrangement.
    pub fn uses_arrangement(&self, arrid: ArrId) -> (r: bool)
        ensures
            r <==> spec_rel_uses_arrangement(*self, arrid),
    {
        let n = self.rules.len();
        let mut i: usize = 0;
        while i < n
            invariant
                n == self.rules@.len(),
                i <= n,
                forall|j: int| 0 <= j < i ==> !rule_deps(#[trigger] self.rules@[j]).contains(
                    Dep::Arr(arrid),
                ),
            decreases n - i,
        {
            if self.rules[i].uses_arrangement(arrid) {
                return true;
            }
            i += 1;
        }
        false
    }
}

impl ProgNode {
    /// Whether this node's relations probe the given arrangement.
    pub fn uses_arrangement(&self, arrid: ArrId) -> (r: bool)
        ensures
            r <==> spec_node_uses_arrangement(*self, arrid),
    {
        match self {
            ProgNode::Rel { rel } => rel.uses_arrangement(arrid),
            ProgNode::Apply { .. } => false,
            ProgNode::Scc { rels } => Self::scc_uses_arrangement(rels, arrid),
        }
    }

    /// Whether any member of a recursive component probes the arrangement.
    fn scc_uses_arrangement(rels: &Vec<RecursiveRelation>, arrid: ArrId) -> (r: bool)
        ensures
            r <==> exists|i: int|
                0 <= i < rels@.len() && spec_rel_uses_arrangement(
                    (#[trigger] rels@[i]).rel,
                    arrid,
                ),
    {
        let n = rels.len();
        let mut i: usize = 0;
        while i < n
            invariant
                n == rels@.len(),
                i <= n,
                forall|j: int| 0 <= j < i ==> !spec_rel_uses_arrangement(
                    (#[trigger] rels@[j]).rel,
                    arrid,
                ),
            decreases n - i,
        {
            if rels[i].rel.uses_arrangement(arrid) {
                proof {
                    assert(spec_rel_uses_arrangement((rels@[i as int]).rel, arrid));
                }
                return true;
            }
            i += 1;
        }
        false
    }
}

impl Program {
    /// Indices of the nodes whose rules probe the given arrangement; the
    /// dataflow compiler exports an arrangement's trace out of its defining
    /// scope exactly when such a node exists beyond it.
    pub fn arrangement_used_by_nodes(&self, arrid: ArrId) -> (r: Vec<usize>)
        ensures
            forall|j: int|
                0 <= j < r@.len() ==> (#[trigger] r@[j]) < self.nodes@.len()
                    && spec_node_uses_arrangement(self.nodes@[r@[j] as int], arrid),
            forall|i: int|
                0 <= i < self.nodes@.len() && spec_node_uses_arrangement(
                    #[trigger] self.nodes@[i],
                    arrid,
                ) ==> r@.contains(i as usize),
    {
        let mut r: Vec<usize> = Vec::new();
        let n = self.nodes.len();
        let mut i: usize = 0;
        while i < n
            invariant
                n == self.nodes@.len(),
                i <= n,
                forall|j: int|
                    0 <= j < r@.len() ==> (#[trigger] r@[j]) < i
                        && spec_node_uses_arrangement(self.nodes@[r@[j] as int], arrid),
                forall|p: int|
                    0 <= p < i && spec_node_uses_arrangement(#[trigger] self.nodes@[p], arrid)
                        ==> r@.contains(p as usize),
            decreases n - i,
        {
            let ghost r_pre = r@;
            if self.nodes[i].uses_arrangement(arrid) {
                r.push(i);
            }
            proof {
                assert forall|p: int|
                    0 <= p < i + 1 && spec_node_uses_arrangement(
                        #[trigger] self.nodes@[p],
                        arrid,
                    ) implies r@.contains(p as usize) by {
                    if p < i {
                        let q = choose|q: int| 0 <= q < r_pre.len() && r_pre[q] == p as usize;
                        assert(r@[q] == p as usize);
                    } else {
                        assert(r@[r@.len() - 1] == p as usize);
                    }
                }
            }
            i += 1;
        }
        r
    }

    /// The dependencies a set of mutually recursive relations needs from
    /// outside itself: the union over all their rules, with the relations of
    /// the set removed.
    pub fn dependencies(rels: &Vec<RecursiveRelation>) -> (r: Vec<Dep>)
        ensures
            r@.no_duplicates(),
            forall|d: Dep|
                r@.to_set().contains(d) <==> scc_rules_deps(rels@).contains(d) && !scc_defines(
                    rels@,
                    d.spec_relid(),
                ),
    {
        let mut all: Vec<Dep> = Vec::new();
        let n = rels.len();
        let mut i: usize = 0;
        proof {
            assert(scc_rules_deps(rels@.take(0)) =~= Set::<Dep>::empty());
        }
        while i < n
            invariant
                n == rels@.len(),
                i <= n,
                all@.no_duplicates(),
                all@.to_set() == scc_rules_deps(rels@.take(i as int)),
            decreases n - i,
        {
            let m = rels[i].rel.rules.len();
            let mut j: usize = 0;
            proof {
                assert(rel_rules_deps(rels@[i as int].rel, 0) =~= Set::<Dep>::empty());
            }
            while j < m
                invariant
                    i < rels@.len(),
                    m == rels@[i as int].rel.rules@.len(),
                    j <= m,
                    all@.no_duplicates(),
                    all@.to_set() == scc_rules_deps(rels@.take(i as int)).union(
                        rel_rules_deps(rels@[i as int].rel, j as int),
                    ),
                decreases m - j,
            {
                let ds = self_rule_deps(&rels[i].rel.rules[j]);
                merge_deps(&mut all, &ds);
                proof {
                    assert(all@.to_set() =~= scc_rules_deps(rels@.take(i as int)).union(
                        rel_rules_deps(rels@[i as int].rel, j as int + 1),
                    ));
                }
                j += 1;
            }
            proof {
                assert(rels@.take(i as int + 1).drop_last() =~= rels@.take(i as int));
                assert(rels@.take(i as int + 1).last() == rels@[i as int]);
                assert(rel_rules_deps(rels@[i as int].rel, m as int) =~= rel_rules_deps(
                    rels@[i as int].rel,
                    rels@[i as int].rel.rules@.len() as int,
                ));
                assert(all@.to_set() =~= scc_rules_deps(rels@.take(i as int + 1)));
            }
            i += 1;
        }
        proof {
            assert(rels@.take(n as int) =~= rels@);
        }
        let mut r: Vec<Dep> = Vec::new();
        let an = all.len();
        let mut p: usize = 0;
        while p < an
            invariant
                an == all@.len(),
                p <= an,
                all@.no_duplicates(),
                all@.to_set() == scc_rules_deps(rels@),
                r@.no_duplicates(),
                forall|d: Dep|
                    r@.to_set().contains(d) <==> all@.take(p as int).to_set().contains(d)
                        && !scc_defines(rels@, d.spec_relid()),
            decreases an - p,
        {
            let d = all[p];
            let ghost r_pre = r@;
            if !Self::scc_has_relid(rels, d.relid()) {
                push_dep(&mut r, d);
            }
            proof {
                assert(all@.take(p as int + 1) =~= all@.take(p as int).push(d));
                lemma_dep_to_set_push(all@.take(p as int), d);
                assert forall|e: Dep|
                    r@.to_set().contains(e) <==> (all@.take(p as int + 1).to_set().contains(e)
                        && !scc_defines(rels@, e.spec_relid())) by {}
            }
            p += 1;
        }
        proof {
            assert(all@.take(an as int) =~= all@);
        }
        r
    }

    /// Whether one of the relations has the given id.
    fn scc_has_relid(rels: &Vec<RecursiveRelation>, relid: RelId) -> (r: bool)
        ensures
            r <==> scc_defines(rels@, relid),
    {
        let n = rels.len();
        let mut i: usize = 0;
        while i < n
            invariant
                n == rels@.len(),
                i <= n,
                forall|j: int| 0 <= j < i ==> (#[trigger] rels@[j]).rel.id != relid,
            decreases n - i,
        {
            if rels[i].rel.id == relid {
                return true;
            }
            i += 1;
        }
        false
    }
}

/// Dependencies of the first `j` rules of a relation.
pub open spec fn rel_rules_deps(rel: Relation, j: int) -> Set<Dep>
    decreases j,
{
    if j <= 0 {
        Set::empty()
    } else {
        rel_rules_deps(rel, j - 1).union(rule_deps(rel.rules@[j - 1]))
    }
}

/// Dependencies over all rules of a set of recursive relations.
pub open spec fn scc_rules_deps(rels: Seq<RecursiveRelation>) -> Set<Dep>
    decreases rels.len(),
{
    if rels.len() == 0 {
        Set::empty()
    } else {
        scc_rules_deps(rels.drop_last()).union(
            rel_rules_deps(rels.last().rel, rels.last().rel.rules@.len() as int),
        )
    }
}

/// Whether a set of recursive relations defines the given relation id.
pub open spec fn scc_defines(rels: Seq<RecursiveRelation>, relid: RelId) -> bool {
    exists|i: int| 0 <= i < rels.len() && (#[trigger] rels[i]).rel.id == relid
}

/// The dependencies of one rule, as a vector.
fn self_rule_deps(r: &Rule) -> (deps: Vec<Dep>)
    ensures
        deps@.to_set() == rule_deps(*r),
        deps@.no_duplicates(),
{
    r.dependencies()
}

} // verus!
