//! The transaction driver: the single-writer client interface of a running
//! program.
//!
//! The driver owns the per-relation runtime state and the channels to the
//! worker pool.  It validates client updates against each relation's
//! semantics, forwards the surviving updates to the workers in round-robin
//! chunks, and implements the commit, rollback, clear, query and stop
//! protocols.  Everything the driver decides is verified; what a worker
//! answers is environment and is handled for every possible reply.

use vstd::prelude::*;
use core::sync::atomic::AtomicBool;
use crate::{RelId, Response, TS, Val};
use crate::ast::{CachingMode, ProgNode, Program};
use crate::chan::{recv_reply, send_msg, store_flag};
use crate::delta::dcount;
use crate::instance::RelationInstance;
use crate::model::{RelState, rel_inv, step, step_req};
use crate::msg::{Msg, Reply};
use crate::update::Update;

verus! {

pub open spec fn msg_txn_in_progress() -> Seq<char> {
    "transaction already in progress"@
}

pub open spec fn msg_no_txn_commit() -> Seq<char> {
    "transaction_commit: no transaction in progress"@
}

pub open spec fn msg_no_txn_rollback() -> Seq<char> {
    "transaction_rollback: no transaction in progress"@
}

pub open spec fn msg_no_txn_apply() -> Seq<char> {
    "apply_updates: no transaction in progress"@
}

pub open spec fn msg_no_txn_clear() -> Seq<char> {
    "clear_relation: no transaction in progress"@
}

pub open spec fn msg_unknown_relation() -> Seq<char> {
    "apply_update: unknown input relation"@
}

pub open spec fn msg_clear_unknown_relation() -> Seq<char> {
    "clear_relation: unknown input relation"@
}

pub open spec fn msg_send_failed() -> Seq<char> {
    "failed to communicate with worker thread"@
}

pub open spec fn msg_recv_ack_failed() -> Seq<char> {
    "failed to receive flush ack message from worker"@
}

pub open spec fn msg_unexpected_ack_reply() -> Seq<char> {
    "received unexpected reply to flush request from worker"@
}

pub open spec fn msg_recv_query_failed() -> Seq<char> {
    "query_arrangement: failed to receive reply from worker"@
}

pub open spec fn msg_unexpected_query_reply() -> Seq<char> {
    "query_arrangement: unexpected reply from worker"@
}

pub open spec fn msg_unknown_index() -> Seq<char> {
    "query_arrangement: unknown index"@
}

/// The relation-state map denoted by an association list of instances.
pub open spec fn rels_map(s: Seq<(RelId, RelationInstance)>) -> Map<RelId, RelState>
    decreases s.len(),
{
    if s.len() == 0 {
        Map::empty()
    } else {
        rels_map(s.drop_last()).insert(s.last().0, s.last().1@)
    }
}

/// Distinct relation ids, every instance invariant.
pub open spec fn rels_wf(s: Seq<(RelId, RelationInstance)>) -> bool {
    &&& forall|p: int, q: int|
        0 <= p < q < s.len() ==> (#[trigger] s[p]).0 != (#[trigger] s[q]).0
    &&& forall|i: int| 0 <= i < s.len() ==> (#[trigger] s[i]).1.inv()
}

/// Every key of `rels_map(s)` comes from an entry of `s`, and conversely.
pub proof fn lemma_rels_map_dom(s: Seq<(RelId, RelationInstance)>)
    ensures
        forall|k: RelId|
            rels_map(s).contains_key(k) <==> exists|i: int|
                0 <= i < s.len() && (#[trigger] s[i]).0 == k,
    decreases s.len(),
{
    if s.len() > 0 {
        let sd = s.drop_last();
        lemma_rels_map_dom(sd);
        assert(rels_map(s) == rels_map(sd).insert(s.last().0, s.last().1@));
        assert forall|k: RelId| rels_map(s).contains_key(k) implies exists|i: int|
            0 <= i < s.len() && (#[trigger] s[i]).0 == k by {
            if k == s.last().0 {
                assert((s[s.len() - 1]).0 == k);
            } else {
                assert(rels_map(sd).contains_key(k));
                let i = choose|i: int| 0 <= i < sd.len() && (#[trigger] sd[i]).0 == k;
                assert(sd[i] == s[i]);
                assert((s[i]).0 == k);
            }
        }
        assert forall|k: RelId| (exists|i: int| 0 <= i < s.len() && (#[trigger] s[i]).0 == k)
            implies rels_map(s).contains_key(k) by {
            let i = choose|i: int| 0 <= i < s.len() && (#[trigger] s[i]).0 == k;
            if i < s.len() - 1 {
                assert((sd[i]).0 == k);
                assert(rels_map(sd).contains_key(k));
            }
        }
    }
}

/// With distinct ids, each entry of `s` is reflected exactly in the map.
pub proof fn lemma_rels_map_index(s: Seq<(RelId, RelationInstance)>, i: int)
    requires
        forall|p: int, q: int|
            0 <= p < q < s.len() ==> (#[trigger] s[p]).0 != (#[trigger] s[q]).0,
        0 <= i < s.len(),
    ensures
        rels_map(s).contains_key(s[i].0),
        rels_map(s)[s[i].0] == s[i].1@,
    decreases s.len(),
{
    lemma_rels_map_dom(s);
    if i == s.len() - 1 {
    } else {
        lemma_rels_map_index(s.drop_last(), i);
        assert(s.drop_last()[i] == s[i]);
        assert(s[i].0 != s.last().0);
    }
}

/// Replacing the instance of one entry updates exactly that relation.
pub proof fn lemma_rels_map_update(s: Seq<(RelId, RelationInstance)>, i: int, e: (
    RelId,
    RelationInstance,
))
    requires
        forall|p: int, q: int|
            0 <= p < q < s.len() ==> (#[trigger] s[p]).0 != (#[trigger] s[q]).0,
        0 <= i < s.len(),
        e.0 == s[i].0,
    ensures
        rels_map(s.update(i, e)) == rels_map(s).insert(e.0, e.1@),
        forall|p: int, q: int|
            0 <= p < q < s.update(i, e).len() ==> (#[trigger] s.update(i, e)[p]).0 != (
            #[trigger] s.update(i, e)[q]).0,
    decreases s.len(),
{
    let sn = s.update(i, e);
    if i == s.len() - 1 {
        assert(sn.drop_last() =~= s.drop_last());
        assert(rels_map(sn) == rels_map(s.drop_last()).insert(e.0, e.1@));
        assert(rels_map(s).insert(e.0, e.1@) =~= rels_map(s.drop_last()).insert(e.0, e.1@));
    } else {
        lemma_rels_map_update(s.drop_last(), i, e);
        assert(sn.drop_last() =~= s.drop_last().update(i, e));
        assert(sn.last() == s.last());
        assert(rels_map(sn) == rels_map(s.drop_last().update(i, e)).insert(
            s.last().0,
            s.last().1@,
        ));
        assert(e.0 != s.last().0);
        assert(rels_map(s.drop_last()).insert(e.0, e.1@).insert(s.last().0, s.last().1@)
            =~= rels_map(s.drop_last()).insert(s.last().0, s.last().1@).insert(e.0, e.1@));
    }
}

/// The meaning of a batch of updates: apply them in order until one is
/// rejected.  Returns the resulting relation states (those of the accepted
/// prefix when one is rejected), the updates forwarded to the dataflow (only
/// meaningful when all are accepted: a rejected batch forwards nothing), and
/// the rejection, if any.
pub open spec fn batch_apply(m: Map<RelId, RelState>, upds: Seq<Update>) -> (
    Map<RelId, RelState>,
    Seq<Update>,
    Option<Seq<char>>,
)
    decreases upds.len(),
{
    if upds.len() == 0 {
        (m, Seq::empty(), None)
    } else {
        let u = upds[0];
        let relid = u.spec_relid();
        if !m.contains_key(relid) {
            (m, Seq::empty(), Some(msg_unknown_relation()))
        } else {
            let out = step(m[relid], u);
            if out.err is Some {
                (m, Seq::empty(), out.err)
            } else {
                let rest = batch_apply(m.insert(relid, out.state), upds.drop_first());
                (rest.0, out.emit + rest.1, rest.2)
            }
        }
    }
}

/// Extending an error-free batch by one update folds that update onto the
/// batch's final state.
pub proof fn lemma_batch_apply_push(m: Map<RelId, RelState>, s: Seq<Update>, u: Update)
    requires
        batch_apply(m, s).2 is None,
    ensures
        ({
            let (m1, e1, _) = batch_apply(m, s);
            let relid = u.spec_relid();
            batch_apply(m, s.push(u)) == (if !m1.contains_key(relid) {
                (m1, e1, Some(msg_unknown_relation()))
            } else {
                let out = step(m1[relid], u);
                if out.err is Some {
                    (m1, e1, out.err)
                } else {
                    (m1.insert(relid, out.state), e1 + out.emit, None::<Seq<char>>)
                }
            })
        }),
    decreases s.len(),
{
    let (m1, e1, _) = batch_apply(m, s);
    let relid = u.spec_relid();
    if s.len() == 0 {
        assert(s.push(u) =~= seq![u]);
        assert(s.push(u)[0] == u);
        assert(s.push(u).drop_first() =~= Seq::<Update>::empty());
        assert(e1 =~= Seq::<Update>::empty());
        if m1.contains_key(relid) {
            let out = step(m1[relid], u);
            if out.err is None {
                assert(batch_apply(m.insert(relid, out.state), Seq::<Update>::empty()) == (
                    m.insert(relid, out.state),
                    Seq::<Update>::empty(),
                    None::<Seq<char>>,
                ));
                assert(e1 + out.emit =~= out.emit + Seq::<Update>::empty());
            }
        }
    } else {
        let u0 = s[0];
        let relid0 = u0.spec_relid();
        assert(s.push(u)[0] == u0);
        assert(s.push(u).len() == s.len() + 1);
        assert(s.push(u).drop_first() =~= s.drop_first().push(u));
        assert(m.contains_key(relid0));
        let out0 = step(m[relid0], u0);
        assert(out0.err is None);
        lemma_batch_apply_push(m.insert(relid0, out0.state), s.drop_first(), u);
        let rest = batch_apply(m.insert(relid0, out0.state), s.drop_first());
        let rest_push = batch_apply(m.insert(relid0, out0.state), s.drop_first().push(u));
        assert(batch_apply(m, s.push(u)) == (
            rest_push.0,
            out0.emit + rest_push.1,
            rest_push.2,
        ));
        assert(m1 == rest.0);
        assert(e1 == out0.emit + rest.1);
        if !m1.contains_key(relid) {
            assert(rest_push == (rest.0, rest.1, Some(msg_unknown_relation())));
            assert(out0.emit + rest.1 == e1);
        } else {
            let out = step(m1[relid], u);
            if out.err is Some {
                assert(rest_push == (rest.0, rest.1, out.err));
            } else {
                assert(rest_push == (
                    rest.0.insert(relid, out.state),
                    rest.1 + out.emit,
                    None::<Seq<char>>,
                ));
                assert(out0.emit + (rest.1 + out.emit) =~= (out0.emit + rest.1) + out.emit);
            }
        }
    }
}

/// Room for the counter changes of a batch (a machine limit; only stream and
/// multiset relations can accumulate unbounded counts).
pub open spec fn batch_req(m: Map<RelId, RelState>, upds: Seq<Update>) -> bool
    decreases upds.len(),
{
    upds.len() == 0 || {
        let u = upds[0];
        let relid = u.spec_relid();
        if !m.contains_key(relid) {
            true
        } else {
            step_req(m[relid], u) && {
                let out = step(m[relid], u);
                if out.err is Some {
                    true
                } else {
                    batch_req(m.insert(relid, out.state), upds.drop_first())
                }
            }
        }
    }
}

/// A one-update batch needs room exactly for that update.
pub proof fn lemma_batch_req_singleton(m: Map<RelId, RelState>, u: Update)
    requires
        m.contains_key(u.spec_relid()) ==> step_req(m[u.spec_relid()], u),
    ensures
        batch_req(m, seq![u]),
{
    let ups = seq![u];
    assert(ups[0] == u);
    assert(ups.drop_first() =~= Seq::<Update>::empty());
    if m.contains_key(u.spec_relid()) {
        let out = step(m[u.spec_relid()], u);
        assert(batch_req(m.insert(u.spec_relid(), out.state), ups.drop_first()));
    }
}

/// Every state of a relation-state map satisfies the conservation invariant.
pub open spec fn all_inv(m: Map<RelId, RelState>) -> bool {
    forall|relid: RelId| m.contains_key(relid) ==> rel_inv(#[trigger] m[relid])
}

/// Every delta side of a relation-state map is empty, as between
/// transactions.
pub open spec fn all_deltas_empty(m: Map<RelId, RelState>) -> bool {
    forall|relid: RelId|
        m.contains_key(relid) ==> crate::model::delta_of(#[trigger] m[relid]) == Map::<
            Val,
            i64,
        >::empty()
}

/// All relation states after a commit: deltas cleared, the current element
/// sides becoming the committed baselines.
pub open spec fn map_commit(m: Map<RelId, RelState>) -> Map<RelId, RelState> {
    Map::new(|k: RelId| m.contains_key(k), |k: RelId| crate::model::commit_of(m[k]))
}

/// All relation states after a rollback: every element side restored to its
/// committed baseline, every delta empty.
pub open spec fn map_committed(m: Map<RelId, RelState>) -> Map<RelId, RelState> {
    Map::new(|k: RelId| m.contains_key(k), |k: RelId| crate::model::committed_of(m[k]))
}

/// Appending one record extends the record set by it.
proof fn lemma_to_set_push(s: Seq<Val>, v: Val)
    ensures
        s.push(v).to_set() == s.to_set().insert(v),
{
    let sn = s.push(v);
    assert forall|w: Val| sn.to_set().contains(w) implies s.to_set().insert(v).contains(w) by {
        let p = choose|p: int| 0 <= p < sn.len() && sn[p] == w;
        if p < s.len() {
            assert(s[p] == w);
        }
    }
    assert forall|w: Val| s.to_set().insert(v).contains(w) implies sn.to_set().contains(w) by {
        if w == v {
            assert(sn[sn.len() - 1] == w);
        } else {
            let p = choose|p: int| 0 <= p < s.len() && s[p] == w;
            assert(sn[p] == w);
        }
    }
    assert(sn.to_set() =~= s.to_set().insert(v));
}

/// The updates of a dispatch plan, in plan order.
pub open spec fn concat_chunks(plan: Seq<(usize, Vec<Update>)>) -> Seq<Update>
    decreases plan.len(),
{
    if plan.len() == 0 {
        Seq::empty()
    } else {
        concat_chunks(plan.drop_last()) + plan.last().1@
    }
}

/// Appending a chunk appends its updates.
proof fn lemma_concat_chunks_push(plan: Seq<(usize, Vec<Update>)>, c: (usize, Vec<Update>))
    ensures
        concat_chunks(plan.push(c)) == concat_chunks(plan) + c.1@,
{
    assert(plan.push(c).drop_last() =~= plan);
}

/// A strictly increasing sequence of records: sorted, without duplicates.
pub open spec fn sorted_unique(s: Seq<Val>) -> bool {
    forall|i: int, j: int| 0 <= i < j < s.len() ==> #[trigger] s[i] < #[trigger] s[j]
}

/// The empty runtime state of one input relation, per its caching mode.
pub open spec fn init_state(rel: crate::ast::Relation) -> RelState {
    match rel.caching_mode {
        CachingMode::Stream => RelState::Stream { delta: Map::empty() },
        CachingMode::CacheMultiset => RelState::Mset {
            elems: Map::empty(),
            delta: Map::empty(),
            committed: Map::empty(),
        },
        CachingMode::CacheSet => if rel.keyed {
            RelState::Indexed { elems: Map::empty(), delta: Map::empty(), committed: Map::empty() }
        } else {
            RelState::Flat { elems: Set::empty(), delta: Map::empty(), committed: Set::empty() }
        },
    }
}

/// The runtime states a program starts with: one empty store per top-level
/// input relation.
pub open spec fn init_rels(nodes: Seq<ProgNode>) -> Map<RelId, RelState>
    decreases nodes.len(),
{
    if nodes.len() == 0 {
        Map::empty()
    } else {
        let m = init_rels(nodes.drop_last());
        match nodes.last() {
            ProgNode::Rel { rel } => if rel.input {
                m.insert(rel.id, init_state(rel))
            } else {
                m
            },
            _ => m,
        }
    }
}

/// Two top-level input relations under the same id.
pub open spec fn dup_input_ids(nodes: Seq<ProgNode>) -> bool {
    exists|i: int, j: int|
        0 <= i < j < nodes.len() && (#[trigger] nodes[i]) is Rel && nodes[i]->Rel_rel.input && (
        #[trigger] nodes[j]) is Rel && nodes[j]->Rel_rel.input && nodes[i]->Rel_rel.id
            == nodes[j]->Rel_rel.id
}

/// Every top-level input relation's id is a key of the initial states.
pub proof fn lemma_init_rels_dom(nodes: Seq<ProgNode>)
    ensures
        forall|p: int|
            0 <= p < nodes.len() && (#[trigger] nodes[p]) is Rel && nodes[p]->Rel_rel.input
                ==> init_rels(nodes).contains_key(nodes[p]->Rel_rel.id),
    decreases nodes.len(),
{
    if nodes.len() > 0 {
        lemma_init_rels_dom(nodes.drop_last());
        assert forall|p: int|
            0 <= p < nodes.len() && (#[trigger] nodes[p]) is Rel && nodes[p]->Rel_rel.input
                implies init_rels(nodes).contains_key(nodes[p]->Rel_rel.id) by {
            if p < nodes.len() - 1 {
                assert(nodes.drop_last()[p] == nodes[p]);
            }
        }
    }
}

/// Every key of the initial states is the id of some top-level input
/// relation.
pub proof fn lemma_init_rels_dom_sub(nodes: Seq<ProgNode>)
    ensures
        forall|k: RelId|
            #[trigger] init_rels(nodes).contains_key(k) ==> exists|p: int|
                0 <= p < nodes.len() && (#[trigger] nodes[p]) is Rel && nodes[p]->Rel_rel.input
                    && nodes[p]->Rel_rel.id == k,
    decreases nodes.len(),
{
    if nodes.len() > 0 {
        lemma_init_rels_dom_sub(nodes.drop_last());
        assert forall|k: RelId| #[trigger] init_rels(nodes).contains_key(k) implies exists|p: int|
            0 <= p < nodes.len() && (#[trigger] nodes[p]) is Rel && nodes[p]->Rel_rel.input
                && nodes[p]->Rel_rel.id == k by {
            let last = nodes.last();
            if last is Rel && last->Rel_rel.input && last->Rel_rel.id == k {
                assert(nodes[nodes.len() - 1] is Rel);
            } else {
                assert(init_rels(nodes.drop_last()).contains_key(k));
                let p = choose|p: int|
                    0 <= p < nodes.drop_last().len() && (#[trigger] nodes.drop_last()[p]) is Rel
                        && nodes.drop_last()[p]->Rel_rel.input
                        && nodes.drop_last()[p]->Rel_rel.id == k;
                assert(nodes[p] == nodes.drop_last()[p]);
            }
        }
    }
}

/// Interface to a running Datalog computation.
///
/// At most one transaction is open at any time; updates are validated
/// against the per-relation stores, and only updates that actually change a
/// relation are forwarded to the worker pool.  Commits advance the logical
/// clock and wait for every worker to acknowledge the flush.
pub struct RunningProgram {
    /// Command channel to each worker.
    senders: Vec<crossbeam_channel::Sender<Msg>>,
    /// Reply channel from each worker.
    reply_recv: Vec<crossbeam_channel::Receiver<Reply>>,
    /// Runtime state of each input relation, keyed by relation id.
    relations: Vec<(RelId, RelationInstance)>,
    transaction_in_progress: bool,
    need_to_flush: bool,
    timestamp: TS,
    /// The epoch of the last commit: the transactional clock clients
    /// observe.  Rollback never changes it.
    committed_timestamp: TS,
    /// Forward scheduling events to the profiling thread.
    profile_cpu: Option<triomphe::Arc<AtomicBool>>,
    /// Forward dataflow events to the profiling thread.
    profile_timely: Option<triomphe::Arc<AtomicBool>>,
    /// Forward relation-change events to the profiling thread.
    profile_change: Option<triomphe::Arc<AtomicBool>>,
    /// The worker the next dispatched chunk goes to.
    worker_round_robin: usize,
    stopped: bool,
}

impl RunningProgram {
    /// The abstract state of every input relation.
    pub closed spec fn rel_states(&self) -> Map<RelId, RelState> {
        rels_map(self.relations@)
    }

    /// Whether a transaction is open.
    pub closed spec fn in_txn(&self) -> bool {
        self.transaction_in_progress
    }

    /// Whether updates were dispatched that the workers have not yet been
    /// asked to flush.
    pub closed spec fn flush_pending(&self) -> bool {
        self.need_to_flush
    }

    /// The logical clock, advanced on each flush.
    pub closed spec fn spec_timestamp(&self) -> TS {
        self.timestamp
    }

    /// The epoch of the last commit.
    pub closed spec fn spec_committed_timestamp(&self) -> TS {
        self.committed_timestamp
    }

    /// Number of workers.
    pub closed spec fn num_workers(&self) -> nat {
        self.senders@.len()
    }

    /// Whether the program was stopped.
    pub closed spec fn spec_stopped(&self) -> bool {
        self.stopped
    }

    /// Internal consistency: one reply channel per worker, at least one
    /// worker, distinct relation ids, every relation invariant, empty deltas
    /// between transactions.
    pub closed spec fn inv(&self) -> bool {
        &&& self.senders@.len() >= 1
        &&& self.reply_recv@.len() == self.senders@.len()
        &&& self.worker_round_robin < self.senders@.len()
        &&& self.committed_timestamp <= self.timestamp
        &&& rels_wf(self.relations@)
        &&& (!self.transaction_in_progress ==> !self.need_to_flush)
        &&& (!self.transaction_in_progress ==> all_deltas_empty(self.rel_states()))
    }

    /// The conservation invariant holds of every relation state.
    pub proof fn lemma_inv_states(&self)
        requires
            self.inv(),
        ensures
            all_inv(self.rel_states()),
    {
        lemma_rels_map_dom(self.relations@);
        assert forall|relid: RelId| self.rel_states().contains_key(relid) implies rel_inv(
            #[trigger] self.rel_states()[relid]) by {
            let i = choose|i: int|
                0 <= i < self.relations@.len() && (#[trigger] self.relations@[i]).0 == relid;
            lemma_rels_map_index(self.relations@, i);
        }
    }

    /// Position of a relation in the store.
    fn find_rel(&self, relid: RelId) -> (r: Option<usize>)
        requires
            rels_wf(self.relations@),
        ensures
            match r {
                Some(i) => i < self.relations@.len() && self.relations@[i as int].0 == relid
                    && self.rel_states().contains_key(relid) && self.relations@[i as int].1@
                    == self.rel_states()[relid],
                None => !self.rel_states().contains_key(relid),
            },
    {
        let n = self.relations.len();
        let mut i: usize = 0;
        while i < n
            invariant
                rels_wf(self.relations@),
                n == self.relations@.len(),
                i <= n,
                forall|j: int| 0 <= j < i ==> (#[trigger] self.relations@[j]).0 != relid,
            decreases n - i,
        {
            if self.relations[i].0 == relid {
                proof {
                    lemma_rels_map_index(self.relations@, i as int);
                }
                return Some(i);
            }
            i += 1;
        }
        proof {
            lemma_rels_map_dom(self.relations@);
        }
        None
    }

    /// Copy one chunk of the filtered updates.
    fn make_chunk(filtered: &Vec<Update>, start: usize, end: usize) -> (chunk: Vec<Update>)
        requires
            start <= end <= filtered@.len(),
        ensures
            chunk@ == filtered@.subrange(start as int, end as int),
    {
        let mut chunk: Vec<Update> = Vec::new();
        let mut i = start;
        while i < end
            invariant
                start <= i <= end <= filtered@.len(),
                chunk@ == filtered@.subrange(start as int, i as int),
            decreases end - i,
        {
            chunk.push(filtered[i]);
            proof {
                assert(chunk@ =~= filtered@.subrange(start as int, i as int + 1));
            }
            i += 1;
        }
        chunk
    }

    /// Build the dispatch plan: the batch cut into chunks of the given size
    /// (the last chunk may be shorter), assigned to the workers in
    /// round-robin order starting at the cursor.
    fn plan_chunks(filtered: &Vec<Update>, chunk_size: usize, cursor: usize, nworkers: usize) -> (plan: Vec<(usize, Vec<Update>)>)
        requires
            chunk_size >= 1,
            nworkers >= 1,
            cursor < nworkers,
        ensures
            concat_chunks(plan@) == filtered@,
            forall|i: int|
                0 <= i < plan@.len() ==> (#[trigger] plan@[i]).0 == (cursor + i) % (
                nworkers as int) && plan@[i].0 < nworkers,
            forall|i: int|
                0 <= i < plan@.len() - 1 ==> (#[trigger] plan@[i]).1@.len() == chunk_size,
            forall|i: int|
                0 <= i < plan@.len() ==> 1 <= (#[trigger] plan@[i]).1@.len() <= chunk_size,
            plan@.len() == 0 <==> filtered@.len() == 0,
    {
        broadcast use vstd::arithmetic::div_mod::lemma_add_mod_noop;

        let total = filtered.len();
        let mut plan: Vec<(usize, Vec<Update>)> = Vec::new();
        let mut start: usize = 0;
        let mut worker: usize = cursor;
        proof {
            assert(concat_chunks(plan@) =~= filtered@.take(0));
            vstd::arithmetic::div_mod::lemma_small_mod(cursor as nat, nworkers as nat);
        }
        while start < total
            invariant
                chunk_size >= 1,
                nworkers >= 1,
                worker < nworkers,
                total == filtered@.len(),
                start <= total,
                concat_chunks(plan@) == filtered@.take(start as int),
                worker == (cursor + plan@.len()) % (nworkers as int),
                forall|i: int|
                    0 <= i < plan@.len() ==> (#[trigger] plan@[i]).0 == (cursor + i) % (
                    nworkers as int) && plan@[i].0 < nworkers,
                forall|i: int|
                    0 <= i < plan@.len() - 1 ==> (#[trigger] plan@[i]).1@.len() == chunk_size,
                forall|i: int|
                    0 <= i < plan@.len() ==> 1 <= (#[trigger] plan@[i]).1@.len() <= chunk_size,
                start == 0 <==> plan@.len() == 0,
                plan@.len() > 0 ==> (start < total ==> (plan@[plan@.len() - 1]).1@.len()
                    == chunk_size),
            decreases total - start,
        {
            let end = if total - start > chunk_size {
                start + chunk_size
            } else {
                total
            };
            let chunk = Self::make_chunk(filtered, start, end);
            let ghost plan_pre = plan@;
            plan.push((worker, chunk));
            proof {
                assert(plan@.drop_last() =~= plan_pre);
                lemma_concat_chunks_push(plan_pre, plan@.last());
                assert(filtered@.take(start as int) + filtered@.subrange(
                    start as int,
                    end as int,
                ) =~= filtered@.take(end as int));
                let a = cursor + plan_pre.len();
                let n = nworkers as int;
                assert(((a % n) + 1) % n == (a + 1) % n) by (nonlinear_arith)
                    requires
                        n >= 1,
                        a >= 0,
                ;
            }
            worker = (worker + 1) % nworkers;
            start = end;
        }
        proof {
            assert(filtered@.take(total as int) =~= filtered@);
        }
        plan
    }

    /// Dispatch the updates that survived validation: split them in chunks
    /// of `max(total / workers, 5000)` and send the chunks to the workers in
    /// round-robin order, continuing from where the previous dispatch ended.
    /// An empty batch dispatches nothing.  When a send fails, the cursor and
    /// the flush flag are left as they were.
    fn dispatch(&mut self, filtered: Vec<Update>) -> (r: Response<()>)
        requires
            old(self).inv(),
            filtered@.len() > 0 ==> old(self).in_txn(),
        ensures
            final(self).inv(),
            final(self).rel_states() == old(self).rel_states(),
            final(self).in_txn() == old(self).in_txn(),
            final(self).spec_timestamp() == old(self).spec_timestamp(),
            final(self).spec_committed_timestamp() == old(self).spec_committed_timestamp(),
            final(self).num_workers() == old(self).num_workers(),
            final(self).spec_stopped() == old(self).spec_stopped(),
            filtered@.len() == 0 ==> r is Ok && *final(self) == *old(self),
            r is Ok && filtered@.len() > 0 ==> final(self).flush_pending(),
            r is Err ==> final(self).flush_pending() == old(self).flush_pending()
                && r->Err_0@ == msg_send_failed(),
    {
        if filtered.len() == 0 {
            return Ok(());
        }
        let total = filtered.len();
        let nworkers = self.senders.len();
        let base = total / nworkers;
        let chunk_size = if base > 5000 {
            base
        } else {
            5000
        };
        let plan = Self::plan_chunks(&filtered, chunk_size, self.worker_round_robin, nworkers);
        let nchunks = plan.len();
        let mut i: usize = 0;
        while i < nchunks
            invariant
                self.inv(),
                *self == *old(self),
                nworkers == self.senders@.len(),
                nchunks == plan@.len(),
                i <= nchunks,
                filtered@.len() > 0,
                forall|j: int| 0 <= j < plan@.len() ==> (#[trigger] plan@[j]).0 < nworkers,
            decreases nchunks - i,
        {
            let worker_idx = plan[i].0;
            let chunk = plan[i].1.clone();
            let msg = Msg::Update { updates: chunk, timestamp: self.timestamp };
            match send_msg(&self.senders[worker_idx], msg) {
                Ok(()) => {},
                Err(()) => {
                    return Err("failed to communicate with worker thread".to_owned());
                },
            }
            i += 1;
        }
        let b = nchunks % nworkers;
        let next = if self.worker_round_robin < nworkers - b {
            self.worker_round_robin + b
        } else {
            self.worker_round_robin - (nworkers - b)
        };
        self.worker_round_robin = next;
        self.need_to_flush = true;
        Ok(())
    }

    /// Start a transaction.  There is no transaction handle: at most one
    /// transaction can be in progress at any time.
    pub fn transaction_start(&mut self) -> (r: Response<()>)
        requires
            old(self).inv(),
        ensures
            final(self).inv(),
            match r {
                Ok(()) => {
                    &&& !old(self).in_txn()
                    &&& final(self).in_txn()
                    &&& final(self).rel_states() == old(self).rel_states()
                    &&& final(self).spec_timestamp() == old(self).spec_timestamp()
                    &&& !final(self).flush_pending()
                    &&& all_deltas_empty(final(self).rel_states())
                },
                Err(e) => {
                    &&& old(self).in_txn()
                    &&& *final(self) == *old(self)
                    &&& e@ == msg_txn_in_progress()
                },
            },
    {
        if self.transaction_in_progress {
            return Err("transaction already in progress".to_owned());
        }
        self.transaction_in_progress = true;
        Ok(())
    }

    /// Apply a batch of updates to input relations, in order.  Each update
    /// is first shown to the `inspect` callback, whose rejection stops the
    /// batch, and is then validated against its relation; the updates that
    /// survive (exactly those [`crate::model::step`] emits) are forwarded to
    /// the workers.  On a rejected update the batch stops there: earlier
    /// updates of the batch remain applied to the stores, nothing is
    /// forwarded, and the transaction stays open.  For an inspector that
    /// never rejects, the batch's exact meaning is the fold
    /// [`batch_apply`].
    pub fn apply_updates<F: Fn(Update) -> Result<(), String>>(
        &mut self,
        updates: Vec<Update>,
        inspect: F,
    ) -> (r: Response<()>)
        requires
            old(self).inv(),
            old(self).in_txn() ==> batch_req(old(self).rel_states(), updates@),
            forall|u: Update| call_requires(inspect, (u,)),
        ensures
            final(self).inv(),
            final(self).in_txn() == old(self).in_txn(),
            final(self).spec_timestamp() == old(self).spec_timestamp(),
            final(self).spec_committed_timestamp() == old(self).spec_committed_timestamp(),
            final(self).num_workers() == old(self).num_workers(),
            !old(self).in_txn() ==> *final(self) == *old(self) && (r matches Err(e) && e@
                == msg_no_txn_apply()),
            old(self).in_txn() ==> exists|kk: int|
                {
                    &&& 0 <= kk <= updates@.len()
                    &&& (#[trigger] batch_apply(old(self).rel_states(), updates@.take(kk))).2
                        is None
                    &&& final(self).rel_states() == batch_apply(
                        old(self).rel_states(),
                        updates@.take(kk),
                    ).0
                },
            (forall|u: Update, res: Result<(), String>|
                #[trigger] call_ensures(inspect, (u,), res) ==> res is Ok) && old(self).in_txn()
                ==> {
                let (m2, emits, err) = batch_apply(old(self).rel_states(), updates@);
                &&& final(self).rel_states() == m2
                &&& (match err {
                    Some(msg) => (r matches Err(e) && e@ == msg) && final(self).flush_pending()
                        == old(self).flush_pending(),
                    None => {
                        &&& (emits.len() == 0 ==> r is Ok && final(self).flush_pending()
                            == old(self).flush_pending())
                        &&& (r is Ok && emits.len() > 0 ==> final(self).flush_pending())
                        &&& (r is Err ==> r->Err_0@ == msg_send_failed()
                            && final(self).flush_pending() == old(self).flush_pending())
                    },
                })
            },
    {
        if !self.transaction_in_progress {
            return Err("apply_updates: no transaction in progress".to_owned());
        }
        let mut filtered: Vec<Update> = Vec::new();
        let n = updates.len();
        let mut k: usize = 0;
        proof {
            assert(updates@.skip(0) =~= updates@);
            assert(updates@.take(0) =~= Seq::<Update>::empty());
            assert(filtered@ =~= Seq::<Update>::empty());
        }
        while k < n
            invariant
                self.inv(),
                self.transaction_in_progress,
                n == updates@.len(),
                k <= n,
                self.senders@ == old(self).senders@,
                self.reply_recv@ == old(self).reply_recv@,
                self.transaction_in_progress == old(self).transaction_in_progress,
                self.need_to_flush == old(self).need_to_flush,
                self.timestamp == old(self).timestamp,
                self.committed_timestamp == old(self).committed_timestamp,
                self.worker_round_robin == old(self).worker_round_robin,
                self.stopped == old(self).stopped,
                self.profile_cpu == old(self).profile_cpu,
                self.profile_timely == old(self).profile_timely,
                self.profile_change == old(self).profile_change,
                forall|u2: Update| call_requires(inspect, (u2,)),
                batch_req(self.rel_states(), updates@.skip(k as int)),
                batch_apply(old(self).rel_states(), updates@) == {
                    let rest = batch_apply(self.rel_states(), updates@.skip(k as int));
                    (rest.0, filtered@ + rest.1, rest.2)
                },
                batch_apply(old(self).rel_states(), updates@.take(k as int)) == (
                    self.rel_states(),
                    filtered@,
                    None::<Seq<char>>,
                ),
            decreases n - k,
        {
            let u = updates[k];
            let ghost pre_states = self.rel_states();
            let ghost pre_filtered = filtered@;
            proof {
                assert(updates@.skip(k as int)[0] == u);
                assert(updates@.skip(k as int).drop_first() =~= updates@.skip(k as int + 1));
                assert(updates@.take(k as int + 1) =~= updates@.take(k as int).push(u));
            }
            match inspect(u) {
                Err(e) => {
                    proof {
                        let kk = k as int;
                        assert(batch_apply(old(self).rel_states(), updates@.take(kk)).2 is None);
                    }
                    return Err(e);
                },
                Ok(()) => {},
            }
            match self.find_rel(u.relid()) {
                None => {
                    proof {
                        assert(batch_apply(pre_states, updates@.skip(k as int)).2
                            == Some(msg_unknown_relation()));
                        let kk = k as int;
                        assert(batch_apply(old(self).rel_states(), updates@.take(kk)).2 is None);
                    }
                    return Err("apply_update: unknown input relation".to_owned());
                },
                Some(j) => {
                    let ghost rels_pre = self.relations@;
                    let ghost out = step(pre_states[u.spec_relid()], u);
                    proof {
                        lemma_rels_map_index(rels_pre, j as int);
                    }
                    let entry = vstd::std_specs::vec::vec_index_mut(&mut self.relations, j);
                    let res = entry.1.apply_one(u, &mut filtered);
                    proof {
                        lemma_rels_map_update(rels_pre, j as int, self.relations@[j as int]);
                        assert(self.relations@ =~= rels_pre.update(
                            j as int,
                            self.relations@[j as int],
                        ));
                        assert(self.rel_states() == pre_states.insert(u.spec_relid(), out.state));
                        assert forall|p: int| 0 <= p < self.relations@.len() implies (
                        #[trigger] self.relations@[p]).1.inv() by {
                            if p != j {
                                assert(self.relations@[p] == rels_pre[p]);
                            }
                        }
                        if out.err is Some {
                            assert(out.state == pre_states[u.spec_relid()]);
                            assert(pre_states.insert(u.spec_relid(), out.state) =~= pre_states);
                            assert(filtered@ =~= pre_filtered);
                        }
                    }
                    match res {
                        Err(e) => {
                            proof {
                                assert(batch_apply(pre_states, updates@.skip(k as int)).2
                                    == Some(e@));
                                assert(batch_apply(pre_states, updates@.skip(k as int)).0
                                    == pre_states);
                                let kk = k as int;
                                assert(batch_apply(old(self).rel_states(), updates@.take(kk)).2
                                    is None);
                            }
                            return Err(e);
                        },
                        Ok(()) => {
                            proof {
                                lemma_batch_apply_push(
                                    old(self).rel_states(),
                                    updates@.take(k as int),
                                    u,
                                );
                                let rest2 = batch_apply(
                                    self.rel_states(),
                                    updates@.skip(k as int + 1),
                                );
                                assert(pre_filtered + (out.emit + rest2.1) =~= (pre_filtered
                                    + out.emit) + rest2.1);
                            }
                        },
                    }
                },
            }
            k += 1;
        }
        proof {
            assert(updates@.skip(n as int) =~= Seq::<Update>::empty());
            assert(updates@.take(n as int) =~= updates@);
            let kk = n as int;
            assert(batch_apply(old(self).rel_states(), updates@.take(kk)).2 is None);
        }
        self.dispatch(filtered)
    }

    /// Insert one record.  Keyed relations reject duplicate keys; set
    /// relations ignore re-inserts of present records.  Callers discharge
    /// the counter-room requirement with [`lemma_batch_req_singleton`].
    pub fn insert(&mut self, relid: RelId, v: Val) -> (r: Response<()>)
        requires
            old(self).inv(),
            old(self).in_txn() ==> batch_req(old(self).rel_states(), seq![Update::Insert { relid, v }]),
        ensures
            final(self).inv(),
            final(self).in_txn() == old(self).in_txn(),
            final(self).spec_timestamp() == old(self).spec_timestamp(),
            old(self).in_txn() ==> final(self).rel_states() == batch_apply(
                old(self).rel_states(),
                seq![Update::Insert { relid, v }],
            ).0,
            !old(self).in_txn() ==> *final(self) == *old(self) && r is Err,
            old(self).in_txn() ==> (match batch_apply(
                old(self).rel_states(),
                seq![Update::Insert { relid, v }],
            ).2 {
                Some(msg) => r matches Err(e) && e@ == msg,
                None => true,
            }),
    {
        let mut updates: Vec<Update> = Vec::new();
        updates.push(Update::Insert { relid, v });
        proof {
            assert(updates@ =~= seq![Update::Insert { relid, v }]);
        }
        let accept = |u: Update| -> (res: Result<(), String>)
            ensures
                res is Ok,
            { Ok(()) };
        proof {
            assert forall|u2: Update, res: Result<(), String>|
                #[trigger] call_ensures(accept, (u2,), res) implies res is Ok by {}
        }
        self.apply_updates(updates, accept)
    }

    /// Insert one record, replacing any record stored under the same key.
    pub fn insert_or_update(&mut self, relid: RelId, v: Val) -> (r: Response<()>)
        requires
            old(self).inv(),
            old(self).in_txn() ==> batch_req(old(self).rel_states(), seq![Update::InsertOrUpdate { relid, v }]),
        ensures
            final(self).inv(),
            final(self).in_txn() == old(self).in_txn(),
            final(self).spec_timestamp() == old(self).spec_timestamp(),
            old(self).in_txn() ==> final(self).rel_states() == batch_apply(
                old(self).rel_states(),
                seq![Update::InsertOrUpdate { relid, v }],
            ).0,
            !old(self).in_txn() ==> *final(self) == *old(self) && r is Err,
            old(self).in_txn() ==> (match batch_apply(
                old(self).rel_states(),
                seq![Update::InsertOrUpdate { relid, v }],
            ).2 {
                Some(msg) => r matches Err(e) && e@ == msg,
                None => true,
            }),
    {
        let mut updates: Vec<Update> = Vec::new();
        updates.push(Update::InsertOrUpdate { relid, v });
        proof {
            assert(updates@ =~= seq![Update::InsertOrUpdate { relid, v }]);
        }
        let accept = |u: Update| -> (res: Result<(), String>)
            ensures
                res is Ok,
            { Ok(()) };
        proof {
            assert forall|u2: Update, res: Result<(), String>|
                #[trigger] call_ensures(accept, (u2,), res) implies res is Ok by {}
        }
        self.apply_updates(updates, accept)
    }

    /// Remove one record if the relation holds it.
    pub fn delete_value(&mut self, relid: RelId, v: Val) -> (r: Response<()>)
        requires
            old(self).inv(),
            old(self).in_txn() ==> batch_req(old(self).rel_states(), seq![Update::DeleteValue { relid, v }]),
        ensures
            final(self).inv(),
            final(self).in_txn() == old(self).in_txn(),
            final(self).spec_timestamp() == old(self).spec_timestamp(),
            old(self).in_txn() ==> final(self).rel_states() == batch_apply(
                old(self).rel_states(),
                seq![Update::DeleteValue { relid, v }],
            ).0,
            !old(self).in_txn() ==> *final(self) == *old(self) && r is Err,
            old(self).in_txn() ==> (match batch_apply(
                old(self).rel_states(),
                seq![Update::DeleteValue { relid, v }],
            ).2 {
                Some(msg) => r matches Err(e) && e@ == msg,
                None => true,
            }),
    {
        let mut updates: Vec<Update> = Vec::new();
        updates.push(Update::DeleteValue { relid, v });
        proof {
            assert(updates@ =~= seq![Update::DeleteValue { relid, v }]);
        }
        let accept = |u: Update| -> (res: Result<(), String>)
            ensures
                res is Ok,
            { Ok(()) };
        proof {
            assert forall|u2: Update, res: Result<(), String>|
                #[trigger] call_ensures(accept, (u2,), res) implies res is Ok by {}
        }
        self.apply_updates(updates, accept)
    }

    /// Remove whatever record a keyed relation stores under `k`.
    pub fn delete_key(&mut self, relid: RelId, k: Val) -> (r: Response<()>)
        requires
            old(self).inv(),
            old(self).in_txn() ==> batch_req(old(self).rel_states(), seq![Update::DeleteKey { relid, k }]),
        ensures
            final(self).inv(),
            final(self).in_txn() == old(self).in_txn(),
            final(self).spec_timestamp() == old(self).spec_timestamp(),
            old(self).in_txn() ==> final(self).rel_states() == batch_apply(
                old(self).rel_states(),
                seq![Update::DeleteKey { relid, k }],
            ).0,
            !old(self).in_txn() ==> *final(self) == *old(self) && r is Err,
            old(self).in_txn() ==> (match batch_apply(
                old(self).rel_states(),
                seq![Update::DeleteKey { relid, k }],
            ).2 {
                Some(msg) => r matches Err(e) && e@ == msg,
                None => true,
            }),
    {
        let mut updates: Vec<Update> = Vec::new();
        updates.push(Update::DeleteKey { relid, k });
        proof {
            assert(updates@ =~= seq![Update::DeleteKey { relid, k }]);
        }
        let accept = |u: Update| -> (res: Result<(), String>)
            ensures
                res is Ok,
            { Ok(()) };
        proof {
            assert forall|u2: Update, res: Result<(), String>|
                #[trigger] call_ensures(accept, (u2,), res) implies res is Ok by {}
        }
        self.apply_updates(updates, accept)
    }

    /// Modify the record a keyed relation stores under `k`, in place.  The
    /// mutator receives the stored record and produces the new one, or a
    /// diagnostic; it must preserve the record's key.  The dataflow sees a
    /// retraction of the old record and an insertion of the new one.
    pub fn modify_key<M: Fn(Val) -> Result<Val, String>>(
        &mut self,
        relid: RelId,
        k: Val,
        m: M,
    ) -> (r: Response<()>)
        requires
            old(self).inv(),
            forall|x: Val| call_requires(m, (x,)),
            forall|x: Val, y: Result<Val, String>|
                #[trigger] call_ensures(m, (x,), y) && y is Ok ==> crate::spec_key_of(
                    y->Ok_0,
                ) == crate::spec_key_of(x),
        ensures
            final(self).inv(),
            final(self).in_txn() == old(self).in_txn(),
            final(self).spec_timestamp() == old(self).spec_timestamp(),
            final(self).spec_committed_timestamp() == old(self).spec_committed_timestamp(),
            !old(self).in_txn() ==> *final(self) == *old(self) && (r matches Err(e) && e@
                == msg_no_txn_apply()),
            old(self).in_txn() && !old(self).rel_states().contains_key(relid) ==> *final(self)
                == *old(self) && (r matches Err(e) && e@ == msg_unknown_relation()),
            old(self).in_txn() && old(self).rel_states().contains_key(relid) && !(old(self).rel_states()[relid] is Indexed) ==> final(self).rel_states() == old(self).rel_states() && final(self).flush_pending() == old(self).flush_pending() && (
            r matches Err(e) && e@ == crate::model::msg_no_key_modify()),
            old(self).in_txn() && old(self).rel_states().contains_key(relid) && old(self).rel_states()[relid] is Indexed && !old(self).rel_states()[relid]->Indexed_elems.contains_key(k) ==> final(self).rel_states()
                == old(self).rel_states() && final(self).flush_pending() == old(self).flush_pending() && (r matches Err(e) && e@
                == crate::model::msg_modify_key_not_found()),
            (r is Err && old(self).in_txn() && old(self).rel_states().contains_key(relid)
                && old(self).rel_states()[relid] is Indexed && old(self).rel_states()[relid]->Indexed_elems.contains_key(k)) ==> {
                let e = r->Err_0;
                let old_v = old(self).rel_states()[relid]->Indexed_elems[k];
                ||| (final(self).rel_states() == old(self).rel_states() && final(self).flush_pending() == old(self).flush_pending() && call_ensures(
                    m,
                    (old_v,),
                    Result::<Val, String>::Err(e),
                ))
                ||| (e@ == msg_send_failed() && final(self).flush_pending() == old(self).flush_pending() && exists|w: Val|
                    {
                        &&& #[trigger] call_ensures(m, (old_v,), Result::<Val, String>::Ok(w))
                        &&& final(self).rel_states() == old(self).rel_states().insert(
                            relid,
                            crate::model::step_modify(
                                old(self).rel_states()[relid],
                                relid,
                                k,
                                w,
                            ).state,
                        )
                    })
            },
            r is Ok ==> old(self).in_txn() && exists|w: Val|
                {
                    let out = crate::model::step_modify(
                        old(self).rel_states()[relid],
                        relid,
                        k,
                        w,
                    );
                    &&& #[trigger] call_ensures(m, (old(self).rel_states()[relid]->Indexed_elems[k],), Ok(w))
                    &&& old(self).rel_states().contains_key(relid)
                    &&& out.err is None
                    &&& final(self).rel_states() == old(self).rel_states().insert(
                        relid,
                        out.state,
                    )
                },
    {
        if !self.transaction_in_progress {
            return Err("apply_updates: no transaction in progress".to_owned());
        }
        let ghost pre_states = self.rel_states();
        match self.find_rel(relid) {
            None => Err("apply_update: unknown input relation".to_owned()),
            Some(j) => {
                let ghost rels_pre = self.relations@;
                proof {
                    lemma_rels_map_index(rels_pre, j as int);
                }
                let entry = vstd::std_specs::vec::vec_index_mut(&mut self.relations, j);
                match &mut entry.1 {
                    RelationInstance::Indexed { elements, delta, committed } => {
                        match elements.get(k) {
                            None => {
                                proof {
                                    assert(self.relations@ =~= rels_pre);
                                }
                                Err("Modify: key not found".to_owned())
                            },
                            Some(old_v) => {
                                match m(old_v) {
                                    Err(e) => {
                                        proof {
                                            assert(self.relations@ =~= rels_pre);
                                        }
                                        Err(e)
                                    },
                                    Ok(w) => {
                                        proof {
                                            assert(crate::spec_key_of(old_v) == k);
                                            assert(dcount(delta@, old_v) >= -1);
                                            assert(dcount(delta@, w) <= 1);
                                        }
                                        let mut filtered: Vec<Update> = Vec::new();
                                        crate::delta::delta_dec(delta, old_v);
                                        proof {
                                            assert(dcount(delta@, w) < i64::MAX);
                                        }
                                        filtered.push(Update::DeleteValue { relid, v: old_v });
                                        crate::delta::delta_inc(delta, w);
                                        filtered.push(Update::Insert { relid, v: w });
                                        elements.insert(k, w);
                                        proof {
                                            crate::model::lemma_step_modify_inv(
                                                pre_states[relid],
                                                relid,
                                                k,
                                                w,
                                            );
                                            lemma_rels_map_update(
                                                rels_pre,
                                                j as int,
                                                self.relations@[j as int],
                                            );
                                            assert(self.relations@ =~= rels_pre.update(
                                                j as int,
                                                self.relations@[j as int],
                                            ));
                                            assert forall|p: int|
                                                0 <= p < self.relations@.len() implies (
                                            #[trigger] self.relations@[p]).1.inv() by {
                                                if p != j {
                                                    assert(self.relations@[p] == rels_pre[p]);
                                                }
                                            }
                                        }
                                        self.dispatch(filtered)
                                    },
                                }
                            },
                        }
                    },
                    _ => {
                        proof {
                            assert(self.relations@ =~= rels_pre);
                        }
                        Err(
                            "Cannot modify a record in a relation that does not have a primary key".to_owned(),
                        )
                    },
                }
            },
        }
    }

    /// Ask every worker to propagate all pending changes and advance to the
    /// next epoch, then wait for one acknowledgement per worker.  Does
    /// nothing when no updates were dispatched since the last flush.
    fn flush(&mut self) -> (r: Response<()>)
        requires
            old(self).inv(),
            old(self).spec_timestamp() < TS::MAX,
        ensures
            final(self).inv(),
            final(self).rel_states() == old(self).rel_states(),
            final(self).in_txn() == old(self).in_txn(),
            final(self).num_workers() == old(self).num_workers(),
            final(self).spec_stopped() == old(self).spec_stopped(),
            final(self).spec_committed_timestamp() == old(self).spec_committed_timestamp(),
            !old(self).flush_pending() ==> r is Ok && *final(self) == *old(self),
            r is Ok ==> !final(self).flush_pending() && final(self).spec_timestamp()
                == old(self).spec_timestamp() + (if old(self).flush_pending() { 1int } else { 0 }),
            final(self).spec_timestamp() >= old(self).spec_timestamp(),
            final(self).spec_timestamp() <= old(self).spec_timestamp() + 1,
    {
        if !self.need_to_flush {
            return Ok(());
        }
        let n = self.senders.len();
        let mut i: usize = 0;
        while i < n
            invariant
                self.inv(),
                *self == *old(self),
                self.need_to_flush,
                self.timestamp < TS::MAX,
                n == self.senders@.len(),
                i <= n,
            decreases n - i,
        {
            let msg = Msg::Flush { advance_to: self.timestamp + 1 };
            match send_msg(&self.senders[i], msg) {
                Ok(()) => {},
                Err(()) => {
                    return Err("failed to communicate with worker thread".to_owned());
                },
            }
            i += 1;
        }
        self.timestamp = self.timestamp + 1;
        self.need_to_flush = false;
        self.await_flush_ack()
    }

    /// Wait for one flush acknowledgement from every worker.  Any other
    /// reply, or a dead channel, fails.
    fn await_flush_ack(&self) -> (r: Response<()>)
        requires
            self.inv(),
        ensures
            r is Err ==> r->Err_0@ == msg_recv_ack_failed() || r->Err_0@
                == msg_unexpected_ack_reply(),
    {
        let n = self.reply_recv.len();
        let mut i: usize = 0;
        while i < n
            invariant
                self.inv(),
                n == self.reply_recv@.len(),
                i <= n,
            decreases n - i,
        {
            match recv_reply(&self.reply_recv[i]) {
                None => {
                    return Err("failed to receive flush ack message from worker".to_owned());
                },
                Some(Reply::FlushAck) => {},
                Some(Reply::QueryRes(_)) => {
                    return Err(
                        "received unexpected reply to flush request from worker".to_owned(),
                    );
                },
            }
            i += 1;
        }
        Ok(())
    }

    /// Commit the open transaction: flush the dispatched updates through
    /// every worker, then clear all deltas, making the current element sides
    /// the new committed baseline.  The transactional clock — the epoch of
    /// the last commit — strictly increases whenever the transaction
    /// dispatched updates.
    pub fn transaction_commit(&mut self) -> (r: Response<()>)
        requires
            old(self).inv(),
            old(self).spec_timestamp() < TS::MAX,
        ensures
            final(self).inv(),
            final(self).num_workers() == old(self).num_workers(),
            !old(self).in_txn() ==> *final(self) == *old(self) && (r matches Err(e) && e@
                == msg_no_txn_commit()),
            old(self).in_txn() && !old(self).flush_pending() ==> r is Ok,
            r is Ok ==> {
                &&& old(self).in_txn()
                &&& !final(self).in_txn()
                &&& !final(self).flush_pending()
                &&& final(self).rel_states() == map_commit(old(self).rel_states())
                &&& all_deltas_empty(final(self).rel_states())
                &&& final(self).spec_timestamp() == old(self).spec_timestamp() + (
                    if old(self).flush_pending() { 1int } else { 0 })
                &&& final(self).spec_committed_timestamp() == final(self).spec_timestamp()
                &&& final(self).spec_committed_timestamp() >= old(self).spec_committed_timestamp()
                &&& old(self).flush_pending() ==> final(self).spec_committed_timestamp() > old(self).spec_committed_timestamp()
            },
            r is Err && old(self).in_txn() ==> final(self).in_txn() && final(self).rel_states()
                == old(self).rel_states() && final(self).spec_committed_timestamp() == old(self).spec_committed_timestamp(),
    {
        if !self.transaction_in_progress {
            return Err("transaction_commit: no transaction in progress".to_owned());
        }
        match self.flush() {
            Err(e) => {
                return Err(e);
            },
            Ok(()) => {},
        }
        let ghost rels_pre = self.relations@;
        let ghost states_pre = self.rel_states();
        let ghost ts_mid = self.timestamp;
        let ghost cts_mid = self.committed_timestamp;
        let ghost nw_mid = self.senders@.len();
        let ghost stopped_mid = self.stopped;
        let n = self.relations.len();
        let mut j: usize = 0;
        while j < n
            invariant
                self.senders@.len() >= 1,
                self.senders@.len() == nw_mid,
                self.reply_recv@.len() == self.senders@.len(),
                self.worker_round_robin < self.senders@.len(),
                self.transaction_in_progress,
                !self.need_to_flush,
                self.stopped == stopped_mid,
                self.timestamp == ts_mid,
                self.committed_timestamp == cts_mid,
                n == self.relations@.len(),
                rels_pre.len() == n,
                j <= n,
                rels_wf(self.relations@),
                forall|p: int| 0 <= p < n ==> (#[trigger] self.relations@[p]).0 == rels_pre[p].0,
                forall|p: int|
                    0 <= p < j ==> (#[trigger] self.relations@[p]).1@
                        == crate::model::commit_of(rels_pre[p].1@),
                forall|p: int| j <= p < n ==> #[trigger] self.relations@[p] == rels_pre[p],
            decreases n - j,
        {
            let entry = vstd::std_specs::vec::vec_index_mut(&mut self.relations, j);
            entry.1.commit_deltas();
            j += 1;
        }
        proof {
            lemma_rels_map_dom(self.relations@);
            lemma_rels_map_dom(rels_pre);
            assert forall|k: RelId| #[trigger] self.rel_states().contains_key(k)
                <==> map_commit(states_pre).contains_key(k) by {
                if self.rel_states().contains_key(k) {
                    let i = choose|i: int|
                        0 <= i < self.relations@.len() && (#[trigger] self.relations@[i]).0 == k;
                    assert((rels_pre[i]).0 == k);
                }
                if states_pre.contains_key(k) {
                    let i = choose|i: int|
                        0 <= i < rels_pre.len() && (#[trigger] rels_pre[i]).0 == k;
                    assert((self.relations@[i]).0 == k);
                }
            }
            assert forall|k: RelId| self.rel_states().contains_key(k) implies
                #[trigger] self.rel_states()[k] == map_commit(states_pre)[k] by {
                let i = choose|i: int|
                    0 <= i < self.relations@.len() && (#[trigger] self.relations@[i]).0 == k;
                lemma_rels_map_index(self.relations@, i);
                lemma_rels_map_index(rels_pre, i);
            }
            assert(self.rel_states() =~= map_commit(states_pre));
        }
        self.committed_timestamp = self.timestamp;
        self.transaction_in_progress = false;
        Ok(())
    }

    /// Roll the open transaction back: flush, restore every relation to its
    /// committed state by applying the inverse of its delta, forward that
    /// inverse stream to the workers, and flush again.  Afterwards every
    /// delta set is empty.  The transactional clock — the epoch of the last
    /// commit — is unchanged; only the internal epoch advances, by one per
    /// flush the rollback performed.
    pub fn transaction_rollback(&mut self) -> (r: Response<()>)
        requires
            old(self).inv(),
            old(self).spec_timestamp() + 2 <= TS::MAX,
        ensures
            final(self).inv(),
            final(self).num_workers() == old(self).num_workers(),
            final(self).spec_committed_timestamp() == old(self).spec_committed_timestamp(),
            old(self).spec_timestamp() <= final(self).spec_timestamp() <= old(self).spec_timestamp() + 2,
            !old(self).in_txn() ==> *final(self) == *old(self) && (r matches Err(e) && e@
                == msg_no_txn_rollback()),
            old(self).in_txn() && !old(self).flush_pending() && all_deltas_empty(
                old(self).rel_states(),
            ) ==> r is Ok && final(self).spec_timestamp() == old(self).spec_timestamp(),
            r is Ok ==> {
                &&& old(self).in_txn()
                &&& !final(self).in_txn()
                &&& !final(self).flush_pending()
                &&& final(self).rel_states() == map_committed(old(self).rel_states())
                &&& all_deltas_empty(final(self).rel_states())
            },
            r is Err && old(self).in_txn() ==> final(self).in_txn() && (final(self).rel_states()
                == old(self).rel_states() || final(self).rel_states() == map_committed(
                old(self).rel_states(),
            )),
    {
        if !self.transaction_in_progress {
            return Err("transaction_rollback: no transaction in progress".to_owned());
        }
        match self.flush() {
            Err(e) => {
                return Err(e);
            },
            Ok(()) => {},
        }
        let ghost rels_pre = self.relations@;
        let ghost states_pre = self.rel_states();
        let ghost ts_mid = self.timestamp;
        let ghost cts_mid = self.committed_timestamp;
        let ghost nw_mid = self.senders@.len();
        let ghost stopped_mid = self.stopped;
        let mut all: Vec<Update> = Vec::new();
        let n = self.relations.len();
        let mut j: usize = 0;
        while j < n
            invariant
                self.senders@.len() >= 1,
                self.senders@.len() == nw_mid,
                self.reply_recv@.len() == self.senders@.len(),
                self.worker_round_robin < self.senders@.len(),
                self.transaction_in_progress,
                !self.need_to_flush,
                self.stopped == stopped_mid,
                self.timestamp == ts_mid,
                self.committed_timestamp == cts_mid,
                n == self.relations@.len(),
                rels_pre.len() == n,
                j <= n,
                rels_wf(self.relations@),
                forall|p: int| 0 <= p < n ==> (#[trigger] self.relations@[p]).0 == rels_pre[p].0,
                forall|p: int|
                    0 <= p < j ==> (#[trigger] self.relations@[p]).1@
                        == crate::model::committed_of(rels_pre[p].1@),
                forall|p: int| j <= p < n ==> #[trigger] self.relations@[p] == rels_pre[p],
                forall|p: int, q: int|
                    0 <= p < q < rels_pre.len() ==> (#[trigger] rels_pre[p]).0 != (
                    #[trigger] rels_pre[q]).0,
                all_deltas_empty(rels_map(rels_pre)) ==> all@ == Seq::<Update>::empty(),
            decreases n - j,
        {
            let entry = vstd::std_specs::vec::vec_index_mut(&mut self.relations, j);
            let relid = entry.0;
            let ghost inst_pre = rels_pre[j as int].1@;
            let mut ups = entry.1.undo(relid);
            proof {
                if all_deltas_empty(rels_map(rels_pre)) {
                    lemma_rels_map_index(rels_pre, j as int);
                    assert(crate::model::delta_of(inst_pre) == Map::<Val, i64>::empty());
                    assert forall|v: Val| #[trigger] dcount(
                        crate::model::delta_of(inst_pre),
                        v,
                    ) == 0 by {}
                    crate::instance::lemma_undo_stream_empty(
                        ups@,
                        relid,
                        crate::model::delta_of(inst_pre),
                    );
                }
            }
            all.append(&mut ups);
            proof {
                if all_deltas_empty(rels_map(rels_pre)) {
                    assert(all@ =~= Seq::<Update>::empty());
                }
            }
            j += 1;
        }
        proof {
            lemma_rels_map_dom(self.relations@);
            lemma_rels_map_dom(rels_pre);
            assert forall|k: RelId| #[trigger] self.rel_states().contains_key(k)
                <==> map_committed(states_pre).contains_key(k) by {
                if self.rel_states().contains_key(k) {
                    let i = choose|i: int|
                        0 <= i < self.relations@.len() && (#[trigger] self.relations@[i]).0 == k;
                    assert((rels_pre[i]).0 == k);
                }
                if states_pre.contains_key(k) {
                    let i = choose|i: int|
                        0 <= i < rels_pre.len() && (#[trigger] rels_pre[i]).0 == k;
                    assert((self.relations@[i]).0 == k);
                }
            }
            assert forall|k: RelId| self.rel_states().contains_key(k) implies
                #[trigger] self.rel_states()[k] == map_committed(states_pre)[k] by {
                let i = choose|i: int|
                    0 <= i < self.relations@.len() && (#[trigger] self.relations@[i]).0 == k;
                lemma_rels_map_index(self.relations@, i);
                lemma_rels_map_index(rels_pre, i);
            }
            assert(self.rel_states() =~= map_committed(states_pre));
            assert forall|k: RelId| self.rel_states().contains_key(k) implies
                crate::model::delta_of(#[trigger] self.rel_states()[k]) == Map::<
                Val,
                i64,
            >::empty() by {}
        }
        match self.dispatch(all) {
            Err(e) => {
                return Err(e);
            },
            Ok(()) => {},
        }
        match self.flush() {
            Err(e) => {
                return Err(e);
            },
            Ok(()) => {},
        }
        self.transaction_in_progress = false;
        Ok(())
    }

    /// Empty an input relation: retract every record it stores, as a normal
    /// update batch of the open transaction.  Stream relations are not
    /// supported.
    pub fn clear_relation(&mut self, relid: RelId) -> (r: Response<()>)
        requires
            old(self).inv(),
            old(self).rel_states().contains_key(relid) ==> crate::model::clear_req(
                old(self).rel_states()[relid],
            ),
        ensures
            final(self).inv(),
            final(self).in_txn() == old(self).in_txn(),
            final(self).spec_timestamp() == old(self).spec_timestamp(),
            final(self).spec_committed_timestamp() == old(self).spec_committed_timestamp(),
            !old(self).in_txn() ==> *final(self) == *old(self) && (r matches Err(e) && e@
                == msg_no_txn_clear()),
            old(self).in_txn() && !old(self).rel_states().contains_key(relid) ==> *final(self)
                == *old(self) && (r matches Err(e) && e@ == msg_clear_unknown_relation()),
            old(self).in_txn() && old(self).rel_states().contains_key(relid) && old(self).rel_states()[relid] is Stream ==> final(self).rel_states() == old(self).rel_states()
                && final(self).flush_pending() == old(self).flush_pending() && (r matches Err(e)
                && e@ == crate::instance::msg_clear_stream()),
            old(self).in_txn() && old(self).rel_states().contains_key(relid) && !(old(self).rel_states()[relid] is Stream) ==> {
                let s_old = old(self).rel_states()[relid];
                let s_new = final(self).rel_states()[relid];
                &&& final(self).rel_states().contains_key(relid)
                &&& forall|v: Val| #[trigger] crate::model::elem_count(s_new, v) == 0
                &&& forall|v: Val| #[trigger] dcount(crate::model::delta_of(s_new), v) == dcount(
                    crate::model::delta_of(s_old),
                    v,
                ) - crate::model::elem_count(s_old, v)
                &&& crate::model::committed_of(s_new) == crate::model::committed_of(s_old)
                &&& forall|k: RelId|
                    k != relid && old(self).rel_states().contains_key(k)
                        ==> #[trigger] final(self).rel_states()[k] == old(self).rel_states()[k]
                &&& (forall|v: Val| #[trigger] crate::model::elem_count(s_old, v) == 0)
                    ==> r is Ok && final(self).flush_pending() == old(self).flush_pending()
                &&& r matches Err(e) ==> e@ == msg_send_failed() && final(self).flush_pending()
                    == old(self).flush_pending()
            },
            r is Ok ==> old(self).in_txn() && old(self).rel_states().contains_key(relid)
                && forall|v: Val|
                #[trigger] crate::model::elem_count(final(self).rel_states()[relid], v) == 0,
            r is Ok ==> forall|k: RelId|
                k != relid && old(self).rel_states().contains_key(k)
                    ==> #[trigger] final(self).rel_states()[k] == old(self).rel_states()[k],
    {
        if !self.transaction_in_progress {
            return Err("clear_relation: no transaction in progress".to_owned());
        }
        let ghost pre_states = self.rel_states();
        match self.find_rel(relid) {
            None => Err("clear_relation: unknown input relation".to_owned()),
            Some(j) => {
                let ghost rels_pre = self.relations@;
                proof {
                    lemma_rels_map_index(rels_pre, j as int);
                }
                let entry = vstd::std_specs::vec::vec_index_mut(&mut self.relations, j);
                let res = entry.1.clear(relid);
                proof {
                    lemma_rels_map_update(rels_pre, j as int, self.relations@[j as int]);
                    assert(self.relations@ =~= rels_pre.update(
                        j as int,
                        self.relations@[j as int],
                    ));
                    assert forall|p: int| 0 <= p < self.relations@.len() implies (
                    #[trigger] self.relations@[p]).1.inv() by {
                        if p != j {
                            assert(self.relations@[p] == rels_pre[p]);
                        }
                    }
                }
                match res {
                    Err(e) => {
                        proof {
                            assert(self.rel_states() =~= pre_states);
                        }
                        Err(e)
                    },
                    Ok(ups) => {
                        proof {
                            assert forall|k: RelId|
                                k != relid && pre_states.contains_key(k)
                                    implies #[trigger] self.rel_states()[k]
                                == pre_states[k] by {}
                            if forall|v: Val| #[trigger] crate::model::elem_count(
                                pre_states[relid],
                                v,
                            ) == 0 {
                                crate::instance::lemma_clear_stream_empty(
                                    ups@,
                                    relid,
                                    pre_states[relid],
                                );
                            }
                        }
                        self.dispatch(ups)
                    },
                }
            },
        }
    }

    /// Insert the record into a strictly ordered sequence, keeping it
    /// strictly ordered.
    fn insert_sorted(acc: &mut Vec<Val>, v: Val)
        requires
            sorted_unique(old(acc)@),
        ensures
            sorted_unique(final(acc)@),
            final(acc)@.to_set() == old(acc)@.to_set().insert(v),
    {
        let n = acc.len();
        let mut i: usize = 0;
        while i < n && acc[i] < v
            invariant
                sorted_unique(acc@),
                *acc == *old(acc),
                n == acc@.len(),
                i <= n,
                forall|p: int| 0 <= p < i ==> #[trigger] acc@[p] < v,
            decreases n - i,
        {
            i += 1;
        }
        if i < n && acc[i] == v {
            proof {
                assert(acc@.to_set().contains(v));
                assert(acc@.to_set().insert(v) =~= acc@.to_set());
            }
            return;
        }
        proof {
            assert forall|p: int| i <= p < acc@.len() implies v < #[trigger] acc@[p] by {
                if p == i {
                } else {
                    assert(acc@[i as int] < acc@[p]);
                }
            }
        }
        acc.insert(i, v);
        proof {
            let so = old(acc)@;
            let sn = acc@;
            assert(sn =~= so.insert(i as int, v));
            assert forall|p: int, q: int| 0 <= p < q < sn.len() implies #[trigger] sn[p] < (
            #[trigger] sn[q]) by {
                assert(sn[p] == (if p < i { so[p] } else if p == i { v } else { so[p - 1] }));
                assert(sn[q] == (if q < i { so[q] } else if q == i { v } else { so[q - 1] }));
            }
            assert forall|w: Val| sn.to_set().contains(w) implies so.to_set().insert(v).contains(
                w,
            ) by {
                let p = choose|p: int| 0 <= p < sn.len() && sn[p] == w;
                if p < i {
                    assert(so[p] == w);
                } else if p > i {
                    assert(so[p - 1] == w);
                }
            }
            assert forall|w: Val| so.to_set().insert(v).contains(w) implies sn.to_set().contains(
                w,
            ) by {
                if w == v {
                    assert(sn[i as int] == w);
                } else {
                    let p = choose|p: int| 0 <= p < so.len() && so[p] == w;
                    if p < i {
                        assert(sn[p] == w);
                    } else {
                        assert(sn[p + 1] == w);
                    }
                }
            }
            assert(sn.to_set() =~= so.to_set().insert(v));
        }
    }

    /// Merge one worker's query answer into the accumulated answer.
    fn merge_reply(acc: &mut Vec<Val>, vals: &Vec<Val>)
        requires
            sorted_unique(old(acc)@),
        ensures
            sorted_unique(final(acc)@),
            final(acc)@.to_set() == old(acc)@.to_set().union(vals@.to_set()),
    {
        let n = vals.len();
        let mut i: usize = 0;
        proof {
            assert(acc@.to_set() =~= acc@.to_set().union(vals@.take(0).to_set()));
        }
        while i < n
            invariant
                sorted_unique(acc@),
                n == vals@.len(),
                i <= n,
                acc@.to_set() == old(acc)@.to_set().union(vals@.take(i as int).to_set()),
            decreases n - i,
        {
            let v = vals[i];
            Self::insert_sorted(acc, v);
            proof {
                assert(vals@.take(i as int + 1) =~= vals@.take(i as int).push(v));
                lemma_to_set_push(vals@.take(i as int), v);
                assert(acc@.to_set() =~= old(acc)@.to_set().union(
                    vals@.take(i as int + 1).to_set(),
                ));
            }
            i += 1;
        }
        proof {
            assert(vals@.take(n as int) =~= vals@);
        }
    }

    /// Ask every worker for its part of an arrangement's contents and merge
    /// the parts.  A worker that does not recognize the arrangement id
    /// answers `None`; all replies are still consumed before the query
    /// fails.  The merged answer is strictly ordered.
    fn query_arrangement_inner(&mut self, arrid: crate::ArrId, k: Option<Val>) -> (r: Response<
        Vec<Val>,
    >)
        requires
            old(self).inv(),
        ensures
            final(self).inv(),
            *final(self) == *old(self),
            r matches Ok(vals) ==> sorted_unique(vals@),
    {
        let n = self.senders.len();
        let mut i: usize = 0;
        while i < n
            invariant
                self.inv(),
                *self == *old(self),
                n == self.senders@.len(),
                i <= n,
            decreases n - i,
        {
            let key = match &k {
                Some(kv) => Some(*kv),
                None => None,
            };
            match send_msg(&self.senders[i], Msg::Query(arrid, key)) {
                Ok(()) => {},
                Err(()) => {
                    return Err("failed to communicate with worker thread".to_owned());
                },
            }
            i += 1;
        }
        let mut res: Vec<Val> = Vec::new();
        let mut unknown = false;
        let mut w: usize = 0;
        while w < n
            invariant
                self.inv(),
                *self == *old(self),
                n == self.reply_recv@.len(),
                w <= n,
                sorted_unique(res@),
            decreases n - w,
        {
            match recv_reply(&self.reply_recv[w]) {
                None => {
                    return Err("query_arrangement: failed to receive reply from worker".to_owned());
                },
                Some(Reply::QueryRes(Some(vals))) => {
                    Self::merge_reply(&mut res, &vals);
                },
                Some(Reply::QueryRes(None)) => {
                    unknown = true;
                },
                Some(Reply::FlushAck) => {
                    return Err("query_arrangement: unexpected reply from worker".to_owned());
                },
            }
            w += 1;
        }
        if unknown {
            Err("query_arrangement: unknown index".to_owned())
        } else {
            Ok(res)
        }
    }

    /// The records an arrangement stores under the given key, merged over
    /// all workers; strictly ordered.
    pub fn query_arrangement(&mut self, arrid: crate::ArrId, k: Val) -> (r: Response<Vec<Val>>)
        requires
            old(self).inv(),
        ensures
            final(self).inv(),
            *final(self) == *old(self),
            r matches Ok(vals) ==> sorted_unique(vals@),
    {
        self.query_arrangement_inner(arrid, Some(k))
    }

    /// The entire contents of an arrangement, merged over all workers;
    /// strictly ordered.
    pub fn dump_arrangement(&mut self, arrid: crate::ArrId) -> (r: Response<Vec<Val>>)
        requires
            old(self).inv(),
        ensures
            final(self).inv(),
            *final(self) == *old(self),
            r matches Ok(vals) ==> sorted_unique(vals@),
    {
        self.query_arrangement_inner(arrid, None)
    }

    /// Stop the program: flush pending work and tell every worker to shut
    /// down.  Joining the worker threads is the embedder's part.  Stopping
    /// twice is a no-op.
    pub fn stop(&mut self) -> (r: Response<()>)
        requires
            old(self).inv(),
            old(self).spec_timestamp() < TS::MAX,
        ensures
            final(self).inv(),
            final(self).rel_states() == old(self).rel_states(),
            old(self).spec_stopped() ==> r is Ok && *final(self) == *old(self),
            r is Ok ==> final(self).spec_stopped() || old(self).spec_stopped(),
    {
        if self.stopped {
            return Ok(());
        }
        match self.flush() {
            Err(e) => {
                return Err(e);
            },
            Ok(()) => {},
        }
        let n = self.senders.len();
        let mut i: usize = 0;
        while i < n
            invariant
                self.inv(),
                self.rel_states() == old(self).rel_states(),
                !old(self).spec_stopped(),
                n == self.senders@.len(),
                i <= n,
            decreases n - i,
        {
            match send_msg(&self.senders[i], Msg::Stop) {
                Ok(()) => {},
                Err(()) => {
                    return Err("failed to communicate with worker thread".to_owned());
                },
            }
            i += 1;
        }
        self.stopped = true;
        Ok(())
    }

    /// Forward scheduling events to the profiling thread; expensive in large
    /// dataflows.  Without a profiling rig this does nothing.
    pub fn enable_cpu_profiling(&self, enable: bool) {
        match &self.profile_cpu {
            Some(flag) => store_flag(flag, enable),
            None => (),
        }
    }

    /// Forward dataflow events to the profiling thread.  Without a profiling
    /// rig this does nothing.
    pub fn enable_timely_profiling(&self, enable: bool) {
        match &self.profile_timely {
            Some(flag) => store_flag(flag, enable),
            None => (),
        }
    }

    /// Forward relation-change events to the profiling thread.  Without a
    /// profiling rig this does nothing.
    pub fn enable_change_profiling(&self, enable: bool) {
        match &self.profile_change {
            Some(flag) => store_flag(flag, enable),
            None => (),
        }
    }

    /// The current internal epoch, advanced by every flush barrier.
    pub fn timestamp(&self) -> (t: TS)
        ensures
            t == self.spec_timestamp(),
    {
        self.timestamp
    }

    /// The epoch of the last commit: the transactional clock.  Rollback
    /// never changes it.
    pub fn last_commit_timestamp(&self) -> (t: TS)
        ensures
            t == self.spec_committed_timestamp(),
    {
        self.committed_timestamp
    }

    /// The stored contents of a keyed input relation, by key.  In the middle
    /// of a transaction this reflects the transaction's own changes.
    pub fn get_input_relation_index(&self, relid: RelId) -> (r: Response<&crate::kv::KvMap<Val>>)
        requires
            self.inv(),
        ensures
            match r {
                Ok(m) => self.rel_states().contains_key(relid)
                    && self.rel_states()[relid] is Indexed && m@ == self.rel_states()[
                    relid
                ]->Indexed_elems,
                Err(_) => !self.rel_states().contains_key(relid) || !(self.rel_states()[
                    relid
                ] is Indexed),
            },
    {
        match self.find_rel(relid) {
            None => Err("unknown relation".to_owned()),
            Some(j) => match &self.relations[j].1 {
                RelationInstance::Indexed { elements, .. } => Ok(elements),
                _ => Err("not an indexed relation".to_owned()),
            },
        }
    }

    /// The stored contents of a flat-set input relation.  In the middle of a
    /// transaction this reflects the transaction's own changes.
    pub fn get_input_relation_data(&self, relid: RelId) -> (r: Response<&crate::kv::KvSet>)
        requires
            self.inv(),
        ensures
            match r {
                Ok(s) => self.rel_states().contains_key(relid) && self.rel_states()[
                    relid
                ] is Flat && s@ == self.rel_states()[relid]->Flat_elems,
                Err(_) => !self.rel_states().contains_key(relid) || !(self.rel_states()[
                    relid
                ] is Flat),
            },
    {
        match self.find_rel(relid) {
            None => Err("unknown relation".to_owned()),
            Some(j) => match &self.relations[j].1 {
                RelationInstance::Flat { elements, .. } => Ok(elements),
                _ => Err("not a flat relation".to_owned()),
            },
        }
    }

    /// The stored contents of a multiset input relation.  In the middle of a
    /// transaction this reflects the transaction's own changes.
    pub fn get_input_multiset_data(&self, relid: RelId) -> (r: Response<
        &crate::delta::DeltaSet,
    >)
        requires
            self.inv(),
        ensures
            match r {
                Ok(m) => self.rel_states().contains_key(relid) && self.rel_states()[
                    relid
                ] is Mset && m@ == self.rel_states()[relid]->Mset_elems,
                Err(_) => !self.rel_states().contains_key(relid) || !(self.rel_states()[
                    relid
                ] is Mset),
            },
    {
        match self.find_rel(relid) {
            None => Err("unknown relation".to_owned()),
            Some(j) => match &self.relations[j].1 {
                RelationInstance::Mset { elements, .. } => Ok(elements),
                _ => Err("not a flat relation".to_owned()),
            },
        }
    }

    /// Position of a relation id in an instance list.
    fn find_id(rels: &Vec<(RelId, RelationInstance)>, relid: RelId) -> (r: Option<usize>)
        ensures
            match r {
                Some(i) => i < rels@.len() && rels@[i as int].0 == relid,
                None => forall|j: int| 0 <= j < rels@.len() ==> (#[trigger] rels@[j]).0 != relid,
            },
    {
        let n = rels.len();
        let mut i: usize = 0;
        while i < n
            invariant
                n == rels@.len(),
                i <= n,
                forall|j: int| 0 <= j < i ==> (#[trigger] rels@[j]).0 != relid,
            decreases n - i,
        {
            if rels[i].0 == relid {
                return Some(i);
            }
            i += 1;
        }
        None
    }

    /// Build the driver for a program over an already started worker pool:
    /// one command channel and one reply channel per worker.  Validates the
    /// program's structure, creates the runtime store of every top-level
    /// input relation, rejects duplicate input relation ids, and waits for
    /// the initial flush acknowledgement of every worker.
    pub fn new(
        program: &Program,
        senders: Vec<crossbeam_channel::Sender<Msg>>,
        reply_recv: Vec<crossbeam_channel::Receiver<Reply>>,
        profile_cpu: Option<triomphe::Arc<AtomicBool>>,
        profile_timely: Option<triomphe::Arc<AtomicBool>>,
        profile_change: Option<triomphe::Arc<AtomicBool>>,
    ) -> (r: Response<RunningProgram>)
        ensures
            senders@.len() == 0 || reply_recv@.len() != senders@.len() ==> r is Err,
            !crate::validate::prog_valid(*program) ==> r is Err,
            dup_input_ids(program.nodes@) ==> r is Err,
            crate::validate::scc_has_input(program.nodes@) ==> r is Err,
            senders@.len() >= 1 && reply_recv@.len() == senders@.len()
                && crate::validate::prog_valid(*program) && !dup_input_ids(program.nodes@) ==> (
            r is Ok || (r matches Err(e) && (e@ == msg_recv_ack_failed() || e@
                == msg_unexpected_ack_reply()))),
            r matches Ok(rp) ==> {
                &&& rp.inv()
                &&& rp.rel_states() == init_rels(program.nodes@)
                &&& !rp.in_txn()
                &&& !rp.flush_pending()
                &&& !rp.spec_stopped()
                &&& rp.spec_timestamp() == 1
                &&& rp.spec_committed_timestamp() == 1
                &&& rp.num_workers() == senders@.len()
                &&& crate::validate::prog_valid(*program)
            },
    {
        if senders.len() == 0 || reply_recv.len() != senders.len() {
            return Err("a worker pool needs at least one worker".to_owned());
        }
        match program.validate() {
            Err(e) => {
                return Err(e);
            },
            Ok(()) => {},
        }
        proof {
            if crate::validate::scc_has_input(program.nodes@) {
                crate::validate::lemma_scc_input_invalid(*program);
            }
        }
        let mut rels: Vec<(RelId, RelationInstance)> = Vec::new();
        let nn = program.nodes.len();
        let mut i: usize = 0;
        proof {
            assert(program.nodes@.take(0) =~= Seq::<ProgNode>::empty());
        }
        while i < nn
            invariant
                nn == program.nodes@.len(),
                i <= nn,
                rels_wf(rels@),
                rels_map(rels@) == init_rels(program.nodes@.take(i as int)),
                all_deltas_empty(rels_map(rels@)),
                !dup_input_ids(program.nodes@.take(i as int)),
            decreases nn - i,
        {
            proof {
                assert(program.nodes@.take(i as int + 1).drop_last() =~= program.nodes@.take(
                    i as int,
                ));
                assert(program.nodes@.take(i as int + 1).last() == program.nodes@[i as int]);
            }
            match &program.nodes[i] {
                ProgNode::Rel { rel } => {
                    if rel.input {
                        match Self::find_id(&rels, rel.id) {
                            Some(_) => {
                                proof {
                                    lemma_rels_map_dom(rels@);
                                    assert(init_rels(program.nodes@.take(i as int)).contains_key(
                                        rel.id,
                                    ));
                                    lemma_init_rels_dom_sub(program.nodes@.take(i as int));
                                    let p = choose|p: int|
                                        0 <= p < program.nodes@.take(i as int).len() && (
                                        #[trigger] program.nodes@.take(i as int)[p]) is Rel
                                            && program.nodes@.take(
                                            i as int,
                                        )[p]->Rel_rel.input && program.nodes@.take(
                                            i as int,
                                        )[p]->Rel_rel.id == rel.id;
                                    assert(program.nodes@[p] == program.nodes@.take(i as int)[p]);
                                    assert(program.nodes@[i as int] is Rel);
                                    assert(dup_input_ids(program.nodes@));
                                }
                                return Err("duplicate relation id".to_owned());
                            },
                            None => {},
                        }
                        proof {
                            lemma_rels_map_dom(rels@);
                            lemma_init_rels_dom(program.nodes@.take(i as int));
                            assert(!rels_map(rels@).contains_key(rel.id));
                            assert forall|p: int, q: int|
                                !(0 <= p < q < i + 1 && (#[trigger] program.nodes@.take(
                                    i as int + 1,
                                )[p]) is Rel && program.nodes@.take(i as int + 1)[p]->Rel_rel.input
                                    && (#[trigger] program.nodes@.take(i as int + 1)[q]) is Rel
                                    && program.nodes@.take(i as int + 1)[q]->Rel_rel.input
                                    && program.nodes@.take(i as int + 1)[p]->Rel_rel.id
                                    == program.nodes@.take(i as int + 1)[q]->Rel_rel.id) by {
                                if 0 <= p < q < i + 1 && q == i {
                                    if program.nodes@.take(i as int + 1)[p] is Rel
                                        && program.nodes@.take(i as int + 1)[p]->Rel_rel.input {
                                        assert(program.nodes@.take(i as int)[p] == program.nodes@[p]);
                                        assert(init_rels(program.nodes@.take(i as int)).contains_key(
                                            program.nodes@[p]->Rel_rel.id,
                                        ));
                                    }
                                }
                            }
                        }
                        let inst = match rel.caching_mode {
                            CachingMode::Stream => RelationInstance::Stream {
                                delta: crate::kv::KvMap::new(),
                            },
                            CachingMode::CacheMultiset => RelationInstance::Mset {
                                elements: crate::kv::KvMap::new(),
                                delta: crate::kv::KvMap::new(),
                                committed: Ghost(Map::empty()),
                            },
                            CachingMode::CacheSet => if rel.keyed {
                                RelationInstance::Indexed {
                                    elements: crate::kv::KvMap::new(),
                                    delta: crate::kv::KvMap::new(),
                                    committed: Ghost(Map::empty()),
                                }
                            } else {
                                RelationInstance::Flat {
                                    elements: crate::kv::KvSet::new(),
                                    delta: crate::kv::KvMap::new(),
                                    committed: Ghost(Set::empty()),
                                }
                            },
                        };
                        let ghost rels_pre = rels@;
                        rels.push((rel.id, inst));
                        proof {
                            assert(rels@.drop_last() =~= rels_pre);
                            assert(rels@.last().1@ == init_state(*rel));
                            assert forall|p: int, q: int|
                                0 <= p < q < rels@.len() implies (#[trigger] rels@[p]).0 != (
                            #[trigger] rels@[q]).0 by {
                                if q == rels@.len() - 1 {
                                    assert((rels_pre[p]).0 != rel.id);
                                }
                            }
                        }
                    }
                },
                ProgNode::Apply { .. } => {},
                ProgNode::Scc { .. } => {},
            }
            i += 1;
        }
        proof {
            assert(program.nodes@.take(nn as int) =~= program.nodes@);
        }
        let rp = RunningProgram {
            senders,
            reply_recv,
            relations: rels,
            transaction_in_progress: false,
            need_to_flush: false,
            timestamp: 1,
            committed_timestamp: 1,
            profile_cpu,
            profile_timely,
            profile_change,
            worker_round_robin: 0,
            stopped: false,
        };
        match rp.await_flush_ack() {
            Err(e) => Err(e),
            Ok(()) => Ok(rp),
        }
    }
}

} // verus!
