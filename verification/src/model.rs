//! Abstract model of per-relation runtime state.
//!
//! Each input relation is modelled by a [`RelState`]: its element side, its
//! delta side, and the element side as of the last commit.  The meaning of a
//! client update is the specification function [`step`], against which the
//! executable store operations are verified.  The conservation invariant
//! [`rel_inv`] ties the three sides together: a record's delta count always
//! equals its current element count minus its count at the last commit.

use vstd::prelude::*;
use crate::{Val, spec_key_of};
use crate::delta::{dcount, minc, mdec, lemma_minc, lemma_mdec};
use crate::update::Update;

verus! {

/// Abstract state of one input relation.
#[allow(inconsistent_fields)]
pub enum RelState {
    /// No element side: every update is forwarded without deduplication.
    Stream { delta: Map<Val, i64> },
    /// Elements form a generalized multiset with signed counts.
    Mset { elems: Map<Val, i64>, delta: Map<Val, i64>, committed: Map<Val, i64> },
    /// Elements form a set; repeated inserts and deletes of absent records
    /// are no-ops.
    Flat { elems: Set<Val>, delta: Map<Val, i64>, committed: Set<Val> },
    /// Elements are keyed by the record's key half, which must be unique.
    Indexed { elems: Map<Val, Val>, delta: Map<Val, i64>, committed: Map<Val, Val> },
}

/// Membership indicator of a set, as a count.
pub open spec fn set_ind(s: Set<Val>, v: Val) -> int {
    if s.contains(v) {
        1
    } else {
        0
    }
}

/// The number of times record `v` occurs in a keyed store: one when it is
/// stored under its own key, zero otherwise.
pub open spec fn vcount(m: Map<Val, Val>, v: Val) -> int {
    if m.contains_key(spec_key_of(v)) && m[spec_key_of(v)] == v {
        1
    } else {
        0
    }
}

/// A coalesced count map stores no explicit zeroes.
pub open spec fn no_zeros(m: Map<Val, i64>) -> bool {
    forall|v: Val| m.contains_key(v) ==> #[trigger] m[v] != 0
}

/// Every record of a keyed store sits under its own key.
pub open spec fn keys_coherent(m: Map<Val, Val>) -> bool {
    forall|k: Val| m.contains_key(k) ==> spec_key_of(#[trigger] m[k]) == k
}

/// The delta side of a relation state.
pub open spec fn delta_of(s: RelState) -> Map<Val, i64> {
    match s {
        RelState::Stream { delta } => delta,
        RelState::Mset { delta, .. } => delta,
        RelState::Flat { delta, .. } => delta,
        RelState::Indexed { delta, .. } => delta,
    }
}

/// Conservation invariant: for every record, the delta count equals the
/// current element count minus the element count at the last commit.
pub open spec fn rel_inv(s: RelState) -> bool {
    match s {
        RelState::Stream { delta } => no_zeros(delta),
        RelState::Mset { elems, delta, committed } => {
            &&& no_zeros(delta)
            &&& no_zeros(elems)
            &&& no_zeros(committed)
            &&& forall|v: Val| #[trigger] dcount(delta, v) == dcount(elems, v) - dcount(
                committed,
                v,
            )
        },
        RelState::Flat { elems, delta, committed } => {
            &&& no_zeros(delta)
            &&& forall|v: Val| #[trigger] dcount(delta, v) == set_ind(elems, v) - set_ind(
                committed,
                v,
            )
        },
        RelState::Indexed { elems, delta, committed } => {
            &&& no_zeros(delta)
            &&& keys_coherent(elems)
            &&& keys_coherent(committed)
            &&& forall|v: Val| #[trigger] dcount(delta, v) == vcount(elems, v) - vcount(
                committed,
                v,
            )
        },
    }
}

/// Room left for one more increment or decrement of the affected counts.
/// Only stream and multiset relations can accumulate unbounded counts; for
/// set-like relations the invariant already bounds every count.
pub open spec fn step_req(s: RelState, upd: Update) -> bool {
    match s {
        RelState::Stream { delta } => match upd {
            Update::Insert { v, .. } => dcount(delta, v) < i64::MAX,
            Update::DeleteValue { v, .. } => dcount(delta, v) > i64::MIN,
            _ => true,
        },
        RelState::Mset { elems, delta, .. } => match upd {
            Update::Insert { v, .. } => dcount(delta, v) < i64::MAX && dcount(elems, v)
                < i64::MAX,
            Update::DeleteValue { v, .. } => dcount(delta, v) > i64::MIN && dcount(elems, v)
                > i64::MIN,
            _ => true,
        },
        RelState::Flat { .. } => true,
        RelState::Indexed { .. } => true,
    }
}

/// Outcome of one update against one relation state.
pub struct StepOut {
    /// The state after the update.
    pub state: RelState,
    /// The updates forwarded to the dataflow: exactly those that change the
    /// relation, with replacements expanded to a retraction and an insertion.
    pub emit: Seq<Update>,
    /// The diagnostic message when the update is rejected; a rejected update
    /// leaves the state unchanged and forwards nothing.
    pub err: Option<Seq<char>>,
}

pub open spec fn msg_no_key_insert_or_update() -> Seq<char> {
    "Cannot perform insert_or_update operation on a relation that does not have a primary key"@
}

pub open spec fn msg_no_key_delete_key() -> Seq<char> {
    "Cannot delete by key from a relation that does not have a primary key"@
}

pub open spec fn msg_no_key_modify() -> Seq<char> {
    "Cannot modify a record in a relation that does not have a primary key"@
}

pub open spec fn msg_duplicate_key() -> Seq<char> {
    "Insert: duplicate key"@
}

pub open spec fn msg_value_mismatch() -> Seq<char> {
    "DeleteValue: key exists but with a different value"@
}

pub open spec fn msg_delete_value_key_not_found() -> Seq<char> {
    "DeleteValue: key not found"@
}

pub open spec fn msg_delete_key_not_found() -> Seq<char> {
    "DeleteKey: key not found"@
}

pub open spec fn msg_modify_key_not_found() -> Seq<char> {
    "Modify: key not found"@
}

/// Unchanged state, nothing forwarded, one diagnostic.
pub open spec fn step_err(s: RelState, m: Seq<char>) -> StepOut {
    StepOut { state: s, emit: Seq::empty(), err: Some(m) }
}

/// The meaning of one client update against one relation.
pub open spec fn step(s: RelState, upd: Update) -> StepOut {
    match s {
        RelState::Stream { delta } => match upd {
            Update::Insert { v, .. } => StepOut {
                state: RelState::Stream { delta: minc(delta, v) },
                emit: seq![upd],
                err: None,
            },
            Update::DeleteValue { v, .. } => StepOut {
                state: RelState::Stream { delta: mdec(delta, v) },
                emit: seq![upd],
                err: None,
            },
            Update::InsertOrUpdate { .. } => step_err(s, msg_no_key_insert_or_update()),
            Update::DeleteKey { .. } => step_err(s, msg_no_key_delete_key()),
        },
        RelState::Mset { elems, delta, committed } => match upd {
            Update::Insert { v, .. } => StepOut {
                state: RelState::Mset {
                    elems: minc(elems, v),
                    delta: minc(delta, v),
                    committed,
                },
                emit: seq![upd],
                err: None,
            },
            Update::DeleteValue { v, .. } => StepOut {
                state: RelState::Mset {
                    elems: mdec(elems, v),
                    delta: mdec(delta, v),
                    committed,
                },
                emit: seq![upd],
                err: None,
            },
            Update::InsertOrUpdate { .. } => step_err(s, msg_no_key_insert_or_update()),
            Update::DeleteKey { .. } => step_err(s, msg_no_key_delete_key()),
        },
        RelState::Flat { elems, delta, committed } => match upd {
            Update::Insert { v, .. } => if elems.contains(v) {
                StepOut { state: s, emit: Seq::empty(), err: None }
            } else {
                StepOut {
                    state: RelState::Flat {
                        elems: elems.insert(v),
                        delta: minc(delta, v),
                        committed,
                    },
                    emit: seq![upd],
                    err: None,
                }
            },
            Update::DeleteValue { v, .. } => if elems.contains(v) {
                StepOut {
                    state: RelState::Flat {
                        elems: elems.remove(v),
                        delta: mdec(delta, v),
                        committed,
                    },
                    emit: seq![upd],
                    err: None,
                }
            } else {
                StepOut { state: s, emit: Seq::empty(), err: None }
            },
            Update::InsertOrUpdate { .. } => step_err(s, msg_no_key_insert_or_update()),
            Update::DeleteKey { .. } => step_err(s, msg_no_key_delete_key()),
        },
        RelState::Indexed { elems, delta, committed } => match upd {
            Update::Insert { relid, v } => if elems.contains_key(spec_key_of(v)) {
                step_err(s, msg_duplicate_key())
            } else {
                StepOut {
                    state: RelState::Indexed {
                        elems: elems.insert(spec_key_of(v), v),
                        delta: minc(delta, v),
                        committed,
                    },
                    emit: seq![Update::Insert { relid, v }],
                    err: None,
                }
            },
            Update::InsertOrUpdate { relid, v } => if elems.contains_key(spec_key_of(v)) {
                let old_v = elems[spec_key_of(v)];
                StepOut {
                    state: RelState::Indexed {
                        elems: elems.insert(spec_key_of(v), v),
                        delta: minc(mdec(delta, old_v), v),
                        committed,
                    },
                    emit: seq![
                        Update::DeleteValue { relid, v: old_v },
                        Update::Insert { relid, v },
                    ],
                    err: None,
                }
            } else {
                StepOut {
                    state: RelState::Indexed {
                        elems: elems.insert(spec_key_of(v), v),
                        delta: minc(delta, v),
                        committed,
                    },
                    emit: seq![Update::Insert { relid, v }],
                    err: None,
                }
            },
            Update::DeleteValue { relid, v } => if elems.contains_key(spec_key_of(v)) {
                if elems[spec_key_of(v)] != v {
                    step_err(s, msg_value_mismatch())
                } else {
                    StepOut {
                        state: RelState::Indexed {
                            elems: elems.remove(spec_key_of(v)),
                            delta: mdec(delta, v),
                            committed,
                        },
                        emit: seq![Update::DeleteValue { relid, v }],
                        err: None,
                    }
                }
            } else {
                step_err(s, msg_delete_value_key_not_found())
            },
            Update::DeleteKey { relid, k } => if elems.contains_key(k) {
                let old_v = elems[k];
                StepOut {
                    state: RelState::Indexed {
                        elems: elems.remove(k),
                        delta: mdec(delta, old_v),
                        committed,
                    },
                    emit: seq![Update::DeleteValue { relid, v: old_v }],
                    err: None,
                }
            } else {
                step_err(s, msg_delete_key_not_found())
            },
        },
    }
}

/// The meaning of an in-place modification of the record stored under key
/// `k` of a keyed relation, where the mutator turned the record into `w`.
/// Mutators must preserve the record's key.
pub open spec fn step_modify(s: RelState, relid: crate::RelId, k: Val, w: Val) -> StepOut {
    match s {
        RelState::Stream { .. } => step_err(s, msg_no_key_modify()),
        RelState::Mset { .. } => step_err(s, msg_no_key_modify()),
        RelState::Flat { .. } => step_err(s, msg_no_key_modify()),
        RelState::Indexed { elems, delta, committed } => if elems.contains_key(k) {
            let old_v = elems[k];
            StepOut {
                state: RelState::Indexed {
                    elems: elems.insert(k, w),
                    delta: minc(mdec(delta, old_v), w),
                    committed,
                },
                emit: seq![Update::DeleteValue { relid, v: old_v }, Update::Insert { relid, v: w }],
                err: None,
            }
        } else {
            step_err(s, msg_modify_key_not_found())
        },
    }
}

/// A step preserves the conservation invariant, never rewrites history
/// (the committed side), and keeps the relation's variant.
pub proof fn lemma_step_inv(s: RelState, upd: Update)
    requires
        rel_inv(s),
        step_req(s, upd),
    ensures
        rel_inv(step(s, upd).state),
        step(s, upd).state is Stream <==> s is Stream,
        step(s, upd).state is Mset <==> s is Mset,
        step(s, upd).state is Flat <==> s is Flat,
        step(s, upd).state is Indexed <==> s is Indexed,
        committed_of(step(s, upd).state) == committed_of(s),
        step(s, upd).err is Some ==> step(s, upd).state == s && step(s, upd).emit == Seq::<
            Update,
        >::empty(),
{
    let out = step(s, upd);
    match s {
        RelState::Stream { delta } => {
            match upd {
                Update::Insert { v, .. } => lemma_minc(delta, v),
                Update::DeleteValue { v, .. } => lemma_mdec(delta, v),
                _ => (),
            }
        },
        RelState::Mset { elems, delta, committed } => {
            match upd {
                Update::Insert { v, .. } => {
                    lemma_minc(delta, v);
                    lemma_minc(elems, v);
                },
                Update::DeleteValue { v, .. } => {
                    lemma_mdec(delta, v);
                    lemma_mdec(elems, v);
                },
                _ => (),
            }
        },
        RelState::Flat { elems, delta, committed } => {
            match upd {
                Update::Insert { v, .. } => {
                    if !elems.contains(v) {
                        assert(dcount(delta, v) == 0 - set_ind(committed, v));
                        lemma_minc(delta, v);
                    }
                },
                Update::DeleteValue { v, .. } => {
                    if elems.contains(v) {
                        assert(dcount(delta, v) == 1 - set_ind(committed, v));
                        lemma_mdec(delta, v);
                    }
                },
                _ => (),
            }
        },
        RelState::Indexed { elems, delta, committed } => {
            lemma_step_inv_indexed(s, upd);
        },
    }
}

/// Invariant preservation for the keyed variant.
proof fn lemma_step_inv_indexed(s: RelState, upd: Update)
    requires
        rel_inv(s),
        s is Indexed,
    ensures
        rel_inv(step(s, upd).state),
{
    let elems = s->Indexed_elems;
    let delta = s->Indexed_delta;
    let committed = s->Indexed_committed;
    assert forall|v: Val| #[trigger] dcount(delta, v) == vcount(elems, v) - vcount(committed, v)
        && -1 <= dcount(delta, v) <= 1 by {}
    match upd {
        Update::Insert { v, .. } => {
            if !elems.contains_key(spec_key_of(v)) {
                lemma_minc(delta, v);
                lemma_vcount_insert(elems, v);
            }
        },
        Update::InsertOrUpdate { v, .. } => {
            if elems.contains_key(spec_key_of(v)) {
                let old_v = elems[spec_key_of(v)];
                assert(dcount(delta, old_v) > i64::MIN);
                lemma_mdec(delta, old_v);
                assert(dcount(delta, v) <= 1);
                assert(dcount(mdec(delta, old_v), v) < i64::MAX);
                lemma_minc(mdec(delta, old_v), v);
                lemma_vcount_replace(elems, v);
            } else {
                lemma_minc(delta, v);
                lemma_vcount_insert(elems, v);
            }
        },
        Update::DeleteValue { v, .. } => {
            if elems.contains_key(spec_key_of(v)) && elems[spec_key_of(v)] == v {
                lemma_mdec(delta, v);
                lemma_vcount_remove(elems, spec_key_of(v));
            }
        },
        Update::DeleteKey { k, .. } => {
            if elems.contains_key(k) {
                lemma_mdec(delta, elems[k]);
                lemma_vcount_remove(elems, k);
            }
        },
    }
}

/// Modification preserves the invariant when the mutator keeps the key.
pub proof fn lemma_step_modify_inv(s: RelState, relid: crate::RelId, k: Val, w: Val)
    requires
        rel_inv(s),
        spec_key_of(w) == k,
    ensures
        rel_inv(step_modify(s, relid, k, w).state),
        committed_of(step_modify(s, relid, k, w).state) == committed_of(s),
        step_modify(s, relid, k, w).err is Some ==> step_modify(s, relid, k, w).state == s,
{
    match s {
        RelState::Indexed { elems, delta, committed } => {
            if elems.contains_key(k) {
                let old_v = elems[k];
                assert(spec_key_of(old_v) == k);
                assert(dcount(delta, old_v) > i64::MIN);
                lemma_mdec(delta, old_v);
                assert(dcount(delta, w) <= 1);
                assert(dcount(mdec(delta, old_v), w) < i64::MAX);
                lemma_minc(mdec(delta, old_v), w);
                lemma_vcount_replace_at(elems, k, w);
            }
        },
        _ => (),
    }
}

/// Record counts after storing a fresh record under its own key.
proof fn lemma_vcount_insert(elems: Map<Val, Val>, v: Val)
    requires
        keys_coherent(elems),
        !elems.contains_key(spec_key_of(v)),
    ensures
        keys_coherent(elems.insert(spec_key_of(v), v)),
        vcount(elems.insert(spec_key_of(v), v), v) == vcount(elems, v) + 1,
        forall|w: Val| w != v ==> #[trigger] vcount(elems.insert(spec_key_of(v), v), w) == vcount(
            elems,
            w,
        ),
{
}

/// Record counts after replacing the record stored under a record's key.
proof fn lemma_vcount_replace(elems: Map<Val, Val>, v: Val)
    requires
        keys_coherent(elems),
        elems.contains_key(spec_key_of(v)),
    ensures
        keys_coherent(elems.insert(spec_key_of(v), v)),
        ({
            let old_v = elems[spec_key_of(v)];
            &&& old_v != v ==> vcount(elems.insert(spec_key_of(v), v), old_v) == vcount(
                elems,
                old_v,
            ) - 1
            &&& old_v != v ==> vcount(elems.insert(spec_key_of(v), v), v) == vcount(elems, v) + 1
            &&& forall|w: Val|
                w != v && w != old_v ==> #[trigger] vcount(elems.insert(spec_key_of(v), v), w)
                    == vcount(elems, w)
        }),
{
}

/// Record counts after replacing the record stored under key `k` by a record
/// with that same key.
proof fn lemma_vcount_replace_at(elems: Map<Val, Val>, k: Val, w: Val)
    requires
        keys_coherent(elems),
        elems.contains_key(k),
        spec_key_of(w) == k,
    ensures
        keys_coherent(elems.insert(k, w)),
        ({
            let old_v = elems[k];
            &&& old_v != w ==> vcount(elems.insert(k, w), old_v) == vcount(elems, old_v) - 1
            &&& old_v != w ==> vcount(elems.insert(k, w), w) == vcount(elems, w) + 1
            &&& forall|u: Val|
                u != w && u != old_v ==> #[trigger] vcount(elems.insert(k, w), u) == vcount(
                    elems,
                    u,
                )
        }),
{
}

/// Record counts after removing the record stored under key `k`.
proof fn lemma_vcount_remove(elems: Map<Val, Val>, k: Val)
    requires
        keys_coherent(elems),
        elems.contains_key(k),
    ensures
        keys_coherent(elems.remove(k)),
        vcount(elems.remove(k), elems[k]) == vcount(elems, elems[k]) - 1,
        forall|w: Val| w != elems[k] ==> #[trigger] vcount(elems.remove(k), w) == vcount(elems, w),
{
}


/// Two coalesced count maps with the same counts are the same map.
pub proof fn lemma_counts_eq(m1: Map<Val, i64>, m2: Map<Val, i64>)
    requires
        no_zeros(m1),
        no_zeros(m2),
        forall|v: Val| #[trigger] dcount(m1, v) == dcount(m2, v),
    ensures
        m1 == m2,
{
    assert forall|v: Val| m1.contains_key(v) <==> m2.contains_key(v) by {
        assert(dcount(m1, v) == dcount(m2, v));
    }
    assert forall|v: Val| #[trigger] m1.contains_key(v) implies m1[v] == m2[v] by {
        assert(dcount(m1, v) == dcount(m2, v));
    }
    assert(m1 =~= m2);
}

/// Two sets with the same membership indicators are the same set.
pub proof fn lemma_inds_eq(s1: Set<Val>, s2: Set<Val>)
    requires
        forall|v: Val| #[trigger] set_ind(s1, v) == set_ind(s2, v),
    ensures
        s1 == s2,
{
    assert forall|v: Val| s1.contains(v) <==> s2.contains(v) by {
        assert(set_ind(s1, v) == set_ind(s2, v));
    }
    assert(s1 =~= s2);
}

/// Two coherent keyed stores with the same record counts are the same map.
pub proof fn lemma_vcounts_eq(m1: Map<Val, Val>, m2: Map<Val, Val>)
    requires
        keys_coherent(m1),
        keys_coherent(m2),
        forall|v: Val| #[trigger] vcount(m1, v) == vcount(m2, v),
    ensures
        m1 == m2,
{
    assert forall|k: Val| #[trigger] m1.contains_key(k) <==> #[trigger] m2.contains_key(k) by {
        if m1.contains_key(k) {
            let v = m1[k];
            assert(spec_key_of(v) == k);
            assert(vcount(m1, v) == 1);
            assert(vcount(m2, v) == 1);
        }
        if m2.contains_key(k) {
            let v = m2[k];
            assert(spec_key_of(v) == k);
            assert(vcount(m2, v) == 1);
            assert(vcount(m1, v) == 1);
        }
    }
    assert forall|k: Val| m1.contains_key(k) implies #[trigger] m1[k] == #[trigger] m2[k] by {
        let v = m1[k];
        assert(spec_key_of(v) == k);
        assert(vcount(m1, v) == 1);
        assert(vcount(m2, v) == 1);
    }
    assert(m1 =~= m2);
}


/// The number of times record `v` occurs on the element side.
pub open spec fn elem_count(s: RelState, v: Val) -> int {
    match s {
        RelState::Stream { .. } => 0,
        RelState::Mset { elems, .. } => dcount(elems, v),
        RelState::Flat { elems, .. } => set_ind(elems, v),
        RelState::Indexed { elems, .. } => vcount(elems, v),
    }
}

/// The state after a commit: the delta side is cleared and the current
/// element side becomes the committed side.
pub open spec fn commit_of(s: RelState) -> RelState {
    match s {
        RelState::Stream { .. } => RelState::Stream { delta: Map::empty() },
        RelState::Mset { elems, .. } => RelState::Mset {
            elems,
            delta: Map::empty(),
            committed: elems,
        },
        RelState::Flat { elems, .. } => RelState::Flat {
            elems,
            delta: Map::empty(),
            committed: elems,
        },
        RelState::Indexed { elems, .. } => RelState::Indexed {
            elems,
            delta: Map::empty(),
            committed: elems,
        },
    }
}


/// Public form of the fresh-insert record-count lemma.
pub proof fn lemma_vcount_insert_pub(elems: Map<Val, Val>, v: Val)
    requires
        keys_coherent(elems),
        !elems.contains_key(spec_key_of(v)),
    ensures
        keys_coherent(elems.insert(spec_key_of(v), v)),
        vcount(elems.insert(spec_key_of(v), v), v) == vcount(elems, v) + 1,
        forall|w: Val| w != v ==> #[trigger] vcount(elems.insert(spec_key_of(v), v), w) == vcount(
            elems,
            w,
        ),
{
    lemma_vcount_insert(elems, v);
}

/// Public form of the removal record-count lemma.
pub proof fn lemma_vcount_remove_pub(elems: Map<Val, Val>, k: Val)
    requires
        keys_coherent(elems),
        elems.contains_key(k),
    ensures
        keys_coherent(elems.remove(k)),
        vcount(elems.remove(k), elems[k]) == vcount(elems, elems[k]) - 1,
        forall|w: Val| w != elems[k] ==> #[trigger] vcount(elems.remove(k), w) == vcount(elems, w),
{
    lemma_vcount_remove(elems, k);
}

/// Machine-limit precondition for clearing a relation: restoring a multiset
/// delta to minus the committed counts must stay within the count type.
pub open spec fn clear_req(s: RelState) -> bool {
    match s {
        RelState::Mset { committed, .. } => forall|v: Val| #[trigger] dcount(committed, v)
            > i64::MIN,
        _ => true,
    }
}

/// The same relation state with its delta side replaced.
pub open spec fn with_delta(s: RelState, d: Map<Val, i64>) -> RelState {
    match s {
        RelState::Stream { .. } => RelState::Stream { delta: d },
        RelState::Mset { elems, committed, .. } => RelState::Mset { elems, delta: d, committed },
        RelState::Flat { elems, committed, .. } => RelState::Flat { elems, delta: d, committed },
        RelState::Indexed { elems, committed, .. } => RelState::Indexed {
            elems,
            delta: d,
            committed,
        },
    }
}

/// The element side at the last commit, as signed counts where applicable.
pub open spec fn committed_of(s: RelState) -> RelState {
    match s {
        RelState::Stream { .. } => RelState::Stream { delta: Map::empty() },
        RelState::Mset { committed, .. } => RelState::Mset {
            elems: committed,
            delta: Map::empty(),
            committed,
        },
        RelState::Flat { committed, .. } => RelState::Flat {
            elems: committed,
            delta: Map::empty(),
            committed,
        },
        RelState::Indexed { committed, .. } => RelState::Indexed {
            elems: committed,
            delta: Map::empty(),
            committed,
        },
    }
}

} // verus!
