//! Laws of the transactional store, proved once and for all.
//!
//! These theorems state the library-wide guarantees of the update semantics
//! over the abstract relation states; the driver's operations are verified
//! against the same [`crate::model::step`] function the theorems speak of.
//! Rollback identity and commit monotonicity are stated directly on the
//! driver: see the postconditions of
//! [`crate::driver::RunningProgram::transaction_rollback`] and
//! [`crate::driver::RunningProgram::transaction_commit`].

use vstd::prelude::*;
use crate::{RelId, Val};
use crate::delta::{dcount, minc, mdec};
use crate::model::{RelState, committed_of, delta_of, elem_count, no_zeros, rel_inv, set_ind,
    step};
use crate::update::Update;

verus! {

/// Delta conservation: in every reachable state of a relation that caches
/// elements, a record's delta count equals its current element count minus
/// its element count at the last commit.
pub proof fn law_delta_conservation(s: RelState, v: Val)
    requires
        rel_inv(s),
        !(s is Stream),
    ensures
        dcount(delta_of(s), v) == elem_count(s, v) - elem_count(committed_of(s), v),
{
}

/// Driver form of delta conservation: it holds of every relation of a
/// well-formed running program.
pub proof fn law_delta_conservation_driver(rp: &crate::driver::RunningProgram, relid: RelId, v: Val)
    requires
        rp.inv(),
        rp.rel_states().contains_key(relid),
        !(rp.rel_states()[relid] is Stream),
    ensures
        dcount(delta_of(rp.rel_states()[relid]), v) == elem_count(rp.rel_states()[relid], v)
            - elem_count(committed_of(rp.rel_states()[relid]), v),
{
    rp.lemma_inv_states();
}

/// Decrementing a count right after incrementing it restores the map, entry
/// coalescing included.
pub proof fn lemma_mdec_minc(m: Map<Val, i64>, v: Val)
    requires
        no_zeros(m),
        dcount(m, v) < i64::MAX,
    ensures
        mdec(minc(m, v), v) == m,
{
    if dcount(m, v) == -1 {
        assert(mdec(minc(m, v), v) =~= m);
    } else if dcount(m, v) == 0 {
        assert(mdec(minc(m, v), v) =~= m);
    } else {
        assert(mdec(minc(m, v), v) =~= m);
    }
}

/// Set idempotence: on a flat-set relation, inserting a record twice leaves
/// exactly the state one insert leaves, and the second insert forwards
/// nothing to the dataflow.
pub proof fn law_set_idempotence(s: RelState, relid: RelId, v: Val)
    requires
        rel_inv(s),
        s is Flat,
    ensures
        step(step(s, Update::Insert { relid, v }).state, Update::Insert { relid, v }).state
            == step(s, Update::Insert { relid, v }).state,
        step(step(s, Update::Insert { relid, v }).state, Update::Insert { relid, v }).emit
            == Seq::<Update>::empty(),
{
    let s1 = step(s, Update::Insert { relid, v }).state;
    assert(s1->Flat_elems.contains(v));
}

/// Set idempotence against the committed state: right after a commit,
/// inserting a record the relation already holds changes nothing and
/// contributes nothing to the delta.
pub proof fn law_set_insert_committed(s: RelState, relid: RelId, v: Val)
    requires
        rel_inv(s),
        s is Flat,
        delta_of(s) == Map::<Val, i64>::empty(),
        s->Flat_committed.contains(v),
    ensures
        step(s, Update::Insert { relid, v }).state == s,
        step(s, Update::Insert { relid, v }).emit == Seq::<Update>::empty(),
        delta_of(step(s, Update::Insert { relid, v }).state) == Map::<Val, i64>::empty(),
{
    assert(dcount(delta_of(s), v) == 0);
    assert(set_ind(s->Flat_elems, v) == set_ind(s->Flat_committed, v));
    assert(s->Flat_elems.contains(v));
}

/// Delete–insert cancellation, absent case: inserting a record a flat-set
/// relation does not hold and deleting it again restores the state exactly;
/// in particular a delta that was empty is empty again.
pub proof fn law_delete_insert_cancellation_absent(s: RelState, relid: RelId, v: Val)
    requires
        rel_inv(s),
        s is Flat,
        !s->Flat_elems.contains(v),
    ensures
        step(step(s, Update::Insert { relid, v }).state, Update::DeleteValue { relid, v }).state
            == s,
{
    let s1 = step(s, Update::Insert { relid, v }).state;
    assert(dcount(delta_of(s), v) == 0 - set_ind(s->Flat_committed, v));
    assert(dcount(delta_of(s), v) < i64::MAX);
    lemma_mdec_minc(s->Flat_delta, v);
    let s2 = step(s1, Update::DeleteValue { relid, v }).state;
    assert(s2->Flat_elems =~= s->Flat_elems);
    assert(s2->Flat_delta =~= s->Flat_delta);
    assert(s2 == s);
}

/// Delete–insert cancellation on a multiset relation: deleting a record
/// right after inserting it restores the state exactly, elements and delta
/// both.
pub proof fn law_mset_insert_delete_cancellation(s: RelState, relid: RelId, v: Val)
    requires
        rel_inv(s),
        s is Mset,
        crate::model::step_req(s, Update::Insert { relid, v }),
    ensures
        step(step(s, Update::Insert { relid, v }).state, Update::DeleteValue { relid, v }).state
            == s,
{
    lemma_mdec_minc(s->Mset_elems, v);
    lemma_mdec_minc(s->Mset_delta, v);
}

/// Delete–insert cancellation, present case: when the record was inserted by
/// the current transaction, inserting it again is a no-op and deleting it
/// leaves the record's delta count at zero with no stored entry.
pub proof fn law_delete_insert_cancellation_present(s: RelState, relid: RelId, v: Val)
    requires
        rel_inv(s),
        s is Flat,
        s->Flat_elems.contains(v),
        dcount(delta_of(s), v) == 1,
    ensures
        ({
            let s2 = step(step(s, Update::Insert { relid, v }).state, Update::DeleteValue {
                relid,
                v,
            }).state;
            &&& dcount(delta_of(s2), v) == 0
            &&& !delta_of(s2).contains_key(v)
            &&& !s2->Flat_elems.contains(v)
        }),
{
    let s1 = step(s, Update::Insert { relid, v }).state;
    assert(s1 == s);
}

} // verus!
