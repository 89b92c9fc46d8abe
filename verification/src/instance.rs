//! Runtime state of one input relation.
//!
//! A [`RelationInstance`] holds the element side and the delta side of an
//! input relation, in one of four variants chosen by the relation's caching
//! mode.  Every mutation is verified against the abstract transition
//! [`crate::model::step`], and every variant maintains the conservation
//! invariant: a record's delta count equals its element count minus its
//! element count at the last commit.

use vstd::prelude::*;
use crate::{RelId, Val, key_of, spec_key_of};
use crate::delta::{DeltaSet, dcount, delta_inc, delta_dec, lemma_mdec};
use crate::kv::{KvMap, KvSet};
use crate::model::{RelState, rel_inv, step, step_req, lemma_step_inv, set_ind, vcount};
use crate::update::Update;

verus! {

/// Runtime representation of one input relation.
#[allow(inconsistent_fields)]
pub enum RelationInstance {
    /// Forwards every update; keeps no elements.
    Stream { delta: DeltaSet },
    /// Generalized multiset of records with signed counts.
    Mset { elements: DeltaSet, delta: DeltaSet, committed: Ghost<Map<Val, i64>> },
    /// Set of records; repeated inserts and deletes of absent records are
    /// no-ops.
    Flat { elements: KvSet, delta: DeltaSet, committed: Ghost<Set<Val>> },
    /// Records stored under their unique key half.
    Indexed { elements: KvMap<Val>, delta: DeltaSet, committed: Ghost<Map<Val, Val>> },
}

impl RelationInstance {
    /// The abstract state this instance denotes.
    pub open spec fn view(&self) -> RelState {
        match self {
            RelationInstance::Stream { delta } => RelState::Stream { delta: delta@ },
            RelationInstance::Mset { elements, delta, committed } => RelState::Mset {
                elems: elements@,
                delta: delta@,
                committed: committed@,
            },
            RelationInstance::Flat { elements, delta, committed } => RelState::Flat {
                elems: elements@,
                delta: delta@,
                committed: committed@,
            },
            RelationInstance::Indexed { elements, delta, committed } => RelState::Indexed {
                elems: elements@,
                delta: delta@,
                committed: committed@,
            },
        }
    }

    /// Containers are well-formed and the conservation invariant holds.
    pub open spec fn inv(&self) -> bool {
        &&& match self {
            RelationInstance::Stream { delta } => delta.wf(),
            RelationInstance::Mset { elements, delta, .. } => elements.wf() && delta.wf(),
            RelationInstance::Flat { elements, delta, .. } => elements.wf() && delta.wf(),
            RelationInstance::Indexed { elements, delta, .. } => elements.wf() && delta.wf(),
        }
        &&& rel_inv(self.view())
    }

    /// The delta side: changes since the start of the transaction.
    pub fn delta(&self) -> (d: &DeltaSet)
        ensures
            d@ == crate::model::delta_of(self.view()),
    {
        match self {
            RelationInstance::Stream { delta } => delta,
            RelationInstance::Mset { delta, .. } => delta,
            RelationInstance::Flat { delta, .. } => delta,
            RelationInstance::Indexed { delta, .. } => delta,
        }
    }

    /// Mutable access to the delta side.  The caller is responsible for
    /// re-establishing the conservation invariant.
    pub fn delta_mut(&mut self) -> (d: &mut DeltaSet)
        ensures
            (*d)@ == crate::model::delta_of(old(self)@),
            final(self)@ == crate::model::with_delta(old(self)@, final(d)@),
            (old(self).inv() && final(d).wf() && rel_inv(final(self)@)) ==> final(self).inv(),
    {
        match self {
            RelationInstance::Stream { delta } => delta,
            RelationInstance::Mset { delta, .. } => delta,
            RelationInstance::Flat { delta, .. } => delta,
            RelationInstance::Indexed { delta, .. } => delta,
        }
    }

    /// Whether the delta side is empty, as it must be between transactions.
    pub fn delta_is_empty(&self) -> (r: bool)
        requires
            self.inv(),
        ensures
            r <==> crate::model::delta_of(self.view()) == Map::<Val, i64>::empty(),
    {
        match self {
            RelationInstance::Stream { delta } => delta.is_empty(),
            RelationInstance::Mset { delta, .. } => delta.is_empty(),
            RelationInstance::Flat { delta, .. } => delta.is_empty(),
            RelationInstance::Indexed { delta, .. } => delta.is_empty(),
        }
    }

    /// Apply one client update, forwarding the induced dataflow updates.
    ///
    /// The exact meaning, including every rejection, is given by
    /// [`crate::model::step`].
    pub fn apply_one(&mut self, upd: Update, updates: &mut Vec<Update>) -> (r: crate::Response<()>)
        requires
            old(self).inv(),
            step_req(old(self)@, upd),
        ensures
            final(self).inv(),
            final(self)@ == step(old(self)@, upd).state,
            final(updates)@ == old(updates)@ + step(old(self)@, upd).emit,
            match r {
                Ok(()) => step(old(self)@, upd).err is None,
                Err(e) => step(old(self)@, upd).err == Some(e@),
            },
    {
        proof {
            lemma_step_inv(old(self)@, upd);
        }
        match self {
            RelationInstance::Stream { delta } => Self::stream_update(delta, upd, updates),
            RelationInstance::Mset { elements, delta, committed } => Self::mset_update(
                elements,
                delta,
                Ghost(committed@),
                upd,
                updates,
            ),
            RelationInstance::Flat { elements, delta, committed } => Self::set_update(
                elements,
                delta,
                Ghost(committed@),
                upd,
                updates,
            ),
            RelationInstance::Indexed { elements, delta, committed } => Self::indexed_set_update(
                elements,
                delta,
                Ghost(committed@),
                upd,
                updates,
            ),
        }
    }

    /// Update the delta side of a stream relation: every accepted update is
    /// forwarded without deduplication.
    fn stream_update(ds: &mut DeltaSet, upd: Update, updates: &mut Vec<Update>) -> (r: crate::Response<()>)
        requires
            old(ds).wf(),
            step_req(RelState::Stream { delta: old(ds)@ }, upd),
            crate::model::no_zeros(old(ds)@),
        ensures
            final(ds).wf(),
            ({
                let out = step(RelState::Stream { delta: old(ds)@ }, upd);
                &&& RelState::Stream { delta: final(ds)@ } == out.state
                &&& final(updates)@ == old(updates)@ + out.emit
                &&& match r {
                    Ok(()) => out.err is None,
                    Err(e) => out.err == Some(e@),
                }
            }),
    {
        match upd {
            Update::Insert { v, .. } => {
                delta_inc(ds, v);
                updates.push(upd);
                Ok(())
            },
            Update::DeleteValue { v, .. } => {
                delta_dec(ds, v);
                updates.push(upd);
                Ok(())
            },
            Update::InsertOrUpdate { .. } => {
                proof {
                    assert(final(updates)@ =~= old(updates)@ + Seq::<Update>::empty());
                }
                Err("Cannot perform insert_or_update operation on a relation that does not have a primary key".to_owned())
            },
            Update::DeleteKey { .. } => {
                proof {
                    assert(final(updates)@ =~= old(updates)@ + Seq::<Update>::empty());
                }
                Err("Cannot delete by key from a relation that does not have a primary key".to_owned())
            },
        }
    }

    /// Update the element and delta sides of a multiset relation.
    fn mset_update(
        s: &mut DeltaSet,
        ds: &mut DeltaSet,
        committed: Ghost<Map<Val, i64>>,
        upd: Update,
        updates: &mut Vec<Update>,
    ) -> (r: crate::Response<()>)
        requires
            old(s).wf(),
            old(ds).wf(),
            rel_inv(RelState::Mset { elems: old(s)@, delta: old(ds)@, committed: committed@ }),
            step_req(
                RelState::Mset { elems: old(s)@, delta: old(ds)@, committed: committed@ },
                upd,
            ),
        ensures
            final(s).wf(),
            final(ds).wf(),
            ({
                let out = step(
                    RelState::Mset { elems: old(s)@, delta: old(ds)@, committed: committed@ },
                    upd,
                );
                &&& RelState::Mset {
                    elems: final(s)@,
                    delta: final(ds)@,
                    committed: committed@,
                } == out.state
                &&& final(updates)@ == old(updates)@ + out.emit
                &&& match r {
                    Ok(()) => out.err is None,
                    Err(e) => out.err == Some(e@),
                }
            }),
    {
        match upd {
            Update::Insert { v, .. } => {
                delta_inc(s, v);
                delta_inc(ds, v);
                updates.push(upd);
                Ok(())
            },
            Update::DeleteValue { v, .. } => {
                delta_dec(s, v);
                delta_dec(ds, v);
                updates.push(upd);
                Ok(())
            },
            Update::InsertOrUpdate { .. } => {
                proof {
                    assert(final(updates)@ =~= old(updates)@ + Seq::<Update>::empty());
                }
                Err("Cannot perform insert_or_update operation on a relation that does not have a primary key".to_owned())
            },
            Update::DeleteKey { .. } => {
                proof {
                    assert(final(updates)@ =~= old(updates)@ + Seq::<Update>::empty());
                }
                Err("Cannot delete by key from a relation that does not have a primary key".to_owned())
            },
        }
    }

    /// Update the element and delta sides of a flat-set relation: repeated
    /// inserts and deletes of absent records are no-ops and are not
    /// forwarded.
    fn set_update(
        s: &mut KvSet,
        ds: &mut DeltaSet,
        committed: Ghost<Set<Val>>,
        upd: Update,
        updates: &mut Vec<Update>,
    ) -> (r: crate::Response<()>)
        requires
            old(s).wf(),
            old(ds).wf(),
            rel_inv(RelState::Flat { elems: old(s)@, delta: old(ds)@, committed: committed@ }),
        ensures
            final(s).wf(),
            final(ds).wf(),
            ({
                let out = step(
                    RelState::Flat { elems: old(s)@, delta: old(ds)@, committed: committed@ },
                    upd,
                );
                &&& RelState::Flat {
                    elems: final(s)@,
                    delta: final(ds)@,
                    committed: committed@,
                } == out.state
                &&& final(updates)@ == old(updates)@ + out.emit
                &&& match r {
                    Ok(()) => out.err is None,
                    Err(e) => out.err == Some(e@),
                }
            }),
    {
        match upd {
            Update::Insert { v, .. } => {
                proof {
                    assert(dcount(old(ds)@, v) <= 1);
                }
                let added = s.insert(v);
                if added {
                    delta_inc(ds, v);
                    updates.push(upd);
                    proof {
                        assert(final(s)@ =~= old(s)@.insert(v));
                    }
                } else {
                    proof {
                        assert(final(s)@ =~= old(s)@);
                        assert(final(updates)@ =~= old(updates)@ + Seq::<Update>::empty());
                    }
                }
                Ok(())
            },
            Update::DeleteValue { v, .. } => {
                proof {
                    assert(dcount(old(ds)@, v) >= -1);
                }
                let present = s.remove(v);
                if present {
                    delta_dec(ds, v);
                    updates.push(upd);
                } else {
                    proof {
                        assert(final(s)@ =~= old(s)@);
                        assert(final(updates)@ =~= old(updates)@ + Seq::<Update>::empty());
                    }
                }
                Ok(())
            },
            Update::InsertOrUpdate { .. } => {
                proof {
                    assert(final(updates)@ =~= old(updates)@ + Seq::<Update>::empty());
                }
                Err("Cannot perform insert_or_update operation on a relation that does not have a primary key".to_owned())
            },
            Update::DeleteKey { .. } => {
                proof {
                    assert(final(updates)@ =~= old(updates)@ + Seq::<Update>::empty());
                }
                Err("Cannot delete by key from a relation that does not have a primary key".to_owned())
            },
        }
    }

    /// Update the element and delta sides of a keyed relation.  A plain
    /// insert requires the record's key to be fresh; deletions require the
    /// key to be present, and deleting by value also requires the stored
    /// record to equal the given one.
    fn indexed_set_update(
        s: &mut KvMap<Val>,
        ds: &mut DeltaSet,
        committed: Ghost<Map<Val, Val>>,
        upd: Update,
        updates: &mut Vec<Update>,
    ) -> (r: crate::Response<()>)
        requires
            old(s).wf(),
            old(ds).wf(),
            rel_inv(RelState::Indexed { elems: old(s)@, delta: old(ds)@, committed: committed@ }),
        ensures
            final(s).wf(),
            final(ds).wf(),
            ({
                let out = step(
                    RelState::Indexed { elems: old(s)@, delta: old(ds)@, committed: committed@ },
                    upd,
                );
                &&& RelState::Indexed {
                    elems: final(s)@,
                    delta: final(ds)@,
                    committed: committed@,
                } == out.state
                &&& final(updates)@ == old(updates)@ + out.emit
                &&& match r {
                    Ok(()) => out.err is None,
                    Err(e) => out.err == Some(e@),
                }
            }),
    {
        match upd {
            Update::Insert { relid, v } => {
                let k = key_of(v);
                if s.contains_key(k) {
                    proof {
                        assert(final(updates)@ =~= old(updates)@ + Seq::<Update>::empty());
                    }
                    Err("Insert: duplicate key".to_owned())
                } else {
                    proof {
                        assert(dcount(old(ds)@, v) <= 1);
                    }
                    s.insert(k, v);
                    delta_inc(ds, v);
                    updates.push(upd);
                    Ok(())
                }
            },
            Update::InsertOrUpdate { relid, v } => {
                let k = key_of(v);
                match s.get(k) {
                    Some(old_v) => {
                        proof {
                            assert(dcount(old(ds)@, old_v) >= -1);
                            assert(dcount(old(ds)@, v) <= 1);
                        }
                        delta_dec(ds, old_v);
                        proof {
                            lemma_mdec(old(ds)@, old_v);
                            assert(dcount(ds@, v) < i64::MAX);
                        }
                        updates.push(Update::DeleteValue { relid, v: old_v });
                        delta_inc(ds, v);
                        updates.push(Update::Insert { relid, v });
                        s.insert(k, v);
                        Ok(())
                    },
                    None => {
                        proof {
                            assert(dcount(old(ds)@, v) <= 1);
                        }
                        s.insert(k, v);
                        delta_inc(ds, v);
                        updates.push(Update::Insert { relid, v });
                        Ok(())
                    },
                }
            },
            Update::DeleteValue { relid, v } => {
                let k = key_of(v);
                match s.get(k) {
                    Some(old_v) => {
                        if old_v != v {
                            proof {
                                assert(final(updates)@ =~= old(updates)@ + Seq::<Update>::empty());
                            }
                            Err("DeleteValue: key exists but with a different value".to_owned())
                        } else {
                            proof {
                                assert(dcount(old(ds)@, v) >= -1);
                            }
                            delta_dec(ds, v);
                            s.remove(k);
                            updates.push(upd);
                            Ok(())
                        }
                    },
                    None => {
                        proof {
                            assert(final(updates)@ =~= old(updates)@ + Seq::<Update>::empty());
                        }
                        Err("DeleteValue: key not found".to_owned())
                    },
                }
            },
            Update::DeleteKey { relid, k } => {
                match s.get(k) {
                    Some(old_v) => {
                        proof {
                            assert(dcount(old(ds)@, old_v) >= -1);
                        }
                        delta_dec(ds, old_v);
                        s.remove(k);
                        updates.push(Update::DeleteValue { relid, v: old_v });
                        Ok(())
                    },
                    None => {
                        proof {
                            assert(final(updates)@ =~= old(updates)@ + Seq::<Update>::empty());
                        }
                        Err("DeleteKey: key not found".to_owned())
                    },
                }
            },
        }
    }

    /// Forget the transaction's deltas after a successful commit: the
    /// current element side becomes the committed baseline.
    pub fn commit_deltas(&mut self)
        requires
            old(self).inv(),
        ensures
            final(self).inv(),
            final(self)@ == crate::model::commit_of(old(self)@),
    {
        match self {
            RelationInstance::Stream { delta } => {
                delta.clear();
            },
            RelationInstance::Mset { elements, delta, committed } => {
                delta.clear();
                *committed = Ghost(elements@);
            },
            RelationInstance::Flat { elements, delta, committed } => {
                delta.clear();
                *committed = Ghost(elements@);
            },
            RelationInstance::Indexed { elements, delta, committed } => {
                delta.clear();
                *committed = Ghost(elements@);
            },
        }
    }

    /// Undo the current transaction on this relation: restore the element
    /// side to the committed baseline, empty the delta side, and return the
    /// inverse update stream to forward to the dataflow.
    pub fn undo(&mut self, relid: RelId) -> (r: Vec<Update>)
        requires
            old(self).inv(),
        ensures
            final(self).inv(),
            final(self)@ == crate::model::committed_of(old(self)@),
            undo_stream_ok(r@, relid, crate::model::delta_of(old(self)@)),
    {
        match self {
            RelationInstance::Stream { delta } => {
                let ups = delta_undo_updates(relid, delta);
                delta.clear();
                ups
            },
            RelationInstance::Mset { elements, delta, committed } => Self::undo_mset(
                elements,
                delta,
                Ghost(committed@),
                relid,
            ),
            RelationInstance::Flat { elements, delta, committed } => Self::undo_flat(
                elements,
                delta,
                Ghost(committed@),
                relid,
            ),
            RelationInstance::Indexed { elements, delta, committed } => Self::undo_indexed(
                elements,
                delta,
                Ghost(committed@),
                relid,
            ),
        }
    }

    /// Undo a transaction on a flat-set relation.
    fn undo_flat(s: &mut KvSet, ds: &mut DeltaSet, committed: Ghost<Set<Val>>, relid: RelId) -> (r: Vec<Update>)
        requires
            old(s).wf(),
            old(ds).wf(),
            rel_inv(RelState::Flat { elems: old(s)@, delta: old(ds)@, committed: committed@ }),
        ensures
            final(s).wf(),
            final(ds).wf(),
            final(s)@ == committed@,
            final(ds)@ == Map::<Val, i64>::empty(),
            undo_stream_ok(r@, relid, old(ds)@),
    {
        let r = delta_undo_updates(relid, ds);
        let n = ds.len();
        let mut i: usize = 0;
        while i < n
            invariant
                s.wf(),
                ds.wf(),
                *ds == *old(ds),
                rel_inv(
                    RelState::Flat { elems: old(s)@, delta: old(ds)@, committed: committed@ },
                ),
                n == ds.spec_len(),
                i <= n,
                forall|u: Val|
                    ds.key_seq().take(i as int).contains(u) ==> #[trigger] set_ind(s@, u)
                        == set_ind(committed@, u),
                forall|u: Val|
                    !ds.key_seq().take(i as int).contains(u) ==> #[trigger] set_ind(s@, u)
                        == set_ind(old(s)@, u),
            decreases n - i,
        {
            proof {
                ds.lemma_view();
                lemma_prefix_fresh(ds.key_seq(), i as int);
            }
            let v = ds.key_at(i);
            let w = ds.val_at(i);
            proof {
                assert(dcount(ds@, v) == w);
                assert(set_ind(s@, v) == set_ind(old(s)@, v));
                assert(w == set_ind(old(s)@, v) - set_ind(committed@, v));
            }
            let ghost s_pre = s@;
            if w > 0 {
                s.remove(v);
            } else {
                s.insert(v);
            }
            proof {
                assert(ds.key_seq().take(i as int + 1) =~= ds.key_seq().take(i as int).push(v));
                assert(ds.key_seq().take(i as int + 1)[i as int] == v);
                assert forall|u: Val| u != v implies (ds.key_seq().take(i as int + 1).contains(u)
                    <==> ds.key_seq().take(i as int).contains(u)) by {}
                assert forall|u: Val| u != v implies #[trigger] set_ind(s@, u) == set_ind(
                    s_pre,
                    u,
                ) by {}
                assert(set_ind(s@, v) == set_ind(committed@, v));
            }
            i += 1;
        }
        proof {
            ds.lemma_view();
            assert(ds.key_seq().take(n as int) =~= ds.key_seq());
            assert forall|u: Val| #[trigger] set_ind(s@, u) == set_ind(committed@, u) by {
                if ds@.contains_key(u) {
                    let p = choose|p: int|
                        0 <= p < ds.key_seq().len() && #[trigger] ds.key_seq()[p] == u;
                    assert(ds.key_seq().contains(u));
                } else {
                    assert(dcount(ds@, u) == 0);
                    if ds.key_seq().contains(u) {
                        let p = choose|p: int|
                            0 <= p < ds.key_seq().len() && #[trigger] ds.key_seq()[p] == u;
                        assert(ds@.contains_key(u));
                    }
                }
            }
            crate::model::lemma_inds_eq(s@, committed@);
        }
        ds.clear();
        r
    }

    /// Undo a transaction on a multiset relation.
    fn undo_mset(
        s: &mut DeltaSet,
        ds: &mut DeltaSet,
        committed: Ghost<Map<Val, i64>>,
        relid: RelId,
    ) -> (r: Vec<Update>)
        requires
            old(s).wf(),
            old(ds).wf(),
            rel_inv(RelState::Mset { elems: old(s)@, delta: old(ds)@, committed: committed@ }),
        ensures
            final(s).wf(),
            final(ds).wf(),
            final(s)@ == committed@,
            final(ds)@ == Map::<Val, i64>::empty(),
            undo_stream_ok(r@, relid, old(ds)@),
    {
        let r = delta_undo_updates(relid, ds);
        let n = ds.len();
        let mut i: usize = 0;
        while i < n
            invariant
                s.wf(),
                ds.wf(),
                *ds == *old(ds),
                rel_inv(
                    RelState::Mset { elems: old(s)@, delta: old(ds)@, committed: committed@ },
                ),
                n == ds.spec_len(),
                i <= n,
                crate::model::no_zeros(s@),
                forall|u: Val|
                    ds.key_seq().take(i as int).contains(u) ==> #[trigger] dcount(s@, u)
                        == dcount(committed@, u),
                forall|u: Val|
                    !ds.key_seq().take(i as int).contains(u) ==> #[trigger] dcount(s@, u)
                        == dcount(old(s)@, u),
            decreases n - i,
        {
            proof {
                ds.lemma_view();
                lemma_prefix_fresh(ds.key_seq(), i as int);
            }
            let v = ds.key_at(i);
            let w = ds.val_at(i);
            proof {
                assert(dcount(ds@, v) == w);
                assert(dcount(s@, v) == dcount(old(s)@, v));
                assert(w == dcount(old(s)@, v) - dcount(committed@, v));
            }
            let cur: i64 = match s.get(v) {
                Some(c) => c,
                None => 0,
            };
            proof {
                assert(cur == dcount(s@, v));
                assert(cur - w == dcount(committed@, v));
            }
            let nw = cur - w;
            let ghost s_pre = s@;
            if nw == 0 {
                s.remove(v);
            } else {
                s.insert(v, nw);
            }
            proof {
                assert(ds.key_seq().take(i as int + 1) =~= ds.key_seq().take(i as int).push(v));
                assert(ds.key_seq().take(i as int + 1)[i as int] == v);
                assert forall|u: Val| u != v implies (ds.key_seq().take(i as int + 1).contains(u)
                    <==> ds.key_seq().take(i as int).contains(u)) by {}
                assert forall|u: Val| u != v implies #[trigger] dcount(s@, u) == dcount(
                    s_pre,
                    u,
                ) by {}
                assert(dcount(s@, v) == dcount(committed@, v));
            }
            i += 1;
        }
        proof {
            ds.lemma_view();
            assert(ds.key_seq().take(n as int) =~= ds.key_seq());
            assert forall|u: Val| #[trigger] dcount(s@, u) == dcount(committed@, u) by {
                if ds@.contains_key(u) {
                    let p = choose|p: int|
                        0 <= p < ds.key_seq().len() && #[trigger] ds.key_seq()[p] == u;
                    assert(ds.key_seq().contains(u));
                } else {
                    assert(dcount(ds@, u) == 0);
                    if ds.key_seq().contains(u) {
                        let p = choose|p: int|
                            0 <= p < ds.key_seq().len() && #[trigger] ds.key_seq()[p] == u;
                        assert(ds@.contains_key(u));
                    }
                }
            }
            crate::model::lemma_counts_eq(s@, committed@);
        }
        ds.clear();
        r
    }

    /// Undo a transaction on a keyed relation.  Records added by the
    /// transaction are removed first, and records it removed are then
    /// reinserted, so no insertion can meet an occupied key.
    fn undo_indexed(
        s: &mut KvMap<Val>,
        ds: &mut DeltaSet,
        committed: Ghost<Map<Val, Val>>,
        relid: RelId,
    ) -> (r: Vec<Update>)
        requires
            old(s).wf(),
            old(ds).wf(),
            rel_inv(RelState::Indexed { elems: old(s)@, delta: old(ds)@, committed: committed@ }),
        ensures
            final(s).wf(),
            final(ds).wf(),
            final(s)@ == committed@,
            final(ds)@ == Map::<Val, i64>::empty(),
            undo_stream_ok(r@, relid, old(ds)@),
    {
        let r = delta_undo_updates(relid, ds);
        let n = ds.len();
        let mut i: usize = 0;
        while i < n
            invariant
                s.wf(),
                ds.wf(),
                *ds == *old(ds),
                rel_inv(
                    RelState::Indexed { elems: old(s)@, delta: old(ds)@, committed: committed@ },
                ),
                n == ds.spec_len(),
                i <= n,
                crate::model::keys_coherent(s@),
                forall|u: Val|
                    ds.key_seq().take(i as int).contains(u) && dcount(old(ds)@, u) > 0
                        ==> #[trigger] vcount(s@, u) == 0,
                forall|u: Val|
                    !(ds.key_seq().take(i as int).contains(u) && dcount(old(ds)@, u) > 0)
                        ==> #[trigger] vcount(s@, u) == vcount(old(s)@, u),
            decreases n - i,
        {
            proof {
                ds.lemma_view();
                lemma_prefix_fresh(ds.key_seq(), i as int);
            }
            let v = ds.key_at(i);
            let w = ds.val_at(i);
            proof {
                assert(dcount(ds@, v) == w);
                assert(w == vcount(old(s)@, v) - vcount(committed@, v));
            }
            let ghost s_pre = s@;
            if w > 0 {
                proof {
                    assert(vcount(s@, v) == vcount(old(s)@, v));
                    assert(vcount(old(s)@, v) == 1);
                    assert(s@.contains_key(spec_key_of(v)) && s@[spec_key_of(v)] == v);
                    crate::model::lemma_vcount_remove_pub(s@, spec_key_of(v));
                }
                s.remove(key_of(v));
            }
            proof {
                assert(ds.key_seq().take(i as int + 1) =~= ds.key_seq().take(i as int).push(v));
                assert(ds.key_seq().take(i as int + 1)[i as int] == v);
                assert forall|u: Val| u != v implies (ds.key_seq().take(i as int + 1).contains(u)
                    <==> ds.key_seq().take(i as int).contains(u)) by {}
                assert forall|u: Val| u != v implies #[trigger] vcount(s@, u) == vcount(
                    s_pre,
                    u,
                ) by {}
            }
            i += 1;
        }
        let ghost s_mid = s@;
        proof {
            ds.lemma_view();
            assert(ds.key_seq().take(n as int) =~= ds.key_seq());
            assert forall|u: Val| dcount(old(ds)@, u) > 0 implies #[trigger] vcount(s_mid, u)
                == 0 by {
                assert(old(ds)@.contains_key(u));
                let p = choose|p: int|
                    0 <= p < ds.key_seq().len() && #[trigger] ds.key_seq()[p] == u;
                assert(ds.key_seq().contains(u));
            }
        }
        let mut i2: usize = 0;
        while i2 < n
            invariant
                s.wf(),
                ds.wf(),
                *ds == *old(ds),
                rel_inv(
                    RelState::Indexed { elems: old(s)@, delta: old(ds)@, committed: committed@ },
                ),
                n == ds.spec_len(),
                i2 <= n,
                crate::model::keys_coherent(s@),
                forall|u: Val| dcount(old(ds)@, u) > 0 ==> #[trigger] vcount(s@, u) == 0,
                forall|u: Val|
                    dcount(old(ds)@, u) <= 0 && ds.key_seq().take(i2 as int).contains(u)
                        ==> #[trigger] vcount(s@, u) == vcount(committed@, u),
                forall|u: Val|
                    dcount(old(ds)@, u) <= 0 && !ds.key_seq().take(i2 as int).contains(u)
                        ==> #[trigger] vcount(s@, u) == vcount(old(s)@, u),
            decreases n - i2,
        {
            proof {
                ds.lemma_view();
                lemma_prefix_fresh(ds.key_seq(), i2 as int);
            }
            let v = ds.key_at(i2);
            let w = ds.val_at(i2);
            proof {
                assert(dcount(ds@, v) == w);
                assert(w == vcount(old(s)@, v) - vcount(committed@, v));
            }
            let ghost s_pre = s@;
            if w < 0 {
                proof {
                    assert(vcount(old(s)@, v) == 0 && vcount(committed@, v) == 1);
                    assert(vcount(s@, v) == 0);
                    let k = spec_key_of(v);
                    assert(committed@.contains_key(k) && committed@[k] == v);
                    if s@.contains_key(k) {
                        let u = s@[k];
                        assert(spec_key_of(u) == k);
                        assert(vcount(s@, u) == 1);
                        if dcount(old(ds)@, u) > 0 {
                            assert(false);
                        } else if ds.key_seq().take(i2 as int).contains(u) {
                            assert(vcount(s@, u) == vcount(committed@, u));
                            assert(committed@[k] == u);
                            assert(u == v);
                            assert(false);
                        } else {
                            assert(vcount(s@, u) == vcount(old(s)@, u));
                            assert(dcount(old(ds)@, u) == 1 - vcount(committed@, u));
                            if old(ds)@.contains_key(u) {
                                assert(dcount(old(ds)@, u) != 0);
                                assert(false);
                            } else {
                                assert(dcount(old(ds)@, u) == 0);
                                assert(vcount(committed@, u) == 1);
                                assert(committed@[k] == u);
                                assert(u == v);
                                assert(false);
                            }
                        }
                    }
                    crate::model::lemma_vcount_insert_pub(s@, v);
                }
                s.insert(key_of(v), v);
            }
            proof {
                assert(ds.key_seq().take(i2 as int + 1) =~= ds.key_seq().take(i2 as int).push(v));
                assert(ds.key_seq().take(i2 as int + 1)[i2 as int] == v);
                assert forall|u: Val| u != v implies (ds.key_seq().take(i2 as int + 1).contains(u)
                    <==> ds.key_seq().take(i2 as int).contains(u)) by {}
                assert forall|u: Val| u != v implies #[trigger] vcount(s@, u) == vcount(
                    s_pre,
                    u,
                ) by {}
            }
            i2 += 1;
        }
        proof {
            ds.lemma_view();
            assert(ds.key_seq().take(n as int) =~= ds.key_seq());
            assert forall|u: Val| #[trigger] vcount(s@, u) == vcount(committed@, u) by {
                if old(ds)@.contains_key(u) {
                    let p = choose|p: int|
                        0 <= p < ds.key_seq().len() && #[trigger] ds.key_seq()[p] == u;
                    assert(ds.key_seq().contains(u));
                    if dcount(old(ds)@, u) > 0 {
                        assert(vcount(committed@, u) == 0);
                    }
                } else {
                    assert(dcount(old(ds)@, u) == 0);
                    if ds.key_seq().contains(u) {
                        let p = choose|p: int|
                            0 <= p < ds.key_seq().len() && #[trigger] ds.key_seq()[p] == u;
                        assert(old(ds)@.contains_key(u));
                    }
                }
            }
            crate::model::lemma_vcounts_eq(s@, committed@);
        }
        ds.clear();
        r
    }

    /// Empty an input relation: retract every stored record, forwarding the
    /// retraction stream to the dataflow.  Stream relations keep no elements
    /// and cannot be cleared.
    pub fn clear(&mut self, relid: RelId) -> (r: crate::Response<Vec<Update>>)
        requires
            old(self).inv(),
            crate::model::clear_req(old(self)@),
        ensures
            final(self).inv(),
            match r {
                Ok(ups) => {
                    &&& forall|v: Val| #[trigger] crate::model::elem_count(final(self)@, v) == 0
                    &&& forall|v: Val| #[trigger] dcount(
                        crate::model::delta_of(final(self)@),
                        v,
                    ) == dcount(crate::model::delta_of(old(self)@), v) - crate::model::elem_count(
                        old(self)@,
                        v,
                    )
                    &&& crate::model::committed_of(final(self)@) == crate::model::committed_of(
                        old(self)@,
                    )
                    &&& clear_stream_ok(ups@, relid, old(self)@)
                    &&& !(old(self)@ is Stream)
                },
                Err(e) => {
                    &&& *final(self) == *old(self)
                    &&& old(self)@ is Stream
                    &&& e@ == msg_clear_stream()
                },
            },
    {
        match self {
            RelationInstance::Stream { .. } => Err(
                "clear_relation: operation not supported for streams".to_owned(),
            ),
            RelationInstance::Mset { elements, delta, committed } => Ok(
                Self::clear_mset(elements, delta, Ghost(committed@), relid),
            ),
            RelationInstance::Flat { elements, delta, committed } => Ok(
                Self::clear_flat(elements, delta, Ghost(committed@), relid),
            ),
            RelationInstance::Indexed { elements, delta, committed } => Ok(
                Self::clear_indexed(elements, delta, Ghost(committed@), relid),
            ),
        }
    }

    /// Empty a flat-set relation.
    fn clear_flat(s: &mut KvSet, ds: &mut DeltaSet, committed: Ghost<Set<Val>>, relid: RelId) -> (r: Vec<Update>)
        requires
            old(s).wf(),
            old(ds).wf(),
            rel_inv(RelState::Flat { elems: old(s)@, delta: old(ds)@, committed: committed@ }),
        ensures
            final(s).wf(),
            final(ds).wf(),
            final(s)@ == Set::<Val>::empty(),
            crate::model::no_zeros(final(ds)@),
            forall|v: Val| #[trigger] dcount(final(ds)@, v) == dcount(old(ds)@, v) - set_ind(
                old(s)@,
                v,
            ),
            forall|v: Val| #[trigger] cnt_del(r@, relid, v) == set_ind(old(s)@, v),
            forall|v: Val| #[trigger] cnt_ins(r@, relid, v) == 0,
            forall|i: int| 0 <= i < r@.len() ==> is_undo_update(#[trigger] r@[i], relid),
            forall|i: int, j: int| 0 <= i < j < r@.len() && #[trigger] r@[i] is Insert ==> (
                #[trigger] r@[j]) is Insert,
    {
        let mut r: Vec<Update> = Vec::new();
        proof {
            lemma_empty_counts();
            assert(r@ =~= Seq::<Update>::empty());
        }
        let n = s.len();
        let mut i: usize = 0;
        while i < n
            invariant
                s.wf(),
                *s == *old(s),
                n == s.spec_len(),
                i <= n,
                forall|v: Val| #[trigger] cnt_del(r@, relid, v) == (if s.elem_seq().take(
                    i as int,
                ).contains(v) {
                    1int
                } else {
                    0
                }),
                forall|v: Val| #[trigger] cnt_ins(r@, relid, v) == 0,
                forall|j: int| 0 <= j < r@.len() ==> (#[trigger] r@[j]) is DeleteValue && r@[
                    j
                ].spec_relid() == relid,
            decreases n - i,
        {
            proof {
                s.lemma_view();
                lemma_prefix_fresh(s.elem_seq(), i as int);
                lemma_push_counts(r@, Update::DeleteValue { relid, v: s.elem_seq()[i as int] });
            }
            let v = s.elem_at(i);
            r.push(Update::DeleteValue { relid, v });
            proof {
                assert(s.elem_seq().take(i as int + 1) =~= s.elem_seq().take(i as int).push(v));
                assert(s.elem_seq().take(i as int + 1)[i as int] == v);
                assert forall|u: Val| u != v implies (s.elem_seq().take(i as int + 1).contains(u)
                    <==> s.elem_seq().take(i as int).contains(u)) by {}
            }
            i += 1;
        }
        proof {
            s.lemma_view();
            assert(s.elem_seq().take(n as int) =~= s.elem_seq());
            assert forall|v: Val| #[trigger] cnt_del(r@, relid, v) == set_ind(old(s)@, v) by {
                if s@.contains(v) {
                    let p = choose|p: int|
                        0 <= p < s.elem_seq().len() && #[trigger] s.elem_seq()[p] == v;
                    assert(s.elem_seq().contains(v));
                } else {
                    if s.elem_seq().contains(v) {
                        let p = choose|p: int|
                            0 <= p < s.elem_seq().len() && #[trigger] s.elem_seq()[p] == v;
                        assert(s@.contains(v));
                    }
                }
            }
        }
        let mut i2: usize = 0;
        while i2 < n
            invariant
                s.wf(),
                ds.wf(),
                *s == *old(s),
                rel_inv(
                    RelState::Flat { elems: old(s)@, delta: old(ds)@, committed: committed@ },
                ),
                n == s.spec_len(),
                i2 <= n,
                crate::model::no_zeros(ds@),
                forall|v: Val|
                    s.elem_seq().take(i2 as int).contains(v) ==> #[trigger] dcount(ds@, v)
                        == dcount(old(ds)@, v) - 1,
                forall|v: Val|
                    !s.elem_seq().take(i2 as int).contains(v) ==> #[trigger] dcount(ds@, v)
                        == dcount(old(ds)@, v),
            decreases n - i2,
        {
            proof {
                s.lemma_view();
                lemma_prefix_fresh(s.elem_seq(), i2 as int);
            }
            let v = s.elem_at(i2);
            proof {
                assert(set_ind(old(s)@, v) == 1);
                assert(dcount(old(ds)@, v) >= -1);
                assert(dcount(ds@, v) == dcount(old(ds)@, v));
            }
            let ghost ds_pre = ds@;
            delta_dec(ds, v);
            proof {
                assert(s.elem_seq().take(i2 as int + 1) =~= s.elem_seq().take(i2 as int).push(v));
                assert(s.elem_seq().take(i2 as int + 1)[i2 as int] == v);
                assert forall|u: Val| u != v implies (s.elem_seq().take(i2 as int + 1).contains(u)
                    <==> s.elem_seq().take(i2 as int).contains(u)) by {}
                assert forall|u: Val| u != v implies #[trigger] dcount(ds@, u) == dcount(
                    ds_pre,
                    u,
                ) by {}
            }
            i2 += 1;
        }
        proof {
            s.lemma_view();
            assert(s.elem_seq().take(n as int) =~= s.elem_seq());
            assert forall|v: Val| #[trigger] dcount(ds@, v) == dcount(old(ds)@, v) - set_ind(
                old(s)@,
                v,
            ) by {
                if s@.contains(v) {
                    let p = choose|p: int|
                        0 <= p < s.elem_seq().len() && #[trigger] s.elem_seq()[p] == v;
                    assert(s.elem_seq().contains(v));
                } else {
                    if s.elem_seq().contains(v) {
                        let p = choose|p: int|
                            0 <= p < s.elem_seq().len() && #[trigger] s.elem_seq()[p] == v;
                        assert(s@.contains(v));
                    }
                }
            }
        }
        s.clear();
        r
    }

    /// Empty a keyed relation.
    fn clear_indexed(
        s: &mut KvMap<Val>,
        ds: &mut DeltaSet,
        committed: Ghost<Map<Val, Val>>,
        relid: RelId,
    ) -> (r: Vec<Update>)
        requires
            old(s).wf(),
            old(ds).wf(),
            rel_inv(RelState::Indexed { elems: old(s)@, delta: old(ds)@, committed: committed@ }),
        ensures
            final(s).wf(),
            final(ds).wf(),
            final(s)@ == Map::<Val, Val>::empty(),
            crate::model::no_zeros(final(ds)@),
            forall|v: Val| #[trigger] dcount(final(ds)@, v) == dcount(old(ds)@, v) - vcount(
                old(s)@,
                v,
            ),
            forall|v: Val| #[trigger] cnt_del(r@, relid, v) == vcount(old(s)@, v),
            forall|v: Val| #[trigger] cnt_ins(r@, relid, v) == 0,
            forall|i: int| 0 <= i < r@.len() ==> is_undo_update(#[trigger] r@[i], relid),
            forall|i: int, j: int| 0 <= i < j < r@.len() && #[trigger] r@[i] is Insert ==> (
                #[trigger] r@[j]) is Insert,
    {
        let ghost vseq = Seq::<Val>::new(old(s)@.dom().len(), |i: int| 0);
        let mut r: Vec<Update> = Vec::new();
        proof {
            lemma_empty_counts();
            assert(r@ =~= Seq::<Update>::empty());
        }
        let n = s.len();
        let mut i: usize = 0;
        while i < n
            invariant
                s.wf(),
                ds.wf(),
                *s == *old(s),
                rel_inv(
                    RelState::Indexed { elems: old(s)@, delta: old(ds)@, committed: committed@ },
                ),
                n == s.spec_len(),
                i <= n,
                crate::model::no_zeros(ds@),
                forall|v: Val| #[trigger] cnt_del(r@, relid, v) == (if s.key_seq().take(
                    i as int,
                ).contains(spec_key_of(v)) && vcount(old(s)@, v) == 1 {
                    1int
                } else {
                    0
                }),
                forall|v: Val| #[trigger] cnt_ins(r@, relid, v) == 0,
                forall|j: int| 0 <= j < r@.len() ==> (#[trigger] r@[j]) is DeleteValue && r@[
                    j
                ].spec_relid() == relid,
                forall|v: Val|
                    s.key_seq().take(i as int).contains(spec_key_of(v)) && vcount(old(s)@, v) == 1
                        ==> #[trigger] dcount(ds@, v) == dcount(old(ds)@, v) - 1,
                forall|v: Val|
                    !(s.key_seq().take(i as int).contains(spec_key_of(v)) && vcount(old(s)@, v)
                        == 1) ==> #[trigger] dcount(ds@, v) == dcount(old(ds)@, v),
            decreases n - i,
        {
            proof {
                s.lemma_view();
                lemma_prefix_fresh(s.key_seq(), i as int);
            }
            let k = s.key_at(i);
            let v = s.val_at(i);
            proof {
                assert(s@[k] == v);
                assert(spec_key_of(v) == k);
                assert(vcount(old(s)@, v) == 1);
                assert(dcount(old(ds)@, v) >= -1);
                assert(dcount(ds@, v) == dcount(old(ds)@, v));
                lemma_push_counts(r@, Update::DeleteValue { relid, v });
            }
            r.push(Update::DeleteValue { relid, v });
            let ghost ds_pre = ds@;
            delta_dec(ds, v);
            proof {
                assert(s.key_seq().take(i as int + 1) =~= s.key_seq().take(i as int).push(k));
                assert(s.key_seq().take(i as int + 1)[i as int] == k);
                assert forall|u: Val| u != k implies (s.key_seq().take(i as int + 1).contains(u)
                    <==> s.key_seq().take(i as int).contains(u)) by {}
                assert forall|u: Val| u != v implies #[trigger] dcount(ds@, u) == dcount(
                    ds_pre,
                    u,
                ) by {}
                assert forall|u: Val|
                    u != v && #[trigger] vcount(old(s)@, u) == 1 implies spec_key_of(u) != k by {
                    if spec_key_of(u) == k {
                        assert(old(s)@[k] == u);
                    }
                }
            }
            i += 1;
        }
        proof {
            s.lemma_view();
            assert(s.key_seq().take(n as int) =~= s.key_seq());
            assert forall|v: Val| vcount(old(s)@, v) == 1 implies s.key_seq().contains(
                spec_key_of(v)) by {
                assert(s@.contains_key(spec_key_of(v)));
                let p = choose|p: int|
                    0 <= p < s.key_seq().len() && #[trigger] s.key_seq()[p] == spec_key_of(v);
            }
            assert forall|v: Val| #[trigger] cnt_del(r@, relid, v) == vcount(old(s)@, v)
                && #[trigger] dcount(ds@, v) == dcount(old(ds)@, v) - vcount(old(s)@, v) by {
                if vcount(old(s)@, v) == 1 {
                    assert(s.key_seq().contains(spec_key_of(v)));
                }
            }
        }
        s.clear();
        r
    }

    /// Empty a multiset relation.
    fn clear_mset(
        s: &mut DeltaSet,
        ds: &mut DeltaSet,
        committed: Ghost<Map<Val, i64>>,
        relid: RelId,
    ) -> (r: Vec<Update>)
        requires
            old(s).wf(),
            old(ds).wf(),
            rel_inv(RelState::Mset { elems: old(s)@, delta: old(ds)@, committed: committed@ }),
            forall|v: Val| #[trigger] dcount(committed@, v) > i64::MIN,
        ensures
            final(s).wf(),
            final(ds).wf(),
            final(s)@ == Map::<Val, i64>::empty(),
            crate::model::no_zeros(final(ds)@),
            forall|v: Val| #[trigger] dcount(final(ds)@, v) == dcount(old(ds)@, v) - dcount(
                old(s)@,
                v,
            ),
            undo_stream_ok(r@, relid, old(s)@),
    {
        let r = delta_undo_updates(relid, s);
        let n = s.len();
        let mut i: usize = 0;
        while i < n
            invariant
                s.wf(),
                ds.wf(),
                *s == *old(s),
                rel_inv(
                    RelState::Mset { elems: old(s)@, delta: old(ds)@, committed: committed@ },
                ),
                forall|v: Val| #[trigger] dcount(committed@, v) > i64::MIN,
                n == s.spec_len(),
                i <= n,
                crate::model::no_zeros(ds@),
                forall|v: Val|
                    s.key_seq().take(i as int).contains(v) ==> #[trigger] dcount(ds@, v)
                        == dcount(old(ds)@, v) - dcount(old(s)@, v),
                forall|v: Val|
                    !s.key_seq().take(i as int).contains(v) ==> #[trigger] dcount(ds@, v)
                        == dcount(old(ds)@, v),
            decreases n - i,
        {
            proof {
                s.lemma_view();
                lemma_prefix_fresh(s.key_seq(), i as int);
            }
            let v = s.key_at(i);
            let w = s.val_at(i);
            proof {
                assert(dcount(old(s)@, v) == w);
                assert(dcount(ds@, v) == dcount(old(ds)@, v));
                assert(dcount(old(ds)@, v) - w == 0 - dcount(committed@, v));
            }
            let cur: i64 = match ds.get(v) {
                Some(c) => c,
                None => 0,
            };
            proof {
                assert(cur == dcount(ds@, v));
            }
            let nw = cur - w;
            let ghost ds_pre = ds@;
            if nw == 0 {
                ds.remove(v);
            } else {
                ds.insert(v, nw);
            }
            proof {
                assert(s.key_seq().take(i as int + 1) =~= s.key_seq().take(i as int).push(v));
                assert(s.key_seq().take(i as int + 1)[i as int] == v);
                assert forall|u: Val| u != v implies (s.key_seq().take(i as int + 1).contains(u)
                    <==> s.key_seq().take(i as int).contains(u)) by {}
                assert forall|u: Val| u != v implies #[trigger] dcount(ds@, u) == dcount(
                    ds_pre,
                    u,
                ) by {}
            }
            i += 1;
        }
        proof {
            s.lemma_view();
            assert(s.key_seq().take(n as int) =~= s.key_seq());
            assert forall|v: Val| #[trigger] dcount(ds@, v) == dcount(old(ds)@, v) - dcount(
                old(s)@,
                v,
            ) by {
                if old(s)@.contains_key(v) {
                    let p = choose|p: int|
                        0 <= p < s.key_seq().len() && #[trigger] s.key_seq()[p] == v;
                    assert(s.key_seq().contains(v));
                } else {
                    assert(dcount(old(s)@, v) == 0);
                    if s.key_seq().contains(v) {
                        let p = choose|p: int|
                            0 <= p < s.key_seq().len() && #[trigger] s.key_seq()[p] == v;
                        assert(old(s)@.contains_key(v));
                    }
                }
            }
        }
        s.clear();
        r
    }
}

/// Diagnostic for clearing a stream relation.
pub open spec fn msg_clear_stream() -> Seq<char> {
    "clear_relation: operation not supported for streams"@
}

/// The retraction stream that empties a relation: one retraction per stored
/// record occurrence, one insertion per negative occurrence of a multiset.
pub open spec fn clear_stream_ok(ups: Seq<Update>, relid: RelId, s: RelState) -> bool {
    &&& forall|v: Val| #[trigger] cnt_del(ups, relid, v) == pos_part(
        crate::model::elem_count(s, v),
    )
    &&& forall|v: Val| #[trigger] cnt_ins(ups, relid, v) == neg_part(
        crate::model::elem_count(s, v),
    )
    &&& forall|i: int| 0 <= i < ups.len() ==> is_undo_update(#[trigger] ups[i], relid)
    &&& forall|i: int, j: int| 0 <= i < j < ups.len() && #[trigger] ups[i] is Insert ==> (
        #[trigger] ups[j]) is Insert
}

/// An inverse stream of an empty delta is empty.
pub proof fn lemma_undo_stream_empty(s: Seq<Update>, relid: RelId, d: Map<Val, i64>)
    requires
        undo_stream_ok(s, relid, d),
        forall|v: Val| #[trigger] dcount(d, v) == 0,
    ensures
        s == Seq::<Update>::empty(),
{
    broadcast use vstd::seq_lib::group_to_multiset_ensures;

    if s.len() > 0 {
        let u = s[0];
        assert(is_undo_update(u, relid));
        assert(s.contains(u));
        if u is DeleteValue {
            let v = u->DeleteValue_v;
            assert(u == (Update::DeleteValue { relid, v }));
            assert(cnt_del(s, relid, v) == pos_part(dcount(d, v)));
            assert(s.to_multiset().count(u) > 0);
            assert(false);
        } else {
            let v = u->Insert_v;
            assert(u == (Update::Insert { relid, v }));
            assert(cnt_ins(s, relid, v) == neg_part(dcount(d, v)));
            assert(s.to_multiset().count(u) > 0);
            assert(false);
        }
    }
    assert(s =~= Seq::<Update>::empty());
}

/// A retraction stream of an empty element side is empty.
pub proof fn lemma_clear_stream_empty(s: Seq<Update>, relid: RelId, st: RelState)
    requires
        clear_stream_ok(s, relid, st),
        forall|v: Val| #[trigger] crate::model::elem_count(st, v) == 0,
    ensures
        s == Seq::<Update>::empty(),
{
    broadcast use vstd::seq_lib::group_to_multiset_ensures;

    if s.len() > 0 {
        let u = s[0];
        assert(is_undo_update(u, relid));
        assert(s.contains(u));
        if u is DeleteValue {
            let v = u->DeleteValue_v;
            assert(u == (Update::DeleteValue { relid, v }));
            assert(cnt_del(s, relid, v) == pos_part(crate::model::elem_count(st, v)));
            assert(s.to_multiset().count(u) > 0);
            assert(false);
        } else {
            let v = u->Insert_v;
            assert(u == (Update::Insert { relid, v }));
            assert(cnt_ins(s, relid, v) == neg_part(crate::model::elem_count(st, v)));
            assert(s.to_multiset().count(u) > 0);
            assert(false);
        }
    }
    assert(s =~= Seq::<Update>::empty());
}

/// A position's key does not occur earlier in a distinct key sequence.
proof fn lemma_prefix_fresh(keys: Seq<Val>, i: int)
    requires
        forall|p: int, q: int| 0 <= p < q < keys.len() ==> #[trigger] keys[p] != #[trigger] keys[q],
        0 <= i < keys.len(),
    ensures
        !keys.take(i).contains(keys[i]),
{
    if keys.take(i).contains(keys[i]) {
        let p = choose|p: int| 0 <= p < keys.take(i).len() && #[trigger] keys.take(i)[p] == keys[i];
        assert(keys[p] == keys[i]);
    }
}

/// The positive part of a count.
pub open spec fn pos_part(x: int) -> int {
    if x > 0 {
        x
    } else {
        0
    }
}

/// The negative part of a count.
pub open spec fn neg_part(x: int) -> int {
    if x < 0 {
        -x
    } else {
        0
    }
}

/// Number of retractions of `v` for relation `relid` in an update sequence.
pub open spec fn cnt_del(s: Seq<Update>, relid: RelId, v: Val) -> int {
    s.to_multiset().count(Update::DeleteValue { relid, v }) as int
}

/// Number of insertions of `v` for relation `relid` in an update sequence.
pub open spec fn cnt_ins(s: Seq<Update>, relid: RelId, v: Val) -> int {
    s.to_multiset().count(Update::Insert { relid, v }) as int
}

/// An update an undo stream may contain: a retraction or an insertion for
/// the given relation.
pub open spec fn is_undo_update(u: Update, relid: RelId) -> bool {
    ||| (u is DeleteValue && u.spec_relid() == relid)
    ||| (u is Insert && u.spec_relid() == relid)
}

/// The inverse of a delta: as many retractions of each record as its
/// positive count, as many insertions as its negative count, retractions
/// first.
pub open spec fn undo_stream_ok(s: Seq<Update>, relid: RelId, d: Map<Val, i64>) -> bool {
    &&& forall|v: Val| #[trigger] cnt_del(s, relid, v) == pos_part(dcount(d, v))
    &&& forall|v: Val| #[trigger] cnt_ins(s, relid, v) == neg_part(dcount(d, v))
    &&& forall|i: int| 0 <= i < s.len() ==> is_undo_update(#[trigger] s[i], relid)
    &&& forall|i: int, j: int| 0 <= i < j < s.len() && #[trigger] s[i] is Insert ==> (
        #[trigger] s[j]) is Insert
}

/// An empty update sequence contains nothing.
proof fn lemma_empty_counts()
    ensures
        forall|relid: RelId, v: Val| #[trigger] cnt_del(Seq::<Update>::empty(), relid, v) == 0,
        forall|relid: RelId, v: Val| #[trigger] cnt_ins(Seq::<Update>::empty(), relid, v) == 0,
{
    broadcast use vstd::seq_lib::group_to_multiset_ensures;

    assert forall|relid: RelId, v: Val| #[trigger] cnt_del(Seq::<Update>::empty(), relid, v) == 0
        && #[trigger] cnt_ins(Seq::<Update>::empty(), relid, v) == 0 by {
        let s = Seq::<Update>::empty();
        assert(s.to_multiset().len() == 0);
        vstd::multiset::lemma_multiset_empty_len(s.to_multiset());
    }
}

/// Pushing one update changes exactly its own multiset count.
proof fn lemma_push_counts(s: Seq<Update>, u: Update)
    ensures
        forall|relid: RelId, v: Val| #[trigger] cnt_del(s.push(u), relid, v) == cnt_del(s, relid, v)
            + (if u == (Update::DeleteValue { relid, v }) { 1int } else { 0 }),
        forall|relid: RelId, v: Val| #[trigger] cnt_ins(s.push(u), relid, v) == cnt_ins(s, relid, v)
            + (if u == (Update::Insert { relid, v }) { 1int } else { 0 }),
{
    broadcast use vstd::seq_lib::group_to_multiset_ensures;

    assert(s.push(u).to_multiset() == s.to_multiset().insert(u));
}

/// Build the inverse update stream of a delta set: for each positive count a
/// matching number of retractions, for each negative count a matching number
/// of insertions; all retractions precede all insertions, so that applying
/// the stream to a keyed relation cannot hit a duplicate key.
pub fn delta_undo_updates(relid: RelId, ds: &DeltaSet) -> (r: Vec<Update>)
    requires
        ds.wf(),
        crate::model::no_zeros(ds@),
    ensures
        undo_stream_ok(r@, relid, ds@),
{
    let mut r: Vec<Update> = Vec::new();
    let n = ds.len();
    proof {
        lemma_empty_counts();
        assert(r@ =~= Seq::<Update>::empty());
    }
    let mut i: usize = 0;
    while i < n
        invariant
            ds.wf(),
            crate::model::no_zeros(ds@),
            n == ds.spec_len(),
            i <= n,
            forall|v: Val| #[trigger] cnt_del(r@, relid, v) == (if ds.key_seq().take(
                i as int,
            ).contains(v) {
                pos_part(dcount(ds@, v))
            } else {
                0
            }),
            forall|v: Val| #[trigger] cnt_ins(r@, relid, v) == 0,
            forall|j: int| 0 <= j < r@.len() ==> (#[trigger] r@[j]) is DeleteValue && r@[j].spec_relid() == relid,
        decreases n - i,
    {
        proof {
            ds.lemma_view();
        }
        let v = ds.key_at(i);
        let w = ds.val_at(i);
        let ghost r_pre = r@;
        if w > 0 {
            let mut j: i64 = 0;
            while j < w
                invariant
                    ds.wf(),
                    crate::model::no_zeros(ds@),
                    i < ds.spec_len(),
                    v == ds.key_seq()[i as int],
                    w == dcount(ds@, v),
                    0 < w,
                    0 <= j <= w,
                    cnt_del(r@, relid, v) == cnt_del(r_pre, relid, v) + j,
                    forall|u: Val| u != v ==> #[trigger] cnt_del(r@, relid, u) == cnt_del(
                        r_pre,
                        relid,
                        u,
                    ),
                    forall|u: Val| #[trigger] cnt_ins(r@, relid, u) == cnt_ins(r_pre, relid, u),
                    r@.len() >= r_pre.len(),
                    r@.take(r_pre.len() as int) == r_pre,
                    forall|p: int| 0 <= p < r@.len() ==> (#[trigger] r@[p]) is DeleteValue || (
                    #[trigger] r@[p]) is Insert,
                    forall|p: int| r_pre.len() <= p < r@.len() ==> (#[trigger] r@[p])
                        == (Update::DeleteValue { relid, v }),
                decreases w - j,
            {
                proof {
                    lemma_push_counts(r@, Update::DeleteValue { relid, v });
                }
                let ghost r_old = r@;
                r.push(Update::DeleteValue { relid, v });
                proof {
                    assert(r@.take(r_pre.len() as int) =~= r_old.take(r_pre.len() as int));
                }
                j += 1;
            }
        }
        proof {
            ds.lemma_view();
            assert(ds.key_seq().take(i + 1 as int) =~= ds.key_seq().take(i as int).push(v));
            assert(ds.key_seq().take(i + 1 as int)[i as int] == v);
            assert forall|u: Val| #[trigger] cnt_del(r@, relid, u) == (if ds.key_seq().take(
                i + 1 as int,
            ).contains(u) {
                pos_part(dcount(ds@, u))
            } else {
                0
            }) by {
                if u == v {
                    assert(ds@[v] == ds.entries_at_spec(i as int));
                    assert(dcount(ds@, v) == w);
                    assert(!ds.key_seq().take(i as int).contains(v));
                    assert(ds.key_seq().take(i + 1 as int).contains(v));
                } else {
                    assert(ds.key_seq().take(i + 1 as int).contains(u) <==> ds.key_seq().take(
                        i as int,
                    ).contains(u));
                }
            }
            assert forall|j2: int| 0 <= j2 < r@.len() implies (#[trigger] r@[j2]) is DeleteValue
                && r@[j2].spec_relid() == relid by {
                if j2 < r_pre.len() {
                    assert(r@.take(r_pre.len() as int)[j2] == r@[j2]);
                }
            }
        }
        i += 1;
    }
    proof {
        ds.lemma_view();
        assert(ds.key_seq().take(n as int) =~= ds.key_seq());
        assert forall|v: Val| #[trigger] cnt_del(r@, relid, v) == pos_part(dcount(ds@, v)) by {
            if dcount(ds@, v) != 0 {
                assert(ds@.contains_key(v));
                let p = choose|p: int|
                    0 <= p < ds.key_seq().len() && #[trigger] ds.key_seq()[p] == v;
                assert(ds.key_seq().contains(v));
            } else {
                if ds.key_seq().contains(v) {
                    let p = choose|p: int|
                        0 <= p < ds.key_seq().len() && #[trigger] ds.key_seq()[p] == v;
                    assert(ds@.contains_key(v));
                }
            }
        }
    }
    let ghost dels = r@;
    let mut i2: usize = 0;
    while i2 < n
        invariant
            ds.wf(),
            crate::model::no_zeros(ds@),
            n == ds.spec_len(),
            i2 <= n,
            forall|v: Val| #[trigger] cnt_del(r@, relid, v) == pos_part(dcount(ds@, v)),
            forall|v: Val| #[trigger] cnt_ins(r@, relid, v) == (if ds.key_seq().take(
                i2 as int,
            ).contains(v) {
                neg_part(dcount(ds@, v))
            } else {
                0
            }),
            dels.len() <= r@.len(),
            forall|j: int| 0 <= j < dels.len() ==> (#[trigger] r@[j]) is DeleteValue && r@[j].spec_relid() == relid,
            forall|j: int| dels.len() <= j < r@.len() ==> (#[trigger] r@[j]) is Insert && r@[j].spec_relid() == relid,
        decreases n - i2,
    {
        proof {
            ds.lemma_view();
        }
        let v = ds.key_at(i2);
        let w = ds.val_at(i2);
        let ghost r_pre = r@;
        if w < 0 {
            let mut j: i64 = 0;
            while j > w
                invariant
                    ds.wf(),
                    crate::model::no_zeros(ds@),
                    i2 < ds.spec_len(),
                    v == ds.key_seq()[i2 as int],
                    w == dcount(ds@, v),
                    w < 0,
                    w <= j <= 0,
                    cnt_ins(r@, relid, v) == cnt_ins(r_pre, relid, v) - j,
                    forall|u: Val| u != v ==> #[trigger] cnt_ins(r@, relid, u) == cnt_ins(
                        r_pre,
                        relid,
                        u,
                    ),
                    forall|u: Val| #[trigger] cnt_del(r@, relid, u) == cnt_del(r_pre, relid, u),
                    r@.len() >= r_pre.len(),
                    r@.take(r_pre.len() as int) == r_pre,
                    forall|p: int| r_pre.len() <= p < r@.len() ==> (#[trigger] r@[p])
                        == (Update::Insert { relid, v }),
                decreases j - w,
            {
                proof {
                    lemma_push_counts(r@, Update::Insert { relid, v });
                }
                let ghost r_old = r@;
                r.push(Update::Insert { relid, v });
                proof {
                    assert(r@.take(r_pre.len() as int) =~= r_old.take(r_pre.len() as int));
                }
                j -= 1;
            }
        }
        proof {
            ds.lemma_view();
            assert(ds.key_seq().take(i2 + 1 as int) =~= ds.key_seq().take(i2 as int).push(v));
            assert(ds.key_seq().take(i2 + 1 as int)[i2 as int] == v);
            assert forall|u: Val| #[trigger] cnt_ins(r@, relid, u) == (if ds.key_seq().take(
                i2 + 1 as int,
            ).contains(u) {
                neg_part(dcount(ds@, u))
            } else {
                0
            }) by {
                if u == v {
                    assert(ds@[v] == ds.entries_at_spec(i2 as int));
                    assert(dcount(ds@, v) == w);
                    assert(!ds.key_seq().take(i2 as int).contains(v));
                    assert(ds.key_seq().take(i2 + 1 as int).contains(v));
                } else {
                    assert(ds.key_seq().take(i2 + 1 as int).contains(u) <==> ds.key_seq().take(
                        i2 as int,
                    ).contains(u));
                }
            }
            assert forall|j2: int| 0 <= j2 < r@.len() && j2 >= dels.len() implies (
            #[trigger] r@[j2]) is Insert && r@[j2].spec_relid() == relid by {
                if j2 < r_pre.len() {
                    assert(r@.take(r_pre.len() as int)[j2] == r@[j2]);
                }
            }
            assert forall|j2: int| 0 <= j2 < dels.len() implies (#[trigger] r@[j2]) is DeleteValue
                && r@[j2].spec_relid() == relid by {
                assert(r@.take(r_pre.len() as int)[j2] == r@[j2]);
                assert(r_pre[j2] is DeleteValue && r_pre[j2].spec_relid() == relid);
            }
        }
        i2 += 1;
    }
    proof {
        ds.lemma_view();
        assert(ds.key_seq().take(n as int) =~= ds.key_seq());
        assert forall|v: Val| #[trigger] cnt_ins(r@, relid, v) == neg_part(dcount(ds@, v)) by {
            if dcount(ds@, v) != 0 {
                assert(ds@.contains_key(v));
                let p = choose|p: int|
                    0 <= p < ds.key_seq().len() && #[trigger] ds.key_seq()[p] == v;
                assert(ds.key_seq().contains(v));
            } else {
                if ds.key_seq().contains(v) {
                    let p = choose|p: int|
                        0 <= p < ds.key_seq().len() && #[trigger] ds.key_seq()[p] == v;
                    assert(ds@.contains_key(v));
                }
            }
        }
    }
    r
}

} // verus!
