//! Delta-set algebra.
//!
//! A delta set maps each record to the signed number of times it has been
//! added (positive) or removed (negative) since the start of the current
//! transaction.  Entries that reach zero are removed immediately, so between
//! transactions every delta set is empty.  The same structure also backs the
//! element store of multiset relations.

use vstd::prelude::*;
use crate::Val;
use crate::kv::KvMap;

verus! {

/// A coalescing record-to-count store.
pub type DeltaSet = KvMap<i64>;

/// The signed count of `v` in a delta map: zero when absent.
pub open spec fn dcount(m: Map<Val, i64>, v: Val) -> int {
    if m.contains_key(v) {
        m[v] as int
    } else {
        0
    }
}

/// Well-formed delta set: distinct keys and no explicit zero entries.
pub open spec fn delta_wf(d: &DeltaSet) -> bool {
    &&& d.wf()
    &&& forall|v: Val| d@.contains_key(v) ==> #[trigger] d@[v] != 0
}

/// A delta set denotes the zero function exactly when it has no entries.
pub proof fn lemma_delta_empty(d: &DeltaSet)
    requires
        delta_wf(d),
        forall|v: Val| dcount(d@, v) == 0,
    ensures
        d@ == Map::<Val, i64>::empty(),
{
    assert forall|v: Val| !d@.contains_key(v) by {
        assert(dcount(d@, v) == 0);
    }
    assert(d@ =~= Map::<Val, i64>::empty());
}

/// Increment a coalesced count map, in specifications.
pub open spec fn minc(m: Map<Val, i64>, v: Val) -> Map<Val, i64> {
    if dcount(m, v) == -1 {
        m.remove(v)
    } else {
        m.insert(v, (dcount(m, v) + 1) as i64)
    }
}

/// Decrement a coalesced count map, in specifications.
pub open spec fn mdec(m: Map<Val, i64>, v: Val) -> Map<Val, i64> {
    if dcount(m, v) == 1 {
        m.remove(v)
    } else {
        m.insert(v, (dcount(m, v) - 1) as i64)
    }
}

/// Counts after an increment.
pub proof fn lemma_minc(m: Map<Val, i64>, v: Val)
    requires
        forall|w: Val| m.contains_key(w) ==> #[trigger] m[w] != 0,
        dcount(m, v) < i64::MAX,
    ensures
        forall|w: Val| minc(m, v).contains_key(w) ==> #[trigger] minc(m, v)[w] != 0,
        dcount(minc(m, v), v) == dcount(m, v) + 1,
        forall|w: Val| w != v ==> #[trigger] dcount(minc(m, v), w) == dcount(m, w),
{
}

/// Counts after a decrement.
pub proof fn lemma_mdec(m: Map<Val, i64>, v: Val)
    requires
        forall|w: Val| m.contains_key(w) ==> #[trigger] m[w] != 0,
        dcount(m, v) > i64::MIN,
    ensures
        forall|w: Val| mdec(m, v).contains_key(w) ==> #[trigger] mdec(m, v)[w] != 0,
        dcount(mdec(m, v), v) == dcount(m, v) - 1,
        forall|w: Val| w != v ==> #[trigger] dcount(mdec(m, v), w) == dcount(m, w),
{
}

/// Increment the count of `x`, dropping the entry when it reaches zero.
pub fn delta_inc(ds: &mut DeltaSet, x: Val)
    requires
        delta_wf(old(ds)),
        dcount(old(ds)@, x) < i64::MAX,
    ensures
        delta_wf(final(ds)),
        final(ds)@ == minc(old(ds)@, x),
        dcount(final(ds)@, x) == dcount(old(ds)@, x) + 1,
        forall|v: Val| v != x ==> dcount(final(ds)@, v) == dcount(old(ds)@, v),
{
    match ds.get(x) {
        Some(w) => {
            if w == -1 {
                ds.remove(x);
            } else {
                ds.insert(x, w + 1);
            }
        },
        None => {
            ds.insert(x, 1);
        },
    }
}

/// Decrement the count of `x`, dropping the entry when it reaches zero.
pub fn delta_dec(ds: &mut DeltaSet, x: Val)
    requires
        delta_wf(old(ds)),
        dcount(old(ds)@, x) > i64::MIN,
    ensures
        delta_wf(final(ds)),
        final(ds)@ == mdec(old(ds)@, x),
        dcount(final(ds)@, x) == dcount(old(ds)@, x) - 1,
        forall|v: Val| v != x ==> dcount(final(ds)@, v) == dcount(old(ds)@, v),
{
    match ds.get(x) {
        Some(w) => {
            if w == 1 {
                ds.remove(x);
            } else {
                ds.insert(x, w - 1);
            }
        },
        None => {
            ds.insert(x, -1);
        },
    }
}

} // verus!
