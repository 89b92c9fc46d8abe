//! Association containers backing the per-relation runtime state.
//!
//! The stores are plain vectors of entries with pairwise-distinct keys,
//! abstracted as a `Map` (or `Set`) in specifications.  Every operation is
//! verified against that abstraction; iteration is by index, so callers can
//! enumerate a store's contents with full knowledge of what they see.

use vstd::prelude::*;
use crate::Val;

verus! {

/// A mapping from record (or key) to a value, with distinct keys.
pub struct KvMap<V> {
    entries: Vec<(Val, V)>,
}

/// The map denoted by a sequence of entries; later entries win.
pub open spec fn entries_map<V>(s: Seq<(Val, V)>) -> Map<Val, V>
    decreases s.len(),
{
    if s.len() == 0 {
        Map::empty()
    } else {
        entries_map(s.drop_last()).insert(s.last().0, s.last().1)
    }
}

/// Every key of `entries_map(s)` comes from an entry of `s`, and conversely.
pub proof fn lemma_entries_map_dom<V>(s: Seq<(Val, V)>)
    ensures
        forall|k: Val|
            entries_map(s).contains_key(k) <==> exists|i: int|
                0 <= i < s.len() && (#[trigger] s[i]).0 == k,
    decreases s.len(),
{
    if s.len() > 0 {
        let sd = s.drop_last();
        lemma_entries_map_dom(sd);
        assert(entries_map(s) == entries_map(sd).insert(s.last().0, s.last().1));
        assert forall|k: Val| entries_map(s).contains_key(k) implies exists|i: int|
            0 <= i < s.len() && (#[trigger] s[i]).0 == k by {
            if k == s.last().0 {
                assert((s[s.len() - 1]).0 == k);
            } else {
                assert(entries_map(sd).contains_key(k));
                let i = choose|i: int| 0 <= i < sd.len() && (#[trigger] sd[i]).0 == k;
                assert(sd[i] == s[i]);
                assert((s[i]).0 == k);
            }
        }
        assert forall|k: Val| (exists|i: int| 0 <= i < s.len() && (#[trigger] s[i]).0 == k)
            implies entries_map(s).contains_key(k) by {
            let i = choose|i: int| 0 <= i < s.len() && (#[trigger] s[i]).0 == k;
            if i < s.len() - 1 {
                assert((sd[i]).0 == k);
                assert(entries_map(sd).contains_key(k));
            }
        }
    }
}

/// With pairwise-distinct keys, each entry of `s` is reflected exactly in the map.
pub proof fn lemma_entries_map_index<V>(s: Seq<(Val, V)>, i: int)
    requires
        forall|p: int, q: int|
            0 <= p < q < s.len() ==> (#[trigger] s[p]).0 != (#[trigger] s[q]).0,
        0 <= i < s.len(),
    ensures
        entries_map(s).contains_key(s[i].0),
        entries_map(s)[s[i].0] == s[i].1,
    decreases s.len(),
{
    lemma_entries_map_dom(s);
    if i == s.len() - 1 {
    } else {
        lemma_entries_map_index(s.drop_last(), i);
        assert(s.drop_last()[i] == s[i]);
        assert(s[i].0 != s.last().0);
    }
}

impl<V: Copy> KvMap<V> {
    /// Keys are pairwise distinct.
    pub closed spec fn wf(&self) -> bool {
        forall|p: int, q: int|
            0 <= p < q < self.entries@.len() ==> (#[trigger] self.entries@[p]).0 != (
            #[trigger] self.entries@[q]).0
    }

    /// The abstract mapping held by this store.
    pub closed spec fn view(&self) -> Map<Val, V> {
        entries_map(self.entries@)
    }

    /// Number of entries.
    pub closed spec fn spec_len(&self) -> nat {
        self.entries@.len()
    }

    /// The stored keys in their current order.
    pub closed spec fn key_seq(&self) -> Seq<Val> {
        self.entries@.map_values(|e: (Val, V)| e.0)
    }

    pub proof fn lemma_view(&self)
        requires
            self.wf(),
        ensures
            forall|i: int|
                0 <= i < self.key_seq().len() ==> self@.contains_key(#[trigger] self.key_seq()[i])
                    && self@[self.key_seq()[i]] == self.entries_at_spec(i),
            forall|k: Val|
                self@.contains_key(k) ==> exists|i: int|
                    0 <= i < self.key_seq().len() && #[trigger] self.key_seq()[i] == k,
            self.key_seq().len() == self.spec_len(),
            forall|p: int, q: int|
                0 <= p < q < self.key_seq().len() ==> #[trigger] self.key_seq()[p] != (
                #[trigger] self.key_seq()[q]),
    {
        lemma_entries_map_dom(self.entries@);
        assert forall|i: int| 0 <= i < self.key_seq().len() implies self@.contains_key(
            #[trigger] self.key_seq()[i]) && self@[self.key_seq()[i]] == self.entries_at_spec(i) by {
            lemma_entries_map_index(self.entries@, i);
        }
        assert forall|k: Val| self@.contains_key(k) implies exists|i: int|
            0 <= i < self.key_seq().len() && #[trigger] self.key_seq()[i] == k by {
            let i = choose|i: int|
                0 <= i < self.entries@.len() && (#[trigger] self.entries@[i]).0 == k;
            assert(self.key_seq()[i] == k);
        }
    }

    /// An empty store.
    pub fn new() -> (r: Self)
        ensures
            r.wf(),
            r@ == Map::<Val, V>::empty(),
            r.spec_len() == 0,
    {
        KvMap { entries: Vec::new() }
    }

    /// Number of entries.
    pub fn len(&self) -> (n: usize)
        ensures
            n == self.spec_len(),
    {
        self.entries.len()
    }

    /// Whether the store is empty.
    pub fn is_empty(&self) -> (r: bool)
        requires
            self.wf(),
        ensures
            r <==> self@ == Map::<Val, V>::empty(),
    {
        proof {
            self.lemma_view();
            if self.entries@.len() > 0 {
                assert(self@.contains_key(self.key_seq()[0]));
            } else {
                assert(self@ =~= Map::<Val, V>::empty());
            }
        }
        self.entries.len() == 0
    }

    /// Position of `k` among the entries, if present.
    fn find(&self, k: Val) -> (r: Option<usize>)
        requires
            self.wf(),
        ensures
            match r {
                Some(i) => i < self.spec_len() && self.entries@[i as int].0 == k
                    && self@.contains_key(k),
                None => !self@.contains_key(k),
            },
    {
        let n = self.entries.len();
        let mut i: usize = 0;
        while i < n
            invariant
                n == self.spec_len(),
                i <= n,
                forall|j: int| 0 <= j < i ==> (#[trigger] self.entries@[j]).0 != k,
            decreases n - i,
        {
            if self.entries[i].0 == k {
                proof {
                    lemma_entries_map_dom(self.entries@);
                    assert((self.entries@[i as int]).0 == k);
                }
                return Some(i);
            }
            i += 1;
        }
        proof {
            lemma_entries_map_dom(self.entries@);
        }
        None
    }

    /// Look the value of `k` up.
    pub fn get(&self, k: Val) -> (r: Option<V>)
        requires
            self.wf(),
        ensures
            match r {
                Some(v) => self@.contains_key(k) && self@[k] == v,
                None => !self@.contains_key(k),
            },
    {
        match self.find(k) {
            Some(i) => {
                proof {
                    lemma_entries_map_index(self.entries@, i as int);
                }
                Some(self.entries[i].1)
            },
            None => None,
        }
    }

    /// Whether `k` is present.
    pub fn contains_key(&self, k: Val) -> (r: bool)
        requires
            self.wf(),
        ensures
            r <==> self@.contains_key(k),
    {
        self.find(k).is_some()
    }

    /// Map `k` to `v`, replacing any previous value.
    pub fn insert(&mut self, k: Val, v: V) -> (prev: Option<V>)
        requires
            old(self).wf(),
        ensures
            final(self).wf(),
            final(self)@ == old(self)@.insert(k, v),
            match prev {
                Some(pv) => old(self)@.contains_key(k) && old(self)@[k] == pv,
                None => !old(self)@.contains_key(k),
            },
            final(self).spec_len() == old(self).spec_len() + (if old(self)@.contains_key(k) { 0int } else { 1 }),
    {
        match self.find(k) {
            Some(i) => {
                proof {
                    lemma_entries_map_index(self.entries@, i as int);
                }
                let prev = self.entries[i].1;
                self.entries.swap_remove(i);
                self.entries.push((k, v));
                proof {
                    let so = old(self).entries@;
                    let sn = self.entries@;
                    assert(sn =~= so.update(i as int, so.last()).drop_last().push((k, v)));
                    Self::lemma_entries_map_remove_push(so, i as int, k, v);
                }
                Some(prev)
            },
            None => {
                self.entries.push((k, v));
                proof {
                    lemma_entries_map_dom(old(self).entries@);
                    assert(self.entries@.drop_last() =~= old(self).entries@);
                    assert forall|p: int, q: int|
                        0 <= p < q < self.entries@.len() implies (#[trigger] self.entries@[p]).0
                        != (#[trigger] self.entries@[q]).0 by {
                        if q == self.entries@.len() - 1 {
                            assert((old(self).entries@[p]).0 != k);
                        } else {
                            assert((old(self).entries@[p]).0 != (old(self).entries@[q]).0);
                        }
                    }
                }
                None
            },
        }
    }

    /// Remove `k`, returning its previous value.
    pub fn remove(&mut self, k: Val) -> (prev: Option<V>)
        requires
            old(self).wf(),
        ensures
            final(self).wf(),
            final(self)@ == old(self)@.remove(k),
            match prev {
                Some(pv) => old(self)@.contains_key(k) && old(self)@[k] == pv,
                None => !old(self)@.contains_key(k),
            },
            final(self).spec_len() == old(self).spec_len() - (if old(self)@.contains_key(k) { 1int } else { 0 }),
    {
        match self.find(k) {
            Some(i) => {
                proof {
                    lemma_entries_map_index(self.entries@, i as int);
                }
                let e = self.entries.swap_remove(i);
                proof {
                    let so = old(self).entries@;
                    let sn = self.entries@;
                    assert(sn =~= so.update(i as int, so.last()).drop_last());
                    Self::lemma_entries_map_remove(so, i as int);
                }
                Some(e.1)
            },
            None => {
                proof {
                    assert(self@.remove(k) =~= self@);
                }
                None
            },
        }
    }

    /// Remove every entry.
    pub fn clear(&mut self)
        ensures
            final(self).wf(),
            final(self)@ == Map::<Val, V>::empty(),
            final(self).spec_len() == 0,
    {
        self.entries.clear();
    }

    /// The key stored at position `i`; positions enumerate the store.
    pub fn key_at(&self, i: usize) -> (k: Val)
        requires
            self.wf(),
            i < self.spec_len(),
        ensures
            k == self.key_seq()[i as int],
            self@.contains_key(k),
            self@[k] == self.entries_at_spec(i as int),
    {
        proof {
            lemma_entries_map_index(self.entries@, i as int);
        }
        self.entries[i].0
    }

    /// The value stored at position `i`.
    pub fn val_at(&self, i: usize) -> (v: V)
        requires
            self.wf(),
            i < self.spec_len(),
        ensures
            v == self.entries_at_spec(i as int),
            self@.contains_key(self.key_seq()[i as int]),
            self@[self.key_seq()[i as int]] == v,
    {
        proof {
            lemma_entries_map_index(self.entries@, i as int);
        }
        self.entries[i].1
    }

    /// The value at position `i`, in specifications.
    pub closed spec fn entries_at_spec(&self, i: int) -> V {
        self.entries@[i].1
    }

    /// Swapping the removed slot with the last entry and dropping it removes
    /// exactly the removed key from the denoted map.
    proof fn lemma_entries_map_remove(s: Seq<(Val, V)>, i: int)
        requires
            forall|p: int, q: int|
                0 <= p < q < s.len() ==> (#[trigger] s[p]).0 != (#[trigger] s[q]).0,
            0 <= i < s.len(),
        ensures
            ({
                let sn = s.update(i, s.last()).drop_last();
                &&& entries_map(sn) == entries_map(s).remove(s[i].0)
                &&& forall|p: int, q: int|
                    0 <= p < q < sn.len() ==> (#[trigger] sn[p]).0 != (#[trigger] sn[q]).0
            }),
    {
        let sn = s.update(i, s.last()).drop_last();
        lemma_entries_map_dom(s);
        lemma_entries_map_dom(sn);
        assert forall|k: Val| entries_map(sn).contains_key(k) implies entries_map(s).remove(
            s[i].0).contains_key(k) by {
            let j = choose|j: int| 0 <= j < sn.len() && (#[trigger] sn[j]).0 == k;
            if j == i {
                assert(s[s.len() - 1].0 == k);
            } else {
                assert(s[j].0 == k);
            }
        }
        assert forall|k: Val| entries_map(s).remove(s[i].0).contains_key(k) implies entries_map(
            sn).contains_key(k) by {
            let j = choose|j: int| 0 <= j < s.len() && (#[trigger] s[j]).0 == k;
            if j == s.len() - 1 {
                if i < s.len() - 1 {
                    assert(sn[i].0 == k);
                }
            } else {
                assert(sn[j].0 == k);
            }
        }
        assert forall|k: Val| entries_map(sn).contains_key(k) implies entries_map(sn)[k]
            == entries_map(s)[k] by {
            let j = choose|j: int| 0 <= j < sn.len() && (#[trigger] sn[j]).0 == k;
            lemma_entries_map_index(sn, j);
            if j == i {
                lemma_entries_map_index(s, s.len() - 1);
            } else {
                lemma_entries_map_index(s, j);
            }
        }
        assert(entries_map(sn) =~= entries_map(s).remove(s[i].0));
    }

    /// Replacing a key's slot via swap-remove and pushing the new entry
    /// denotes an update of the map at that key.
    proof fn lemma_entries_map_remove_push(s: Seq<(Val, V)>, i: int, k: Val, v: V)
        requires
            forall|p: int, q: int|
                0 <= p < q < s.len() ==> (#[trigger] s[p]).0 != (#[trigger] s[q]).0,
            0 <= i < s.len(),
            s[i].0 == k,
        ensures
            ({
                let sn = s.update(i, s.last()).drop_last().push((k, v));
                &&& entries_map(sn) == entries_map(s).insert(k, v)
                &&& forall|p: int, q: int|
                    0 <= p < q < sn.len() ==> (#[trigger] sn[p]).0 != (#[trigger] sn[q]).0
            }),
    {
        Self::lemma_entries_map_remove(s, i);
        let sr = s.update(i, s.last()).drop_last();
        let sn = sr.push((k, v));
        assert(sn.drop_last() =~= sr);
        lemma_entries_map_dom(s);
        lemma_entries_map_dom(sr);
        assert(entries_map(sn) == entries_map(sr).insert(k, v));
        assert(entries_map(sr).insert(k, v) =~= entries_map(s).insert(k, v));
        assert forall|p: int, q: int| 0 <= p < q < sn.len() implies (#[trigger] sn[p]).0 != (
        #[trigger] sn[q]).0 by {
            if q == sn.len() - 1 {
                assert(!entries_map(sr).contains_key(k));
            }
        }
    }
}

/// A set of records, with distinct elements.
pub struct KvSet {
    items: Vec<Val>,
}

impl KvSet {
    /// Elements are pairwise distinct.
    pub closed spec fn wf(&self) -> bool {
        forall|p: int, q: int|
            0 <= p < q < self.items@.len() ==> #[trigger] self.items@[p] != #[trigger] self.items@[q]
    }

    /// The abstract set held by this store.
    pub closed spec fn view(&self) -> Set<Val> {
        self.items@.to_set()
    }

    /// Number of elements.
    pub closed spec fn spec_len(&self) -> nat {
        self.items@.len()
    }

    /// The stored elements in their current order.
    pub closed spec fn elem_seq(&self) -> Seq<Val> {
        self.items@
    }

    pub proof fn lemma_view(&self)
        requires
            self.wf(),
        ensures
            forall|i: int| 0 <= i < self.elem_seq().len() ==> self@.contains(#[trigger] self.elem_seq()[i]),
            forall|v: Val|
                self@.contains(v) ==> exists|i: int|
                    0 <= i < self.elem_seq().len() && #[trigger] self.elem_seq()[i] == v,
            self.elem_seq().len() == self.spec_len(),
            forall|p: int, q: int|
                0 <= p < q < self.elem_seq().len() ==> #[trigger] self.elem_seq()[p] != (
                #[trigger] self.elem_seq()[q]),
    {
        assert forall|v: Val| self@.contains(v) implies exists|i: int|
            0 <= i < self.elem_seq().len() && #[trigger] self.elem_seq()[i] == v by {
            let i = choose|i: int| 0 <= i < self.items@.len() && self.items@[i] == v;
            assert(self.elem_seq()[i] == v);
        }
    }

    /// An empty store.
    pub fn new() -> (r: Self)
        ensures
            r.wf(),
            r@ == Set::<Val>::empty(),
            r.spec_len() == 0,
    {
        let items: Vec<Val> = Vec::new();
        proof {
            assert(items@.to_set() =~= Set::<Val>::empty());
        }
        KvSet { items }
    }

    /// Number of elements.
    pub fn len(&self) -> (n: usize)
        ensures
            n == self.spec_len(),
    {
        self.items.len()
    }

    /// Position of `v` among the elements, if present.
    fn find(&self, v: Val) -> (r: Option<usize>)
        requires
            self.wf(),
        ensures
            match r {
                Some(i) => i < self.spec_len() && self.items@[i as int] == v && self@.contains(v),
                None => !self@.contains(v),
            },
    {
        let n = self.items.len();
        let mut i: usize = 0;
        while i < n
            invariant
                n == self.spec_len(),
                i <= n,
                forall|j: int| 0 <= j < i ==> #[trigger] self.items@[j] != v,
            decreases n - i,
        {
            if self.items[i] == v {
                return Some(i);
            }
            i += 1;
        }
        proof {
            assert forall|j: int| 0 <= j < self.items@.len() implies #[trigger] self.items@[j] != v by {}
        }
        None
    }

    /// Whether `v` is an element.
    pub fn contains(&self, v: Val) -> (r: bool)
        requires
            self.wf(),
        ensures
            r <==> self@.contains(v),
    {
        self.find(v).is_some()
    }

    /// Add `v`; reports whether it was new.
    pub fn insert(&mut self, v: Val) -> (added: bool)
        requires
            old(self).wf(),
        ensures
            final(self).wf(),
            final(self)@ == old(self)@.insert(v),
            added <==> !old(self)@.contains(v),
            final(self).spec_len() == old(self).spec_len() + (if old(self)@.contains(v) { 0int } else { 1 }),
    {
        match self.find(v) {
            Some(_) => {
                proof {
                    assert(self@.insert(v) =~= self@);
                }
                false
            },
            None => {
                self.items.push(v);
                proof {
                    let so = old(self).items@;
                    let sn = self.items@;
                    assert(sn.drop_last() =~= so);
                    assert forall|w: Val| sn.to_set().contains(w) implies so.to_set().insert(
                        v).contains(w) by {
                        let j = choose|j: int| 0 <= j < sn.len() && sn[j] == w;
                        if j < so.len() {
                            assert(so[j] == w);
                        }
                    }
                    assert forall|w: Val| so.to_set().insert(v).contains(w) implies sn.to_set().contains(
                        w) by {
                        if w == v {
                            assert(sn[sn.len() - 1] == w);
                        } else {
                            let j = choose|j: int| 0 <= j < so.len() && so[j] == w;
                            assert(sn[j] == w);
                        }
                    }
                    assert(sn.to_set() =~= so.to_set().insert(v));
                }
                true
            },
        }
    }

    /// Remove `v`; reports whether it was present.
    pub fn remove(&mut self, v: Val) -> (present: bool)
        requires
            old(self).wf(),
        ensures
            final(self).wf(),
            final(self)@ == old(self)@.remove(v),
            present <==> old(self)@.contains(v),
            final(self).spec_len() == old(self).spec_len() - (if old(self)@.contains(v) { 1int } else { 0 }),
    {
        match self.find(v) {
            Some(i) => {
                self.items.swap_remove(i);
                proof {
                    let so = old(self).items@;
                    let sn = self.items@;
                    assert(sn =~= so.update(i as int, so.last()).drop_last());
                    assert forall|w: Val| sn.to_set().contains(w) implies so.to_set().remove(
                        v).contains(w) by {
                        let j = choose|j: int| 0 <= j < sn.len() && sn[j] == w;
                        if j == i {
                            assert(so[so.len() - 1] == w);
                        } else {
                            assert(so[j] == w);
                        }
                    }
                    assert forall|w: Val| so.to_set().remove(v).contains(w) implies sn.to_set().contains(
                        w) by {
                        let j = choose|j: int| 0 <= j < so.len() && so[j] == w;
                        if j == so.len() - 1 {
                            if i < so.len() - 1 {
                                assert(sn[i as int] == w);
                            }
                        } else {
                            assert(sn[j] == w);
                        }
                    }
                    assert(sn.to_set() =~= so.to_set().remove(v));
                }
                true
            },
            None => {
                proof {
                    assert(self@.remove(v) =~= self@);
                }
                false
            },
        }
    }

    /// Remove every element.
    pub fn clear(&mut self)
        ensures
            final(self).wf(),
            final(self)@ == Set::<Val>::empty(),
            final(self).spec_len() == 0,
    {
        self.items.clear();
        proof {
            assert(self.items@.to_set() =~= Set::<Val>::empty());
        }
    }

    /// The element stored at position `i`; positions enumerate the store.
    pub fn elem_at(&self, i: usize) -> (v: Val)
        requires
            self.wf(),
            i < self.spec_len(),
        ensures
            v == self.elem_seq()[i as int],
            self@.contains(v),
    {
        self.items[i]
    }
}

} // verus!
