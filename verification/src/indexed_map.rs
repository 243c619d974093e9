//! A dense associative container keyed by a small integer index.
//!
//! Region computations are hot-path, so the candidate cache avoids hashing:
//! an `IndexedMap` stores its entries in a flat vector at the position given
//! by the key's dense index, with a presence slot distinct from the stored
//! value.

use vstd::prelude::*;

verus! {

/// A key with a dense integer index, used to address an [`IndexedMap`] slot.
pub trait Indexed {
    /// The index as a mathematical integer.
    spec fn key_idx(&self) -> int;

    /// When the dense index can be computed without overflow.
    spec fn idx_ok(&self) -> bool;

    /// The dense index of this key.
    fn idx(&self) -> (r: usize)
        requires
            self.idx_ok(),
        ensures
            r as int == self.key_idx(),
    ;
}

impl Indexed for usize {
    open spec fn key_idx(&self) -> int {
        *self as int
    }

    open spec fn idx_ok(&self) -> bool {
        true
    }

    fn idx(&self) -> (r: usize)
        ensures
            r as int == self.key_idx(),
    {
        *self
    }
}

/// A map from keys with a dense integer index to values, with capacity fixed
/// at creation.  Presence is tracked separately from the stored value.
#[derive(Debug, Clone, PartialEq, Eq)]
pub struct IndexedMap<K, V> {
    /// The key stored at each slot; `None` marks a vacant slot.
    pub keys: Vec<Option<K>>,
    /// The value stored at each slot; `None` exactly at the vacant slots.
    pub values: Vec<Option<V>>,
}

impl<K: Indexed + Copy, V> IndexedMap<K, V> {
    /// Canonical representation: matching lengths, occupied slots hold the
    /// key whose index is the slot position, vacant slots hold no value.
    pub open spec fn wf(&self) -> bool {
        &&& self.values@.len() == self.keys@.len()
        &&& forall|i: int|
            0 <= i < self.keys@.len() ==> ((#[trigger] self.keys@[i]) is Some ==> self.values@[i]
                is Some && self.keys@[i]->0.key_idx() == i)
        &&& forall|i: int|
            0 <= i < self.keys@.len() ==> ((#[trigger] self.keys@[i]) is None ==> self.values@[i]
                is None)
    }

    /// The number of slots.
    pub open spec fn capacity(&self) -> int {
        self.keys@.len() as int
    }

    /// The map from occupied indices to values.
    pub open spec fn m(&self) -> Map<int, V> {
        Map::new(
            |i: int| 0 <= i < self.keys@.len() && self.keys@[i] is Some,
            |i: int| self.values@[i]->0,
        )
    }

    /// The key stored at an occupied index.
    pub open spec fn key_at(&self, i: int) -> K {
        self.keys@[i]->0
    }

    /// A new map with `size` slots, all vacant.
    pub fn new(size: usize) -> (r: IndexedMap<K, V>)
        ensures
            r.wf(),
            r.capacity() == size,
            r.m() =~= Map::<int, V>::empty(),
    {
        let mut keys: Vec<Option<K>> = Vec::new();
        let mut values: Vec<Option<V>> = Vec::new();
        let mut i: usize = 0;
        while i < size
            invariant
                keys@.len() == i,
                values@.len() == i,
                i <= size,
                forall|k: int| 0 <= k < i ==> (#[trigger] keys@[k]) is None,
                forall|k: int| 0 <= k < i ==> (#[trigger] values@[k]) is None,
            decreases size - i,
        {
            keys.push(None);
            values.push(None);
            i = i + 1;
        }
        IndexedMap { keys, values }
    }

    /// Stores `value` under `key`; returns the value previously stored there,
    /// if any.  The key's index must be within the map's capacity.
    pub fn insert(&mut self, key: K, value: V) -> (r: Option<V>)
        requires
            old(self).wf(),
            key.idx_ok(),
            0 <= key.key_idx() < old(self).capacity(),
        ensures
            final(self).wf(),
            final(self).capacity() == old(self).capacity(),
            final(self).m() =~= old(self).m().insert(key.key_idx(), value),
            final(self).key_at(key.key_idx()) == key,
            forall|i: int|
                0 <= i < old(self).capacity() && i != key.key_idx() ==> final(self).keys@[i] == old(
                    self,
                ).keys@[i] && final(self).values@[i] == old(self).values@[i],
            forall|i: int|
                0 <= i < old(self).capacity() && i != key.key_idx() ==> final(self).key_at(i)
                    == old(self).key_at(i) && (old(self).m().dom().contains(i)
                    ==> final(self).m()[i] == old(self).m()[i]),
            r is Some <==> old(self).m().dom().contains(key.key_idx()),
            r is Some ==> r->0 == old(self).m()[key.key_idx()],
    {
        let i = key.idx();
        let mut r: Option<V> = Some(value);
        core::mem::swap(&mut r, &mut self.values[i]);
        self.keys[i] = Some(key);
        proof {
            assert(final(self).m() =~= old(self).m().insert(key.key_idx(), value));
        }
        r
    }

    /// Removes the entry under `key`; returns the value previously stored
    /// there, if any.  The key's index must be within the map's capacity.
    pub fn remove(&mut self, key: &K) -> (r: Option<V>)
        requires
            old(self).wf(),
            key.idx_ok(),
            0 <= key.key_idx() < old(self).capacity(),
        ensures
            final(self).wf(),
            final(self).capacity() == old(self).capacity(),
            final(self).m() =~= old(self).m().remove(key.key_idx()),
            forall|i: int|
                0 <= i < old(self).capacity() && i != key.key_idx() ==> final(self).keys@[i] == old(
                    self,
                ).keys@[i] && final(self).values@[i] == old(self).values@[i],
            forall|i: int|
                0 <= i < old(self).capacity() && i != key.key_idx() ==> final(self).key_at(i)
                    == old(self).key_at(i) && (old(self).m().dom().contains(i)
                    ==> final(self).m()[i] == old(self).m()[i]),
            r is Some <==> old(self).m().dom().contains(key.key_idx()),
            r is Some ==> r->0 == old(self).m()[key.key_idx()],
    {
        let i = key.idx();
        let mut r: Option<V> = None;
        core::mem::swap(&mut r, &mut self.values[i]);
        self.keys[i] = None;
        proof {
            assert(final(self).m() =~= old(self).m().remove(key.key_idx()));
        }
        r
    }

    /// Whether `key` has an entry.
    pub fn contains_key(&self, key: &K) -> (r: bool)
        requires
            self.wf(),
            key.idx_ok(),
            0 <= key.key_idx(),
        ensures
            r == self.m().dom().contains(key.key_idx()),
    {
        let i = key.idx();
        i < self.keys.len() && self.keys[i].is_some()
    }

    /// The value stored under `key`, if any.
    pub fn get(&self, key: &K) -> (r: Option<&V>)
        requires
            self.wf(),
            key.idx_ok(),
            0 <= key.key_idx(),
        ensures
            r is Some <==> self.m().dom().contains(key.key_idx()),
            r is Some ==> *r->0 == self.m()[key.key_idx()],
    {
        let i = key.idx();
        if i < self.keys.len() && self.keys[i].is_some() {
            match &self.values[i] {
                Some(v) => Some(v),
                None => None,
            }
        } else {
            None
        }
    }

    /// Exclusive access to the value stored under `key`, if any.
    pub fn get_mut(&mut self, key: &K) -> (r: Option<&mut V>)
        requires
            old(self).wf(),
            key.idx_ok(),
            0 <= key.key_idx(),
        ensures
            r is Some <==> old(self).m().dom().contains(key.key_idx()),
    {
        let i = key.idx();
        if i < self.keys.len() && self.keys[i].is_some() {
            match &mut self.values[i] {
                Some(v) => Some(v),
                None => None,
            }
        } else {
            None
        }
    }

    /// Whether the map has no entry.
    pub fn is_empty(&self) -> (r: bool)
        requires
            self.wf(),
        ensures
            r <==> self.m().dom() =~= Set::<int>::empty(),
    {
        let mut i: usize = 0;
        while i < self.keys.len()
            invariant
                self.wf(),
                i <= self.keys@.len(),
                forall|k: int| 0 <= k < i ==> (#[trigger] self.keys@[k]) is None,
            decreases self.keys@.len() - i,
        {
            if self.keys[i].is_some() {
                proof {
                    assert(self.m().dom().contains(i as int));
                }
                return false;
            }
            i = i + 1;
        }
        proof {
            assert(self.m().dom() =~= Set::<int>::empty());
        }
        true
    }

    /// The key stored at slot `i`, if the slot is occupied.
    pub fn key_at_slot(&self, i: usize) -> (r: Option<K>)
        requires
            self.wf(),
            i < self.capacity(),
        ensures
            r is Some <==> self.m().dom().contains(i as int),
            r is Some ==> r->0 == self.key_at(i as int) && r->0.key_idx() == i,
    {
        self.keys[i]
    }

    /// The value stored at slot `i`, if the slot is occupied.
    pub fn value_at_slot(&self, i: usize) -> (r: Option<&V>)
        requires
            self.wf(),
            i < self.capacity(),
        ensures
            r is Some <==> self.m().dom().contains(i as int),
            r is Some ==> *r->0 == self.m()[i as int],
    {
        match &self.values[i] {
            Some(v) => Some(v),
            None => None,
        }
    }

    /// All keys with an entry, in increasing index order.
    pub fn keys(&self) -> (r: Vec<K>)
        requires
            self.wf(),
        ensures
            forall|t: int|
                0 <= t < r@.len() ==> self.m().dom().contains((#[trigger] r@[t]).key_idx())
                    && r@[t] == self.key_at(r@[t].key_idx()),
            forall|i: int|
                self.m().dom().contains(i) ==> exists|t: int|
                    0 <= t < r@.len() && (#[trigger] r@[t]).key_idx() == i,
            forall|t1: int, t2: int|
                0 <= t1 < t2 < r@.len() ==> r@[t1].key_idx() < r@[t2].key_idx(),
    {
        let mut r: Vec<K> = Vec::new();
        let mut i: usize = 0;
        while i < self.keys.len()
            invariant
                self.wf(),
                i <= self.keys@.len(),
                forall|t: int|
                    0 <= t < r@.len() ==> self.m().dom().contains((#[trigger] r@[t]).key_idx())
                        && r@[t] == self.key_at(r@[t].key_idx()) && r@[t].key_idx() < i,
                forall|j: int|
                    0 <= j < i && self.m().dom().contains(j) ==> exists|t: int|
                        0 <= t < r@.len() && (#[trigger] r@[t]).key_idx() == j,
                forall|t1: int, t2: int|
                    0 <= t1 < t2 < r@.len() ==> r@[t1].key_idx() < r@[t2].key_idx(),
            decreases self.keys@.len() - i,
        {
            if let Some(k) = self.keys[i] {
                let ghost rlen = r@.len() as int;
                let ghost old_r = r@;
                r.push(k);
                proof {
                    assert(r@[rlen] == k);
                    assert forall|j: int|
                        0 <= j < i + 1 && self.m().dom().contains(j) implies exists|t: int|
                        0 <= t < r@.len() && (#[trigger] r@[t]).key_idx() == j by {
                        if j == i {
                            assert(r@[rlen].key_idx() == j);
                        } else {
                            let t = choose|t: int|
                                0 <= t < rlen && (#[trigger] old_r[t]).key_idx() == j;
                            assert(r@[t] == old_r[t]);
                            assert(r@[t].key_idx() == j);
                        }
                    }
                }
            }
            i = i + 1;
        }
        r
    }

}

impl<K: Indexed + Copy, V: Copy> IndexedMap<K, V> {
    /// All entries, in increasing index order, for copyable values.
    pub fn iter(&self) -> (r: Vec<(K, V)>)
        requires
            self.wf(),
        ensures
            forall|t: int|
                0 <= t < r@.len() ==> self.m().dom().contains((#[trigger] r@[t]).0.key_idx())
                    && r@[t].0 == self.key_at(r@[t].0.key_idx()) && r@[t].1 == self.m()[r@[
                t].0.key_idx()],
            forall|i: int|
                self.m().dom().contains(i) ==> exists|t: int|
                    0 <= t < r@.len() && (#[trigger] r@[t]).0.key_idx() == i,
            forall|t1: int, t2: int|
                0 <= t1 < t2 < r@.len() ==> r@[t1].0.key_idx() < r@[t2].0.key_idx(),
    {
        let mut r: Vec<(K, V)> = Vec::new();
        let mut i: usize = 0;
        while i < self.keys.len()
            invariant
                self.wf(),
                i <= self.keys@.len(),
                forall|t: int|
                    0 <= t < r@.len() ==> self.m().dom().contains((#[trigger] r@[t]).0.key_idx())
                        && r@[t].0 == self.key_at(r@[t].0.key_idx()) && r@[t].1 == self.m()[r@[
                    t].0.key_idx()] && r@[t].0.key_idx() < i,
                forall|j: int|
                    0 <= j < i && self.m().dom().contains(j) ==> exists|t: int|
                        0 <= t < r@.len() && (#[trigger] r@[t]).0.key_idx() == j,
                forall|t1: int, t2: int|
                    0 <= t1 < t2 < r@.len() ==> r@[t1].0.key_idx() < r@[t2].0.key_idx(),
            decreases self.keys@.len() - i,
        {
            if let Some(k) = self.keys[i] {
                if let Some(v) = self.values[i] {
                    let ghost rlen = r@.len() as int;
                    let ghost old_r = r@;
                    r.push((k, v));
                    proof {
                        assert(r@[rlen] == (k, v));
                        assert forall|j: int|
                            0 <= j < i + 1 && self.m().dom().contains(j) implies exists|t: int|
                            0 <= t < r@.len() && (#[trigger] r@[t]).0.key_idx() == j by {
                            if j == i {
                                assert(r@[rlen].0.key_idx() == j);
                            } else {
                                let t = choose|t: int|
                                    0 <= t < rlen && (#[trigger] old_r[t]).0.key_idx() == j;
                                assert(r@[t] == old_r[t]);
                                assert(r@[t].0.key_idx() == j);
                            }
                        }
                    }
                }
            }
            i = i + 1;
        }
        r
    }
}

} // verus!
