//! The generic bounded cache: a fixed-capacity map from byte-sequence
//! keys to values of any type, with least-recently-used eviction. The
//! recency-ordered key index is the wrapped `lru::LruCache`; the values
//! live in a verified slot table, so that everything said about which
//! value sits under which key, and which entry an insertion evicts, is
//! proved here.

use vstd::prelude::*;

use crate::cache_model::{
    contains_key, distinct_keys, index_of_key, lemma_index_of_key_unique, model_insert,
    model_promote, model_remove, value_of_key,
};
use crate::lru_store::{
    lru_bound, lru_contains, lru_entries, lru_get, lru_len, lru_new, lru_peek, lru_peek_mru,
    lru_pop_key, lru_pop_lru, lru_push,
};

verus! {

/// A mapping from byte keys to values with a fixed maximum entry count,
/// tracking recency of use; inserting into a full cache evicts the least
/// recently used entry first.
pub struct BoundedCache<V> {
    capacity: usize,
    index: lru::LruCache<Vec<u8>, usize>,
    slots: Vec<Option<V>>,
    free: Vec<usize>,
}

impl<V> BoundedCache<V> {
    /// The cache's abstract contents: key/value pairs, most recently used
    /// first.
    pub closed spec fn view(&self) -> Seq<(Seq<u8>, V)> {
        Seq::new(
            lru_entries(self.index).len(),
            |i: int|
                (
                    lru_entries(self.index)[i].0,
                    self.slots@[lru_entries(self.index)[i].1 as int].unwrap(),
                ),
        )
    }

    /// The fixed capacity.
    pub closed spec fn bound(&self) -> nat {
        self.capacity as nat
    }

    /// Internal consistency: the key index and the slot table agree, every
    /// live entry owns exactly one filled slot, and no more slots exist
    /// than the capacity allows.
    pub closed spec fn wf(&self) -> bool {
        let es = lru_entries(self.index);
        &&& self.capacity >= 1
        &&& self.capacity as nat == lru_bound(self.index)
        &&& es.len() + self.free@.len() == self.slots@.len()
        &&& self.slots@.len() <= self.capacity
        &&& distinct_keys(es)
        &&& (forall|i: int|
            0 <= i < es.len() ==> (#[trigger] es[i].1 < self.slots@.len()
                && self.slots@[es[i].1 as int] is Some))
        &&& (forall|i: int, j: int| 0 <= i < j < es.len() ==> es[i].1 != es[j].1)
        &&& (forall|i: int|
            0 <= i < self.free@.len() ==> (#[trigger] self.free@[i] < self.slots@.len()
                && self.slots@[self.free@[i] as int] is None))
        &&& (forall|i: int, j: int| 0 <= i < j < self.free@.len() ==> self.free@[i] != self.free@[j])
    }

    /// The abstract contents mirror the key index entry by entry.
    proof fn lemma_view_bridge(&self, k: Seq<u8>)
        requires
            self.wf(),
        ensures
            self@.len() == lru_entries(self.index).len(),
            distinct_keys(self@),
            forall|i: int| 0 <= i < self@.len() ==> (#[trigger] self@[i]).0 == lru_entries(
                self.index,
            )[i].0,
            contains_key(self@, k) == contains_key(lru_entries(self.index), k),
            contains_key(lru_entries(self.index), k) ==> index_of_key(self@, k) == index_of_key(
                lru_entries(self.index),
                k,
            ) && value_of_key(self@, k) == self.slots@[value_of_key(
                lru_entries(self.index),
                k,
            ) as int].unwrap(),
    {
        let es = lru_entries(self.index);
        let vw = self@;
        assert forall|i: int, j: int| 0 <= i < j < vw.len() implies vw[i].0 != vw[j].0 by {
            assert(es[i].0 != es[j].0);
        }
        if contains_key(es, k) {
            let i = index_of_key(es, k);
            assert(0 <= i < es.len() && es[i].0 == k);
            assert(vw[i].0 == k);
            lemma_index_of_key_unique(vw, k, i);
            lemma_index_of_key_unique(es, k, i);
        }
        if contains_key(vw, k) {
            let i = index_of_key(vw, k);
            assert(0 <= i < vw.len() && vw[i].0 == k);
            assert(es[i].0 == k);
            assert(contains_key(es, k));
        }
    }

    /// The contents never hold two entries with the same key, and never
    /// more of them than the capacity allows.
    pub proof fn lemma_distinct(&self)
        requires
            self.wf(),
        ensures
            distinct_keys(self@),
            self@.len() <= self.bound(),
            self.bound() >= 1,
    {
        let es = lru_entries(self.index);
        let vw = self@;
        assert forall|i: int, j: int| 0 <= i < j < vw.len() implies vw[i].0 != vw[j].0 by {
            assert(es[i].0 != es[j].0);
        }
    }

    /// An empty cache with the given capacity.
    pub fn new(capacity: usize) -> (r: Self)
        requires
            1 <= capacity,
        ensures
            r.wf(),
            r@ == Seq::<(Seq<u8>, V)>::empty(),
            r.bound() == capacity as nat,
    {
        let index = lru_new(capacity);
        let r = Self { capacity, index, slots: Vec::new(), free: Vec::new() };
        proof {
            assert(r@ =~= Seq::<(Seq<u8>, V)>::empty());
        }
        r
    }

    /// The number of entries currently cached.
    pub fn len(&self) -> (r: usize)
        requires
            self.wf(),
        ensures
            r == self@.len(),
    {
        lru_len(&self.index)
    }

    /// The fixed capacity.
    pub fn capacity(&self) -> (r: usize)
        ensures
            r as nat == self.bound(),
    {
        self.capacity
    }

    /// Whether the key is present, without touching the recency order.
    pub fn contains(&self, k: &Vec<u8>) -> (r: bool)
        requires
            self.wf(),
        ensures
            r == contains_key(self@, k@),
    {
        proof {
            self.lemma_view_bridge(k@);
        }
        lru_contains(&self.index, k)
    }

    /// Look the key up; a hit returns the cached value and promotes its
    /// entry to most recently used, a miss changes nothing.
    pub fn get(&mut self, k: &Vec<u8>) -> (r: Option<&V>)
        requires
            old(self).wf(),
        ensures
            final(self).wf(),
            final(self).bound() == old(self).bound(),
            final(self)@ == model_promote(old(self)@, k@),
            match r {
                Some(v) => contains_key(old(self)@, k@) && *v == value_of_key(old(self)@, k@),
                None => !contains_key(old(self)@, k@) && final(self)@ == old(self)@,
            },
    {
        proof {
            self.lemma_view_bridge(k@);
        }
        let ghost es0 = lru_entries(self.index);
        let ghost vw0 = self@;
        let got = lru_get(&mut self.index, k);
        match got {
            None => {
                proof {
                    assert(self@ =~= vw0);
                }
                None
            },
            Some(i) => {
                proof {
                    let es1 = lru_entries(self.index);
                    let io = index_of_key(es0, k@);
                    assert(0 <= io < es0.len() && es0[io].0 == k@);
                    assert(es1 == seq![es0[io]] + es0.remove(io));
                    es0.remove_ensures(io);
                    assert forall|t: int, u: int| 0 <= t < u < es1.len() implies es1[t].0
                        != es1[u].0 && es1[t].1 != es1[u].1 by {
                        if t == 0 {
                            if u - 1 < io {
                                assert(es1[u] == es0[u - 1]);
                            } else {
                                assert(es1[u] == es0[u]);
                            }
                        } else {
                            if t - 1 < io {
                                assert(es1[t] == es0[t - 1]);
                            } else {
                                assert(es1[t] == es0[t]);
                            }
                            if u - 1 < io {
                                assert(es1[u] == es0[u - 1]);
                            } else {
                                assert(es1[u] == es0[u]);
                            }
                        }
                    }
                    assert forall|t: int| 0 <= t < es1.len() implies (#[trigger] es1[t].1
                        < self.slots@.len() && self.slots@[es1[t].1 as int] is Some) by {
                        if t == 0 {
                            assert(es1[t] == es0[io]);
                        } else if t - 1 < io {
                            assert(es1[t] == es0[t - 1]);
                        } else {
                            assert(es1[t] == es0[t]);
                        }
                    }
                    assert(self.wf());
                    self.lemma_view_bridge(k@);
                    assert(self@ =~= model_promote(vw0, k@)) by {
                        let vw1 = self@;
                        let mp = model_promote(vw0, k@);
                        lemma_index_of_key_unique(vw0, k@, io);
                        assert(mp == seq![vw0[io]] + vw0.remove(io));
                        vw0.remove_ensures(io);
                        assert(vw1.len() == mp.len());
                        assert forall|t: int| 0 <= t < vw1.len() implies vw1[t] == mp[t] by {
                            if t == 0 {
                                assert(es1[0] == es0[io]);
                                assert(vw1[0] == vw0[io]);
                            } else if t - 1 < io {
                                assert(es1[t] == es0[t - 1]);
                                assert(vw1[t] == vw0[t - 1]);
                                assert(mp[t] == vw0.remove(io)[t - 1]);
                            } else {
                                assert(es1[t] == es0[t]);
                                assert(vw1[t] == vw0[t]);
                                assert(mp[t] == vw0.remove(io)[t - 1]);
                            }
                        }
                    }
                    assert(i == value_of_key(es0, k@));
                    assert(i < self.slots@.len() && self.slots@[i as int] is Some) by {
                        lemma_index_of_key_unique(es0, k@, io);
                        assert(es0[io].1 == i);
                    }
                }
                let vref = self.slots[i].as_ref().unwrap();
                Some(vref)
            },
        }
    }

    /// Insert a value under a key, as most recently used. An existing
    /// entry under the same key is replaced; otherwise, if the cache is
    /// full, the least recently used entry is evicted. The displaced
    /// value, if any, is returned.
    pub fn insert(&mut self, k: Vec<u8>, v: V) -> (displaced: Option<V>)
        requires
            old(self).wf(),
        ensures
            final(self).wf(),
            final(self).bound() == old(self).bound(),
            final(self)@ == model_insert(old(self)@, old(self).bound(), k@, v),
            match displaced {
                Some(d) => (contains_key(old(self)@, k@) && d == value_of_key(old(self)@, k@)) || (
                !contains_key(old(self)@, k@) && old(self)@.len() == old(self).bound() && d == old(
                    self,
                )@.last().1),
                None => !contains_key(old(self)@, k@) && old(self)@.len() < old(self).bound(),
            },
    {
        proof {
            self.lemma_view_bridge(k@);
        }
        let ghost es0 = lru_entries(self.index);
        let ghost vw0 = self@;
        let ghost was_contained = contains_key(es0, k@);
        let mut freed: Option<usize> = lru_pop_key(&mut self.index, &k);
        proof {
            if was_contained {
                let io = index_of_key(es0, k@);
                assert(0 <= io < es0.len() && es0[io].0 == k@);
                es0.remove_ensures(io);
            }
        }
        if freed.is_none() && lru_len(&self.index) == self.capacity {
            freed = lru_pop_lru(&mut self.index);
            proof {
                assert(lru_entries(self.index) == es0.drop_last());
            }
        }
        let ghost es1 = lru_entries(self.index);
        let ghost removed_index: Option<int> = if was_contained {
            Some(index_of_key(es0, k@))
        } else if es0.len() >= old(self).bound() {
            Some(es0.len() - 1)
        } else {
            None
        };
        proof {
            // after the removal phase the index lost exactly the displaced
            // entry, if there was one
            match removed_index {
                Some(ri) => {
                    assert(es1 == es0.remove(ri));
                    es0.remove_ensures(ri);
                    assert(freed == Some(es0[ri].1));
                },
                None => {
                    assert(es1 == es0);
                    assert(freed is None);
                },
            }
            assert(es1.len() < self.capacity);
            assert forall|t: int, u: int| 0 <= t < u < es1.len() implies es1[t].0 != es1[u].0
                && es1[t].1 != es1[u].1 by {
                match removed_index {
                    Some(ri) => {
                        if t < ri {
                            assert(es1[t] == es0[t]);
                        } else {
                            assert(es1[t] == es0[t + 1]);
                        }
                        if u < ri {
                            assert(es1[u] == es0[u]);
                        } else {
                            assert(es1[u] == es0[u + 1]);
                        }
                    },
                    None => {},
                }
            }
        }
        let mut displaced: Option<V> = None;
        let slot: usize;
        match freed {
            Some(i) => {
                proof {
                    let ri = removed_index.unwrap();
                    assert(es0[ri].1 == i);
                    assert(i < self.slots@.len() && self.slots@[i as int] is Some);
                    assert forall|t: int| 0 <= t < es1.len() implies es1[t].1 != i by {
                        if t < ri {
                            assert(es1[t] == es0[t]);
                        } else {
                            assert(es1[t] == es0[t + 1]);
                        }
                    }
                }
                displaced = self.slots[i].take();
                self.slots[i] = Some(v);
                slot = i;
            },
            None => {
                let popped_free = self.free.pop();
                match popped_free {
                    Some(f) => {
                        proof {
                            let fl0 = old(self).free@;
                            assert(f == fl0.last());
                            assert(f < self.slots@.len() && self.slots@[f as int] is None);
                            assert forall|t: int| 0 <= t < es1.len() implies es1[t].1 != f by {
                                assert(self.slots@[es1[t].1 as int] is Some);
                            }
                        }
                        self.slots[f] = Some(v);
                        slot = f;
                    },
                    None => {
                        slot = self.slots.len();
                        self.slots.push(Some(v));
                    },
                }
            },
        }
        let ghost slots1 = self.slots@;
        let ghost free1 = self.free@;
        proof {
            // the slot table is unchanged at every index another entry uses
            assert forall|t: int| 0 <= t < es1.len() implies (#[trigger] es1[t].1 < slots1.len()
                && slots1[es1[t].1 as int] is Some && slots1[es1[t].1 as int] == old(
                self,
            ).slots@[es1[t].1 as int]) by {
                match removed_index {
                    Some(ri) => {
                        if t < ri {
                            assert(es1[t] == es0[t]);
                        } else {
                            assert(es1[t] == es0[t + 1]);
                        }
                    },
                    None => {},
                }
            }
            assert(slot < slots1.len() && slots1[slot as int] == Some(v));
            assert forall|t: int| 0 <= t < free1.len() implies (#[trigger] free1[t] < slots1.len()
                && slots1[free1[t] as int] is None) by {}
            assert forall|t: int| 0 <= t < es1.len() implies es1[t].1 != slot by {}
        }
        let pushed = lru_push(&mut self.index, k, slot);
        proof {
            let es2 = lru_entries(self.index);
            assert(!contains_key(es1, k@)) by {
                if contains_key(es1, k@) {
                    let j = index_of_key(es1, k@);
                    assert(0 <= j < es1.len() && es1[j].0 == k@);
                    match removed_index {
                        Some(ri) => {
                            if was_contained {
                                if j < ri {
                                    assert(es1[j] == es0[j]);
                                    lemma_index_of_key_unique(es0, k@, j);
                                } else {
                                    assert(es1[j] == es0[j + 1]);
                                    lemma_index_of_key_unique(es0, k@, j + 1);
                                }
                                assert(false);
                            } else {
                                if j < ri {
                                    assert(es1[j] == es0[j]);
                                } else {
                                    assert(es1[j] == es0[j + 1]);
                                }
                                assert(contains_key(es0, k@));
                                assert(false);
                            }
                        },
                        None => {
                            assert(contains_key(es0, k@));
                            assert(false);
                        },
                    }
                }
            }
            assert(es2 == seq![(k@, slot)] + es1);
            // well-formedness of the final state
            assert forall|t: int, u: int| 0 <= t < u < es2.len() implies es2[t].0 != es2[u].0
                && es2[t].1 != es2[u].1 by {
                if t == 0 {
                    assert(es2[u] == es1[u - 1]);
                    if es2[0].0 == es2[u].0 {
                        assert(contains_key(es1, k@));
                    }
                } else {
                    assert(es2[t] == es1[t - 1]);
                    assert(es2[u] == es1[u - 1]);
                }
            }
            assert forall|t: int| 0 <= t < es2.len() implies (#[trigger] es2[t].1 < slots1.len()
                && slots1[es2[t].1 as int] is Some) by {
                if t > 0 {
                    assert(es2[t] == es1[t - 1]);
                }
            }
            assert(self.wf());
            // the final contents are exactly the model's insertion
            let vw2 = self@;
            let mi = model_insert(vw0, old(self).bound(), k@, v);
            assert(vw0.len() == es0.len());
            if was_contained {
                let io = index_of_key(es0, k@);
                lemma_index_of_key_unique(es0, k@, io);
                lemma_index_of_key_unique(vw0, k@, io);
                assert(contains_key(vw0, k@));
                assert(mi == seq![(k@, v)] + vw0.remove(io));
                vw0.remove_ensures(io);
                assert(vw2 =~= mi) by {
                    assert(vw2.len() == mi.len());
                    assert forall|t: int| 0 <= t < vw2.len() implies vw2[t] == mi[t] by {
                        if t == 0 {
                        } else {
                            assert(vw2[t] == (es1[t - 1].0, slots1[es1[t - 1].1 as int].unwrap()));
                            if t - 1 < io {
                                assert(es1[t - 1] == es0[t - 1]);
                                assert(mi[t] == vw0.remove(io)[t - 1]);
                                assert(vw0.remove(io)[t - 1] == vw0[t - 1]);
                            } else {
                                assert(es1[t - 1] == es0[t]);
                                assert(mi[t] == vw0.remove(io)[t - 1]);
                                assert(vw0.remove(io)[t - 1] == vw0[t]);
                            }
                        }
                    }
                }
                assert(displaced == Some(value_of_key(vw0, k@)));
            } else {
                assert(!contains_key(vw0, k@)) by {
                    if contains_key(vw0, k@) {
                        let j = index_of_key(vw0, k@);
                        assert(es0[j].0 == k@);
                        assert(contains_key(es0, k@));
                    }
                }
                if es0.len() >= old(self).bound() {
                    assert(mi == seq![(k@, v)] + vw0.drop_last());
                    assert(vw2 =~= mi) by {
                        assert forall|t: int| 0 <= t < vw2.len() implies vw2[t] == mi[t] by {
                            if t > 0 {
                                assert(es1[t - 1] == es0[t - 1]);
                                assert(vw0.drop_last()[t - 1] == vw0[t - 1]);
                            }
                        }
                    }
                    assert(displaced == Some(vw0.last().1)) by {
                        assert(es1 == es0.remove(es0.len() - 1));
                        assert(freed == Some(es0[es0.len() - 1].1));
                    }
                } else {
                    assert(mi == seq![(k@, v)] + vw0);
                    assert(vw2 =~= mi) by {
                        assert forall|t: int| 0 <= t < vw2.len() implies vw2[t] == mi[t] by {
                            if t > 0 {
                                assert(es1[t - 1] == es0[t - 1]);
                            }
                        }
                    }
                    assert(displaced is None);
                }
            }
        }
        displaced
    }

    /// Remove the entry under the key and return its value; the order of
    /// the remaining entries is unchanged.
    pub fn remove(&mut self, k: &Vec<u8>) -> (r: Option<V>)
        requires
            old(self).wf(),
        ensures
            final(self).wf(),
            final(self).bound() == old(self).bound(),
            final(self)@ == model_remove(old(self)@, k@),
            match r {
                Some(v) => contains_key(old(self)@, k@) && v == value_of_key(old(self)@, k@),
                None => !contains_key(old(self)@, k@) && final(self)@ == old(self)@,
            },
    {
        proof {
            self.lemma_view_bridge(k@);
        }
        let ghost es0 = lru_entries(self.index);
        let ghost vw0 = self@;
        let popped = lru_pop_key(&mut self.index, k);
        match popped {
            None => {
                proof {
                    assert(self@ =~= vw0);
                }
                None
            },
            Some(i) => {
                proof {
                    let io = index_of_key(es0, k@);
                    assert(0 <= io < es0.len() && es0[io].0 == k@);
                    assert(es0[io].1 == i);
                    assert(i < self.slots@.len() && self.slots@[i as int] is Some);
                    es0.remove_ensures(io);
                    let es1 = lru_entries(self.index);
                    assert(es1 == es0.remove(io));
                    assert forall|t: int| 0 <= t < es1.len() implies es1[t].1 != i by {
                        if t < io {
                            assert(es1[t] == es0[t]);
                        } else {
                            assert(es1[t] == es0[t + 1]);
                        }
                    }
                }
                let v = self.slots[i].take();
                self.free.push(i);
                proof {
                    let es1 = lru_entries(self.index);
                    let io = index_of_key(es0, k@);
                    assert forall|t: int, u: int| 0 <= t < u < es1.len() implies es1[t].0
                        != es1[u].0 && es1[t].1 != es1[u].1 by {
                        if t < io {
                            assert(es1[t] == es0[t]);
                        } else {
                            assert(es1[t] == es0[t + 1]);
                        }
                        if u < io {
                            assert(es1[u] == es0[u]);
                        } else {
                            assert(es1[u] == es0[u + 1]);
                        }
                    }
                    assert forall|t: int| 0 <= t < es1.len() implies (#[trigger] es1[t].1
                        < self.slots@.len() && self.slots@[es1[t].1 as int] is Some) by {
                        if t < io {
                            assert(es1[t] == es0[t]);
                        } else {
                            assert(es1[t] == es0[t + 1]);
                        }
                    }
                    assert forall|t: int| 0 <= t < self.free@.len() implies (#[trigger] self.free@[t]
                        < self.slots@.len() && self.slots@[self.free@[t] as int] is None) by {
                        if t < self.free@.len() - 1 {
                            assert(self.free@[t] == old(self).free@[t]);
                            assert(old(self).free@[t] != i);
                        }
                    }
                    assert forall|t: int, u: int| 0 <= t < u < self.free@.len() implies self.free@[t]
                        != self.free@[u] by {
                        if u < self.free@.len() - 1 {
                        } else {
                            assert(old(self).slots@[old(self).free@[t] as int] is None);
                        }
                    }
                    assert(self.wf());
                    lemma_index_of_key_unique(vw0, k@, io);
                    assert(model_remove(vw0, k@) == vw0.remove(io));
                    vw0.remove_ensures(io);
                    assert(self@ =~= vw0.remove(io)) by {
                        let vw1 = self@;
                        assert forall|t: int| 0 <= t < vw1.len() implies vw1[t] == vw0.remove(io)[t]
                            by {
                            if t < io {
                                assert(es1[t] == es0[t]);
                            } else {
                                assert(es1[t] == es0[t + 1]);
                            }
                        }
                    }
                    assert(v == Some(value_of_key(vw0, k@)));
                }
                v
            },
        }
    }

    /// Return the cached value for the key, computing and inserting it on
    /// a miss. A hit only promotes the entry; the compute function's
    /// result plays no part in the outcome. On a miss the compute function
    /// runs once: if it fails, the error is passed through and the cache
    /// is left exactly as it was — no entry inserted, no eviction; if it
    /// succeeds, the value is inserted under the usual eviction rule.
    pub fn try_get_or_insert<E, F: FnOnce() -> Result<V, E>>(
        &mut self,
        k: &Vec<u8>,
        compute: F,
    ) -> (r: Result<&V, E>)
        requires
            old(self).wf(),
            call_requires(compute, ()),
        ensures
            final(self).wf(),
            final(self).bound() == old(self).bound(),
            match r {
                Ok(v) => {
                    if contains_key(old(self)@, k@) {
                        final(self)@ == model_promote(old(self)@, k@) && *v == value_of_key(
                            old(self)@,
                            k@,
                        )
                    } else {
                        call_ensures(compute, (), Ok(*v)) && final(self)@ == model_insert(
                            old(self)@,
                            old(self).bound(),
                            k@,
                            *v,
                        )
                    }
                },
                Err(e) => !contains_key(old(self)@, k@) && final(self)@ == old(self)@
                    && call_ensures(compute, (), Err(e)),
            },
    {
        if self.contains(k) {
            let got = self.get(k);
            return Ok(got.unwrap());
        }
        let computed = compute();
        match computed {
            Err(e) => Err(e),
            Ok(nv) => {
                let key = k.clone();
                proof {
                    assert(key@ =~= k@);
                }
                let displaced = self.insert(key, nv);
                let out = self.peek_most_recent();
                Ok(out.unwrap())
            },
        }
    }

    /// Return the cached value for the key, making and inserting it on a
    /// miss; the making step cannot fail.
    pub fn get_or_insert_with<F: FnOnce() -> V>(&mut self, k: &Vec<u8>, make: F) -> (r: &V)
        requires
            old(self).wf(),
            call_requires(make, ()),
        ensures
            final(self).wf(),
            final(self).bound() == old(self).bound(),
            contains_key(old(self)@, k@) ==> final(self)@ == model_promote(old(self)@, k@) && *r
                == value_of_key(old(self)@, k@),
            !contains_key(old(self)@, k@) ==> call_ensures(make, (), *r) && final(self)@
                == model_insert(old(self)@, old(self).bound(), k@, *r),
    {
        if self.contains(k) {
            let got = self.get(k);
            return got.unwrap();
        }
        let nv = make();
        let key = k.clone();
        proof {
            assert(key@ =~= k@);
        }
        let displaced = self.insert(key, nv);
        let out = self.peek_most_recent();
        out.unwrap()
    }

    /// The value under the key, if any, without touching the recency
    /// order.
    pub fn peek_by_key(&self, k: &Vec<u8>) -> (r: Option<&V>)
        requires
            self.wf(),
        ensures
            match r {
                Some(v) => contains_key(self@, k@) && *v == value_of_key(self@, k@),
                None => !contains_key(self@, k@),
            },
    {
        proof {
            self.lemma_view_bridge(k@);
        }
        let peeked = lru_peek(&self.index, k);
        match peeked {
            None => None,
            Some(i) => {
                proof {
                    let es = lru_entries(self.index);
                    let io = index_of_key(es, k@);
                    assert(0 <= io < es.len() && es[io].0 == k@);
                    assert(es[io].1 == i);
                    assert(i < self.slots@.len() && self.slots@[i as int] is Some);
                }
                Some(self.slots[i].as_ref().unwrap())
            },
        }
    }

    /// The most recently used entry's value, if any; the recency order is
    /// not touched.
    pub fn peek_most_recent(&self) -> (r: Option<&V>)
        requires
            self.wf(),
        ensures
            match r {
                Some(v) => self@.len() > 0 && *v == self@.first().1,
                None => self@.len() == 0,
            },
    {
        let peeked = lru_peek_mru(&self.index);
        match peeked {
            None => None,
            Some(i) => {
                proof {
                    let es = lru_entries(self.index);
                    assert(es[0].1 == i);
                    assert(i < self.slots@.len() && self.slots@[i as int] is Some);
                    assert(self@.first().1 == self.slots@[i as int].unwrap());
                }
                Some(self.slots[i].as_ref().unwrap())
            },
        }
    }
}

} // verus!
