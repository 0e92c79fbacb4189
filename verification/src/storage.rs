use vstd::prelude::*;

verus! {

/// Keys of a storage map: plain copyable values whose executable equality is
/// spec equality.
pub trait StorageKey: Sized {
    fn key_eq(&self, other: &Self) -> (r: bool)
        ensures
            r == (*self == *other),
    ;
}

impl StorageKey for u32 {
    fn key_eq(&self, other: &Self) -> (r: bool) {
        *self == *other
    }
}

impl StorageKey for u64 {
    fn key_eq(&self, other: &Self) -> (r: bool) {
        *self == *other
    }
}

impl StorageKey for u128 {
    fn key_eq(&self, other: &Self) -> (r: bool) {
        *self == *other
    }
}

impl<A: StorageKey, B: StorageKey> StorageKey for (A, B) {
    fn key_eq(&self, other: &Self) -> (r: bool) {
        let a: bool = self.0.key_eq(&other.0);
        let b: bool = self.1.key_eq(&other.1);
        a && b
    }
}

/// A key-value store: the entries in insertion order, each key at most once.
pub struct StorageMap<K, V> {
    entries: Vec<(K, V)>,
}

/// The map `m` without the keys whose first component is `prefix`.
pub open spec fn without_prefix<K1, K2, V>(m: Map<(K1, K2), V>, prefix: K1) -> Map<(K1, K2), V> {
    Map::new(|k: (K1, K2)| m.dom().contains(k) && k.0 != prefix, |k: (K1, K2)| m[k])
}

impl<K: StorageKey + Copy, V: Copy> StorageMap<K, V> {
    /// The stored entries, in storage order.
    pub closed spec fn entries(&self) -> Seq<(K, V)> {
        self.entries@
    }

    /// No key is stored twice.
    pub closed spec fn wf(&self) -> bool {
        forall|i: int, j: int|
            0 <= i < self.entries@.len() && 0 <= j < self.entries@.len() && i != j
                ==> #[trigger] self.entries@[i].0 != #[trigger] self.entries@[j].0
    }

    spec fn has_key(&self, k: K) -> bool {
        exists|i: int| 0 <= i < self.entries@.len() && #[trigger] self.entries@[i].0 == k
    }

    spec fn index_of(&self, k: K) -> int {
        choose|i: int| 0 <= i < self.entries@.len() && #[trigger] self.entries@[i].0 == k
    }

    /// The contents of the map.
    pub closed spec fn as_map(&self) -> Map<K, V> {
        Map::new(|k: K| self.has_key(k), |k: K| self.entries@[self.index_of(k)].1)
    }

    proof fn lemma_index(&self, i: int)
        requires
            self.wf(),
            0 <= i < self.entries@.len(),
        ensures
            self.as_map().dom().contains(self.entries@[i].0),
            self.as_map()[self.entries@[i].0] == self.entries@[i].1,
            self.index_of(self.entries@[i].0) == i,
    {
        let k = self.entries@[i].0;
        assert(self.has_key(k));
        let j = self.index_of(k);
        assert(self.entries@[j].0 == k);
    }

    /// Each stored entry is in the map, and every key of the map is stored at
    /// some position.
    pub proof fn lemma_entries(&self)
        requires
            self.wf(),
        ensures
            forall|i: int|
                0 <= i < self.entries().len() ==> {
                    &&& self@.dom().contains(#[trigger] self.entries()[i].0)
                    &&& self@[self.entries()[i].0] == self.entries()[i].1
                },
            forall|k: K|
                #[trigger] self@.dom().contains(k) ==> exists|i: int|
                    0 <= i < self.entries().len() && #[trigger] self.entries()[i].0 == k,
            forall|i: int, j: int|
                0 <= i < self.entries().len() && 0 <= j < self.entries().len() && i != j
                    ==> #[trigger] self.entries()[i].0 != #[trigger] self.entries()[j].0,
    {
        assert forall|i: int| 0 <= i < self.entries().len() implies {
            &&& self@.dom().contains(#[trigger] self.entries()[i].0)
            &&& self@[self.entries()[i].0] == self.entries()[i].1
        } by {
            self.lemma_index(i);
        }
        assert forall|k: K| #[trigger] self@.dom().contains(k) implies exists|i: int|
            0 <= i < self.entries().len() && #[trigger] self.entries()[i].0 == k by {
            let i = self.index_of(k);
            assert(self.entries()[i].0 == k);
        }
    }

    /// An empty map.
    pub fn new() -> (m: Self)
        ensures
            m.wf(),
            m@ == Map::<K, V>::empty(),
            m.entries().len() == 0,
    {
        let m = StorageMap { entries: Vec::new() };
        assert(m.as_map() =~= Map::<K, V>::empty());
        m
    }

    /// Number of stored entries.
    pub fn len(&self) -> (n: usize)
        ensures
            n == self.entries().len(),
    {
        self.entries.len()
    }

    /// The entry stored at position `i`.
    pub fn entry_at(&self, i: usize) -> (e: (K, V))
        requires
            i < self.entries().len(),
        ensures
            e == self.entries()[i as int],
    {
        self.entries[i]
    }

    fn find(&self, k: &K) -> (r: Option<usize>)
        requires
            self.wf(),
        ensures
            match r {
                Some(i) => i < self.entries@.len() && self.entries@[i as int].0 == *k,
                None => !self.has_key(*k),
            },
    {
        let n: usize = self.entries.len();
        let mut i: usize = 0;
        while i < n
            invariant
                n == self.entries@.len(),
                i <= n,
                forall|j: int| 0 <= j < i ==> #[trigger] self.entries@[j].0 != *k,
            decreases n - i,
        {
            if self.entries[i].0.key_eq(k) {
                return Some(i);
            }
            i = i + 1;
        }
        None
    }

    /// The value stored under `k`, if any.
    pub fn get(&self, k: &K) -> (r: Option<V>)
        requires
            self.wf(),
        ensures
            r == (if self@.dom().contains(*k) {
                Some(self@[*k])
            } else {
                None::<V>
            }),
    {
        match self.find(k) {
            Some(i) => {
                proof {
                    self.lemma_index(i as int);
                }
                Some(self.entries[i].1)
            },
            None => None,
        }
    }

    /// Whether a value is stored under `k`.
    pub fn contains_key(&self, k: &K) -> (r: bool)
        requires
            self.wf(),
        ensures
            r == self@.dom().contains(*k),
    {
        match self.find(k) {
            Some(i) => {
                proof {
                    self.lemma_index(i as int);
                }
                true
            },
            None => false,
        }
    }

    /// Stores `v` under `k`, replacing any earlier value.
    pub fn insert(&mut self, k: K, v: V)
        requires
            old(self).wf(),
        ensures
            final(self).wf(),
            final(self)@ == old(self)@.insert(k, v),
    {
        let ghost pre = *self;
        match self.find(&k) {
            Some(i) => {
                self.entries.set(i, (k, v));
                assert forall|k2: K| #[trigger] self.has_key(k2) == pre.has_key(k2) by {
                    if pre.has_key(k2) {
                        let j = pre.index_of(k2);
                        if j == i {
                            assert(self.entries@[i as int].0 == k2);
                        } else {
                            assert(self.entries@[j].0 == k2);
                        }
                    }
                    if self.has_key(k2) {
                        let j = self.index_of(k2);
                        if j == i {
                            assert(pre.entries@[i as int].0 == k2);
                        } else {
                            assert(pre.entries@[j].0 == k2);
                        }
                    }
                }
                assert forall|k2: K| self.has_key(k2) implies self.entries@[self.index_of(k2)].1
                    == (if k2 == k {
                    v
                } else {
                    pre.entries@[pre.index_of(k2)].1
                }) by {
                    let j = self.index_of(k2);
                    if k2 == k {
                        assert(self.entries@[i as int].0 == k2);
                    } else {
                        let j0 = pre.index_of(k2);
                        assert(pre.entries@[j0].0 == k2);
                        assert(j0 != i);
                        assert(self.entries@[j0].0 == k2);
                    }
                }
                assert(self.as_map() =~= pre.as_map().insert(k, v));
            },
            None => {
                self.entries.push((k, v));
                let ghost n: int = pre.entries@.len() as int;
                assert forall|k2: K| #[trigger] self.has_key(k2) == (pre.has_key(k2) || k2 == k) by {
                    if pre.has_key(k2) {
                        let j = pre.index_of(k2);
                        assert(self.entries@[j].0 == k2);
                    }
                    if k2 == k {
                        assert(self.entries@[n].0 == k2);
                    }
                    if self.has_key(k2) && k2 != k {
                        let j = self.index_of(k2);
                        assert(pre.entries@[j].0 == k2);
                    }
                }
                assert forall|k2: K| self.has_key(k2) implies self.entries@[self.index_of(k2)].1
                    == (if k2 == k {
                    v
                } else {
                    pre.entries@[pre.index_of(k2)].1
                }) by {
                    let j = self.index_of(k2);
                    if k2 == k {
                        assert(self.entries@[n].0 == k2);
                    } else {
                        let j0 = pre.index_of(k2);
                        assert(pre.entries@[j0].0 == k2);
                        assert(self.entries@[j0].0 == k2);
                    }
                }
                assert(self.as_map() =~= pre.as_map().insert(k, v));
            },
        }
    }

    /// Removes the value stored under `k`, if any.
    pub fn remove(&mut self, k: &K)
        requires
            old(self).wf(),
        ensures
            final(self).wf(),
            final(self)@ == old(self)@.remove(*k),
    {
        let ghost pre = *self;
        match self.find(k) {
            Some(i) => {
                self.entries.remove(i);
                assert forall|j: int| 0 <= j < self.entries@.len() implies #[trigger] self.entries@[j]
                    == pre.entries@[if j < i {
                    j
                } else {
                    j + 1
                }] by {}
                assert forall|k2: K| #[trigger] self.has_key(k2) == (pre.has_key(k2) && k2 != *k) by {
                    if pre.has_key(k2) && k2 != *k {
                        let j = pre.index_of(k2);
                        assert(j != i);
                        if j < i {
                            assert(self.entries@[j].0 == k2);
                        } else {
                            assert(self.entries@[j - 1].0 == k2);
                        }
                    }
                    if self.has_key(k2) {
                        let j = self.index_of(k2);
                        if j < i {
                            assert(pre.entries@[j].0 == k2);
                        } else {
                            assert(pre.entries@[j + 1].0 == k2);
                        }
                    }
                }
                assert forall|k2: K| self.has_key(k2) implies self.entries@[self.index_of(k2)].1
                    == pre.entries@[pre.index_of(k2)].1 by {
                    let j = self.index_of(k2);
                    let j0 = if j < i {
                        j
                    } else {
                        j + 1
                    };
                    assert(pre.entries@[j0].0 == k2);
                }
                assert(self.as_map() =~= pre.as_map().remove(*k));
            },
            None => {
                assert(self.as_map() =~= pre.as_map().remove(*k));
            },
        }
    }
}

impl<K1: StorageKey + Copy, K2: StorageKey + Copy, V: Copy> StorageMap<(K1, K2), V> {
    /// Removes every entry whose first key is `prefix` and hands them out as
    /// (second key, value) pairs, in storage order.
    pub fn drain_prefix(&mut self, prefix: &K1) -> (drained: Vec<(K2, V)>)
        requires
            old(self).wf(),
        ensures
            final(self).wf(),
            final(self)@ == without_prefix(old(self)@, *prefix),
            forall|i: int|
                0 <= i < drained@.len() ==> {
                    &&& old(self)@.dom().contains((*prefix, #[trigger] drained@[i].0))
                    &&& old(self)@[(*prefix, drained@[i].0)] == drained@[i].1
                },
            forall|k2: K2|
                #[trigger] old(self)@.dom().contains((*prefix, k2)) ==> exists|i: int|
                    0 <= i < drained@.len() && #[trigger] drained@[i].0 == k2,
            forall|i: int, j: int|
                0 <= i < drained@.len() && 0 <= j < drained@.len() && i != j
                    ==> #[trigger] drained@[i].0 != #[trigger] drained@[j].0,
    {
        let ghost pre = *self;
        proof {
            pre.lemma_entries();
        }
        let n: usize = self.entries.len();
        let mut kept: Vec<((K1, K2), V)> = Vec::new();
        let mut drained: Vec<(K2, V)> = Vec::new();
        let ghost mut ksrc: Seq<int> = Seq::empty();
        let ghost mut dsrc: Seq<int> = Seq::empty();
        let mut idx: usize = 0;
        while idx < n
            invariant
                *self == pre,
                pre.wf(),
                n == pre.entries@.len(),
                idx <= n,
                ksrc.len() == kept@.len(),
                dsrc.len() == drained@.len(),
                forall|j: int|
                    0 <= j < ksrc.len() ==> 0 <= #[trigger] ksrc[j] < idx && kept@[j]
                        == pre.entries@[ksrc[j]] && pre.entries@[ksrc[j]].0.0 != *prefix,
                forall|j: int, l: int| 0 <= j < l < ksrc.len() ==> #[trigger] ksrc[j] < #[trigger] ksrc[l],
                forall|m: int|
                    0 <= m < idx && #[trigger] pre.entries@[m].0.0 != *prefix ==> exists|j: int|
                        0 <= j < ksrc.len() && #[trigger] ksrc[j] == m,
                forall|j: int|
                    0 <= j < dsrc.len() ==> 0 <= #[trigger] dsrc[j] < idx && pre.entries@[dsrc[j]].0
                        == (*prefix, drained@[j].0) && pre.entries@[dsrc[j]].1 == drained@[j].1,
                forall|j: int, l: int| 0 <= j < l < dsrc.len() ==> #[trigger] dsrc[j] < #[trigger] dsrc[l],
                forall|m: int|
                    0 <= m < idx && #[trigger] pre.entries@[m].0.0 == *prefix ==> exists|j: int|
                        0 <= j < dsrc.len() && #[trigger] dsrc[j] == m,
            decreases n - idx,
        {
            let e: ((K1, K2), V) = self.entries[idx];
            if e.0.0.key_eq(prefix) {
                drained.push((e.0.1, e.1));
                proof {
                    let ghost old_dsrc = dsrc;
                    dsrc = dsrc.push(idx as int);
                    assert forall|m: int|
                        0 <= m < idx + 1 && #[trigger] pre.entries@[m].0.0 == *prefix implies exists|j: int|
                            0 <= j < dsrc.len() && #[trigger] dsrc[j] == m by {
                        if m == idx {
                            assert(dsrc[dsrc.len() - 1] == m);
                        } else {
                            let j = choose|j: int| 0 <= j < old_dsrc.len() && #[trigger] old_dsrc[j] == m;
                            assert(dsrc[j] == m);
                        }
                    }
                }
            } else {
                kept.push(e);
                proof {
                    let ghost old_ksrc = ksrc;
                    ksrc = ksrc.push(idx as int);
                    assert forall|m: int|
                        0 <= m < idx + 1 && #[trigger] pre.entries@[m].0.0 != *prefix implies exists|j: int|
                            0 <= j < ksrc.len() && #[trigger] ksrc[j] == m by {
                        if m == idx {
                            assert(ksrc[ksrc.len() - 1] == m);
                        } else {
                            let j = choose|j: int| 0 <= j < old_ksrc.len() && #[trigger] old_ksrc[j] == m;
                            assert(ksrc[j] == m);
                        }
                    }
                }
            }
            idx = idx + 1;
        }
        self.entries = kept;
        proof {
            assert forall|i: int, j: int|
                0 <= i < self.entries@.len() && 0 <= j < self.entries@.len() && i != j
                    implies #[trigger] self.entries@[i].0 != #[trigger] self.entries@[j].0 by {
                assert(ksrc[i] != ksrc[j]) by {
                    if i < j {
                        assert(ksrc[i] < ksrc[j]);
                    } else {
                        assert(ksrc[j] < ksrc[i]);
                    }
                }
            }
            assert forall|k: (K1, K2)| #[trigger] self.has_key(k) == (pre.has_key(k) && k.0 != *prefix) by {
                if self.has_key(k) {
                    let j = self.index_of(k);
                    assert(pre.entries@[ksrc[j]].0 == k);
                }
                if pre.has_key(k) && k.0 != *prefix {
                    let m = pre.index_of(k);
                    assert(pre.entries@[m].0.0 != *prefix);
                    let j = choose|j: int| 0 <= j < ksrc.len() && #[trigger] ksrc[j] == m;
                    assert(self.entries@[j].0 == k);
                }
            }
            assert forall|k: (K1, K2)| self.has_key(k) implies self.entries@[self.index_of(k)].1
                == pre.entries@[pre.index_of(k)].1 by {
                let j = self.index_of(k);
                pre.lemma_index(ksrc[j]);
            }
            assert(self.as_map() =~= without_prefix(pre.as_map(), *prefix));
            assert forall|i: int| 0 <= i < drained@.len() implies {
                &&& pre@.dom().contains((*prefix, #[trigger] drained@[i].0))
                &&& pre@[(*prefix, drained@[i].0)] == drained@[i].1
            } by {
                pre.lemma_index(dsrc[i]);
            }
            assert forall|k2: K2| #[trigger] pre@.dom().contains((*prefix, k2)) implies exists|i: int|
                0 <= i < drained@.len() && #[trigger] drained@[i].0 == k2 by {
                let m = pre.index_of((*prefix, k2));
                assert(pre.entries@[m].0 == (*prefix, k2));
                assert(pre.entries@[m].0.0 == *prefix);
                let j = choose|j: int| 0 <= j < dsrc.len() && #[trigger] dsrc[j] == m;
                assert(drained@[j].0 == k2);
            }
            assert forall|i: int, j: int|
                0 <= i < drained@.len() && 0 <= j < drained@.len() && i != j
                    implies #[trigger] drained@[i].0 != #[trigger] drained@[j].0 by {
                assert(dsrc[i] != dsrc[j]) by {
                    if i < j {
                        assert(dsrc[i] < dsrc[j]);
                    } else {
                        assert(dsrc[j] < dsrc[i]);
                    }
                }
                assert(pre.entries@[dsrc[i]].0 != pre.entries@[dsrc[j]].0);
            }
        }
        drained
    }
}

impl<K: StorageKey + Copy, V: Copy> View for StorageMap<K, V> {
    type V = Map<K, V>;

    open spec fn view(&self) -> Map<K, V> {
        self.as_map()
    }
}

} // verus!
