use vstd::prelude::*;

verus! {

/// Keys of a [`KeyMap`]: plain values whose executable comparison agrees with `==`.
pub trait MapKey: Copy + Sized {
    fn same(&self, other: &Self) -> (r: bool)
        ensures
            r == (*self == *other),
    ;
}

impl MapKey for u64 {
    fn same(&self, other: &Self) -> (r: bool) {
        *self == *other
    }
}

/// A finite map stored as a vector of entries with pairwise distinct keys.
#[verifier::reject_recursive_types(K)]
pub struct KeyMap<K: MapKey, V> {
    entries: Vec<(K, V)>,
    contents: Ghost<Map<K, V>>,
}

impl<K: MapKey, V> View for KeyMap<K, V> {
    type V = Map<K, V>;

    closed spec fn view(&self) -> Map<K, V> {
        self.contents@
    }
}

impl<K: MapKey, V> KeyMap<K, V> {
    /// The entries and the abstract map agree, and keys are distinct.
    pub closed spec fn wf(&self) -> bool {
        &&& forall|i: int|
            0 <= i < self.entries@.len() ==> {
                &&& self.contents@.contains_key(#[trigger] self.entries@[i].0)
                &&& self.contents@[self.entries@[i].0] == self.entries@[i].1
            }
        &&& forall|k: K| #[trigger]
            self.contents@.contains_key(k) ==> exists|i: int|
                0 <= i < self.entries@.len() && #[trigger] self.entries@[i].0 == k
        &&& forall|i: int, j: int|
            0 <= i < j < self.entries@.len() ==> #[trigger] self.entries@[i].0
                != #[trigger] self.entries@[j].0
    }

    pub fn new() -> (r: Self)
        ensures
            r.wf(),
            r@ == Map::<K, V>::empty(),
    {
        KeyMap { entries: Vec::new(), contents: Ghost(Map::empty()) }
    }

    /// Number of keys in the map.
    pub fn len(&self) -> (r: usize)
        requires
            self.wf(),
        ensures
            r == self@.len(),
    {
        proof {
            self.lemma_len();
        }
        self.entries.len()
    }

    proof fn lemma_len(&self)
        requires
            self.wf(),
        ensures
            self@.len() == self.entries@.len(),
            self@.dom().finite(),
        decreases self.entries@.len(),
    {
        let keys = Seq::new(self.entries@.len(), |i: int| self.entries@[i].0);
        assert(keys.no_duplicates()) by {
            assert forall|i: int, j: int|
                0 <= i < keys.len() && 0 <= j < keys.len() && i != j implies keys[i]
                != keys[j] by {
                if i < j {
                    assert(self.entries@[i].0 != self.entries@[j].0);
                } else {
                    assert(self.entries@[j].0 != self.entries@[i].0);
                }
            }
        }
        assert(keys.to_set() =~= self@.dom()) by {
            assert forall|k: K| self@.dom().contains(k) implies keys.to_set().contains(k) by {
                let i = choose|i: int| 0 <= i < self.entries@.len() && self.entries@[i].0 == k;
                assert(keys[i] == k);
            }
        }
        keys.unique_seq_to_set();
    }

    fn find(&self, k: &K) -> (r: Option<usize>)
        requires
            self.wf(),
        ensures
            match r {
                Some(i) => i < self.entries@.len() && self.entries@[i as int].0 == *k,
                None => !self@.contains_key(*k),
            },
    {
        let mut i: usize = 0;
        while i < self.entries.len()
            invariant
                0 <= i <= self.entries@.len(),
                forall|j: int| 0 <= j < i ==> self.entries@[j].0 != *k,
            decreases self.entries@.len() - i,
        {
            if self.entries[i].0.same(k) {
                return Some(i);
            }
            i = i + 1;
        }
        None
    }

    /// Looks a key up.
    pub fn get(&self, k: &K) -> (r: Option<&V>)
        requires
            self.wf(),
        ensures
            match r {
                Some(v) => self@.contains_key(*k) && *v == self@[*k],
                None => !self@.contains_key(*k),
            },
    {
        match self.find(k) {
            Some(i) => Some(&self.entries[i].1),
            None => None,
        }
    }

    pub fn contains_key(&self, k: &K) -> (r: bool)
        requires
            self.wf(),
        ensures
            r == self@.contains_key(*k),
    {
        match self.find(k) {
            Some(_) => true,
            None => false,
        }
    }

    /// Sets the value of `k`, returning the value it had.
    pub fn insert(&mut self, k: K, v: V) -> (prev: Option<V>)
        requires
            old(self).wf(),
        ensures
            final(self).wf(),
            final(self)@ == old(self)@.insert(k, v),
            prev == (if old(self)@.contains_key(k) {
                Some(old(self)@[k])
            } else {
                None::<V>
            }),
    {
        match self.find(&k) {
            Some(i) => {
                let ghost old_entries = self.entries@;
                let mut e = (k, v);
                self.entries.set_and_swap(i, &mut e);
                self.contents = Ghost(self.contents@.insert(k, v));
                proof {
                    assert forall|k2: K| #[trigger]
                        self.contents@.contains_key(k2) implies exists|j: int|
                        0 <= j < self.entries@.len() && #[trigger] self.entries@[j].0 == k2 by {
                        if k2 != k {
                            let j = choose|j: int|
                                0 <= j < old_entries.len() && old_entries[j].0 == k2;
                            assert(self.entries@[j].0 == k2);
                        } else {
                            assert(self.entries@[i as int].0 == k2);
                        }
                    }
                    assert forall|a: int, b: int|
                        0 <= a < b < self.entries@.len() implies #[trigger] self.entries@[a].0
                        != #[trigger] self.entries@[b].0 by {
                        assert(old_entries[a].0 != old_entries[b].0);
                    }
                }
                Some(e.1)
            },
            None => {
                let ghost old_entries = self.entries@;
                self.entries.push((k, v));
                self.contents = Ghost(self.contents@.insert(k, v));
                proof {
                    assert forall|k2: K| #[trigger]
                        self.contents@.contains_key(k2) implies exists|j: int|
                        0 <= j < self.entries@.len() && #[trigger] self.entries@[j].0 == k2 by {
                        if k2 != k {
                            let j = choose|j: int|
                                0 <= j < old_entries.len() && old_entries[j].0 == k2;
                            assert(self.entries@[j].0 == k2);
                        } else {
                            assert(self.entries@[old_entries.len() as int].0 == k2);
                        }
                    }
                    assert forall|a: int, b: int|
                        0 <= a < b < self.entries@.len() implies #[trigger] self.entries@[a].0
                        != #[trigger] self.entries@[b].0 by {
                        if b == old_entries.len() {
                            assert(old_entries[a].0 == self.entries@[a].0);
                            assert(self.contents@.contains_key(old_entries[a].0));
                        } else {
                            assert(old_entries[a].0 != old_entries[b].0);
                        }
                    }
                }
                None
            },
        }
    }

    /// Removes `k`, returning the value it had.
    pub fn remove(&mut self, k: &K) -> (prev: Option<V>)
        requires
            old(self).wf(),
        ensures
            final(self).wf(),
            final(self)@ == old(self)@.remove(*k),
            prev == (if old(self)@.contains_key(*k) {
                Some(old(self)@[*k])
            } else {
                None::<V>
            }),
    {
        match self.find(k) {
            Some(i) => {
                let ghost old_entries = self.entries@;
                let e = self.entries.remove(i);
                self.contents = Ghost(self.contents@.remove(*k));
                proof {
                    assert forall|j: int| 0 <= j < self.entries@.len() implies {
                        &&& self.contents@.contains_key(#[trigger] self.entries@[j].0)
                        &&& self.contents@[self.entries@[j].0] == self.entries@[j].1
                    } by {
                        if j < i {
                            assert(old_entries[j].0 != old_entries[i as int].0);
                        } else {
                            assert(old_entries[i as int].0 != old_entries[j + 1].0);
                        }
                    }
                    assert forall|k2: K| #[trigger]
                        self.contents@.contains_key(k2) implies exists|j: int|
                        0 <= j < self.entries@.len() && #[trigger] self.entries@[j].0 == k2 by {
                        let j = choose|j: int|
                            0 <= j < old_entries.len() && old_entries[j].0 == k2;
                        if j < i {
                            assert(self.entries@[j].0 == k2);
                        } else {
                            assert(self.entries@[j - 1].0 == k2);
                        }
                    }
                    assert forall|a: int, b: int|
                        0 <= a < b < self.entries@.len() implies #[trigger] self.entries@[a].0
                        != #[trigger] self.entries@[b].0 by {
                        if b < i {
                            assert(old_entries[a].0 != old_entries[b].0);
                        } else if a < i {
                            assert(old_entries[a].0 != old_entries[b + 1].0);
                        } else {
                            assert(old_entries[a + 1].0 != old_entries[b + 1].0);
                        }
                    }
                }
                Some(e.1)
            },
            None => None,
        }
    }

    /// The key of the `i`-th entry in storage order.
    pub closed spec fn key_at(&self, i: int) -> K {
        self.entries@[i].0
    }

    /// Every key is the key of some entry, and distinct entries have distinct keys.
    pub proof fn lemma_key_index(&self)
        requires
            self.wf(),
        ensures
            forall|k: K| #[trigger] self@.contains_key(k) ==> exists|i: int| 0 <= i < self@.len() && #[trigger] self.key_at(i) == k,
            forall|i: int, j: int| 0 <= i < j < self@.len() ==> #[trigger] self.key_at(i) != #[trigger] self.key_at(j),
            forall|i: int| 0 <= i < self@.len() ==> self@.contains_key(#[trigger] self.key_at(i)),
    {
        self.lemma_len();
        assert forall|k: K| #[trigger] self@.contains_key(k) implies exists|i: int| 0 <= i < self@.len() && #[trigger] self.key_at(i) == k by {
            let i = choose|i: int| 0 <= i < self.entries@.len() && self.entries@[i].0 == k;
            assert(self.key_at(i) == k);
        }
    }

    /// The `i`-th entry in storage order.
    pub fn entry_at(&self, i: usize) -> (r: (&K, &V))
        requires
            self.wf(),
            i < self@.len(),
        ensures
            self@.contains_key(*r.0),
            self@[*r.0] == *r.1,
            *r.0 == self.key_at(i as int),
    {
        proof {
            self.lemma_len();
        }
        let e = &self.entries[i];
        (&e.0, &e.1)
    }
}

} // verus!
