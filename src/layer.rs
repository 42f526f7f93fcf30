use vstd::prelude::*;

use crate::account::DbAccount;
use crate::keymap::KeyMap;
use crate::types::{Address, Word};

verus! {

/// What one layer holds: account records, and storage slots keyed by address and index.
pub struct LayerView {
    pub accounts: Map<Address, DbAccount>,
    pub storage: Map<(Address, Word), Word>,
}

/// The slots of per-address storage maps, keyed by address and index.
pub open spec fn flat_storage(m: Map<Address, KeyMap<Word, Word>>) -> Map<(Address, Word), Word> {
    Map::new(
        |p: (Address, Word)| m.contains_key(p.0) && m[p.0]@.contains_key(p.1),
        |p: (Address, Word)| m[p.0]@[p.1],
    )
}

/// The slots of `a` in a flat storage map.
pub open spec fn storage_of(f: Map<(Address, Word), Word>, a: Address) -> Map<Word, Word> {
    Map::new(|k: Word| f.contains_key((a, k)), |k: Word| f[(a, k)])
}

/// `f` with every slot of `a` replaced by the slots of `m`.
pub open spec fn replace_storage_of(
    f: Map<(Address, Word), Word>,
    a: Address,
    m: Map<Word, Word>,
) -> Map<(Address, Word), Word> {
    Map::new(
        |p: (Address, Word)|
            if p.0 == a {
                m.contains_key(p.1)
            } else {
                f.contains_key(p)
            },
        |p: (Address, Word)|
            if p.0 == a {
                m[p.1]
            } else {
                f[p]
            },
    )
}

/// Sets or clears one key of a map.
pub open spec fn map_set<K, V>(m: Map<K, V>, k: K, o: Option<V>) -> Map<K, V> {
    match o {
        Some(v) => m.insert(k, v),
        None => m.remove(k),
    }
}

/// The value of one key of a map, if any.
pub open spec fn map_get<K, V>(m: Map<K, V>, k: K) -> Option<V> {
    if m.contains_key(k) {
        Some(m[k])
    } else {
        None
    }
}

/// One generation of account and storage state.
pub struct Layer {
    pub(crate) accounts: KeyMap<Address, DbAccount>,
    pub(crate) storage: KeyMap<Address, KeyMap<Word, Word>>,
}

impl Layer {
    pub closed spec fn wf(&self) -> bool {
        &&& self.accounts.wf()
        &&& self.storage.wf()
        &&& forall|a: Address| #[trigger] self.storage@.contains_key(a) ==> self.storage@[a].wf()
    }

    pub closed spec fn view(&self) -> LayerView {
        LayerView { accounts: self.accounts@, storage: flat_storage(self.storage@) }
    }

    pub fn new() -> (r: Layer)
        ensures
            r.wf(),
            r.view().accounts == Map::<Address, DbAccount>::empty(),
            r.view().storage == Map::<(Address, Word), Word>::empty(),
    {
        let r = Layer { accounts: KeyMap::new(), storage: KeyMap::new() };
        assert(r.view().storage =~= Map::<(Address, Word), Word>::empty());
        r
    }

    pub fn get_account(&self, a: &Address) -> (r: Option<DbAccount>)
        requires
            self.wf(),
        ensures
            r == map_get(self.view().accounts, *a),
    {
        match self.accounts.get(a) {
            Some(acc) => Some(*acc),
            None => None,
        }
    }

    pub fn get_slot(&self, a: &Address, k: &Word) -> (r: Option<Word>)
        requires
            self.wf(),
        ensures
            r == map_get(self.view().storage, (*a, *k)),
    {
        match self.storage.get(a) {
            Some(m) => match m.get(k) {
                Some(v) => Some(*v),
                None => None,
            },
            None => None,
        }
    }

    /// Sets or clears the record of `a`, returning what it was.
    pub fn set_account(&mut self, a: Address, o: Option<DbAccount>) -> (prev: Option<DbAccount>)
        requires
            old(self).wf(),
        ensures
            final(self).wf(),
            final(self).view().accounts == map_set(old(self).view().accounts, a, o),
            final(self).view().storage == old(self).view().storage,
            prev == map_get(old(self).view().accounts, a),
    {
        match o {
            Some(acc) => self.accounts.insert(a, acc),
            None => self.accounts.remove(&a),
        }
    }

    /// Sets or clears one storage slot, returning what it was.
    pub fn set_slot(&mut self, a: Address, k: Word, o: Option<Word>) -> (prev: Option<Word>)
        requires
            old(self).wf(),
        ensures
            final(self).wf(),
            final(self).view().storage == map_set(old(self).view().storage, (a, k), o),
            final(self).view().accounts == old(self).view().accounts,
            prev == map_get(old(self).view().storage, (a, k)),
    {
        let ghost old_storage = self.storage@;
        let mut inner = match self.storage.remove(&a) {
            Some(m) => m,
            None => KeyMap::new(),
        };
        let ghost old_inner = inner@;
        let prev = match o {
            Some(v) => inner.insert(k, v),
            None => inner.remove(&k),
        };
        self.storage.insert(a, inner);
        proof {
            assert(flat_storage(self.storage@) =~= map_set(flat_storage(old_storage), (a, k), o));
        }
        prev
    }

    /// Replaces every storage slot of `a` by the map `o` (`None`: no slots),
    /// returning the map it had.
    pub fn replace_storage(&mut self, a: Address, o: Option<KeyMap<Word, Word>>) -> (prev: Option<
        KeyMap<Word, Word>,
    >)
        requires
            old(self).wf(),
            match o {
                Some(m) => m.wf(),
                None => true,
            },
        ensures
            final(self).wf(),
            final(self).view().storage == replace_storage_of(
                old(self).view().storage,
                a,
                opt_slots(o),
            ),
            final(self).view().accounts == old(self).view().accounts,
            opt_slots(prev) == storage_of(old(self).view().storage, a),
            match prev {
                Some(m) => m.wf(),
                None => true,
            },
    {
        let ghost old_storage = self.storage@;
        let prev = match o {
            Some(m) => self.storage.insert(a, m),
            None => self.storage.remove(&a),
        };
        proof {
            assert(flat_storage(self.storage@) =~= replace_storage_of(
                flat_storage(old_storage),
                a,
                opt_slots(o),
            ));
            assert(opt_slots(prev) =~= storage_of(flat_storage(old_storage), a));
        }
        prev
    }
}

impl Layer {
    /// The account records of this layer, entry by entry: every record, each once.
    pub fn account_entries(&self) -> (r: Vec<(Address, DbAccount)>)
        requires
            self.wf(),
        ensures
            forall|i: int|
                0 <= i < r@.len() ==> self.view().accounts.contains_key((#[trigger] r@[i]).0)
                    && self.view().accounts[r@[i].0] == r@[i].1,
            forall|a: Address| #[trigger] self.view().accounts.contains_key(a) ==> exists|i: int|
                0 <= i < r@.len() && (#[trigger] r@[i]).0 == a,
            forall|i: int, j: int| 0 <= i < j < r@.len() ==> (#[trigger] r@[i]).0 != (#[trigger] r@[j]).0,
    {
        let mut r: Vec<(Address, DbAccount)> = Vec::new();
        let n = self.accounts.len();
        let mut i: usize = 0;
        proof {
            self.accounts.lemma_key_index();
        }
        while i < n
            invariant
                self.wf(),
                n == self.accounts@.len(),
                i <= n,
                r@.len() == i,
                forall|k: int| 0 <= k < i ==> (#[trigger] r@[k]).0 == self.accounts.key_at(k),
                forall|k: int|
                    0 <= k < r@.len() ==> self.view().accounts.contains_key((#[trigger] r@[k]).0)
                        && self.view().accounts[r@[k].0] == r@[k].1,
            decreases n - i,
        {
            let (a, acc) = self.accounts.entry_at(i);
            r.push((*a, *acc));
            i = i + 1;
        }
        proof {
            self.accounts.lemma_key_index();
            assert forall|a: Address| #[trigger] self.view().accounts.contains_key(a) implies exists|t: int|
                0 <= t < r@.len() && (#[trigger] r@[t]).0 == a by {
                let t = choose|t: int| 0 <= t < self.accounts@.len() && #[trigger] self.accounts.key_at(t) == a;
                assert(r@[t].0 == a);
            }
            assert forall|x: int, y: int| 0 <= x < y < r@.len() implies (#[trigger] r@[x]).0 != (#[trigger] r@[y]).0 by {
                assert(self.accounts.key_at(x) != self.accounts.key_at(y));
            }
        }
        r
    }

    /// The storage of this layer, grouped by address: every address with
    /// storage, each once, with every slot of it, each once.
    pub fn storage_maps(&self) -> (r: Vec<(Address, Vec<(Word, Word)>)>)
        requires
            self.wf(),
        ensures
            forall|i: int, q: int|
                0 <= i < r@.len() && 0 <= q < r@[i].1@.len() ==> self.view().storage.contains_key(
                    ((#[trigger] r@[i]).0, (#[trigger] r@[i].1@[q]).0),
                ) && self.view().storage[(r@[i].0, r@[i].1@[q].0)] == r@[i].1@[q].1,
            forall|a: Address, k: Word| #[trigger] self.view().storage.contains_key((a, k)) ==> exists|i: int, q: int|
                0 <= i < r@.len() && 0 <= q < r@[i].1@.len() && (#[trigger] r@[i]).0 == a && (#[trigger] r@[i].1@[q]).0 == k,
    {
        let mut r: Vec<(Address, Vec<(Word, Word)>)> = Vec::new();
        let n = self.storage.len();
        let mut i: usize = 0;
        proof {
            self.storage.lemma_key_index();
        }
        while i < n
            invariant
                self.wf(),
                n == self.storage@.len(),
                i <= n,
                r@.len() == i,
                forall|m: int| 0 <= m < i ==> (#[trigger] r@[m]).0 == self.storage.key_at(m),
                forall|m: int| 0 <= m < i ==> (#[trigger] r@[m]).1@.len() == self.storage@[r@[m].0]@.len(),
                forall|m: int, q: int|
                    0 <= m < i && 0 <= q < r@[m].1@.len() ==> (#[trigger] r@[m].1@[q]).0 == self.storage@[r@[m].0].key_at(q)
                        && self.view().storage.contains_key((r@[m].0, r@[m].1@[q].0))
                        && self.view().storage[(r@[m].0, r@[m].1@[q].0)] == r@[m].1@[q].1,
            decreases n - i,
        {
            let (a, inner) = self.storage.entry_at(i);
            let m = inner.len();
            let mut slots: Vec<(Word, Word)> = Vec::new();
            let mut j: usize = 0;
            while j < m
                invariant
                    self.wf(),
                    self.storage@.contains_key(*a),
                    self.storage@[*a] == *inner,
                    inner.wf(),
                    m == inner@.len(),
                    j <= m,
                    slots@.len() == j,
                    forall|q: int| 0 <= q < j ==> (#[trigger] slots@[q]).0 == inner.key_at(q)
                        && self.view().storage.contains_key((*a, slots@[q].0))
                        && self.view().storage[(*a, slots@[q].0)] == slots@[q].1,
                decreases m - j,
            {
                let (k, v) = inner.entry_at(j);
                slots.push((*k, *v));
                j = j + 1;
            }
            r.push((*a, slots));
            i = i + 1;
        }
        proof {
            self.storage.lemma_key_index();
            assert forall|a: Address, k: Word| #[trigger] self.view().storage.contains_key((a, k)) implies exists|x: int, q: int|
                0 <= x < r@.len() && 0 <= q < r@[x].1@.len() && (#[trigger] r@[x]).0 == a && (#[trigger] r@[x].1@[q]).0 == k by {
                assert(self.storage@.contains_key(a));
                let x = choose|x: int| 0 <= x < self.storage@.len() && #[trigger] self.storage.key_at(x) == a;
                let inner = self.storage@[a];
                inner.lemma_key_index();
                let q = choose|q: int| 0 <= q < inner@.len() && #[trigger] inner.key_at(q) == k;
                assert(r@[x].0 == a);
                assert(r@[x].1@[q].0 == k);
            }
        }
        r
    }
}

/// The slots of an optional storage map (`None`: no slots).
pub open spec fn opt_slots(o: Option<KeyMap<Word, Word>>) -> Map<Word, Word> {
    match o {
        Some(m) => m@,
        None => Map::empty(),
    }
}

} // verus!
