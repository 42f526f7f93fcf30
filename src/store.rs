use vstd::prelude::*;

use crate::account::{not_existing_account, AccountInfo, AccountState, DbAccount};
use crate::hashing::{copy_bytes, keccak, keccak_of};
use crate::lookup::{
    find_account, lemma_find_account_below, lemma_find_account_none, lemma_find_account_top,
    lemma_slot_lookup_below, lemma_top_agrees, passes_through, read_slot, slot_lookup,
};
use crate::journal::{
    apply_entry, entry_layer, inverse_entry, lemma_apply_inverse, replay, undo, DataView,
    EntryView, JournalEntry,
};
use crate::keymap::KeyMap;
use crate::layer::{map_get, Layer, LayerView};
use crate::types::{keccak_empty, word_zero, Address, Word};

verus! {

/// A failure of the backing source (a remote lookup that could not be made).
#[derive(Debug)]
pub struct DBError(pub String);

/// Read-only historical state that the store falls back to on a miss.
pub trait BackingSource {
    /// The account at `address`, or `None` where it does not exist.
    fn basic(&self, address: &Address) -> Result<Option<AccountInfo>, DBError>;

    /// The bytecode whose hash is `code_hash`.
    fn code_by_hash(&self, code_hash: &Word) -> Result<Vec<u8>, DBError>;

    /// The value of one storage slot.
    fn storage(&self, address: &Address, index: &Word) -> Result<Word, DBError>;

    /// The hash of block `number`.
    fn block_hash(&self, number: u64) -> Result<Word, DBError>;
}

/// The layered, journaled state store.
///
/// Layer 0 caches what was read from the backing source; the last layer is the
/// writable one, and each snapshot pushes a new one. Every write journals the
/// value it replaces, so that any suffix of the journal can be undone exactly.
pub struct CacheDB<S> {
    pub(crate) layers: Vec<Layer>,
    /// Bytecode bodies by code hash.
    pub(crate) contracts: KeyMap<Word, Vec<u8>>,
    /// Cached block hashes by block number.
    pub(crate) block_hashes: KeyMap<u64, Word>,
    /// The read-only source of state that was never written here.
    pub(crate) db: S,
    pub(crate) last_block_number: u64,
    pub(crate) journal: Vec<JournalEntry>,
    /// The journal length at each snapshot, oldest first.
    pub(crate) snapshot_journal_indexes: Vec<usize>,
}

pub open spec fn layers_view(layers: Seq<Layer>) -> Seq<LayerView> {
    Seq::new(layers.len(), |i: int| layers[i].view())
}

impl<S> CacheDB<S> {
    /// The store's invariant: a cache layer and a writable layer at least, one
    /// more layer per snapshot, and well-formed maps throughout.
    pub closed spec fn wf(&self) -> bool {
        &&& self.layers@.len() == self.snapshot_journal_indexes@.len() + 2
        &&& self.layers@.len() < usize::MAX
        &&& forall|i: int| 0 <= i < self.layers@.len() ==> #[trigger] self.layers@[i].wf()
        &&& self.contracts.wf()
        &&& self.block_hashes.wf()
        &&& forall|i: int| 0 <= i < self.journal@.len() ==> #[trigger] self.journal@[i].wf()
    }

    /// The layers and the bytecode table.
    pub closed spec fn data(&self) -> DataView {
        DataView { layers: layers_view(self.layers@), contracts: self.contracts@ }
    }

    pub closed spec fn journal_view(&self) -> Seq<EntryView> {
        self.journal@.map_values(|e: JournalEntry| e.view())
    }

    /// The journal length recorded by each live snapshot, oldest first.
    pub closed spec fn snaps(&self) -> Seq<usize> {
        self.snapshot_journal_indexes@
    }

    pub closed spec fn block_hashes_view(&self) -> Map<u64, Word> {
        self.block_hashes@
    }

    pub closed spec fn source(&self) -> S {
        self.db
    }

    pub closed spec fn last_block_number_view(&self) -> u64 {
        self.last_block_number
    }

    /// Everything but the layers and the bytecode table is as in `other`.
    pub open spec fn same_but_data(&self, other: &Self) -> bool {
        &&& self.journal_view() == other.journal_view()
        &&& self.snaps() == other.snaps()
        &&& self.block_hashes_view() == other.block_hashes_view()
        &&& self.last_block_number_view() == other.last_block_number_view()
        &&& self.source() == other.source()
    }

    pub proof fn lemma_layer_count(&self)
        requires
            self.wf(),
        ensures
            self.data().layers.len() == self.snaps().len() + 2,
    {
    }

    /// The number of entries in the journal: the journal index.
    pub fn journal_index(&self) -> (r: usize)
        ensures
            r == self.journal_view().len(),
    {
        self.journal.len()
    }

    pub fn last_block_number(&self) -> (r: u64)
        ensures
            r == self.last_block_number_view(),
    {
        self.last_block_number
    }

    pub fn set_last_block_number(&mut self, number: u64)
        requires
            old(self).wf(),
        ensures
            final(self).wf(),
            final(self).last_block_number_view() == number,
            final(self).data() == old(self).data(),
            final(self).journal_view() == old(self).journal_view(),
            final(self).snaps() == old(self).snaps(),
            final(self).block_hashes_view() == old(self).block_hashes_view(),
            final(self).source() == old(self).source(),
    {
        self.last_block_number = number;
    }

    pub fn set_block_hash(&mut self, number: u64, hash: Word)
        requires
            old(self).wf(),
        ensures
            final(self).wf(),
            final(self).block_hashes_view() == old(self).block_hashes_view().insert(number, hash),
            final(self).data() == old(self).data(),
            final(self).journal_view() == old(self).journal_view(),
            final(self).snaps() == old(self).snaps(),
            final(self).last_block_number_view() == old(self).last_block_number_view(),
            final(self).source() == old(self).source(),
    {
        self.block_hashes.insert(number, hash);
    }

    /// Sets the location of `e`, in layer `l`, to the value of `e`; returns the
    /// entry that records what was there.
    fn apply_journal_entry(&mut self, e: JournalEntry, l: usize) -> (inv: JournalEntry)
        requires
            old(self).wf(),
            l < old(self).layers@.len(),
            e.wf(),
        ensures
            final(self).wf(),
            final(self).layers@.len() == old(self).layers@.len(),
            final(self).data() == apply_entry(old(self).data(), l as int, e.view()),
            inv.view() == inverse_entry(old(self).data(), l as int, e.view()),
            inv.wf(),
            final(self).journal@ == old(self).journal@,
            final(self).same_but_data(old(self)),
    {
        let ghost d0 = self.data();
        match e {
            JournalEntry::ContractChange(h, o) => {
                let prev = match o {
                    Some(code) => self.contracts.insert(h, code),
                    None => self.contracts.remove(&h),
                };
                proof {
                    assert(self.data().layers =~= d0.layers);
                }
                JournalEntry::ContractChange(h, prev)
            },
            JournalEntry::AccountChange(a, o) => {
                let mut layer = Layer::new();
                self.layers.set_and_swap(l, &mut layer);
                let prev = layer.set_account(a, o);
                let ghost lv = layer.view();
                self.layers.set_and_swap(l, &mut layer);
                proof {
                    assert(self.data().layers =~= d0.layers.update(l as int, lv));
                    assert(lv =~= LayerView {
                        accounts: crate::layer::map_set(d0.layers[l as int].accounts, a, o),
                        ..d0.layers[l as int]
                    });
                }
                JournalEntry::AccountChange(a, prev)
            },
            JournalEntry::StorageChange(a, k, o) => {
                let mut layer = Layer::new();
                self.layers.set_and_swap(l, &mut layer);
                let prev = layer.set_slot(a, k, o);
                let ghost lv = layer.view();
                self.layers.set_and_swap(l, &mut layer);
                proof {
                    assert(self.data().layers =~= d0.layers.update(l as int, lv));
                    assert(lv =~= LayerView {
                        storage: crate::layer::map_set(d0.layers[l as int].storage, (a, k), o),
                        ..d0.layers[l as int]
                    });
                }
                JournalEntry::StorageChange(a, k, prev)
            },
            JournalEntry::StorageReplace(a, o) => {
                let mut layer = Layer::new();
                self.layers.set_and_swap(l, &mut layer);
                let prev = layer.replace_storage(a, o);
                let ghost lv = layer.view();
                self.layers.set_and_swap(l, &mut layer);
                proof {
                    assert(self.data().layers =~= d0.layers.update(l as int, lv));
                }
                JournalEntry::StorageReplace(a, prev)
            },
        }
    }

    /// Undoes every journal entry from the end down to `journal_index`, keeping
    /// the layers; returns what re-applies them (see `restore_rollback`).
    pub fn rollback(&mut self, journal_index: usize) -> (rb: Vec<JournalEntry>)
        requires
            old(self).wf(),
            journal_index <= old(self).journal_view().len(),
        ensures
            final(self).wf(),
            rolled_back(*old(self), *final(self), journal_index as int, rb),
    {
        let mut rb: Vec<JournalEntry> = Vec::new();
        let ghost d0 = self.data();
        let ghost j0 = self.journal_view();
        while self.journal.len() > journal_index
            invariant
                self.wf(),
                journal_index <= self.journal@.len() <= j0.len(),
                self.snaps() == old(self).snaps(),
                self.block_hashes_view() == old(self).block_hashes_view(),
                self.last_block_number_view() == old(self).last_block_number_view(),
                self.source() == old(self).source(),
                d0 == old(self).data(),
                j0 == old(self).journal_view(),
                self.journal_view() == j0.take(self.journal@.len() as int),
                replay(self.data(), self.journal_view(), self.snaps(), rb@.map_values(|e: JournalEntry| e.view())) == (d0, j0),
                forall|i: int| 0 <= i < rb@.len() ==> #[trigger] rb@[i].wf(),
                rb@.len() == j0.len() - self.journal@.len(),
                self.layers@.len() == old(self).layers@.len(),
                undo(self.data(), self.journal_view(), self.snaps(), journal_index as int) == undo(
                    d0,
                    j0,
                    self.snaps(),
                    journal_index as int,
                ),
            decreases self.journal@.len(),
        {
            let ghost d1 = self.data();
            let ghost js1 = self.journal_view();
            let ghost rbv1 = rb@.map_values(|e: JournalEntry| e.view());
            let e = self.journal.pop().unwrap();
            let p = self.journal.len();
            let l = entry_layer(&self.snapshot_journal_indexes, p);
            assert(js1[p as int] == e.view());
            let r = self.apply_journal_entry(e, l);
            rb.push(r);
            proof {
                lemma_apply_inverse(d1, l as int, e.view());
                let js2 = self.journal_view();
                assert(js2 =~= js1.drop_last());
                assert(js2 =~= j0.take(self.journal@.len() as int));
                let rbv2 = rb@.map_values(|e: JournalEntry| e.view());
                assert(rbv2 =~= rbv1.push(r.view()));
                assert(rbv2.drop_last() =~= rbv1);
                assert(js2.push(e.view()) =~= js1);
                assert(replay(self.data(), js2, self.snaps(), rbv2) == replay(d1, js1, self.snaps(), rbv1));
            }
        }
        rb
    }

    /// Re-applies what `rollback` returned, last entry first, journaling each change again.
    pub fn restore_rollback(&mut self, rollback: Vec<JournalEntry>)
        requires
            old(self).wf(),
            forall|i: int| 0 <= i < rollback@.len() ==> #[trigger] rollback@[i].wf(),
            old(self).journal_view().len() + rollback@.len() <= usize::MAX,
        ensures
            final(self).wf(),
            restored(*old(self), *final(self), rollback),
    {
        let mut rb = rollback;
        let ghost target = replay(self.data(), self.journal_view(), self.snaps(), rb@.map_values(|e: JournalEntry| e.view()));
        while rb.len() > 0
            invariant
                self.wf(),
                self.snaps() == old(self).snaps(),
                self.block_hashes_view() == old(self).block_hashes_view(),
                self.last_block_number_view() == old(self).last_block_number_view(),
                self.source() == old(self).source(),
                forall|i: int| 0 <= i < rb@.len() ==> #[trigger] rb@[i].wf(),
                self.journal@.len() + rb@.len() <= usize::MAX,
                replay(self.data(), self.journal_view(), self.snaps(), rb@.map_values(|e: JournalEntry| e.view())) == target,
            decreases rb@.len(),
        {
            let ghost d1 = self.data();
            let ghost js1 = self.journal_view();
            let ghost rbv1 = rb@.map_values(|e: JournalEntry| e.view());
            let r = rb.pop().unwrap();
            let p = self.journal.len();
            let l = entry_layer(&self.snapshot_journal_indexes, p);
            let inv = self.apply_journal_entry(r, l);
            self.journal.push(inv);
            proof {
                let rbv2 = rb@.map_values(|e: JournalEntry| e.view());
                assert(rbv2 =~= rbv1.drop_last());
                assert(self.journal_view() =~= js1.push(inv.view()));
                assert(self.data() == apply_entry(d1, l as int, r.view()));
            }
        }
        proof {
            assert(rb@.map_values(|e: JournalEntry| e.view()) =~= Seq::<EntryView>::empty());
        }
    }

    /// Pushes a new writable layer and records the journal index; returns the
    /// snapshot's id (the index of the layer below the new one).
    pub fn snapshot(&mut self) -> (id: usize)
        requires
            old(self).wf(),
            old(self).data().layers.len() + 1 < usize::MAX,
        ensures
            final(self).wf(),
            snapshot_taken(*old(self), *final(self), id as int),
    {
        let ghost d0 = self.data();
        self.layers.push(Layer::new());
        self.snapshot_journal_indexes.push(self.journal.len());
        proof {
            assert(self.data().layers =~= d0.layers.push(self.layers@.last().view()));
            assert(self.data().layers.take(d0.layers.len() as int) =~= d0.layers);
            assert(self.snaps().drop_last() =~= old(self).snaps());
        }
        self.layers.len() - 2
    }

    /// Drops every layer above snapshot `id` and the journal written since it.
    pub fn revert_snapshot(&mut self, id: usize) -> (journal_index: usize)
        requires
            old(self).wf(),
            1 <= id <= old(self).snaps().len(),
            old(self).snaps()[id - 1] <= old(self).journal_view().len(),
        ensures
            final(self).wf(),
            reverted(*old(self), *final(self), id as int),
            journal_index == old(self).snaps()[id - 1],
            final(self).block_hashes_view() == old(self).block_hashes_view(),
            final(self).last_block_number_view() == old(self).last_block_number_view(),
    {
        let ghost d0 = self.data();
        let ghost j0 = self.journal_view();
        let journal_index = self.snapshot_journal_indexes[id - 1];
        self.layers.truncate(id + 1);
        self.journal.truncate(journal_index);
        self.snapshot_journal_indexes.truncate(id - 1);
        proof {
            assert(self.data().layers =~= d0.layers.take(id + 1));
            assert(self.journal_view() =~= j0.take(journal_index as int));
        }
        journal_index
    }
}

/// `s1` is `s0` with the journal undone down to `j`, and `rb` re-applies it.
pub open spec fn rolled_back<S>(s0: CacheDB<S>, s1: CacheDB<S>, j: int, rb: Vec<JournalEntry>) -> bool {
    &&& s1.journal_view() == s0.journal_view().take(j)
    &&& s1.snaps() == s0.snaps()
    &&& s1.block_hashes_view() == s0.block_hashes_view()
    &&& s1.last_block_number_view() == s0.last_block_number_view()
    &&& s1.source() == s0.source()
    &&& s1.data().layers.len() == s0.data().layers.len()
    &&& rb@.len() == s0.journal_view().len() - j
    &&& forall|i: int| 0 <= i < rb@.len() ==> #[trigger] rb@[i].wf()
    &&& replay(s1.data(), s1.journal_view(), s1.snaps(), rb@.map_values(|e: JournalEntry| e.view()))
        == (s0.data(), s0.journal_view())
    &&& s1.data() == undo(s0.data(), s0.journal_view(), s0.snaps(), j)
}

/// `s1` is `s0` with the entries of `rb` re-applied, last first.
pub open spec fn restored<S>(s0: CacheDB<S>, s1: CacheDB<S>, rb: Vec<JournalEntry>) -> bool {
    &&& (s1.data(), s1.journal_view()) == replay(
        s0.data(),
        s0.journal_view(),
        s0.snaps(),
        rb@.map_values(|e: JournalEntry| e.view()),
    )
    &&& s1.snaps() == s0.snaps()
    &&& s1.block_hashes_view() == s0.block_hashes_view()
    &&& s1.last_block_number_view() == s0.last_block_number_view()
    &&& s1.source() == s0.source()
}

/// `s1` is `s0` with a new empty writable layer, snapshot `id` recording the journal index.
pub open spec fn snapshot_taken<S>(s0: CacheDB<S>, s1: CacheDB<S>, id: int) -> bool {
    &&& id == s0.data().layers.len() - 1
    &&& id == s0.snaps().len() + 1
    &&& s1.data().layers.len() == s0.data().layers.len() + 1
    &&& s1.data().layers.take(s0.data().layers.len() as int) == s0.data().layers
    &&& s1.data().layers.last().accounts == Map::<Address, DbAccount>::empty()
    &&& s1.data().layers.last().storage == Map::<(Address, Word), Word>::empty()
    &&& s1.data().contracts == s0.data().contracts
    &&& s1.snaps().len() == s0.snaps().len() + 1
    &&& s1.snaps().drop_last() == s0.snaps()
    &&& s1.snaps().last() as int == s0.journal_view().len()
    &&& s1.journal_view() == s0.journal_view()
    &&& s1.block_hashes_view() == s0.block_hashes_view()
    &&& s1.last_block_number_view() == s0.last_block_number_view()
    &&& s1.source() == s0.source()
}

/// `s1` is `s0` reverted to snapshot `id`.
pub open spec fn reverted<S>(s0: CacheDB<S>, s1: CacheDB<S>, id: int) -> bool {
    &&& s1.data().layers == s0.data().layers.take(id + 1)
    &&& s1.data().contracts == s0.data().contracts
    &&& s1.journal_view() == s0.journal_view().take(s0.snaps()[id - 1] as int)
    &&& s1.snaps() == s0.snaps().take(id - 1)
    &&& s1.source() == s0.source()
}


/// `s1` differs from `s0` only in its writable layer, in what layer 0 and the
/// bytecode table gained, and in journal entries appended.
pub open spec fn writes_preserve<S>(s0: CacheDB<S>, s1: CacheDB<S>) -> bool {
    &&& s1.data().layers.len() == s0.data().layers.len()
    &&& forall|i: int|
        1 <= i < s0.data().layers.len() - 1 ==> #[trigger] s1.data().layers[i] == s0.data().layers[i]
    &&& s0.data().layers[0].accounts.submap_of(s1.data().layers[0].accounts)
    &&& s0.data().layers[0].storage.submap_of(s1.data().layers[0].storage)
    &&& s0.data().contracts.submap_of(s1.data().contracts)
    &&& s0.journal_view().len() <= s1.journal_view().len()
    &&& s1.journal_view().take(s0.journal_view().len() as int) == s0.journal_view()
    &&& s1.snaps() == s0.snaps()
    &&& s1.source() == s0.source()
}

pub proof fn lemma_writes_preserve_refl<S>(s: CacheDB<S>)
    ensures
        writes_preserve(s, s),
{
    assert(s.journal_view().take(s.journal_view().len() as int) =~= s.journal_view());
}

#[verifier::spinoff_prover]
pub proof fn lemma_writes_preserve_trans<S>(s0: CacheDB<S>, s1: CacheDB<S>, s2: CacheDB<S>)
    requires
        writes_preserve(s0, s1),
        writes_preserve(s1, s2),
    ensures
        writes_preserve(s0, s2),
{
    let n = s0.journal_view().len() as int;
    assert(s2.journal_view().take(n) =~= s2.journal_view().take(s1.journal_view().len() as int).take(n));
    assert forall|i: int| 1 <= i < s0.data().layers.len() - 1 implies #[trigger] s2.data().layers[i]
        == s0.data().layers[i] by {
        assert(s1.data().layers[i] == s0.data().layers[i]);
    }
    let (a0, a1, a2) = (s0.data().layers[0], s1.data().layers[0], s2.data().layers[0]);
    assert(a0.accounts.submap_of(a2.accounts)) by {
        assert forall|k| #[trigger] a0.accounts.contains_key(k) implies a2.accounts.contains_key(k)
            && a2.accounts[k] == a0.accounts[k] by {
            assert(a1.accounts.contains_key(k));
            assert(a1.accounts[k] == a0.accounts[k]);
            assert(a2.accounts.contains_key(k) && a2.accounts[k] == a1.accounts[k]);
        }
    }
    assert(a0.storage.submap_of(a2.storage)) by {
        assert forall|k| #[trigger] a0.storage.contains_key(k) implies a2.storage.contains_key(k)
            && a2.storage[k] == a0.storage[k] by {
            assert(a1.storage.contains_key(k));
        }
    }
    let (c0, c1, c2) = (s0.data().contracts, s1.data().contracts, s2.data().contracts);
    assert(c0.submap_of(c2)) by {
        assert forall|k| #[trigger] c0.contains_key(k) implies c2.contains_key(k) && c2[k] == c0[k] by {
            assert(c1.contains_key(k));
        }
    }
}

/// A change to one field of an account record.
pub enum AccountUpdate {
    Balance(Word),
    Nonce(u64),
    CodeHash(Word),
}

/// The record after `u`; a non-existing account becomes touched.
pub open spec fn updated_account(acc: DbAccount, u: AccountUpdate) -> DbAccount {
    let info = match u {
        AccountUpdate::Balance(b) => AccountInfo { balance: b, ..acc.info },
        AccountUpdate::Nonce(n) => AccountInfo { nonce: n, ..acc.info },
        AccountUpdate::CodeHash(h) => AccountInfo { code_hash: h, ..acc.info },
    };
    DbAccount {
        info,
        account_state: if acc.account_state == AccountState::NotExisting {
            AccountState::Touched
        } else {
            acc.account_state
        },
        ..acc
    }
}

/// After a successful write of `u` to `a`: the record that reads of `a` now see.
pub open spec fn account_updated<S>(s0: CacheDB<S>, s1: CacheDB<S>, a: Address, u: AccountUpdate) -> bool {
    &&& match find_account(s0.data().layers, a) {
        Some(p) => find_account(s1.data().layers, a) == Some(updated_account(p, u)),
        None => {
            &&& s1.data().layers[0].accounts.contains_key(a)
            &&& find_account(s1.data().layers, a) == Some(
                updated_account(s1.data().layers[0].accounts[a], u),
            )
        },
    }
    &&& s1.data().layers.last().accounts.contains_key(a)
}

/// The journal entry that a write of `a`'s record appends: the record that the
/// writable layer held before.
pub open spec fn account_entry<S>(s: CacheDB<S>, a: Address) -> EntryView {
    EntryView::Account(a, map_get(s.data().layers.last().accounts, a))
}

/// Whether `n` is one of the 256 most recent block numbers up to `last`.
pub open spec fn in_hash_window(n: u64, last: u64) -> bool {
    n <= last && last - n < 256
}

impl<S> CacheDB<S> {
    /// A store with an empty cache layer and an empty writable layer over `db`.
    pub fn new(db: S, last_block_number: u64) -> (r: Self)
        ensures
            r.wf(),
            r.data().layers.len() == 2,
            r.data().layers[0].accounts == Map::<Address, DbAccount>::empty(),
            r.data().layers[1].accounts == Map::<Address, DbAccount>::empty(),
            r.data().layers[0].storage == Map::<(Address, Word), Word>::empty(),
            r.data().layers[1].storage == Map::<(Address, Word), Word>::empty(),
            r.journal_view().len() == 0,
            r.snaps().len() == 0,
            r.last_block_number_view() == last_block_number,
            r.block_hashes_view() == Map::<u64, Word>::empty(),
            r.source() == db,
    {
        let mut contracts = KeyMap::new();
        contracts.insert(crate::types::keccak_empty_word(), Vec::new());
        contracts.insert(Word::zero(), Vec::new());
        let mut layers: Vec<Layer> = Vec::new();
        layers.push(Layer::new());
        layers.push(Layer::new());
        let r = CacheDB {
            layers,
            contracts,
            block_hashes: KeyMap::new(),
            db,
            last_block_number,
            journal: Vec::new(),
            snapshot_journal_indexes: Vec::new(),
        };
        proof {
            assert(r.journal_view() =~= Seq::<EntryView>::empty());
        }
        r
    }

    /// Applies `e` to the writable layer and journals what it replaced.
    fn record(&mut self, e: JournalEntry)
        requires
            old(self).wf(),
            e.wf(),
        ensures
            final(self).wf(),
            final(self).data() == apply_entry(
                old(self).data(),
                old(self).data().layers.len() - 1,
                e.view(),
            ),
            final(self).journal_view() == old(self).journal_view().push(
                inverse_entry(old(self).data(), old(self).data().layers.len() - 1, e.view()),
            ),
            final(self).snaps() == old(self).snaps(),
            final(self).block_hashes_view() == old(self).block_hashes_view(),
            final(self).last_block_number_view() == old(self).last_block_number_view(),
            final(self).source() == old(self).source(),
    {
        let top = self.layers.len() - 1;
        let ghost j0 = self.journal_view();
        let inv = self.apply_journal_entry(e, top);
        self.journal.push(inv);
        proof {
            assert(self.journal_view() =~= j0.push(inv.view()));
        }
    }

    /// The record of `a` in the topmost layer that holds one.
    pub fn latest_account(&self, a: &Address) -> (r: Option<DbAccount>)
        requires
            self.wf(),
        ensures
            r == find_account(self.data().layers, *a),
    {
        let ghost ls = self.data().layers;
        let mut i = self.layers.len();
        assert(ls.take(i as int) =~= ls);
        while i > 0
            invariant
                self.wf(),
                ls == self.data().layers,
                i <= ls.len(),
                find_account(ls, *a) == find_account(ls.take(i as int), *a),
            decreases i,
        {
            i = i - 1;
            assert(ls.take(i + 1).drop_last() =~= ls.take(i as int));
            assert(ls.take(i + 1).last() == ls[i as int]);
            match self.layers[i].get_account(a) {
                Some(acc) => {
                    return Some(acc);
                },
                None => {},
            }
        }
        None
    }

    /// Caches a record fetched from the backing source in layer 0.
    fn cache_account(&mut self, a: Address, acc: DbAccount)
        requires
            old(self).wf(),
            find_account(old(self).data().layers, a) is None,
        ensures
            final(self).wf(),
            final(self).data().layers == old(self).data().layers.update(
                0,
                LayerView {
                    accounts: old(self).data().layers[0].accounts.insert(a, acc),
                    ..old(self).data().layers[0]
                },
            ),
            final(self).data().contracts == old(self).data().contracts,
            final(self).same_but_data(old(self)),
            find_account(final(self).data().layers, a) == Some(acc),
            writes_preserve(*old(self), *final(self)),
    {
        let ghost ls = self.data().layers;
        let mut layer = Layer::new();
        self.layers.set_and_swap(0, &mut layer);
        layer.set_account(a, Some(acc));
        let ghost lv = layer.view();
        self.layers.set_and_swap(0, &mut layer);
        proof {
            let ls1 = self.data().layers;
            assert(ls1 =~= ls.update(0, lv));
            lemma_find_account_none(ls, a);
            assert(forall|j: int| 1 <= j < ls1.len() ==> #[trigger] ls1[j] == ls[j]);
            lemma_find_account_below(ls1, a, 1);
            assert(ls1.take(1).drop_last().len() == 0);
            lemma_writes_preserve_refl(*old(self));
            assert(self.journal_view() == old(self).journal_view());
        }
    }
}

impl<S: BackingSource> CacheDB<S> {
    /// The record of `a` as the backing source gives it.
    fn forked_account_or_new(&self, a: &Address) -> (r: Result<DbAccount, DBError>)
        ensures
            r matches Ok(acc) ==> !acc.locally_created,
    {
        match self.db.basic(a) {
            Ok(info) => Ok(DbAccount::from_loaded(info)),
            Err(e) => Err(e),
        }
    }

    /// The record that reads of `a` see, fetched and cached in layer 0 on a miss.
    fn resolve_account(&mut self, a: &Address) -> (r: Result<DbAccount, DBError>)
        requires
            old(self).wf(),
        ensures
            final(self).wf(),
            writes_preserve(*old(self), *final(self)),
            final(self).journal_view() == old(self).journal_view(),
            final(self).block_hashes_view() == old(self).block_hashes_view(),
            final(self).last_block_number_view() == old(self).last_block_number_view(),
            final(self).data().contracts == old(self).data().contracts,
            forall|i: int|
                1 <= i < old(self).data().layers.len() ==> #[trigger] final(self).data().layers[i]
                    == old(self).data().layers[i],
            match r {
                Ok(acc) => {
                    &&& find_account(final(self).data().layers, *a) == Some(acc)
                    &&& find_account(old(self).data().layers, *a) is Some ==> final(self).data()
                        == old(self).data()
                    &&& find_account(old(self).data().layers, *a) is None
                        ==> final(self).data().layers[0].accounts.contains_key(*a)
                        && final(self).data().layers[0].accounts[*a] == acc
                },
                Err(_) => final(self).data() == old(self).data(),
            },
            find_account(old(self).data().layers, *a) matches Some(acc) ==> (r matches Ok(x) && x == acc),
    {
        match self.latest_account(a) {
            Some(acc) => {
                proof {
                    lemma_writes_preserve_refl(*self);
                }
                Ok(acc)
            },
            None => {
                match self.forked_account_or_new(a) {
                    Ok(acc) => {
                        self.cache_account(*a, acc);
                        Ok(acc)
                    },
                    Err(e) => {
                        proof {
                            lemma_writes_preserve_refl(*self);
                        }
                        Err(e)
                    },
                }
            },
        }
    }

    /// Writes one field of the record of `a` in the writable layer, loading the
    /// record first where no layer holds it.
    fn update_account(&mut self, a: Address, u: AccountUpdate) -> (r: Result<(), DBError>)
        requires
            old(self).wf(),
        ensures
            final(self).wf(),
            writes_preserve(*old(self), *final(self)),
            final(self).block_hashes_view() == old(self).block_hashes_view(),
            final(self).last_block_number_view() == old(self).last_block_number_view(),
            r is Ok ==> account_updated(*old(self), *final(self), a, u),
            r is Ok ==> final(self).journal_view() == old(self).journal_view().push(
                account_entry(*old(self), a),
            ),
            find_account(old(self).data().layers, a) is Some ==> r is Ok,
            final(self).data().contracts == old(self).data().contracts,
            r is Err ==> final(self).data() == old(self).data() && final(self).journal_view()
                == old(self).journal_view(),
    {
        let ghost s0 = *self;
        let acc = match self.resolve_account(&a) {
            Ok(acc) => acc,
            Err(e) => return Err(e),
        };
        let ghost s1 = *self;
        let info = match u {
            AccountUpdate::Balance(b) => AccountInfo { balance: b, nonce: acc.info.nonce, code_hash: acc.info.code_hash },
            AccountUpdate::Nonce(n) => AccountInfo { balance: acc.info.balance, nonce: n, code_hash: acc.info.code_hash },
            AccountUpdate::CodeHash(h) => AccountInfo { balance: acc.info.balance, nonce: acc.info.nonce, code_hash: h },
        };
        let state = match acc.account_state {
            AccountState::NotExisting => AccountState::Touched,
            other => other,
        };
        let new_acc = DbAccount { info, account_state: state, locally_created: acc.locally_created };
        assert(new_acc == updated_account(acc, u));
        proof {
            s0.lemma_layer_count();
            assert(s1.data().layers[s1.data().layers.len() - 1] == s0.data().layers[s0.data().layers.len() - 1]);
        }
        self.record(JournalEntry::AccountChange(a, Some(new_acc)));
        proof {
            let ls = self.data().layers;
            lemma_find_account_top(ls, a);
            assert(writes_preserve(s1, *self)) by {
                assert(self.journal_view().take(s1.journal_view().len() as int) =~= s1.journal_view());
            }
            lemma_writes_preserve_trans(s0, s1, *self);
        }
        Ok(())
    }

    /// Sets the balance of `address` in the writable layer.
    pub fn set_balance(&mut self, address: Address, balance: Word) -> (r: Result<(), DBError>)
        requires
            old(self).wf(),
        ensures
            final(self).wf(),
            writes_preserve(*old(self), *final(self)),
            r is Ok ==> account_updated(*old(self), *final(self), address, AccountUpdate::Balance(balance)),
            r is Ok ==> final(self).journal_view() == old(self).journal_view().push(
                account_entry(*old(self), address),
            ),
            find_account(old(self).data().layers, address) is Some ==> r is Ok,
            r is Err ==> final(self).data() == old(self).data() && final(self).journal_view()
                == old(self).journal_view(),
    {
        self.update_account(address, AccountUpdate::Balance(balance))
    }

    /// Sets the nonce of `address` in the writable layer.
    pub fn set_nonce(&mut self, address: Address, nonce: u64) -> (r: Result<(), DBError>)
        requires
            old(self).wf(),
        ensures
            final(self).wf(),
            writes_preserve(*old(self), *final(self)),
            r is Ok ==> account_updated(*old(self), *final(self), address, AccountUpdate::Nonce(nonce)),
            r is Ok ==> final(self).journal_view() == old(self).journal_view().push(
                account_entry(*old(self), address),
            ),
            find_account(old(self).data().layers, address) is Some ==> r is Ok,
            r is Err ==> final(self).data() == old(self).data() && final(self).journal_view()
                == old(self).journal_view(),
    {
        self.update_account(address, AccountUpdate::Nonce(nonce))
    }

    /// Sets the code of `address`, whose hash is `code_hash`, and stores the
    /// bytecode by that hash.
    pub fn set_code_with_hash(&mut self, address: Address, code: Vec<u8>, code_hash: Word) -> (r:
        Result<(), DBError>)
        requires
            old(self).wf(),
        ensures
            final(self).wf(),
            writes_preserve(*old(self), *final(self)),
            r is Ok ==> account_updated(*old(self), *final(self), address, AccountUpdate::CodeHash(code_hash)),
            r is Ok ==> final(self).data().contracts.contains_key(code_hash),
            r is Ok && !old(self).data().contracts.contains_key(code_hash)
                ==> final(self).data().contracts[code_hash] == code,
            r is Ok ==> final(self).journal_view().len() > old(self).journal_view().len()
                && final(self).journal_view()[old(self).journal_view().len() as int] == account_entry(
                *old(self),
                address,
            ),
            find_account(old(self).data().layers, address) is Some ==> r is Ok,
            r is Err ==> final(self).data() == old(self).data() && final(self).journal_view()
                == old(self).journal_view(),
    {
        let ghost s0 = *self;
        match self.update_account(address, AccountUpdate::CodeHash(code_hash)) {
            Ok(()) => {},
            Err(e) => return Err(e),
        }
        let ghost s1 = *self;
        if !self.contracts.contains_key(&code_hash) {
            self.record(JournalEntry::ContractChange(code_hash, Some(code)));
            proof {
                assert(self.data().layers =~= s1.data().layers);
                assert(writes_preserve(s1, *self)) by {
                    assert(self.journal_view().take(s1.journal_view().len() as int) =~= s1.journal_view());
                }
                lemma_writes_preserve_trans(s0, s1, *self);
            }
        }
        Ok(())
    }

    /// Sets the code of `address`: its code hash becomes the Keccak-256 digest of `code`.
    pub fn set_code(&mut self, address: Address, code: Vec<u8>) -> (r: Result<(), DBError>)
        requires
            old(self).wf(),
        ensures
            final(self).wf(),
            writes_preserve(*old(self), *final(self)),
            r is Ok ==> account_updated(*old(self), *final(self), address, AccountUpdate::CodeHash(keccak_of(code@))),
            r is Ok ==> final(self).data().contracts.contains_key(keccak_of(code@)),
            r is Ok && !old(self).data().contracts.contains_key(keccak_of(code@))
                ==> final(self).data().contracts[keccak_of(code@)] == code,
            r is Ok ==> final(self).journal_view().len() > old(self).journal_view().len()
                && final(self).journal_view()[old(self).journal_view().len() as int] == account_entry(
                *old(self),
                address,
            ),
            find_account(old(self).data().layers, address) is Some ==> r is Ok,
            r is Err ==> final(self).data() == old(self).data() && final(self).journal_view()
                == old(self).journal_view(),
    {
        let h = keccak(&code);
        self.set_code_with_hash(address, code, h)
    }

    /// Sets one storage slot of `address` in the writable layer.
    pub fn set_storage(&mut self, address: Address, index: Word, value: Word)
        requires
            old(self).wf(),
        ensures
            final(self).wf(),
            writes_preserve(*old(self), *final(self)),
            final(self).data().layers.last().storage == old(self).data().layers.last().storage.insert(
                (address, index),
                value,
            ),
            final(self).data().layers.last().accounts == old(self).data().layers.last().accounts,
            final(self).data().layers.drop_last() == old(self).data().layers.drop_last(),
            final(self).data().contracts == old(self).data().contracts,
            final(self).journal_view() == old(self).journal_view().push(
                EntryView::Slot(address, index, map_get(old(self).data().layers.last().storage, (address, index))),
            ),
    {
        let ghost s0 = *self;
        proof {
            s0.lemma_layer_count();
        }
        self.record(JournalEntry::StorageChange(address, index, Some(value)));
        proof {
            assert(self.data().layers.drop_last() =~= s0.data().layers.drop_last());
            assert(self.journal_view().take(s0.journal_view().len() as int) =~= s0.journal_view());
        }
    }
}

/// The slot values a read sees after a successful storage read of `(a, k)` returned `v`.
pub open spec fn slot_read<S>(s0: CacheDB<S>, s1: CacheDB<S>, a: Address, k: Word, v: Word) -> bool {
    &&& read_slot(s1.data().layers, a, k) == Some(v)
    &&& read_slot(s0.data().layers, a, k) is Some ==> {
        &&& read_slot(s0.data().layers, a, k) == Some(v)
        &&& s1.data() == s0.data()
    }
}

/// What a block-hash read of `n` returns and leaves behind.
pub open spec fn block_hash_read<S>(s0: CacheDB<S>, s1: CacheDB<S>, n: u64, r: Result<Word, DBError>) -> bool {
    &&& s1.data() == s0.data()
    &&& s1.journal_view() == s0.journal_view()
    &&& s1.snaps() == s0.snaps()
    &&& s1.last_block_number_view() == s0.last_block_number_view()
    &&& s1.source() == s0.source()
    &&& if !in_hash_window(n, s0.last_block_number_view()) {
        &&& r matches Ok(h) && h == word_zero()
        &&& s1.block_hashes_view() == s0.block_hashes_view()
    } else {
        match r {
            Ok(h) => {
                &&& s1.block_hashes_view().contains_key(n)
                &&& s1.block_hashes_view()[n] == h
                &&& s1.block_hashes_view() == s0.block_hashes_view().insert(n, h)
                &&& s0.block_hashes_view().contains_key(n) ==> h == s0.block_hashes_view()[n]
            },
            Err(_) => s1.block_hashes_view() == s0.block_hashes_view(),
        }
    }
}

/// A code hash that stands for actual code.
pub open spec fn has_code(info: AccountInfo) -> bool {
    info.code_hash != keccak_empty() && info.code_hash != word_zero()
}

/// The changes that execution made to one account.
pub struct StateChange {
    pub address: Address,
    pub info: AccountInfo,
    /// The account's bytecode, where execution provides it.
    pub code: Option<Vec<u8>>,
    /// Storage slots written, with their new values.
    pub storage: Vec<(Word, Word)>,
    pub touched: bool,
    pub selfdestructed: bool,
    pub created: bool,
}

/// The record that committing `c` writes for an account whose topmost record
/// was `prev`.
pub open spec fn committed_account(c: StateChange, info: AccountInfo, prev: Option<DbAccount>) -> DbAccount {
    DbAccount {
        info,
        account_state: AccountState::Touched,
        locally_created: fresh_account(c, prev) || (prev matches Some(p) && p.locally_created),
    }
}


impl<S: BackingSource> CacheDB<S> {
    /// The account at `address` as execution reads it (`None`: it does not exist),
    /// fetched and cached in layer 0 on a miss.
    pub fn basic(&mut self, address: &Address) -> (r: Result<Option<AccountInfo>, DBError>)
        requires
            old(self).wf(),
        ensures
            final(self).wf(),
            writes_preserve(*old(self), *final(self)),
            final(self).journal_view() == old(self).journal_view(),
            final(self).block_hashes_view() == old(self).block_hashes_view(),
            final(self).last_block_number_view() == old(self).last_block_number_view(),
            match r {
                Ok(info) => {
                    &&& find_account(final(self).data().layers, *address) is Some
                    &&& info == find_account(final(self).data().layers, *address)->Some_0.info_view()
                    &&& find_account(old(self).data().layers, *address) is Some ==> final(self).data()
                        == old(self).data()
                },
                Err(_) => final(self).data() == old(self).data(),
            },
            find_account(old(self).data().layers, *address) matches Some(acc) ==> (r matches Ok(i) && i
                == acc.info_view()),
    {
        match self.resolve_account(address) {
            Ok(acc) => Ok(acc.info()),
            Err(e) => Err(e),
        }
    }

    /// Caches in layer 0 a fetched slot and, where given, the fetched record of its account.
    fn cache_slot(&mut self, a: Address, acc: Option<DbAccount>, k: Word, v: Word)
        requires
            old(self).wf(),
            !old(self).data().layers[0].storage.contains_key((a, k)),
            acc is Some ==> !old(self).data().layers[0].accounts.contains_key(a),
        ensures
            final(self).wf(),
            writes_preserve(*old(self), *final(self)),
            final(self).same_but_data(old(self)),
            final(self).data().contracts == old(self).data().contracts,
            final(self).data().layers.len() == old(self).data().layers.len(),
            forall|j: int|
                1 <= j < old(self).data().layers.len() ==> #[trigger] final(self).data().layers[j]
                    == old(self).data().layers[j],
            final(self).data().layers[0].storage == old(self).data().layers[0].storage.insert((a, k), v),
            final(self).data().layers[0].accounts == match acc {
                Some(x) => old(self).data().layers[0].accounts.insert(a, x),
                None => old(self).data().layers[0].accounts,
            },
    {
        let ghost ls = self.data().layers;
        let mut layer = Layer::new();
        self.layers.set_and_swap(0, &mut layer);
        match acc {
            Some(x) => {
                layer.set_account(a, Some(x));
            },
            None => {},
        }
        layer.set_slot(a, k, Some(v));
        let ghost lv = layer.view();
        self.layers.set_and_swap(0, &mut layer);
        proof {
            assert(self.data().layers =~= ls.update(0, lv));
            lemma_writes_preserve_refl(*old(self));
        }
    }

    /// The value of slot `index` of `address` as execution reads it, fetched and
    /// cached in layer 0 where no layer decides it.
    pub fn storage(&mut self, address: &Address, index: &Word) -> (r: Result<Word, DBError>)
        requires
            old(self).wf(),
        ensures
            final(self).wf(),
            writes_preserve(*old(self), *final(self)),
            final(self).same_but_data(old(self)),
            match r {
                Ok(v) => slot_read(*old(self), *final(self), *address, *index, v),
                Err(_) => final(self).data() == old(self).data(),
            },
            read_slot(old(self).data().layers, *address, *index) matches Some(v) ==> (r matches Ok(w)
                && w == v),
    {
        let ghost ls = self.data().layers;
        let a = *address;
        let k = *index;
        let mut i = self.layers.len();
        assert(ls.take(i as int) =~= ls);
        while i > 0
            invariant
                self.wf(),
                ls == self.data().layers,
                a == *address,
                k == *index,
                i <= ls.len(),
                slot_lookup(ls, a, k) == slot_lookup(ls.take(i as int), a, k),
                forall|j: int| i <= j < ls.len() ==> passes_through(#[trigger] ls[j], a, k),
            decreases i,
        {
            i = i - 1;
            assert(ls.take(i + 1).drop_last() =~= ls.take(i as int));
            assert(ls.take(i + 1).last() == ls[i as int]);
            assert(ls[i as int] == self.layers@[i as int].view());
            let found = self.layers[i].get_account(address);
            assert(found == crate::layer::map_get(ls[i as int].accounts, a));
            let slot = self.layers[i].get_slot(address, index);
            match found {
                Some(acc) => {
                    if acc.account_state == AccountState::NotExisting {
                        proof {
                            lemma_writes_preserve_refl(*self);
                        }
                        return Ok(Word::zero());
                    }
                },
                None => {},
            }
            match slot {
                Some(v) => {
                    proof {
                        lemma_writes_preserve_refl(*self);
                    }
                    return Ok(v);
                },
                None => {},
            }
            match found {
                Some(acc) => {
                    if acc.locally_created {
                        proof {
                            lemma_writes_preserve_refl(*self);
                        }
                        return Ok(Word::zero());
                    }
                },
                None => {},
            }
        }
        proof {
            assert(slot_lookup(ls.take(0), a, k) is None);
            assert(passes_through(ls[0], a, k));
        }
        let value = match self.layers[0].get_account(address) {
            Some(_) => {
                let v = match self.db.storage(address, index) {
                    Ok(v) => v,
                    Err(e) => {
                        proof {
                            lemma_writes_preserve_refl(*self);
                        }
                        return Err(e);
                    },
                };
                self.cache_slot(a, None, k, v);
                v
            },
            None => {
                let info = match self.db.basic(address) {
                    Ok(info) => info,
                    Err(e) => {
                        proof {
                            lemma_writes_preserve_refl(*self);
                        }
                        return Err(e);
                    },
                };
                let v = match info {
                    Some(_) => match self.db.storage(address, index) {
                        Ok(v) => v,
                        Err(e) => {
                            proof {
                                lemma_writes_preserve_refl(*self);
                            }
                            return Err(e);
                        },
                    },
                    None => Word::zero(),
                };
                self.cache_slot(a, Some(DbAccount::from_loaded(info)), k, v);
                v
            },
        };
        proof {
            let ls1 = self.data().layers;
            assert forall|j: int| 1 <= j < ls1.len() implies passes_through(#[trigger] ls1[j], a, k) by {
                assert(ls1[j] == ls[j]);
            }
            lemma_slot_lookup_below(ls1, a, k, 1);
            assert(ls1.take(1).last() == ls1[0]);
            assert(ls1.take(1).drop_last().len() == 0);
        }
        Ok(value)
    }

    /// The bytecode stored under `code_hash`, fetched and cached on a miss.
    pub fn code_by_hash(&mut self, code_hash: &Word) -> (r: Result<Vec<u8>, DBError>)
        requires
            old(self).wf(),
        ensures
            final(self).wf(),
            writes_preserve(*old(self), *final(self)),
            final(self).same_but_data(old(self)),
            final(self).data().layers == old(self).data().layers,
            match r {
                Ok(code) => {
                    &&& final(self).data().contracts.contains_key(*code_hash)
                    &&& final(self).data().contracts[*code_hash]@ == code@
                    &&& old(self).data().contracts.contains_key(*code_hash) ==> final(self).data()
                        == old(self).data()
                },
                Err(_) => final(self).data() == old(self).data(),
            },
            old(self).data().contracts.contains_key(*code_hash) ==> r is Ok,
    {
        proof {
            lemma_writes_preserve_refl(*self);
        }
        match self.contracts.get(code_hash) {
            Some(code) => Ok(copy_bytes(code)),
            None => {
                let code = match self.db.code_by_hash(code_hash) {
                    Ok(code) => code,
                    Err(e) => return Err(e),
                };
                let out = copy_bytes(&code);
                let ghost d0 = self.data();
                self.contracts.insert(*code_hash, code);
                proof {
                    assert(self.data().layers == d0.layers);
                }
                Ok(out)
            },
        }
    }

    /// The hash of block `n`: zero outside the 256 most recent blocks, otherwise
    /// the cached hash, fetched and cached on a miss.
    pub fn block_hash(&mut self, n: u64) -> (r: Result<Word, DBError>)
        requires
            old(self).wf(),
        ensures
            final(self).wf(),
            block_hash_read(*old(self), *final(self), n, r),
            in_hash_window(n, old(self).last_block_number_view()) && old(self).block_hashes_view().contains_key(n)
                ==> (r matches Ok(h) && h == old(self).block_hashes_view()[n]),
    {
        let last = self.last_block_number;
        if n > last || last - n >= 256 {
            return Ok(Word::zero());
        }
        match self.block_hashes.get(&n) {
            Some(h) => {
                let h = *h;
                proof {
                    assert(self.block_hashes@.insert(n, h) =~= self.block_hashes@);
                }
                Ok(h)
            },
            None => {
                let h = match self.db.block_hash(n) {
                    Ok(h) => h,
                    Err(e) => return Err(e),
                };
                self.block_hashes.insert(n, h);
                Ok(h)
            },
        }
    }

    /// Whether the account at `address`, as layer 0 or the backing source gives
    /// it, has code.
    pub fn is_contract_forked(&self, address: &Address) -> (r: Result<bool, DBError>)
        requires
            self.wf(),
        ensures
            self.data().layers[0].accounts.contains_key(*address) ==> r == Ok::<bool, DBError>(
                has_code(self.data().layers[0].accounts[*address].info),
            ),
    {
        let acc = match self.layers[0].get_account(address) {
            Some(acc) => acc,
            None => match self.forked_account_or_new(address) {
                Ok(acc) => acc,
                Err(e) => return Err(e),
            },
        };
        let kh = crate::types::keccak_empty_word();
        Ok(!(acc.info.code_hash == kh) && !acc.info.code_hash.is_zero())
    }

    /// Stores the bytecode of an account that execution wrote, under its code
    /// hash (computed where it is the empty-code hash); returns the account
    /// with a zero code hash replaced by the empty-code hash.
    fn insert_contract(&mut self, info: AccountInfo, code: Option<Vec<u8>>) -> (r: AccountInfo)
        requires
            old(self).wf(),
        ensures
            final(self).wf(),
            writes_preserve(*old(self), *final(self)),
            final(self).data().layers == old(self).data().layers,
            final(self).block_hashes_view() == old(self).block_hashes_view(),
            final(self).last_block_number_view() == old(self).last_block_number_view(),
            r.balance == info.balance,
            r.nonce == info.nonce,
            r.code_hash == inserted_code_hash(info, code),
            code matches Some(c) && c@.len() > 0 && r.code_hash != keccak_empty()
                ==> final(self).data().contracts.contains_key(r.code_hash),
    {
        let ghost s0 = *self;
        let mut info = info;
        proof {
            lemma_writes_preserve_refl(*self);
        }
        match code {
            Some(code) => {
                if code.len() > 0 {
                    if info.code_hash == crate::types::keccak_empty_word() {
                        info.code_hash = keccak(&code);
                    }
                    if !self.contracts.contains_key(&info.code_hash) {
                        self.record(JournalEntry::ContractChange(info.code_hash, Some(code)));
                        proof {
                            assert(self.data().layers =~= s0.data().layers);
                            assert(self.journal_view().take(s0.journal_view().len() as int) =~= s0.journal_view());
                        }
                    }
                }
            },
            None => {},
        }
        if info.code_hash.is_zero() {
            info.code_hash = crate::types::keccak_empty_word();
        }
        info
    }

    /// Applies the changes that execution made to one account: a destroyed
    /// account becomes non-existing with no storage; any other touched account
    /// gets its new record and slot values, and one created anew (or re-created
    /// after it stopped existing) first loses the slots the writable layer held
    /// for it. Each change is journaled.
    pub fn commit_change(&mut self, c: StateChange)
        requires
            old(self).wf(),
        ensures
            final(self).wf(),
            writes_preserve(*old(self), *final(self)),
            final(self).block_hashes_view() == old(self).block_hashes_view(),
            final(self).last_block_number_view() == old(self).last_block_number_view(),
            top_only(old(self).data(), final(self).data(), c.address),
            change_applied(old(self).data(), final(self).data(), c),
            !c.touched ==> final(self).data() == old(self).data() && final(self).journal_view()
                == old(self).journal_view(),
    {
        let ghost s0 = *self;
        proof {
            s0.lemma_layer_count();
        }
        let a = c.address;
        if !c.touched {
            proof {
                lemma_writes_preserve_refl(*self);
                lemma_top_only_refl(self.data(), a);
            }
            return;
        }
        if c.selfdestructed {
            self.record(JournalEntry::AccountChange(a, Some(DbAccount::new_not_existing())));
            let ghost s1 = *self;
            self.record(JournalEntry::StorageReplace(a, Some(KeyMap::new())));
            proof {
                lemma_apply_top_only(s0.data(), EntryView::Account(a, Some(not_existing_account())), a);
                lemma_apply_top_only(s1.data(), EntryView::Storage(a, Map::empty()), a);
                lemma_top_only_trans(s0.data(), s1.data(), self.data(), a);
                assert(self.journal_view().take(s0.journal_view().len() as int) =~= s0.journal_view());
            }
            return;
        }
        let prev = self.latest_account(&a);
        let fresh = c.created || match prev {
            Some(p) => p.account_state == AccountState::NotExisting,
            None => false,
        };
        let locally_created = fresh || match prev {
            Some(p) => p.locally_created,
            None => false,
        };
        let StateChange { address: _, info, code, storage, touched: _, selfdestructed: _, created: _ } = c;
        let info = self.insert_contract(info, code);
        let ghost s1 = *self;
        proof {
            lemma_top_only_refl(s0.data(), a);
            assert(s1.data().layers == s0.data().layers);
        }
        let acc = DbAccount { info, account_state: AccountState::Touched, locally_created };
        self.record(JournalEntry::AccountChange(a, Some(acc)));
        proof {
            assert(self.journal_view().take(s1.journal_view().len() as int) =~= s1.journal_view());
            lemma_writes_preserve_trans(s0, s1, *self);
            lemma_apply_top_only(s1.data(), EntryView::Account(a, Some(acc)), a);
        }
        let ghost s15 = *self;
        if fresh {
            self.record(JournalEntry::StorageReplace(a, Some(KeyMap::new())));
            proof {
                assert(self.journal_view().take(s15.journal_view().len() as int) =~= s15.journal_view());
                lemma_writes_preserve_trans(s0, s15, *self);
                lemma_apply_top_only(s15.data(), EntryView::Storage(a, Map::empty()), a);
                lemma_top_only_trans(s1.data(), s15.data(), self.data(), a);
            }
        }
        let ghost s2 = *self;
        proof {
            assert(top_only(s0.data(), s2.data(), a));
            assert forall|k: Word| #[trigger] map_get(s2.data().layers.last().storage, (a, k)) == (if fresh {
                None::<Word>
            } else {
                map_get(s0.data().layers.last().storage, (a, k))
            }) by {}
        }
        let mut i: usize = 0;
        while i < storage.len()
            invariant
                self.wf(),
                writes_preserve(s0, *self),
                self.block_hashes_view() == s0.block_hashes_view(),
                self.last_block_number_view() == s0.last_block_number_view(),
                top_only(s0.data(), self.data(), a),
                self.data().layers.len() == s2.data().layers.len(),
                self.data().layers.last().accounts == s2.data().layers.last().accounts,
                map_get(s2.data().layers.last().accounts, a) == Some(acc),
                i <= storage@.len(),
                forall|k: Word| #[trigger] map_get(self.data().layers.last().storage, (a, k)) == slot_after(
                    storage@.take(i as int),
                    k,
                    map_get(s2.data().layers.last().storage, (a, k)),
                ),
            decreases storage@.len() - i,
        {
            let ghost s3 = *self;
            let (k, v) = storage[i];
            self.record(JournalEntry::StorageChange(a, k, Some(v)));
            proof {
                assert(self.journal_view().take(s3.journal_view().len() as int) =~= s3.journal_view());
                lemma_writes_preserve_trans(s0, s3, *self);
                lemma_apply_top_only(s3.data(), EntryView::Slot(a, k, Some(v)), a);
                lemma_top_only_trans(s0.data(), s3.data(), self.data(), a);
                assert(storage@.take(i + 1).drop_last() =~= storage@.take(i as int));
                assert(storage@.take(i + 1).last() == (k, v));
                let top3 = s3.data().layers.last().storage;
                let top4 = self.data().layers.last().storage;
                assert(top4 == crate::layer::map_set(top3, (a, k), Some(v)));
                assert forall|k2: Word| #[trigger] map_get(top4, (a, k2)) == slot_after(
                    storage@.take(i + 1),
                    k2,
                    map_get(s2.data().layers.last().storage, (a, k2)),
                ) by {
                    assert(map_get(top3, (a, k2)) == slot_after(
                        storage@.take(i as int),
                        k2,
                        map_get(s2.data().layers.last().storage, (a, k2)),
                    ));
                    if k2 == k {
                        assert(diff_slot(storage@.take(i + 1), k2) == Some(v));
                    } else {
                        assert(diff_slot(storage@.take(i + 1), k2) == diff_slot(storage@.take(i as int), k2));
                    }
                }
            }
            i = i + 1;
        }
        proof {
            assert(storage@.take(i as int) =~= storage@);
            assert(prev == find_account(s0.data().layers, a));
        }
    }

    /// Applies every change of an execution diff; the addresses are distinct,
    /// as the keys of the diff.
    pub fn commit(&mut self, changes: Vec<StateChange>)
        requires
            old(self).wf(),
            forall|i: int, j: int|
                0 <= i < j < changes@.len() ==> (#[trigger] changes@[i]).address != (#[trigger] changes@[j]).address,
        ensures
            final(self).wf(),
            writes_preserve(*old(self), *final(self)),
            final(self).block_hashes_view() == old(self).block_hashes_view(),
            final(self).last_block_number_view() == old(self).last_block_number_view(),
            forall|i: int|
                0 <= i < changes@.len() ==> change_applied(old(self).data(), final(self).data(), #[trigger] changes@[i]),
            forall|i: int|
                0 <= i < changes@.len() ==> committed_reads(old(self).data(), final(self).data(), #[trigger] changes@[i]),
            forall|b: Address|
                (forall|i: int| 0 <= i < changes@.len() ==> (#[trigger] changes@[i]).address != b)
                    ==> #[trigger] find_account(final(self).data().layers, b) == find_account(old(self).data().layers, b)
                    && forall|k: Word| #[trigger] read_slot(final(self).data().layers, b, k) == read_slot(old(self).data().layers, b, k),
    {
        let ghost orig = changes@;
        let ghost d0 = self.data();
        let mut changes = changes;
        proof {
            lemma_writes_preserve_refl(*self);
            self.lemma_layer_count();
        }
        while changes.len() > 0
            invariant
                self.wf(),
                writes_preserve(*old(self), *self),
                self.block_hashes_view() == old(self).block_hashes_view(),
                self.last_block_number_view() == old(self).last_block_number_view(),
                d0 == old(self).data(),
                changes@ == orig.take(changes@.len() as int),
                changes@.len() <= orig.len(),
                forall|i: int, j: int|
                    0 <= i < j < orig.len() ==> (#[trigger] orig[i]).address != (#[trigger] orig[j]).address,
                self.data().layers.len() == d0.layers.len(),
                d0.layers.len() >= 2,
                self.data().layers.drop_last() == d0.layers.drop_last(),
                forall|i: int|
                    changes@.len() <= i < orig.len() ==> change_applied(d0, self.data(), #[trigger] orig[i]),
                forall|b: Address|
                    (forall|i: int| changes@.len() <= i < orig.len() ==> (#[trigger] orig[i]).address != b)
                        ==> #[trigger] map_get(self.data().layers.last().accounts, b) == map_get(d0.layers.last().accounts, b)
                        && forall|k: Word| #[trigger] map_get(self.data().layers.last().storage, (b, k))
                        == map_get(d0.layers.last().storage, (b, k)),
            decreases changes@.len(),
        {
            let ghost s1 = *self;
            let ghost m = changes@.len() - 1;
            let c = changes.pop().unwrap();
            proof {
                assert(c == orig[m]);
                assert(changes@ =~= orig.take(m));
                assert forall|i: int| m < i < orig.len() implies orig[i].address != c.address by {
                    assert(orig[m].address != orig[i].address);
                }
                lemma_top_agrees(d0.layers, s1.data().layers, c.address);
            }
            self.commit_change(c);
            proof {
                lemma_writes_preserve_trans(*old(self), s1, *self);
                let d1 = s1.data();
                let d2 = self.data();
                assert(d2.layers.drop_last() == d0.layers.drop_last());
                assert forall|i: int| m <= i < orig.len() implies change_applied(d0, d2, #[trigger] orig[i]) by {
                    if i > m {
                        assert(orig[m].address != orig[i].address);
                        lemma_change_applied_frame(d0, d1, d2, orig[i], c.address);
                    } else {
                        lemma_change_applied_base(d0, d1, d2, c);
                    }
                }
                assert forall|b: Address|
                    (forall|i: int| m <= i < orig.len() ==> (#[trigger] orig[i]).address != b) implies
                    #[trigger] map_get(d2.layers.last().accounts, b) == map_get(d0.layers.last().accounts, b)
                    && forall|k: Word| #[trigger] map_get(d2.layers.last().storage, (b, k))
                    == map_get(d0.layers.last().storage, (b, k)) by {
                    assert(orig[m].address != b);
                    assert(forall|i: int| m + 1 <= i < orig.len() ==> (#[trigger] orig[i]).address != b);
                }
            }
        }
        proof {
            assert(changes@.len() == 0);
            let d = self.data();
            assert forall|i: int| 0 <= i < orig.len() implies committed_reads(d0, d, #[trigger] orig[i]) by {
                lemma_committed_reads(d0, d, orig[i]);
            }
            assert forall|b: Address|
                (forall|i: int| 0 <= i < orig.len() ==> (#[trigger] orig[i]).address != b) implies
                #[trigger] find_account(d.layers, b) == find_account(d0.layers, b)
                && forall|k: Word| #[trigger] read_slot(d.layers, b, k) == read_slot(d0.layers, b, k) by {
                lemma_top_agrees(d0.layers, d.layers, b);
            }
        }
    }
}

/// The slot value after the writes `s`: the last value written to `k`, if any.
pub open spec fn diff_slot(s: Seq<(Word, Word)>, k: Word) -> Option<Word>
    decreases s.len(),
{
    if s.len() == 0 {
        None
    } else if s.last().0 == k {
        Some(s.last().1)
    } else {
        diff_slot(s.drop_last(), k)
    }
}

/// A slot after the writes `s` over the value `base`.
pub open spec fn slot_after(s: Seq<(Word, Word)>, k: Word, base: Option<Word>) -> Option<Word> {
    match diff_slot(s, k) {
        Some(v) => Some(v),
        None => base,
    }
}

/// The account is created anew: by this execution, or after it stopped existing.
pub open spec fn fresh_account(c: StateChange, prev: Option<DbAccount>) -> bool {
    c.created || (prev matches Some(p) && p.account_state == AccountState::NotExisting)
}

/// `d1` differs from `d0` at most in the writable layer's entries for `a`
/// (and in the bytecode table).
pub open spec fn top_only(d0: DataView, d1: DataView, a: Address) -> bool {
    &&& d1.layers.len() == d0.layers.len()
    &&& d1.layers.drop_last() == d0.layers.drop_last()
    &&& forall|b: Address| b != a ==> #[trigger] map_get(d1.layers.last().accounts, b) == map_get(
        d0.layers.last().accounts,
        b,
    )
    &&& forall|b: Address, k: Word| b != a ==> #[trigger] map_get(d1.layers.last().storage, (b, k))
        == map_get(d0.layers.last().storage, (b, k))
}

/// What committing `c` on top of `d0` leaves in the writable layer of `d1`
/// for `c`'s address.
pub open spec fn change_applied(d0: DataView, d1: DataView, c: StateChange) -> bool {
    let a = c.address;
    let top0 = d0.layers.last();
    let top1 = d1.layers.last();
    if !c.touched {
        &&& map_get(top1.accounts, a) == map_get(top0.accounts, a)
        &&& forall|k: Word| #[trigger] map_get(top1.storage, (a, k)) == map_get(top0.storage, (a, k))
    } else if c.selfdestructed {
        &&& map_get(top1.accounts, a) == Some(not_existing_account())
        &&& forall|k: Word| #[trigger] map_get(top1.storage, (a, k)) == None::<Word>
    } else {
        let prev = find_account(d0.layers, a);
        &&& map_get(top1.accounts, a) == Some(
            committed_account(
                c,
                AccountInfo { code_hash: inserted_code_hash(c.info, c.code), ..c.info },
                prev,
            ),
        )
        &&& forall|k: Word| #[trigger] map_get(top1.storage, (a, k)) == slot_after(
            c.storage@,
            k,
            if fresh_account(c, prev) {
                None
            } else {
                map_get(top0.storage, (a, k))
            },
        )
    }
}

/// What reads of `c`'s address see after committing `c` on top of `d0`: a
/// destroyed account does not exist and all its slots are zero; any other
/// touched account reads as its committed record, each written slot as its last
/// written value, and, when created anew, every other slot as zero.
pub open spec fn committed_reads(d0: DataView, d1: DataView, c: StateChange) -> bool {
    let a = c.address;
    let prev = find_account(d0.layers, a);
    &&& c.touched && c.selfdestructed ==> {
        &&& find_account(d1.layers, a) == Some(not_existing_account())
        &&& forall|k: Word| #[trigger] read_slot(d1.layers, a, k) == Some(word_zero())
    }
    &&& c.touched && !c.selfdestructed ==> {
        &&& find_account(d1.layers, a) == Some(
            committed_account(
                c,
                AccountInfo { code_hash: inserted_code_hash(c.info, c.code), ..c.info },
                prev,
            ),
        )
        &&& forall|k: Word| #[trigger] diff_slot(c.storage@, k) is Some ==> read_slot(d1.layers, a, k) == diff_slot(c.storage@, k)
        &&& fresh_account(c, prev) ==> forall|k: Word| #[trigger] diff_slot(c.storage@, k) is None ==> read_slot(
            d1.layers,
            a,
            k,
        ) == Some(word_zero())
    }
}

pub proof fn lemma_committed_reads(d0: DataView, d1: DataView, c: StateChange)
    requires
        d1.layers.len() >= 1,
        change_applied(d0, d1, c),
    ensures
        committed_reads(d0, d1, c),
{
    let a = c.address;
    let top1 = d1.layers.last();
    if c.touched {
        assert(top1.accounts.contains_key(a));
        lemma_find_account_top(d1.layers, a);
        if c.selfdestructed {
            assert forall|k: Word| #[trigger] read_slot(d1.layers, a, k) == Some(word_zero()) by {}
        } else {
            let prev = find_account(d0.layers, a);
            assert forall|k: Word| #[trigger] diff_slot(c.storage@, k) is Some implies read_slot(d1.layers, a, k)
                == diff_slot(c.storage@, k) by {
                assert(map_get(top1.storage, (a, k)) == diff_slot(c.storage@, k));
            }
            if fresh_account(c, prev) {
                assert forall|k: Word| #[trigger] diff_slot(c.storage@, k) is None implies read_slot(d1.layers, a, k)
                    == Some(word_zero()) by {
                    assert(map_get(top1.storage, (a, k)) == None::<Word>);
                }
            }
        }
    }
}

pub proof fn lemma_top_only_refl(d: DataView, a: Address)
    ensures
        top_only(d, d, a),
{
}

pub proof fn lemma_top_only_trans(d0: DataView, d1: DataView, d2: DataView, a: Address)
    requires
        top_only(d0, d1, a),
        top_only(d1, d2, a),
    ensures
        top_only(d0, d2, a),
{
    assert forall|b: Address| b != a implies #[trigger] map_get(d2.layers.last().accounts, b) == map_get(
        d0.layers.last().accounts,
        b,
    ) by {
        assert(map_get(d1.layers.last().accounts, b) == map_get(d0.layers.last().accounts, b));
    }
    assert forall|b: Address, k: Word| b != a implies #[trigger] map_get(d2.layers.last().storage, (b, k))
        == map_get(d0.layers.last().storage, (b, k)) by {
        assert(map_get(d1.layers.last().storage, (b, k)) == map_get(d0.layers.last().storage, (b, k)));
    }
}

/// Whether `e` changes only locations of `a` (or the bytecode table).
pub open spec fn entry_about(e: EntryView, a: Address) -> bool {
    match e {
        EntryView::Contract(_, _) => true,
        EntryView::Account(x, _) => x == a,
        EntryView::Slot(x, _, _) => x == a,
        EntryView::Storage(x, _) => x == a,
    }
}

pub proof fn lemma_apply_top_only(d: DataView, e: EntryView, a: Address)
    requires
        d.layers.len() >= 1,
        entry_about(e, a),
    ensures
        top_only(d, apply_entry(d, d.layers.len() - 1, e), a),
{
    let d1 = apply_entry(d, d.layers.len() - 1, e);
    assert(d1.layers.drop_last() =~= d.layers.drop_last());
}

/// Committing a change of another address keeps what `c` left.
pub proof fn lemma_change_applied_frame(d0: DataView, d1: DataView, d2: DataView, c: StateChange, other: Address)
    requires
        change_applied(d0, d1, c),
        top_only(d1, d2, other),
        c.address != other,
    ensures
        change_applied(d0, d2, c),
{
    let a = c.address;
    assert(map_get(d2.layers.last().accounts, a) == map_get(d1.layers.last().accounts, a));
    assert forall|k: Word| #[trigger] map_get(d2.layers.last().storage, (a, k)) == map_get(
        d1.layers.last().storage,
        (a, k),
    ) by {}
}

/// What a change does from the state it was applied to is what it does from
/// the state before the whole diff, where that state agrees on its address.
pub proof fn lemma_change_applied_base(d0: DataView, d1: DataView, d2: DataView, c: StateChange)
    requires
        change_applied(d1, d2, c),
        d0.layers.len() == d1.layers.len(),
        d0.layers.len() >= 1,
        d1.layers.drop_last() == d0.layers.drop_last(),
        map_get(d1.layers.last().accounts, c.address) == map_get(d0.layers.last().accounts, c.address),
        forall|k: Word| #[trigger] map_get(d1.layers.last().storage, (c.address, k)) == map_get(
            d0.layers.last().storage,
            (c.address, k),
        ),
    ensures
        change_applied(d0, d2, c),
{
    lemma_top_agrees(d0.layers, d1.layers, c.address);
}

/// The code hash that committing an account with `info` and `code` stores.
pub open spec fn inserted_code_hash(info: AccountInfo, code: Option<Vec<u8>>) -> Word {
    let h = match code {
        Some(c) => if c@.len() > 0 && info.code_hash == keccak_empty() {
            keccak_of(c@)
        } else {
            info.code_hash
        },
        None => info.code_hash,
    };
    if h == word_zero() {
        keccak_empty()
    } else {
        h
    }
}
impl<S: BackingSource> CacheDB<S> {
    /// The account at `address` without caching anything: the topmost record,
    /// or what the backing source gives.
    pub fn basic_ref(&self, address: &Address) -> (r: Result<Option<AccountInfo>, DBError>)
        requires
            self.wf(),
        ensures
            find_account(self.data().layers, *address) matches Some(acc) ==> (r matches Ok(i) && i
                == acc.info_view()),
    {
        match self.latest_account(address) {
            Some(acc) => Ok(acc.info()),
            None => self.db.basic(address),
        }
    }

    /// The bytecode stored under `code_hash`, or what the backing source gives.
    pub fn code_by_hash_ref(&self, code_hash: &Word) -> (r: Result<Vec<u8>, DBError>)
        requires
            self.wf(),
        ensures
            self.data().contracts.contains_key(*code_hash) ==> (r matches Ok(c) && c@ == self.data().contracts[*code_hash]@),
    {
        match self.contracts.get(code_hash) {
            Some(code) => Ok(copy_bytes(code)),
            None => self.db.code_by_hash(code_hash),
        }
    }

    /// The hash of block `n` without caching it: zero outside the 256 most
    /// recent blocks, else the cached hash or what the backing source gives.
    pub fn block_hash_ref(&self, n: u64) -> (r: Result<Word, DBError>)
        requires
            self.wf(),
        ensures
            !in_hash_window(n, self.last_block_number_view()) ==> (r matches Ok(h) && h == word_zero()),
            in_hash_window(n, self.last_block_number_view()) && self.block_hashes_view().contains_key(n)
                ==> (r matches Ok(h) && h == self.block_hashes_view()[n]),
    {
        let last = self.last_block_number;
        if n > last || last - n >= 256 {
            return Ok(Word::zero());
        }
        match self.block_hashes.get(&n) {
            Some(h) => Ok(*h),
            None => self.db.block_hash(n),
        }
    }

    /// The value of slot `index` of `address` without caching anything: as the
    /// layers decide it, or what the backing source gives.
    pub fn storage_ref(&self, address: &Address, index: &Word) -> (r: Result<Word, DBError>)
        requires
            self.wf(),
        ensures
            read_slot(self.data().layers, *address, *index) matches Some(v) ==> (r matches Ok(w) && w == v),
    {
        let ghost ls = self.data().layers;
        let a = *address;
        let k = *index;
        let mut i = self.layers.len();
        assert(ls.take(i as int) =~= ls);
        while i > 0
            invariant
                self.wf(),
                ls == self.data().layers,
                a == *address,
                k == *index,
                i <= ls.len(),
                slot_lookup(ls, a, k) == slot_lookup(ls.take(i as int), a, k),
            decreases i,
        {
            i = i - 1;
            assert(ls.take(i + 1).drop_last() =~= ls.take(i as int));
            assert(ls.take(i + 1).last() == ls[i as int]);
            assert(ls[i as int] == self.layers@[i as int].view());
            let found = self.layers[i].get_account(address);
            assert(found == crate::layer::map_get(ls[i as int].accounts, a));
            let slot = self.layers[i].get_slot(address, index);
            match found {
                Some(acc) => {
                    if acc.account_state == AccountState::NotExisting {
                        return Ok(Word::zero());
                    }
                },
                None => {},
            }
            match slot {
                Some(v) => {
                    return Ok(v);
                },
                None => {},
            }
            match found {
                Some(acc) => {
                    if acc.locally_created {
                        return Ok(Word::zero());
                    }
                },
                None => {},
            }
        }
        self.db.storage(address, index)
    }
}

/// The cache layer, the bytecode table and the block hashes as plain entries,
/// the form in which a forked chain's cache is kept on disk; storage is grouped
/// by address.
pub struct DiskCache {
    pub accounts: Vec<(Address, DbAccount)>,
    pub contracts: Vec<(Word, Vec<u8>)>,
    pub storage: Vec<(Address, Vec<(Word, Word)>)>,
    pub block_hashes: Vec<(u64, Word)>,
}

/// The value of the last entry for `k` in `s`, if any.
pub open spec fn last_value<K, V>(s: Seq<(K, V)>, k: K) -> Option<V>
    decreases s.len(),
{
    if s.len() == 0 {
        None
    } else if s.last().0 == k {
        Some(s.last().1)
    } else {
        last_value(s.drop_last(), k)
    }
}

/// `o` where it is given, else `base`.
pub open spec fn or_else<V>(o: Option<V>, base: Option<V>) -> Option<V> {
    match o {
        Some(v) => Some(v),
        None => base,
    }
}

/// The value of the last entry for slot `k` of `a` in grouped storage `s`, if any.
pub open spec fn storage_last(s: Seq<(Address, Vec<(Word, Word)>)>, a: Address, k: Word) -> Option<Word>
    decreases s.len(),
{
    if s.len() == 0 {
        None
    } else {
        or_else(
            if s.last().0 == a {
                last_value(s.last().1@, k)
            } else {
                None
            },
            storage_last(s.drop_last(), a, k),
        )
    }
}

/// `r` lists the cache layer, the bytecode table and the block hashes of `s`:
/// every entry, and nothing else.
pub open spec fn exported<S>(s: CacheDB<S>, r: DiskCache) -> bool {
    &&& forall|i: int|
            0 <= i < r.accounts@.len() ==> s.data().layers[0].accounts.contains_key((#[trigger] r.accounts@[i]).0)
                && s.data().layers[0].accounts[r.accounts@[i].0] == r.accounts@[i].1
    &&& forall|a: Address| #[trigger] s.data().layers[0].accounts.contains_key(a) ==> exists|i: int|
            0 <= i < r.accounts@.len() && (#[trigger] r.accounts@[i]).0 == a
    &&& forall|i: int, q: int|
            0 <= i < r.storage@.len() && 0 <= q < r.storage@[i].1@.len() ==> s.data().layers[0].storage.contains_key(
                ((#[trigger] r.storage@[i]).0, (#[trigger] r.storage@[i].1@[q]).0),
            ) && s.data().layers[0].storage[(r.storage@[i].0, r.storage@[i].1@[q].0)] == r.storage@[i].1@[q].1
    &&& forall|a: Address, k: Word| #[trigger] s.data().layers[0].storage.contains_key((a, k)) ==> exists|i: int, q: int|
            0 <= i < r.storage@.len() && 0 <= q < r.storage@[i].1@.len() && (#[trigger] r.storage@[i]).0 == a
                && (#[trigger] r.storage@[i].1@[q]).0 == k
    &&& forall|i: int|
            0 <= i < r.contracts@.len() ==> s.data().contracts.contains_key((#[trigger] r.contracts@[i]).0)
                && s.data().contracts[r.contracts@[i].0]@ == r.contracts@[i].1@
    &&& forall|h: Word| #[trigger] s.data().contracts.contains_key(h) ==> exists|i: int|
            0 <= i < r.contracts@.len() && (#[trigger] r.contracts@[i]).0 == h
    &&& forall|i: int|
            0 <= i < r.block_hashes@.len() ==> s.block_hashes_view().contains_key((#[trigger] r.block_hashes@[i]).0)
                && s.block_hashes_view()[r.block_hashes@[i].0] == r.block_hashes@[i].1
    &&& forall|n: u64| #[trigger] s.block_hashes_view().contains_key(n) ==> exists|i: int|
            0 <= i < r.block_hashes@.len() && (#[trigger] r.block_hashes@[i]).0 == n
}

/// `s1` is `s0` with the cache `cache` loaded: the last listing of each key
/// wins, keys not listed keep their values, and nothing else changes.
pub open spec fn imported<S>(s0: CacheDB<S>, s1: CacheDB<S>, cache: DiskCache) -> bool {
    &&& s1.journal_view() == s0.journal_view()
    &&& s1.snaps() == s0.snaps()
    &&& s1.last_block_number_view() == s0.last_block_number_view()
    &&& s1.data().layers.len() == s0.data().layers.len()
    &&& forall|i: int|
            1 <= i < s0.data().layers.len() ==> #[trigger] s1.data().layers[i]
                == s0.data().layers[i]
    &&& forall|a: Address| #[trigger] map_get(s1.data().layers[0].accounts, a) == or_else(
            last_value(cache.accounts@, a),
            map_get(s0.data().layers[0].accounts, a),
        )
    &&& forall|a: Address, k: Word| #[trigger] map_get(s1.data().layers[0].storage, (a, k)) == or_else(
            storage_last(cache.storage@, a, k),
            map_get(s0.data().layers[0].storage, (a, k)),
        )
    &&& forall|h: Word| #[trigger] map_get(s1.data().contracts, h) == or_else(
            last_value(cache.contracts@, h),
            map_get(s0.data().contracts, h),
        )
    &&& forall|n: u64| #[trigger] map_get(s1.block_hashes_view(), n) == or_else(
            last_value(cache.block_hashes@, n),
            map_get(s0.block_hashes_view(), n),
        )
}

impl<S> CacheDB<S> {
    /// The cache layer, the bytecode table and the block hashes, entry by
    /// entry: every entry, each key once.
    pub fn export_cache(&self) -> (r: DiskCache)
        requires
            self.wf(),
        ensures
            exported(*self, r),
    {
        let accounts = self.layers[0].account_entries();
        let storage = self.layers[0].storage_maps();
        assert(self.data().layers[0] == self.layers@[0].view());
        assert forall|a: Address| #[trigger] self.data().layers[0].accounts.contains_key(a) implies exists|t: int|
            0 <= t < accounts@.len() && (#[trigger] accounts@[t]).0 == a by {
            assert(self.layers@[0].view().accounts.contains_key(a));
        }
        let mut contracts: Vec<(Word, Vec<u8>)> = Vec::new();
        let n = self.contracts.len();
        let mut i: usize = 0;
        while i < n
            invariant
                self.wf(),
                n == self.contracts@.len(),
                i <= n,
                contracts@.len() == i,
                forall|k: int| 0 <= k < i ==> (#[trigger] contracts@[k]).0 == self.contracts.key_at(k),
                forall|k: int|
                    0 <= k < contracts@.len() ==> self.data().contracts.contains_key((#[trigger] contracts@[k]).0)
                        && self.data().contracts[contracts@[k].0]@ == contracts@[k].1@,
            decreases n - i,
        {
            let (h, code) = self.contracts.entry_at(i);
            contracts.push((*h, copy_bytes(code)));
            i = i + 1;
        }
        let mut block_hashes: Vec<(u64, Word)> = Vec::new();
        let m = self.block_hashes.len();
        let mut i: usize = 0;
        while i < m
            invariant
                self.wf(),
                m == self.block_hashes@.len(),
                i <= m,
                block_hashes@.len() == i,
                forall|k: int| 0 <= k < i ==> (#[trigger] block_hashes@[k]).0 == self.block_hashes.key_at(k),
                forall|k: int|
                    0 <= k < block_hashes@.len() ==> self.block_hashes_view().contains_key((#[trigger] block_hashes@[k]).0)
                        && self.block_hashes_view()[block_hashes@[k].0] == block_hashes@[k].1,
            decreases m - i,
        {
            let (num, h) = self.block_hashes.entry_at(i);
            block_hashes.push((*num, *h));
            i = i + 1;
        }
        proof {
            self.contracts.lemma_key_index();
            self.block_hashes.lemma_key_index();
            assert forall|h: Word| #[trigger] self.data().contracts.contains_key(h) implies exists|t: int|
                0 <= t < contracts@.len() && (#[trigger] contracts@[t]).0 == h by {
                assert(self.contracts@.contains_key(h));
                let t = choose|t: int| 0 <= t < self.contracts@.len() && #[trigger] self.contracts.key_at(t) == h;
                assert(contracts@[t].0 == h);
            }
            assert forall|x: u64| #[trigger] self.block_hashes_view().contains_key(x) implies exists|t: int|
                0 <= t < block_hashes@.len() && (#[trigger] block_hashes@[t]).0 == x by {
                let t = choose|t: int| 0 <= t < self.block_hashes@.len() && #[trigger] self.block_hashes.key_at(t) == x;
                assert(block_hashes@[t].0 == x);
            }
        }
        let r = DiskCache { accounts, contracts, storage, block_hashes };
        proof {
            assert forall|a: Address| #[trigger] self.data().layers[0].accounts.contains_key(a) implies exists|t: int|
                0 <= t < r.accounts@.len() && (#[trigger] r.accounts@[t]).0 == a by {
                let t = choose|t: int| 0 <= t < accounts@.len() && (#[trigger] accounts@[t]).0 == a;
                assert(r.accounts@[t].0 == a);
            }
            assert forall|h: Word| #[trigger] self.data().contracts.contains_key(h) implies exists|t: int|
                0 <= t < r.contracts@.len() && (#[trigger] r.contracts@[t]).0 == h by {
                let t = choose|t: int| 0 <= t < contracts@.len() && (#[trigger] contracts@[t]).0 == h;
                assert(r.contracts@[t].0 == h);
            }
            assert forall|x: u64| #[trigger] self.block_hashes_view().contains_key(x) implies exists|t: int|
                0 <= t < r.block_hashes@.len() && (#[trigger] r.block_hashes@[t]).0 == x by {
                let t = choose|t: int| 0 <= t < block_hashes@.len() && (#[trigger] block_hashes@[t]).0 == x;
                assert(r.block_hashes@[t].0 == x);
            }
            assert forall|a: Address, k: Word| #[trigger] self.data().layers[0].storage.contains_key((a, k)) implies exists|i: int, q: int|
                0 <= i < r.storage@.len() && 0 <= q < r.storage@[i].1@.len() && (#[trigger] r.storage@[i]).0 == a
                    && (#[trigger] r.storage@[i].1@[q]).0 == k by {
                assert(self.layers@[0].view().storage.contains_key((a, k)));
                let (i, q) = choose|i: int, q: int|
                    0 <= i < storage@.len() && 0 <= q < storage@[i].1@.len() && (#[trigger] storage@[i]).0 == a
                        && (#[trigger] storage@[i].1@[q]).0 == k;
                assert(r.storage@[i].0 == a && r.storage@[i].1@[q].0 == k);
            }
        }
        r
    }

    /// Loads a cache kept on disk into the cache layer, the bytecode table and
    /// the block hashes; where a key is listed more than once the last listing
    /// wins, and keys not listed keep their values. Nothing is journaled.
    pub fn import_cache(&mut self, cache: DiskCache)
        requires
            old(self).wf(),
        ensures
            final(self).wf(),
            imported(*old(self), *final(self), cache),
    {
        let ghost d0 = self.data();
        let mut layer = Layer::new();
        self.layers.set_and_swap(0, &mut layer);
        let ghost ls = self.data().layers;
        let ghost base = layer.view();
        let mut i: usize = 0;
        while i < cache.accounts.len()
            invariant
                layer.wf(),
                i <= cache.accounts@.len(),
                layer.view().storage == base.storage,
                forall|a: Address| #[trigger] map_get(layer.view().accounts, a) == or_else(
                    last_value(cache.accounts@.take(i as int), a),
                    map_get(base.accounts, a),
                ),
            decreases cache.accounts@.len() - i,
        {
            let (a, acc) = cache.accounts[i];
            let ghost lv0 = layer.view();
            layer.set_account(a, Some(acc));
            proof {
                assert(cache.accounts@.take(i + 1).drop_last() =~= cache.accounts@.take(i as int));
                assert(cache.accounts@.take(i + 1).last() == (a, acc));
                assert forall|a2: Address| #[trigger] map_get(layer.view().accounts, a2) == or_else(
                    last_value(cache.accounts@.take(i + 1), a2),
                    map_get(base.accounts, a2),
                ) by {
                    assert(map_get(lv0.accounts, a2) == or_else(
                        last_value(cache.accounts@.take(i as int), a2),
                        map_get(base.accounts, a2),
                    ));
                }
            }
            i = i + 1;
        }
        proof {
            assert(cache.accounts@.take(i as int) =~= cache.accounts@);
        }
        let ghost accounts_done = layer.view().accounts;
        let mut i: usize = 0;
        while i < cache.storage.len()
            invariant
                layer.wf(),
                i <= cache.storage@.len(),
                layer.view().accounts == accounts_done,
                forall|a: Address, k: Word| #[trigger] map_get(layer.view().storage, (a, k)) == or_else(
                    storage_last(cache.storage@.take(i as int), a, k),
                    map_get(base.storage, (a, k)),
                ),
            decreases cache.storage@.len() - i,
        {
            let a = cache.storage[i].0;
            let m = cache.storage[i].1.len();
            let ghost sl = cache.storage@[i as int].1@;
            let mut j: usize = 0;
            while j < m
                invariant
                    layer.wf(),
                    i < cache.storage@.len(),
                    a == cache.storage@[i as int].0,
                    sl == cache.storage@[i as int].1@,
                    m == sl.len(),
                    j <= m,
                    layer.view().accounts == accounts_done,
                    forall|a2: Address, k: Word| #[trigger] map_get(layer.view().storage, (a2, k)) == if a2 == a {
                        or_else(
                            last_value(sl.take(j as int), k),
                            or_else(storage_last(cache.storage@.take(i as int), a2, k), map_get(base.storage, (a2, k))),
                        )
                    } else {
                        or_else(storage_last(cache.storage@.take(i as int), a2, k), map_get(base.storage, (a2, k)))
                    },
                decreases m - j,
            {
                let (k, v) = cache.storage[i].1[j];
                let ghost lv0 = layer.view();
                layer.set_slot(a, k, Some(v));
                proof {
                    assert(sl.take(j + 1).drop_last() =~= sl.take(j as int));
                    assert(sl.take(j + 1).last() == (k, v));
                    assert forall|a2: Address, k2: Word| #[trigger] map_get(layer.view().storage, (a2, k2)) == if a2 == a {
                        or_else(
                            last_value(sl.take(j + 1), k2),
                            or_else(storage_last(cache.storage@.take(i as int), a2, k2), map_get(base.storage, (a2, k2))),
                        )
                    } else {
                        or_else(storage_last(cache.storage@.take(i as int), a2, k2), map_get(base.storage, (a2, k2)))
                    } by {
                        assert(map_get(lv0.storage, (a2, k2)) == if a2 == a {
                            or_else(
                                last_value(sl.take(j as int), k2),
                                or_else(storage_last(cache.storage@.take(i as int), a2, k2), map_get(base.storage, (a2, k2))),
                            )
                        } else {
                            or_else(storage_last(cache.storage@.take(i as int), a2, k2), map_get(base.storage, (a2, k2)))
                        });
                    }
                }
                j = j + 1;
            }
            proof {
                assert(sl.take(j as int) =~= sl);
                assert(cache.storage@.take(i + 1).drop_last() =~= cache.storage@.take(i as int));
                assert(cache.storage@.take(i + 1).last() == cache.storage@[i as int]);
                assert forall|a2: Address, k2: Word| #[trigger] map_get(layer.view().storage, (a2, k2)) == or_else(
                    storage_last(cache.storage@.take(i + 1), a2, k2),
                    map_get(base.storage, (a2, k2)),
                ) by {
                    assert(storage_last(cache.storage@.take(i + 1), a2, k2) == or_else(
                        if a2 == a { last_value(sl, k2) } else { None },
                        storage_last(cache.storage@.take(i as int), a2, k2),
                    ));
                }
            }
            i = i + 1;
        }
        proof {
            assert(cache.storage@.take(i as int) =~= cache.storage@);
        }
        let ghost lv = layer.view();
        self.layers.set_and_swap(0, &mut layer);
        proof {
            assert(self.data().layers =~= ls.update(0, lv));
            assert(ls =~= d0.layers.update(0, self.data().layers[0]).update(0, ls[0]));
        }
        let ghost d1 = self.data();
        let ghost c0 = self.contracts@;
        let ghost all = cache.contracts@;
        let mut contracts = cache.contracts;
        while contracts.len() > 0
            invariant
                self.wf(),
                self.journal_view() == old(self).journal_view(),
                self.snaps() == old(self).snaps(),
                self.last_block_number_view() == old(self).last_block_number_view(),
                self.block_hashes_view() == old(self).block_hashes_view(),
                self.data().layers == d1.layers,
                contracts@.len() <= all.len(),
                contracts@ == all.skip(all.len() - contracts@.len()),
                forall|h: Word| #[trigger] map_get(self.data().contracts, h) == or_else(
                    last_value(all.take(all.len() - contracts@.len()), h),
                    map_get(c0, h),
                ),
            decreases contracts@.len(),
        {
            let ghost done = all.len() - contracts@.len();
            let (h, code) = contracts.remove(0);
            let ghost d = self.data();
            proof {
                assert(all[done] == (h, code));
            }
            self.contracts.insert(h, code);
            proof {
                assert(self.data().layers == d.layers);
                assert(all.take(done + 1).drop_last() =~= all.take(done));
                assert(all.take(done + 1).last() == (h, code));
                assert(contracts@ =~= all.skip(done + 1));
                assert(all.len() - contracts@.len() == done + 1);
                assert forall|h2: Word| #[trigger] map_get(self.data().contracts, h2) == or_else(
                    last_value(all.take(done + 1), h2),
                    map_get(c0, h2),
                ) by {
                    assert(map_get(d.contracts, h2) == or_else(last_value(all.take(done), h2), map_get(c0, h2)));
                }
            }
        }
        proof {
            assert(all.take(all.len() as int) =~= all);
        }
        let ghost d2 = self.data();
        let ghost b0 = self.block_hashes@;
        let mut i: usize = 0;
        while i < cache.block_hashes.len()
            invariant
                self.wf(),
                self.journal_view() == old(self).journal_view(),
                self.snaps() == old(self).snaps(),
                self.last_block_number_view() == old(self).last_block_number_view(),
                self.data() == d2,
                i <= cache.block_hashes@.len(),
                forall|n: u64| #[trigger] map_get(self.block_hashes_view(), n) == or_else(
                    last_value(cache.block_hashes@.take(i as int), n),
                    map_get(b0, n),
                ),
            decreases cache.block_hashes@.len() - i,
        {
            let (n, h) = cache.block_hashes[i];
            let ghost bh0 = self.block_hashes_view();
            self.block_hashes.insert(n, h);
            proof {
                assert(cache.block_hashes@.take(i + 1).drop_last() =~= cache.block_hashes@.take(i as int));
                assert(cache.block_hashes@.take(i + 1).last() == (n, h));
                assert forall|n2: u64| #[trigger] map_get(self.block_hashes_view(), n2) == or_else(
                    last_value(cache.block_hashes@.take(i + 1), n2),
                    map_get(b0, n2),
                ) by {
                    assert(map_get(bh0, n2) == or_else(last_value(cache.block_hashes@.take(i as int), n2), map_get(b0, n2)));
                }
            }
            i = i + 1;
        }
        proof {
            assert(cache.block_hashes@.take(i as int) =~= cache.block_hashes@);
        }
    }
}


} // verus!
