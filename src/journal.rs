use vstd::prelude::*;

use crate::account::DbAccount;
use crate::keymap::KeyMap;
use crate::layer::{map_get, map_set, opt_slots, replace_storage_of, storage_of, LayerView};
use crate::types::{Address, Word};

verus! {

/// The prior value of one location of the store, enough to undo one change.
pub enum JournalEntry {
    /// A bytecode body, by code hash.
    ContractChange(Word, Option<Vec<u8>>),
    /// An account record.
    AccountChange(Address, Option<DbAccount>),
    /// One storage slot.
    StorageChange(Address, Word, Option<Word>),
    /// The whole storage map of an address (used when an account is destroyed).
    StorageReplace(Address, Option<KeyMap<Word, Word>>),
}

/// A journal entry as a value: the location and the value it holds.
pub enum EntryView {
    Contract(Word, Option<Vec<u8>>),
    Account(Address, Option<DbAccount>),
    Slot(Address, Word, Option<Word>),
    Storage(Address, Map<Word, Word>),
}

impl JournalEntry {
    pub open spec fn wf(&self) -> bool {
        match self {
            JournalEntry::StorageReplace(_, Some(m)) => m.wf(),
            _ => true,
        }
    }

    pub open spec fn view(&self) -> EntryView {
        match self {
            JournalEntry::ContractChange(h, o) => EntryView::Contract(*h, *o),
            JournalEntry::AccountChange(a, o) => EntryView::Account(*a, *o),
            JournalEntry::StorageChange(a, k, o) => EntryView::Slot(*a, *k, *o),
            JournalEntry::StorageReplace(a, o) => EntryView::Storage(*a, opt_slots(*o)),
        }
    }
}

/// What the journal-addressed part of the store holds: the layers and the bytecode table.
pub struct DataView {
    pub layers: Seq<LayerView>,
    pub contracts: Map<Word, Vec<u8>>,
}

/// The store after setting the location of `e` in layer `l` to the value of `e`.
pub open spec fn apply_entry(d: DataView, l: int, e: EntryView) -> DataView {
    match e {
        EntryView::Contract(h, o) => DataView { contracts: map_set(d.contracts, h, o), ..d },
        EntryView::Account(a, o) => DataView {
            layers: d.layers.update(
                l,
                LayerView { accounts: map_set(d.layers[l].accounts, a, o), ..d.layers[l] },
            ),
            ..d
        },
        EntryView::Slot(a, k, o) => DataView {
            layers: d.layers.update(
                l,
                LayerView { storage: map_set(d.layers[l].storage, (a, k), o), ..d.layers[l] },
            ),
            ..d
        },
        EntryView::Storage(a, m) => DataView {
            layers: d.layers.update(
                l,
                LayerView { storage: replace_storage_of(d.layers[l].storage, a, m), ..d.layers[l] },
            ),
            ..d
        },
    }
}

/// The entry that records what the location of `e` in layer `l` holds in `d`.
pub open spec fn inverse_entry(d: DataView, l: int, e: EntryView) -> EntryView {
    match e {
        EntryView::Contract(h, _) => EntryView::Contract(h, map_get(d.contracts, h)),
        EntryView::Account(a, _) => EntryView::Account(a, map_get(d.layers[l].accounts, a)),
        EntryView::Slot(a, k, _) => EntryView::Slot(a, k, map_get(d.layers[l].storage, (a, k))),
        EntryView::Storage(a, _) => EntryView::Storage(a, storage_of(d.layers[l].storage, a)),
    }
}

pub proof fn lemma_map_set_get<K, V>(m: Map<K, V>, k: K, o: Option<V>)
    ensures
        map_set(map_set(m, k, o), k, map_get(m, k)) == m,
        map_get(map_set(m, k, o), k) == o,
{
    assert(map_set(map_set(m, k, o), k, map_get(m, k)) =~= m);
}

/// Applying an entry and then the entry it displaced gives back the store and the entry.
pub proof fn lemma_apply_inverse(d: DataView, l: int, e: EntryView)
    requires
        0 <= l < d.layers.len(),
    ensures
        apply_entry(apply_entry(d, l, e), l, inverse_entry(d, l, e)) == d,
        inverse_entry(apply_entry(d, l, e), l, inverse_entry(d, l, e)) == e,
{
    let d1 = apply_entry(d, l, e);
    let d2 = apply_entry(d1, l, inverse_entry(d, l, e));
    match e {
        EntryView::Contract(h, o) => {
            lemma_map_set_get(d.contracts, h, o);
        },
        EntryView::Account(a, o) => {
            lemma_map_set_get(d.layers[l].accounts, a, o);
            assert(d2.layers =~= d.layers);
        },
        EntryView::Slot(a, k, o) => {
            lemma_map_set_get(d.layers[l].storage, (a, k), o);
            assert(d2.layers =~= d.layers);
        },
        EntryView::Storage(a, m) => {
            let f = d.layers[l].storage;
            assert(replace_storage_of(replace_storage_of(f, a, m), a, storage_of(f, a)) =~= f);
            assert(storage_of(replace_storage_of(f, a, m), a) =~= m);
            assert(d2.layers =~= d.layers);
        },
    }
}

/// How many recorded snapshot positions are at or below `p`.
pub open spec fn count_le(snaps: Seq<usize>, p: int) -> nat
    decreases snaps.len(),
{
    if snaps.len() == 0 {
        0
    } else {
        count_le(snaps.drop_last(), p) + if snaps.last() <= p {
            1nat
        } else {
            0nat
        }
    }
}

/// The layer that was writable when the journal entry at position `p` was recorded.
pub open spec fn layer_of(snaps: Seq<usize>, p: int) -> int {
    count_le(snaps, p) as int + 1
}

/// The layer that was writable when the journal entry at position `p` was recorded.
pub fn entry_layer(snaps: &Vec<usize>, p: usize) -> (l: usize)
    requires
        snaps@.len() < usize::MAX,
    ensures
        l == layer_of(snaps@, p as int),
        1 <= l <= snaps@.len() + 1,
{
    let mut i: usize = 0;
    let mut n: usize = 0;
    while i < snaps.len()
        invariant
            i <= snaps@.len(),
            n == count_le(snaps@.take(i as int), p as int),
            n <= i,
        decreases snaps@.len() - i,
    {
        assert(snaps@.take(i + 1).drop_last() =~= snaps@.take(i as int));
        if snaps[i] <= p {
            n = n + 1;
        }
        i = i + 1;
    }
    assert(snaps@.take(i as int) =~= snaps@);
    n + 1
}

/// Re-applies the entries `rb`, last first, on top of the store `d` whose journal is `js`:
/// the store and journal that result.
pub open spec fn replay(d: DataView, js: Seq<EntryView>, snaps: Seq<usize>, rb: Seq<EntryView>) -> (
    DataView,
    Seq<EntryView>,
)
    decreases rb.len(),
{
    if rb.len() == 0 {
        (d, js)
    } else {
        let r = rb.last();
        let l = layer_of(snaps, js.len() as int);
        replay(apply_entry(d, l, r), js.push(inverse_entry(d, l, r)), snaps, rb.drop_last())
    }
}

/// The store `d` with the journal `js` undone, last entry first, down to length `j`.
pub open spec fn undo(d: DataView, js: Seq<EntryView>, snaps: Seq<usize>, j: int) -> DataView
    decreases js.len(),
{
    if js.len() <= j || js.len() == 0 {
        d
    } else {
        undo(apply_entry(d, layer_of(snaps, js.len() - 1), js.last()), js.drop_last(), snaps, j)
    }
}

pub proof fn lemma_replay_len(d: DataView, js: Seq<EntryView>, snaps: Seq<usize>, rb: Seq<EntryView>)
    ensures
        replay(d, js, snaps, rb).1.len() == js.len() + rb.len(),
    decreases rb.len(),
{
    if rb.len() > 0 {
        let r = rb.last();
        let l = layer_of(snaps, js.len() as int);
        lemma_replay_len(apply_entry(d, l, r), js.push(inverse_entry(d, l, r)), snaps, rb.drop_last());
    }
}

} // verus!
