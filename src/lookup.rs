use vstd::prelude::*;

use crate::account::{AccountState, DbAccount};
use crate::layer::{map_get, LayerView};
use crate::types::{word_zero, Address, Word};

verus! {

/// The record of `a` in the topmost layer that holds one.
pub open spec fn find_account(layers: Seq<LayerView>, a: Address) -> Option<DbAccount>
    decreases layers.len(),
{
    if layers.len() == 0 {
        None
    } else if layers.last().accounts.contains_key(a) {
        Some(layers.last().accounts[a])
    } else {
        find_account(layers.drop_last(), a)
    }
}

/// The value of slot `k` of `a` as the layers decide it, top first: zero at a
/// non-existing record, else the first stored value, else zero at a record
/// created here (storage below it belongs to an earlier life of the address);
/// `None` where no layer decides it.
pub open spec fn slot_lookup(layers: Seq<LayerView>, a: Address, k: Word) -> Option<Word>
    decreases layers.len(),
{
    if layers.len() == 0 {
        None
    } else {
        let top = layers.last();
        let has = top.accounts.contains_key(a);
        if has && top.accounts[a].account_state == AccountState::NotExisting {
            Some(word_zero())
        } else if top.storage.contains_key((a, k)) {
            Some(top.storage[(a, k)])
        } else if has && top.accounts[a].locally_created {
            Some(word_zero())
        } else {
            slot_lookup(layers.drop_last(), a, k)
        }
    }
}

/// The value that a read of slot `k` of `a` sees, where the layers decide it.
pub open spec fn read_slot(layers: Seq<LayerView>, a: Address, k: Word) -> Option<Word> {
    slot_lookup(layers, a, k)
}

/// Layer `l` neither decides slot `k` of `a` nor marks `a` as created here.
pub open spec fn passes_through(l: LayerView, a: Address, k: Word) -> bool {
    &&& !l.storage.contains_key((a, k))
    &&& l.accounts.contains_key(a) ==> {
        &&& l.accounts[a].account_state != AccountState::NotExisting
        &&& !l.accounts[a].locally_created
    }
}

pub proof fn lemma_find_account_top(layers: Seq<LayerView>, a: Address)
    requires
        layers.len() > 0,
        layers.last().accounts.contains_key(a),
    ensures
        find_account(layers, a) == Some(layers.last().accounts[a]),
{
}

/// Layers above `lo` that hold no record of `a` leave the lookup to the layers below.
pub proof fn lemma_find_account_below(layers: Seq<LayerView>, a: Address, lo: int)
    requires
        0 <= lo <= layers.len(),
        forall|j: int| lo <= j < layers.len() ==> !(#[trigger] layers[j]).accounts.contains_key(a),
    ensures
        find_account(layers, a) == find_account(layers.take(lo), a),
    decreases layers.len(),
{
    if layers.len() > lo {
        lemma_find_account_below(layers.drop_last(), a, lo);
        assert(layers.drop_last().take(lo) =~= layers.take(lo));
    } else {
        assert(layers.take(lo) =~= layers);
    }
}

/// Layers above `lo` that pass a slot through leave the lookup to the layers below.
pub proof fn lemma_slot_lookup_below(layers: Seq<LayerView>, a: Address, k: Word, lo: int)
    requires
        0 <= lo <= layers.len(),
        forall|j: int| lo <= j < layers.len() ==> passes_through(#[trigger] layers[j], a, k),
    ensures
        slot_lookup(layers, a, k) == slot_lookup(layers.take(lo), a, k),
    decreases layers.len(),
{
    if layers.len() > lo {
        assert(passes_through(layers[layers.len() - 1], a, k));
        lemma_slot_lookup_below(layers.drop_last(), a, k, lo);
        assert(layers.drop_last().take(lo) =~= layers.take(lo));
    } else {
        assert(layers.take(lo) =~= layers);
    }
}

/// Two stacks that agree above layer 0, where the second's layer 0 extends the
/// first's, resolve every account that the first resolves in the same way.
pub proof fn lemma_find_account_cache_grows(l0: Seq<LayerView>, l1: Seq<LayerView>, a: Address)
    requires
        l0.len() == l1.len(),
        l0.len() >= 1,
        forall|j: int| 1 <= j < l0.len() ==> l0[j] == l1[j],
        l0[0].accounts.submap_of(l1[0].accounts),
        find_account(l0, a) is Some,
    ensures
        find_account(l1, a) == find_account(l0, a),
    decreases l0.len(),
{
    if l0.len() == 1 {
        assert(l0.drop_last().len() == 0);
        assert(l0.last().accounts.contains_key(a));
    } else {
        assert(l0.last() == l1.last());
        if !l0.last().accounts.contains_key(a) {
            lemma_find_account_cache_grows(l0.drop_last(), l1.drop_last(), a);
        }
    }
}

/// Where no record of `a` is found, no layer holds one.
pub proof fn lemma_find_account_none(layers: Seq<LayerView>, a: Address)
    requires
        find_account(layers, a) is None,
    ensures
        forall|j: int| 0 <= j < layers.len() ==> !(#[trigger] layers[j]).accounts.contains_key(a),
    decreases layers.len(),
{
    if layers.len() > 0 {
        lemma_find_account_none(layers.drop_last(), a);
        assert forall|j: int| 0 <= j < layers.len() implies !(#[trigger] layers[j]).accounts.contains_key(a) by {
            if j < layers.len() - 1 {
                assert(layers.drop_last()[j] == layers[j]);
            }
        }
    }
}

/// A layer above layer 0 decides slot `k` of `a`: it holds the slot, or a
/// record of `a` that is non-existing or created there, with every layer above
/// it passing the slot through.
pub open spec fn decided_above_cache(layers: Seq<LayerView>, a: Address, k: Word) -> bool
    decreases layers.len(),
{
    if layers.len() < 2 {
        false
    } else {
        let top = layers.last();
        if !passes_through(top, a, k) {
            true
        } else {
            decided_above_cache(layers.drop_last(), a, k)
        }
    }
}

/// Two stacks that agree above layer 0 read every slot decided there alike.
pub proof fn lemma_slot_decided_above(l0: Seq<LayerView>, l1: Seq<LayerView>, a: Address, k: Word)
    requires
        l0.len() == l1.len(),
        forall|j: int| 1 <= j < l0.len() ==> l0[j] == l1[j],
        decided_above_cache(l0, a, k),
    ensures
        slot_lookup(l1, a, k) == slot_lookup(l0, a, k),
    decreases l0.len(),
{
    assert(l0.last() == l1.last());
    if passes_through(l0.last(), a, k) {
        lemma_slot_decided_above(l0.drop_last(), l1.drop_last(), a, k);
    }
}

/// Two stacks that differ only in their top layer, which agrees on `b`, read
/// `b`'s record and slots alike.
pub proof fn lemma_top_agrees(l0: Seq<LayerView>, l1: Seq<LayerView>, b: Address)
    requires
        l0.len() == l1.len(),
        l0.len() >= 1,
        l0.drop_last() == l1.drop_last(),
        map_get(l0.last().accounts, b) == map_get(l1.last().accounts, b),
        forall|k: Word| #[trigger] map_get(l0.last().storage, (b, k)) == map_get(l1.last().storage, (b, k)),
    ensures
        find_account(l1, b) == find_account(l0, b),
        forall|k: Word| #[trigger] slot_lookup(l1, b, k) == slot_lookup(l0, b, k),
{
    assert forall|k: Word| #[trigger] slot_lookup(l1, b, k) == slot_lookup(l0, b, k) by {
        assert(map_get(l0.last().storage, (b, k)) == map_get(l1.last().storage, (b, k)));
    }
}

} // verus!
