use vstd::prelude::*;

use crate::account::not_existing_account;
use crate::chain::{mine_outcome, mined_block, query_begun, query_ended, transacted, Chain, ChainError, HistoricalQuery};
use crate::ledger::{block_lookup, Block, BlockSelector, TxBlock};
use crate::lookup::{
    decided_above_cache, find_account, lemma_find_account_cache_grows, lemma_slot_decided_above,
    read_slot,
};
use crate::store::{
    block_hash_read, committed_reads, exported, imported, in_hash_window, last_value, storage_last,
    StateChange, DiskCache, reverted, restored, rolled_back, snapshot_taken,
    writes_preserve, CacheDB, DBError,
};
use crate::types::{word_zero, Address, Word};

verus! {

/// Reverting to a snapshot after any sequence of writes gives back the store as it
/// was when the snapshot was taken: every layer above the cache holds what it held,
/// the cache and the bytecode table only gained entries, the journal and the
/// snapshots are as they were, every account that resolved then resolves to the
/// same record, and every slot decided above the cache reads the same value.
pub proof fn lemma_snapshot_round_trip<S>(
    s0: CacheDB<S>,
    s1: CacheDB<S>,
    s2: CacheDB<S>,
    s3: CacheDB<S>,
    id: int,
)
    requires
        snapshot_taken(s0, s1, id),
        writes_preserve(s1, s2),
        reverted(s2, s3, id),
    ensures
        s3.data().layers.len() == s0.data().layers.len(),
        forall|i: int|
            1 <= i < s0.data().layers.len() ==> #[trigger] s3.data().layers[i] == s0.data().layers[i],
        s0.data().layers[0].accounts.submap_of(s3.data().layers[0].accounts),
        s0.data().layers[0].storage.submap_of(s3.data().layers[0].storage),
        s0.data().contracts.submap_of(s3.data().contracts),
        s3.journal_view() == s0.journal_view(),
        s3.snaps() == s0.snaps(),
        s3.source() == s0.source(),
        forall|a: Address| #[trigger]
            find_account(s0.data().layers, a) is Some ==> find_account(s3.data().layers, a)
                == find_account(s0.data().layers, a),
        forall|a: Address, k: Word| #[trigger]
            decided_above_cache(s0.data().layers, a, k) ==> read_slot(s3.data().layers, a, k)
                == read_slot(s0.data().layers, a, k),
{
    let n = s0.data().layers.len();
    assert(s1.data().layers[0] == s0.data().layers[0]) by {
        assert(s1.data().layers.take(n as int)[0] == s1.data().layers[0]);
    }
    assert forall|i: int| 1 <= i < n implies #[trigger] s3.data().layers[i] == s0.data().layers[i] by {
        assert(s1.data().layers.take(n as int)[i] == s1.data().layers[i]);
        assert(s2.data().layers[i] == s1.data().layers[i]);
    }
    assert(s2.snaps()[id - 1] == s1.snaps().last());
    assert(s1.journal_view().len() == s0.journal_view().len());
    assert(s3.journal_view() =~= s0.journal_view());
    assert(s3.snaps() =~= s1.snaps().drop_last());
    assert forall|a: Address| #[trigger] find_account(s0.data().layers, a) is Some implies find_account(
        s3.data().layers,
        a,
    ) == find_account(s0.data().layers, a) by {
        lemma_find_account_cache_grows(s0.data().layers, s3.data().layers, a);
    }
    assert forall|a: Address, k: Word| #[trigger] decided_above_cache(s0.data().layers, a, k) implies read_slot(
        s3.data().layers,
        a,
        k,
    ) == read_slot(s0.data().layers, a, k) by {
        lemma_slot_decided_above(s0.data().layers, s3.data().layers, a, k);
    }
}

/// Restoring what a rollback returned gives back exactly the store that was
/// rolled back: its layers, bytecode table, journal and everything else.
pub proof fn lemma_rollback_restore_identity<S>(
    s0: CacheDB<S>,
    s1: CacheDB<S>,
    s2: CacheDB<S>,
    j: int,
    rb: Vec<crate::journal::JournalEntry>,
)
    requires
        rolled_back(s0, s1, j, rb),
        restored(s1, s2, rb),
    ensures
        s2.data() == s0.data(),
        s2.journal_view() == s0.journal_view(),
        s2.snaps() == s0.snaps(),
        s2.block_hashes_view() == s0.block_hashes_view(),
        s2.last_block_number_view() == s0.last_block_number_view(),
        s2.source() == s0.source(),
{
}

/// A block hash read outside the 256 most recent block numbers returns zero.
pub proof fn lemma_block_hash_outside_window<S>(
    s0: CacheDB<S>,
    s1: CacheDB<S>,
    n: u64,
    r: Result<Word, DBError>,
)
    requires
        block_hash_read(s0, s1, n, r),
        !in_hash_window(n, s0.last_block_number_view()),
    ensures
        r matches Ok(h) && h == word_zero(),
{
}

/// Two successive successful reads of the same block hash return the same word.
pub proof fn lemma_block_hash_stable<S>(
    s0: CacheDB<S>,
    s1: CacheDB<S>,
    s2: CacheDB<S>,
    n: u64,
    h1: Word,
    h2: Word,
)
    requires
        block_hash_read(s0, s1, n, Ok(h1)),
        block_hash_read(s1, s2, n, Ok(h2)),
    ensures
        h1 == h2,
{
}

/// After an account is destroyed, reads see it as non-existing with zero storage;
/// reverting to a snapshot taken before gives back the record it had and every
/// slot value it had above the cache.
pub proof fn lemma_selfdestruct_then_revert<S>(
    s0: CacheDB<S>,
    s1: CacheDB<S>,
    sm: CacheDB<S>,
    s2: CacheDB<S>,
    s3: CacheDB<S>,
    s4: CacheDB<S>,
    id: int,
    c: StateChange,
)
    requires
        snapshot_taken(s0, s1, id),
        writes_preserve(s1, sm),
        writes_preserve(sm, s2),
        committed_reads(sm.data(), s2.data(), c),
        c.touched,
        c.selfdestructed,
        writes_preserve(s2, s3),
        reverted(s3, s4, id),
    ensures
        find_account(s2.data().layers, c.address) == Some(not_existing_account()),
        forall|k: Word| #[trigger]
            read_slot(s2.data().layers, c.address, k) == Some(word_zero()),
        find_account(s0.data().layers, c.address) is Some ==> find_account(s4.data().layers, c.address)
            == find_account(s0.data().layers, c.address),
        forall|k: Word| #[trigger]
            decided_above_cache(s0.data().layers, c.address, k) ==> read_slot(s4.data().layers, c.address, k)
                == read_slot(s0.data().layers, c.address, k),
        forall|i: int|
            1 <= i < s0.data().layers.len() ==> #[trigger] s4.data().layers[i] == s0.data().layers[i],
{
    crate::store::lemma_writes_preserve_trans(s1, sm, s2);
    crate::store::lemma_writes_preserve_trans(s1, s2, s3);
    lemma_snapshot_round_trip(s0, s1, s3, s4, id);
}


/// The facts of one automined transaction that the run below chains together.
spec fn auto_step<S>(c0: Chain<S>, c1: Chain<S>, idx: usize) -> bool {
    &&& idx == c0.txs_view().len_view()
    &&& c1.txs_view().len_view() == c0.txs_view().len_view() + 1
    &&& c1.automine_view() == c0.automine_view()
    &&& c1.blocks_view().mined().len() == c0.blocks_view().mined().len() + 1
    &&& c1.env_view().number == c0.env_view().number + 1
    &&& c1.pending_view().len() == 0
    &&& c1.txs_view().tx_blocks()[idx as int] == TxBlock::Mined(c0.env_view().number)
    &&& forall|i: int|
        0 <= i < c0.txs_view().len_view() && !crate::ledger::listed(c0.pending_view(), i)
            ==> #[trigger] c1.txs_view().tx_blocks()[i] == c0.txs_view().tx_blocks()[i]
}

proof fn lemma_auto_run<S>(cs: Seq<Chain<S>>, idxs: Seq<usize>)
    requires
        cs.len() >= 1,
        idxs.len() == cs.len() - 1,
        forall|i: int| 0 <= i < cs.len() - 1 ==> auto_step(#[trigger] cs[i], cs[i + 1], idxs[i]),
    ensures
        cs.last().blocks_view().mined().len() == cs[0].blocks_view().mined().len() + idxs.len(),
        cs.last().txs_view().len_view() == cs[0].txs_view().len_view() + idxs.len(),
        cs.last().env_view().number == cs[0].env_view().number + idxs.len(),
        cs.last().automine_view() == cs[0].automine_view(),
        idxs.len() > 0 ==> cs.last().pending_view().len() == 0,
        forall|k: int| 0 <= k < idxs.len() ==> #[trigger] idxs[k] == cs[0].txs_view().len_view() + k,
        forall|k: int|
            0 <= k < idxs.len() ==> cs.last().txs_view().tx_blocks()[#[trigger] idxs[k] as int]
                == TxBlock::Mined((cs[0].env_view().number + k) as u64),
    decreases cs.len(),
{
    if cs.len() > 1 {
        let n = cs.len() - 1;
        let pre = cs.drop_last();
        let pidx = idxs.drop_last();
        assert forall|i: int| 0 <= i < pre.len() - 1 implies auto_step(#[trigger] pre[i], pre[i + 1], pidx[i]) by {
            assert(pre[i] == cs[i] && pre[i + 1] == cs[i + 1]);
        }
        lemma_auto_run(pre, pidx);
        let c0 = cs[n - 1];
        let c1 = cs[n];
        assert(auto_step(c0, c1, idxs[n - 1]));
        assert(pre.last() == c0);
        assert forall|k: int| 0 <= k < idxs.len() implies #[trigger] idxs[k] == cs[0].txs_view().len_view() + k by {
            if k < n - 1 {
                assert(pidx[k] == idxs[k]);
            }
        }
        assert forall|k: int| 0 <= k < idxs.len() implies c1.txs_view().tx_blocks()[#[trigger] idxs[k] as int]
            == TxBlock::Mined((cs[0].env_view().number + k) as u64) by {
            if k < n - 1 {
                assert(pidx[k] == idxs[k]);
                assert(!crate::ledger::listed(c0.pending_view(), idxs[k] as int));
            }
        }
    }
}

/// With automining on, every transaction of a run is mined into a block of its
/// own: N transactions add N blocks, and the k-th lands in the k-th new block.
pub proof fn lemma_automine_one_block_per_tx<S>(cs: Seq<Chain<S>>, idxs: Seq<usize>)
    requires
        cs.len() >= 1,
        idxs.len() == cs.len() - 1,
        cs[0].automine_view(),
        forall|i: int| 0 <= i < cs.len() - 1 ==> transacted(#[trigger] cs[i], cs[i + 1], idxs[i]),
    ensures
        cs.last().blocks_view().mined().len() == cs[0].blocks_view().mined().len() + idxs.len(),
        cs.last().txs_view().len_view() == cs[0].txs_view().len_view() + idxs.len(),
        idxs.len() > 0 ==> cs.last().pending_view().len() == 0,
        forall|k: int|
            0 <= k < idxs.len() ==> cs.last().txs_view().tx_blocks()[#[trigger] idxs[k] as int]
                == TxBlock::Mined((cs[0].env_view().number + k) as u64),
{
    lemma_automine_stays(cs, idxs);
    assert forall|i: int| 0 <= i < cs.len() - 1 implies auto_step(#[trigger] cs[i], cs[i + 1], idxs[i]) by {
        assert(transacted(cs[i], cs[i + 1], idxs[i]));
    }
    lemma_auto_run(cs, idxs);
}

proof fn lemma_automine_stays<S>(cs: Seq<Chain<S>>, idxs: Seq<usize>)
    requires
        cs.len() >= 1,
        idxs.len() == cs.len() - 1,
        cs[0].automine_view(),
        forall|i: int| 0 <= i < cs.len() - 1 ==> transacted(#[trigger] cs[i], cs[i + 1], idxs[i]),
    ensures
        forall|i: int| 0 <= i < cs.len() ==> (#[trigger] cs[i]).automine_view(),
    decreases cs.len(),
{
    if cs.len() > 1 {
        let pre = cs.drop_last();
        let pidx = idxs.drop_last();
        assert forall|i: int| 0 <= i < pre.len() - 1 implies transacted(#[trigger] pre[i], pre[i + 1], pidx[i]) by {
            assert(pre[i] == cs[i] && pre[i + 1] == cs[i + 1]);
        }
        lemma_automine_stays(pre, pidx);
        assert forall|i: int| 0 <= i < cs.len() implies (#[trigger] cs[i]).automine_view() by {
            if i < cs.len() - 1 {
                assert(pre[i] == cs[i]);
            } else {
                assert(pre[i - 1] == cs[i - 1]);
                assert(transacted(cs[i - 1], cs[i], idxs[i - 1]));
            }
        }
    }
}

/// With automining off, a run of transactions mines nothing and leaves them
/// all pending; mining then puts all of them into one block.
pub proof fn lemma_manual_mining_batches<S>(cs: Seq<Chain<S>>, idxs: Seq<usize>, last: Chain<S>, b: Block)
    requires
        cs.len() >= 1,
        idxs.len() == cs.len() - 1,
        !cs[0].automine_view(),
        cs[0].pending_view().len() == 0,
        forall|i: int| 0 <= i < cs.len() - 1 ==> transacted(#[trigger] cs[i], cs[i + 1], idxs[i]),
        mined_block(cs.last(), last, b),
    ensures
        cs.last().blocks_view().mined() == cs[0].blocks_view().mined(),
        cs.last().pending_view() == idxs,
        forall|k: int| 0 <= k < idxs.len() ==> (#[trigger] idxs[k]) < cs.last().txs_view().len_view(),
        last.blocks_view().mined() == cs[0].blocks_view().mined().push(b),
        forall|k: int|
            0 <= k < idxs.len() ==> last.txs_view().tx_blocks()[#[trigger] idxs[k] as int]
                == TxBlock::Mined(b.env.number),
    decreases cs.len(),
{
    lemma_manual_run(cs, idxs);
    assert forall|k: int| 0 <= k < idxs.len() implies last.txs_view().tx_blocks()[#[trigger] idxs[k] as int]
        == TxBlock::Mined(b.env.number) by {
        assert(cs.last().pending_view()[k] == idxs[k]);
        assert(crate::ledger::listed(cs.last().pending_view(), idxs[k] as int));
    }
}

proof fn lemma_manual_run<S>(cs: Seq<Chain<S>>, idxs: Seq<usize>)
    requires
        cs.len() >= 1,
        idxs.len() == cs.len() - 1,
        !cs[0].automine_view(),
        cs[0].pending_view().len() == 0,
        forall|i: int| 0 <= i < cs.len() - 1 ==> transacted(#[trigger] cs[i], cs[i + 1], idxs[i]),
    ensures
        cs.last().blocks_view().mined() == cs[0].blocks_view().mined(),
        cs.last().pending_view() == idxs,
        !cs.last().automine_view(),
        cs.last().txs_view().len_view() == cs[0].txs_view().len_view() + idxs.len(),
        forall|k: int| 0 <= k < idxs.len() ==> (#[trigger] idxs[k]) < cs.last().txs_view().len_view(),
    decreases cs.len(),
{
    if cs.len() > 1 {
        let n = cs.len() - 1;
        let pre = cs.drop_last();
        let pidx = idxs.drop_last();
        assert forall|i: int| 0 <= i < pre.len() - 1 implies transacted(#[trigger] pre[i], pre[i + 1], pidx[i]) by {
            assert(pre[i] == cs[i] && pre[i + 1] == cs[i + 1]);
        }
        lemma_manual_run(pre, pidx);
        assert(transacted(cs[n - 1], cs[n], idxs[n - 1]));
        assert(cs.last().pending_view() =~= idxs);
        assert forall|k: int| 0 <= k < idxs.len() implies (#[trigger] idxs[k]) < cs.last().txs_view().len_view() by {
            if k < n - 1 {
                assert(pidx[k] == idxs[k]);
            }
        }
    } else {
        assert(idxs =~= Seq::<usize>::empty());
        assert(cs.last().pending_view() =~= idxs);
    }
}

/// Mining without force while automining is off does nothing: no block is
/// returned and the last block number stays as it was.
pub proof fn lemma_idle_mine_noop<S>(c0: Chain<S>, c1: Chain<S>, r: Result<Option<Block>, ChainError>)
    requires
        c0.is_connected(),
        !c0.in_query(),
        !c0.automine_view(),
        mine_outcome(c0, c1, false, r),
    ensures
        r matches Ok(None),
        c1.last_block_number_spec() == c0.last_block_number_spec(),
        c1 == c0,
{
}

/// A historical query leaves the chain as it found it: once it ended, the
/// store (layers, bytecode, journal, snapshots), the pending environment and
/// the ledger are those from before it began.
pub proof fn lemma_historical_query_restores<S>(
    c0: Chain<S>,
    c1: Chain<S>,
    c2: Chain<S>,
    sel: BlockSelector,
    q: HistoricalQuery,
)
    requires
        query_begun(c0, c1, sel, q),
        query_ended(c1, c2, q),
    ensures
        c2.store_view().data() == c0.store_view().data(),
        c2.store_view().journal_view() == c0.store_view().journal_view(),
        c2.store_view().snaps() == c0.store_view().snaps(),
        c2.store_view().block_hashes_view() == c0.store_view().block_hashes_view(),
        c2.env_view() == c0.env_view(),
        c2.blocks_view() == c0.blocks_view(),
        c2.txs_view() == c0.txs_view(),
        c2.pending_view() == c0.pending_view(),
        !c2.in_query(),
{
    match q.entries() {
        Some(rb) => {
            let b = block_lookup(c0.blocks_view(), sel, (c0.env_view().number - 1) as u64, c0.env_view());
            let j = b->Ok_0.journal_index->Some_0;
            lemma_rollback_restore_identity(c0.store_view(), c1.store_view(), c2.store_view(), j as int, rb);
        },
        None => {},
    }
}

/// Two queries of the same block, begun from the same state, see the same
/// rewound store and the same block environment.
pub proof fn lemma_historical_query_repeatable<S>(
    c0: Chain<S>,
    c1: Chain<S>,
    q1: HistoricalQuery,
    d0: Chain<S>,
    d1: Chain<S>,
    q2: HistoricalQuery,
    sel: BlockSelector,
)
    requires
        query_begun(c0, c1, sel, q1),
        query_begun(d0, d1, sel, q2),
        d0.store_view().data() == c0.store_view().data(),
        d0.store_view().journal_view() == c0.store_view().journal_view(),
        d0.store_view().snaps() == c0.store_view().snaps(),
        d0.blocks_view() == c0.blocks_view(),
        d0.env_view() == c0.env_view(),
    ensures
        d1.store_view().data() == c1.store_view().data(),
        d1.env_view() == c1.env_view(),
{
}

proof fn lemma_last_value_sound<K, V>(l: Seq<(K, V)>, m: Map<K, V>, k: K)
    requires
        forall|i: int| 0 <= i < l.len() ==> m.contains_key((#[trigger] l[i]).0) && m[l[i].0] == l[i].1,
    ensures
        last_value(l, k) is Some ==> m.contains_key(k) && last_value(l, k) == Some(m[k]),
        (exists|i: int| 0 <= i < l.len() && (#[trigger] l[i]).0 == k) ==> last_value(l, k) is Some,
    decreases l.len(),
{
    if l.len() > 0 {
        let p = l.drop_last();
        assert forall|i: int| 0 <= i < p.len() implies m.contains_key((#[trigger] p[i]).0) && m[p[i].0] == p[i].1 by {
            assert(p[i] == l[i]);
        }
        lemma_last_value_sound(p, m, k);
        assert(l.last() == l[l.len() - 1]);
        if l.last().0 != k && (exists|i: int| 0 <= i < l.len() && (#[trigger] l[i]).0 == k) {
            let i = choose|i: int| 0 <= i < l.len() && (#[trigger] l[i]).0 == k;
            assert(p[i] == l[i]);
        }
    }
}

proof fn lemma_storage_last_sound(l: Seq<(Address, Vec<(Word, Word)>)>, m: Map<(Address, Word), Word>, a: Address, k: Word)
    requires
        forall|i: int, q: int|
            0 <= i < l.len() && 0 <= q < l[i].1@.len() ==> m.contains_key(((#[trigger] l[i]).0, (#[trigger] l[i].1@[q]).0))
                && m[(l[i].0, l[i].1@[q].0)] == l[i].1@[q].1,
    ensures
        storage_last(l, a, k) is Some ==> m.contains_key((a, k)) && storage_last(l, a, k) == Some(m[(a, k)]),
        (exists|i: int, q: int| 0 <= i < l.len() && 0 <= q < l[i].1@.len() && (#[trigger] l[i]).0 == a
            && (#[trigger] l[i].1@[q]).0 == k) ==> storage_last(l, a, k) is Some,
    decreases l.len(),
{
    if l.len() > 0 {
        let p = l.drop_last();
        assert forall|i: int, q: int|
            0 <= i < p.len() && 0 <= q < p[i].1@.len() implies m.contains_key(((#[trigger] p[i]).0, (#[trigger] p[i].1@[q]).0))
                && m[(p[i].0, p[i].1@[q].0)] == p[i].1@[q].1 by {
            assert(p[i] == l[i]);
        }
        lemma_storage_last_sound(p, m, a, k);
        let top = l[l.len() - 1];
        assert(l.last() == top);
        if top.0 == a {
            let inner = crate::layer::storage_of(m, a);
            assert forall|q: int| 0 <= q < top.1@.len() implies inner.contains_key((#[trigger] top.1@[q]).0)
                && inner[top.1@[q].0] == top.1@[q].1 by {
                assert(m.contains_key((l[l.len() - 1].0, l[l.len() - 1].1@[q].0)));
            }
            lemma_last_value_sound(top.1@, inner, k);
        }
        if exists|i: int, q: int| 0 <= i < l.len() && 0 <= q < l[i].1@.len() && (#[trigger] l[i]).0 == a
            && (#[trigger] l[i].1@[q]).0 == k {
            let (i, q) = choose|i: int, q: int| 0 <= i < l.len() && 0 <= q < l[i].1@.len() && (#[trigger] l[i]).0 == a
                && (#[trigger] l[i].1@[q]).0 == k;
            if i < l.len() - 1 {
                assert(p[i] == l[i]);
            } else {
                assert(exists|q2: int| 0 <= q2 < top.1@.len() && (#[trigger] top.1@[q2]).0 == k);
            }
        }
    }
}

/// Loading an exported cache into a store whose cache layer and block hashes
/// are empty reproduces the exported cache layer and block hashes exactly, and
/// every exported bytecode body.
pub proof fn lemma_cache_round_trip<S, T>(s0: CacheDB<S>, r: DiskCache, s1: CacheDB<T>, s2: CacheDB<T>)
    requires
        exported(s0, r),
        imported(s1, s2, r),
        s1.data().layers[0].accounts == Map::<Address, crate::account::DbAccount>::empty(),
        s1.data().layers[0].storage == Map::<(Address, Word), Word>::empty(),
        s1.block_hashes_view() == Map::<u64, Word>::empty(),
    ensures
        s2.data().layers[0].accounts == s0.data().layers[0].accounts,
        s2.data().layers[0].storage == s0.data().layers[0].storage,
        s2.block_hashes_view() == s0.block_hashes_view(),
        forall|h: Word| #[trigger] s0.data().contracts.contains_key(h) ==> s2.data().contracts.contains_key(h)
            && s2.data().contracts[h]@ == s0.data().contracts[h]@,
{
    let acc0 = s0.data().layers[0].accounts;
    let acc2 = s2.data().layers[0].accounts;
    assert forall|a: Address| #[trigger] crate::layer::map_get(acc2, a) == crate::layer::map_get(acc0, a) by {
        lemma_last_value_sound(r.accounts@, acc0, a);
        assert(crate::layer::map_get(s1.data().layers[0].accounts, a) is None);
    }
    assert(acc2 =~= acc0) by {
        assert forall|a: Address| acc2.contains_key(a) == acc0.contains_key(a) by {
            assert(crate::layer::map_get(acc2, a) == crate::layer::map_get(acc0, a));
        }
        assert forall|a: Address| acc2.contains_key(a) implies acc2[a] == acc0[a] by {
            assert(crate::layer::map_get(acc2, a) == crate::layer::map_get(acc0, a));
        }
    }
    let st0 = s0.data().layers[0].storage;
    let st2 = s2.data().layers[0].storage;
    assert forall|a: Address, k: Word| #[trigger] crate::layer::map_get(st2, (a, k)) == crate::layer::map_get(st0, (a, k)) by {
        lemma_storage_last_sound(r.storage@, st0, a, k);
        assert(crate::layer::map_get(s1.data().layers[0].storage, (a, k)) is None);
    }
    assert(st2 =~= st0) by {
        assert forall|p: (Address, Word)| st2.contains_key(p) == st0.contains_key(p) by {
            assert(crate::layer::map_get(st2, (p.0, p.1)) == crate::layer::map_get(st0, (p.0, p.1)));
        }
        assert forall|p: (Address, Word)| st2.contains_key(p) implies st2[p] == st0[p] by {
            assert(crate::layer::map_get(st2, (p.0, p.1)) == crate::layer::map_get(st0, (p.0, p.1)));
        }
    }
    let b0 = s0.block_hashes_view();
    let b2 = s2.block_hashes_view();
    assert forall|n: u64| #[trigger] crate::layer::map_get(b2, n) == crate::layer::map_get(b0, n) by {
        lemma_last_value_sound(r.block_hashes@, b0, n);
        assert(crate::layer::map_get(s1.block_hashes_view(), n) is None);
    }
    assert(b2 =~= b0) by {
        assert forall|n: u64| b2.contains_key(n) == b0.contains_key(n) by {
            assert(crate::layer::map_get(b2, n) == crate::layer::map_get(b0, n));
        }
        assert forall|n: u64| b2.contains_key(n) implies b2[n] == b0[n] by {
            assert(crate::layer::map_get(b2, n) == crate::layer::map_get(b0, n));
        }
    }
    let c0 = s0.data().contracts;
    let view_map = Map::new(|h: Word| c0.contains_key(h), |h: Word| c0[h]@);
    assert forall|h: Word| #[trigger] c0.contains_key(h) implies s2.data().contracts.contains_key(h)
        && s2.data().contracts[h]@ == c0[h]@ by {
        let vl = r.contracts@.map_values(|e: (Word, Vec<u8>)| (e.0, e.1@));
        assert forall|i: int| 0 <= i < vl.len() implies view_map.contains_key((#[trigger] vl[i]).0) && view_map[vl[i].0] == vl[i].1 by {
            assert(vl[i] == (r.contracts@[i].0, r.contracts@[i].1@));
        }
        let t = choose|t: int| 0 <= t < r.contracts@.len() && (#[trigger] r.contracts@[t]).0 == h;
        assert(vl[t].0 == h);
        lemma_last_value_sound(vl, view_map, h);
        lemma_last_value_views(r.contracts@, h);
        assert(last_value(r.contracts@, h) is Some);
        assert(crate::layer::map_get(s2.data().contracts, h) == last_value(r.contracts@, h));
    }
}

proof fn lemma_last_value_views(l: Seq<(Word, Vec<u8>)>, h: Word)
    ensures
        last_value(l.map_values(|e: (Word, Vec<u8>)| (e.0, e.1@)), h) == match last_value(l, h) {
            Some(v) => Some(v@),
            None => None,
        },
    decreases l.len(),
{
    if l.len() > 0 {
        let vl = l.map_values(|e: (Word, Vec<u8>)| (e.0, e.1@));
        assert(vl.drop_last() =~= l.drop_last().map_values(|e: (Word, Vec<u8>)| (e.0, e.1@)));
        lemma_last_value_views(l.drop_last(), h);
    }
}
} // verus!
