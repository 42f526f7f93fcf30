use vstd::prelude::*;

use crate::ledger::{
    block_lookup, lemma_lookup_mined, Block, BlockEnv, BlockError, BlockSelector, Blocks, ExecOutcome, ExecStatus, TxBlock,
    TxInput, TxRecord, Txs,
};
use crate::account::AccountInfo;
use crate::hashing::keccak_of;
use crate::journal::undo;
use crate::lookup::{find_account, read_slot};
use crate::random::{random_word, seeded_rng};
use crate::store::{
    account_updated, block_hash_read, lemma_writes_preserve_trans, AccountUpdate, committed_reads, restored, reverted, rolled_back, slot_read,
    snapshot_taken, writes_preserve, BackingSource, CacheDB, DBError, DiskCache, StateChange,
};
use crate::types::{Address, Word};

verus! {

/// The block gas limit a chain starts with.
pub const DEFAULT_BLOCK_GAS_LIMIT: u64 = 30000000;

/// The chain id of a chain that is not forked, unless another is given.
pub const DEFAULT_CHAIN_ID: u64 = 31337;

#[derive(Debug)]
pub enum ChainError {
    /// The chain is disconnected.
    NotConnected,
    /// A historical query is open: the store is rewound until it ends.
    QueryInProgress,
    /// No historical query is open.
    NoQueryInProgress,
    /// The selected block does not exist or is no longer kept.
    Block(BlockError),
    /// A forked block whose journal position is not known: it cannot be replayed.
    UnsupportedHistoricalQuery,
    /// The new gas limit is below the gas already used in the pending block.
    InvalidGasLimitChange,
    /// The block number or timestamp cannot advance further.
    BlockNumberOverflow,
    /// No further snapshot can be taken.
    TooManySnapshots,
    /// The backing source failed.
    BackingSource(DBError),
    /// The transaction (recorded at this index) reverted.
    ExecutionRevert(usize),
    /// The transaction (recorded at this index) halted.
    ExecutionHalt(usize),
}

/// The block a forked chain starts from.
#[derive(Clone, Copy, Debug, PartialEq, Eq, Structural)]
pub struct ForkPoint {
    pub number: u64,
    pub timestamp: u64,
    pub chain_id: u64,
}

/// What `connect` needs from its caller.
pub struct ConnectConfig {
    pub chain_id: Option<u64>,
    pub fork: Option<ForkPoint>,
    /// The wall-clock time, used as the first block's timestamp when not forked.
    pub timestamp: u64,
    /// The test accounts; on a forked chain their code is cleared.
    pub accounts: Vec<Address>,
    /// Seed of the generator of block hashes.
    pub seed: u64,
    /// A forked chain's cache kept on disk, loaded before anything else.
    pub cache: Option<DiskCache>,
}

/// Orchestrator state saved by `snapshot` beside the store's snapshot.
pub struct ChainSnapshot {
    pub env: BlockEnv,
    pub pending_txs: Vec<usize>,
    pub pending_gas_used: u64,
    pub block_gas_limit: u64,
    pub automine: bool,
}

/// A historical query in progress: what puts the store and the environment back.
pub struct HistoricalQuery {
    pub(crate) rollback: Option<Vec<crate::journal::JournalEntry>>,
    pub(crate) saved_env: BlockEnv,
}

impl HistoricalQuery {
    /// What re-applies the rewound journal, where the store was rewound.
    pub closed spec fn entries(&self) -> Option<Vec<crate::journal::JournalEntry>> {
        self.rollback
    }

    /// The pending block's environment, to put back.
    pub closed spec fn saved(&self) -> BlockEnv {
        self.saved_env
    }
}

/// The chain: the store, the ledger of blocks and transactions, and the
/// pending block's environment.
pub struct Chain<S> {
    pub(crate) store: CacheDB<S>,
    pub(crate) env: BlockEnv,
    pub(crate) blocks: Blocks,
    pub(crate) txs: Txs,
    pub(crate) pending_txs: Vec<usize>,
    pub(crate) pending_gas_used: u64,
    pub(crate) block_gas_limit: u64,
    pub(crate) automine: bool,
    pub(crate) chain_id: u64,
    pub(crate) connected: bool,
    pub(crate) query_active: bool,
    pub(crate) snapshots: Vec<ChainSnapshot>,
    pub(crate) rng: rand::rngs::SmallRng,
    /// The journal length when the open historical query began.
    pub(crate) query_len: Ghost<nat>,
    /// The pending block's environment when the open historical query began.
    pub(crate) query_env: Ghost<BlockEnv>,
}

impl<S> Chain<S> {
    /// The chain's invariant: the pending block follows the last mined one,
    /// its gas plus the gas used equals the block gas limit, saved snapshots
    /// are ordered and no newer than the live state, and no snapshot or
    /// transaction points past the live journal.
    pub closed spec fn wf(&self) -> bool {
        &&& self.store.wf()
        &&& self.blocks.wf()
        &&& self.txs.wf()
        &&& self.blocks.mined().len() >= 1
        &&& self.live_env().number == self.blocks.start() + self.blocks.mined().len()
        &&& self.live_env().gas_limit + self.pending_gas_used == self.block_gas_limit
        &&& forall|i: int|
            0 <= i < self.pending_txs@.len() ==> #[trigger] self.pending_txs@[i]
                < self.txs.len_view()
        &&& self.snapshots@.len() == self.store.snaps().len()
        &&& forall|i: int|
            0 <= i < self.snapshots@.len() ==> {
                &&& self.blocks.start() < (#[trigger] self.snapshots@[i]).env.number
                &&& self.snapshots@[i].env.number <= self.live_env().number
                &&& self.snapshots@[i].env.gas_limit + self.snapshots@[i].pending_gas_used
                    == self.snapshots@[i].block_gas_limit
            }
        &&& forall|i: int, j: int|
            0 <= i < j < self.snapshots@.len() ==> (#[trigger] self.snapshots@[i]).env.number
                <= (#[trigger] self.snapshots@[j]).env.number
        &&& forall|i: int, j: int|
            0 <= i < j < self.store.snaps().len() ==> #[trigger] self.store.snaps()[i]
                <= #[trigger] self.store.snaps()[j]
        &&& forall|i: int|
            0 <= i < self.store.snaps().len() ==> #[trigger] self.store.snaps()[i]
                <= self.live_journal_len()
        &&& self.txs.len_view() > 0 ==> self.txs.journal_indexes().last() <= self.live_journal_len()
        &&& self.query_active ==> self.query_len@ <= usize::MAX
        &&& forall|i: int|
            0 <= i < self.blocks.mined().len() ==> (#[trigger] self.blocks.mined()[i]).journal_index is Some
                && self.blocks.mined()[i].journal_index->Some_0 <= self.live_journal_len()
        &&& forall|i: int, t: int|
            0 <= i < self.blocks.mined().len() && 0 <= t < self.snapshots@.len()
                && (#[trigger] self.blocks.mined()[i]).env.number < (#[trigger] self.snapshots@[t]).env.number
                ==> self.blocks.mined()[i].journal_index->Some_0 <= self.store.snaps()[t]
    }

    /// The pending block's environment (the one the open query replaced, if any).
    pub closed spec fn live_env(&self) -> BlockEnv {
        if self.query_active {
            self.query_env@
        } else {
            self.env
        }
    }

    /// The journal length of the live state (before the open query rewound it, if any).
    pub closed spec fn live_journal_len(&self) -> nat {
        if self.query_active {
            self.query_len@
        } else {
            self.store.journal_view().len()
        }
    }

    /// Outside a query, the pending block follows the last mined one, and its
    /// remaining gas plus the gas used equals the block gas limit.
    pub proof fn lemma_links(&self)
        requires
            self.wf(),
            !self.in_query(),
        ensures
            self.blocks_view().mined().len() >= 1,
            self.env_view().number == self.blocks_view().start() + self.blocks_view().mined().len(),
            self.env_view().gas_limit + self.pending_gas_used_view() == self.block_gas_limit_view(),
            self.last_block_number_spec() == self.env_view().number - 1,
    {
    }

    pub closed spec fn is_connected(&self) -> bool {
        self.connected
    }

    pub closed spec fn in_query(&self) -> bool {
        self.query_active
    }

    pub closed spec fn automine_view(&self) -> bool {
        self.automine
    }

    /// The pending block's environment.
    pub closed spec fn env_view(&self) -> BlockEnv {
        self.env
    }

    pub closed spec fn pending_gas_used_view(&self) -> u64 {
        self.pending_gas_used
    }

    pub closed spec fn block_gas_limit_view(&self) -> u64 {
        self.block_gas_limit
    }

    pub closed spec fn store_view(&self) -> CacheDB<S> {
        self.store
    }

    pub closed spec fn blocks_view(&self) -> Blocks {
        self.blocks
    }

    pub closed spec fn txs_view(&self) -> Txs {
        self.txs
    }

    /// Indexes of the transactions of the pending block.
    pub closed spec fn pending_view(&self) -> Seq<usize> {
        self.pending_txs@
    }

    pub closed spec fn snapshot_count(&self) -> nat {
        self.snapshots@.len()
    }

    /// The orchestrator state saved by snapshot `i` (oldest first).
    pub closed spec fn saved(&self, i: int) -> ChainSnapshot {
        self.snapshots@[i]
    }

    /// The pending block's environment saved by snapshot `i` (oldest first).
    pub closed spec fn snapshot_env(&self, i: int) -> BlockEnv {
        self.snapshots@[i].env
    }

    /// The number of the last mined block.
    pub open spec fn last_block_number_spec(&self) -> int {
        self.blocks_view().start() + self.blocks_view().mined().len() - 1
    }

    pub fn last_block_number(&self) -> (r: Result<u64, ChainError>)
        requires
            self.wf(),
        ensures
            self.is_connected() ==> (r matches Ok(n) && n == self.last_block_number_spec()),
            !self.is_connected() ==> r matches Err(ChainError::NotConnected),
    {
        if !self.connected {
            return Err(ChainError::NotConnected);
        }
        Ok(self.blocks.next_number() - 1)
    }

    pub fn automine(&self) -> (r: bool)
        ensures
            r == self.automine_view(),
    {
        self.automine
    }

    pub fn set_automine(&mut self, automine: bool)
        requires
            old(self).wf(),
        ensures
            final(self).wf(),
            final(self).automine_view() == automine,
            final(self).env_view() == old(self).env_view(),
            final(self).blocks_view() == old(self).blocks_view(),
            final(self).txs_view() == old(self).txs_view(),
            final(self).pending_view() == old(self).pending_view(),
            final(self).store_view() == old(self).store_view(),
            final(self).is_connected() == old(self).is_connected(),
            final(self).in_query() == old(self).in_query(),
    {
        self.automine = automine;
    }

    pub fn block_gas_limit(&self) -> (r: u64)
        ensures
            r == self.block_gas_limit_view(),
    {
        self.block_gas_limit
    }

    pub closed spec fn chain_id_view(&self) -> u64 {
        self.chain_id
    }

    pub fn chain_id(&self) -> (r: u64)
        ensures
            r == self.chain_id_view(),
    {
        self.chain_id
    }

    pub fn pending_env(&self) -> (r: BlockEnv)
        ensures
            r == self.env_view(),
    {
        self.env
    }

    pub fn is_connected_now(&self) -> (r: bool)
        ensures
            r == self.is_connected(),
    {
        self.connected
    }
}

/// `c1` is `c0` after mining the pending block as `b`.
pub open spec fn mined_block<S>(c0: Chain<S>, c1: Chain<S>, b: Block) -> bool {
    &&& b.env == (BlockEnv { gas_limit: c0.block_gas_limit_view(), ..c0.env_view() })
    &&& b.journal_index == Some(c0.store_view().journal_view().len() as usize)
    &&& c1.blocks_view().mined() == c0.blocks_view().mined().push(b)
    &&& c1.env_view() == (BlockEnv {
        number: (c0.env_view().number + 1) as u64,
        timestamp: (c0.env_view().timestamp + 1) as u64,
        gas_limit: c0.block_gas_limit_view(),
        ..c0.env_view()
    })
    &&& c1.pending_view().len() == 0
    &&& c1.pending_gas_used_view() == 0
    &&& c1.blocks_view().start() == c0.blocks_view().start()
    &&& c1.txs_view().len_view() == c0.txs_view().len_view()
    &&& c1.txs_view().journal_indexes() == c0.txs_view().journal_indexes()
    &&& c1.txs_view().records() == c0.txs_view().records()
    &&& forall|i: int|
        0 <= i < c0.txs_view().len_view() ==> #[trigger] c1.txs_view().tx_blocks()[i] == if crate::ledger::listed(c0.pending_view(), i) {
            TxBlock::Mined(b.env.number)
        } else {
            c0.txs_view().tx_blocks()[i]
        }
    &&& c1.store_view().data() == c0.store_view().data()
    &&& c1.store_view().journal_view() == c0.store_view().journal_view()
    &&& c1.store_view().snaps() == c0.store_view().snaps()
    &&& c1.store_view().source() == c0.store_view().source()
    &&& c1.store_view().last_block_number_view() == c0.env_view().number
    &&& c1.store_view().block_hashes_view() == c0.store_view().block_hashes_view().insert(
        c0.env_view().number,
        b.hash,
    )
    &&& c1.automine_view() == c0.automine_view()
    &&& c1.block_gas_limit_view() == c0.block_gas_limit_view()
    &&& c1.is_connected() == c0.is_connected()
    &&& c1.in_query() == c0.in_query()
    &&& c1.snapshot_count() == c0.snapshot_count()
}

/// What `mine(force)` returns and leaves behind.
pub open spec fn mine_outcome<S>(c0: Chain<S>, c1: Chain<S>, force: bool, r: Result<Option<Block>, ChainError>) -> bool {
    &&& !c0.is_connected() ==> (r matches Err(ChainError::NotConnected) && c1 == c0)
    &&& c0.is_connected() && c0.in_query() ==> (r matches Err(ChainError::QueryInProgress) && c1 == c0)
    &&& c0.is_connected() && !c0.in_query() && !c0.automine_view() && !force ==> (r matches Ok(None) && c1 == c0)
    &&& c0.is_connected() && !c0.in_query() && (c0.automine_view() || force) ==> {
        ||| (r matches Ok(Some(b)) && mined_block(c0, c1, b))
        ||| (r matches Err(ChainError::BlockNumberOverflow) && c1 == c0 && (c0.env_view().number
            == u64::MAX || c0.env_view().timestamp == u64::MAX))
    }
}

impl<S: BackingSource> Chain<S> {
    /// Mines the pending block with the given hash: records it, moves the
    /// pending transactions into it, and opens the next pending block.
    pub fn mine_with_hash(&mut self, block_hash: Word) -> (r: Block)
        requires
            old(self).wf(),
            !old(self).in_query(),
            old(self).env_view().number < u64::MAX,
            old(self).env_view().timestamp < u64::MAX,
        ensures
            final(self).wf(),
            mined_block(*old(self), *final(self), r),
            r.hash == block_hash,
    {
        let number = self.env.number;
        self.store.set_last_block_number(number);
        self.store.set_block_hash(number, block_hash);
        let mut block_env = self.env;
        block_env.gas_limit = self.block_gas_limit;
        let ji = self.store.journal_index();
        let block = self.blocks.add_block(block_env, ji, block_hash);
        self.txs.assign_block(&self.pending_txs, number);
        self.pending_txs = Vec::new();
        self.pending_gas_used = 0;
        self.env.number = number + 1;
        self.env.timestamp = self.env.timestamp + 1;
        self.env.gas_limit = self.block_gas_limit;
        block
    }

    /// Mines the pending block when automining or when `force` is set; does nothing otherwise.
    pub fn mine(&mut self, force: bool) -> (r: Result<Option<Block>, ChainError>)
        requires
            old(self).wf(),
        ensures
            final(self).wf(),
            mine_outcome(*old(self), *final(self), force, r),
    {
        if !self.connected {
            return Err(ChainError::NotConnected);
        }
        if self.query_active {
            return Err(ChainError::QueryInProgress);
        }
        if !self.automine && !force {
            return Ok(None);
        }
        if self.env.number == u64::MAX || self.env.timestamp == u64::MAX {
            return Err(ChainError::BlockNumberOverflow);
        }
        let hash = random_word(&mut self.rng);
        Ok(Some(self.mine_with_hash(hash)))
    }
}


/// `c1` is `c0` after the transaction recorded at index `idx` was executed,
/// its state changes committed, and, when automining, its block mined.
pub open spec fn transacted<S>(c0: Chain<S>, c1: Chain<S>, idx: usize) -> bool {
    &&& idx == c0.txs_view().len_view()
    &&& c1.txs_view().len_view() == c0.txs_view().len_view() + 1
    &&& c1.blocks_view().start() == c0.blocks_view().start()
    &&& c1.automine_view() == c0.automine_view()
    &&& c1.is_connected() && !c1.in_query()
    &&& writes_preserve(c0.store_view(), c1.store_view())
    &&& c1.txs_view().journal_indexes().last() == c0.store_view().journal_view().len()
    &&& forall|i: int|
        0 <= i < c0.txs_view().len_view() && !crate::ledger::listed(c0.pending_view(), i)
            ==> #[trigger] c1.txs_view().tx_blocks()[i] == c0.txs_view().tx_blocks()[i]
    &&& if c0.automine_view() {
        &&& c1.blocks_view().mined().len() == c0.blocks_view().mined().len() + 1
        &&& c1.blocks_view().mined().take(c0.blocks_view().mined().len() as int)
            == c0.blocks_view().mined()
        &&& c1.blocks_view().mined().last().env.number == c0.env_view().number
        &&& c1.txs_view().tx_blocks()[idx as int] == TxBlock::Mined(c0.env_view().number)
        &&& c1.pending_view().len() == 0
        &&& c1.env_view().number == c0.env_view().number + 1
        &&& c1.env_view().timestamp == c0.env_view().timestamp + 1
    } else {
        &&& c1.blocks_view().mined() == c0.blocks_view().mined()
        &&& c1.txs_view().tx_blocks()[idx as int] == TxBlock::Pending
        &&& c1.pending_view() == c0.pending_view().push(idx)
        &&& c1.env_view().number == c0.env_view().number
        &&& c1.env_view().timestamp == c0.env_view().timestamp
        &&& forall|i: int|
            0 <= i < c0.txs_view().len_view() ==> #[trigger] c1.txs_view().tx_blocks()[i]
                == c0.txs_view().tx_blocks()[i]
    }
}

/// What recording a transaction with `input`, `outcome` and state changes
/// `changes` leaves in `c1`: the record, the committed state, and the pending
/// block's gas.
pub open spec fn tx_effects<S>(
    c0: Chain<S>,
    c1: Chain<S>,
    input: TxInput,
    outcome: ExecOutcome,
    changes: Seq<StateChange>,
) -> bool {
    let rec = c1.txs_view().records().last();
    &&& c1.txs_view().records().len() == c0.txs_view().records().len() + 1
    &&& c1.txs_view().records().drop_last() == c0.txs_view().records()
    &&& rec.input == input
    &&& rec.outcome == outcome
    &&& rec.journal_index == c0.store_view().journal_view().len()
    &&& rec.gas_limit_before == c0.env_view().gas_limit
    &&& c1.block_gas_limit_view() == c0.block_gas_limit_view()
    &&& if c0.automine_view() {
        &&& c1.pending_gas_used_view() == 0
        &&& c1.env_view().gas_limit == c0.block_gas_limit_view()
    } else {
        &&& c1.pending_gas_used_view() == c0.pending_gas_used_view() + outcome.gas_used
        &&& c1.env_view().gas_limit == c0.env_view().gas_limit - outcome.gas_used
    }
    &&& forall|i: int|
        0 <= i < changes.len() ==> committed_reads(c0.store_view().data(), c1.store_view().data(), #[trigger] changes[i])
    &&& forall|b: Address|
        (forall|i: int| 0 <= i < changes.len() ==> (#[trigger] changes[i]).address != b)
            ==> #[trigger] find_account(c1.store_view().data().layers, b) == find_account(c0.store_view().data().layers, b)
            && forall|k: Word| #[trigger] read_slot(c1.store_view().data().layers, b, k) == read_slot(
            c0.store_view().data().layers,
            b,
            k,
        )
}

/// The error, if any, that a transaction with this status reports.
pub open spec fn status_result(status: ExecStatus, idx: usize, r: Result<usize, ChainError>) -> bool {
    match status {
        ExecStatus::Success => r matches Ok(i) && i == idx,
        ExecStatus::Revert => r matches Err(ChainError::ExecutionRevert(i)) && i == idx,
        ExecStatus::Halt => r matches Err(ChainError::ExecutionHalt(i)) && i == idx,
    }
}

/// Whether `q` puts back the store and environment of `c`'s open query.
pub open spec fn query_matches<S>(c: Chain<S>, q: HistoricalQuery) -> bool {
    &&& q.saved() == c.live_env()
    &&& match q.entries() {
        Some(rb) => {
            &&& c.store_view().journal_view().len() + rb@.len() == c.live_journal_len()
            &&& forall|i: int| 0 <= i < rb@.len() ==> #[trigger] rb@[i].wf()
        },
        None => c.store_view().journal_view().len() == c.live_journal_len(),
    }
}

/// `c1` is `c0` with the store rewound to the selected block and that block's
/// environment in place of the pending one; `q` puts them back.
pub open spec fn query_begun<S>(c0: Chain<S>, c1: Chain<S>, sel: BlockSelector, q: HistoricalQuery) -> bool {
    &&& c1.in_query()
    &&& c1.is_connected()
    &&& query_matches(c1, q)
    &&& q.saved() == c0.env_view()
    &&& c1.live_journal_len() == c0.store_view().journal_view().len()
    &&& c1.blocks_view() == c0.blocks_view()
    &&& c1.txs_view() == c0.txs_view()
    &&& c1.pending_view() == c0.pending_view()
    &&& c1.automine_view() == c0.automine_view()
    &&& c1.block_gas_limit_view() == c0.block_gas_limit_view()
    &&& c1.pending_gas_used_view() == c0.pending_gas_used_view()
    &&& match q.entries() {
        None => {
            &&& sel == BlockSelector::Pending
            &&& c1.store_view() == c0.store_view()
            &&& c1.env_view() == c0.env_view()
        },
        Some(rb) => {
            let b = block_lookup(
                c0.blocks_view(),
                sel,
                (c0.env_view().number - 1) as u64,
                c0.env_view(),
            );
            &&& b matches Ok(blk)
            &&& blk.journal_index matches Some(j)
            &&& c1.env_view() == blk.env
            &&& rolled_back(c0.store_view(), c1.store_view(), j as int, rb)
        },
    }
}

/// `c1` is `c0` after its open query `q` ended.
pub open spec fn query_ended<S>(c0: Chain<S>, c1: Chain<S>, q: HistoricalQuery) -> bool {
    &&& !c1.in_query()
    &&& c1.env_view() == q.saved()
    &&& match q.entries() {
        Some(rb) => restored(c0.store_view(), c1.store_view(), rb),
        None => c1.store_view() == c0.store_view(),
    }
    &&& c1.blocks_view() == c0.blocks_view()
    &&& c1.txs_view() == c0.txs_view()
    &&& c1.pending_view() == c0.pending_view()
    &&& c1.automine_view() == c0.automine_view()
    &&& c1.block_gas_limit_view() == c0.block_gas_limit_view()
    &&& c1.pending_gas_used_view() == c0.pending_gas_used_view()
    &&& c1.is_connected() == c0.is_connected()
}

impl<S> Chain<S> {
    /// Ends the open historical query: restores the store and the pending
    /// block's environment.
    pub fn end_query(&mut self, q: HistoricalQuery) -> (r: Result<(), ChainError>)
        requires
            old(self).wf(),
            old(self).in_query() ==> query_matches(*old(self), q),
        ensures
            final(self).wf(),
            !old(self).in_query() ==> (r matches Err(ChainError::NoQueryInProgress) && *final(self) == *old(self)),
            old(self).in_query() ==> (r is Ok && query_ended(*old(self), *final(self), q)),
    {
        if !self.query_active {
            return Err(ChainError::NoQueryInProgress);
        }
        let HistoricalQuery { rollback, saved_env } = q;
        match rollback {
            Some(rb) => {
                let ghost s0 = self.store;
                self.store.restore_rollback(rb);
                proof {
                    crate::journal::lemma_replay_len(
                        s0.data(),
                        s0.journal_view(),
                        s0.snaps(),
                        rb@.map_values(|e: crate::journal::JournalEntry| e.view()),
                    );
                }
            },
            None => {},
        }
        self.env = saved_env;
        self.query_active = false;
        Ok(())
    }
}

impl<S: BackingSource> Chain<S> {
    /// Connects a chain over `source`: a fresh chain at block 0, or a chain
    /// forked at `config.fork`; mines the first block.
    pub fn connect(source: S, config: ConnectConfig) -> (r: Result<Chain<S>, ChainError>)
        requires
            config.fork matches Some(f) ==> f.number < u64::MAX - 1 && f.timestamp < u64::MAX - 1,
            config.fork is None ==> config.timestamp < u64::MAX,
        ensures
            r matches Ok(c) ==> {
                &&& c.wf()
                &&& c.is_connected()
                &&& !c.in_query()
                &&& c.automine_view()
                &&& c.blocks_view().mined().len() == 1
                &&& c.txs_view().len_view() == 0
                &&& c.pending_view().len() == 0
                &&& c.block_gas_limit_view() == DEFAULT_BLOCK_GAS_LIMIT
                &&& c.env_view().gas_limit == DEFAULT_BLOCK_GAS_LIMIT
                &&& c.env_view().number == match config.fork {
                    Some(f) => f.number + 2,
                    None => 1,
                }
                &&& c.blocks_view().mined()[0].env.number == match config.fork {
                    Some(f) => f.number + 1,
                    None => 0,
                }
                &&& c.blocks_view().mined()[0].env.timestamp == match config.fork {
                    Some(f) => f.timestamp + 1,
                    None => config.timestamp as int,
                }
                &&& c.env_view().timestamp == c.blocks_view().mined()[0].env.timestamp + 1
                &&& c.last_block_number_spec() == c.blocks_view().mined()[0].env.number
                &&& c.snapshot_count() == 0
                &&& c.chain_id_view() == match config.chain_id {
                    Some(id) => id,
                    None => match config.fork {
                        Some(f) => f.chain_id,
                        None => DEFAULT_CHAIN_ID,
                    },
                }
            },
            config.fork is None ==> r is Ok,
    {
        let (store, number, ts, id, forked) = match config.fork {
            Some(f) => {
                let mut store = CacheDB::new(source, f.number);
                match config.cache {
                    Some(cache) => store.import_cache(cache),
                    None => {},
                }
                let mut i: usize = 0;
                while i < config.accounts.len()
                    invariant
                        config.fork == Some(f),
                        store.wf(),
                        store.snaps().len() == 0,
                        store.data().layers.len() == 2,
                    decreases config.accounts@.len() - i,
                {
                    match store.set_code(config.accounts[i], Vec::new()) {
                        Ok(()) => {},
                        Err(e) => return Err(ChainError::BackingSource(e)),
                    }
                    i = i + 1;
                }
                let id = match config.chain_id {
                    Some(c) => c,
                    None => f.chain_id,
                };
                (store, f.number + 1, f.timestamp + 1, id, Some(f.number))
            },
            None => {
                let id = match config.chain_id {
                    Some(c) => c,
                    None => DEFAULT_CHAIN_ID,
                };
                (CacheDB::new(source, 0), 0, config.timestamp, id, None)
            },
        };
        let env = BlockEnv {
            number,
            timestamp: ts,
            gas_limit: DEFAULT_BLOCK_GAS_LIMIT,
            beneficiary: Address::new(0, 0),
            basefee: 0,
            prevrandao: Word::zero(),
        };
        let mut chain = Chain {
            store,
            env,
            blocks: Blocks::new(forked),
            txs: Txs::new(),
            pending_txs: Vec::new(),
            pending_gas_used: 0,
            block_gas_limit: DEFAULT_BLOCK_GAS_LIMIT,
            automine: true,
            chain_id: id,
            connected: true,
            query_active: false,
            snapshots: Vec::new(),
            rng: seeded_rng(config.seed),
            query_len: Ghost(0),
            query_env: Ghost(env),
        };
        let hash = random_word(&mut chain.rng);
        proof {
            assert(chain.blocks.mined().len() == 0);
        }
        chain.mine_first(hash);
        Ok(chain)
    }

    /// Mines the chain's first block.
    fn mine_first(&mut self, block_hash: Word)
        requires
            old(self).store.wf(),
            old(self).blocks.wf(),
            old(self).txs.wf(),
            old(self).blocks.mined().len() == 0,
            old(self).env.number == old(self).blocks.start(),
            old(self).env.number < u64::MAX,
            old(self).env.timestamp < u64::MAX,
            old(self).env.gas_limit == old(self).block_gas_limit,
            old(self).pending_gas_used == 0,
            old(self).pending_txs@.len() == 0,
            old(self).txs.len_view() == 0,
            old(self).snapshots@.len() == 0,
            old(self).store.snaps().len() == 0,
            !old(self).query_active,
        ensures
            final(self).wf(),
            final(self).connected == old(self).connected,
            final(self).automine == old(self).automine,
            final(self).query_active == old(self).query_active,
            final(self).blocks.mined().len() == 1,
            final(self).txs.len_view() == 0,
            final(self).pending_txs@.len() == 0,
            final(self).block_gas_limit == old(self).block_gas_limit,
            final(self).env.gas_limit == old(self).block_gas_limit,
            final(self).env.number == old(self).env.number + 1,
            final(self).snapshots@.len() == 0,
            final(self).chain_id == old(self).chain_id,
            final(self).blocks.mined()[0].env == old(self).env,
            final(self).env.timestamp == old(self).env.timestamp + 1,
    {
        let number = self.env.number;
        self.store.set_last_block_number(number);
        self.store.set_block_hash(number, block_hash);
        let ji = self.store.journal_index();
        self.blocks.add_block(self.env, ji, block_hash);
        self.env.number = number + 1;
        self.env.timestamp = self.env.timestamp + 1;
    }

    /// Marks the chain disconnected; further operations fail with `NotConnected`.
    pub fn disconnect(&mut self) -> (r: Result<(), ChainError>)
        requires
            old(self).wf(),
        ensures
            final(self).wf(),
            !old(self).is_connected() ==> (r matches Err(ChainError::NotConnected) && *final(self) == *old(self)),
            old(self).is_connected() && old(self).in_query() ==> (r matches Err(ChainError::QueryInProgress) && *final(self) == *old(self)),
            old(self).is_connected() && !old(self).in_query() ==> (r is Ok && !final(self).is_connected()),
    {
        if !self.connected {
            return Err(ChainError::NotConnected);
        }
        if self.query_active {
            return Err(ChainError::QueryInProgress);
        }
        self.connected = false;
        Ok(())
    }

    /// Records a transaction that the virtual machine executed against the
    /// pending block: commits its state changes, charges its gas to the
    /// pending block, mines the block when automining, and reports a revert or
    /// halt as an error (the transaction stays recorded either way).
    pub fn transact(&mut self, input: TxInput, outcome: ExecOutcome, changes: Vec<StateChange>) -> (r:
        Result<usize, ChainError>)
        requires
            old(self).wf(),
            outcome.gas_used <= old(self).env_view().gas_limit,
            forall|i: int, j: int|
                0 <= i < j < changes@.len() ==> (#[trigger] changes@[i]).address != (#[trigger] changes@[j]).address,
        ensures
            final(self).wf(),
            !old(self).is_connected() ==> (r matches Err(ChainError::NotConnected) && *final(self) == *old(self)),
            old(self).is_connected() && old(self).in_query() ==> (r matches Err(ChainError::QueryInProgress) && *final(self) == *old(self)),
            old(self).is_connected() && !old(self).in_query() ==> {
                ||| (r matches Err(ChainError::BlockNumberOverflow) && *final(self) == *old(self))
                ||| (transacted(*old(self), *final(self), old(self).txs_view().len_view() as usize)
                    && status_result(outcome.status, old(self).txs_view().len_view() as usize, r)
                    && tx_effects(*old(self), *final(self), input, outcome, changes@))
            },
            r matches Err(ChainError::BlockNumberOverflow) ==> old(self).automine_view() && (
            old(self).env_view().number == u64::MAX || old(self).env_view().timestamp == u64::MAX),
    {
        if !self.connected {
            return Err(ChainError::NotConnected);
        }
        if self.query_active {
            return Err(ChainError::QueryInProgress);
        }
        if self.automine && (self.env.number == u64::MAX || self.env.timestamp == u64::MAX) {
            return Err(ChainError::BlockNumberOverflow);
        }
        let ghost c0 = *self;
        let ghost input0 = input;
        let ghost outcome0 = outcome;
        let ji = self.store.journal_index();
        self.store.commit(changes);
        let ghost cc = *self;
        let status = outcome.status;
        let gas_used = outcome.gas_used;
        let gas_limit_before = self.env.gas_limit;
        self.env.gas_limit = self.env.gas_limit - gas_used;
        self.pending_gas_used = self.pending_gas_used + gas_used;
        let idx = self.txs.len();
        proof {
            self.txs.lemma_lens();
        }
        let block = if self.automine {
            let hash = random_word(&mut self.rng);
            let b = self.mine_with_hash(hash);
            TxBlock::Mined(b.env.number)
        } else {
            TxBlock::Pending
        };
        let ghost c1 = *self;
        self.txs.add_tx(TxRecord { input, outcome, journal_index: ji, gas_limit_before }, block);
        if !self.automine {
            self.pending_txs.push(idx);
        }
        proof {
            self.txs.lemma_lens();
            c0.txs.lemma_lens();
            c1.txs.lemma_lens();
            assert(self.txs.tx_blocks()[idx as int] == block);
            assert forall|i: int|
                0 <= i < c0.txs.len_view() && !crate::ledger::listed(c0.pending_txs@, i)
                    implies #[trigger] self.txs.tx_blocks()[i] == c0.txs.tx_blocks()[i] by {
                assert(self.txs.tx_blocks()[i] == c1.txs.tx_blocks()[i]);
            }
            if !c0.automine {
                assert forall|i: int| 0 <= i < c0.txs.len_view() implies #[trigger] self.txs.tx_blocks()[i]
                    == c0.txs.tx_blocks()[i] by {
                    assert(self.txs.tx_blocks()[i] == c1.txs.tx_blocks()[i]);
                }
            } else {
                assert(self.blocks.mined().take(c0.blocks.mined().len() as int) =~= c0.blocks.mined());
            }
            crate::store::lemma_writes_preserve_refl(cc.store);
            assert(writes_preserve(cc.store, c1.store));
            lemma_writes_preserve_trans(c0.store, cc.store, c1.store);
            assert(self.store.data() == cc.store.data());
            assert(self.txs.records().drop_last() =~= c0.txs.records());
            assert(self.txs.records().last() == (TxRecord {
                input: input0,
                outcome: outcome0,
                journal_index: ji,
                gas_limit_before,
            }));
        }
        match status {
            ExecStatus::Success => Ok(idx),
            ExecStatus::Revert => Err(ChainError::ExecutionRevert(idx)),
            ExecStatus::Halt => Err(ChainError::ExecutionHalt(idx)),
        }
    }
}

/// A copy of a list of indexes.
fn copy_indexes(v: &Vec<usize>) -> (r: Vec<usize>)
    ensures
        r@ == v@,
{
    let mut r: Vec<usize> = Vec::new();
    let mut i: usize = 0;
    while i < v.len()
        invariant
            i <= v@.len(),
            r@ == v@.take(i as int),
        decreases v@.len() - i,
    {
        r.push(v[i]);
        i = i + 1;
        assert(r@ =~= v@.take(i as int));
    }
    assert(v@.take(i as int) =~= v@);
    r
}

/// The indexes of `v` below `n`, in order.
fn keep_below(v: &Vec<usize>, n: usize) -> (r: Vec<usize>)
    ensures
        forall|i: int| 0 <= i < r@.len() ==> #[trigger] r@[i] < n && v@.contains(r@[i]),
        forall|i: int| 0 <= i < v@.len() && #[trigger] v@[i] < n ==> r@.contains(v@[i]),
{
    let mut r: Vec<usize> = Vec::new();
    let mut k: usize = 0;
    while k < v.len()
        invariant
            k <= v@.len(),
            forall|i: int| 0 <= i < r@.len() ==> #[trigger] r@[i] < n && v@.contains(r@[i]),
            forall|i: int| 0 <= i < k && #[trigger] v@[i] < n ==> r@.contains(v@[i]),
        decreases v@.len() - k,
    {
        let ghost r0 = r@;
        if v[k] < n {
            r.push(v[k]);
            proof {
                assert(r@[r@.len() - 1] == v@[k as int]);
                assert forall|i: int| 0 <= i < k && #[trigger] v@[i] < n implies r@.contains(v@[i]) by {
                    let w = choose|w: int| 0 <= w < r0.len() && r0[w] == v@[i];
                    assert(r@[w] == v@[i]);
                }
            }
        }
        k = k + 1;
    }
    r
}

impl<S: BackingSource> Chain<S> {
    /// Takes a snapshot of the store and of the orchestrator's state; returns its id.
    pub fn snapshot(&mut self) -> (r: Result<usize, ChainError>)
        requires
            old(self).wf(),
        ensures
            final(self).wf(),
            !old(self).is_connected() ==> (r matches Err(ChainError::NotConnected) && *final(self) == *old(self)),
            old(self).is_connected() && old(self).in_query() ==> (r matches Err(ChainError::QueryInProgress) && *final(self) == *old(self)),
            old(self).is_connected() && !old(self).in_query() ==> {
                ||| (r matches Err(ChainError::TooManySnapshots) && *final(self) == *old(self)
                    && old(self).snapshot_count() >= usize::MAX - 4)
                ||| (r matches Ok(id) && snapshot_taken(old(self).store_view(), final(self).store_view(), id as int)
                    && id == old(self).snapshot_count() + 1
                    && final(self).snapshot_count() == old(self).snapshot_count() + 1
                    && final(self).snapshot_env(id - 1) == old(self).env_view()
                    && final(self).saved(id - 1).automine == old(self).automine_view()
                    && final(self).saved(id - 1).block_gas_limit == old(self).block_gas_limit_view()
                    && final(self).saved(id - 1).pending_gas_used == old(self).pending_gas_used_view()
                    && final(self).saved(id - 1).pending_txs@ == old(self).pending_view()
                    && final(self).env_view() == old(self).env_view()
                    && final(self).blocks_view() == old(self).blocks_view()
                    && final(self).txs_view() == old(self).txs_view()
                    && final(self).pending_view() == old(self).pending_view()
                    && final(self).automine_view() == old(self).automine_view()
                    && final(self).is_connected() && !final(self).in_query())
            },
    {
        if !self.connected {
            return Err(ChainError::NotConnected);
        }
        if self.query_active {
            return Err(ChainError::QueryInProgress);
        }
        if self.snapshots.len() >= usize::MAX - 4 {
            return Err(ChainError::TooManySnapshots);
        }
        proof {
            self.store.lemma_layer_count();
        }
        let id = self.store.snapshot();
        let pending = copy_indexes(&self.pending_txs);
        self.snapshots.push(
            ChainSnapshot {
                env: self.env,
                pending_txs: pending,
                pending_gas_used: self.pending_gas_used,
                block_gas_limit: self.block_gas_limit,
                automine: self.automine,
            },
        );
        proof {
            assert(self.store.snaps().drop_last() == old(self).store.snaps());
            assert forall|i: int| 0 <= i < self.store.snaps().len() implies #[trigger] self.store.snaps()[i]
                <= self.live_journal_len() by {
                if i < old(self).store.snaps().len() {
                    assert(self.store.snaps()[i] == self.store.snaps().drop_last()[i]);
                }
            }
            assert forall|i: int, j: int|
                0 <= i < j < self.store.snaps().len() implies #[trigger] self.store.snaps()[i]
                <= #[trigger] self.store.snaps()[j] by {
                assert(self.store.snaps()[i] == self.store.snaps().drop_last()[i]);
                if j < old(self).store.snaps().len() {
                    assert(self.store.snaps()[j] == self.store.snaps().drop_last()[j]);
                }
            }
        }
        Ok(id)
    }

    /// Reverts to snapshot `id`: the store, the orchestrator's state, and the
    /// ledger (blocks mined and transactions executed since are dropped).
    pub fn revert(&mut self, id: usize) -> (r: Result<(), ChainError>)
        requires
            old(self).wf(),
            old(self).is_connected() && !old(self).in_query() ==> 1 <= id <= old(self).snapshot_count(),
        ensures
            final(self).wf(),
            !old(self).is_connected() ==> (r matches Err(ChainError::NotConnected) && *final(self) == *old(self)),
            old(self).is_connected() && old(self).in_query() ==> (r matches Err(ChainError::QueryInProgress) && *final(self) == *old(self)),
            old(self).is_connected() && !old(self).in_query() ==> {
                &&& r is Ok
                &&& reverted(old(self).store_view(), final(self).store_view(), id as int)
                &&& final(self).env_view() == old(self).snapshot_env(id - 1)
                &&& final(self).snapshot_count() == id - 1
                &&& final(self).blocks_view().mined() == old(self).blocks_view().mined().take(
                    final(self).blocks_view().mined().len() as int,
                )
                &&& final(self).env_view().number == final(self).blocks_view().start()
                    + final(self).blocks_view().mined().len()
                &&& final(self).store_view().last_block_number_view() == old(self).snapshot_env(id - 1).number - 1
                &&& final(self).is_connected() && !final(self).in_query()
                &&& final(self).automine_view() == old(self).saved(id - 1).automine
                &&& final(self).block_gas_limit_view() == old(self).saved(id - 1).block_gas_limit
                &&& final(self).pending_gas_used_view() == old(self).saved(id - 1).pending_gas_used
                &&& final(self).txs_view().records() == old(self).txs_view().records().take(
                    final(self).txs_view().len_view() as int,
                )
                &&& forall|i: int| 0 <= i < final(self).txs_view().len_view()
                    ==> #[trigger] old(self).txs_view().journal_indexes()[i] < old(self).store_view().snaps()[id - 1]
                &&& forall|i: int| final(self).txs_view().len_view() <= i < old(self).txs_view().len_view()
                    ==> #[trigger] old(self).txs_view().journal_indexes()[i] >= old(self).store_view().snaps()[id - 1]
                &&& forall|i: int| 0 <= i < final(self).pending_view().len()
                    ==> old(self).saved(id - 1).pending_txs@.contains(#[trigger] final(self).pending_view()[i])
                &&& forall|i: int| 0 <= i < old(self).saved(id - 1).pending_txs@.len()
                    && #[trigger] old(self).saved(id - 1).pending_txs@[i] < final(self).txs_view().len_view()
                    ==> final(self).pending_view().contains(old(self).saved(id - 1).pending_txs@[i])
            },
    {
        if !self.connected {
            return Err(ChainError::NotConnected);
        }
        if self.query_active {
            return Err(ChainError::QueryInProgress);
        }
        let ghost c0 = *self;
        self.snapshots.truncate(id);
        let s = self.snapshots.pop().unwrap();
        assert(s == c0.snapshots@[id - 1]);
        let last = s.env.number - 1;
        let ji = self.store.revert_snapshot(id);
        self.store.set_last_block_number(last);
        self.env = s.env;
        self.pending_gas_used = s.pending_gas_used;
        self.block_gas_limit = s.block_gas_limit;
        self.automine = s.automine;
        self.blocks.remove_blocks(last);
        self.txs.remove_txs(ji);
        let n = self.txs.len();
        self.pending_txs = keep_below(&s.pending_txs, n);
        proof {
            self.txs.lemma_lens();
            c0.txs.lemma_lens();
            let p = self.pending_txs@;
            assert forall|i: int| 0 <= i < p.len() implies #[trigger] p[i] < self.txs.len_view() by {
                assert(p[i] < n);
            }
            assert forall|i: int| 0 <= i < self.store.snaps().len() implies #[trigger] self.store.snaps()[i]
                <= self.live_journal_len() by {
                assert(self.store.snaps()[i] == c0.store.snaps()[i]);
                assert(c0.store.snaps()[i] <= c0.store.snaps()[id - 1]);
            }
            assert forall|i: int, j: int|
                0 <= i < j < self.store.snaps().len() implies #[trigger] self.store.snaps()[i]
                <= #[trigger] self.store.snaps()[j] by {
                assert(self.store.snaps()[i] == c0.store.snaps()[i]);
                assert(self.store.snaps()[j] == c0.store.snaps()[j]);
            }
            assert forall|i: int| 0 <= i < self.snapshots@.len() implies {
                &&& self.blocks.start() < (#[trigger] self.snapshots@[i]).env.number
                &&& self.snapshots@[i].env.number <= self.live_env().number
                &&& self.snapshots@[i].env.gas_limit + self.snapshots@[i].pending_gas_used
                    == self.snapshots@[i].block_gas_limit
            } by {
                assert(self.snapshots@[i] == c0.snapshots@[i]);
                assert(c0.snapshots@[i].env.number <= c0.snapshots@[id - 1].env.number);
            }
            assert forall|i: int, j: int|
                0 <= i < j < self.snapshots@.len() implies (#[trigger] self.snapshots@[i]).env.number
                <= (#[trigger] self.snapshots@[j]).env.number by {
                assert(self.snapshots@[i] == c0.snapshots@[i]);
                assert(self.snapshots@[j] == c0.snapshots@[j]);
            }
            assert(c0.snapshots@[id - 1].env.number <= c0.env.number);
            assert(self.blocks.mined().len() == s.env.number - self.blocks.start());
            assert(self.blocks.mined().len() >= 1);
            assert(self.live_env().number == self.blocks.start() + self.blocks.mined().len());
            assert(self.live_journal_len() == ji);
            assert forall|i: int| 0 <= i < self.blocks.mined().len() implies (#[trigger] self.blocks.mined()[i]).journal_index is Some
                && self.blocks.mined()[i].journal_index->Some_0 <= self.live_journal_len() by {
                assert(self.blocks.mined()[i] == c0.blocks.mined()[i]);
                c0.blocks.lemma_numbers();
                assert(c0.blocks.mined()[i].env.number < c0.snapshots@[id - 1].env.number);
            }
            assert forall|i: int, t: int|
                0 <= i < self.blocks.mined().len() && 0 <= t < self.snapshots@.len()
                    && (#[trigger] self.blocks.mined()[i]).env.number < (#[trigger] self.snapshots@[t]).env.number
                    implies self.blocks.mined()[i].journal_index->Some_0 <= self.store.snaps()[t] by {
                assert(self.blocks.mined()[i] == c0.blocks.mined()[i]);
                assert(self.snapshots@[t] == c0.snapshots@[t]);
                assert(self.store.snaps()[t] == c0.store.snaps()[t]);
            }
            if self.txs.len_view() > 0 {
                let k = self.txs.len_view() - 1;
                assert(self.txs.journal_indexes()[k as int] == c0.txs.journal_indexes().take(
                    self.txs.len_view() as int,
                )[k as int]);
                assert(c0.txs.journal_indexes()[k as int] < ji);
                assert(self.txs.journal_indexes().len() == self.txs.len_view());
                assert(self.txs.journal_indexes().last() == self.txs.journal_indexes()[k as int]);
                assert(c0.txs.journal_indexes().take(self.txs.len_view() as int)[k as int] == c0.txs.journal_indexes()[k as int]);
                assert(self.txs.journal_indexes().last() < ji);
            }
        }
        Ok(())
    }

    /// Sets the block gas limit; the pending block keeps the gas it used.
    pub fn set_block_gas_limit(&mut self, gas_limit: u64) -> (r: Result<(), ChainError>)
        requires
            old(self).wf(),
        ensures
            final(self).wf(),
            !old(self).is_connected() ==> (r matches Err(ChainError::NotConnected) && *final(self) == *old(self)),
            old(self).is_connected() && old(self).in_query() ==> (r matches Err(ChainError::QueryInProgress) && *final(self) == *old(self)),
            old(self).is_connected() && !old(self).in_query() && gas_limit < old(self).pending_gas_used_view()
                ==> (r matches Err(ChainError::InvalidGasLimitChange) && *final(self) == *old(self)),
            old(self).is_connected() && !old(self).in_query() && gas_limit >= old(self).pending_gas_used_view()
                ==> {
                &&& r is Ok
                &&& final(self).block_gas_limit_view() == gas_limit
                &&& final(self).env_view() == (BlockEnv {
                    gas_limit: (gas_limit - old(self).pending_gas_used_view()) as u64,
                    ..old(self).env_view()
                })
                &&& final(self).pending_gas_used_view() == old(self).pending_gas_used_view()
            },
    {
        if !self.connected {
            return Err(ChainError::NotConnected);
        }
        if self.query_active {
            return Err(ChainError::QueryInProgress);
        }
        if gas_limit < self.pending_gas_used {
            return Err(ChainError::InvalidGasLimitChange);
        }
        self.block_gas_limit = gas_limit;
        self.env.gas_limit = gas_limit - self.pending_gas_used;
        Ok(())
    }

    /// Begins a historical query against `sel`: for the pending block nothing
    /// moves; for a mined block the store is rewound to the journal index at
    /// which it was mined and its environment replaces the pending one. Every
    /// query must be ended with `end_query`.
    pub fn begin_query(&mut self, sel: BlockSelector) -> (r: Result<HistoricalQuery, ChainError>)
        requires
            old(self).wf(),
        ensures
            final(self).wf(),
            !old(self).is_connected() ==> (r matches Err(ChainError::NotConnected) && *final(self) == *old(self)),
            old(self).is_connected() && old(self).in_query() ==> (r matches Err(ChainError::QueryInProgress) && *final(self) == *old(self)),
            old(self).is_connected() && !old(self).in_query() ==> match r {
                Ok(q) => query_begun(*old(self), *final(self), sel, q),
                Err(_) => *final(self) == *old(self),
            },
            old(self).is_connected() && !old(self).in_query() && sel == BlockSelector::Pending ==> r is Ok,
            old(self).is_connected() && !old(self).in_query() && sel != BlockSelector::Pending ==> {
                let b = block_lookup(
                    old(self).blocks_view(),
                    sel,
                    (old(self).env_view().number - 1) as u64,
                    old(self).env_view(),
                );
                match b {
                    Err(e) => r matches Err(ChainError::Block(e2)) && e2 == e,
                    Ok(blk) => match blk.journal_index {
                        None => r matches Err(ChainError::UnsupportedHistoricalQuery),
                        Some(_) => r is Ok,
                    },
                }
            },
    {
        if !self.connected {
            return Err(ChainError::NotConnected);
        }
        if self.query_active {
            return Err(ChainError::QueryInProgress);
        }
        let n = self.store.journal_index();
        match sel {
            BlockSelector::Pending => {
                self.query_len = Ghost(n as nat);
                self.query_env = Ghost(self.env);
                self.query_active = true;
                return Ok(HistoricalQuery { rollback: None, saved_env: self.env });
            },
            _ => {},
        }
        let last = self.blocks.next_number() - 1;
        let block = match self.blocks.get_block(sel, last, self.env) {
            Ok(b) => b,
            Err(e) => return Err(ChainError::Block(e)),
        };
        let j = match block.journal_index {
            Some(j) => j,
            None => return Err(ChainError::UnsupportedHistoricalQuery),
        };
        proof {
            assert(block_lookup(self.blocks, sel, last, self.env) == Ok::<Block, BlockError>(block));
            lemma_lookup_mined(self.blocks, sel, last, self.env);
        }
        let saved = self.env;
        let rb = self.store.rollback(j);
        self.query_len = Ghost(n as nat);
        self.query_env = Ghost(saved);
        self.query_active = true;
        self.env = block.env;
        Ok(HistoricalQuery { rollback: Some(rb), saved_env: saved })
    }

    /// The account at `address` as execution reads it (see `CacheDB::basic`).
    pub fn basic(&mut self, address: &Address) -> (r: Result<Option<AccountInfo>, ChainError>)
        requires
            old(self).wf(),
        ensures
            final(self).wf(),
            reads_only(*old(self), *final(self)),
            !old(self).is_connected() ==> (r matches Err(ChainError::NotConnected) && *final(self) == *old(self)),
            old(self).is_connected() ==> (find_account(old(self).store_view().data().layers, *address) matches Some(acc)
                ==> (r matches Ok(i) && i == acc.info_view())),
            old(self).is_connected() ==> match r {
                Ok(info) => {
                    &&& find_account(final(self).store_view().data().layers, *address) is Some
                    &&& info == find_account(final(self).store_view().data().layers, *address)->Some_0.info_view()
                },
                Err(e) => e matches ChainError::BackingSource(_),
            },
    {
        proof {
            crate::store::lemma_writes_preserve_refl(self.store);
        }
        if !self.connected {
            return Err(ChainError::NotConnected);
        }
        match self.store.basic(address) {
            Ok(info) => Ok(info),
            Err(e) => Err(ChainError::BackingSource(e)),
        }
    }

    /// The value of a storage slot as execution reads it (see `CacheDB::storage`).
    pub fn storage(&mut self, address: &Address, index: &Word) -> (r: Result<Word, ChainError>)
        requires
            old(self).wf(),
        ensures
            final(self).wf(),
            reads_only(*old(self), *final(self)),
            !old(self).is_connected() ==> (r matches Err(ChainError::NotConnected) && *final(self) == *old(self)),
            old(self).is_connected() ==> (read_slot(old(self).store_view().data().layers, *address, *index) matches Some(v)
                ==> (r matches Ok(w) && w == v)),
            old(self).is_connected() ==> match r {
                Ok(v) => slot_read(old(self).store_view(), final(self).store_view(), *address, *index, v),
                Err(e) => e matches ChainError::BackingSource(_),
            },
    {
        proof {
            crate::store::lemma_writes_preserve_refl(self.store);
        }
        if !self.connected {
            return Err(ChainError::NotConnected);
        }
        match self.store.storage(address, index) {
            Ok(v) => Ok(v),
            Err(e) => Err(ChainError::BackingSource(e)),
        }
    }

    /// The bytecode stored under `code_hash` (see `CacheDB::code_by_hash`).
    pub fn code_by_hash(&mut self, code_hash: &Word) -> (r: Result<Vec<u8>, ChainError>)
        requires
            old(self).wf(),
        ensures
            final(self).wf(),
            reads_only(*old(self), *final(self)),
            !old(self).is_connected() ==> (r matches Err(ChainError::NotConnected) && *final(self) == *old(self)),
            old(self).is_connected() && old(self).store_view().data().contracts.contains_key(*code_hash) ==> r is Ok,
            old(self).is_connected() ==> match r {
                Ok(code) => {
                    &&& final(self).store_view().data().contracts.contains_key(*code_hash)
                    &&& final(self).store_view().data().contracts[*code_hash]@ == code@
                },
                Err(e) => e matches ChainError::BackingSource(_),
            },
    {
        proof {
            crate::store::lemma_writes_preserve_refl(self.store);
        }
        if !self.connected {
            return Err(ChainError::NotConnected);
        }
        match self.store.code_by_hash(code_hash) {
            Ok(c) => Ok(c),
            Err(e) => Err(ChainError::BackingSource(e)),
        }
    }

    /// The hash of block `n` (see `CacheDB::block_hash`).
    pub fn block_hash(&mut self, n: u64) -> (r: Result<Word, ChainError>)
        requires
            old(self).wf(),
        ensures
            final(self).wf(),
            reads_only(*old(self), *final(self)),
            final(self).store_view().data() == old(self).store_view().data(),
            !old(self).is_connected() ==> (r matches Err(ChainError::NotConnected) && *final(self) == *old(self)),
            old(self).is_connected() && !crate::store::in_hash_window(n, old(self).store_view().last_block_number_view())
                ==> (r matches Ok(h) && h == crate::types::word_zero()),
            old(self).is_connected() && crate::store::in_hash_window(n, old(self).store_view().last_block_number_view())
                && old(self).store_view().block_hashes_view().contains_key(n)
                ==> (r matches Ok(h) && h == old(self).store_view().block_hashes_view()[n]),
            old(self).is_connected() ==> match r {
                Ok(h) => block_hash_read(old(self).store_view(), final(self).store_view(), n, Ok(h)),
                Err(e) => e matches ChainError::BackingSource(_),
            },
    {
        proof {
            crate::store::lemma_writes_preserve_refl(self.store);
        }
        if !self.connected {
            return Err(ChainError::NotConnected);
        }
        match self.store.block_hash(n) {
            Ok(h) => Ok(h),
            Err(e) => Err(ChainError::BackingSource(e)),
        }
    }
}

/// `c1` is `c0` after reads of its store: only the cache may have grown.
pub open spec fn reads_only<S>(c0: Chain<S>, c1: Chain<S>) -> bool {
    &&& writes_preserve(c0.store_view(), c1.store_view())
    &&& c1.store_view().journal_view() == c0.store_view().journal_view()
    &&& c1.store_view().snaps() == c0.store_view().snaps()
    &&& c1.env_view() == c0.env_view()
    &&& c1.live_env() == c0.live_env()
    &&& c1.live_journal_len() == c0.live_journal_len()
    &&& c1.blocks_view() == c0.blocks_view()
    &&& c1.txs_view() == c0.txs_view()
    &&& c1.pending_view() == c0.pending_view()
    &&& c1.automine_view() == c0.automine_view()
    &&& c1.is_connected() == c0.is_connected()
    &&& c1.in_query() == c0.in_query()
}

/// `c1` is `c0` after a direct write to its store: nothing else changed.
pub open spec fn store_written<S>(c0: Chain<S>, c1: Chain<S>) -> bool {
    &&& writes_preserve(c0.store_view(), c1.store_view())
    &&& c1.env_view() == c0.env_view()
    &&& c1.blocks_view() == c0.blocks_view()
    &&& c1.txs_view() == c0.txs_view()
    &&& c1.pending_view() == c0.pending_view()
    &&& c1.automine_view() == c0.automine_view()
    &&& c1.is_connected() == c0.is_connected()
    &&& c1.in_query() == c0.in_query()
    &&& c1.snapshot_count() == c0.snapshot_count()
}

impl<S: BackingSource> Chain<S> {
    fn check_writable(&self) -> (r: Result<(), ChainError>)
        ensures
            !self.is_connected() ==> r matches Err(ChainError::NotConnected),
            self.is_connected() && self.in_query() ==> r matches Err(ChainError::QueryInProgress),
            self.is_connected() && !self.in_query() ==> r is Ok,
    {
        if !self.connected {
            return Err(ChainError::NotConnected);
        }
        if self.query_active {
            return Err(ChainError::QueryInProgress);
        }
        Ok(())
    }

    /// Sets the balance of `address` (see `CacheDB::set_balance`).
    pub fn set_balance(&mut self, address: Address, balance: Word) -> (r: Result<(), ChainError>)
        requires
            old(self).wf(),
        ensures
            final(self).wf(),
            store_written(*old(self), *final(self)),
            !old(self).is_connected() ==> (r matches Err(ChainError::NotConnected) && *final(self) == *old(self)),
            old(self).is_connected() && old(self).in_query() ==> (r matches Err(ChainError::QueryInProgress) && *final(self) == *old(self)),
            old(self).is_connected() && !old(self).in_query() && r is Ok ==> account_updated(
                old(self).store_view(),
                final(self).store_view(),
                address,
                AccountUpdate::Balance(balance),
            ),
    {
        proof {
            crate::store::lemma_writes_preserve_refl(self.store);
        }
        match self.check_writable() {
            Ok(()) => {},
            Err(e) => return Err(e),
        }
        match self.store.set_balance(address, balance) {
            Ok(()) => Ok(()),
            Err(e) => Err(ChainError::BackingSource(e)),
        }
    }

    /// Sets the nonce of `address` (see `CacheDB::set_nonce`).
    pub fn set_nonce(&mut self, address: Address, nonce: u64) -> (r: Result<(), ChainError>)
        requires
            old(self).wf(),
        ensures
            final(self).wf(),
            store_written(*old(self), *final(self)),
            !old(self).is_connected() ==> (r matches Err(ChainError::NotConnected) && *final(self) == *old(self)),
            old(self).is_connected() && old(self).in_query() ==> (r matches Err(ChainError::QueryInProgress) && *final(self) == *old(self)),
            old(self).is_connected() && !old(self).in_query() && r is Ok ==> account_updated(
                old(self).store_view(),
                final(self).store_view(),
                address,
                AccountUpdate::Nonce(nonce),
            ),
    {
        proof {
            crate::store::lemma_writes_preserve_refl(self.store);
        }
        match self.check_writable() {
            Ok(()) => {},
            Err(e) => return Err(e),
        }
        match self.store.set_nonce(address, nonce) {
            Ok(()) => Ok(()),
            Err(e) => Err(ChainError::BackingSource(e)),
        }
    }

    /// Sets the code of `address` (see `CacheDB::set_code`).
    pub fn set_code(&mut self, address: Address, code: Vec<u8>) -> (r: Result<(), ChainError>)
        requires
            old(self).wf(),
        ensures
            final(self).wf(),
            store_written(*old(self), *final(self)),
            !old(self).is_connected() ==> (r matches Err(ChainError::NotConnected) && *final(self) == *old(self)),
            old(self).is_connected() && old(self).in_query() ==> (r matches Err(ChainError::QueryInProgress) && *final(self) == *old(self)),
            old(self).is_connected() && !old(self).in_query() && r is Ok ==> account_updated(
                old(self).store_view(),
                final(self).store_view(),
                address,
                AccountUpdate::CodeHash(keccak_of(code@)),
            ),
    {
        proof {
            crate::store::lemma_writes_preserve_refl(self.store);
        }
        match self.check_writable() {
            Ok(()) => {},
            Err(e) => return Err(e),
        }
        match self.store.set_code(address, code) {
            Ok(()) => Ok(()),
            Err(e) => Err(ChainError::BackingSource(e)),
        }
    }

    /// Sets one storage slot of `address` (see `CacheDB::set_storage`).
    pub fn set_storage(&mut self, address: Address, index: Word, value: Word) -> (r: Result<(), ChainError>)
        requires
            old(self).wf(),
        ensures
            final(self).wf(),
            store_written(*old(self), *final(self)),
            !old(self).is_connected() ==> (r matches Err(ChainError::NotConnected) && *final(self) == *old(self)),
            old(self).is_connected() && old(self).in_query() ==> (r matches Err(ChainError::QueryInProgress) && *final(self) == *old(self)),
            old(self).is_connected() && !old(self).in_query() ==> {
                &&& r is Ok
                &&& final(self).store_view().data().layers.last().storage == old(self).store_view().data().layers.last().storage.insert(
                    (address, index),
                    value,
                )
            },
    {
        proof {
            crate::store::lemma_writes_preserve_refl(self.store);
        }
        match self.check_writable() {
            Ok(()) => {},
            Err(e) => return Err(e),
        }
        self.store.set_storage(address, index, value);
        Ok(())
    }

    /// The block that `sel` addresses (see `Blocks::get_block`).
    pub fn get_block(&self, sel: BlockSelector) -> (r: Result<Block, ChainError>)
        requires
            self.wf(),
        ensures
            !self.is_connected() ==> r matches Err(ChainError::NotConnected),
            self.is_connected() && !self.in_query() ==> match block_lookup(
                self.blocks_view(),
                sel,
                (self.env_view().number - 1) as u64,
                self.env_view(),
            ) {
                Ok(b) => r matches Ok(b2) && b2 == b,
                Err(e) => r matches Err(ChainError::Block(e2)) && e2 == e,
            },
            self.is_connected() && self.in_query() ==> r matches Err(ChainError::QueryInProgress),
    {
        match self.check_writable() {
            Ok(()) => {},
            Err(e) => return Err(e),
        }
        let last = self.blocks.next_number() - 1;
        match self.blocks.get_block(sel, last, self.env) {
            Ok(b) => Ok(b),
            Err(e) => Err(ChainError::Block(e)),
        }
    }

    /// Memoizes a block of the forked chain fetched by the caller.
    pub fn insert_forked_block(&mut self, number: u64, block: Block)
        requires
            old(self).wf(),
            block.journal_index is None,
        ensures
            final(self).wf(),
            final(self).blocks_view().forked() == old(self).blocks_view().forked().insert(number, block),
            final(self).blocks_view().mined() == old(self).blocks_view().mined(),
    {
        self.blocks.insert_forked_block(number, block);
    }

    /// The transaction at `index`, counted from the end when negative.
    pub fn get_transaction(&self, index: i64) -> (r: Option<&TxRecord>)
        requires
            self.wf(),
        ensures
            r is None <==> !(0 <= (if index < 0 { self.txs_view().len_view() + index } else { index as int }) < self.txs_view().len_view()),
    {
        self.txs.get(index)
    }

    /// The block holding transaction `i`.
    pub fn transaction_block(&self, i: usize) -> (r: Option<TxBlock>)
        requires
            self.wf(),
        ensures
            i < self.txs_view().len_view() ==> r == Some(self.txs_view().tx_blocks()[i as int]),
            i >= self.txs_view().len_view() ==> r is None,
    {
        proof {
            self.txs.lemma_lens();
        }
        self.txs.block_of(i)
    }

    /// How many transactions were recorded.
    pub fn transaction_count(&self) -> (r: usize)
        requires
            self.wf(),
        ensures
            r == self.txs_view().len_view(),
    {
        self.txs.len()
    }
}

impl<S: BackingSource> Chain<S> {
    /// The value of a storage slot at the end of block `sel` (or in the pending
    /// block): the store is rewound for the read and put back after it.
    pub fn get_storage_at(&mut self, address: &Address, index: &Word, sel: BlockSelector) -> (r:
        Result<Word, ChainError>)
        requires
            old(self).wf(),
        ensures
            final(self).wf(),
            !old(self).in_query() ==> {
                &&& !final(self).in_query()
                &&& final(self).env_view() == old(self).env_view()
                &&& final(self).blocks_view() == old(self).blocks_view()
                &&& final(self).txs_view() == old(self).txs_view()
                &&& final(self).pending_view() == old(self).pending_view()
                &&& final(self).store_view().journal_view().len() == old(self).store_view().journal_view().len()
            },
            old(self).in_query() ==> (r matches Err(ChainError::QueryInProgress) || r matches Err(ChainError::NotConnected)) && *final(self) == *old(self),
            !old(self).is_connected() ==> r matches Err(ChainError::NotConnected),
            old(self).is_connected() && !old(self).in_query() ==> match r {
                Ok(v) => {
                    let s0 = old(self).store_view();
                    if sel == BlockSelector::Pending {
                        read_slot(s0.data().layers, *address, *index) is Some ==> read_slot(
                            s0.data().layers,
                            *address,
                            *index,
                        ) == Some(v)
                    } else {
                        let b = block_lookup(
                            old(self).blocks_view(),
                            sel,
                            (old(self).env_view().number - 1) as u64,
                            old(self).env_view(),
                        );
                        &&& b matches Ok(blk)
                        &&& blk.journal_index matches Some(j)
                        &&& {
                            let past = undo(s0.data(), s0.journal_view(), s0.snaps(), j as int).layers;
                            read_slot(past, *address, *index) is Some ==> read_slot(past, *address, *index) == Some(v)
                        }
                    }
                },
                Err(_) => true,
            },
            old(self).is_connected() && !old(self).in_query() ==> {
                let s0 = old(self).store_view();
                if sel == BlockSelector::Pending {
                    read_slot(s0.data().layers, *address, *index) matches Some(v) ==> {
                        &&& r matches Ok(w) && w == v
                        &&& final(self).store_view().data() == s0.data()
                    }
                } else {
                    let b = block_lookup(
                        old(self).blocks_view(),
                        sel,
                        (old(self).env_view().number - 1) as u64,
                        old(self).env_view(),
                    );
                    match b {
                        Err(e) => r matches Err(ChainError::Block(e2)) && e2 == e,
                        Ok(blk) => match blk.journal_index {
                            None => r matches Err(ChainError::UnsupportedHistoricalQuery),
                            Some(j) => {
                                let past = undo(s0.data(), s0.journal_view(), s0.snaps(), j as int).layers;
                                read_slot(past, *address, *index) matches Some(v) ==> {
                                    &&& r matches Ok(w) && w == v
                                    &&& final(self).store_view().data() == s0.data()
                                    &&& final(self).store_view().journal_view() == s0.journal_view()
                                }
                            },
                        },
                    }
                }
            },
    {
        let ghost c0 = *self;
        let q = match self.begin_query(sel) {
            Ok(q) => q,
            Err(e) => return Err(e),
        };
        let ghost c1 = *self;
        let v = self.storage(address, index);
        let ghost c2 = *self;
        proof {
            crate::journal::lemma_replay_len(
                c2.store.data(),
                c2.store.journal_view(),
                c2.store.snaps(),
                match q.entries() {
                    Some(rb) => rb@.map_values(|e: crate::journal::JournalEntry| e.view()),
                    None => Seq::empty(),
                },
            );
        }
        match self.end_query(q) {
            Ok(()) => {},
            Err(e) => return Err(e),
        }
        proof {
            if q.entries() is Some {
                assert(c1.store.journal_view().len() + q.entries()->Some_0@.len() == c0.store.journal_view().len());
            }
        }
        v
    }

    /// The code of `address` at the end of block `sel` (or in the pending
    /// block): the store is rewound for the read and put back after it.
    pub fn get_code(&mut self, address: &Address, sel: BlockSelector) -> (r: Result<Vec<u8>, ChainError>)
        requires
            old(self).wf(),
        ensures
            final(self).wf(),
            !old(self).in_query() ==> {
                &&& !final(self).in_query()
                &&& final(self).env_view() == old(self).env_view()
                &&& final(self).blocks_view() == old(self).blocks_view()
                &&& final(self).txs_view() == old(self).txs_view()
                &&& final(self).store_view().journal_view().len() == old(self).store_view().journal_view().len()
            },
            !old(self).is_connected() ==> r matches Err(ChainError::NotConnected),
    {
        let ghost c0 = *self;
        let q = match self.begin_query(sel) {
            Ok(q) => q,
            Err(e) => return Err(e),
        };
        let ghost c1 = *self;
        let code = match self.basic(address) {
            Ok(Some(info)) => self.code_by_hash(&info.code_hash),
            Ok(None) => Ok(Vec::new()),
            Err(e) => Err(e),
        };
        let ghost c2 = *self;
        proof {
            crate::journal::lemma_replay_len(
                c2.store.data(),
                c2.store.journal_view(),
                c2.store.snaps(),
                match q.entries() {
                    Some(rb) => rb@.map_values(|e: crate::journal::JournalEntry| e.view()),
                    None => Seq::empty(),
                },
            );
        }
        match self.end_query(q) {
            Ok(()) => {},
            Err(e) => return Err(e),
        }
        code
    }

    /// Sets a storage slot of `address`, then mines when automining.
    pub fn set_storage_at(&mut self, address: Address, index: Word, value: Word) -> (r: Result<(), ChainError>)
        requires
            old(self).wf(),
        ensures
            final(self).wf(),
            !old(self).is_connected() ==> r matches Err(ChainError::NotConnected),
            old(self).is_connected() && !old(self).in_query() && !old(self).automine_view() ==> {
                &&& r is Ok
                &&& final(self).store_view().data().layers.last().storage == old(self).store_view().data().layers.last().storage.insert(
                    (address, index),
                    value,
                )
                &&& final(self).blocks_view() == old(self).blocks_view()
            },
    {
        match self.set_storage(address, index, value) {
            Ok(()) => {},
            Err(e) => return Err(e),
        }
        match self.mine(false) {
            Ok(_) => Ok(()),
            Err(e) => Err(e),
        }
    }

    /// Sets the timestamp of the pending block.
    pub fn set_next_block_timestamp(&mut self, timestamp: u64) -> (r: Result<(), ChainError>)
        requires
            old(self).wf(),
        ensures
            final(self).wf(),
            !old(self).is_connected() ==> (r matches Err(ChainError::NotConnected) && *final(self) == *old(self)),
            old(self).is_connected() && old(self).in_query() ==> (r matches Err(ChainError::QueryInProgress) && *final(self) == *old(self)),
            old(self).is_connected() && !old(self).in_query() ==> (r is Ok && final(self).env_view() == (BlockEnv { timestamp, ..old(self).env_view() })),
    {
        match self.check_writable() {
            Ok(()) => {},
            Err(e) => return Err(e),
        }
        self.env.timestamp = timestamp;
        Ok(())
    }

    /// Sets the beneficiary of the pending block.
    pub fn set_coinbase(&mut self, beneficiary: Address) -> (r: Result<(), ChainError>)
        requires
            old(self).wf(),
        ensures
            final(self).wf(),
            !old(self).is_connected() ==> (r matches Err(ChainError::NotConnected) && *final(self) == *old(self)),
            old(self).is_connected() && old(self).in_query() ==> (r matches Err(ChainError::QueryInProgress) && *final(self) == *old(self)),
            old(self).is_connected() && !old(self).in_query() ==> (r is Ok && final(self).env_view() == (BlockEnv { beneficiary, ..old(self).env_view() })),
    {
        match self.check_writable() {
            Ok(()) => {},
            Err(e) => return Err(e),
        }
        self.env.beneficiary = beneficiary;
        Ok(())
    }
}

impl<S> Chain<S> {
    /// The store's cache layer, bytecode table and block hashes, to keep on disk.
    pub fn export_cache(&self) -> (r: DiskCache)
        requires
            self.wf(),
        ensures
            crate::store::exported(self.store_view(), r),
    {
        self.store.export_cache()
    }
}

impl<S> Chain<S> {
    /// The gas limit a transaction runs with: the one requested, or else the
    /// pending block's remaining capacity.
    pub fn resolve_gas_limit(&self, requested: Option<u64>) -> (r: u64)
        ensures
            r == match requested {
                Some(g) => g,
                None => self.env_view().gas_limit,
            },
    {
        match requested {
            Some(g) => g,
            None => self.env.gas_limit,
        }
    }
}
} // verus!
