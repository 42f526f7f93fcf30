use vstd::prelude::*;

use crate::keymap::KeyMap;
use crate::types::{word_zero, Address, Word};

verus! {

/// What execution reads of a block.
#[derive(Clone, Copy, Debug, PartialEq, Eq, Structural)]
pub struct BlockEnv {
    pub number: u64,
    pub timestamp: u64,
    pub gas_limit: u64,
    pub beneficiary: Address,
    pub basefee: u64,
    pub prevrandao: Word,
}

/// A block: mined here, fetched from the forked chain, or the pending one.
#[derive(Clone, Copy, Debug, PartialEq, Eq, Structural)]
pub struct Block {
    pub env: BlockEnv,
    pub hash: Word,
    /// The journal index when the block was mined; `None` for a forked or pending block.
    pub journal_index: Option<usize>,
}

/// Which block a query addresses.
#[derive(Clone, Copy, Debug, PartialEq, Eq, Structural)]
pub enum BlockSelector {
    /// An absolute number, or one counted back from the pending block when negative.
    Int(i64),
    Latest,
    Safe,
    Finalized,
    Earliest,
    Pending,
}

#[derive(Clone, Copy, Debug, PartialEq, Eq, Structural)]
pub enum BlockError {
    /// The number is above the last block, or below zero.
    OutOfRange,
    /// The block is no longer kept (removed by a revert, or before the fork point).
    Pruned,
    /// A block at or before the fork point that must first be fetched from the
    /// forked chain and handed to `insert_forked_block`.
    Unfetched(u64),
}

/// The number that `sel` addresses when `last` is the last block's number;
/// `None` for the pending block.
pub open spec fn selected_number(sel: BlockSelector, last: u64) -> Option<int> {
    match sel {
        BlockSelector::Int(b) => if b < 0 {
            Some(last + 1 + b)
        } else {
            Some(b as int)
        },
        BlockSelector::Latest | BlockSelector::Safe | BlockSelector::Finalized => Some(last as int),
        BlockSelector::Earliest => Some(0),
        BlockSelector::Pending => None,
    }
}

/// The ordered history of blocks.
pub struct Blocks {
    pub(crate) blocks: Vec<Block>,
    /// The number of the first block in `blocks`.
    pub(crate) blocks_start_index: u64,
    pub(crate) forked_blocks: KeyMap<u64, Block>,
    /// The block the chain was forked at, if any.
    pub(crate) forked_block: Option<u64>,
}

impl Blocks {
    pub closed spec fn wf(&self) -> bool {
        &&& self.forked_blocks.wf()
        &&& forall|n: u64| #[trigger] self.forked_blocks@.contains_key(n) ==> self.forked_blocks@[n].journal_index is None
        &&& self.blocks_start_index == match self.forked_block {
            Some(f) => f + 1,
            None => 0,
        }
        &&& self.blocks_start_index + self.blocks@.len() <= u64::MAX
        &&& forall|i: int|
            0 <= i < self.blocks@.len() ==> (#[trigger] self.blocks@[i]).env.number
                == self.blocks_start_index + i
    }

    /// The blocks mined here, oldest first.
    pub closed spec fn mined(&self) -> Seq<Block> {
        self.blocks@
    }

    pub closed spec fn start(&self) -> u64 {
        self.blocks_start_index
    }

    pub closed spec fn fork_point(&self) -> Option<u64> {
        self.forked_block
    }

    pub closed spec fn forked(&self) -> Map<u64, Block> {
        self.forked_blocks@
    }

    /// Mined blocks are numbered contiguously from `start()`.
    pub proof fn lemma_numbers(&self)
        requires
            self.wf(),
        ensures
            forall|i: int| 0 <= i < self.mined().len() ==> (#[trigger] self.mined()[i]).env.number == self.start() + i,
    {
    }

    /// An empty history for a chain forked at `forked_block` (`None`: not forked).
    pub fn new(forked_block: Option<u64>) -> (r: Blocks)
        requires
            forked_block matches Some(f) ==> f < u64::MAX,
        ensures
            r.wf(),
            r.mined().len() == 0,
            r.fork_point() == forked_block,
            r.start() == match forked_block {
                Some(f) => f + 1,
                None => 0,
            },
            r.forked() == Map::<u64, Block>::empty(),
    {
        let start = match forked_block {
            Some(f) => f + 1,
            None => 0,
        };
        Blocks { blocks: Vec::new(), blocks_start_index: start, forked_blocks: KeyMap::new(), forked_block }
    }

    /// The number the next mined block must have.
    pub fn next_number(&self) -> (r: u64)
        requires
            self.wf(),
        ensures
            r == self.start() + self.mined().len(),
    {
        self.blocks_start_index + self.blocks.len() as u64
    }

    /// Appends a mined block; block numbers stay contiguous.
    pub fn add_block(&mut self, block_env: BlockEnv, journal_index: usize, block_hash: Word) -> (r:
        Block)
        requires
            old(self).wf(),
            block_env.number == old(self).start() + old(self).mined().len(),
            block_env.number < u64::MAX,
        ensures
            final(self).wf(),
            r == (Block { env: block_env, hash: block_hash, journal_index: Some(journal_index) }),
            final(self).mined() == old(self).mined().push(r),
            final(self).start() == old(self).start(),
            final(self).fork_point() == old(self).fork_point(),
            final(self).forked() == old(self).forked(),
    {
        let block = Block { env: block_env, hash: block_hash, journal_index: Some(journal_index) };
        self.blocks.push(block);
        block
    }

    /// Drops every mined block above `latest_block_number`.
    pub fn remove_blocks(&mut self, latest_block_number: u64)
        requires
            old(self).wf(),
            latest_block_number + 1 >= old(self).start(),
        ensures
            final(self).wf(),
            final(self).mined() == old(self).mined().take(
                vstd::math::min(
                    latest_block_number + 1 - old(self).start(),
                    old(self).mined().len() as int,
                ),
            ),
            final(self).start() == old(self).start(),
            final(self).fork_point() == old(self).fork_point(),
            final(self).forked() == old(self).forked(),
    {
        let new_len: usize = if latest_block_number < self.blocks_start_index {
            0
        } else if latest_block_number - self.blocks_start_index >= self.blocks.len() as u64 {
            self.blocks.len()
        } else {
            (latest_block_number - self.blocks_start_index) as usize + 1
        };
        self.blocks.truncate(new_len);
        proof {
            assert(final(self).mined() =~= old(self).mined().take(new_len as int));
        }
    }

    /// Memoizes a block of the forked chain (which has no journal index here).
    pub fn insert_forked_block(&mut self, number: u64, block: Block)
        requires
            old(self).wf(),
            block.journal_index is None,
        ensures
            final(self).wf(),
            final(self).forked() == old(self).forked().insert(number, block),
            final(self).mined() == old(self).mined(),
            final(self).start() == old(self).start(),
            final(self).fork_point() == old(self).fork_point(),
    {
        self.forked_blocks.insert(number, block);
    }

    /// The block that `sel` addresses; `pending` is the environment of the pending block.
    pub fn get_block(&self, sel: BlockSelector, last_block_number: u64, pending: BlockEnv) -> (r:
        Result<Block, BlockError>)
        requires
            self.wf(),
        ensures
            r == block_lookup(*self, sel, last_block_number, pending),
    {
        let number: u64 = match sel {
            BlockSelector::Int(b) => {
                if b < 0 {
                    let back = (-(b as i128)) as u128;
                    if back > last_block_number as u128 + 1 {
                        return Err(BlockError::OutOfRange);
                    }
                    (last_block_number as u128 + 1 - back) as u64
                } else if b as u64 > last_block_number {
                    return Err(BlockError::OutOfRange);
                } else {
                    b as u64
                }
            },
            BlockSelector::Latest | BlockSelector::Safe | BlockSelector::Finalized => last_block_number,
            BlockSelector::Pending => {
                return Ok(Block { env: pending, hash: Word::zero(), journal_index: None });
            },
            BlockSelector::Earliest => 0,
        };
        let mined_here = match self.forked_block {
            None => true,
            Some(f) => number > f,
        };
        if mined_here {
            if number < self.blocks_start_index {
                return Err(BlockError::Pruned);
            }
            let i = number - self.blocks_start_index;
            if i < self.blocks.len() as u64 {
                Ok(self.blocks[i as usize])
            } else {
                Err(BlockError::Pruned)
            }
        } else {
            match self.forked_blocks.get(&number) {
                Some(b) => Ok(*b),
                None => Err(BlockError::Unfetched(number)),
            }
        }
    }
}

/// What `get_block` returns.
pub open spec fn block_lookup(b: Blocks, sel: BlockSelector, last: u64, pending: BlockEnv) -> Result<
    Block,
    BlockError,
> {
    match selected_number(sel, last) {
        None => Ok(Block { env: pending, hash: word_zero(), journal_index: None }),
        Some(n) => if n < 0 || n > last {
            Err(BlockError::OutOfRange)
        } else if (match b.fork_point() {
            None => true,
            Some(f) => n > f,
        }) {
            if n < b.start() || n - b.start() >= b.mined().len() {
                Err(BlockError::Pruned)
            } else {
                Ok(b.mined()[n - b.start()])
            }
        } else if b.forked().contains_key(n as u64) {
            Ok(b.forked()[n as u64])
        } else {
            Err(BlockError::Unfetched(n as u64))
        },
    }
}

/// A block found by a lookup with a journal index is one of the mined blocks.
pub proof fn lemma_lookup_mined(b: Blocks, sel: BlockSelector, last: u64, pending: BlockEnv)
    requires
        b.wf(),
        block_lookup(b, sel, last, pending) matches Ok(blk) && blk.journal_index is Some,
    ensures
        exists|i: int| 0 <= i < b.mined().len() && #[trigger] b.mined()[i] == block_lookup(b, sel, last, pending)->Ok_0,
{
    let n = selected_number(sel, last)->Some_0;
    assert(match b.fork_point() { None => true, Some(f) => n > f });
    let i = n - b.start();
    assert(b.mined()[i] == block_lookup(b, sel, last, pending)->Ok_0);
}

/// How a transaction's execution ended.
#[derive(Clone, Copy, Debug, PartialEq, Eq, Structural)]
pub enum ExecStatus {
    Success,
    Revert,
    Halt,
}

/// What the virtual machine reported for one execution.
pub struct ExecOutcome {
    pub status: ExecStatus,
    /// Return data (success), revert data (revert), or empty (halt).
    pub output: Vec<u8>,
    pub gas_used: u64,
}

/// What a gas estimate reports for an execution outcome: the gas used, or,
/// when `revert` is set, the failure status of a reverted or halted execution.
pub fn estimate_result(outcome: &ExecOutcome, revert: bool) -> (r: Result<u64, ExecStatus>)
    ensures
        revert && outcome.status != ExecStatus::Success ==> r == Err::<u64, ExecStatus>(outcome.status),
        !(revert && outcome.status != ExecStatus::Success) ==> r == Ok::<u64, ExecStatus>(outcome.gas_used),
{
    match outcome.status {
        ExecStatus::Success => Ok(outcome.gas_used),
        _ => if revert {
            Err(outcome.status)
        } else {
            Ok(outcome.gas_used)
        },
    }
}

/// The entries of `s` whose address is not in `excluded`, in order.
pub open spec fn kept(s: Seq<(Address, Vec<Word>)>, excluded: Seq<Address>) -> Seq<(Address, Vec<Word>)>
    decreases s.len(),
{
    if s.len() == 0 {
        Seq::empty()
    } else if excluded.contains(s.last().0) {
        kept(s.drop_last(), excluded)
    } else {
        kept(s.drop_last(), excluded).push(s.last())
    }
}

/// Whether `a` is one of `v`.
pub fn contains_address(v: &Vec<Address>, a: &Address) -> (r: bool)
    ensures
        r == v@.contains(*a),
{
    let mut i: usize = 0;
    while i < v.len()
        invariant
            i <= v@.len(),
            forall|j: int| 0 <= j < i ==> v@[j] != *a,
        decreases v@.len() - i,
    {
        if v[i] == *a {
            assert(v@[i as int] == *a);
            return true;
        }
        i = i + 1;
    }
    false
}

/// The access list of an execution: each address it loaded, with the storage
/// slots it loaded there, except the addresses in `excluded` (the caller, the
/// target and the precompiles), in the order given.
pub fn access_list(loaded: Vec<(Address, Vec<Word>)>, excluded: &Vec<Address>) -> (r: Vec<(Address, Vec<Word>)>)
    ensures
        r@ == kept(loaded@, excluded@),
{
    let ghost all = loaded@;
    let mut rest = loaded;
    let mut r: Vec<(Address, Vec<Word>)> = Vec::new();
    while rest.len() > 0
        invariant
            rest@.len() <= all.len(),
            rest@ == all.skip(all.len() - rest@.len()),
            r@ == kept(all.take(all.len() - rest@.len()), excluded@),
        decreases rest@.len(),
    {
        let ghost done = all.len() - rest@.len();
        let e = rest.remove(0);
        proof {
            assert(all[done] == e);
            assert(all.take(done + 1).drop_last() =~= all.take(done));
            assert(all.take(done + 1).last() == e);
            assert(rest@ =~= all.skip(done + 1));
        }
        if !contains_address(excluded, &e.0) {
            r.push(e);
        }
    }
    proof {
        assert(all.take(all.len() as int) =~= all);
    }
    r
}

/// The inputs of one transaction.
pub struct TxInput {
    pub caller: Address,
    /// `None`: contract creation.
    pub to: Option<Address>,
    pub value: Word,
    pub data: Vec<u8>,
    pub gas_limit: u64,
}

/// Which block holds a transaction.
#[derive(Clone, Copy, Debug, PartialEq, Eq, Structural)]
pub enum TxBlock {
    Mined(u64),
    Pending,
}

/// A transaction as executed: its inputs, its outcome, and the journal index
/// just before it ran.
pub struct TxRecord {
    pub input: TxInput,
    pub outcome: ExecOutcome,
    pub journal_index: usize,
    /// The pending block's remaining gas capacity before it ran.
    pub gas_limit_before: u64,
}

/// The transactions executed, in order, and the block of each.
pub struct Txs {
    pub(crate) txs: Vec<TxRecord>,
    pub(crate) blocks: Vec<TxBlock>,
}

impl Txs {
    pub closed spec fn wf(&self) -> bool {
        &&& self.txs@.len() == self.blocks@.len()
        &&& forall|i: int, j: int|
            0 <= i <= j < self.txs@.len() ==> (#[trigger] self.txs@[i]).journal_index
                <= (#[trigger] self.txs@[j]).journal_index
    }

    pub closed spec fn journal_indexes(&self) -> Seq<usize> {
        self.txs@.map_values(|t: TxRecord| t.journal_index)
    }

    pub closed spec fn tx_blocks(&self) -> Seq<TxBlock> {
        self.blocks@
    }

    /// The transactions, in order.
    pub closed spec fn records(&self) -> Seq<TxRecord> {
        self.txs@
    }

    pub closed spec fn len_view(&self) -> nat {
        self.txs@.len()
    }

    pub proof fn lemma_lens(&self)
        requires
            self.wf(),
        ensures
            self.tx_blocks().len() == self.len_view(),
            self.journal_indexes().len() == self.len_view(),
    {
    }

    pub fn new() -> (r: Txs)
        ensures
            r.wf(),
            r.len_view() == 0,
    {
        Txs { txs: Vec::new(), blocks: Vec::new() }
    }

    pub fn len(&self) -> (r: usize)
        requires
            self.wf(),
        ensures
            r == self.len_view(),
    {
        self.txs.len()
    }

    /// Appends a transaction; its journal index must not precede the last one's.
    pub fn add_tx(&mut self, tx: TxRecord, block: TxBlock)
        requires
            old(self).wf(),
            old(self).len_view() > 0 ==> old(self).journal_indexes().last() <= tx.journal_index,
        ensures
            final(self).wf(),
            final(self).len_view() == old(self).len_view() + 1,
            final(self).journal_indexes() == old(self).journal_indexes().push(tx.journal_index),
            final(self).records() == old(self).records().push(tx),
            final(self).tx_blocks() == old(self).tx_blocks().push(block),
    {
        let ghost ji = tx.journal_index;
        proof {
            if self.txs@.len() > 0 {
                assert(self.journal_indexes().last() == self.txs@.last().journal_index);
            }
        }
        self.txs.push(tx);
        self.blocks.push(block);
        proof {
            assert(final(self).journal_indexes() =~= old(self).journal_indexes().push(ji));
        }
    }

    /// The block holding transaction `i`.
    pub fn block_of(&self, i: usize) -> (r: Option<TxBlock>)
        requires
            self.wf(),
        ensures
            i < self.len_view() ==> r == Some(self.tx_blocks()[i as int]),
            i >= self.len_view() ==> r is None,
    {
        if i < self.blocks.len() {
            Some(self.blocks[i])
        } else {
            None
        }
    }

    /// Moves transaction `i` into block `number`.
    pub fn set_block(&mut self, i: usize, number: u64)
        requires
            old(self).wf(),
            i < old(self).len_view(),
        ensures
            final(self).wf(),
            final(self).tx_blocks() == old(self).tx_blocks().update(i as int, TxBlock::Mined(number)),
            final(self).journal_indexes() == old(self).journal_indexes(),
            final(self).len_view() == old(self).len_view(),
            final(self).records() == old(self).records(),
    {
        self.blocks.set(i, TxBlock::Mined(number));
    }

    /// Moves every transaction listed in `idxs` into block `number`.
    pub fn assign_block(&mut self, idxs: &Vec<usize>, number: u64)
        requires
            old(self).wf(),
            forall|i: int| 0 <= i < idxs@.len() ==> #[trigger] idxs@[i] < old(self).len_view(),
        ensures
            final(self).wf(),
            final(self).len_view() == old(self).len_view(),
            final(self).journal_indexes() == old(self).journal_indexes(),
            final(self).records() == old(self).records(),
            forall|i: int|
                0 <= i < old(self).len_view() ==> #[trigger] final(self).tx_blocks()[i] == if listed(idxs@, i) {
                    TxBlock::Mined(number)
                } else {
                    old(self).tx_blocks()[i]
                },
    {
        let mut k: usize = 0;
        while k < idxs.len()
            invariant
                self.wf(),
                k <= idxs@.len(),
                self.len_view() == old(self).len_view(),
                self.journal_indexes() == old(self).journal_indexes(),
                self.records() == old(self).records(),
                forall|i: int| 0 <= i < idxs@.len() ==> #[trigger] idxs@[i] < old(self).len_view(),
                forall|i: int|
                    0 <= i < old(self).len_view() ==> #[trigger] self.tx_blocks()[i] == if listed(idxs@.take(k as int), i) {
                        TxBlock::Mined(number)
                    } else {
                        old(self).tx_blocks()[i]
                    },
            decreases idxs@.len() - k,
        {
            let idx = idxs[k];
            let ghost before = self.tx_blocks();
            self.set_block(idx, number);
            proof {
                let p = idxs@;
                assert(p.take(k + 1) =~= p.take(k as int).push(idx));
                assert forall|i: int| 0 <= i < old(self).len_view() implies #[trigger] self.tx_blocks()[i] == if listed(p.take(k + 1), i) {
                    TxBlock::Mined(number)
                } else {
                    old(self).tx_blocks()[i]
                } by {
                    if listed(p.take(k as int), i) {
                        let w = choose|w: int| 0 <= w < k && #[trigger] p.take(k as int)[w] as int == i;
                        assert(p.take(k + 1)[w] as int == i);
                    }
                    if i == idx as int {
                        assert(p.take(k + 1)[k as int] == idx);
                    } else {
                        assert(self.tx_blocks()[i] == before[i]);
                        if listed(p.take(k + 1), i) {
                            let w = choose|w: int| 0 <= w < k + 1 && #[trigger] p.take(k + 1)[w] as int == i;
                            assert(p.take(k + 1)[k as int] == idx);
                            assert(w < k);
                            assert(p.take(k as int)[w] as int == i);
                        }
                    }
                }
            }
            k = k + 1;
        }
        proof {
            assert(idxs@.take(k as int) =~= idxs@);
        }
    }

    /// Drops every transaction whose journal index is `journal_index` or later.
    pub fn remove_txs(&mut self, journal_index: usize)
        requires
            old(self).wf(),
        ensures
            final(self).wf(),
            final(self).len_view() <= old(self).len_view(),
            final(self).records() == old(self).records().take(final(self).len_view() as int),
            final(self).journal_indexes() == old(self).journal_indexes().take(final(self).len_view() as int),
            final(self).tx_blocks() == old(self).tx_blocks().take(final(self).len_view() as int),
            forall|i: int| 0 <= i < final(self).len_view() ==> #[trigger] old(self).journal_indexes()[i] < journal_index,
            forall|i: int|
                final(self).len_view() <= i < old(self).len_view() ==> #[trigger] old(self).journal_indexes()[i]
                    >= journal_index,
    {
        let mut lo: usize = 0;
        let mut hi: usize = self.txs.len();
        while lo < hi
            invariant
                self.wf(),
                self.txs@ == old(self).txs@,
                self.blocks@ == old(self).blocks@,
                lo <= hi <= self.txs@.len(),
                forall|i: int| 0 <= i < lo ==> (#[trigger] self.txs@[i]).journal_index < journal_index,
                forall|i: int| hi <= i < self.txs@.len() ==> (#[trigger] self.txs@[i]).journal_index >= journal_index,
            decreases hi - lo,
        {
            let mid = lo + (hi - lo) / 2;
            if self.txs[mid].journal_index < journal_index {
                lo = mid + 1;
            } else {
                hi = mid;
            }
        }
        self.txs.truncate(lo);
        self.blocks.truncate(lo);
        proof {
            assert(final(self).records() =~= old(self).records().take(lo as int));
            assert(final(self).journal_indexes() =~= old(self).journal_indexes().take(lo as int));
        }
    }

    /// The transaction at `index`, counted from the end when negative.
    pub fn get(&self, index: i64) -> (r: Option<&TxRecord>)
        requires
            self.wf(),
        ensures
            match r {
                Some(t) => {
                    let i = if index < 0 { self.len_view() + index } else { index as int };
                    &&& 0 <= i < self.len_view()
                    &&& t.journal_index == self.journal_indexes()[i]
                    &&& *t == self.records()[i]
                },
                None => {
                    let i = if index < 0 { self.len_view() + index } else { index as int };
                    !(0 <= i < self.len_view())
                },
            },
    {
        let n = self.txs.len();
        if index < 0 {
            let back = (-(index as i128)) as u128;
            if back > n as u128 {
                None
            } else {
                Some(&self.txs[(n as u128 - back) as usize])
            }
        } else if index as u64 as u128 >= n as u128 {
            None
        } else {
            Some(&self.txs[index as usize])
        }
    }
}

/// Whether `i` is one of the indexes in `idxs`.
pub open spec fn listed(idxs: Seq<usize>, i: int) -> bool {
    exists|w: int| 0 <= w < idxs.len() && #[trigger] idxs[w] as int == i
}

} // verus!
