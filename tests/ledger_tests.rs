use wake_rs::ledger::{BlockEnv, BlockError, BlockSelector, Blocks, ExecOutcome, ExecStatus, TxBlock, TxInput, TxRecord, Txs};
use wake_rs::types::{Address, Word};

fn env(n: u64) -> BlockEnv {
    BlockEnv { number: n, timestamp: 100 + n, gas_limit: 1_000, beneficiary: Address::new(0, 0), basefee: 0, prevrandao: Word::zero() }
}

fn tx(ji: usize) -> TxRecord {
    TxRecord {
        input: TxInput { caller: Address::new(0, 1), to: None, value: Word::zero(), data: vec![], gas_limit: 1 },
        outcome: ExecOutcome { status: ExecStatus::Success, output: vec![], gas_used: 1 },
        journal_index: ji,
        gas_limit_before: 1,
    }
}

#[test]
fn block_selectors_resolve() {
    let mut b = Blocks::new(None);
    for n in 0..4u64 {
        b.add_block(env(n), n as usize, Word::from_u128(n as u128 + 1));
    }
    let pending = env(4);
    assert_eq!(b.get_block(BlockSelector::Latest, 3, pending).unwrap().env.number, 3);
    assert_eq!(b.get_block(BlockSelector::Safe, 3, pending).unwrap().env.number, 3);
    assert_eq!(b.get_block(BlockSelector::Finalized, 3, pending).unwrap().env.number, 3);
    assert_eq!(b.get_block(BlockSelector::Earliest, 3, pending).unwrap().env.number, 0);
    assert_eq!(b.get_block(BlockSelector::Int(-1), 3, pending).unwrap().env.number, 3);
    assert_eq!(b.get_block(BlockSelector::Int(-4), 3, pending).unwrap().env.number, 0);
    assert_eq!(b.get_block(BlockSelector::Int(2), 3, pending).unwrap().journal_index, Some(2));
    assert_eq!(b.get_block(BlockSelector::Int(4), 3, pending), Err(BlockError::OutOfRange));
    assert_eq!(b.get_block(BlockSelector::Int(-5), 3, pending), Err(BlockError::OutOfRange));
    let p = b.get_block(BlockSelector::Pending, 3, pending).unwrap();
    assert_eq!(p.env, pending);
    assert_eq!(p.journal_index, None);
    assert_eq!(p.hash, Word::zero());
}

#[test]
fn removed_blocks_are_pruned() {
    let mut b = Blocks::new(None);
    for n in 0..4u64 {
        b.add_block(env(n), 0, Word::zero());
    }
    b.remove_blocks(1);
    assert_eq!(b.next_number(), 2);
    assert_eq!(b.get_block(BlockSelector::Int(2), 3, env(4)), Err(BlockError::Pruned));
    assert_eq!(b.get_block(BlockSelector::Int(1), 3, env(4)).unwrap().env.number, 1);
}

#[test]
fn forked_blocks_need_fetching() {
    let mut b = Blocks::new(Some(10));
    assert_eq!(b.next_number(), 11);
    b.add_block(env(11), 0, Word::zero());
    assert_eq!(b.get_block(BlockSelector::Int(10), 11, env(12)), Err(BlockError::Unfetched(10)));
    assert_eq!(b.get_block(BlockSelector::Earliest, 11, env(12)), Err(BlockError::Unfetched(0)));
    b.insert_forked_block(10, wake_rs::ledger::Block { env: env(10), hash: Word::from_u128(9), journal_index: None });
    assert_eq!(b.get_block(BlockSelector::Int(10), 11, env(12)).unwrap().hash, Word::from_u128(9));
    assert_eq!(b.get_block(BlockSelector::Int(11), 11, env(12)).unwrap().env.number, 11);
}

#[test]
fn txs_negative_index_and_removal() {
    let mut t = Txs::new();
    for ji in [0usize, 2, 2, 5, 9] {
        t.add_tx(tx(ji), TxBlock::Pending);
    }
    assert_eq!(t.len(), 5);
    assert_eq!(t.get(-1).unwrap().journal_index, 9);
    assert_eq!(t.get(-5).unwrap().journal_index, 0);
    assert!(t.get(-6).is_none());
    assert!(t.get(5).is_none());
    t.remove_txs(2);
    assert_eq!(t.len(), 1);
    assert_eq!(t.get(0).unwrap().journal_index, 0);
    t.remove_txs(0);
    assert_eq!(t.len(), 0);
}

#[test]
fn txs_removal_keeps_earlier() {
    let mut t = Txs::new();
    for ji in [1usize, 3, 4, 4, 8] {
        t.add_tx(tx(ji), TxBlock::Mined(1));
    }
    t.remove_txs(4);
    assert_eq!(t.len(), 2);
    t.set_block(1, 7);
    assert_eq!(t.block_of(1), Some(TxBlock::Mined(7)));
    assert_eq!(t.block_of(2), None);
}

#[test]
fn access_list_leaves_out_excluded_addresses() {
    let a = Address::new(0, 1);
    let b = Address::new(0, 2);
    let c = Address::new(0, 3);
    let loaded = vec![(a, vec![Word::from_u128(1)]), (b, vec![]), (c, vec![Word::from_u128(2), Word::from_u128(3)])];
    let r = wake_rs::ledger::access_list(loaded, &vec![b]);
    assert_eq!(r, vec![(a, vec![Word::from_u128(1)]), (c, vec![Word::from_u128(2), Word::from_u128(3)])]);
    assert!(wake_rs::ledger::contains_address(&vec![a, b], &b));
    assert!(!wake_rs::ledger::contains_address(&vec![a, b], &c));
}
