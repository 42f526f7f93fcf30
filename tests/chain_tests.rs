use wake_rs::account::AccountInfo;
use wake_rs::chain::{Chain, ChainError, ConnectConfig, ForkPoint, DEFAULT_BLOCK_GAS_LIMIT};
use wake_rs::empty::EmptySource;
use wake_rs::ledger::{estimate_result, BlockError, BlockSelector, ExecOutcome, ExecStatus, TxBlock, TxInput};
use wake_rs::store::StateChange;
use wake_rs::types::{Address, Word};

fn addr(n: u128) -> Address {
    Address::new(0, n)
}

fn w(n: u128) -> Word {
    Word::from_u128(n)
}

fn connect() -> Chain<EmptySource> {
    let config = ConnectConfig { chain_id: None, fork: None, timestamp: 1_000, accounts: vec![addr(1)], seed: 7, cache: None };
    Chain::connect(EmptySource, config).unwrap()
}

fn input(to: Option<Address>) -> TxInput {
    TxInput { caller: addr(1), to, value: Word::zero(), data: vec![], gas_limit: 100_000 }
}

fn ok(gas: u64) -> ExecOutcome {
    ExecOutcome { status: ExecStatus::Success, output: vec![], gas_used: gas }
}

fn write_slot(contract: Address, nonce: u64, slot: u128, value: u128) -> Vec<StateChange> {
    vec![
        StateChange {
            address: addr(1),
            info: AccountInfo { balance: w(1_000_000), nonce, code_hash: Word::zero() },
            code: None,
            storage: vec![],
            touched: true,
            selfdestructed: false,
            created: false,
        },
        StateChange {
            address: contract,
            info: AccountInfo { balance: w(0), nonce: 1, code_hash: Word::zero() },
            code: None,
            storage: vec![(w(slot), w(value))],
            touched: true,
            selfdestructed: false,
            created: false,
        },
    ]
}

fn deploy(contract: Address) -> Vec<StateChange> {
    vec![StateChange {
        address: contract,
        info: AccountInfo {
            balance: w(0),
            nonce: 1,
            code_hash: Word { hi: 0xc5d2460186f7233c927e7db2dcc703c0, lo: 0xe500b653ca82273b7bfad8045d85a470 },
        },
        code: Some(vec![0x60, 0x2a, 0x60, 0x00, 0x52]),
        storage: vec![],
        touched: true,
        selfdestructed: false,
        created: true,
    }]
}

#[test]
fn connect_mines_genesis() {
    let c = connect();
    assert_eq!(c.last_block_number().unwrap(), 0);
    assert_eq!(c.block_gas_limit(), DEFAULT_BLOCK_GAS_LIMIT);
    assert_eq!(c.chain_id(), 31337);
    assert!(c.automine());
    let b = c.get_block(BlockSelector::Latest).unwrap();
    assert_eq!(b.env.number, 0);
    assert_eq!(b.env.timestamp, 1_000);
    assert_eq!(b.journal_index, Some(0));
    assert_eq!(c.pending_env().number, 1);
    assert_eq!(c.pending_env().timestamp, 1_001);
}

#[test]
fn deploy_call_transact_snapshot_revert_scenario() {
    let mut c = connect();
    let contract = addr(0xc0);
    assert!(c.transact(input(None), ok(50_000), deploy(contract)).is_ok());
    let q = c.begin_query(BlockSelector::Pending).unwrap();
    assert_eq!(c.storage(&contract, &w(0)).unwrap(), Word::zero());
    c.end_query(q).unwrap();
    assert!(c.transact(input(Some(contract)), ok(30_000), write_slot(contract, 1, 0, 42)).is_ok());
    assert_eq!(c.last_block_number().unwrap(), 2);
    assert_eq!(c.storage(&contract, &w(0)).unwrap(), w(42));
    let id = c.snapshot().unwrap();
    assert!(c.transact(input(Some(contract)), ok(30_000), write_slot(contract, 2, 0, 43)).is_ok());
    assert_eq!(c.storage(&contract, &w(0)).unwrap(), w(43));
    assert_eq!(c.last_block_number().unwrap(), 3);
    c.revert(id).unwrap();
    assert_eq!(c.storage(&contract, &w(0)).unwrap(), w(42));
    assert_eq!(c.last_block_number().unwrap(), 2);
    assert_eq!(c.transaction_count(), 2);
}

#[test]
fn automine_gives_each_tx_its_own_block() {
    let mut c = connect();
    for i in 0..3u64 {
        c.transact(input(Some(addr(0xc0))), ok(21_000), write_slot(addr(0xc0), i + 1, 0, i as u128)).unwrap();
    }
    assert_eq!(c.last_block_number().unwrap(), 3);
    assert_eq!(c.transaction_block(0), Some(TxBlock::Mined(1)));
    assert_eq!(c.transaction_block(1), Some(TxBlock::Mined(2)));
    assert_eq!(c.transaction_block(2), Some(TxBlock::Mined(3)));
}

#[test]
fn manual_mining_batches_pending_txs() {
    let mut c = connect();
    c.set_automine(false);
    for i in 0..3u64 {
        c.transact(input(Some(addr(0xc0))), ok(21_000), write_slot(addr(0xc0), i + 1, 0, i as u128)).unwrap();
    }
    assert_eq!(c.last_block_number().unwrap(), 0);
    assert_eq!(c.transaction_block(2), Some(TxBlock::Pending));
    assert_eq!(c.pending_env().gas_limit, DEFAULT_BLOCK_GAS_LIMIT - 63_000);
    let b = c.mine(true).unwrap().unwrap();
    assert_eq!(b.env.number, 1);
    assert_eq!(b.env.gas_limit, DEFAULT_BLOCK_GAS_LIMIT);
    assert_eq!(c.last_block_number().unwrap(), 1);
    for i in 0..3 {
        assert_eq!(c.transaction_block(i), Some(TxBlock::Mined(1)));
    }
    assert_eq!(c.pending_env().gas_limit, DEFAULT_BLOCK_GAS_LIMIT);
}

#[test]
fn idle_mine_is_noop() {
    let mut c = connect();
    c.set_automine(false);
    assert!(c.mine(false).unwrap().is_none());
    assert_eq!(c.last_block_number().unwrap(), 0);
}

#[test]
fn historical_query_sees_past_state_and_restores() {
    let mut c = connect();
    let contract = addr(0xc0);
    c.transact(input(None), ok(50_000), deploy(contract)).unwrap();
    c.transact(input(Some(contract)), ok(30_000), write_slot(contract, 1, 0, 5)).unwrap();
    c.transact(input(Some(contract)), ok(30_000), write_slot(contract, 2, 0, 6)).unwrap();
    let live = c.pending_env();
    for _ in 0..2 {
        let q = c.begin_query(BlockSelector::Int(1)).unwrap();
        assert_eq!(c.pending_env().number, 1);
        assert_eq!(c.storage(&contract, &w(0)).unwrap(), Word::zero());
        c.end_query(q).unwrap();
        assert_eq!(c.pending_env(), live);
        assert_eq!(c.storage(&contract, &w(0)).unwrap(), w(6));
    }
    let q = c.begin_query(BlockSelector::Int(2)).unwrap();
    assert_eq!(c.storage(&contract, &w(0)).unwrap(), w(5));
    c.end_query(q).unwrap();
    let q = c.begin_query(BlockSelector::Latest).unwrap();
    assert_eq!(c.storage(&contract, &w(0)).unwrap(), w(6));
    c.end_query(q).unwrap();
}

#[test]
fn query_errors() {
    let mut c = connect();
    let q0 = c.begin_query(BlockSelector::Earliest).unwrap();
    assert_eq!(c.pending_env().number, 0);
    c.end_query(q0).unwrap();
    assert!(matches!(c.begin_query(BlockSelector::Int(5)), Err(ChainError::Block(BlockError::OutOfRange))));
    let q = c.begin_query(BlockSelector::Pending).unwrap();
    assert!(matches!(c.begin_query(BlockSelector::Pending), Err(ChainError::QueryInProgress)));
    assert!(matches!(c.transact(input(None), ok(1), vec![]), Err(ChainError::QueryInProgress)));
    assert!(matches!(c.snapshot(), Err(ChainError::QueryInProgress)));
    c.end_query(q).unwrap();
    let q2 = c.begin_query(BlockSelector::Pending).unwrap();
    c.end_query(q2).unwrap();
}

#[test]
fn queries_can_follow_each_other() {
    let mut c = connect();
    let q = c.begin_query(BlockSelector::Pending).unwrap();
    c.end_query(q).unwrap();
    let q = c.begin_query(BlockSelector::Pending).unwrap();
    c.end_query(q).unwrap();
}

#[test]
fn revert_and_halt_are_errors_but_recorded() {
    let mut c = connect();
    let r = c.transact(input(None), ExecOutcome { status: ExecStatus::Revert, output: vec![1], gas_used: 100 }, vec![]);
    assert!(matches!(r, Err(ChainError::ExecutionRevert(0))));
    let r = c.transact(input(None), ExecOutcome { status: ExecStatus::Halt, output: vec![], gas_used: 100 }, vec![]);
    assert!(matches!(r, Err(ChainError::ExecutionHalt(1))));
    assert_eq!(c.transaction_count(), 2);
    assert_eq!(c.last_block_number().unwrap(), 2);
    assert_eq!(c.get_transaction(-1).unwrap().outcome.status, ExecStatus::Halt);
    assert_eq!(c.get_transaction(0).unwrap().outcome.output, vec![1]);
    assert!(c.get_transaction(2).is_none());
    assert!(c.get_transaction(-3).is_none());
}

#[test]
fn gas_limit_change_below_pending_is_rejected() {
    let mut c = connect();
    c.set_automine(false);
    c.transact(input(None), ok(50_000), vec![]).unwrap();
    assert!(matches!(c.set_block_gas_limit(40_000), Err(ChainError::InvalidGasLimitChange)));
    assert_eq!(c.block_gas_limit(), DEFAULT_BLOCK_GAS_LIMIT);
    c.set_block_gas_limit(60_000).unwrap();
    assert_eq!(c.block_gas_limit(), 60_000);
    assert_eq!(c.pending_env().gas_limit, 10_000);
}

#[test]
fn disconnected_chain_refuses_work() {
    let mut c = connect();
    c.disconnect().unwrap();
    assert!(!c.is_connected_now());
    assert!(matches!(c.mine(true), Err(ChainError::NotConnected)));
    assert!(matches!(c.last_block_number(), Err(ChainError::NotConnected)));
    assert!(matches!(c.snapshot(), Err(ChainError::NotConnected)));
    assert!(matches!(c.disconnect(), Err(ChainError::NotConnected)));
}

#[test]
fn revert_restores_automine_and_gas() {
    let mut c = connect();
    let id = c.snapshot().unwrap();
    c.set_automine(false);
    c.transact(input(None), ok(10_000), vec![]).unwrap();
    c.set_block_gas_limit(20_000).unwrap();
    c.revert(id).unwrap();
    assert!(c.automine());
    assert_eq!(c.block_gas_limit(), DEFAULT_BLOCK_GAS_LIMIT);
    assert_eq!(c.transaction_count(), 0);
    assert_eq!(c.pending_env().gas_limit, DEFAULT_BLOCK_GAS_LIMIT);
}

#[test]
fn revert_drops_later_blocks() {
    let mut c = connect();
    c.transact(input(None), ok(1), vec![]).unwrap();
    let id = c.snapshot().unwrap();
    c.transact(input(None), ok(1), vec![]).unwrap();
    c.transact(input(None), ok(1), vec![]).unwrap();
    assert_eq!(c.last_block_number().unwrap(), 3);
    c.revert(id).unwrap();
    assert_eq!(c.last_block_number().unwrap(), 1);
    assert!(matches!(c.get_block(BlockSelector::Int(2)), Err(ChainError::Block(BlockError::OutOfRange))));
    assert_eq!(c.get_block(BlockSelector::Int(1)).unwrap().env.number, 1);
    c.transact(input(None), ok(1), vec![]).unwrap();
    assert_eq!(c.get_block(BlockSelector::Latest).unwrap().env.number, 2);
}

#[test]
fn forked_chain_starts_after_fork_block() {
    let fork = ForkPoint { number: 100, timestamp: 5_000, chain_id: 1 };
    let config = ConnectConfig { chain_id: None, fork: Some(fork), timestamp: 0, accounts: vec![addr(1)], seed: 1, cache: None };
    let mut c = Chain::connect(EmptySource, config).unwrap();
    assert_eq!(c.chain_id(), 1);
    assert_eq!(c.last_block_number().unwrap(), 101);
    assert_eq!(c.get_block(BlockSelector::Latest).unwrap().env.timestamp, 5_001);
    assert!(matches!(c.get_block(BlockSelector::Int(50)), Err(ChainError::Block(BlockError::Unfetched(50)))));
    let forked = wake_rs::ledger::Block { env: c.pending_env(), hash: w(1), journal_index: None };
    c.insert_forked_block(50, forked);
    assert_eq!(c.get_block(BlockSelector::Int(50)).unwrap().hash, w(1));
    assert!(matches!(c.begin_query(BlockSelector::Int(50)), Err(ChainError::UnsupportedHistoricalQuery)));
}

#[test]
fn block_number_overflow_is_reported() {
    let fork = ForkPoint { number: u64::MAX - 2, timestamp: 0, chain_id: 1 };
    let config = ConnectConfig { chain_id: Some(5), fork: Some(fork), timestamp: 0, accounts: vec![], seed: 1, cache: None };
    let mut c = Chain::connect(EmptySource, config).unwrap();
    assert_eq!(c.chain_id(), 5);
    assert!(matches!(c.transact(input(None), ok(1), vec![]), Err(ChainError::BlockNumberOverflow)));
    assert_eq!(c.transaction_count(), 0);
}

#[test]
fn block_hashes_of_mined_blocks_are_stable() {
    let mut c = connect();
    c.transact(input(None), ok(1), vec![]).unwrap();
    let b1 = c.get_block(BlockSelector::Int(1)).unwrap();
    let h = c.block_hash(1).unwrap();
    assert_eq!(h, b1.hash);
    assert_eq!(c.block_hash(1).unwrap(), h);
    assert_eq!(c.block_hash(5).unwrap(), Word::zero());
}

#[test]
fn storage_and_code_at_past_blocks() {
    let mut c = connect();
    let contract = addr(0xc0);
    c.transact(input(None), ok(50_000), deploy(contract)).unwrap();
    c.transact(input(Some(contract)), ok(30_000), write_slot(contract, 1, 3, 9)).unwrap();
    c.transact(input(Some(contract)), ok(30_000), write_slot(contract, 2, 3, 10)).unwrap();
    assert_eq!(c.get_storage_at(&contract, &w(3), BlockSelector::Int(1)).unwrap(), Word::zero());
    assert_eq!(c.get_storage_at(&contract, &w(3), BlockSelector::Int(2)).unwrap(), w(9));
    assert_eq!(c.get_storage_at(&contract, &w(3), BlockSelector::Latest).unwrap(), w(10));
    assert_eq!(c.get_storage_at(&contract, &w(3), BlockSelector::Pending).unwrap(), w(10));
    assert_eq!(c.get_storage_at(&contract, &w(3), BlockSelector::Int(-2)).unwrap(), w(9));
    assert_eq!(c.get_code(&contract, BlockSelector::Int(0)).unwrap(), Vec::<u8>::new());
    assert_eq!(c.get_code(&contract, BlockSelector::Int(1)).unwrap(), vec![0x60, 0x2a, 0x60, 0x00, 0x52]);
    assert_eq!(c.get_storage_at(&contract, &w(3), BlockSelector::Earliest).unwrap(), Word::zero());
    assert_eq!(c.get_storage_at(&contract, &w(3), BlockSelector::Safe).unwrap(), w(10));
    assert_eq!(c.get_storage_at(&contract, &w(3), BlockSelector::Finalized).unwrap(), w(10));
    assert_eq!(c.storage(&contract, &w(3)).unwrap(), w(10));
    assert_eq!(c.last_block_number().unwrap(), 3);
}

#[test]
fn set_storage_at_mines_when_automining() {
    let mut c = connect();
    c.set_storage_at(addr(5), w(1), w(2)).unwrap();
    assert_eq!(c.last_block_number().unwrap(), 1);
    assert_eq!(c.storage(&addr(5), &w(1)).unwrap(), w(2));
    c.set_automine(false);
    c.set_storage_at(addr(5), w(1), w(3)).unwrap();
    assert_eq!(c.last_block_number().unwrap(), 1);
    assert_eq!(c.get_storage_at(&addr(5), &w(1), BlockSelector::Latest).unwrap(), w(2));
    assert_eq!(c.get_storage_at(&addr(5), &w(1), BlockSelector::Pending).unwrap(), w(3));
}

#[test]
fn timestamp_and_coinbase_of_pending_block() {
    let mut c = connect();
    c.set_next_block_timestamp(9_999).unwrap();
    c.set_coinbase(addr(77)).unwrap();
    let b = c.mine(true).unwrap().unwrap();
    assert_eq!(b.env.timestamp, 9_999);
    assert_eq!(b.env.beneficiary, addr(77));
    assert_eq!(c.pending_env().timestamp, 10_000);
}

#[test]
fn direct_writes_through_the_chain() {
    let mut c = connect();
    c.set_balance(addr(3), w(5)).unwrap();
    c.set_nonce(addr(3), 2).unwrap();
    c.set_code(addr(3), b"abc".to_vec()).unwrap();
    let info = c.basic(&addr(3)).unwrap().unwrap();
    assert_eq!(info.balance, w(5));
    assert_eq!(info.nonce, 2);
    assert_eq!(info.code_hash, Word { hi: 0x4e03657aea45a94fc7d47ba826c8d667, lo: 0xc0d1e6e33a64a036ec44f58fa12d6c45 });
    assert_eq!(c.code_by_hash(&info.code_hash).unwrap(), b"abc".to_vec());
}

#[test]
fn gas_limit_defaults_to_remaining_capacity() {
    let mut c = connect();
    c.set_automine(false);
    assert_eq!(c.resolve_gas_limit(None), DEFAULT_BLOCK_GAS_LIMIT);
    assert_eq!(c.resolve_gas_limit(Some(50_000)), 50_000);
    c.transact(input(None), ok(21_000), vec![]).unwrap();
    assert_eq!(c.resolve_gas_limit(None), DEFAULT_BLOCK_GAS_LIMIT - 21_000);
}

#[test]
fn estimate_reports_gas_or_failure() {
    let success = ExecOutcome { status: ExecStatus::Success, output: vec![], gas_used: 21_000 };
    let reverted = ExecOutcome { status: ExecStatus::Revert, output: vec![], gas_used: 30_000 };
    assert_eq!(estimate_result(&success, true), Ok(21_000));
    assert_eq!(estimate_result(&reverted, true), Err(ExecStatus::Revert));
    assert_eq!(estimate_result(&reverted, false), Ok(30_000));
}

#[test]
fn transact_records_gas_bookkeeping() {
    let mut c = connect();
    c.set_automine(false);
    c.transact(input(None), ok(10_000), vec![]).unwrap();
    let r = c.get_transaction(-1).unwrap();
    assert_eq!(r.gas_limit_before, DEFAULT_BLOCK_GAS_LIMIT);
    assert_eq!(r.journal_index, 0);
    c.transact(input(None), ok(5_000), vec![]).unwrap();
    assert_eq!(c.get_transaction(-1).unwrap().gas_limit_before, DEFAULT_BLOCK_GAS_LIMIT - 10_000);
    assert_eq!(c.pending_env().gas_limit, DEFAULT_BLOCK_GAS_LIMIT - 15_000);
}
