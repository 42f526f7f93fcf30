use wake_rs::account::AccountInfo;
use wake_rs::chain::{Chain, ChainError, ConnectConfig, ForkPoint};
use wake_rs::store::{BackingSource, CacheDB, DBError};
use wake_rs::types::{Address, Word};

/// A backing source whose every lookup fails.
struct Unreachable;

impl BackingSource for Unreachable {
    fn basic(&self, _address: &Address) -> Result<Option<AccountInfo>, DBError> {
        Err(DBError("connection refused".to_string()))
    }

    fn code_by_hash(&self, _code_hash: &Word) -> Result<Vec<u8>, DBError> {
        Err(DBError("connection refused".to_string()))
    }

    fn storage(&self, _address: &Address, _index: &Word) -> Result<Word, DBError> {
        Err(DBError("connection refused".to_string()))
    }

    fn block_hash(&self, _number: u64) -> Result<Word, DBError> {
        Err(DBError("connection refused".to_string()))
    }
}

/// A backing source holding one funded account with one slot.
struct OneAccount;

impl BackingSource for OneAccount {
    fn basic(&self, address: &Address) -> Result<Option<AccountInfo>, DBError> {
        if *address == Address::new(0, 1) {
            Ok(Some(AccountInfo { balance: Word::from_u128(500), nonce: 3, code_hash: Word::from_u128(9) }))
        } else {
            Ok(None)
        }
    }

    fn code_by_hash(&self, _code_hash: &Word) -> Result<Vec<u8>, DBError> {
        Ok(vec![0xfe])
    }

    fn storage(&self, _address: &Address, index: &Word) -> Result<Word, DBError> {
        Ok(*index)
    }

    fn block_hash(&self, number: u64) -> Result<Word, DBError> {
        Ok(Word::from_u128(number as u128 + 1000))
    }
}

#[test]
fn failed_lookup_leaves_store_unchanged() {
    let mut db = CacheDB::new(Unreachable, 0);
    let a = Address::new(0, 1);
    assert!(db.basic(&a).is_err());
    assert!(db.storage(&a, &Word::zero()).is_err());
    assert!(db.set_balance(a, Word::from_u128(1)).is_err());
    assert_eq!(db.journal_index(), 0);
    assert!(db.block_hash(0).is_err());
    db.set_storage(a, Word::zero(), Word::from_u128(4));
    assert_eq!(db.storage(&a, &Word::zero()).unwrap(), Word::from_u128(4));
}

#[test]
fn forked_connect_fails_when_source_is_down() {
    let fork = ForkPoint { number: 10, timestamp: 0, chain_id: 1 };
    let config = ConnectConfig { chain_id: None, fork: Some(fork), timestamp: 0, accounts: vec![Address::new(0, 1)], seed: 3, cache: None };
    assert!(matches!(Chain::connect(Unreachable, config), Err(ChainError::BackingSource(_))));
}

#[test]
fn backing_source_fills_cache_once() {
    let mut db = CacheDB::new(OneAccount, 10);
    let a = Address::new(0, 1);
    let info = db.basic(&a).unwrap().unwrap();
    assert_eq!(info.balance, Word::from_u128(500));
    assert_eq!(info.nonce, 3);
    assert_eq!(db.storage(&a, &Word::from_u128(7)).unwrap(), Word::from_u128(7));
    assert_eq!(db.storage(&Address::new(0, 2), &Word::from_u128(7)).unwrap(), Word::zero());
    assert_eq!(db.code_by_hash(&Word::from_u128(9)).unwrap(), vec![0xfe]);
    assert_eq!(db.block_hash(10).unwrap(), Word::from_u128(1010));
    assert!(db.is_contract_forked(&a).unwrap());
    assert!(!db.is_contract_forked(&Address::new(0, 2)).unwrap());
    db.set_balance(a, Word::from_u128(1)).unwrap();
    let info = db.basic(&a).unwrap().unwrap();
    assert_eq!(info.balance, Word::from_u128(1));
    assert_eq!(info.nonce, 3);
    assert_eq!(db.journal_index(), 1);
}

#[test]
fn forked_connect_clears_account_code() {
    let fork = ForkPoint { number: 10, timestamp: 0, chain_id: 1 };
    let config = ConnectConfig { chain_id: None, fork: Some(fork), timestamp: 0, accounts: vec![Address::new(0, 1)], seed: 3, cache: None };
    let mut c = Chain::connect(OneAccount, config).unwrap();
    let info = c.basic(&Address::new(0, 1)).unwrap().unwrap();
    assert_eq!(info.balance, Word::from_u128(500));
    assert_eq!(info.code_hash, Word { hi: 0xc5d2460186f7233c927e7db2dcc703c0, lo: 0xe500b653ca82273b7bfad8045d85a470 });
}

#[test]
fn ref_reads_do_not_cache() {
    let mut db = CacheDB::new(OneAccount, 300);
    let a = Address::new(0, 1);
    assert_eq!(db.basic_ref(&a).unwrap().unwrap().nonce, 3);
    assert_eq!(db.storage_ref(&a, &Word::from_u128(8)).unwrap(), Word::from_u128(8));
    assert_eq!(db.code_by_hash_ref(&Word::from_u128(9)).unwrap(), vec![0xfe]);
    assert_eq!(db.block_hash_ref(44).unwrap(), Word::zero());
    assert_eq!(db.block_hash_ref(45).unwrap(), Word::from_u128(1045));
    let cache = db.export_cache();
    assert_eq!(cache.accounts.len(), 0);
    assert_eq!(cache.storage.len(), 0);
    assert_eq!(cache.block_hashes.len(), 0);
    db.set_storage(a, Word::from_u128(8), Word::from_u128(1));
    assert_eq!(db.storage_ref(&a, &Word::from_u128(8)).unwrap(), Word::from_u128(1));
}

#[test]
fn forked_connect_loads_cache() {
    let mut db = CacheDB::new(OneAccount, 10);
    db.set_block_hash(10, Word::from_u128(4242));
    assert!(db.basic(&Address::new(0, 5)).unwrap().is_none());
    let cache = db.export_cache();
    let fork = ForkPoint { number: 10, timestamp: 0, chain_id: 1 };
    let config = ConnectConfig { chain_id: None, fork: Some(fork), timestamp: 0, accounts: vec![], seed: 3, cache: Some(cache) };
    let mut c = Chain::connect(OneAccount, config).unwrap();
    assert_eq!(c.block_hash(10).unwrap(), Word::from_u128(4242));
    assert_eq!(c.block_hash(9).unwrap(), Word::from_u128(1009));
    let saved = c.export_cache();
    assert!(saved.accounts.iter().any(|(a, _)| *a == Address::new(0, 5)));
}
