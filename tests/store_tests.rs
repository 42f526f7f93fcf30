use wake_rs::account::AccountInfo;
use wake_rs::empty::EmptySource;
use wake_rs::keymap::KeyMap;
use wake_rs::store::{CacheDB, DiskCache, StateChange};
use wake_rs::types::{Address, Word};

fn addr(n: u128) -> Address {
    Address::new(0, n)
}

fn w(n: u128) -> Word {
    Word::from_u128(n)
}

fn keccak_empty() -> Word {
    Word { hi: 0xc5d2460186f7233c927e7db2dcc703c0, lo: 0xe500b653ca82273b7bfad8045d85a470 }
}

fn new_store() -> CacheDB<EmptySource> {
    CacheDB::new(EmptySource, 0)
}

#[test]
fn keymap_insert_get_remove() {
    let mut m: KeyMap<u64, u64> = KeyMap::new();
    assert_eq!(m.insert(1, 10), None);
    assert_eq!(m.insert(2, 20), None);
    assert_eq!(m.insert(1, 11), Some(10));
    assert_eq!(m.get(&1), Some(&11));
    assert_eq!(m.len(), 2);
    assert_eq!(m.remove(&1), Some(11));
    assert_eq!(m.get(&1), None);
    assert!(m.contains_key(&2));
    assert_eq!(m.len(), 1);
}

#[test]
fn unknown_account_reads_as_missing() {
    let mut db = new_store();
    assert_eq!(db.basic(&addr(1)).unwrap(), None);
    assert_eq!(db.storage(&addr(1), &w(5)).unwrap(), Word::zero());
    assert_eq!(db.journal_index(), 0);
}

#[test]
fn set_balance_is_visible_and_journaled() {
    let mut db = new_store();
    db.set_balance(addr(1), w(100)).unwrap();
    let info = db.basic(&addr(1)).unwrap().unwrap();
    assert_eq!(info.balance, w(100));
    assert_eq!(info.nonce, 0);
    assert_eq!(info.code_hash, keccak_empty());
    assert_eq!(db.journal_index(), 1);
    db.set_nonce(addr(1), 7).unwrap();
    let info = db.basic(&addr(1)).unwrap().unwrap();
    assert_eq!(info.nonce, 7);
    assert_eq!(info.balance, w(100));
}

#[test]
fn set_storage_is_visible() {
    let mut db = new_store();
    db.set_storage(addr(2), w(1), w(99));
    assert_eq!(db.storage(&addr(2), &w(1)).unwrap(), w(99));
    assert_eq!(db.storage(&addr(2), &w(2)).unwrap(), Word::zero());
}

#[test]
fn set_code_hashes_with_keccak() {
    let mut db = new_store();
    db.set_code(addr(3), b"abc".to_vec()).unwrap();
    let info = db.basic(&addr(3)).unwrap().unwrap();
    let expected = Word { hi: 0x4e03657aea45a94fc7d47ba826c8d667, lo: 0xc0d1e6e33a64a036ec44f58fa12d6c45 };
    assert_eq!(info.code_hash, expected);
    assert_eq!(db.code_by_hash(&expected).unwrap(), b"abc".to_vec());
    db.set_code(addr(4), Vec::new()).unwrap();
    assert_eq!(db.basic(&addr(4)).unwrap().unwrap().code_hash, keccak_empty());
}

#[test]
fn snapshot_revert_round_trip() {
    let mut db = new_store();
    db.set_balance(addr(1), w(5)).unwrap();
    db.set_storage(addr(1), w(0), w(1));
    let before = db.journal_index();
    let id = db.snapshot();
    assert_eq!(id, 1);
    db.set_balance(addr(1), w(6)).unwrap();
    db.set_storage(addr(1), w(0), w(2));
    db.set_storage(addr(1), w(3), w(4));
    db.set_balance(addr(9), w(1)).unwrap();
    assert_eq!(db.basic(&addr(1)).unwrap().unwrap().balance, w(6));
    let ji = db.revert_snapshot(id);
    assert_eq!(ji, before);
    assert_eq!(db.journal_index(), before);
    assert_eq!(db.basic(&addr(1)).unwrap().unwrap().balance, w(5));
    assert_eq!(db.storage(&addr(1), &w(0)).unwrap(), w(1));
    assert_eq!(db.storage(&addr(1), &w(3)).unwrap(), Word::zero());
    assert_eq!(db.basic(&addr(9)).unwrap(), None);
}

#[test]
fn nested_snapshots_revert_in_order() {
    let mut db = new_store();
    db.set_balance(addr(1), w(1)).unwrap();
    let a = db.snapshot();
    db.set_balance(addr(1), w(2)).unwrap();
    let b = db.snapshot();
    db.set_balance(addr(1), w(3)).unwrap();
    assert_eq!((a, b), (1, 2));
    db.revert_snapshot(b);
    assert_eq!(db.basic(&addr(1)).unwrap().unwrap().balance, w(2));
    db.revert_snapshot(a);
    assert_eq!(db.basic(&addr(1)).unwrap().unwrap().balance, w(1));
}

#[test]
fn rollback_then_restore_is_identity() {
    let mut db = new_store();
    db.set_balance(addr(1), w(10)).unwrap();
    db.set_storage(addr(1), w(0), w(7));
    let j = db.journal_index();
    db.set_balance(addr(1), w(20)).unwrap();
    db.set_storage(addr(1), w(0), w(8));
    db.set_code(addr(1), vec![0x60, 0x00]).unwrap();
    let end = db.journal_index();
    let rb = db.rollback(j);
    assert_eq!(db.journal_index(), j);
    assert_eq!(db.basic(&addr(1)).unwrap().unwrap().balance, w(10));
    assert_eq!(db.storage(&addr(1), &w(0)).unwrap(), w(7));
    assert_eq!(db.basic(&addr(1)).unwrap().unwrap().code_hash, keccak_empty());
    db.restore_rollback(rb);
    assert_eq!(db.journal_index(), end);
    let info = db.basic(&addr(1)).unwrap().unwrap();
    assert_eq!(info.balance, w(20));
    assert_ne!(info.code_hash, keccak_empty());
    assert_eq!(db.code_by_hash(&info.code_hash).unwrap(), vec![0x60, 0x00]);
    assert_eq!(db.storage(&addr(1), &w(0)).unwrap(), w(8));
}

#[test]
fn rollback_to_current_index_is_empty() {
    let mut db = new_store();
    db.set_balance(addr(1), w(10)).unwrap();
    let j = db.journal_index();
    let rb = db.rollback(j);
    assert!(rb.is_empty());
    db.restore_rollback(rb);
    assert_eq!(db.journal_index(), j);
}

#[test]
fn block_hash_window() {
    let mut db = CacheDB::new(EmptySource, 300);
    assert_eq!(db.block_hash(301).unwrap(), Word::zero());
    assert_eq!(db.block_hash(44).unwrap(), Word::zero());
    assert_eq!(db.block_hash(0).unwrap(), Word::zero());
    let h45 = db.block_hash(45).unwrap();
    let h300 = db.block_hash(300).unwrap();
    assert_ne!(h45, Word::zero());
    assert_ne!(h300, Word::zero());
    assert_ne!(h45, h300);
    assert_eq!(db.block_hash(45).unwrap(), h45);
    assert_eq!(db.block_hash(300).unwrap(), h300);
}

#[test]
fn block_hash_near_genesis() {
    let mut db = CacheDB::new(EmptySource, 3);
    assert_ne!(db.block_hash(0).unwrap(), Word::zero());
    assert_ne!(db.block_hash(3).unwrap(), Word::zero());
    assert_eq!(db.block_hash(4).unwrap(), Word::zero());
}

#[test]
fn block_hash_cache_wins() {
    let mut db = CacheDB::new(EmptySource, 10);
    db.set_block_hash(10, w(77));
    assert_eq!(db.block_hash(10).unwrap(), w(77));
}

fn touched(a: Address, info: AccountInfo, storage: Vec<(Word, Word)>) -> StateChange {
    StateChange { address: a, info, code: None, storage, touched: true, selfdestructed: false, created: false }
}

#[test]
fn commit_applies_account_and_slots() {
    let mut db = new_store();
    let info = AccountInfo { balance: w(3), nonce: 1, code_hash: Word::zero() };
    db.commit(vec![touched(addr(5), info, vec![(w(1), w(11)), (w(2), w(22)), (w(1), w(33))])]);
    let got = db.basic(&addr(5)).unwrap().unwrap();
    assert_eq!(got.balance, w(3));
    assert_eq!(got.nonce, 1);
    assert_eq!(got.code_hash, keccak_empty());
    assert_eq!(db.storage(&addr(5), &w(1)).unwrap(), w(33));
    assert_eq!(db.storage(&addr(5), &w(2)).unwrap(), w(22));
}

#[test]
fn commit_skips_untouched() {
    let mut db = new_store();
    let info = AccountInfo { balance: w(3), nonce: 1, code_hash: Word::zero() };
    let mut c = touched(addr(5), info, vec![]);
    c.touched = false;
    db.commit(vec![c]);
    assert_eq!(db.journal_index(), 0);
    assert_eq!(db.basic(&addr(5)).unwrap(), None);
}

#[test]
fn commit_stores_code_by_hash() {
    let mut db = new_store();
    let info = AccountInfo { balance: w(0), nonce: 1, code_hash: keccak_empty() };
    let mut c = touched(addr(6), info, vec![]);
    c.code = Some(b"abc".to_vec());
    db.commit(vec![c]);
    let got = db.basic(&addr(6)).unwrap().unwrap();
    let expected = Word { hi: 0x4e03657aea45a94fc7d47ba826c8d667, lo: 0xc0d1e6e33a64a036ec44f58fa12d6c45 };
    assert_eq!(got.code_hash, expected);
    assert_eq!(db.code_by_hash(&expected).unwrap(), b"abc".to_vec());
}

#[test]
fn selfdestruct_clears_and_revert_restores() {
    let mut db = new_store();
    db.set_balance(addr(7), w(50)).unwrap();
    db.set_code(addr(7), vec![1, 2, 3]).unwrap();
    db.set_storage(addr(7), w(1), w(10));
    db.set_storage(addr(7), w(2), w(20));
    let code_hash = db.basic(&addr(7)).unwrap().unwrap().code_hash;
    let id = db.snapshot();
    let mut c = touched(addr(7), AccountInfo { balance: w(0), nonce: 0, code_hash: Word::zero() }, vec![]);
    c.selfdestructed = true;
    db.commit(vec![c]);
    assert_eq!(db.basic(&addr(7)).unwrap(), None);
    assert_eq!(db.storage(&addr(7), &w(1)).unwrap(), Word::zero());
    assert_eq!(db.storage(&addr(7), &w(2)).unwrap(), Word::zero());
    assert_eq!(db.storage(&addr(7), &w(3)).unwrap(), Word::zero());
    db.revert_snapshot(id);
    let info = db.basic(&addr(7)).unwrap().unwrap();
    assert_eq!(info.balance, w(50));
    assert_eq!(info.code_hash, code_hash);
    assert_eq!(db.storage(&addr(7), &w(1)).unwrap(), w(10));
    assert_eq!(db.storage(&addr(7), &w(2)).unwrap(), w(20));
}

#[test]
fn selfdestruct_then_rollback_restores_storage() {
    let mut db = new_store();
    db.set_storage(addr(8), w(1), w(10));
    db.set_balance(addr(8), w(1)).unwrap();
    let j = db.journal_index();
    let mut c = touched(addr(8), AccountInfo { balance: w(0), nonce: 0, code_hash: Word::zero() }, vec![]);
    c.selfdestructed = true;
    db.commit(vec![c]);
    assert_eq!(db.storage(&addr(8), &w(1)).unwrap(), Word::zero());
    let rb = db.rollback(j);
    assert_eq!(db.storage(&addr(8), &w(1)).unwrap(), w(10));
    db.restore_rollback(rb);
    assert_eq!(db.storage(&addr(8), &w(1)).unwrap(), Word::zero());
    assert_eq!(db.basic(&addr(8)).unwrap(), None);
}

#[test]
fn locally_created_account_hides_lower_storage() {
    let mut db = new_store();
    db.set_storage(addr(9), w(1), w(10));
    let id = db.snapshot();
    let mut c = touched(addr(9), AccountInfo { balance: w(0), nonce: 1, code_hash: Word::zero() }, vec![]);
    c.created = true;
    db.commit(vec![c]);
    assert_eq!(db.storage(&addr(9), &w(1)).unwrap(), Word::zero());
    assert_eq!(db.storage(&addr(9), &w(2)).unwrap(), Word::zero());
    db.revert_snapshot(id);
    assert_eq!(db.storage(&addr(9), &w(1)).unwrap(), w(10));
}

#[test]
fn contract_not_forked_on_empty_source() {
    let db = new_store();
    assert!(!db.is_contract_forked(&addr(1)).unwrap());
}

#[test]
fn decimal_bytes_of_numbers() {
    assert_eq!(wake_rs::empty::decimal_bytes(0), b"0".to_vec());
    assert_eq!(wake_rs::empty::decimal_bytes(45), b"45".to_vec());
    assert_eq!(wake_rs::empty::decimal_bytes(u64::MAX), b"18446744073709551615".to_vec());
}

#[test]
fn cache_export_and_import() {
    let mut db = new_store();
    assert_eq!(db.basic(&addr(1)).unwrap(), None);
    assert_eq!(db.storage(&addr(2), &w(4)).unwrap(), Word::zero());
    db.set_block_hash(0, w(12));
    let cache = db.export_cache();
    assert_eq!(cache.accounts.len(), 2);
    assert_eq!(cache.storage.len(), 1);
    assert_eq!(cache.block_hashes, vec![(0, w(12))]);
    assert_eq!(cache.contracts.len(), 2);
    let mut fresh = new_store();
    fresh.import_cache(cache);
    assert_eq!(fresh.journal_index(), 0);
    assert_eq!(fresh.block_hash(0).unwrap(), w(12));
    assert_eq!(fresh.export_cache().accounts.len(), 2);
}

#[test]
fn recreated_account_has_no_stale_slots() {
    let mut db = new_store();
    db.set_balance(addr(10), w(1)).unwrap();
    db.set_storage(addr(10), w(1), w(11));
    let _ = db.snapshot();
    db.set_storage(addr(10), w(2), w(22));
    let mut gone = touched(addr(10), AccountInfo { balance: w(0), nonce: 0, code_hash: Word::zero() }, vec![]);
    gone.selfdestructed = true;
    db.commit(vec![gone]);
    let back = touched(addr(10), AccountInfo { balance: w(5), nonce: 1, code_hash: Word::zero() }, vec![(w(3), w(33))]);
    db.commit(vec![back]);
    assert_eq!(db.basic(&addr(10)).unwrap().unwrap().balance, w(5));
    assert_eq!(db.storage(&addr(10), &w(1)).unwrap(), Word::zero());
    assert_eq!(db.storage(&addr(10), &w(2)).unwrap(), Word::zero());
    assert_eq!(db.storage(&addr(10), &w(3)).unwrap(), w(33));
    assert_eq!(db.storage_ref(&addr(10), &w(1)).unwrap(), Word::zero());
}

#[test]
fn commit_leaves_other_addresses_alone() {
    let mut db = new_store();
    db.set_balance(addr(20), w(7)).unwrap();
    db.set_storage(addr(20), w(1), w(70));
    let info = AccountInfo { balance: w(3), nonce: 1, code_hash: Word::zero() };
    db.commit(vec![touched(addr(21), info, vec![(w(1), w(1))]), touched(addr(22), info, vec![])]);
    assert_eq!(db.basic(&addr(20)).unwrap().unwrap().balance, w(7));
    assert_eq!(db.storage(&addr(20), &w(1)).unwrap(), w(70));
    assert_eq!(db.basic(&addr(22)).unwrap().unwrap().balance, w(3));
}

#[test]
fn import_keeps_last_listing() {
    let mut db = new_store();
    let cache = DiskCache {
        accounts: vec![],
        contracts: vec![(w(1), vec![1]), (w(1), vec![2])],
        storage: vec![(addr(1), vec![(w(5), w(50)), (w(5), w(51))])],
        block_hashes: vec![(0, w(8)), (0, w(9))],
    };
    db.import_cache(cache);
    assert_eq!(db.code_by_hash(&w(1)).unwrap(), vec![2]);
    assert_eq!(db.storage(&addr(1), &w(5)).unwrap(), w(51));
    assert_eq!(db.block_hash(0).unwrap(), w(9));
}
