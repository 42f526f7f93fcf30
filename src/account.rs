use vstd::prelude::*;

use crate::types::{keccak_empty, word_zero, Word};

verus! {

/// Whether a cached account record is known not to exist, was touched by
/// execution, or was only loaded.
#[derive(Clone, Copy, Debug, PartialEq, Eq, Structural, Hash)]
pub enum AccountState {
    /// Known not to exist (a cached negative lookup, or destroyed).
    NotExisting,
    /// Written by execution or by a direct state change.
    Touched,
    /// Loaded and not written.
    Untouched,
}

/// The plain account fields that execution reads.
#[derive(Clone, Copy, Debug, PartialEq, Eq, Structural)]
pub struct AccountInfo {
    pub balance: Word,
    pub nonce: u64,
    pub code_hash: Word,
}

/// One cached account record of a layer.
#[derive(Clone, Copy, Debug, PartialEq, Eq, Structural)]
pub struct DbAccount {
    pub info: AccountInfo,
    pub account_state: AccountState,
    /// Created by a local transaction: storage below it is not consulted.
    pub locally_created: bool,
}

pub open spec fn empty_info() -> AccountInfo {
    AccountInfo { balance: word_zero(), nonce: 0, code_hash: keccak_empty() }
}

pub open spec fn not_existing_account() -> DbAccount {
    DbAccount { info: empty_info(), account_state: AccountState::NotExisting, locally_created: false }
}

impl AccountInfo {
    /// An account with no balance, nonce or code.
    pub fn empty() -> (r: AccountInfo)
        ensures
            r == empty_info(),
    {
        AccountInfo {
            balance: Word::zero(),
            nonce: 0,
            code_hash: crate::types::keccak_empty_word(),
        }
    }
}

impl DbAccount {
    /// A record that caches "this account does not exist".
    pub fn new_not_existing() -> (r: DbAccount)
        ensures
            r == not_existing_account(),
    {
        DbAccount {
            info: AccountInfo::empty(),
            account_state: AccountState::NotExisting,
            locally_created: false,
        }
    }

    /// A record for an account loaded from the backing source (`None`: it does not exist).
    pub fn from_loaded(info: Option<AccountInfo>) -> (r: DbAccount)
        ensures
            r == loaded_account(info),
    {
        match info {
            Some(info) => DbAccount { info, account_state: AccountState::Untouched, locally_created: false },
            None => DbAccount::new_not_existing(),
        }
    }

    pub open spec fn info_view(self) -> Option<AccountInfo> {
        if self.account_state == AccountState::NotExisting {
            None
        } else {
            Some(self.info)
        }
    }

    /// What a reader sees of this record: nothing for a non-existing account.
    pub fn info(&self) -> (r: Option<AccountInfo>)
        ensures
            r == self.info_view(),
    {
        match self.account_state {
            AccountState::NotExisting => None,
            _ => Some(self.info),
        }
    }
}

pub open spec fn loaded_account(info: Option<AccountInfo>) -> DbAccount {
    match info {
        Some(i) => DbAccount { info: i, account_state: AccountState::Untouched, locally_created: false },
        None => not_existing_account(),
    }
}

} // verus!
