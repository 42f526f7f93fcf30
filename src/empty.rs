use vstd::prelude::*;

use crate::account::AccountInfo;
use crate::hashing::keccak;
use crate::store::{BackingSource, DBError};
use crate::types::{Address, Word};

verus! {

/// The digits of `n` in base 10, most significant first.
pub open spec fn decimal_digits(n: nat) -> Seq<u8>
    decreases n,
{
    if n < 10 {
        seq![(48 + n) as u8]
    } else {
        decimal_digits(n / 10).push((48 + n % 10) as u8)
    }
}

/// The ASCII decimal representation of `n`.
pub fn decimal_bytes(n: u64) -> (r: Vec<u8>)
    ensures
        r@ == decimal_digits(n as nat),
    decreases n,
{
    if n < 10 {
        let mut v: Vec<u8> = Vec::new();
        v.push(48 + n as u8);
        assert(v@ =~= decimal_digits(n as nat));
        v
    } else {
        let mut v = decimal_bytes(n / 10);
        v.push(48 + (n % 10) as u8);
        v
    }
}

/// A backing source with no state: no account exists, every slot is zero,
/// and the hash of block `n` is the Keccak-256 digest of `n` in decimal.
pub struct EmptySource;

impl BackingSource for EmptySource {
    fn basic(&self, address: &Address) -> (r: Result<Option<AccountInfo>, DBError>) {
        Ok(None)
    }

    fn code_by_hash(&self, code_hash: &Word) -> (r: Result<Vec<u8>, DBError>) {
        Ok(Vec::new())
    }

    fn storage(&self, address: &Address, index: &Word) -> (r: Result<Word, DBError>) {
        Ok(Word::zero())
    }

    fn block_hash(&self, number: u64) -> (r: Result<Word, DBError>) {
        Ok(keccak(&decimal_bytes(number)))
    }
}

} // verus!
