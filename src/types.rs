use vstd::prelude::*;

use crate::keymap::MapKey;

verus! {

/// A 20-byte account address, as its top 4 bytes and its low 16 bytes (big-endian).
#[derive(Clone, Copy, Debug, PartialEq, Eq, Structural, Hash)]
pub struct Address {
    pub hi: u32,
    pub lo: u128,
}

/// A 256-bit word (a balance, a storage slot index or value, or a hash),
/// as its high and low 128-bit halves.
#[derive(Clone, Copy, Debug, PartialEq, Eq, Structural, Hash)]
pub struct Word {
    pub hi: u128,
    pub lo: u128,
}

impl MapKey for Address {
    fn same(&self, other: &Self) -> (r: bool) {
        self.hi == other.hi && self.lo == other.lo
    }
}

impl MapKey for Word {
    fn same(&self, other: &Self) -> (r: bool) {
        self.hi == other.hi && self.lo == other.lo
    }
}

impl Address {
    pub fn new(hi: u32, lo: u128) -> (r: Address)
        ensures
            r == (Address { hi, lo }),
    {
        Address { hi, lo }
    }
}

pub open spec fn word_zero() -> Word {
    Word { hi: 0, lo: 0 }
}

impl Word {
    pub fn zero() -> (r: Word)
        ensures
            r == word_zero(),
    {
        Word { hi: 0, lo: 0 }
    }

    pub fn from_u128(v: u128) -> (r: Word)
        ensures
            r == (Word { hi: 0, lo: v }),
    {
        Word { hi: 0, lo: v }
    }

    pub fn is_zero(&self) -> (r: bool)
        ensures
            r == (*self == word_zero()),
    {
        self.hi == 0 && self.lo == 0
    }
}

/// The Keccak-256 hash of empty input: the code hash of an account without code.
pub open spec fn keccak_empty() -> Word {
    Word { hi: 0xc5d2460186f7233c927e7db2dcc703c0, lo: 0xe500b653ca82273b7bfad8045d85a470 }
}

pub fn keccak_empty_word() -> (r: Word)
    ensures
        r == keccak_empty(),
{
    Word { hi: 0xc5d2460186f7233c927e7db2dcc703c0, lo: 0xe500b653ca82273b7bfad8045d85a470 }
}

} // verus!
