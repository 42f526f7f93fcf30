use vstd::prelude::*;

use crate::types::{keccak_empty, Word};

verus! {

/// The Keccak-256 digest of `bytes`, as a word.
pub uninterp spec fn keccak_of(bytes: Seq<u8>) -> Word;

/// Relies on revm's `primitives::keccak256` (from alloy-primitives): the Keccak-256
/// digest of the bytes, read as a big-endian word; for empty input it is revm's
/// `KECCAK_EMPTY`.
#[verifier::external_body]
pub(crate) fn keccak(bytes: &Vec<u8>) -> (r: Word)
    ensures
        r == keccak_of(bytes@),
        bytes@.len() == 0 ==> r == keccak_empty(),
{
    let h = revm::primitives::keccak256(bytes.as_slice());
    let mut hi = [0u8; 16];
    let mut lo = [0u8; 16];
    hi.copy_from_slice(&h.0[..16]);
    lo.copy_from_slice(&h.0[16..]);
    Word { hi: u128::from_be_bytes(hi), lo: u128::from_be_bytes(lo) }
}

/// A copy of a byte vector.
pub fn copy_bytes(v: &Vec<u8>) -> (r: Vec<u8>)
    ensures
        r@ == v@,
{
    let mut r: Vec<u8> = Vec::new();
    let mut i: usize = 0;
    while i < v.len()
        invariant
            i <= v@.len(),
            r@ == v@.take(i as int),
        decreases v@.len() - i,
    {
        r.push(v[i]);
        i = i + 1;
        assert(r@ =~= v@.take(i as int));
    }
    assert(v@.take(i as int) =~= v@);
    r
}

} // verus!
