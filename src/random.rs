use vstd::prelude::*;

use crate::types::Word;

verus! {

#[verifier::external_type_specification]
#[verifier::external_body]
pub struct ExSmallRng(rand::rngs::SmallRng);

/// Relies on rand's `SeedableRng::seed_from_u64` for `SmallRng`: a generator seeded from `seed`.
#[verifier::external_body]
pub(crate) fn seeded_rng(seed: u64) -> (r: rand::rngs::SmallRng) {
    <rand::rngs::SmallRng as rand::SeedableRng>::seed_from_u64(seed)
}

/// Relies on rand's `Rng::gen::<[u8; 32]>`: 32 pseudo-random bytes, read as a
/// big-endian word. Nothing is promised of the value.
#[verifier::external_body]
pub(crate) fn random_word(rng: &mut rand::rngs::SmallRng) -> (r: Word) {
    let b: [u8; 32] = rand::Rng::gen(rng);
    let mut hi = [0u8; 16];
    let mut lo = [0u8; 16];
    hi.copy_from_slice(&b[..16]);
    lo.copy_from_slice(&b[16..]);
    Word { hi: u128::from_be_bytes(hi), lo: u128::from_be_bytes(lo) }
}

} // verus!
