//! The word generator: 128 random bits from a small, fast generator.

pub use rand::rngs::SmallRng;
use rand::RngCore;
use vstd::prelude::*;

verus! {

/// `rand::rngs::SmallRng`, carried through the library as an opaque value.
#[verifier::external_type_specification]
#[verifier::external_body]
pub struct ExSmallRng(rand::rngs::SmallRng);

/// `RngCore::next_u64` on a `SmallRng`: the next 64 bits of the generator's
/// stream. The call advances the generator; nothing is claimed of the bits.
#[verifier::external_body]
fn next_u64(r: &mut SmallRng) -> (x: u64) {
    r.next_u64()
}

/// The 128-bit word whose upper half is `hi` and whose lower half is `lo`.
pub open spec fn joined(hi: u64, lo: u64) -> u128 {
    (hi as u128 * 0x1_0000_0000_0000_0000 + lo as u128) as u128
}

/// Joins two 64-bit halves into one word, `hi` above `lo`.
pub fn join(hi: u64, lo: u64) -> (w: u128)
    ensures
        w == joined(hi, lo),
        w == hi as int * 0x1_0000_0000_0000_0000 + lo as int,
{
    let upper: u128 = hi as u128;
    let lower: u128 = lo as u128;
    assert((upper << 64) | lower == upper * 0x1_0000_0000_0000_0000 + lower) by (bit_vector)
        requires
            upper < 0x1_0000_0000_0000_0000u128,
            lower < 0x1_0000_0000_0000_0000u128,
    ;
    (upper << 64) | lower
}

/// A random 128-bit word: two consecutive 64-bit draws from `r`, the first
/// one in the upper half. The word depends on the generator's hidden state,
/// so the contract promises nothing of it; every word is a possible result.
pub fn rng(r: &mut SmallRng) -> (w: u128) {
    let hi: u64 = next_u64(r);
    let lo: u64 = next_u64(r);
    join(hi, lo)
}

} // verus!
