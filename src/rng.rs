//! The world's random number generator, a seeded Xoshiro256+ stream.
//!
//! Nothing is promised of the numbers it gives: the world's logic takes them
//! as arguments and is verified for every value of them.

use vstd::prelude::*;
use rand::{RngCore, SeedableRng};
use rand_xoshiro::Xoshiro256Plus;

verus! {

#[verifier::external_type_specification]
#[verifier::external_body]
pub struct ExXoshiro256Plus(rand_xoshiro::Xoshiro256Plus);

/// Relies on `SeedableRng::seed_from_u64` for Xoshiro256Plus: a generator
/// whose stream depends on `seed` alone.
#[verifier::external_body]
pub(crate) fn seeded_rng(seed: u64) -> (r: Xoshiro256Plus) {
    Xoshiro256Plus::seed_from_u64(seed)
}

/// Relies on `SeedableRng::from_os_rng` for Xoshiro256Plus: a generator
/// seeded from the operating system's entropy source.
#[verifier::external_body]
pub(crate) fn entropy_rng() -> (r: Xoshiro256Plus) {
    Xoshiro256Plus::from_os_rng()
}

/// Relies on `RngCore::next_u32` for Xoshiro256Plus: the next number of the
/// stream.
#[verifier::external_body]
pub(crate) fn next_draw(rng: &mut Xoshiro256Plus) -> (r: u32) {
    rng.next_u32()
}

} // verus!
