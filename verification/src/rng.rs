//! Trusted boundary to the `rand` crate.  The board owns a `StdRng` stream;
//! everything random in the library is drawn through the wrappers below.

use rand::Rng;
use rand::RngCore;
use rand::SeedableRng;
use vstd::prelude::*;

verus! {

#[verifier::external_type_specification]
#[verifier::external_body]
pub struct ExStdRng(rand::rngs::StdRng);

/// Relies on rand's `StdRng::from_entropy` for a freshly seeded generator.
/// Nothing is promised of the stream it produces.  It aborts only if the
/// operating system cannot supply entropy at all.
#[verifier::external_body]
pub(crate) fn fresh_rng() -> rand::rngs::StdRng {
    rand::rngs::StdRng::from_entropy()
}

/// Relies on rand's `RngCore::next_u64`; the value is random, so nothing is
/// promised of it.
#[verifier::external_body]
pub(crate) fn rng_next(rng: &mut rand::rngs::StdRng) -> u64 {
    rng.next_u64()
}

/// Relies on rand's `StdRng::seed_from_u64` to derive a generator from a
/// 64-bit seed.  Nothing is promised of the stream it produces.
#[verifier::external_body]
pub(crate) fn seed_rng(seed: u64) -> rand::rngs::StdRng {
    rand::rngs::StdRng::seed_from_u64(seed)
}

/// Relies on rand's `Rng::gen_range`, which returns a value of the given
/// range and panics only when the range is empty.
#[verifier::external_body]
pub(crate) fn rng_below(rng: &mut rand::rngs::StdRng, n: usize) -> (r: usize)
    requires
        n > 0,
    ensures
        r < n,
{
    rng.gen_range(0..n)
}

} // verus!
