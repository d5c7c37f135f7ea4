//! The random source: a small, fast generator of the `rand` crate, reached
//! through two calls whose contracts are taken on trust.

use vstd::prelude::*;
use rand::rngs::{OsRng, SmallRng};
use rand::{Rng, SeedableRng};

verus! {

/// `rand::rngs::SmallRng`, carried through the kernel as an opaque value.
#[verifier::external_type_specification]
#[verifier::external_body]
pub struct ExSmallRng(SmallRng);

/// Calls `SmallRng::from_rng` on `OsRng`, which seeds a fresh generator
/// from the operating system and fails where that cannot supply a seed.
/// Nothing is claimed: neither that a generator comes back, nor anything of
/// the generator that does.
#[verifier::external_body]
pub(crate) fn entropy_rng() -> Option<SmallRng> {
    SmallRng::from_rng(OsRng).ok()
}

/// Calls `Rng::gen_range` on the half-open range from zero to `bound`, which
/// is empty, and makes the call panic, only when `bound` is zero. The claim:
/// the draw lies in that range. Which value it is depends on the generator's
/// state, of which nothing is said.
#[verifier::external_body]
pub(crate) fn random_below(rng: &mut SmallRng, bound: u64) -> (draw: u64)
    requires
        bound > 0,
    ensures
        draw < bound,
{
    rng.gen_range(0..bound)
}

} // verus!
