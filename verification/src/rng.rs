//! Seeded pseudo-random draws used by the engines' randomized choices.
use rand::rngs::SmallRng;
use rand::Rng;
use rand::SeedableRng;
use vstd::prelude::*;

verus! {

/// The small fast generator of `rand`, seeded from a `u64`.
#[verifier::external_type_specification]
#[verifier::external_body]
pub struct ExSmallRng(SmallRng);

/// `SmallRng::seed_from_u64`: a generator seeded from `seed`. Nothing is claimed about
/// the stream it yields (the algorithm is not guaranteed stable across platforms or
/// versions).
#[verifier::external_body]
pub(crate) fn seeded(seed: u64) -> SmallRng {
    SmallRng::seed_from_u64(seed)
}

/// `Rng::gen_range(0..n)`: a value below `n`; the range must not be empty (it panics
/// on an empty range). Which value is not claimed.
#[verifier::external_body]
pub(crate) fn below(rng: &mut SmallRng, n: usize) -> (r: usize)
    requires
        n > 0,
    ensures
        r < n,
{
    rng.gen_range(0..n)
}

} // verus!
