//! The trusted boundary to the random-number generator. The engine only
//! requires a source of uniform randomness; everything decided from a drawn
//! value is verified for every value the draw could produce.

use vstd::prelude::*;

use rand::rngs::SmallRng;
use rand::Rng;

verus! {

#[verifier::external_type_specification]
#[verifier::external_body]
pub struct ExSmallRng(SmallRng);

/// Relies on rand's `Rng::random_range` over `0..len`: a uniformly
/// distributed index below `len`. It panics only on an empty range, which
/// the precondition rules out.
#[verifier::external_body]
pub(crate) fn rand_index(rng: &mut SmallRng, len: usize) -> (r: usize)
    requires
        len >= 1,
    ensures
        r < len,
{
    rng.random_range(0..len)
}

/// Relies on rand's `Rng::random_ratio` with ratio one in two: a fair coin
/// flip. With arguments `(1, 2)` it never fails and draws exactly one value
/// from the generator.
#[verifier::external_body]
pub(crate) fn coin_flip(rng: &mut SmallRng) -> (r: bool) {
    rng.random_ratio(1, 2)
}

/// Relies on rand's `SeedableRng::from_rng`: a fresh generator seeded from
/// the thread-local one. Nothing can be promised of its draws.
#[verifier::external_body]
pub(crate) fn small_rng_from_thread() -> (r: SmallRng) {
    rand::SeedableRng::from_rng(&mut rand::rng())
}

/// Relies on `rand::rng` (the thread-local generator) and
/// `Rng::random_range`: a uniformly distributed index below `len` drawn from
/// an OS-seeded generator. It panics only on an empty range, which the
/// precondition rules out.
#[verifier::external_body]
pub(crate) fn thread_index(len: usize) -> (r: usize)
    requires
        len >= 1,
    ensures
        r < len,
{
    rand::rng().random_range(0..len)
}

} // verus!
