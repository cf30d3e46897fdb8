//! The random generator. A seed fixes the generator; what the generator
//! hands out is not predicted here: the functions that use it state what
//! holds of every outcome.

use vstd::prelude::*;
use rand::Rng;
use rand::SeedableRng;
use rand::seq::SliceRandom;
use rand_pcg::Pcg64;

verus! {

/// The generator of `rand_pcg`, carried through as an opaque value.
#[verifier::external_type_specification]
#[verifier::external_body]
pub struct ExLcg128Xsl64(rand_pcg::Lcg128Xsl64);

/// The generator that `SeedableRng::seed_from_u64` of `Pcg64` makes of a
/// seed.
pub uninterp spec fn seeded_generator(seed: u64) -> Pcg64;

/// `SeedableRng::seed_from_u64` of `Pcg64`: the seed is spread over the
/// state of the generator by fixed arithmetic, so the generator is a
/// function of the seed alone and goes by the name `seeded_generator`.
/// Nothing is claimed of what that generator hands out.
#[verifier::external_body]
fn seeded(seed: u64) -> (r: Pcg64)
    ensures
        r == seeded_generator(seed),
{
    Pcg64::seed_from_u64(seed)
}

/// `SeedableRng::from_rng` of `Pcg64` on `rand::thread_rng()`: a generator
/// seeded by the process, or nothing where the source of entropy fails.
#[verifier::external_body]
fn unseeded() -> Option<Pcg64> {
    Pcg64::from_rng(rand::thread_rng()).ok()
}

/// `SliceRandom::shuffle` of a slice: it swaps elements in place, so what
/// comes out is a rearrangement of what went in.
#[verifier::external_body]
pub(crate) fn shuffle(items: &mut Vec<usize>, rng: &mut Pcg64)
    ensures
        final(items)@.to_multiset() == old(items)@.to_multiset(),
{
    items.shuffle(rng);
}

/// `Rng::gen_range(0, bound)`: a value of the half-open range from 0 to
/// `bound`. The call panics on an empty range, which `requires` leaves out.
#[verifier::external_body]
pub(crate) fn draw_below(rng: &mut Pcg64, bound: usize) -> (r: usize)
    requires
        bound > 0,
    ensures
        r < bound,
{
    rng.gen_range(0, bound)
}

/// The generator of a run. With a seed there always is one, and it is the
/// generator that the seed stands for: the same for the same seed, in every
/// run. Without a seed the generator is seeded by the process, and there is
/// none where the process cannot give a seed.
pub fn generator(seed: Option<u64>) -> (r: Option<Pcg64>)
    ensures
        seed is Some ==> r == Some(seeded_generator(seed->Some_0)),
{
    match seed {
        Some(s) => Some(seeded(s)),
        None => unseeded(),
    }
}

} // verus!
