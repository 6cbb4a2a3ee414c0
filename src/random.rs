use vstd::prelude::*;

use rand::Rng;
use rand::SeedableRng;
use rand_xoshiro::Xoshiro256PlusPlus;

verus! {

/// The xoshiro256++ generator of rand_xoshiro, carried through as an opaque value.
#[verifier::external_type_specification]
#[verifier::external_body]
pub struct ExXoshiro256PlusPlus(Xoshiro256PlusPlus);

/// Relies on rand_xoshiro's `SeedableRng::seed_from_u64` for
/// `Xoshiro256PlusPlus`, which fills the generator's state from the seed with
/// SplitMix64. Nothing is stated of the generator it returns.
#[verifier::external_body]
pub(crate) fn seeded_generator(seed: u64) -> (r: Xoshiro256PlusPlus) {
    Xoshiro256PlusPlus::seed_from_u64(seed)
}

/// Relies on rand's `Rng::gen_range(low, high)`: a value in `[low, high)`; it
/// panics only when `low >= high`, which `requires` rules out.
#[verifier::external_body]
pub(crate) fn draw_below(rng: &mut Xoshiro256PlusPlus, bound: usize) -> (r: usize)
    requires
        bound > 0,
    ensures
        r < bound,
{
    rng.gen_range(0, bound)
}

} // verus!
