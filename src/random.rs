use rand::Rng;
use rand::SeedableRng;
use vstd::prelude::*;

verus! {

/// The seeded generator that drives weighted choice and tie-breaking.
#[verifier::external_type_specification]
#[verifier::external_body]
pub struct ExStdRng(rand::rngs::StdRng);

/// Relies on `rand::SeedableRng::seed_from_u64` for `StdRng`: a generator whose stream is
/// fixed by the seed.
#[verifier::external_body]
pub fn seeded_rng(seed: u64) -> (r: rand::rngs::StdRng) {
    rand::rngs::StdRng::seed_from_u64(seed)
}

/// Relies on `rand::Rng::gen_range` over `0..bound`: a value below `bound` (it panics on an
/// empty range, hence the requirement).
#[verifier::external_body]
pub fn draw_below(rng: &mut rand::rngs::StdRng, bound: u64) -> (r: u64)
    requires
        bound > 0,
    ensures
        r < bound,
{
    rng.gen_range(0..bound)
}

} // verus!
