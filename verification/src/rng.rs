//! The engine's pseudo-random source: nanorand's WyRand generator, held
//! behind a handful of trusted declarations. The generator's state is opaque
//! to the proofs; all the engine relies on is that a ranged draw falls
//! inside its range.

use vstd::prelude::*;

verus! {

#[verifier::external_type_specification]
#[verifier::external_body]
pub struct ExWyRand(nanorand::WyRand);

/// Relies on nanorand's `WyRand::new_seed`: builds a generator from the
/// given seed. Equal seeds give equal draw sequences, which makes a run
/// reproducible.
#[verifier::external_body]
pub fn rng_from_seed(seed: u64) -> nanorand::WyRand {
    nanorand::WyRand::new_seed(seed)
}

/// Relies on nanorand's `Rng::generate_range` on `WyRand`: a draw from the
/// half-open range below `n`. The range is non-empty, so the call cannot
/// panic, and whatever the generator's state, the result is below `n`.
#[verifier::external_body]
pub fn rng_below(rng: &mut nanorand::WyRand, n: usize) -> (r: usize)
    requires
        n > 0,
    ensures
        r < n,
{
    nanorand::Rng::generate_range(rng, 0..n)
}

/// Relies on nanorand's `tls_rng`: one draw from the entropy-seeded
/// thread-local generator, used only to seed an engine that was not handed
/// an explicit seed. Nothing is assumed of the value.
#[verifier::external_body]
pub fn entropy_seed() -> u64 {
    nanorand::Rng::generate::<u64>(&mut nanorand::tls_rng())
}

} // verus!
