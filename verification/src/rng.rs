use vstd::prelude::*;

verus! {

#[verifier::external_type_specification]
#[verifier::external_body]
pub struct ExStdRng(rand::rngs::StdRng);

/// The i-th value that a `rand::rngs::StdRng` seeded from `seed` hands out
/// through `next_u32`. `StdRng` wraps the ChaCha12 stream cipher, a pure
/// function of its seed, and `seed_from_u64` expands the `u64` into that
/// seed by a fixed arithmetic recurrence, so the whole draw sequence is a
/// function of `seed` and the draw position alone.
pub uninterp spec fn stream_u32(seed: u64, i: nat) -> u32;

/// A `StdRng` together with the seed it was built from and a ghost count of
/// the draws taken so far, so that contracts can pin every draw to
/// `stream_u32` of the seed.
pub struct SeededRng {
    inner: rand::rngs::StdRng,
    seed_value: u64,
    drawn_count: Ghost<nat>,
}

/// Relies on `rand::SeedableRng::seed_from_u64` for `StdRng`: it expands the
/// `u64` deterministically into the generator's state, so a fixed seed fixes
/// the whole draw sequence.
#[verifier::external_body]
fn rng_from_seed(seed: u64) -> rand::rngs::StdRng {
    <rand::rngs::StdRng as rand::SeedableRng>::seed_from_u64(seed)
}

impl SeededRng {
    /// The seed this generator was constructed from.
    pub closed spec fn seed(&self) -> u64 {
        self.seed_value
    }

    /// How many values have been drawn since construction.
    pub closed spec fn drawn(&self) -> nat {
        self.drawn_count@
    }

    pub fn new(seed: u64) -> (r: SeededRng)
        ensures
            r.seed() == seed,
            r.drawn() == 0,
    {
        SeededRng { inner: rng_from_seed(seed), seed_value: seed, drawn_count: Ghost(0nat) }
    }

    /// Relies on `rand::Rng::next_u32` for `StdRng`: the value returned and
    /// the successor state are deterministic functions of the current state,
    /// which `SeededRng` fixes to be the state after `self.drawn()` draws from
    /// `self.seed()`; so the value returned is `stream_u32` at that position.
    #[verifier::external_body]
    pub fn next_u32(&mut self) -> (v: u32)
        ensures
            final(self).seed() == old(self).seed(),
            final(self).drawn() == old(self).drawn() + 1,
            v == stream_u32(old(self).seed(), old(self).drawn()),
    {
        rand::Rng::next_u32(&mut self.inner)
    }
}

} // verus!
