//! Trusted boundary around the PCG-64 pseudo-random number generator.
//!
//! The table builder and the shuffled pixel traverser draw their randomness
//! from `rand_pcg::Pcg64`. Every correctness contract downstream holds for
//! every possible draw; on top of that, the generator is documented
//! value-stable across platforms, so its draw stream and the shuffle it
//! drives are given names (`pcg64_draw`, `shuffled_of`), and the outputs
//! built from them become functions of their seeds. Nothing is claimed
//! about *which* values the names denote.

use vstd::prelude::*;

use rand::seq::SliceRandom;
use rand::Rng;
use rand::SeedableRng;

verus! {

/// `rand_pcg::Pcg64` (an alias of `Lcg128Xsl64`) is opaque to the verifier;
/// values of it are only created, advanced and consumed by the wrappers below.
#[verifier::external_type_specification]
#[verifier::external_body]
pub struct ExLcg128Xsl64(rand_pcg::Lcg128Xsl64);

/// The `index`-th 64-bit draw of a PCG-64 generator seeded with `seed`.
/// The generator and its seeding are documented value-stable, so the
/// stream is a function of the seed alone, identical on every platform.
pub uninterp spec fn pcg64_draw(seed: u64, index: int) -> u64;

/// A seeded generator carrying its seed and the count of draws already
/// served, so that callers can speak of each draw as a value of the named
/// stream. Only the constructor builds one, which ties the recorded seed
/// to the generator's.
pub struct SeededRng {
    rng: rand_pcg::Pcg64,
    seed: u64,
    draws: u64,
}

impl SeededRng {
    pub closed spec fn seed_spec(&self) -> u64 {
        self.seed
    }

    pub closed spec fn draws_spec(&self) -> int {
        self.draws as int
    }

    /// Relies on `rand::SeedableRng::seed_from_u64` for `rand_pcg::Pcg64`:
    /// builds the generator whose draws `pcg64_draw(seed, ..)` names,
    /// positioned before its first draw.
    #[verifier::external_body]
    pub(crate) fn new(seed: u64) -> (r: SeededRng)
        ensures
            r.seed_spec() == seed,
            r.draws_spec() == 0,
    {
        SeededRng { rng: rand_pcg::Pcg64::seed_from_u64(seed), seed, draws: 0 }
    }

    /// Relies on `rand::Rng::gen::<u64>` for `rand_pcg::Pcg64`: returns the
    /// next draw of the stream, which the documentation fixes as a function
    /// of the seed and the position alone.
    #[verifier::external_body]
    pub(crate) fn next_u64(&mut self) -> (r: u64)
        requires
            old(self).draws_spec() < 0xFFFF_FFFF_FFFF_FFFF,
        ensures
            final(self).seed_spec() == old(self).seed_spec(),
            final(self).draws_spec() == old(self).draws_spec() + 1,
            r == pcg64_draw(old(self).seed_spec(), old(self).draws_spec()),
    {
        let value = self.rng.gen::<u64>();
        self.draws = self.draws + 1;
        value
    }
}

/// The permutation `rand`'s shuffle produces over `values` when driven by a
/// fresh PCG-64 generator seeded with `seed`. Both the generator and the
/// shuffle are documented value-stable across platforms, so the result is a
/// function of the input and the seed alone.
pub uninterp spec fn shuffled_of(values: Seq<usize>, seed: u64) -> Seq<usize>;

/// Relies on `rand::SeedableRng::seed_from_u64` and
/// `rand::seq::SliceRandom::shuffle` for `rand_pcg::Pcg64`: a generator
/// fresh from the seed drives one in-place Fisher-Yates pass of swaps, so
/// the multiset of elements is unchanged and, both functions being
/// documented value-stable (the shuffle samples indices 32-bit wide exactly
/// so that 32- and 64-bit platforms agree), the result is the permutation
/// named by `shuffled_of`.
#[verifier::external_body]
pub(crate) fn shuffle_values_seeded(values: &mut Vec<usize>, seed: u64)
    ensures
        final(values)@ == shuffled_of(old(values)@, seed),
        final(values)@.to_multiset() == old(values)@.to_multiset(),
        final(values)@.len() == old(values)@.len(),
{
    values.as_mut_slice().shuffle(&mut rand_pcg::Pcg64::seed_from_u64(seed))
}

} // verus!
