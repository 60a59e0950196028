//! A deterministic pseudo-random generator seeded from a 64-bit value.
//!
//! The generator's draws are modelled as an uninterpreted function of the
//! seed and of the bounds of every draw made so far: the outside generator is
//! a pure algorithm, so the whole draw history determines each next draw.

use vstd::prelude::*;

verus! {

#[verifier::external_type_specification]
#[verifier::external_body]
pub struct ExStdRng(rand::rngs::StdRng);

/// The value drawn below `bound` by a generator seeded with `seed` whose
/// previous draws had the bounds `prev`, in order.
pub uninterp spec fn rng_draw(seed: u64, prev: Seq<u32>, bound: u32) -> u32;

/// Relies on rand's StdRng::seed_from_u64: builds the generator whose draws
/// are a deterministic, platform-independent function of the seed.
#[verifier::external_body]
fn std_rng_from_seed(seed: u64) -> rand::rngs::StdRng {
    <rand::rngs::StdRng as rand::SeedableRng>::seed_from_u64(seed)
}

/// A generator with its seed and the bounds of its past draws as ghost state.
pub struct SeededRng {
    inner: rand::rngs::StdRng,
    seed: Ghost<u64>,
    hist: Ghost<Seq<u32>>,
}

impl SeededRng {
    pub closed spec fn seed(self) -> u64 {
        self.seed@
    }

    pub closed spec fn hist(self) -> Seq<u32> {
        self.hist@
    }

    /// A fresh generator seeded with `seed`, with no draws made yet.
    pub fn from_seed(seed: u64) -> (r: SeededRng)
        ensures
            r.seed() == seed,
            r.hist() == Seq::<u32>::empty(),
    {
        SeededRng { inner: std_rng_from_seed(seed), seed: Ghost(seed), hist: Ghost(Seq::empty()) }
    }

    /// Relies on rand's Rng::gen_range over `0..n`: a value below `n`,
    /// determined by the generator's seed and the bounds of its past draws;
    /// the call panics on an empty range, so `n` must be positive.
    #[verifier::external_body]
    pub fn gen_below(&mut self, n: u32) -> (r: u32)
        requires
            n > 0,
        ensures
            r == rng_draw(old(self).seed(), old(self).hist(), n),
            r < n,
            final(self).seed() == old(self).seed(),
            final(self).hist() == old(self).hist().push(n),
    {
        rand::Rng::gen_range(&mut self.inner, 0..n)
    }
}

} // verus!
