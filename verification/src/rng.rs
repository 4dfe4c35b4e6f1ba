use vstd::prelude::*;
use rand::Rng;
use rand::SeedableRng;
use rand::seq::SliceRandom;

verus! {

#[verifier::external_type_specification]
#[verifier::external_body]
pub struct ExStdRng(rand::rngs::StdRng);

/// A per-maze source of randomness, backed by rand's standard
/// generator.  Each maze owns its own source, so independent mazes can
/// be stepped concurrently without sharing state.
pub struct MazeRng {
    inner: rand::rngs::StdRng,
}

impl MazeRng {
    /// Relies on rand's `SeedableRng::seed_from_u64` for `StdRng`:
    /// builds a generator from a 64-bit seed.
    #[verifier::external_body]
    pub(crate) fn seeded(seed: u64) -> MazeRng {
        MazeRng { inner: rand::rngs::StdRng::seed_from_u64(seed) }
    }

    /// Relies on rand's `SeedableRng::from_entropy` for `StdRng`:
    /// builds a generator from fresh system entropy.
    #[verifier::external_body]
    pub(crate) fn from_entropy() -> MazeRng {
        MazeRng { inner: rand::rngs::StdRng::from_entropy() }
    }

    /// Relies on rand's `Rng::gen_range` on the range `0..n`: the
    /// result lies in the range, and the call panics only on an empty
    /// range, which the precondition rules out.  Nothing is promised
    /// about which value comes back.
    #[verifier::external_body]
    pub(crate) fn index_below(&mut self, n: usize) -> (r: usize)
        requires
            n >= 1,
        ensures
            r < n,
    {
        self.inner.gen_range(0..n)
    }

    /// Relies on rand's `SliceRandom::shuffle`: the slice is permuted
    /// in place, so its length, its multiset of elements and hence
    /// membership are unchanged.  Nothing is promised about the order.
    #[verifier::external_body]
    pub(crate) fn shuffle_edges(&mut self, v: &mut Vec<(usize, usize, usize, usize)>)
        ensures
            final(v)@.to_multiset() == old(v)@.to_multiset(),
            final(v)@.len() == old(v)@.len(),
            forall|e: (usize, usize, usize, usize)|
                #![trigger final(v)@.contains(e)]
                final(v)@.contains(e) <==> old(v)@.contains(e),
    {
        v.shuffle(&mut self.inner);
    }
}

} // verus!
