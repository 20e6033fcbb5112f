//! A seeded source of random numbers, backed by `rand`'s `SmallRng`.
use rand::rngs::SmallRng;
use rand::{Rng, SeedableRng};
use vstd::prelude::*;

verus! {

/// `rand::rngs::SmallRng`, carried through the library as an opaque value.
#[verifier::external_type_specification]
#[verifier::external_body]
pub struct ExSmallRng(SmallRng);

/// Seeds a generator.
///
/// Trusted: calls `SmallRng::seed_from_u64`. Nothing is claimed of the
/// generator it returns (rand documents its output as not portable).
#[verifier::external_body]
fn small_rng_from_seed(seed: u64) -> SmallRng {
    SmallRng::seed_from_u64(seed)
}

/// Draws an integer in `0..bound`.
///
/// Trusted: calls `Rng::random_range(0..bound)`, which rand documents as
/// generating a value in the given range and panicking only if the range is
/// empty; `bound > 0` rules that out. Which value comes out depends on the
/// generator's state: only the range is claimed.
#[verifier::external_body]
fn random_below(rng: &mut SmallRng, bound: u64) -> (r: u64)
    requires
        bound > 0,
    ensures
        r < bound,
{
    rng.random_range(0..bound)
}

/// A seeded sequence of random draws.
pub struct RngSeq {
    rng: SmallRng,
    /// The draws made so far, in order.
    drawn: Ghost<Seq<u64>>,
}

impl RngSeq {
    /// The draws made so far from this sequence, in order.
    pub closed spec fn history(&self) -> Seq<u64> {
        self.drawn@
    }

    /// A sequence seeded with `seed`, from which nothing has been drawn yet.
    pub fn from(seed: u64) -> (r: RngSeq)
        ensures
            r.history() == Seq::<u64>::empty(),
    {
        RngSeq { rng: small_rng_from_seed(seed), drawn: Ghost(Seq::empty()) }
    }

    /// The next draw, an integer in `0..bound`, recorded after the earlier ones.
    pub fn next_below(&mut self, bound: u64) -> (r: u64)
        requires
            bound > 0,
        ensures
            r < bound,
            final(self).history() == old(self).history().push(r),
    {
        let r = random_below(&mut self.rng, bound);
        proof {
            self.drawn = Ghost(self.drawn@.push(r));
        }
        r
    }
}

} // verus!
