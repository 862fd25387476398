//! The random choices the game and the search make, drawn from the `rand`
//! crate.

use crate::cards::{card_views, Card};
use rand::rngs::StdRng;
use rand::seq::SliceRandom;
use rand::{Rng, SeedableRng};
use vstd::prelude::*;

verus! {

/// The standard generator of the `rand` crate, `rand::rngs::StdRng`. Nothing
/// is known of what it holds.
#[verifier::external_type_specification]
#[verifier::external_body]
pub struct ExStdRng(rand::rngs::StdRng);

/// `StdRng::seed_from_u64`: a generator whose stream is fixed by the seed.
/// Nothing is claimed of the generator.
#[verifier::external_body]
fn std_rng_from_seed(seed: u64) -> StdRng {
    StdRng::seed_from_u64(seed)
}

/// `StdRng::from_entropy`: a generator seeded by the operating system.
/// Nothing is claimed of the generator. The call gives up only where the
/// operating system has no entropy to give, whatever the caller does.
#[verifier::external_body]
fn std_rng_from_entropy() -> StdRng {
    StdRng::from_entropy()
}

/// `Rng::gen_range` on the half-open range from zero to `bound`, which must
/// not be empty. Whatever the generator's state, the number drawn lies in the
/// range.
#[verifier::external_body]
fn std_rng_below(rng: &mut StdRng, bound: usize) -> (pick: usize)
    requires
        bound > 0,
    ensures
        pick < bound,
{
    rng.gen_range(0..bound)
}

/// `SliceRandom::shuffle` with the thread-local generator of
/// `rand::thread_rng`: the cards are permuted in place by swaps, so the same
/// cards are there afterwards, each as often as before. Which order comes
/// out is left open.
#[verifier::external_body]
pub(crate) fn shuffle_cards(cards: &mut Vec<Card>)
    ensures
        final(cards)@.len() == old(cards)@.len(),
        card_views(final(cards)@).to_multiset() == card_views(old(cards)@).to_multiset(),
{
    cards.shuffle(&mut rand::thread_rng());
}

/// A source of random numbers. Two sources made from the same seed give the
/// same numbers in the same order, which makes a search repeatable.
pub struct RandomSource {
    rng: StdRng,
}

impl RandomSource {
    /// A source whose numbers are fixed by the seed.
    pub fn from_seed(seed: u64) -> RandomSource {
        RandomSource { rng: std_rng_from_seed(seed) }
    }

    /// A source seeded by the operating system.
    pub fn from_entropy() -> RandomSource {
        RandomSource { rng: std_rng_from_entropy() }
    }

    /// A number below `bound`, or nothing when `bound` is zero.
    pub fn below(&mut self, bound: usize) -> (pick: Option<usize>)
        ensures
            bound == 0 <==> pick is None,
            pick matches Some(i) ==> i < bound,
    {
        if bound == 0 {
            None
        } else {
            Some(std_rng_below(&mut self.rng, bound))
        }
    }
}

} // verus!
