//! The random source and the draws the library takes from it.
//!
//! The generator is `rand`'s `StdRng`. Verification cannot look inside it, so
//! each draw goes through a small function whose contract states only what
//! `rand` documents of every outcome.

use rand::distributions::{Distribution, Uniform};
use rand::rngs::StdRng;
use rand::seq::SliceRandom;
use rand::Rng;
use vstd::prelude::*;

verus! {

/// `rand`'s standard generator. Its state is opaque here: a draw may give any
/// value that the contract of the drawing function allows.
#[verifier::external_type_specification]
#[verifier::external_body]
pub struct ExStdRng(StdRng);

/// A probability, held as the ratio `numerator / denominator` of two integers
/// with `numerator <= denominator` and `denominator > 0`.
#[derive(Clone, Copy, Debug)]
pub struct Probability {
    numerator: u32,
    denominator: u32,
}

impl Probability {
    #[verifier::type_invariant]
    spec fn is_ratio(self) -> bool {
        0 < self.denominator && self.numerator <= self.denominator
    }

    pub closed spec fn numerator(self) -> nat {
        self.numerator as nat
    }

    pub closed spec fn denominator(self) -> nat {
        self.denominator as nat
    }

    /// The event never happens.
    pub open spec fn is_never(self) -> bool {
        self.numerator() == 0
    }

    /// The event always happens.
    pub open spec fn is_certain(self) -> bool {
        self.numerator() == self.denominator()
    }

    /// The probability `numerator / denominator`, if that is a number in `[0, 1]`.
    pub fn new(numerator: u32, denominator: u32) -> (probability: Option<Probability>)
        ensures
            probability is Some <==> 0 < denominator && numerator <= denominator,
            probability matches Some(p) ==> p.numerator() == numerator && p.denominator()
                == denominator,
    {
        if 0 < denominator && numerator <= denominator {
            Some(Probability { numerator, denominator })
        } else {
            None
        }
    }
}

/// `Rng::gen_range` on `0..bound`: a uniformly drawn index below `bound`.
/// The range must not be empty, or `gen_range` panics.
#[verifier::external_body]
pub(crate) fn random_index(rng: &mut StdRng, bound: usize) -> (index: usize)
    requires
        bound > 0,
    ensures
        index < bound,
{
    rng.gen_range(0..bound)
}

/// One sample of `Uniform::from(0..bound)`: a uniformly drawn index below
/// `bound`. The range must not be empty, or `Uniform::from` panics.
#[verifier::external_body]
pub(crate) fn uniform_index(rng: &mut StdRng, bound: usize) -> (index: usize)
    requires
        bound > 0,
    ensures
        index < bound,
{
    Uniform::from(0..bound).sample(rng)
}

/// `Rng::gen_ratio`: true with probability `numerator / denominator`. `rand`
/// documents that the result is always false for a numerator of zero and
/// always true where numerator and denominator are equal, and that it panics
/// unless `numerator <= denominator` and `denominator > 0`.
#[verifier::external_body]
fn ratio_draw(rng: &mut StdRng, numerator: u32, denominator: u32) -> (hit: bool)
    requires
        0 < denominator,
        numerator <= denominator,
    ensures
        numerator == 0 ==> !hit,
        numerator == denominator ==> hit,
{
    rng.gen_ratio(numerator, denominator)
}

/// `SliceRandom::shuffle`: reorders the items in place by a sequence of swaps,
/// so the items after the call are those before it, each as often.
#[verifier::external_body]
pub(crate) fn shuffle(rng: &mut StdRng, items: &mut Vec<usize>)
    ensures
        final(items)@.to_multiset() == old(items)@.to_multiset(),
{
    items.shuffle(rng)
}

/// Decides an event of the given probability.
pub fn chance(rng: &mut StdRng, probability: Probability) -> (hit: bool)
    ensures
        probability.is_never() ==> !hit,
        probability.is_certain() ==> hit,
{
    proof {
        use_type_invariant(&probability);
    }
    ratio_draw(rng, probability.numerator, probability.denominator)
}

} // verus!
