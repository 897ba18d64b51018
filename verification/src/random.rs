use rand::distributions::{Distribution, Uniform};
use vstd::prelude::*;

verus! {

/// A number drawn at random below a bound, together with that bound. Its fields
/// are private to this module, so only [`random_below`] makes one: a `Draw`
/// held elsewhere came out of the generator.
pub(crate) struct Draw {
    value: usize,
    bound: usize,
}

impl Draw {
    /// The number drawn.
    pub(crate) closed spec fn drawn(&self) -> nat {
        self.value as nat
    }

    /// The bound the number was drawn below.
    pub(crate) closed spec fn range(&self) -> nat {
        self.bound as nat
    }

    /// The number drawn.
    pub(crate) fn value(&self) -> (v: usize)
        ensures
            v == self.drawn(),
    {
        self.value
    }
}

/// Draws a number from `0..bound` with `rand`'s `Uniform` distribution over the
/// thread's generator (`Uniform::from(0..bound).sample(&mut rand::thread_rng())`).
/// Claimed: the draw lies below `bound` (the sampler returns the low end, 0,
/// plus the high word of a widening product with the range's size, which lies
/// below that size), and the bound is kept beside it as given. Which number
/// comes out rests on chance and is not stated. `Uniform::from` panics on an
/// empty range, hence `bound > 0`.
#[verifier::external_body]
pub(crate) fn random_below(bound: usize) -> (d: Draw)
    requires
        bound > 0,
    ensures
        d.drawn() < bound,
        d.range() == bound,
{
    Draw { value: Uniform::from(0..bound).sample(&mut rand::thread_rng()), bound }
}

} // verus!
