//! Stochastic universal sampling: choosing items by their weights with one
//! turn of a wheel.
//!
//! The items lie as sectors on a wheel, each as wide as its weight, and `n`
//! spokes at equal distances are laid over it at a random offset. Each spoke
//! picks the sector it lies in. All `n` choices so come from one random
//! draw, and an item of weight `w` is chosen about `n * w / sum` times, never
//! much more and never much less.
//!
//! The weights are binary64 numbers and reach this crate as bit patterns. A
//! caller asks the sampler for its draw with [`RandomChoice::spin`], lays out
//! the wheel in its own arithmetic, with the running sums of the weights as
//! marks and with spokes from `draw * gap` on in steps of `gap = sum / n`,
//! and hands both to [`wheel::sample_by_weight`] or
//! [`wheel::resample_in_place`]. How the numbers are ordered is in
//! [`binary64`], what is picked in [`wheel`], how evenly in [`spread`].
use rand::StdRng;
use rand::ThreadRng;
use vstd::prelude::*;
use crate::binary64::is_unit;
use crate::source::UniformSource;

pub mod binary64;
pub mod source;
pub mod spread;
pub mod wheel;

verus! {

/// A sampler, with the source that its draws come from.
pub struct RandomChoice<RNG> {
    rng: RNG,
}

/// A sampler on the generator of the calling thread: its source is what
/// `rand::thread_rng` hands out.
pub fn random_choice() -> (sampler: RandomChoice<ThreadRng>)
    ensures
        call_ensures(rand::thread_rng, (), sampler.source()),
{
    RandomChoice::new(rand::thread_rng())
}

impl<RNG> RandomChoice<RNG> {
    /// The source that the sampler draws from.
    pub closed spec fn source(&self) -> RNG {
        self.rng
    }

    /// A sampler that draws from `rng`.
    pub fn new(rng: RNG) -> (sampler: Self)
        ensures
            sampler.source() == rng,
    {
        RandomChoice { rng }
    }
}

impl<RNG: UniformSource> RandomChoice<RNG> {
    /// Turns the wheel for `n` choices among `items` items: one draw of the
    /// source, which is left as that draw leaves it; or none, with the
    /// source untouched, where there is nothing to choose.
    pub fn spin(&mut self, items: usize, n: usize) -> (draw: Option<u64>)
        ensures
            draw.is_some() <==> items > 0 && n > 0,
            draw matches Some(bits) ==> is_unit(bits),
            draw matches Some(bits) ==> old(self).source().gives(bits, &final(self).source()),
            draw.is_none() ==> *final(self) == *old(self),
    {
        if items == 0 || n == 0 {
            None
        } else {
            Some(self.rng.next_uniform())
        }
    }

    /// Turns the wheel for resampling `items` items in place: one draw of
    /// the source, which is left as that draw leaves it; or none, with the
    /// source untouched, where there are fewer than two.
    pub fn spin_in_place(&mut self, items: usize) -> (draw: Option<u64>)
        ensures
            draw.is_some() <==> items >= 2,
            draw matches Some(bits) ==> is_unit(bits),
            draw matches Some(bits) ==> old(self).source().gives(bits, &final(self).source()),
            draw.is_none() ==> *final(self) == *old(self),
    {
        if items < 2 {
            None
        } else {
            Some(self.rng.next_uniform())
        }
    }
}

/// Seeded samplers repeat themselves: of two samplers on equal seeded
/// generators, each asked for one draw, both hand out the same draw and are
/// on equal generators again afterwards. Asked alike call after call, they
/// so hand out the same draws throughout.
pub proof fn lemma_seeded_samplers_repeat(
    first: RandomChoice<StdRng>,
    second: RandomChoice<StdRng>,
    first_draw: u64,
    second_draw: u64,
    first_after: RandomChoice<StdRng>,
    second_after: RandomChoice<StdRng>,
)
    requires
        first.source() == second.source(),
        first.source().gives(first_draw, &first_after.source()),
        second.source().gives(second_draw, &second_after.source()),
    ensures
        first_draw == second_draw,
        first_after.source() == second_after.source(),
{
}

} // verus!
