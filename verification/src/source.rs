//! Sources of uniform draws.
use rand::Rng;
use rand::StdRng;
use rand::ThreadRng;
use vstd::prelude::*;
use crate::binary64::is_unit;

verus! {

/// A source of random numbers, drawn uniformly from the half-open interval
/// from 0.0 to 1.0.
pub trait UniformSource: Sized {
    /// What one draw can do: the source hands out `bits` and is `after`
    /// when it has done so. Of a source whose draws cannot be foretold this
    /// holds of every draw and every `after`; of one whose draws follow from
    /// its state, of one draw and one `after` only.
    spec fn gives(&self, bits: u64, after: &Self) -> bool;

    /// The next draw, as a binary64 pattern.
    fn next_uniform(&mut self) -> (bits: u64)
        ensures
            is_unit(bits),
            (*old(self)).gives(bits, &*final(self)),
    ;
}

/// The draw that `Rng::next_f64` hands out on a `rand::StdRng`, as a bit
/// pattern. The generator's state decides it.
pub uninterp spec fn seeded_bits(rng: StdRng) -> u64;

/// The `rand::StdRng` that `Rng::next_f64` leaves behind. The generator's
/// state before decides it.
pub uninterp spec fn seeded_next(rng: StdRng) -> StdRng;

/// `rand::ThreadRng`, the generator that each thread has for itself and that
/// the system seeds.
#[verifier::external_type_specification]
#[verifier::external_body]
pub struct ExThreadRng(ThreadRng);

/// `rand::StdRng`, the generator that a caller can seed.
#[verifier::external_type_specification]
#[verifier::external_body]
pub struct ExStdRng(StdRng);

/// `rand::thread_rng` hands out the calling thread's generator. Nothing is
/// claimed of it. Where the system has no entropy to seed the generator
/// with, the call panics.
pub assume_specification[ rand::thread_rng ]() -> (rng: ThreadRng)
;

/// `Rng::next_f64` on `rand::ThreadRng`, which documents that its result lies
/// in the half-open interval from 0.0 to 1.0: it sets the exponent of 1.0
/// over fifty-two random bits of fraction, which is a number from 1.0 up to
/// but not 2.0, and takes 1.0 off. The claim is that interval, of the
/// result's bit pattern. The generator seeds itself anew from time to time,
/// and panics where the system then has no entropy for it.
#[verifier::external_body]
fn thread_draw(rng: &mut ThreadRng) -> (bits: u64)
    ensures
        is_unit(bits),
{
    rng.next_f64().to_bits()
}

/// `Rng::next_f64` on `rand::StdRng`, with the same claim of the interval:
/// the bit pattern of the result is that of a number from 0.0 up to but not
/// 1.0. The generator takes its next word from its own table of results,
/// which it fills anew from its own state when the table is used up; it
/// reads nothing else. So the claim is also that the generator before the
/// call decides both the draw and the generator after it.
#[verifier::external_body]
fn seeded_draw(rng: &mut StdRng) -> (bits: u64)
    ensures
        is_unit(bits),
        bits == seeded_bits(*old(rng)),
        *final(rng) == seeded_next(*old(rng)),
{
    rng.next_f64().to_bits()
}

impl UniformSource for ThreadRng {
    /// The thread's generator may hand out any number of the interval.
    open spec fn gives(&self, bits: u64, after: &Self) -> bool {
        is_unit(bits)
    }

    fn next_uniform(&mut self) -> (bits: u64) {
        thread_draw(self)
    }
}

impl UniformSource for StdRng {
    /// A seeded generator hands out the one draw that its state decides.
    open spec fn gives(&self, bits: u64, after: &Self) -> bool {
        &&& bits == seeded_bits(*self)
        &&& *after == seeded_next(*self)
    }

    fn next_uniform(&mut self) -> (bits: u64) {
        seeded_draw(self)
    }
}

} // verus!
