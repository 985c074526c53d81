//! The random number generator of a worker.
//!
//! The generator is `rand::StdRng`. Verus sees nothing inside it: the items of
//! this file say what is taken on trust of the calls into `rand`, and the rest
//! of the crate is proved from that.
//!
//! The generator is seeded, so that what it gives next follows from the state
//! it is in and from nothing else. Each call has a name for what it gives and
//! for the state it leaves the generator in. Which numbers these are is not
//! said; that one state gives them each time is all that is claimed.

use vstd::prelude::*;
use rand::{Rng, SeedableRng, StdRng};

verus! {

/// `rand::StdRng`, the generator itself. It is handed on as it is: nothing in
/// this crate looks inside.
#[verifier::external_type_specification]
#[verifier::external_body]
pub struct ExStdRng(StdRng);

/// What `Rng::gen_range` gives for a generator in the state `rng`: the number
/// drawn, and the state of the generator after the draw.
pub uninterp spec fn range_draw(rng: StdRng, low: usize, high: usize) -> (usize, StdRng);

/// `Rng::gen_range`: a number from `low` up to, and not including, `high`,
/// drawn from the state of the generator alone. The call panics where
/// `low >= high`, so those arguments are left out.
#[verifier::external_body]
pub(crate) fn gen_range(rng: &mut StdRng, low: usize, high: usize) -> (x: usize)
    requires
        low < high,
    ensures
        low <= x < high,
        (x, *final(rng)) == range_draw(*old(rng), low, high),
{
    rng.gen_range(low, high)
}

/// What `Rng::next_u32` gives for a generator in the state `rng`: the bits
/// drawn, and the state of the generator after the draw.
pub uninterp spec fn bits_draw(rng: StdRng) -> (u32, StdRng);

/// `Rng::next_u32`: the next 32 bits of the generator, drawn from its state
/// alone. Nothing is claimed of the bits.
#[verifier::external_body]
pub(crate) fn next_u32(rng: &mut StdRng) -> (bits: u32)
    ensures
        (bits, *final(rng)) == bits_draw(*old(rng)),
{
    rng.next_u32()
}

/// What `Rng::shuffle` makes of `values` for a generator in the state `rng`:
/// the values in their new order, and the state of the generator afterwards.
pub uninterp spec fn shuffled(rng: StdRng, values: Seq<usize>) -> (Seq<usize>, StdRng);

/// `Rng::shuffle`: reorders the values in place by swaps, so that the same
/// values are there afterwards, each as often as before. The order follows
/// from the values and the state of the generator alone.
#[verifier::external_body]
pub(crate) fn shuffle(rng: &mut StdRng, values: &mut Vec<usize>)
    ensures
        final(values)@.to_multiset() == old(values)@.to_multiset(),
        (final(values)@, *final(rng)) == shuffled(*old(rng), old(values)@),
{
    rng.shuffle(values)
}

/// The generator that `StdRng::from_seed` makes of the words of `seed`. The
/// same seed gives the same generator each time, and with it the same
/// numbers in the same order; what these numbers are is not said.
pub uninterp spec fn seeded_generator(seed: Seq<usize>) -> StdRng;

/// The generator of worker `worker` in a run that was started with
/// `base_seed`: it is seeded with the one word `worker_seed(base_seed,
/// worker)`, so that each worker has a generator of its own and a run can be
/// repeated with the same seed.
pub fn worker_rng(base_seed: usize, worker: usize) -> (rng: StdRng)
    ensures
        rng == seeded_generator(seq![worker_seed(base_seed, worker)]),
{
    let mut seed: Vec<usize> = Vec::new();
    seed.push(base_seed.wrapping_add(worker));
    assert(seed@ =~= seq![worker_seed(base_seed, worker)]);
    rng_from_seed(seed.as_slice())
}

/// The seed of worker `worker` in a run that was started with `base_seed`:
/// the sum of the two, which starts again at 0 where it passes what the
/// machine's word holds.
pub open spec fn worker_seed(base_seed: usize, worker: usize) -> usize {
    if base_seed + worker > usize::MAX {
        (base_seed + worker - usize::MAX - 1) as usize
    } else {
        (base_seed + worker) as usize
    }
}

/// `StdRng::from_seed`: a generator whose state is filled from the words of
/// `seed`, and from nothing else. Nothing is claimed of the numbers it will
/// give.
#[verifier::external_body]
pub(crate) fn rng_from_seed(seed: &[usize]) -> (rng: StdRng)
    ensures
        rng == seeded_generator(seed@),
{
    StdRng::from_seed(seed)
}

} // verus!
