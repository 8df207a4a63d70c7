//! The random draws the search is built on, taken from the `rand` crate.
//!
//! Nothing here is proved: each contract records what the generator's source
//! guarantees of every outcome, and the rest of the library is verified
//! against these contracts alone.

use rand::Rng;
use vstd::prelude::*;

verus! {

/// Handle to the calling thread's generator.
#[verifier::external_type_specification]
#[verifier::external_body]
pub struct ExThreadRng(rand::ThreadRng);

/// `rand::thread_rng` hands out the calling thread's generator. Nothing is
/// claimed of the handle. The call gives up only when the system offers no
/// entropy to seed the generator with.
pub assume_specification[ rand::thread_rng ]() -> (rng: rand::ThreadRng)
;

/// `rand::sample` over the positions `0..count`. A reservoir of `amount`
/// slots is filled with the first positions, and each later position may
/// replace a random slot. So what comes back is `amount` different positions
/// below `count`, or all `count` of them where there are fewer. Which ones is
/// left open. The reservoir is allocated up front, hence the bound on
/// `amount`.
#[allow(deprecated)]
#[verifier::external_body]
pub(crate) fn sample_positions(rng: &mut rand::ThreadRng, count: usize, amount: usize) -> (picked:
    Vec<usize>)
    requires
        amount <= usize::MAX / 16,
    ensures
        picked@.len() == if amount <= count { amount } else { count },
        forall|i: int| 0 <= i < picked@.len() ==> picked@[i] < count,
        forall|i: int, j: int| 0 <= i < j < picked@.len() ==> picked@[i] != picked@[j],
{
    rand::sample(rng, 0..count, amount)
}

/// `Rng::gen_range` draws a value from `low` up to but excluding `high`, and
/// refuses an empty range. Which value is left open.
#[verifier::external_body]
pub(crate) fn draw_between(rng: &mut rand::ThreadRng, low: u32, high: u32) -> (value: u32)
    requires
        low < high,
    ensures
        low <= value < high,
{
    rng.gen_range(low, high)
}

/// `Rng::gen` for `bool`: a coin toss. Nothing is claimed of the side that
/// comes up.
#[verifier::external_body]
pub(crate) fn toss(rng: &mut rand::ThreadRng) -> (heads: bool)
{
    rng.gen()
}

} // verus!
