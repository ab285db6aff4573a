//! The source of randomness: the thread-local generator of the `rand` crate.
//! What is stated here of that crate is believed, not proved.

use rand::Rng;
use vstd::prelude::*;

verus! {

/// `rand::rngs::ThreadRng`, the handle to the generator that `rand` keeps
/// for each thread. Its state is hidden from the proofs.
#[verifier::external_type_specification]
#[verifier::external_body]
pub struct ExThreadRng(rand::rngs::ThreadRng);

/// `rand::thread_rng` hands out the handle to the calling thread's
/// generator. Nothing is claimed of the handle.
pub assume_specification[ rand::thread_rng ]() -> (rng: rand::rngs::ThreadRng);

/// `rand::Rng::gen_range` for `u128`: a number drawn from the half-open
/// range from `low` to `high`. The call panics unless `low < high`, and the
/// number it returns is `low` plus an offset below `high - low`. Which
/// number comes is left open: two calls may differ.
#[verifier::external_body]
pub(crate) fn draw_in_range(rng: &mut rand::rngs::ThreadRng, low: u128, high: u128) -> (x: u128)
    requires
        low < high,
    ensures
        low <= x < high,
{
    rng.gen_range(low, high)
}

} // verus!
