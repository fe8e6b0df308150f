//! Random choices, drawn from the generator that `rand` keeps for the
//! current thread.

use rand::rngs::ThreadRng;
use rand::Rng;
use vstd::prelude::*;

verus! {

/// `rand::rngs::ThreadRng`, the handle to the generator of the current
/// thread. Nothing is known of what it holds.
#[verifier::external_type_specification]
#[verifier::external_body]
pub struct ExThreadRng(ThreadRng);

/// Calls `rand::rng()`, which hands out the handle to the generator of the
/// current thread. Nothing is claimed of the handle. The call panics where
/// the operating system refuses the generator its seed.
#[verifier::external_body]
pub(crate) fn thread_rng() -> ThreadRng {
    rand::rng()
}

/// Calls `Rng::random_range` with the range `0..n`. Claimed: the number
/// that comes back lies in that range. Which one comes back is chance, so
/// nothing more is claimed. An empty range makes the call panic and is
/// left out.
#[verifier::external_body]
pub(crate) fn pick_below(rng: &mut ThreadRng, n: usize) -> (i: usize)
    requires
        n > 0,
    ensures
        i < n,
{
    rng.random_range(0..n)
}

} // verus!
