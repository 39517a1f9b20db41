//! The random generator behind the sampler. What it returns is chance:
//! nothing is said of it but its range, and the code that uses it is proved
//! for every value that may come back.

use rand::rngs::ThreadRng;
use rand::Rng;
use vstd::prelude::*;

verus! {

/// `rand`'s generator of the current thread, declared so that a handler can
/// hold one. Nothing is known of what is inside.
#[verifier::external_type_specification]
#[verifier::external_body]
pub struct ExThreadRng(ThreadRng);

/// `rand::rng`: a handle to the generator of the current thread.
#[verifier::external_body]
pub(crate) fn thread_rng() -> ThreadRng {
    rand::rng()
}

/// `Rng::random` at `u8`: the next byte of the generator. Nothing is
/// promised of it.
#[verifier::external_body]
pub(crate) fn next_random_u8(rng: &mut ThreadRng) -> u8 {
    rng.random::<u8>()
}

/// `Rng::random_range` on `0..n`: some index below `n`. The call panics on
/// an empty range, which `n > 0` leaves out.
#[verifier::external_body]
pub(crate) fn random_below(rng: &mut ThreadRng, n: usize) -> (r: usize)
    requires
        n > 0,
    ensures
        r < n,
{
    rng.random_range(0usize..n)
}

} // verus!
