//! The random source of the builder: `rand`'s thread-local generator.
use rand::rngs::ThreadRng;
use rand::Rng;
use vstd::prelude::*;

verus! {

#[verifier::external_type_specification]
#[verifier::external_body]
pub struct ExThreadRng(rand::rngs::ThreadRng);

/// Relies on `rand::thread_rng`: a handle on the generator of this thread.
#[verifier::external_body]
pub(crate) fn new_rng() -> (r: ThreadRng) {
    rand::thread_rng()
}

/// Relies on rand's `Rng::gen_range` over `0..len`: a value in that range.
/// It panics on an empty range, which `requires` rules out.
#[verifier::external_body]
pub(crate) fn random_index(rng: &mut ThreadRng, len: usize) -> (r: usize)
    requires
        len > 0,
    ensures
        r < len,
{
    rng.gen_range(0..len)
}

} // verus!
