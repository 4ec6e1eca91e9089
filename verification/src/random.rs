//! The source of random cell indices.

use vstd::prelude::*;
use rand::rngs::ThreadRng;
use rand::Rng;

verus! {

/// `rand::rngs::ThreadRng`: the generator is carried from where it is made
/// to where indices are drawn from it. Nothing inside it is looked at.
#[verifier::external_type_specification]
#[verifier::external_body]
pub struct ExThreadRng(ThreadRng);

/// `rand::thread_rng`: hands out the generator of the running thread.
/// Nothing is claimed of it.
pub assume_specification[ rand::thread_rng ]() -> (rng: ThreadRng);

/// `Rng::gen_range` on the range from zero up to, not including, `upper`:
/// the index drawn lies in that range. Which index comes is left open; an
/// empty range is kept out, since the generator panics on one.
#[verifier::external_body]
pub(crate) fn uniform_index(rng: &mut ThreadRng, upper: usize) -> (idx: usize)
    requires
        upper > 0,
    ensures
        idx < upper,
{
    rng.gen_range(0..upper)
}

} // verus!
