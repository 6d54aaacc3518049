//! The random draws that exploration, random resets and replay rest on.
//!
//! Nothing here is proved: each item states what the `rand` crate documents of
//! one of its functions, and holds of every outcome of the draw.

use rand::rngs::ThreadRng;
use rand::seq::SliceRandom;
use rand::Rng;
use vstd::prelude::*;

verus! {

/// `rand::rngs::ThreadRng`, the handle to the generator of the current thread.
/// Its state is hidden: no contract speaks of it.
#[verifier::external_type_specification]
#[verifier::external_body]
pub struct ExThreadRng(ThreadRng);

/// `rand::thread_rng` hands out the handle; nothing is claimed of it. It panics
/// only where the system cannot seed the generator.
pub assume_specification[ rand::thread_rng ]() -> (rng: ThreadRng);

/// `Rng::gen_range` on the half-open range `low..high`: the draw lies in the
/// range. The call panics on an empty range, which `requires` leaves out.
#[verifier::external_body]
pub(crate) fn gen_range(rng: &mut ThreadRng, low: usize, high: usize) -> (drawn: usize)
    requires
        low < high,
    ensures
        low <= drawn < high,
{
    rng.gen_range(low..high)
}

/// `SliceRandom::choose` on the items of a vector: `None` exactly when there is
/// no item, else a reference to one of them.
#[verifier::external_body]
pub(crate) fn choose_item<'a, T>(items: &'a Vec<T>, rng: &mut ThreadRng) -> (chosen: Option<&'a T>)
    ensures
        chosen is None <==> items.len() == 0,
        chosen matches Some(item) ==> exists|i: int| 0 <= i < items.len() && items[i] == *item,
{
    items.choose(rng)
}

} // verus!
