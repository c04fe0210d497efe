//! The random choices that the heuristics make, drawn from the `rand` crate.
//! Every item here is trusted: its contract is read off `rand`'s source.
use vstd::prelude::*;
use rand::rngs::ThreadRng;
use rand::Rng;
use rand::seq::IndexedRandom;
use rand::seq::SliceRandom;

verus! {

/// `rand::rngs::ThreadRng`, the thread-local generator; opaque to Verus.
#[verifier::external_type_specification]
#[verifier::external_body]
pub struct ExThreadRng(ThreadRng);

/// Calls `rand::rng()`, which hands out the thread-local generator. Nothing is
/// promised of the generator's state.
#[verifier::external_body]
pub(crate) fn thread_rng() -> ThreadRng {
    rand::rng()
}

/// Calls `Rng::random_range` on the range `lo..hi` of `usize`. As `rand`'s
/// source shows, the result lies in that range; `rand` panics on an empty
/// range, which `requires` leaves out. Which value comes out is chance.
#[verifier::external_body]
pub(crate) fn random_index(rng: &mut ThreadRng, lo: usize, hi: usize) -> (r: usize)
    requires
        lo < hi,
    ensures
        lo <= r < hi,
{
    rng.random_range(lo..hi)
}

/// Calls `SliceRandom::shuffle` on the vector's slice: the elements are
/// permuted in place, so the length and the multiset of elements stay the
/// same. The order that comes out is chance.
#[verifier::external_body]
pub(crate) fn shuffle_i32(v: &mut Vec<i32>, rng: &mut ThreadRng)
    ensures
        final(v)@.len() == old(v)@.len(),
        final(v)@.to_multiset() == old(v)@.to_multiset(),
{
    v.as_mut_slice().shuffle(rng)
}

/// Calls `IndexedRandom::choose` on the vector's slice: `None` on an empty
/// slice, else one of its elements (which one is chance).
#[verifier::external_body]
pub(crate) fn choose_i32(v: &Vec<i32>, rng: &mut ThreadRng) -> (r: Option<i32>)
    ensures
        r is None <==> v@.len() == 0,
        r matches Some(x) ==> v@.contains(x),
{
    v.as_slice().choose(rng).copied()
}

} // verus!
