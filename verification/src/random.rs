use vstd::prelude::*;
use rand::seq::IndexedRandom;
use rand::seq::SliceRandom;
use rand::Rng;

verus! {

/// Shuffles `v` in place with `SliceRandom::shuffle` of the `rand` crate,
/// driven by the thread-local generator `rand::rng()`. The shuffle only
/// swaps elements, so the result is a permutation of the input: the same
/// elements, each as often as before. Which permutation comes out is left
/// unsaid, as it rests on chance.
#[verifier::external_body]
pub(crate) fn shuffle_vec<T>(v: &mut Vec<T>)
    ensures
        final(v)@.len() == old(v)@.len(),
        final(v)@.to_multiset() == old(v)@.to_multiset(),
{
    let mut rng = rand::rng();
    v.shuffle(&mut rng);
}

/// Draws a number from `lo..hi` with `Rng::random_range` of the `rand`
/// crate and the thread-local generator. `random_range` panics on an empty
/// range, so `lo < hi` is required; the result lies in the range, and which
/// number it is rests on chance.
#[verifier::external_body]
pub(crate) fn random_range_u32(lo: u32, hi: u32) -> (r: u32)
    requires
        lo < hi,
    ensures
        lo <= r < hi,
{
    let mut rng = rand::rng();
    rng.random_range(lo..hi)
}

/// Picks an element of `s` with `IndexedRandom::choose` of the `rand` crate
/// and the thread-local generator: `None` exactly for an empty slice, else
/// one of its elements, which one resting on chance.
#[verifier::external_body]
pub(crate) fn choose_copy<T: Copy>(s: &[T]) -> (r: Option<T>)
    ensures
        r is None <==> s@.len() == 0,
        r matches Some(x) ==> s@.contains(x),
{
    let mut rng = rand::rng();
    s.choose(&mut rng).copied()
}

} // verus!
