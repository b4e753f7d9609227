//! Randomness, drawn from the `rand` crate's thread-local generator.
use vstd::prelude::*;
use rand::Rng;

verus! {

/// Shuffles `v` with `rand::Rng::shuffle` on `rand::thread_rng()`. That
/// method only swaps elements of the slice, so the result holds the same
/// elements, each as often as before; the order it leaves is random and is
/// not stated.
#[verifier::external_body]
pub(crate) fn shuffle_ids(v: &mut Vec<usize>)
    ensures
        final(v)@.len() == old(v)@.len(),
        final(v)@.to_multiset() == old(v)@.to_multiset(),
{
    rand::thread_rng().shuffle(v.as_mut_slice());
}

/// A random `usize` from `rand::random`. Any value may come back; nothing
/// is stated of it.
#[verifier::external_body]
pub(crate) fn random_usize() -> (r: usize) {
    rand::random::<usize>()
}

/// The index that a drawn `usize` `r` picks among `len` choices: `r`
/// reduced modulo `len`.
pub fn index_of_draw(r: usize, len: usize) -> (i: usize)
    requires
        len > 0,
    ensures
        i == r % len,
        i < len,
{
    r % len
}

/// A random index below `len`: a random `usize` reduced modulo `len` (see
/// `index_of_draw`).
pub fn random_index(len: usize) -> (i: usize)
    requires
        len > 0,
    ensures
        i < len,
{
    index_of_draw(random_usize(), len)
}

} // verus!
