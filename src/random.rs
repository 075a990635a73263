//! Random draws.
use vstd::prelude::*;

verus! {

/// Relies on `rand::random::<i32>`: a value drawn from the thread-local
/// generator, over the whole range of `i32`. Nothing is known of which.
#[verifier::external_body]
pub(crate) fn random_i32() -> (r: i32) {
    rand::random::<i32>()
}

/// Relies on `rand::seq::IteratorRandom::choose` over `0..n` with the
/// thread-local generator: `None` if and only if the range is empty, else
/// one of its elements.
#[verifier::external_body]
pub(crate) fn random_index(n: usize) -> (r: Option<usize>)
    ensures
        r is None <==> n == 0,
        r matches Some(i) ==> i < n,
{
    rand::seq::IteratorRandom::choose(0..n, &mut rand::thread_rng())
}

} // verus!
