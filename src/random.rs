//! The random source: a seedable generator of the `rand` crate, and the
//! shuffle that orders the candidates of a cell.

use vstd::prelude::*;

verus! {

/// rand's `StdRng`, the generator the fill draws its candidate orders
/// from; opaque here, carried from the caller to the shuffle.
#[verifier::external_type_specification]
#[verifier::external_body]
pub struct ExStdRng(rand::StdRng);

/// Relies on rand's `Rng::shuffle`, a Fisher-Yates shuffle made of swaps:
/// the result is a permutation of the input.
#[verifier::external_body]
pub(crate) fn shuffle_values(rng: &mut rand::StdRng, values: &mut Vec<u64>)
    ensures
        final(values)@.to_multiset() == old(values)@.to_multiset(),
{
    rand::Rng::shuffle(rng, values.as_mut_slice())
}

/// Relies on rand's `StdRng::new`, which seeds a generator from the
/// operating system. It reports an error only when no source of OS
/// randomness (nor its fallback) can be opened; a read that fails after
/// that panics inside rand, an environment failure no precondition can
/// exclude.
#[verifier::external_body]
pub(crate) fn os_seeded_rng() -> (r: Option<rand::StdRng>) {
    rand::StdRng::new().ok()
}

} // verus!
