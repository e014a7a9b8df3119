//! The engine's only source of randomness: drawing a uniform sample of
//! positions for peer sampling.

use vstd::prelude::*;

verus! {

/// Relies on rand::seq::index::sample: it returns exactly `amount` distinct
/// indices drawn from `0..length`, in an order nothing here depends on. It
/// panics when `amount > length`, which the precondition excludes. Nothing is
/// assumed about which indices come back: every caller must hold for every
/// outcome.
#[verifier::external_body]
pub(crate) fn sample_indices(length: usize, amount: usize) -> (r: Vec<usize>)
    requires
        amount <= length,
    ensures
        r@.len() == amount,
        forall|i: int| 0 <= i < r@.len() ==> r@[i] < length,
        forall|i: int, j: int| 0 <= i < j < r@.len() ==> r@[i] != r@[j],
{
    rand::seq::index::sample(&mut rand::rng(), length, amount).into_vec()
}

} // verus!
