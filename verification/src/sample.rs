//! Uniform single-element sampling. The graph exposes `choose_vertex`,
//! `choose_edge` and `choose_inc_edge` as part of its contract; the source
//! of randomness is supplied from outside the verified core.

use vstd::prelude::*;

verus! {

/// Relies on rand::random_range (thread-local generator): for the range
/// `0..n` with `n > 0` it returns a uniformly sampled value below `n`, and
/// panics only on an empty range, which the precondition rules out.
#[verifier::external_body]
pub(crate) fn random_index(n: usize) -> (r: usize)
    requires
        n > 0,
    ensures
        r < n,
{
    rand::random_range(0..n)
}

} // verus!
