//! The engine's random source.

use vstd::prelude::*;

verus! {

/// Relies on rand::random_range over `0..n`: a draw from the thread-local
/// generator, uniform on the range, which is non-empty since `n > 0`.
/// Nothing more than the bound can be promised of a random value.
#[verifier::external_body]
pub(crate) fn rand_below(n: usize) -> (r: usize)
    requires
        n > 0,
    ensures
        r < n,
{
    rand::random_range(0..n)
}

} // verus!
