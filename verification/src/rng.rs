//! The engine's one source of randomness, used by mine placement.

use vstd::prelude::*;

verus! {

/// Relies on `rand::Rng::gen_range` on the thread-local generator:
/// for a non-empty range `0..n` it returns a value of that range.
/// Nothing more is assumed of the draw.
#[verifier::external_body]
pub(crate) fn random_below(n: usize) -> (r: usize)
    requires
        n > 0,
    ensures
        r < n,
{
    rand::Rng::gen_range(&mut rand::thread_rng(), 0..n)
}

} // verus!
