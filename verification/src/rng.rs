//! The injected randomness source: a seedable PCG generator, threaded
//! explicitly through every function that consumes it, so that a fixed seed
//! reproduces a whole search. These are the engine's only trusted items.

use vstd::prelude::*;
use rand::Rng;
use rand_pcg::Pcg64Mcg;

verus! {

/// The PCG generator of rand_pcg (`Pcg64Mcg` is an alias for it), declared
/// opaquely so generator values can cross the library's signatures.
#[verifier::external_type_specification]
#[verifier::external_body]
pub struct ExMcg128Xsl64(rand_pcg::Mcg128Xsl64);

/// Relies on rand::Rng::random_range over `0..n`: the sample lies in the
/// range, which is nonempty since `n > 0`. Nothing else holds of a random
/// draw.
#[verifier::external_body]
pub(crate) fn rng_below(rng: &mut Pcg64Mcg, n: usize) -> (r: usize)
    requires
        n > 0,
    ensures
        r < n,
{
    rng.random_range(0..n)
}

} // verus!
