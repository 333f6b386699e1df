//! The single source of randomness: a thin trusted boundary over the
//! `rand` crate. Nothing is assumed about which value comes back beyond
//! its range, so every caller is verified for all possible outcomes.

use vstd::prelude::*;

verus! {

/// Relies on rand::Rng::gen_range over the half-open range `lo..hi`
/// (rand 0.8, src/rng.rs and src/distributions/uniform.rs): the sample is
/// uniform in `[lo, hi)` and the call panics only when the range is empty,
/// which the precondition rules out. No distribution claim is made here.
#[verifier::external_body]
pub(crate) fn random_range(lo: u64, hi: u64) -> (r: u64)
    requires
        lo < hi,
    ensures
        lo <= r < hi,
{
    rand::Rng::gen_range(&mut rand::thread_rng(), lo..hi)
}

} // verus!
