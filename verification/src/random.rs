//! The one source of chance in the library.
use vstd::prelude::*;
use rand::RngExt;

verus! {

/// Draws a number from `lo..hi` with `rand::rng().random_range`, the thread-local
/// generator of the `rand` crate. Claimed: the result lies in `lo..hi`; `random_range`
/// panics only on an empty range, which `requires` rules out. Which number comes out is
/// left open: it rests on chance.
#[verifier::external_body]
pub(crate) fn random_range(lo: usize, hi: usize) -> (r: usize)
    requires
        lo < hi,
    ensures
        lo <= r < hi,
{
    rand::rng().random_range(lo..hi)
}

} // verus!
