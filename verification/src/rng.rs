//! Sources of randomness for the problem generator, wrapped so that the
//! surrounding logic is verified for every outcome the wrappers can
//! return.

use vstd::prelude::*;

verus! {

/// Relies on `rand::Rng::gen_range` over the half-open range `lo..hi`:
/// the sample lies in that range. The range must be nonempty, since
/// `gen_range` panics on an empty one.
#[verifier::external_body]
pub(crate) fn rand_range_u32(lo: u32, hi: u32) -> (r: u32)
    requires
        lo < hi,
    ensures
        lo <= r < hi,
{
    rand::Rng::gen_range(&mut rand::thread_rng(), lo..hi)
}

/// Relies on `rand::Rng::gen_range` over `0..n`: a uniformly drawn index
/// below the bound. The bound must be positive, since `gen_range` panics
/// on an empty range.
#[verifier::external_body]
pub(crate) fn rand_index(n: usize) -> (r: usize)
    requires
        n >= 1,
    ensures
        r < n,
{
    rand::Rng::gen_range(&mut rand::thread_rng(), 0..n)
}

/// Relies on `rand::Rng::gen_range` over the half-open range `lo..hi` at
/// type `u64`: the sample lies in that range. The range must be
/// nonempty, since `gen_range` panics on an empty one.
#[verifier::external_body]
pub(crate) fn rand_range_u64(lo: u64, hi: u64) -> (r: u64)
    requires
        lo < hi,
    ensures
        lo <= r < hi,
{
    rand::Rng::gen_range(&mut rand::thread_rng(), lo..hi)
}

/// Relies on `rand::Rng::gen` at type `bool`: a coin flip. Nothing is
/// promised of the outcome.
#[verifier::external_body]
pub(crate) fn rand_bool() -> bool {
    rand::Rng::gen(&mut rand::thread_rng())
}

} // verus!
