//! Random draws. The generator and the confused-AI walk call into the rand
//! crate through the two wrappers here; everything that depends on the drawn
//! value is verified for every value the contracts admit.

use vstd::prelude::*;

verus! {

/// Relies on rand's `thread_rng` and `Rng::gen_range` over `0..n`: returns a
/// value drawn below `n`. `gen_range` panics on an empty range, which the
/// precondition excludes.
#[verifier::external_body]
pub fn rand_below(n: u32) -> (r: u32)
    requires
        n > 0,
    ensures
        r < n,
{
    rand::Rng::gen_range(&mut rand::thread_rng(), 0..n)
}

/// Relies on rand's `random::<bool>`: a coin flip. Nothing is promised of
/// the outcome.
#[verifier::external_body]
pub fn rand_bool() -> (r: bool) {
    rand::random::<bool>()
}

/// A draw from the half-open range `lo..hi`.
pub fn rand_range_i32(lo: i32, hi: i32) -> (r: i32)
    requires
        lo < hi,
    ensures
        lo <= r < hi,
{
    let span: u32 = ((hi as i64) - (lo as i64)) as u32;
    let d = rand_below(span);
    ((lo as i64) + (d as i64)) as i32
}

/// One axis of a confused entity's random walk: a step from {-1, 0, 1}.
pub fn rand_step() -> (r: i32)
    ensures
        -1 <= r <= 1,
{
    rand_range_i32(-1, 2)
}

} // verus!
