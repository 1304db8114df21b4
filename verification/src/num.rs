//! Saturating 32-bit arithmetic. Hit points, experience and stat boosts
//! accumulate without an intrinsic bound, so the combat rules clamp at the
//! `i32` limits instead of overflowing; every contract states the clamp
//! explicitly.

use vstd::prelude::*;

verus! {

/// `v` clamped into the `i32` range.
pub open spec fn clamp_i32(v: int) -> int {
    if v < i32::MIN {
        i32::MIN as int
    } else if v > i32::MAX {
        i32::MAX as int
    } else {
        v
    }
}

/// `a + b`, clamped into the `i32` range.
pub fn sat_add_i32(a: i32, b: i32) -> (r: i32)
    ensures
        r == clamp_i32(a + b),
{
    let s: i64 = (a as i64) + (b as i64);
    if s < i32::MIN as i64 {
        i32::MIN
    } else if s > i32::MAX as i64 {
        i32::MAX
    } else {
        s as i32
    }
}

/// `a - b`, clamped into the `i32` range.
pub fn sat_sub_i32(a: i32, b: i32) -> (r: i32)
    ensures
        r == clamp_i32(a - b),
{
    let s: i64 = (a as i64) - (b as i64);
    if s < i32::MIN as i64 {
        i32::MIN
    } else if s > i32::MAX as i64 {
        i32::MAX
    } else {
        s as i32
    }
}

} // verus!
