//! Counters at the ends of their range.

use vstd::prelude::*;

verus! {

/// One more, around the end of the range.
pub open spec fn next(x: u64) -> u64 {
    if x == u64::MAX {
        0
    } else {
        (x + 1) as u64
    }
}

/// A sum that stays at the largest number once it gets there.
pub open spec fn sat_add(x: u64, y: u64) -> u64 {
    if x + y > u64::MAX {
        u64::MAX
    } else {
        (x + y) as u64
    }
}

/// How far `x` is beyond `y`; zero, if it is not.
pub open spec fn beyond(x: u64, y: u64) -> u64 {
    if x >= y {
        (x - y) as u64
    } else {
        0
    }
}

pub open spec fn max_of(x: u64, y: u64) -> u64 {
    if x >= y {
        x
    } else {
        y
    }
}

pub fn larger(x: u64, y: u64) -> (r: u64)
    ensures
        r == max_of(x, y),
{
    if x >= y {
        x
    } else {
        y
    }
}

/// What the counters do: one more wraps around to zero, a saturating sum never exceeds
/// the range and is exact within it, and a distance is exact or zero.
pub proof fn counters_behave(x: u64, y: u64)
    ensures
        (next(x) - x - 1) % 0x1_0000_0000_0000_0000 == 0,
        x + y <= u64::MAX ==> sat_add(x, y) == x + y,
        x + y > u64::MAX ==> sat_add(x, y) == u64::MAX,
        y <= x ==> y + beyond(x, y) == x,
        y > x ==> beyond(x, y) == 0,
        max_of(x, y) >= x && max_of(x, y) >= y && (max_of(x, y) == x || max_of(x, y) == y),
{
}

} // verus!
