//! Saturating integer helpers used by the strategic math.

use vstd::prelude::*;

verus! {

pub open spec fn clamp_u64(x: int) -> int {
    if x > u64::MAX {
        u64::MAX as int
    } else if x < 0 {
        0
    } else {
        x
    }
}

pub open spec fn clamp_i64(x: int) -> int {
    if x > i64::MAX {
        i64::MAX as int
    } else if x < i64::MIN {
        i64::MIN as int
    } else {
        x
    }
}

pub open spec fn clamp_i128(x: int) -> int {
    if x > i128::MAX {
        i128::MAX as int
    } else if x < i128::MIN {
        i128::MIN as int
    } else {
        x
    }
}

pub fn sat_mul_u64(a: u64, b: u64) -> (r: u64)
    ensures
        r == clamp_u64(a * b),
{
    match a.checked_mul(b) {
        Some(v) => v,
        None => u64::MAX,
    }
}

pub fn sat_add_u64(a: u64, b: u64) -> (r: u64)
    ensures
        r == clamp_u64(a + b),
{
    a.saturating_add(b)
}

pub fn sat_mul_i64(a: i64, b: i64) -> (r: i64)
    ensures
        r == clamp_i64(a * b),
{
    match a.checked_mul(b) {
        Some(v) => v,
        None => {
            if (a < 0) == (b < 0) {
                proof {
                    assert(a * b >= 0) by (nonlinear_arith)
                        requires
                            (a < 0) == (b < 0),
                    ;
                }
                i64::MAX
            } else {
                proof {
                    assert(a * b <= 0) by (nonlinear_arith)
                        requires
                            (a < 0) != (b < 0),
                    ;
                }
                i64::MIN
            }
        },
    }
}

pub fn sat_add_i64(a: i64, b: i64) -> (r: i64)
    ensures
        r == clamp_i64(a + b),
{
    match a.checked_add(b) {
        Some(v) => v,
        None => {
            if b > 0 {
                i64::MAX
            } else {
                i64::MIN
            }
        },
    }
}

pub fn sat_add_i128(a: i128, b: i128) -> (r: i128)
    ensures
        r == clamp_i128(a + b),
{
    match a.checked_add(b) {
        Some(v) => v,
        None => {
            if b > 0 {
                i128::MAX
            } else {
                i128::MIN
            }
        },
    }
}

pub fn sat_sub_i128(a: i128, b: i128) -> (r: i128)
    ensures
        r == clamp_i128(a - b),
{
    match a.checked_sub(b) {
        Some(v) => v,
        None => {
            if b < 0 {
                i128::MAX
            } else {
                i128::MIN
            }
        },
    }
}

pub fn min_u64(a: u64, b: u64) -> (r: u64)
    ensures
        r == if a <= b { a } else { b },
{
    if a <= b {
        a
    } else {
        b
    }
}

pub fn max_u64(a: u64, b: u64) -> (r: u64)
    ensures
        r == if a >= b { a } else { b },
{
    if a >= b {
        a
    } else {
        b
    }
}

/// `|a - b|` on signed inputs, as an unsigned distance.
pub fn abs_diff_i64(a: i64, b: i64) -> (r: u64)
    ensures
        r == if a >= b { a - b } else { b - a },
{
    if a >= b {
        (a as i128 - b as i128) as u64
    } else {
        (b as i128 - a as i128) as u64
    }
}

} // verus!
