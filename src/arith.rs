use vstd::prelude::*;

verus! {

/// The integer `x` pinned into the range of `i64`.
pub open spec fn clamp64(x: int) -> i64 {
    if x > i64::MAX {
        i64::MAX
    } else if x < i64::MIN {
        i64::MIN
    } else {
        x as i64
    }
}

/// Half of `x`, rounded toward zero.
pub open spec fn half_spec(x: i64) -> i64 {
    if x >= 0 {
        (x / 2) as i64
    } else {
        (-((-x) / 2)) as i64
    }
}

pub fn sat_add(a: i64, b: i64) -> (r: i64)
    ensures
        r == clamp64(a + b),
{
    match a.checked_add(b) {
        Some(v) => v,
        None => if b > 0 {
            i64::MAX
        } else {
            i64::MIN
        },
    }
}

pub fn sat_sub(a: i64, b: i64) -> (r: i64)
    ensures
        r == clamp64(a - b),
{
    match a.checked_sub(b) {
        Some(v) => v,
        None => if b < 0 {
            i64::MAX
        } else {
            i64::MIN
        },
    }
}

pub fn sat_mul(a: i64, b: i64) -> (r: i64)
    ensures
        r == clamp64(a * b),
{
    match a.checked_mul(b) {
        Some(v) => v,
        None => if (a > 0) == (b > 0) {
            proof {
                assert(a * b > 0) by (nonlinear_arith)
                    requires
                        (a > 0) == (b > 0),
                        a != 0,
                        b != 0,
                ;
            }
            i64::MAX
        } else {
            proof {
                assert(a * b < 0) by (nonlinear_arith)
                    requires
                        (a > 0) != (b > 0),
                        a != 0,
                        b != 0,
                ;
            }
            i64::MIN
        },
    }
}

/// The value of a wide integer pinned into the range of `i64`.
pub fn clamp_wide(x: i128) -> (r: i64)
    ensures
        r == clamp64(x as int),
{
    if x > i64::MAX as i128 {
        i64::MAX
    } else if x < i64::MIN as i128 {
        i64::MIN
    } else {
        x as i64
    }
}

pub fn half(x: i64) -> (r: i64)
    ensures
        r == half_spec(x),
{
    if x >= 0 {
        x / 2
    } else if x == i64::MIN {
        -0x4000_0000_0000_0000
    } else {
        -((-x) / 2)
    }
}

} // verus!
