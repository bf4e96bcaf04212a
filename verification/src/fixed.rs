//! Fixed-point scale and saturating arithmetic helpers.
//!
//! An `i64` value `v` stands for the real number `v / SCALE`. Node values are
//! kept inside `[-VAL_MAX, VAL_MAX]` by saturation so that products with a
//! weight (itself bounded by `SCALE` in magnitude) never overflow.

use vstd::prelude::*;

verus! {

/// One fixed-point unit: the integer standing for the real number 1.0.
pub const SCALE: i64 = 1_000_000;

/// Saturation bound for node values flowing through a network.
pub const VAL_MAX: i64 = 0x100_0000_0000;

/// The magnitude of `v`, as an unbounded integer.
pub open spec fn abs(v: int) -> int {
    if v < 0 {
        -v
    } else {
        v
    }
}

/// `v` clamped into `[-VAL_MAX, VAL_MAX]`.
pub open spec fn spec_sat(v: int) -> i64 {
    if v > VAL_MAX {
        VAL_MAX
    } else if v < -VAL_MAX {
        (-VAL_MAX) as i64
    } else {
        v as i64
    }
}

/// Saturating addition of two node values.
pub open spec fn spec_sat_add(a: i64, b: i64) -> i64 {
    spec_sat(a + b)
}

pub fn sat_add(a: i64, b: i64) -> (r: i64)
    ensures
        r == spec_sat_add(a, b),
{
    let wide: i128 = a as i128 + b as i128;
    if wide > VAL_MAX as i128 {
        VAL_MAX
    } else if wide < -(VAL_MAX as i128) {
        -VAL_MAX
    } else {
        wide as i64
    }
}

/// Fixed-point product of a node value and a weight: `(a * w) / SCALE`,
/// truncating toward zero, then saturated into the value range.
pub open spec fn spec_mul_wt(a: i64, w: i64) -> i64
    recommends
        -VAL_MAX <= a <= VAL_MAX,
        -SCALE <= w <= SCALE,
{
    let mag = (abs(a as int) * abs(w as int)) / (SCALE as int);
    if (a < 0) != (w < 0) {
        spec_sat(-mag)
    } else {
        spec_sat(mag)
    }
}

pub fn mul_wt(a: i64, w: i64) -> (r: i64)
    requires
        -VAL_MAX <= a <= VAL_MAX,
        -SCALE <= w <= SCALE,
    ensures
        r == spec_mul_wt(a, w),
{
    let am: u64 = if a < 0 {
        (-a) as u64
    } else {
        a as u64
    };
    let wm: u64 = if w < 0 {
        (-w) as u64
    } else {
        w as u64
    };
    proof {
        assert(am as int * wm as int <= VAL_MAX as int * SCALE as int) by (nonlinear_arith)
            requires
                0 <= am <= VAL_MAX,
                0 <= wm <= SCALE,
        ;
    }
    let mag: u64 = (am * wm) / (SCALE as u64);
    proof {
        vstd::arithmetic::div_mod::lemma_div_is_ordered(
            am as int * wm as int,
            VAL_MAX as int * SCALE as int,
            SCALE as int,
        );
        assert(VAL_MAX as int * SCALE as int / (SCALE as int) == VAL_MAX as int) by {
            vstd::arithmetic::div_mod::lemma_div_by_multiple(VAL_MAX as int, SCALE as int);
        }
    }
    if (a < 0) != (w < 0) {
        if mag > VAL_MAX as u64 {
            -VAL_MAX
        } else {
            -(mag as i64)
        }
    } else {
        if mag > VAL_MAX as u64 {
            VAL_MAX
        } else {
            mag as i64
        }
    }
}

/// Fixed-point product of two node values: `(a * b) / SCALE`, truncating
/// toward zero, then saturated into the value range.
pub open spec fn spec_mul_fx(a: i64, b: i64) -> i64
    recommends
        -VAL_MAX <= a <= VAL_MAX,
        -VAL_MAX <= b <= VAL_MAX,
{
    let mag = (abs(a as int) * abs(b as int)) / (SCALE as int);
    if (a < 0) != (b < 0) {
        spec_sat(-mag)
    } else {
        spec_sat(mag)
    }
}

pub fn mul_fx(a: i64, b: i64) -> (r: i64)
    requires
        -VAL_MAX <= a <= VAL_MAX,
        -VAL_MAX <= b <= VAL_MAX,
    ensures
        r == spec_mul_fx(a, b),
        -VAL_MAX <= r <= VAL_MAX,
{
    let am: u128 = if a < 0 {
        (-a) as u128
    } else {
        a as u128
    };
    let bm: u128 = if b < 0 {
        (-b) as u128
    } else {
        b as u128
    };
    proof {
        vstd::arithmetic::mul::lemma_mul_upper_bound(
            am as int,
            VAL_MAX as int,
            bm as int,
            VAL_MAX as int,
        );
        vstd::arithmetic::mul::lemma_mul_nonnegative(am as int, bm as int);
        vstd::arithmetic::div_mod::lemma_div_pos_is_pos(am as int * bm as int, SCALE as int);
    }
    let mag: u128 = (am * bm) / (SCALE as u128);
    if (a < 0) != (b < 0) {
        if mag > VAL_MAX as u128 {
            -VAL_MAX
        } else {
            -(mag as i64)
        }
    } else {
        if mag > VAL_MAX as u128 {
            VAL_MAX
        } else {
            mag as i64
        }
    }
}

} // verus!
