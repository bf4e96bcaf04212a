//! A graph vertex: an innovation id, a layer coordinate `x` on `[0, 1]`
//! (fixed-point), a cosmetic coordinate `y`, and an activation.
//!
//! The activation shapes are piecewise-linear (sine, cosine, sigmoid) or
//! piecewise-quadratic (gaussian) fixed-point forms: exact integer functions
//! whose definitions below are the reference for the evaluator's contract.
//! The sigmoid matches the steep sigmoid's slope 4.9/4 at the origin; the
//! sine is the triangle wave with the sine's zeros and peaks.

use vstd::prelude::*;
use crate::activations::Activations;
use crate::fixed::{abs, SCALE, VAL_MAX};

verus! {

/// A quarter turn: pi/2 in fixed point, rounded so a full turn is 4 quarters.
pub const QUARTER_TURN: i64 = 1_570_796;

/// A full turn: 2*pi in fixed point.
pub const TWO_PI: i64 = 6_283_184;

pub struct Node {
    pub innov: u32,
    pub x: i64,
    pub y: i64,
    pub activation: Activations,
}

impl Clone for Node {
    fn clone(&self) -> (r: Self)
        ensures
            r == *self,
    {
        Node { innov: self.innov, x: self.x, y: self.y, activation: self.activation }
    }
}

impl Copy for Node {

}

impl PartialEq for Node {
    /// Two nodes are equal iff their innovation ids match.
    fn eq(&self, other: &Self) -> (r: bool) {
        self.innov == other.innov
    }
}

impl vstd::std_specs::cmp::PartialEqSpecImpl for Node {
    open spec fn obeys_eq_spec() -> bool {
        true
    }

    open spec fn eq_spec(&self, other: &Self) -> bool {
        self.innov == other.innov
    }
}

/// Triangle-wave sine of a non-negative angle: rises to 1.0 at a quarter
/// turn, falls to -1.0 at three quarters, and returns to 0 at a full turn.
pub open spec fn spec_sine_nn(v: int) -> int
    recommends
        0 <= v,
{
    let r = v % (TWO_PI as int);
    if r < QUARTER_TURN {
        (r * SCALE) / (QUARTER_TURN as int)
    } else if r < 3 * QUARTER_TURN {
        SCALE - (((r - QUARTER_TURN) * SCALE) / (QUARTER_TURN as int))
    } else {
        -SCALE + (((r - 3 * QUARTER_TURN) * SCALE) / (QUARTER_TURN as int))
    }
}

/// Odd extension of the triangle-wave sine to all angles.
pub open spec fn spec_sine(v: int) -> int {
    if v < 0 {
        -spec_sine_nn(-v)
    } else {
        spec_sine_nn(v)
    }
}

/// Cosine as the sine shifted a quarter turn left.
pub open spec fn spec_cosine(v: int) -> int {
    spec_sine(v + QUARTER_TURN)
}

/// Clamped-linear steep sigmoid on non-negative inputs: 0.5 + (49/40)v,
/// saturating at 1.0.
pub open spec fn spec_sigmoid_nn(v: int) -> int
    recommends
        0 <= v,
{
    let t = (v * 49) / 40;
    if t >= SCALE / 2 {
        SCALE as int
    } else {
        SCALE / 2 + t
    }
}

/// Steep sigmoid extended by its point symmetry s(-v) = 1 - s(v).
pub open spec fn spec_sigmoid(v: int) -> int {
    if v < 0 {
        SCALE - spec_sigmoid_nn(-v)
    } else {
        spec_sigmoid_nn(v)
    }
}

/// Clamped-quadratic gaussian: 1 - v*v/2, saturating at 0.
pub open spec fn spec_gaussian(v: int) -> int {
    let q = (v * v) / (2 * SCALE);
    if q >= SCALE {
        0
    } else {
        SCALE - q
    }
}

/// What `Node::activate` returns: the raw value for input-layer nodes
/// (x == 0), else the node's activation shape applied to the value.
pub open spec fn spec_activate(n: Node, v: i64) -> int {
    if n.x == 0 {
        v as int
    } else {
        match n.activation {
            Activations::Linear => v as int,
            Activations::Absolute => abs(v as int),
            Activations::Sigmoid => spec_sigmoid(v as int),
            Activations::Sine => spec_sine(v as int),
            Activations::Cosine => spec_cosine(v as int),
            Activations::Gaussian => spec_gaussian(v as int),
        }
    }
}

/// `(x * SCALE) / QUARTER_TURN` is at most `SCALE * bound / QUARTER_TURN`
/// whenever `x` is at most `bound * QUARTER_TURN`.
proof fn lemma_ramp_le(x: int, bound: int)
    requires
        0 <= x,
        x <= bound * (QUARTER_TURN as int),
        0 <= bound,
    ensures
        0 <= (x * SCALE) / (QUARTER_TURN as int) <= bound * SCALE,
        x * SCALE <= (bound * SCALE) * QUARTER_TURN,
{
    vstd::arithmetic::div_mod::lemma_div_is_ordered(0, x * SCALE, QUARTER_TURN as int);
    assert(x * SCALE <= (bound * SCALE) * QUARTER_TURN) by (nonlinear_arith)
        requires
            0 <= x,
            x <= bound * (QUARTER_TURN as int),
            0 <= bound,
    ;
    vstd::arithmetic::div_mod::lemma_div_is_ordered(
        x * SCALE,
        (bound * SCALE) * QUARTER_TURN,
        QUARTER_TURN as int,
    );
    vstd::arithmetic::div_mod::lemma_div_by_multiple(bound * SCALE, QUARTER_TURN as int);
}

fn sine_nn(v: u64) -> (r: i64)
    requires
        v <= 3 * VAL_MAX as u64,
    ensures
        r == spec_sine_nn(v as int),
        -SCALE <= r <= SCALE,
{
    let rem: u64 = v % (TWO_PI as u64);
    proof {
        vstd::arithmetic::mul::lemma_mul_upper_bound(
            rem as int,
            TWO_PI as int,
            SCALE as int,
            SCALE as int,
        );
    }
    if rem < QUARTER_TURN as u64 {
        proof {
            lemma_ramp_le(rem as int, 1);
        }
        let q = (rem * SCALE as u64) / (QUARTER_TURN as u64);
        q as i64
    } else if rem < 3 * QUARTER_TURN as u64 {
        proof {
            lemma_ramp_le(rem as int - QUARTER_TURN as int, 2);
        }
        let q = ((rem - QUARTER_TURN as u64) * SCALE as u64) / (QUARTER_TURN as u64);
        SCALE - q as i64
    } else {
        proof {
            lemma_ramp_le(rem as int - 3 * QUARTER_TURN as int, 1);
        }
        let q = ((rem - 3 * QUARTER_TURN as u64) * SCALE as u64) / (QUARTER_TURN as u64);
        -SCALE + q as i64
    }
}

fn sine(v: i64) -> (r: i64)
    requires
        -3 * VAL_MAX <= v <= 3 * VAL_MAX,
    ensures
        r == spec_sine(v as int),
        -SCALE <= r <= SCALE,
{
    if v < 0 {
        -sine_nn((-v) as u64)
    } else {
        sine_nn(v as u64)
    }
}

fn cosine(v: i64) -> (r: i64)
    requires
        -VAL_MAX <= v <= VAL_MAX,
    ensures
        r == spec_cosine(v as int),
        -SCALE <= r <= SCALE,
{
    sine(v + QUARTER_TURN)
}

fn sigmoid_nn(v: u64) -> (r: i64)
    requires
        v <= VAL_MAX as u64,
    ensures
        r == spec_sigmoid_nn(v as int),
        0 <= r <= SCALE,
{
    let t = (v * 49) / 40;
    if t >= (SCALE / 2) as u64 {
        SCALE
    } else {
        SCALE / 2 + t as i64
    }
}

fn sigmoid(v: i64) -> (r: i64)
    requires
        -VAL_MAX <= v <= VAL_MAX,
    ensures
        r == spec_sigmoid(v as int),
        0 <= r <= SCALE,
{
    if v < 0 {
        SCALE - sigmoid_nn((-v) as u64)
    } else {
        sigmoid_nn(v as u64)
    }
}

fn gaussian(v: i64) -> (r: i64)
    requires
        -VAL_MAX <= v <= VAL_MAX,
    ensures
        r == spec_gaussian(v as int),
        0 <= r <= SCALE,
{
    proof {
        assert(0 <= v as int * v as int <= VAL_MAX as int * VAL_MAX as int) by (nonlinear_arith)
            requires
                -VAL_MAX <= v as int <= VAL_MAX,
        ;
        vstd::arithmetic::div_mod::lemma_div_is_ordered(0, v as int * v as int, 2 * SCALE as int);
    }
    let sq: i128 = v as i128 * v as i128;
    let q: i128 = sq / (2 * SCALE as i128);
    if q >= SCALE as i128 {
        0
    } else {
        SCALE - q as i64
    }
}

impl Node {
    pub fn new(innov: u32, x: i64, y: i64, activation: Activations) -> (r: Self)
        ensures
            r == (Node { innov, x, y, activation }),
    {
        Node { innov, x, y, activation }
    }

    /// Input-layer nodes (x == 0) pass their value through unmodified; every
    /// other node applies its activation shape. The result always fits the
    /// saturated value range.
    pub fn activate(&self, val: i64) -> (r: i64)
        requires
            -VAL_MAX <= val <= VAL_MAX,
        ensures
            r as int == spec_activate(*self, val),
            -VAL_MAX <= r <= VAL_MAX,
    {
        if self.x == 0 {
            return val;
        }
        match self.activation {
            Activations::Linear => val,
            Activations::Absolute => if val < 0 {
                -val
            } else {
                val
            },
            Activations::Sigmoid => sigmoid(val),
            Activations::Sine => sine(val),
            Activations::Cosine => cosine(val),
            Activations::Gaussian => gaussian(val),
        }
    }
}

} // verus!
