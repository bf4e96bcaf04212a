//! Tunable rates and coefficients, all fixed-point integers.
//!
//! A rate is a probability on `[0, 1]`, stored as a `u64` at most `SCALE`.
//! A coefficient or threshold is a non-negative fixed-point `i64` at most
//! `MAX_COEFF` (the real number 1000), which keeps the compatibility-distance
//! comparison inside `i128`.

use vstd::prelude::*;
use crate::fixed::{abs, spec_sat, SCALE, VAL_MAX};

verus! {

/// Largest coefficient, threshold, or hyper weight bound: 1000 in fixed point.
pub const MAX_COEFF: i64 = 1_000_000_000;

pub struct Settings {
    pub inputs: u32,
    pub outputs: u32,
    pub pop_size: u32,
    pub third_param: bool,
    pub conn_mut_rate: u64,
    pub node_mut_rate: u64,
    pub wt_mut_rate: u64,
    pub wt_shift_rate: u64,
    pub off_gene_on_rate: u64,
    pub off_in_both_on_rate: u64,
    pub only_mut_rate: u64,
    pub disjoint_coeff: i64,
    pub excess_coeff: i64,
    pub weight_coeff: i64,
    pub activation_coeff: i64,
    pub speciation_threshold: i64,
    pub allowed_stagnancy: u32,
}

impl Settings {
    /// Every rate is a probability, every coefficient is bounded, and the
    /// network dimensions leave room for the seed innovation numbering
    /// (inputs, bias and outputs as node ids, one id per seed connection).
    pub open spec fn wf(&self) -> bool {
        &&& 1 <= self.inputs
        &&& 1 <= self.outputs
        &&& 1 <= self.pop_size
        &&& self.inputs + self.outputs + 2 <= u32::MAX
        &&& (self.inputs + 1) * self.outputs + 1 <= u32::MAX
        &&& self.conn_mut_rate <= SCALE
        &&& self.node_mut_rate <= SCALE
        &&& self.wt_mut_rate <= SCALE
        &&& self.wt_shift_rate <= SCALE
        &&& self.off_gene_on_rate <= SCALE
        &&& self.off_in_both_on_rate <= SCALE
        &&& self.only_mut_rate <= SCALE
        &&& 0 <= self.disjoint_coeff <= MAX_COEFF
        &&& 0 <= self.excess_coeff <= MAX_COEFF
        &&& 0 <= self.weight_coeff <= MAX_COEFF
        &&& 0 <= self.activation_coeff <= MAX_COEFF
        &&& 0 <= self.speciation_threshold <= MAX_COEFF
    }

    /// The default configuration for a population of `pop_size` genomes with
    /// the given network arity.
    pub fn new(inputs: u32, outputs: u32, pop_size: u32) -> (r: Self)
        requires
            1 <= inputs,
            1 <= outputs,
            1 <= pop_size,
            inputs + outputs + 2 <= u32::MAX,
            (inputs + 1) * outputs + 1 <= u32::MAX,
        ensures
            r.wf(),
            r.inputs == inputs,
            r.outputs == outputs,
            r.pop_size == pop_size,
            !r.third_param,
            r.conn_mut_rate == 50_000,
            r.node_mut_rate == 30_000,
            r.wt_mut_rate == 800_000,
            r.wt_shift_rate == 900_000,
            r.off_gene_on_rate == 250_000,
            r.off_in_both_on_rate == 10_000,
            r.only_mut_rate == 250_000,
            r.disjoint_coeff == SCALE,
            r.excess_coeff == SCALE,
            r.activation_coeff == SCALE,
            r.weight_coeff == 400_000,
            r.speciation_threshold == 3 * SCALE,
            r.allowed_stagnancy == 15,
    {
        Settings {
            inputs,
            outputs,
            pop_size,
            third_param: false,
            conn_mut_rate: 50_000,
            node_mut_rate: 30_000,
            wt_mut_rate: 800_000,
            wt_shift_rate: 900_000,
            off_gene_on_rate: 250_000,
            off_in_both_on_rate: 10_000,
            only_mut_rate: 250_000,
            disjoint_coeff: SCALE,
            excess_coeff: SCALE,
            weight_coeff: 400_000,
            activation_coeff: SCALE,
            speciation_threshold: 3 * SCALE,
            allowed_stagnancy: 15,
        }
    }

    pub fn third_param(self, tp: bool) -> (r: Self)
        ensures
            r == (Settings { third_param: tp, ..self }),
    {
        Settings { third_param: tp, ..self }
    }

    pub fn conn_mut_rate(self, rate: u64) -> (r: Self)
        requires
            rate <= SCALE,
        ensures
            r == (Settings { conn_mut_rate: rate, ..self }),
    {
        Settings { conn_mut_rate: rate, ..self }
    }

    pub fn node_mut_rate(self, rate: u64) -> (r: Self)
        requires
            rate <= SCALE,
        ensures
            r == (Settings { node_mut_rate: rate, ..self }),
    {
        Settings { node_mut_rate: rate, ..self }
    }

    pub fn wt_mut_rate(self, rate: u64) -> (r: Self)
        requires
            rate <= SCALE,
        ensures
            r == (Settings { wt_mut_rate: rate, ..self }),
    {
        Settings { wt_mut_rate: rate, ..self }
    }

    pub fn wt_shift_rate(self, rate: u64) -> (r: Self)
        requires
            rate <= SCALE,
        ensures
            r == (Settings { wt_shift_rate: rate, ..self }),
    {
        Settings { wt_shift_rate: rate, ..self }
    }

    pub fn off_gene_on_rate(self, rate: u64) -> (r: Self)
        requires
            rate <= SCALE,
        ensures
            r == (Settings { off_gene_on_rate: rate, ..self }),
    {
        Settings { off_gene_on_rate: rate, ..self }
    }

    pub fn off_in_both_on_rate(self, rate: u64) -> (r: Self)
        requires
            rate <= SCALE,
        ensures
            r == (Settings { off_in_both_on_rate: rate, ..self }),
    {
        Settings { off_in_both_on_rate: rate, ..self }
    }

    pub fn only_mut_rate(self, rate: u64) -> (r: Self)
        requires
            rate <= SCALE,
        ensures
            r == (Settings { only_mut_rate: rate, ..self }),
    {
        Settings { only_mut_rate: rate, ..self }
    }

    pub fn disjoint_coeff(self, coeff: i64) -> (r: Self)
        requires
            0 <= coeff <= MAX_COEFF,
        ensures
            r == (Settings { disjoint_coeff: coeff, ..self }),
    {
        Settings { disjoint_coeff: coeff, ..self }
    }

    pub fn excess_coeff(self, coeff: i64) -> (r: Self)
        requires
            0 <= coeff <= MAX_COEFF,
        ensures
            r == (Settings { excess_coeff: coeff, ..self }),
    {
        Settings { excess_coeff: coeff, ..self }
    }

    pub fn activation_coeff(self, coeff: i64) -> (r: Self)
        requires
            0 <= coeff <= MAX_COEFF,
        ensures
            r == (Settings { activation_coeff: coeff, ..self }),
    {
        Settings { activation_coeff: coeff, ..self }
    }

    pub fn weight_coeff(self, coeff: i64) -> (r: Self)
        requires
            0 <= coeff <= MAX_COEFF,
        ensures
            r == (Settings { weight_coeff: coeff, ..self }),
    {
        Settings { weight_coeff: coeff, ..self }
    }

    pub fn speciation_threshold(self, threshold: i64) -> (r: Self)
        requires
            0 <= threshold <= MAX_COEFF,
        ensures
            r == (Settings { speciation_threshold: threshold, ..self }),
    {
        Settings { speciation_threshold: threshold, ..self }
    }

    pub fn allowed_stagnancy(self, stagnancy: u32) -> (r: Self)
        ensures
            r == (Settings { allowed_stagnancy: stagnancy, ..self }),
    {
        Settings { allowed_stagnancy: stagnancy, ..self }
    }
}

pub struct HyperSettings {
    pub min_weight: i64,
    pub max_weight: i64,
}

impl HyperSettings {
    /// The dead band is non-negative and strictly below the magnitude cap.
    pub open spec fn wf(&self) -> bool {
        &&& 0 <= self.min_weight
        &&& self.min_weight < self.max_weight
        &&& self.max_weight <= MAX_COEFF
    }

    /// Defaults: dead band 0.2, magnitude cap 3.0.
    pub fn default() -> (r: Self)
        ensures
            r.wf(),
            r.min_weight == 200_000,
            r.max_weight == 3 * SCALE,
    {
        HyperSettings { min_weight: 200_000, max_weight: 3 * SCALE }
    }

    pub fn min_weight(self, w: i64) -> (r: Self)
        requires
            0 <= w < self.max_weight,
        ensures
            r == (HyperSettings { min_weight: w, ..self }),
    {
        HyperSettings { min_weight: w, ..self }
    }

    pub fn max_weight(self, w: i64) -> (r: Self)
        requires
            self.min_weight < w <= MAX_COEFF,
        ensures
            r == (HyperSettings { max_weight: w, ..self }),
    {
        HyperSettings { max_weight: w, ..self }
    }

    /// A CPPN output below `min_weight` in magnitude is silenced; otherwise
    /// the result carries the sign of `w` and the magnitude
    /// `max_weight * |w - min_weight| / (max_weight - min_weight)`, truncated
    /// and saturated into the engine's value range.
    pub open spec fn spec_scaled_weight(&self, w: i64) -> i64 {
        if abs(w as int) < self.min_weight {
            0
        } else if w >= 0 {
            spec_sat((self.max_weight * (w - self.min_weight)) / (self.max_weight
                - self.min_weight))
        } else {
            spec_sat(-((self.max_weight * (self.min_weight - w)) / (self.max_weight
                - self.min_weight)))
        }
    }

    pub fn scaled_weight(&self, w: i64) -> (r: i64)
        requires
            self.wf(),
            -VAL_MAX <= w <= VAL_MAX,
        ensures
            r == self.spec_scaled_weight(w),
            abs(w as int) < self.min_weight ==> r == 0,
            -VAL_MAX <= r <= VAL_MAX,
    {
        let wm: i64 = if w < 0 {
            -w
        } else {
            w
        };
        if wm < self.min_weight {
            return 0;
        }
        let span: i128 = (self.max_weight - self.min_weight) as i128;
        if w >= 0 {
            proof {
                lemma_scale_num_bounds(
                    self.max_weight as int,
                    w - self.min_weight,
                    span as int,
                );
            }
            let num: i128 = self.max_weight as i128 * (w - self.min_weight) as i128;
            let q: i128 = num / span;
            if q > VAL_MAX as i128 {
                VAL_MAX
            } else {
                q as i64
            }
        } else {
            proof {
                lemma_scale_num_bounds(
                    self.max_weight as int,
                    self.min_weight - w,
                    span as int,
                );
            }
            let num: i128 = self.max_weight as i128 * (self.min_weight - w) as i128;
            let q: i128 = num / span;
            if q > VAL_MAX as i128 {
                -VAL_MAX
            } else {
                -(q as i64)
            }
        }
    }
}

/// The numerator of the weight scaler is non-negative and small enough for
/// `i128`, and its quotient by the positive span is non-negative.
proof fn lemma_scale_num_bounds(max: int, dist: int, span: int)
    requires
        0 <= max <= MAX_COEFF,
        0 <= dist <= VAL_MAX + MAX_COEFF,
        0 < span,
    ensures
        0 <= max * dist <= MAX_COEFF * (VAL_MAX + MAX_COEFF),
        0 <= (max * dist) / span,
{
    vstd::arithmetic::mul::lemma_mul_upper_bound(max, MAX_COEFF as int, dist, VAL_MAX + MAX_COEFF);
    assert(0 <= max * dist) by (nonlinear_arith)
        requires
            0 <= max,
            0 <= dist,
    ;
    vstd::arithmetic::div_mod::lemma_div_pos_is_pos(max * dist, span);
}

/// The scaler is zero inside the dead band; outside it, it is bounded in
/// magnitude by `max_weight` wherever the unscaled magnitude is: for
/// `w <= max_weight` on the positive side and for
/// `w >= 2 * min_weight - max_weight` on the negative side.
pub proof fn lemma_scaled_weight_bounded(hs: HyperSettings, w: i64)
    requires
        hs.wf(),
        2 * hs.min_weight - hs.max_weight <= w <= hs.max_weight,
    ensures
        -hs.max_weight <= hs.spec_scaled_weight(w) <= hs.max_weight,
{
    let max = hs.max_weight as int;
    let min = hs.min_weight as int;
    let span = max - min;
    if abs(w as int) < min {
    } else if w >= 0 {
        let dist = w - min;
        lemma_scale_num_bounds(max, dist, span);
        vstd::arithmetic::mul::lemma_mul_upper_bound(max, max, dist, span);
        vstd::arithmetic::div_mod::lemma_div_is_ordered(max * dist, max * span, span);
        vstd::arithmetic::div_mod::lemma_div_by_multiple(max, span);
        assert(max * span == span * max) by (nonlinear_arith);
    } else {
        let dist = min - w;
        lemma_scale_num_bounds(max, dist, span);
        vstd::arithmetic::mul::lemma_mul_upper_bound(max, max, dist, span);
        vstd::arithmetic::div_mod::lemma_div_is_ordered(max * dist, max * span, span);
        vstd::arithmetic::div_mod::lemma_div_by_multiple(max, span);
        assert(max * span == span * max) by (nonlinear_arith);
    }
}

/// With no dead band (`min_weight == 0`) the scaler is the identity on the
/// value range, hence odd in `w`.
pub proof fn lemma_scaled_weight_odd(hs: HyperSettings, w: i64)
    requires
        hs.wf(),
        hs.min_weight == 0,
        -VAL_MAX <= w <= VAL_MAX,
        -VAL_MAX <= -w <= VAL_MAX,
    ensures
        hs.spec_scaled_weight(w) == w,
        hs.spec_scaled_weight((-w) as i64) == -hs.spec_scaled_weight(w),
{
    let max = hs.max_weight as int;
    assert(max * (w as int) == (w as int) * max) by (nonlinear_arith);
    assert(max * (-(w as int)) == (-(w as int)) * max) by (nonlinear_arith);
    if w >= 0 {
        vstd::arithmetic::div_mod::lemma_div_by_multiple(w as int, max);
    } else {
        vstd::arithmetic::div_mod::lemma_div_by_multiple(-(w as int), max);
    }
}

} // verus!
