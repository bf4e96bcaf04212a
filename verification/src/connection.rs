//! A directed edge: an innovation id, endpoint node ids, a fixed-point
//! weight on `[-1, 1]`, and an enable flag.

use vstd::prelude::*;
use crate::fixed::SCALE;
use crate::rng::{chance, perturb_delta, rand_full_weight, PERTURB_MAX};
use crate::settings::Settings;

verus! {

pub struct Connection {
    pub innov: u32,
    pub from: u32,
    pub to: u32,
    pub weight: i64,
    pub enabled: bool,
}

impl Clone for Connection {
    fn clone(&self) -> (r: Self)
        ensures
            r == *self,
    {
        Connection {
            innov: self.innov,
            from: self.from,
            to: self.to,
            weight: self.weight,
            enabled: self.enabled,
        }
    }
}

impl Copy for Connection {

}

impl PartialEq for Connection {
    /// Two connections are equal iff their innovation ids match.
    fn eq(&self, other: &Self) -> (r: bool) {
        self.innov == other.innov
    }
}

impl vstd::std_specs::cmp::PartialEqSpecImpl for Connection {
    open spec fn obeys_eq_spec() -> bool {
        true
    }

    open spec fn eq_spec(&self, other: &Self) -> bool {
        self.innov == other.innov
    }
}

impl Connection {
    pub fn new(innov: u32, from: u32, to: u32, weight: i64, enabled: bool) -> (r: Self)
        ensures
            r == (Connection { innov, from, to, weight, enabled }),
    {
        Connection { innov, from, to, weight, enabled }
    }

    pub fn enable(&mut self)
        ensures
            *final(self) == (Connection { enabled: true, ..*old(self) }),
    {
        self.enabled = true;
    }

    pub fn disable(&mut self)
        ensures
            *final(self) == (Connection { enabled: false, ..*old(self) }),
    {
        self.enabled = false;
    }

    /// With probability `wt_shift_rate`, perturb the weight by an
    /// approximately normal step and clamp to `[-1, 1]`; otherwise replace it
    /// with a uniform sample on `[-1, 1)`. Everything but the weight is kept.
    pub fn mutate_weight(&mut self, sets: &Settings)
        requires
            -SCALE <= old(self).weight <= SCALE,
            sets.wf(),
        ensures
            -SCALE <= final(self).weight <= SCALE,
            final(self).innov == old(self).innov,
            final(self).from == old(self).from,
            final(self).to == old(self).to,
            final(self).enabled == old(self).enabled,
    {
        if chance(sets.wt_shift_rate) {
            let delta = perturb_delta();
            let shifted = self.weight + delta;
            self.weight = if shifted < -SCALE {
                -SCALE
            } else if shifted > SCALE {
                SCALE
            } else {
                shifted
            };
        } else {
            self.weight = rand_full_weight();
        }
    }
}

} // verus!
