//! The closed set of activation functions a node can carry, with uniform
//! sampling over it.

use vstd::prelude::*;
use crate::rng::rand_index;

verus! {

/// The activation kinds. Their fixed-point shapes live with `Node`.
#[derive(Clone, Copy, Debug, PartialEq, Eq, Structural)]
pub enum Activations {
    Sine,
    Cosine,
    Gaussian,
    Sigmoid,
    Absolute,
    Linear,
}

impl Activations {
    /// A uniform draw over the six kinds.
    pub fn sample() -> Activations {
        let k = rand_index(6);
        if k == 0 {
            Activations::Sine
        } else if k == 1 {
            Activations::Cosine
        } else if k == 2 {
            Activations::Gaussian
        } else if k == 3 {
            Activations::Sigmoid
        } else if k == 4 {
            Activations::Absolute
        } else {
            Activations::Linear
        }
    }
}

} // verus!
