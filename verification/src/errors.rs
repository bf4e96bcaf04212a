//! Error kinds surfaced by the engine.

use vstd::prelude::*;

verus! {

/// Everything the engine can reject.
#[derive(Clone, Copy, Debug, PartialEq, Eq, Structural)]
pub enum NeatError {
    /// `feed_forward` input length differs from the genome's declared inputs.
    InputArityMismatch,
    /// An evaluation step found no value for a node it must process; this
    /// signals a broken topology, not a recoverable condition.
    MissingValue,
    /// A tensor was rejected: too few rows, ragged rows, or too few columns.
    TensorShape,
    /// CPPN arity does not match the presence of a third-parameter function.
    HyperArity,
}

} // verus!
