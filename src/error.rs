//! Failures of tensor and network operations.

use vstd::prelude::*;

verus! {

/// Why an operation could not be carried out.
#[derive(Clone, Debug, PartialEq, Eq)]
pub enum TensorError {
    /// The operands' shapes do not fit the operation; both shapes are kept.
    ShapeMismatch { left: Vec<usize>, right: Vec<usize> },
    /// A coordinate is past its dimension, or the number of coordinates is not
    /// the tensor's rank.
    IndexOutOfBounds,
    /// The network has no dense layer to run or to train.
    InvalidNetworkState,
    /// Stored parameters do not fit the network's layer sizes.
    TopologyMismatch,
}

/// `e` reports that shapes `a` and `b` do not fit together.
pub open spec fn is_shape_mismatch(e: TensorError, a: Seq<usize>, b: Seq<usize>) -> bool {
    match e {
        TensorError::ShapeMismatch { left, right } => left@ == a && right@ == b,
        _ => false,
    }
}

} // verus!
