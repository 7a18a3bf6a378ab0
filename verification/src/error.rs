//! The ways in which a transform request can be refused.

use vstd::prelude::*;

verus! {

/// Why a transform did nothing. A refused request leaves the output untouched.
#[derive(Debug, Clone, Copy, PartialEq, Eq, Structural)]
pub enum TransformError {
    /// The input and the output do not have the same shape.
    ShapeMismatch,
    /// An axis is not below the number of axes of the arrays.
    InvalidAxis,
    /// The list of axes to transform is empty.
    EmptyAxisList,
}

} // verus!
