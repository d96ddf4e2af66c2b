use vstd::prelude::*;

verus! {

/// Operands whose row and column counts do not fit the operation.
#[derive(Clone, Copy, Debug, PartialEq, Eq, Structural)]
pub enum ShapeError {
    /// Two operands of an elementwise operation differ in shape.
    ShapeMismatch,
    /// The left operand's column count differs from the right operand's row count.
    InnerDimensionMismatch,
    /// The rows of a literal do not all have the same length.
    RaggedRows,
}

} // verus!
