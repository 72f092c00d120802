use vstd::prelude::*;

verus! {

/// Errors reported by the sparse-matrix operators. Every one of them is found
/// before any output is built.
#[derive(Debug, Clone, Copy, PartialEq, Eq)]
pub enum SparseError {
    /// The operands' shapes disagree: `left` is the receiver's (rows, cols)
    /// or length, `right` the other operand's.
    Shape { left: (usize, usize), right: (usize, usize) },
    /// A triplet names a row or column outside the declared shape.
    IndexOutOfBounds { row: usize, col: usize },
    /// Two triplets name the same (row, column) position.
    DuplicateEntry { row: usize, col: usize },
    /// A requested range is reversed or reaches past the matrix.
    RangeOutOfBounds,
    /// A step was asked for over an interaction matrix with no rows, whose
    /// averages would divide by zero.
    NoObservations,
    /// The row, column and value sequences differ in length.
    Construction { rows: usize, cols: usize, values: usize },
}

} // verus!
