//! Error values of the fallible entry points.
use vstd::prelude::*;

verus! {

/// Why a validating constructor refused its parts.
#[derive(Clone, Copy, Debug, PartialEq, Eq, Structural)]
pub enum SparseFormatErrorKind {
    /// Parallel arrays differ in length.
    LengthMismatch,
    /// The offsets array has the wrong length, does not start at zero, does not
    /// end at the number of entries, or decreases somewhere.
    InvalidOffsets,
    /// An index is not below the dimension it indexes.
    IndexOutOfBounds,
    /// Within one lane the minor indices are not strictly increasing.
    DuplicateOrUnsortedIndices,
}

/// A structural error reported by a validating constructor.
#[derive(Clone, Copy, Debug, PartialEq, Eq, Structural)]
pub struct SparseFormatError {
    pub kind: SparseFormatErrorKind,
}

impl SparseFormatError {
    pub fn kind(&self) -> (r: SparseFormatErrorKind)
        ensures
            r == self.kind,
    {
        self.kind
    }
}

/// Why an operation on two matrices refused them.
#[derive(Clone, Copy, Debug, PartialEq, Eq, Structural)]
pub enum OperationErrorKind {
    /// The operands do not have the shapes that the operation needs.
    InvalidPattern,
}

/// An operation error, with the shapes of both operands.
#[derive(Clone, Copy, Debug, PartialEq, Eq, Structural)]
pub struct OperationError {
    pub kind: OperationErrorKind,
    pub left_nrows: usize,
    pub left_ncols: usize,
    pub right_nrows: usize,
    pub right_ncols: usize,
}

impl OperationError {
    pub fn kind(&self) -> (r: OperationErrorKind)
        ensures
            r == self.kind,
    {
        self.kind
    }
}

} // verus!
