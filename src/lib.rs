//! Sparse matrices of `i64` values in coordinate (COO), compressed row (CSR)
//! and compressed column (CSC) form, with verified conversions between them
//! and a dense form, and verified elementwise subtraction.
use vstd::prelude::*;

pub mod convert;
pub mod coo;
pub mod cs;
pub mod dense;
pub mod error;
pub mod lanes;
pub mod offsets;
pub mod scalar;
pub mod spsub;
pub mod sums;
pub mod transpose;

verus! {

/// An entry of a sparse matrix: a reference to a stored value, or an
/// implicit zero. A stored value may itself be zero (an explicit zero).
#[derive(Debug, PartialEq, Eq)]
pub enum SparseEntry<'a> {
    NonZero(&'a i64),
    Zero,
}

impl<'a> SparseEntry<'a> {
    /// The value the entry stands for.
    pub fn into_value(self) -> (r: i64)
        ensures
            r == (match self {
                SparseEntry::NonZero(v) => *v,
                SparseEntry::Zero => 0i64,
            }),
    {
        match self {
            SparseEntry::NonZero(value) => *value,
            SparseEntry::Zero => 0,
        }
    }
}

/// A mutable entry of a sparse matrix: a mutable reference to a stored
/// value, or an implicit zero.
#[derive(Debug, PartialEq, Eq)]
pub enum SparseEntryMut<'a> {
    NonZero(&'a mut i64),
    Zero,
}

impl<'a> SparseEntryMut<'a> {
    /// The value the entry stands for.
    pub fn into_value(self) -> (r: i64)
        ensures
            r == (match self {
                SparseEntryMut::NonZero(v) => *v,
                SparseEntryMut::Zero => 0i64,
            }),
    {
        match self {
            SparseEntryMut::NonZero(value) => *value,
            SparseEntryMut::Zero => 0,
        }
    }
}

} // verus!
