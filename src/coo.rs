//! The coordinate (triplet) format: an append-only list of entries that may
//! repeat a position.
use vstd::prelude::*;
use crate::error::{SparseFormatError, SparseFormatErrorKind};
use crate::sums::{Triplet, seq_sum, key_term, pos_term, neg_term};

verus! {

/// A coordinate matrix as mathematics: its shape and its (row, col, value)
/// entries in insertion order.
pub struct CooView {
    pub nrows: nat,
    pub ncols: nat,
    pub entries: Seq<Triplet>,
}

impl CooView {
    pub open spec fn wf(self) -> bool {
        forall|i: int|
            0 <= i < self.entries.len() ==> (#[trigger] self.entries[i]).0 < self.nrows
                && self.entries[i].1 < self.ncols
    }

    /// Sum of the values of the first `n` entries at (`r`, `c`).
    pub open spec fn cell_sum(self, n: int, r: int, c: int) -> int {
        seq_sum(self.entries.take(n), key_term(r, c))
    }

    /// The value of cell (`r`, `c`): all entries there, summed.
    pub open spec fn cell(self, r: int, c: int) -> int {
        self.cell_sum(self.entries.len() as int, r, c)
    }

    pub open spec fn has_entry(self, r: int, c: int) -> bool {
        exists|i: int|
            0 <= i < self.entries.len() && (#[trigger] self.entries[i]).0 == r && self.entries[i].1
                == c
    }

    pub open spec fn pos_total(self, r: int, c: int) -> int {
        seq_sum(self.entries, pos_term(r, c))
    }

    pub open spec fn neg_total(self, r: int, c: int) -> int {
        seq_sum(self.entries, neg_term(r, c))
    }

    /// Summing the entries of any cell in insertion order stays within `i64`.
    pub open spec fn prefix_sums_fit(self) -> bool {
        forall|n: int, r: int, c: int|
            0 <= n <= self.entries.len() ==> i64::MIN <= #[trigger] self.cell_sum(n, r, c)
                <= i64::MAX
    }

    /// Summing the entries of any cell in any order stays within `i64`: the
    /// positive ones and the negative ones each sum within range.
    pub open spec fn sums_fit(self) -> bool {
        forall|r: int, c: int|
            #[trigger] self.pos_total(r, c) <= i64::MAX && i64::MIN <= self.neg_total(r, c)
    }

    /// No two entries share a position.
    pub open spec fn no_duplicates(self) -> bool {
        forall|i: int, j: int|
            0 <= i < j < self.entries.len() ==> (#[trigger] self.entries[i]).0 != (
            #[trigger] self.entries[j]).0 || self.entries[i].1 != self.entries[j].1
    }
}

/// A coordinate matrix of `i64` values.
#[derive(Debug, PartialEq, Eq)]
pub struct CooMatrix {
    pub(crate) nrows: usize,
    pub(crate) ncols: usize,
    pub(crate) row_indices: Vec<usize>,
    pub(crate) col_indices: Vec<usize>,
    pub(crate) values: Vec<i64>,
}

pub open spec fn zip3(rows: Seq<usize>, cols: Seq<usize>, values: Seq<i64>) -> Seq<Triplet> {
    Seq::new(rows.len(), |i: int| (rows[i], cols[i], values[i]))
}

impl Clone for CooMatrix {
    fn clone(&self) -> Self {
        CooMatrix {
            nrows: self.nrows,
            ncols: self.ncols,
            row_indices: self.row_indices.clone(),
            col_indices: self.col_indices.clone(),
            values: self.values.clone(),
        }
    }
}

impl View for CooMatrix {
    type V = CooView;

    open(crate) spec fn view(&self) -> CooView {
        CooView {
            nrows: self.nrows as nat,
            ncols: self.ncols as nat,
            entries: zip3(self.row_indices@, self.col_indices@, self.values@),
        }
    }
}

impl CooMatrix {
    pub open(crate) spec fn wf(&self) -> bool {
        &&& self.row_indices@.len() == self.col_indices@.len()
        &&& self.row_indices@.len() == self.values@.len()
        &&& self@.wf()
    }

    /// An empty matrix of the given shape.
    pub fn new(nrows: usize, ncols: usize) -> (r: Self)
        ensures
            r.wf(),
            r@ == (CooView { nrows: nrows as nat, ncols: ncols as nat, entries: Seq::empty() }),
    {
        let r = CooMatrix {
            nrows,
            ncols,
            row_indices: Vec::new(),
            col_indices: Vec::new(),
            values: Vec::new(),
        };
        assert(r@.entries =~= Seq::<Triplet>::empty());
        r
    }

    /// Builds a matrix from parallel arrays of rows, columns and values,
    /// checking their lengths first and then their bounds.
    pub fn try_from_triplets(
        nrows: usize,
        ncols: usize,
        row_indices: Vec<usize>,
        col_indices: Vec<usize>,
        values: Vec<i64>,
    ) -> (r: Result<Self, SparseFormatError>)
        ensures
            (row_indices@.len() != col_indices@.len() || row_indices@.len() != values@.len())
                ==> r == Err::<Self, SparseFormatError>(
                SparseFormatError { kind: SparseFormatErrorKind::LengthMismatch },
            ),
            (row_indices@.len() == col_indices@.len() && row_indices@.len() == values@.len())
                ==> {
                let v = CooView {
                    nrows: nrows as nat,
                    ncols: ncols as nat,
                    entries: zip3(row_indices@, col_indices@, values@),
                };
                &&& !v.wf() ==> r == Err::<Self, SparseFormatError>(
                    SparseFormatError { kind: SparseFormatErrorKind::IndexOutOfBounds },
                )
                &&& v.wf() ==> (r matches Ok(m) && m.wf() && m@ == v)
            },
    {
        if row_indices.len() != col_indices.len() || row_indices.len() != values.len() {
            return Err(SparseFormatError { kind: SparseFormatErrorKind::LengthMismatch });
        }
        let ghost v = CooView {
            nrows: nrows as nat,
            ncols: ncols as nat,
            entries: zip3(row_indices@, col_indices@, values@),
        };
        let mut i: usize = 0;
        while i < row_indices.len()
            invariant
                i <= row_indices@.len(),
                row_indices@.len() == col_indices@.len(),
                row_indices@.len() == values@.len(),
                v.entries.len() == row_indices@.len(),
                v == (CooView {
                    nrows: nrows as nat,
                    ncols: ncols as nat,
                    entries: zip3(row_indices@, col_indices@, values@),
                }),
                forall|j: int|
                    0 <= j < i ==> (#[trigger] v.entries[j]).0 < nrows && v.entries[j].1 < ncols,
            decreases row_indices@.len() - i,
        {
            if row_indices[i] >= nrows || col_indices[i] >= ncols {
                assert(!v.wf()) by {
                    assert(v.entries[i as int].0 == row_indices@[i as int]);
                }
                return Err(SparseFormatError { kind: SparseFormatErrorKind::IndexOutOfBounds });
            }
            i = i + 1;
        }
        Ok(CooMatrix { nrows, ncols, row_indices, col_indices, values })
    }

    /// Appends the entry (`i`, `j`, `v`).
    pub fn push(&mut self, i: usize, j: usize, v: i64)
        requires
            old(self).wf(),
            i < old(self)@.nrows,
            j < old(self)@.ncols,
        ensures
            final(self).wf(),
            final(self)@ == (CooView { entries: old(self)@.entries.push((i, j, v)), ..old(self)@ }),
    {
        self.row_indices.push(i);
        self.col_indices.push(j);
        self.values.push(v);
        assert(self@.entries =~= old(self)@.entries.push((i, j, v)));
    }

    pub fn nrows(&self) -> (r: usize)
        ensures
            r == self@.nrows,
    {
        self.nrows
    }

    pub fn ncols(&self) -> (r: usize)
        ensures
            r == self@.ncols,
    {
        self.ncols
    }

    /// Number of stored entries, repeated positions counted each time.
    pub fn nnz(&self) -> (r: usize)
        requires
            self.wf(),
        ensures
            r == self@.entries.len(),
    {
        self.values.len()
    }

    pub fn row_indices(&self) -> (r: &[usize])
        requires
            self.wf(),
        ensures
            r@.len() == self@.entries.len(),
            forall|i: int| 0 <= i < r@.len() ==> r@[i] == self@.entries[i].0,
    {
        self.row_indices.as_slice()
    }

    pub fn col_indices(&self) -> (r: &[usize])
        requires
            self.wf(),
        ensures
            r@.len() == self@.entries.len(),
            forall|i: int| 0 <= i < r@.len() ==> r@[i] == self@.entries[i].1,
    {
        self.col_indices.as_slice()
    }

    pub fn values(&self) -> (r: &[i64])
        requires
            self.wf(),
        ensures
            r@.len() == self@.entries.len(),
            forall|i: int| 0 <= i < r@.len() ==> r@[i] == self@.entries[i].2,
    {
        self.values.as_slice()
    }

    /// Hands out the row indices, column indices and values.
    pub fn disassemble(self) -> (r: (Vec<usize>, Vec<usize>, Vec<i64>))
        requires
            self.wf(),
        ensures
            r.0@.len() == self@.entries.len(),
            r.1@.len() == self@.entries.len(),
            r.2@.len() == self@.entries.len(),
            zip3(r.0@, r.1@, r.2@) == self@.entries,
    {
        (self.row_indices, self.col_indices, self.values)
    }
}

} // verus!
