//! Compressed sparse matrices: row-major (CSR) and column-major (CSC).
use vstd::prelude::*;
use std::marker::PhantomData;
use crate::error::{SparseFormatError, SparseFormatErrorKind};
use crate::lanes::{Lanes, lemma_get_stored};
use crate::SparseEntry;

verus! {

/// The storage orientation of a compressed matrix, fixed by its type.
pub trait Compression {
    /// Rows are the major axis.
    spec fn row_major() -> bool;

    fn is_row_major() -> (r: bool)
        ensures
            r == Self::row_major(),
    ;
}

/// Row-major orientation: one lane per row, minor indices are columns.
#[derive(Clone, Copy, Debug, PartialEq, Eq)]
pub struct CompressedRowStorage;

/// Column-major orientation: one lane per column, minor indices are rows.
#[derive(Clone, Copy, Debug, PartialEq, Eq)]
pub struct CompressedColumnStorage;

impl Compression for CompressedRowStorage {
    open spec fn row_major() -> bool {
        true
    }

    fn is_row_major() -> (r: bool) {
        true
    }
}

impl Compression for CompressedColumnStorage {
    open spec fn row_major() -> bool {
        false
    }

    fn is_row_major() -> (r: bool) {
        false
    }
}

/// The lanes that the given parts describe in the given orientation.
pub open spec fn parts_view(
    row_major: bool,
    nrows: usize,
    ncols: usize,
    offsets: Seq<usize>,
    indices: Seq<usize>,
    values: Seq<i64>,
) -> Lanes {
    Lanes {
        nmajor: if row_major { nrows as nat } else { ncols as nat },
        nminor: if row_major { ncols as nat } else { nrows as nat },
        offsets,
        indices,
        values,
    }
}

/// A compressed sparse matrix of `i64` values in orientation `C`.
#[derive(Debug, PartialEq, Eq)]
pub struct CsMatrix<C> {
    pub(crate) nrows: usize,
    pub(crate) ncols: usize,
    pub(crate) offsets: Vec<usize>,
    pub(crate) indices: Vec<usize>,
    pub(crate) values: Vec<i64>,
    pub(crate) compression: PhantomData<C>,
}

/// Compressed sparse row matrix.
pub type CsrMatrix = CsMatrix<CompressedRowStorage>;

/// Compressed sparse column matrix.
pub type CscMatrix = CsMatrix<CompressedColumnStorage>;

impl<C> Clone for CsMatrix<C> {
    fn clone(&self) -> Self {
        CsMatrix {
            nrows: self.nrows,
            ncols: self.ncols,
            offsets: self.offsets.clone(),
            indices: self.indices.clone(),
            values: self.values.clone(),
            compression: PhantomData,
        }
    }
}

impl<C: Compression> View for CsMatrix<C> {
    type V = Lanes;

    open(crate) spec fn view(&self) -> Lanes {
        parts_view(C::row_major(), self.nrows, self.ncols, self.offsets@, self.indices@, self.values@)
    }
}

impl<C: Compression> CsMatrix<C> {
    pub open spec fn wf(&self) -> bool {
        self@.wf()
    }

    pub open spec fn spec_nrows(&self) -> nat {
        if C::row_major() { self@.nmajor } else { self@.nminor }
    }

    pub open spec fn spec_ncols(&self) -> nat {
        if C::row_major() { self@.nminor } else { self@.nmajor }
    }

    /// The stored value at (`r`, `c`), if there is one.
    pub open spec fn entry(&self, r: int, c: int) -> Option<i64> {
        if C::row_major() { self@.get(r, c) } else { self@.get(c, r) }
    }

    /// The value of cell (`r`, `c`), zero where nothing is stored.
    pub open spec fn cell(&self, r: int, c: int) -> int {
        if C::row_major() { self@.value_at(r, c) } else { self@.value_at(c, r) }
    }

    /// Assembles a matrix from parts that already satisfy the format's
    /// invariants; nothing is checked at run time.
    pub(crate) fn from_parts_unchecked(
        nrows: usize,
        ncols: usize,
        offsets: Vec<usize>,
        indices: Vec<usize>,
        values: Vec<i64>,
    ) -> (r: Self)
        requires
            parts_view(C::row_major(), nrows, ncols, offsets@, indices@, values@).wf(),
        ensures
            r@ == parts_view(C::row_major(), nrows, ncols, offsets@, indices@, values@),
            r.wf(),
    {
        CsMatrix { nrows, ncols, offsets, indices, values, compression: PhantomData }
    }

    /// Assembles a matrix from parts after checking every invariant of the
    /// format; the error names the first kind of violation, in the order
    /// lengths, offsets, index bounds, lane order.
    pub fn try_from_parts(
        nrows: usize,
        ncols: usize,
        offsets: Vec<usize>,
        indices: Vec<usize>,
        values: Vec<i64>,
    ) -> (r: Result<Self, SparseFormatError>)
        ensures
            ({
                let l = parts_view(C::row_major(), nrows, ncols, offsets@, indices@, values@);
                &&& (indices@.len() != values@.len()) ==> r == Err::<Self, SparseFormatError>(
                    SparseFormatError { kind: SparseFormatErrorKind::LengthMismatch },
                )
                &&& (indices@.len() == values@.len() && !l.offsets_wf()) ==> r == Err::<
                    Self,
                    SparseFormatError,
                >(SparseFormatError { kind: SparseFormatErrorKind::InvalidOffsets })
                &&& (indices@.len() == values@.len() && l.offsets_wf() && exists|p: int|
                    0 <= p < indices@.len() && #[trigger] indices@[p] >= l.nminor) ==> r == Err::<
                    Self,
                    SparseFormatError,
                >(SparseFormatError { kind: SparseFormatErrorKind::IndexOutOfBounds })
                &&& (indices@.len() == values@.len() && l.offsets_wf() && (forall|p: int|
                    0 <= p < indices@.len() ==> #[trigger] indices@[p] < l.nminor) && exists|k: int|
                    0 <= k < l.nmajor && !#[trigger] l.lane_sorted(k)) ==> r == Err::<
                    Self,
                    SparseFormatError,
                >(SparseFormatError { kind: SparseFormatErrorKind::DuplicateOrUnsortedIndices })
                &&& l.wf() ==> (r matches Ok(m) && m@ == l)
            }),
    {
        let row_major = C::is_row_major();
        let nmajor = if row_major { nrows } else { ncols };
        let nminor = if row_major { ncols } else { nrows };
        let ghost l = parts_view(C::row_major(), nrows, ncols, offsets@, indices@, values@);
        if indices.len() != values.len() {
            return Err(SparseFormatError { kind: SparseFormatErrorKind::LengthMismatch });
        }
        if !offsets_are_valid(&offsets, nmajor, indices.len()) {
            return Err(SparseFormatError { kind: SparseFormatErrorKind::InvalidOffsets });
        }
        assert(l.offsets_wf());
        let mut p: usize = 0;
        while p < indices.len()
            invariant
                l == parts_view(C::row_major(), nrows, ncols, offsets@, indices@, values@),
                l.offsets_wf(),
                indices@.len() == values@.len(),
                nminor == l.nminor,
                nmajor == l.nmajor,
                p <= indices@.len(),
                forall|q: int| 0 <= q < p ==> #[trigger] indices@[q] < nminor,
            decreases indices@.len() - p,
        {
            if indices[p] >= nminor {
                return Err(SparseFormatError { kind: SparseFormatErrorKind::IndexOutOfBounds });
            }
            p = p + 1;
        }
        let mut k: usize = 0;
        while k < nmajor
            invariant
                l == parts_view(C::row_major(), nrows, ncols, offsets@, indices@, values@),
                l.offsets_wf(),
                indices@.len() == values@.len(),
                forall|q: int| 0 <= q < indices@.len() ==> #[trigger] indices@[q] < nminor,
                nminor == l.nminor,
                l.nmajor == nmajor,
                k <= nmajor,
                forall|j: int| 0 <= j < k ==> #[trigger] l.lane_sorted(j),
            decreases nmajor - k,
        {
            assert(offsets@[0] <= offsets@[k as int] <= offsets@[k + 1] <= offsets@[nmajor as int]);
            if !lane_is_sorted(&offsets, &indices, k) {
                assert(!l.lane_sorted(k as int));
                return Err(
                    SparseFormatError { kind: SparseFormatErrorKind::DuplicateOrUnsortedIndices },
                );
            }
            k = k + 1;
        }
        Ok(CsMatrix { nrows, ncols, offsets, indices, values, compression: PhantomData })
    }

    /// The matrix of the given shape that stores nothing.
    pub fn zeros(nrows: usize, ncols: usize) -> (r: Self)
        requires
            (if C::row_major() { nrows } else { ncols }) < usize::MAX,
        ensures
            r.wf(),
            r.spec_nrows() == nrows,
            r.spec_ncols() == ncols,
            r@.nnz() == 0,
    {
        let nmajor = if C::is_row_major() { nrows } else { ncols };
        let mut offsets: Vec<usize> = Vec::new();
        let mut k: usize = 0;
        while k <= nmajor
            invariant
                k <= nmajor + 1,
                nmajor < usize::MAX,
                offsets@.len() == k,
                forall|i: int| 0 <= i < k ==> #[trigger] offsets@[i] == 0,
            decreases nmajor + 1 - k,
        {
            offsets.push(0);
            k = k + 1;
        }
        let r = CsMatrix {
            nrows,
            ncols,
            offsets,
            indices: Vec::new(),
            values: Vec::new(),
            compression: PhantomData,
        };
        assert forall|k: int| 0 <= k < r@.nmajor implies #[trigger] r@.lane_sorted(k) by {
            assert(r@.offsets[k] == 0 && r@.offsets[k + 1] == 0);
        }
        r
    }

    pub fn nrows(&self) -> (r: usize)
        ensures
            r == self.spec_nrows(),
    {
        self.nrows
    }

    pub fn ncols(&self) -> (r: usize)
        ensures
            r == self.spec_ncols(),
    {
        self.ncols
    }

    pub fn shape(&self) -> (r: (usize, usize))
        ensures
            r.0 == self.spec_nrows(),
            r.1 == self.spec_ncols(),
    {
        (self.nrows, self.ncols)
    }

    /// Number of explicitly stored entries.
    pub fn nnz(&self) -> (r: usize)
        ensures
            r == self@.nnz(),
    {
        self.indices.len()
    }

    pub fn offsets(&self) -> (r: &[usize])
        ensures
            r@ == self@.offsets,
    {
        self.offsets.as_slice()
    }

    pub fn indices(&self) -> (r: &[usize])
        ensures
            r@ == self@.indices,
    {
        self.indices.as_slice()
    }

    pub fn values(&self) -> (r: &[i64])
        ensures
            r@ == self@.values,
    {
        self.values.as_slice()
    }

    /// The entry at (`row`, `col`): `None` outside the matrix, else the stored
    /// value or an implicit zero.
    pub fn get_entry(&self, row: usize, col: usize) -> (r: Option<SparseEntry<'_>>)
        requires
            self.wf(),
        ensures
            (row >= self.spec_nrows() || col >= self.spec_ncols()) ==> r is None,
            (row < self.spec_nrows() && col < self.spec_ncols()) ==> (r matches Some(e) && match e {
                SparseEntry::NonZero(v) => self.entry(row as int, col as int) == Some(*v),
                SparseEntry::Zero => self.entry(row as int, col as int) is None,
            }),
    {
        if row >= self.nrows || col >= self.ncols {
            return None;
        }
        let ghost l = self@;
        let row_major = C::is_row_major();
        let k = if row_major { row } else { col };
        let m = if row_major { col } else { row };
        proof {
            assert(l.offsets[k as int] <= l.offsets[k + 1] <= l.offsets[l.nmajor as int]);
        }
        let start = self.offsets[k];
        let end = self.offsets[k + 1];
        let mut p = start;
        while p < end
            invariant
                l == self@,
                l.wf(),
                row < self.spec_nrows(),
                col < self.spec_ncols(),
                row_major == C::row_major(),
                k == (if row_major { row } else { col }),
                m == (if row_major { col } else { row }),
                k < l.nmajor,
                start == l.offsets[k as int],
                end == l.offsets[k + 1],
                start <= p <= end,
                end <= l.nnz(),
                forall|q: int| start <= q < p ==> #[trigger] l.indices[q] != m,
            decreases end - p,
        {
            if self.indices[p] == m {
                proof {
                    assert(l.stores(k as int, m as int, p as int));
                    lemma_get_stored(l, k as int, m as int, p as int);
                }
                return Some(SparseEntry::NonZero(&self.values[p]));
            }
            p = p + 1;
        }
        proof {
            if exists|q: int| l.stores(k as int, m as int, q) {
                let q = choose|q: int| l.stores(k as int, m as int, q);
                assert(l.indices[q] != m);
            }
        }
        Some(SparseEntry::Zero)
    }

    /// Hands out the offsets, minor indices and values.
    pub fn disassemble(self) -> (r: (Vec<usize>, Vec<usize>, Vec<i64>))
        ensures
            r.0@ == self@.offsets,
            r.1@ == self@.indices,
            r.2@ == self@.values,
    {
        (self.offsets, self.indices, self.values)
    }
}

/// Checks that `offsets` is a valid offsets array for `nmajor` lanes holding
/// `nnz` entries in all.
fn offsets_are_valid(offsets: &Vec<usize>, nmajor: usize, nnz: usize) -> (ok: bool)
    ensures
        ok == (Lanes {
            nmajor: nmajor as nat,
            nminor: 0,
            offsets: offsets@,
            indices: Seq::new(nnz as nat, |i: int| 0usize),
            values: Seq::empty(),
        }).offsets_wf(),
{
    let ghost l = Lanes {
        nmajor: nmajor as nat,
        nminor: 0,
        offsets: offsets@,
        indices: Seq::new(nnz as nat, |i: int| 0usize),
        values: Seq::empty(),
    };
    if offsets.len() == 0 || offsets.len() - 1 != nmajor {
        return false;
    }
    if offsets[0] != 0 || offsets[nmajor] != nnz {
        return false;
    }
    let mut k: usize = 0;
    while k < nmajor
        invariant
            l == (Lanes {
                nmajor: nmajor as nat,
                nminor: 0,
                offsets: offsets@,
                indices: Seq::new(nnz as nat, |i: int| 0usize),
                values: Seq::empty(),
            }),
            offsets@[0] == 0,
            offsets@[nmajor as int] == nnz,
            k <= nmajor,
            offsets@.len() == nmajor + 1,
            forall|i: int, j: int| 0 <= i <= j <= k ==> #[trigger] offsets@[i] <= #[trigger] offsets@[j],
        decreases nmajor - k,
    {
        if offsets[k] > offsets[k + 1] {
            assert(!l.offsets_wf()) by {
                assert(offsets@[k as int] > offsets@[k + 1]);
            }
            return false;
        }
        k = k + 1;
    }
    true
}

/// Checks that lane `k` has strictly increasing minor indices.
fn lane_is_sorted(offsets: &Vec<usize>, indices: &Vec<usize>, k: usize) -> (ok: bool)
    requires
        k + 1 < offsets@.len(),
        offsets@[k as int] <= offsets@[k + 1] <= indices@.len(),
    ensures
        ok == (forall|p: int, q: int|
            offsets@[k as int] <= p < q < offsets@[k + 1] ==> #[trigger] indices@[p]
                < #[trigger] indices@[q]),
{
    // A vector's length fits in `usize`, so `k + 1` below does too.
    let _len = offsets.len();
    let start = offsets[k];
    let end = offsets[k + 1];
    if start == end {
        return true;
    }
    let mut p: usize = start + 1;
    while p < end
        invariant
            start < p <= end,
            end <= indices@.len(),
            start == offsets@[k as int],
            end == offsets@[k + 1],
            forall|a: int, b: int| start <= a < b < p ==> #[trigger] indices@[a] < #[trigger] indices@[b],
        decreases end - p,
    {
        if indices[p - 1] >= indices[p] {
            return false;
        }
        assert forall|a: int, b: int| start <= a < b < p + 1 implies #[trigger] indices@[a]
            < #[trigger] indices@[b] by {
            if b == p && a < p - 1 {
                assert(indices@[a] < indices@[p - 1]);
            }
        }
        p = p + 1;
    }
    true
}

} // verus!
