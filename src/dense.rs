//! A dense matrix of `i64` values stored column by column.
use vstd::prelude::*;

verus! {

/// A dense matrix; `data` holds the columns one after another.
#[derive(Debug, PartialEq, Eq)]
pub struct DenseMatrix {
    pub(crate) nrows: usize,
    pub(crate) ncols: usize,
    pub(crate) data: Vec<i64>,
}

/// Position of cell (`r`, `c`) in column-major storage with `nrows` rows.
pub open spec fn col_major_index(nrows: int, r: int, c: int) -> int {
    c * nrows + r
}

pub proof fn lemma_index_in_range(nrows: int, ncols: int, r: int, c: int)
    requires
        0 <= r < nrows,
        0 <= c < ncols,
    ensures
        0 <= col_major_index(nrows, r, c) < nrows * ncols,
{
    assert(0 <= c * nrows) by (nonlinear_arith)
        requires
            0 <= c,
            0 <= nrows,
    ;
    assert(c * nrows + r < nrows * ncols) by (nonlinear_arith)
        requires
            0 <= r < nrows,
            0 <= c < ncols,
    ;
}

impl Clone for DenseMatrix {
    fn clone(&self) -> Self {
        DenseMatrix { nrows: self.nrows, ncols: self.ncols, data: self.data.clone() }
    }
}

impl View for DenseMatrix {
    /// The rows of the matrix.
    type V = Seq<Seq<i64>>;

    open(crate) spec fn view(&self) -> Seq<Seq<i64>> {
        Seq::new(
            self.nrows as nat,
            |r: int|
                Seq::new(
                    self.ncols as nat,
                    |c: int| self.data@[col_major_index(self.nrows as int, r, c)],
                ),
        )
    }
}

impl DenseMatrix {
    pub open(crate) spec fn wf(&self) -> bool {
        self.data@.len() == self.nrows * self.ncols
    }

    pub open(crate) spec fn spec_nrows(&self) -> nat {
        self.nrows as nat
    }

    pub open(crate) spec fn spec_ncols(&self) -> nat {
        self.ncols as nat
    }

    /// The value of cell (`r`, `c`).
    pub open spec fn at(&self, r: int, c: int) -> int {
        self@[r][c] as int
    }

    /// The all-zero matrix of the given shape.
    pub fn zeros(nrows: usize, ncols: usize) -> (m: Self)
        requires
            nrows * ncols <= usize::MAX,
        ensures
            m.wf(),
            m.spec_nrows() == nrows,
            m.spec_ncols() == ncols,
            forall|r: int, c: int| 0 <= r < nrows && 0 <= c < ncols ==> #[trigger] m.at(r, c) == 0,
    {
        let n = nrows * ncols;
        let mut data: Vec<i64> = Vec::new();
        let mut i: usize = 0;
        while i < n
            invariant
                i <= n,
                data@.len() == i,
                forall|j: int| 0 <= j < i ==> #[trigger] data@[j] == 0,
            decreases n - i,
        {
            data.push(0);
            i = i + 1;
        }
        let m = DenseMatrix { nrows, ncols, data };
        assert forall|r: int, c: int| 0 <= r < nrows && 0 <= c < ncols implies #[trigger] m.at(r, c)
            == 0 by {
            lemma_index_in_range(nrows as int, ncols as int, r, c);
        }
        m
    }

    /// Builds a matrix from its entries listed row by row.
    pub fn from_row_slice(nrows: usize, ncols: usize, entries: &[i64]) -> (m: Self)
        requires
            entries@.len() == nrows * ncols,
        ensures
            m.wf(),
            m.spec_nrows() == nrows,
            m.spec_ncols() == ncols,
            forall|r: int, c: int|
                0 <= r < nrows && 0 <= c < ncols ==> #[trigger] m.at(r, c) == entries@[r * ncols
                    + c],
    {
        // The slice's length fits in `usize`, and so does every index below it.
        let total = entries.len();
        let mut m = DenseMatrix::zeros(nrows, ncols);
        let mut r: usize = 0;
        while r < nrows
            invariant
                m.wf(),
                m.spec_nrows() == nrows,
                m.spec_ncols() == ncols,
                entries@.len() == nrows * ncols,
                total == entries@.len(),
                r <= nrows,
                forall|r1: int, c: int|
                    0 <= r1 < r && 0 <= c < ncols ==> #[trigger] m.at(r1, c) == entries@[r1
                        * ncols + c],
            decreases nrows - r,
        {
            let mut c: usize = 0;
            while c < ncols
                invariant
                    m.wf(),
                    m.spec_nrows() == nrows,
                    m.spec_ncols() == ncols,
                    entries@.len() == nrows * ncols,
                    total == entries@.len(),
                    r < nrows,
                    c <= ncols,
                    forall|r1: int, c1: int|
                        0 <= r1 < r && 0 <= c1 < ncols ==> #[trigger] m.at(r1, c1) == entries@[r1
                            * ncols + c1],
                    forall|c1: int|
                        0 <= c1 < c ==> #[trigger] m.at(r as int, c1) == entries@[r * ncols + c1],
                decreases ncols - c,
            {
                proof {
                    lemma_index_in_range(ncols as int, nrows as int, c as int, r as int);
                    assert(ncols * nrows == nrows * ncols) by (nonlinear_arith);
                }
                let v = entries[r * ncols + c];
                m.set(r, c, v);
                c = c + 1;
            }
            r = r + 1;
        }
        m
    }

    /// Builds a matrix from its entries listed column by column.
    pub fn from_column_slice(nrows: usize, ncols: usize, entries: &[i64]) -> (m: Self)
        requires
            entries@.len() == nrows * ncols,
        ensures
            m.wf(),
            m.spec_nrows() == nrows,
            m.spec_ncols() == ncols,
            forall|r: int, c: int|
                0 <= r < nrows && 0 <= c < ncols ==> #[trigger] m.at(r, c) == entries@[c * nrows
                    + r],
    {
        let mut data: Vec<i64> = Vec::new();
        let mut i: usize = 0;
        while i < entries.len()
            invariant
                i <= entries@.len(),
                data@ == entries@.take(i as int),
            decreases entries@.len() - i,
        {
            data.push(entries[i]);
            proof {
                assert(entries@.take(i + 1) =~= entries@.take(i as int).push(entries@[i as int]));
            }
            i = i + 1;
        }
        assert(entries@.take(entries@.len() as int) =~= entries@);
        DenseMatrix { nrows, ncols, data }
    }

    pub fn nrows(&self) -> (r: usize)
        ensures
            r == self.spec_nrows(),
    {
        self.nrows
    }

    pub fn ncols(&self) -> (r: usize)
        ensures
            r == self.spec_ncols(),
    {
        self.ncols
    }

    pub fn shape(&self) -> (r: (usize, usize))
        ensures
            r.0 == self.spec_nrows(),
            r.1 == self.spec_ncols(),
    {
        (self.nrows, self.ncols)
    }

    /// The value of cell (`r`, `c`).
    pub fn get(&self, r: usize, c: usize) -> (v: i64)
        requires
            self.wf(),
            r < self.spec_nrows(),
            c < self.spec_ncols(),
        ensures
            v == self.at(r as int, c as int),
    {
        // The storage length fits in `usize`, and so does every index below it.
        let _len = self.data.len();
        proof {
            lemma_index_in_range(self.nrows as int, self.ncols as int, r as int, c as int);
        }
        self.data[c * self.nrows + r]
    }

    /// Overwrites cell (`r`, `c`) with `v`.
    pub fn set(&mut self, r: usize, c: usize, v: i64)
        requires
            old(self).wf(),
            r < old(self).spec_nrows(),
            c < old(self).spec_ncols(),
        ensures
            final(self).wf(),
            final(self).spec_nrows() == old(self).spec_nrows(),
            final(self).spec_ncols() == old(self).spec_ncols(),
            final(self).at(r as int, c as int) == v,
            forall|r1: int, c1: int|
                0 <= r1 < old(self).spec_nrows() && 0 <= c1 < old(self).spec_ncols() && (r1 != r
                    || c1 != c) ==> #[trigger] final(self).at(r1, c1) == old(self).at(r1, c1),
    {
        // The storage length fits in `usize`, and so does every index below it.
        let _len = self.data.len();
        proof {
            lemma_index_in_range(self.nrows as int, self.ncols as int, r as int, c as int);
        }
        let ghost nr = self.nrows as int;
        let ghost nc = self.ncols as int;
        self.data.set(c * self.nrows + r, v);
        proof {
            assert forall|r1: int, c1: int|
                0 <= r1 < nr && 0 <= c1 < nc && (r1 != r || c1 != c) implies #[trigger] self.at(
                r1,
                c1,
            ) == old(self).at(r1, c1) by {
                lemma_index_in_range(nr, nc, r1, c1);
                lemma_index_distinct(nr, r1, c1, r as int, c as int);
            }
        }
    }
}

proof fn lemma_index_distinct(nrows: int, r1: int, c1: int, r2: int, c2: int)
    requires
        0 <= r1 < nrows,
        0 <= r2 < nrows,
        0 <= c1,
        0 <= c2,
        r1 != r2 || c1 != c2,
    ensures
        col_major_index(nrows, r1, c1) != col_major_index(nrows, r2, c2),
{
    if c1 == c2 {
    } else if c1 < c2 {
        assert(c1 * nrows + nrows <= c2 * nrows) by (nonlinear_arith)
            requires
                c1 < c2,
                0 <= nrows,
        ;
    } else {
        assert(c2 * nrows + nrows <= c1 * nrows) by (nonlinear_arith)
            requires
                c2 < c1,
                0 <= nrows,
        ;
    }
}

} // verus!
