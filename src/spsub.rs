//! Elementwise subtraction of sparse matrices by merging sorted lanes.
use vstd::prelude::*;
use crate::cs::{Compression, CsMatrix, CsrMatrix, CscMatrix};
use crate::error::{OperationError, OperationErrorKind};
use crate::lanes::{Lanes, lemma_get_stored};
use crate::transpose::transpose_lanes;
use crate::dense::DenseMatrix;
use crate::convert::stored_below;

verus! {

/// `x - y` for two optional entries, an absent one read as zero.
pub open spec fn sub_value(x: Option<i64>, y: Option<i64>) -> int {
    match (x, y) {
        (Some(a), Some(b)) => a - b,
        (Some(a), None) => a as int,
        (None, Some(b)) => -b,
        (None, None) => 0,
    }
}

/// The stored entry of a difference: present where either operand has one,
/// even where the difference is zero.
pub open spec fn sub_entry(x: Option<i64>, y: Option<i64>) -> Option<i64> {
    if x is None && y is None {
        None
    } else {
        Some(sub_value(x, y) as i64)
    }
}

/// Every cell of `a - b` fits in `i64`.
pub open spec fn differences_fit(a: Lanes, b: Lanes) -> bool {
    forall|k: int, m: int|
        0 <= k < a.nmajor && 0 <= m < a.nminor ==> i64::MIN <= #[trigger] a.value_at(k, m)
            - b.value_at(k, m) <= i64::MAX
}

pub open spec fn entry_ok(a: Lanes, b: Lanes, k: int, m: usize, v: i64) -> bool {
    &&& m < a.nminor
    &&& (a.get(k, m as int) is Some || b.get(k, m as int) is Some)
    &&& Some(v) == sub_entry(a.get(k, m as int), b.get(k, m as int))
}

pub open spec fn lanes_of(
    offsets: &Vec<usize>,
    indices: &Vec<usize>,
    values: &Vec<i64>,
    nmajor: usize,
    nminor: usize,
) -> Lanes {
    Lanes {
        nmajor: nmajor as nat,
        nminor: nminor as nat,
        offsets: offsets@,
        indices: indices@,
        values: values@,
    }
}

proof fn lemma_absent_in_lane(l: Lanes, k: int, m: int, start: int, p: int, end: int)
    requires
        l.wf(),
        0 <= k < l.nmajor,
        start == l.offsets[k],
        end == l.offsets[k + 1],
        start <= p <= end,
        forall|p1: int| start <= p1 < p ==> #[trigger] l.indices[p1] != m,
        p < end ==> m < l.indices[p],
    ensures
        l.get(k, m) is None,
{
    if exists|p1: int| l.stores(k, m, p1) {
        let p1 = choose|p1: int| l.stores(k, m, p1);
        if p1 >= p {
            assert(l.lane_sorted(k));
            if p1 > p {
                assert(l.indices[p] < l.indices[p1]);
            }
        }
    }
}

/// Appends lane `k` of `a - b`: the merge of the two sorted lanes.
fn sub_lane(
    a_off: &Vec<usize>,
    a_idx: &Vec<usize>,
    a_val: &Vec<i64>,
    b_off: &Vec<usize>,
    b_idx: &Vec<usize>,
    b_val: &Vec<i64>,
    nmajor: usize,
    nminor: usize,
    k: usize,
    out_idx: &mut Vec<usize>,
    out_val: &mut Vec<i64>,
)
    requires
        lanes_of(a_off, a_idx, a_val, nmajor, nminor).wf(),
        lanes_of(b_off, b_idx, b_val, nmajor, nminor).wf(),
        differences_fit(
            lanes_of(a_off, a_idx, a_val, nmajor, nminor),
            lanes_of(b_off, b_idx, b_val, nmajor, nminor),
        ),
        k < nmajor,
        old(out_idx)@.len() == old(out_val)@.len(),
    ensures
        ({
            let a = lanes_of(a_off, a_idx, a_val, nmajor, nminor);
            let b = lanes_of(b_off, b_idx, b_val, nmajor, nminor);
            let s = old(out_idx)@.len() as int;
            let e = final(out_idx)@.len() as int;
            &&& s <= e
            &&& final(out_val)@.len() == e
            &&& final(out_idx)@.take(s) == old(out_idx)@
            &&& final(out_val)@.take(s) == old(out_val)@
            &&& forall|q: int|
                s <= q < e ==> #[trigger] entry_ok(a, b, k as int, final(out_idx)@[q], final(out_val)@[q])
            &&& forall|q1: int, q2: int|
                s <= q1 < q2 < e ==> #[trigger] final(out_idx)@[q1] < #[trigger] final(out_idx)@[q2]
            &&& forall|m: int|
                0 <= m < nminor && (a.get(k as int, m) is Some || b.get(k as int, m) is Some) ==> exists|q: int|
                    s <= q < e && #[trigger] final(out_idx)@[q] == m
        }),
{
    let ghost a = lanes_of(a_off, a_idx, a_val, nmajor, nminor);
    let ghost b = lanes_of(b_off, b_idx, b_val, nmajor, nminor);
    let ghost s = out_idx@.len() as int;
    let ghost old_idx = out_idx@;
    let ghost old_val = out_val@;
    proof {
        assert(a.offsets[k as int] <= a.offsets[k + 1] <= a.offsets[nmajor as int]);
        assert(b.offsets[k as int] <= b.offsets[k + 1] <= b.offsets[nmajor as int]);
        assert(a.lane_sorted(k as int));
        assert(b.lane_sorted(k as int));
    }
    let a_start = a_off[k];
    let a_end = a_off[k + 1];
    let b_start = b_off[k];
    let b_end = b_off[k + 1];
    let mut pa = a_start;
    let mut pb = b_start;
    while pa < a_end || pb < b_end
        invariant
            a == lanes_of(a_off, a_idx, a_val, nmajor, nminor),
            b == lanes_of(b_off, b_idx, b_val, nmajor, nminor),
            a.wf(),
            b.wf(),
            differences_fit(a, b),
            k < nmajor,
            a.lane_sorted(k as int),
            b.lane_sorted(k as int),
            a_start == a.offsets[k as int],
            a_end == a.offsets[k + 1],
            b_start == b.offsets[k as int],
            b_end == b.offsets[k + 1],
            a_start <= pa <= a_end <= a_idx@.len(),
            b_start <= pb <= b_end <= b_idx@.len(),
            0 <= s <= out_idx@.len(),
            out_val@.len() == out_idx@.len(),
            out_idx@.take(s) == old_idx,
            out_val@.take(s) == old_val,
            forall|q: int|
                s <= q < out_idx@.len() ==> #[trigger] entry_ok(a, b, k as int, out_idx@[q], out_val@[q]),
            forall|q1: int, q2: int|
                s <= q1 < q2 < out_idx@.len() ==> #[trigger] out_idx@[q1] < #[trigger] out_idx@[q2],
            forall|q: int|
                s <= q < out_idx@.len() ==> (pa < a_end ==> #[trigger] out_idx@[q] < a_idx@[pa as int])
                    && (pb < b_end ==> out_idx@[q] < b_idx@[pb as int]),
            forall|p: int|
                a_start <= p < pa ==> exists|q: int|
                    s <= q < out_idx@.len() && #[trigger] out_idx@[q] == #[trigger] a_idx@[p],
            forall|p: int|
                b_start <= p < pb ==> exists|q: int|
                    s <= q < out_idx@.len() && #[trigger] out_idx@[q] == #[trigger] b_idx@[p],
        decreases (a_end - pa) + (b_end - pb),
    {
        let ghost prev_idx = out_idx@;
        let ghost prev_val = out_val@;
        let ghost prev_pa = pa;
        let ghost prev_pb = pb;
        let m: usize;
        if pb >= b_end || (pa < a_end && a_idx[pa] < b_idx[pb]) {
            m = a_idx[pa];
            proof {
                assert forall|p1: int| b_start <= p1 < pb implies #[trigger] b_idx@[p1] != m by {
                    let q = choose|q: int| s <= q < out_idx@.len() && #[trigger] out_idx@[q] == b_idx@[p1];
                }
                lemma_absent_in_lane(b, k as int, m as int, b_start as int, pb as int, b_end as int);
                assert(a.stores(k as int, m as int, pa as int));
                lemma_get_stored(a, k as int, m as int, pa as int);
            }
            out_idx.push(m);
            out_val.push(a_val[pa]);
            pa = pa + 1;
        } else if pa >= a_end || (pb < b_end && b_idx[pb] < a_idx[pa]) {
            m = b_idx[pb];
            proof {
                assert forall|p1: int| a_start <= p1 < pa implies #[trigger] a_idx@[p1] != m by {
                    let q = choose|q: int| s <= q < out_idx@.len() && #[trigger] out_idx@[q] == a_idx@[p1];
                }
                lemma_absent_in_lane(a, k as int, m as int, a_start as int, pa as int, a_end as int);
                assert(b.stores(k as int, m as int, pb as int));
                lemma_get_stored(b, k as int, m as int, pb as int);
                assert(m < nminor);
                assert(a.value_at(k as int, m as int) == 0);
                assert(i64::MIN <= a.value_at(k as int, m as int) - b.value_at(k as int, m as int)
                    <= i64::MAX);
            }
            out_idx.push(m);
            out_val.push(-b_val[pb]);
            pb = pb + 1;
        } else {
            m = a_idx[pa];
            proof {
                assert(a.stores(k as int, m as int, pa as int));
                lemma_get_stored(a, k as int, m as int, pa as int);
                assert(b.stores(k as int, m as int, pb as int));
                lemma_get_stored(b, k as int, m as int, pb as int);
                assert(m < nminor);
                assert(i64::MIN <= a.value_at(k as int, m as int) - b.value_at(k as int, m as int)
                    <= i64::MAX);
            }
            out_idx.push(m);
            out_val.push(a_val[pa] - b_val[pb]);
            pa = pa + 1;
            pb = pb + 1;
        }
        proof {
            let n = out_idx@.len() - 1;
            assert(out_idx@.take(s) =~= prev_idx.take(s));
            assert(out_val@.take(s) =~= prev_val.take(s));
            assert forall|q: int| s <= q < out_idx@.len() implies (pa < a_end ==> #[trigger] out_idx@[q]
                < a_idx@[pa as int]) && (pb < b_end ==> out_idx@[q] < b_idx@[pb as int]) by {
                if pa < a_end && prev_pa < pa {
                    assert(a_idx@[prev_pa as int] < a_idx@[pa as int]);
                }
                if pb < b_end && prev_pb < pb {
                    assert(b_idx@[prev_pb as int] < b_idx@[pb as int]);
                }
                if q < n {
                    assert(out_idx@[q] == prev_idx[q]);
                }
            }
            assert forall|p: int| a_start <= p < pa implies exists|q: int|
                s <= q < out_idx@.len() && #[trigger] out_idx@[q] == #[trigger] a_idx@[p] by {
                if p < prev_pa {
                    let q = choose|q: int| s <= q < prev_idx.len() && #[trigger] prev_idx[q] == a_idx@[p];
                    assert(out_idx@[q] == prev_idx[q]);
                } else {
                    assert(out_idx@[n] == a_idx@[p]);
                }
            }
            assert forall|p: int| b_start <= p < pb implies exists|q: int|
                s <= q < out_idx@.len() && #[trigger] out_idx@[q] == #[trigger] b_idx@[p] by {
                if p < prev_pb {
                    let q = choose|q: int| s <= q < prev_idx.len() && #[trigger] prev_idx[q] == b_idx@[p];
                    assert(out_idx@[q] == prev_idx[q]);
                } else {
                    assert(out_idx@[n] == b_idx@[p]);
                }
            }
        }
    }
    proof {
        assert forall|m: int|
            0 <= m < nminor && (a.get(k as int, m) is Some || b.get(k as int, m) is Some) implies exists|q: int|
            s <= q < out_idx@.len() && #[trigger] out_idx@[q] == m by {
            if a.get(k as int, m) is Some {
                let p = choose|p: int| a.stores(k as int, m, p);
                assert(a_idx@[p] == m);
            } else {
                let p = choose|p: int| b.stores(k as int, m, p);
                assert(b_idx@[p] == m);
            }
        }
    }
}


/// Merges every lane of `a` with the same lane of `b` into the lanes of `a - b`.
fn sub_lanes(
    a_off: &Vec<usize>,
    a_idx: &Vec<usize>,
    a_val: &Vec<i64>,
    b_off: &Vec<usize>,
    b_idx: &Vec<usize>,
    b_val: &Vec<i64>,
    nmajor: usize,
    nminor: usize,
) -> (r: (Vec<usize>, Vec<usize>, Vec<i64>))
    requires
        lanes_of(a_off, a_idx, a_val, nmajor, nminor).wf(),
        lanes_of(b_off, b_idx, b_val, nmajor, nminor).wf(),
        differences_fit(
            lanes_of(a_off, a_idx, a_val, nmajor, nminor),
            lanes_of(b_off, b_idx, b_val, nmajor, nminor),
        ),
    ensures
        ({
            let a = lanes_of(a_off, a_idx, a_val, nmajor, nminor);
            let b = lanes_of(b_off, b_idx, b_val, nmajor, nminor);
            let t = lanes_of(&r.0, &r.1, &r.2, nmajor, nminor);
            &&& t.wf()
            &&& forall|k: int, m: int|
                0 <= k < nmajor && 0 <= m < nminor ==> #[trigger] t.get(k, m) == sub_entry(
                    a.get(k, m),
                    b.get(k, m),
                )
        }),
{
    let ghost a = lanes_of(a_off, a_idx, a_val, nmajor, nminor);
    let ghost b = lanes_of(b_off, b_idx, b_val, nmajor, nminor);
    let mut offsets: Vec<usize> = Vec::new();
    let mut idx: Vec<usize> = Vec::new();
    let mut val: Vec<i64> = Vec::new();
    offsets.push(0);
    let mut k: usize = 0;
    while k < nmajor
        invariant
            a == lanes_of(a_off, a_idx, a_val, nmajor, nminor),
            b == lanes_of(b_off, b_idx, b_val, nmajor, nminor),
            a.wf(),
            b.wf(),
            differences_fit(a, b),
            k <= nmajor,
            offsets@.len() == k + 1,
            offsets@[0] == 0,
            offsets@[k as int] == idx@.len(),
            idx@.len() == val@.len(),
            forall|i: int, j: int|
                0 <= i <= j <= k ==> #[trigger] offsets@[i] <= #[trigger] offsets@[j],
            forall|k1: int, q: int|
                0 <= k1 < k && offsets@[k1] <= q < offsets@[k1 + 1] ==> #[trigger] entry_ok(
                    a,
                    b,
                    k1,
                    idx@[q],
                    val@[q],
                ),
            forall|k1: int, q1: int, q2: int|
                #![trigger offsets@[k1], idx@[q1], idx@[q2]]
                0 <= k1 < k && offsets@[k1] <= q1 < q2 < offsets@[k1 + 1] ==> idx@[q1] < idx@[q2],
            forall|k1: int, m: int|
                0 <= k1 < k && 0 <= m < nminor && (#[trigger] a.get(k1, m) is Some || b.get(k1, m) is Some)
                    ==> exists|q: int|
                    offsets@[k1] <= q < offsets@[k1 + 1] && #[trigger] idx@[q] == m,
        decreases nmajor - k,
    {
        let ghost prev_idx = idx@;
        let ghost prev_val = val@;
        sub_lane(a_off, a_idx, a_val, b_off, b_idx, b_val, nmajor, nminor, k, &mut idx, &mut val);
        let ghost prev_offsets = offsets@;
        offsets.push(idx.len());
        proof {
            let s = prev_idx.len() as int;
            assert forall|q: int| 0 <= q < s implies idx@[q] == prev_idx[q] && val@[q] == prev_val[q] by {
                assert(idx@.take(s)[q] == prev_idx[q]);
                assert(val@.take(s)[q] == prev_val[q]);
            }
            assert forall|k1: int, q: int|
                0 <= k1 < k + 1 && offsets@[k1] <= q < offsets@[k1 + 1] implies #[trigger] entry_ok(
                a,
                b,
                k1,
                idx@[q],
                val@[q],
            ) by {
                if k1 < k {
                    assert(offsets@[k1 + 1] <= offsets@[k as int]);
                    assert(entry_ok(a, b, k1, prev_idx[q], prev_val[q]));
                }
            }
            assert forall|k1: int, q1: int, q2: int|
                #![trigger offsets@[k1], idx@[q1], idx@[q2]]
                0 <= k1 < k + 1 && offsets@[k1] <= q1 < q2 < offsets@[k1 + 1] implies idx@[q1]
                < idx@[q2] by {
                if k1 < k {
                    assert(offsets@[k1 + 1] <= offsets@[k as int]);
                    assert(prev_offsets[k1] == offsets@[k1]);
                    assert(prev_idx[q1] < prev_idx[q2]);
                }
            }
            assert forall|k1: int, m: int|
                0 <= k1 < k + 1 && 0 <= m < nminor && (#[trigger] a.get(k1, m) is Some || b.get(
                    k1,
                    m,
                ) is Some) implies exists|q: int|
                offsets@[k1] <= q < offsets@[k1 + 1] && #[trigger] idx@[q] == m by {
                if k1 < k {
                    assert(offsets@[k1 + 1] <= offsets@[k as int]);
                    assert(prev_offsets[k1] == offsets@[k1]);
                    assert(prev_offsets[k1 + 1] == offsets@[k1 + 1]);
                    let q = choose|q: int|
                        prev_offsets[k1] <= q < prev_offsets[k1 + 1] && #[trigger] prev_idx[q] == m;
                    assert(idx@[q] == m);
                } else {
                    let q = choose|q: int| s <= q < idx@.len() && #[trigger] idx@[q] == m;
                }
            }
        }
        k = k + 1;
    }
    let ghost t = lanes_of(&offsets, &idx, &val, nmajor, nminor);
    proof {
        assert(t.offsets_wf());
        assert forall|q: int| 0 <= q < t.indices.len() implies #[trigger] t.indices[q] < t.nminor by {
            let k1 = crate::lanes::lemma_lane_of(t, q);
            assert(entry_ok(a, b, k1, idx@[q], val@[q]));
        }
        assert forall|k1: int| 0 <= k1 < nmajor implies #[trigger] t.lane_sorted(k1) by {
            assert forall|q1: int, q2: int|
                t.offsets[k1] <= q1 < q2 < t.offsets[k1 + 1] implies #[trigger] t.indices[q1]
                < #[trigger] t.indices[q2] by {
                assert(offsets@[k1] <= q1 < q2 < offsets@[k1 + 1]);
            }
        }
        assert(t.wf());
        assert forall|k1: int, m: int|
            0 <= k1 < nmajor && 0 <= m < nminor implies #[trigger] t.get(k1, m) == sub_entry(
            a.get(k1, m),
            b.get(k1, m),
        ) by {
            if a.get(k1, m) is Some || b.get(k1, m) is Some {
                let q = choose|q: int| offsets@[k1] <= q < offsets@[k1 + 1] && #[trigger] idx@[q] == m;
                assert(t.stores(k1, m, q));
                lemma_get_stored(t, k1, m, q);
                assert(entry_ok(a, b, k1, idx@[q], val@[q]));
            } else if exists|q: int| t.stores(k1, m, q) {
                let q = choose|q: int| t.stores(k1, m, q);
                assert(entry_ok(a, b, k1, idx@[q], val@[q]));
            }
        }
    }
    (offsets, idx, val)
}

/// Every cell of `a - b` fits in `i64`.
pub open spec fn cell_differences_fit<C1: Compression, C2: Compression>(
    a: &CsMatrix<C1>,
    b: &CsMatrix<C2>,
) -> bool {
    forall|i: int, j: int|
        0 <= i < a.spec_nrows() && 0 <= j < a.spec_ncols() ==> i64::MIN <= #[trigger] a.cell(i, j)
            - b.cell(i, j) <= i64::MAX
}

pub open spec fn same_shape<C1: Compression, C2: Compression>(a: &CsMatrix<C1>, b: &CsMatrix<C2>) -> bool {
    a.spec_nrows() == b.spec_nrows() && a.spec_ncols() == b.spec_ncols()
}

/// What a subtraction whose shapes disagree returns.
pub open spec fn shape_error<C1: Compression, C2: Compression>(
    a: &CsMatrix<C1>,
    b: &CsMatrix<C2>,
) -> OperationError {
    OperationError {
        kind: OperationErrorKind::InvalidPattern,
        left_nrows: a.spec_nrows() as usize,
        left_ncols: a.spec_ncols() as usize,
        right_nrows: b.spec_nrows() as usize,
        right_ncols: b.spec_ncols() as usize,
    }
}

/// The contract shared by the sparse-sparse subtractions.
pub open spec fn is_difference<C1: Compression, C2: Compression, C3: Compression>(
    a: &CsMatrix<C1>,
    b: &CsMatrix<C2>,
    r: Result<CsMatrix<C3>, OperationError>,
) -> bool {
    &&& !same_shape(a, b) ==> r == Err::<CsMatrix<C3>, OperationError>(shape_error(a, b))
    &&& same_shape(a, b) ==> (r matches Ok(m) && m.wf() && m.spec_nrows() == a.spec_nrows()
        && m.spec_ncols() == a.spec_ncols() && forall|i: int, j: int|
        0 <= i < a.spec_nrows() && 0 <= j < a.spec_ncols() ==> #[trigger] m.entry(i, j) == sub_entry(
            a.entry(i, j),
            b.entry(i, j),
        ))
}

fn spsub_cs<C1: Compression, C2: Compression>(lhs: CsMatrix<C1>, rhs: CsMatrix<C2>) -> (r: Result<
    CsMatrix<C1>,
    OperationError,
>)
    requires
        lhs.wf(),
        rhs.wf(),
        same_shape(&lhs, &rhs) ==> cell_differences_fit(&lhs, &rhs),
    ensures
        is_difference(&lhs, &rhs, r),
{
    let (lrows, lcols) = lhs.shape();
    let (rrows, rcols) = rhs.shape();
    if lrows != rrows || lcols != rcols {
        return Err(
            OperationError {
                kind: OperationErrorKind::InvalidPattern,
                left_nrows: lrows,
                left_ncols: lcols,
                right_nrows: rrows,
                right_ncols: rcols,
            },
        );
    }
    let l_row_major = C1::is_row_major();
    let nmajor = if l_row_major { lrows } else { lcols };
    let nminor = if l_row_major { lcols } else { lrows };
    let ghost la = lhs@;
    let same_orientation = l_row_major == C2::is_row_major();
    let (b_off, b_idx, b_val) = if same_orientation {
        (rhs.offsets.clone(), rhs.indices.clone(), rhs.values.clone())
    } else {
        transpose_lanes(nminor, nmajor, &rhs.offsets, &rhs.indices, &rhs.values)
    };
    let ghost lb = lanes_of(&b_off, &b_idx, &b_val, nmajor, nminor);
    proof {
        assert(lhs.offsets@ == la.offsets);
        assert forall|k: int, m: int|
            0 <= k < nmajor && 0 <= m < nminor implies #[trigger] lb.get(k, m) == (if C1::row_major() {
            rhs.entry(k, m)
        } else {
            rhs.entry(m, k)
        }) by {
            if same_orientation {
                assert(lb == rhs@);
            }
        }
        assert forall|k: int, m: int|
            0 <= k < nmajor && 0 <= m < nminor implies i64::MIN <= #[trigger] la.value_at(k, m)
            - lb.value_at(k, m) <= i64::MAX by {
            if C1::row_major() {
                assert(i64::MIN <= lhs.cell(k, m) - rhs.cell(k, m) <= i64::MAX);
                assert(lb.get(k, m) == rhs.entry(k, m));
            } else {
                assert(i64::MIN <= lhs.cell(m, k) - rhs.cell(m, k) <= i64::MAX);
                assert(lb.get(k, m) == rhs.entry(m, k));
            }
        }
        assert(lb.wf());
    }
    let (offsets, indices, values) = sub_lanes(
        &lhs.offsets,
        &lhs.indices,
        &lhs.values,
        &b_off,
        &b_idx,
        &b_val,
        nmajor,
        nminor,
    );
    let m = CsMatrix::<C1>::from_parts_unchecked(lrows, lcols, offsets, indices, values);
    proof {
        assert forall|i: int, j: int| 0 <= i < lrows && 0 <= j < lcols implies #[trigger] m.entry(i, j)
            == sub_entry(lhs.entry(i, j), rhs.entry(i, j)) by {
            if C1::row_major() {
                assert(lb.get(i, j) == rhs.entry(i, j));
            } else {
                assert(lb.get(j, i) == rhs.entry(i, j));
            }
        }
    }
    Ok(m)
}

/// `lhs - rhs` for two CSR matrices of the same shape, as CSR. Every
/// position stored in either operand is stored in the result, even where the
/// difference is zero.
pub fn spsub_csr_csr(lhs: CsrMatrix, rhs: CsrMatrix) -> (r: Result<CsrMatrix, OperationError>)
    requires
        lhs.wf(),
        rhs.wf(),
        same_shape(&lhs, &rhs) ==> cell_differences_fit(&lhs, &rhs),
    ensures
        is_difference(&lhs, &rhs, r),
{
    spsub_cs(lhs, rhs)
}

/// `lhs - rhs` for a CSR and a CSC matrix of the same shape, as CSR.
pub fn spsub_csr_csc(lhs: CsrMatrix, rhs: CscMatrix) -> (r: Result<CsrMatrix, OperationError>)
    requires
        lhs.wf(),
        rhs.wf(),
        same_shape(&lhs, &rhs) ==> cell_differences_fit(&lhs, &rhs),
    ensures
        is_difference(&lhs, &rhs, r),
{
    spsub_cs(lhs, rhs)
}

/// `lhs - rhs` for a CSC and a CSR matrix of the same shape, as CSC.
pub fn spsub_csc_csr(lhs: CscMatrix, rhs: CsrMatrix) -> (r: Result<CscMatrix, OperationError>)
    requires
        lhs.wf(),
        rhs.wf(),
        same_shape(&lhs, &rhs) ==> cell_differences_fit(&lhs, &rhs),
    ensures
        is_difference(&lhs, &rhs, r),
{
    spsub_cs(lhs, rhs)
}

/// `lhs - rhs` for two CSC matrices of the same shape, as CSC.
pub fn spsub_csc_csc(lhs: CscMatrix, rhs: CscMatrix) -> (r: Result<CscMatrix, OperationError>)
    requires
        lhs.wf(),
        rhs.wf(),
        same_shape(&lhs, &rhs) ==> cell_differences_fit(&lhs, &rhs),
    ensures
        is_difference(&lhs, &rhs, r),
{
    spsub_cs(lhs, rhs)
}


/// The dense realisation of a difference is the difference of the dense
/// realisations, cell by cell.
pub proof fn lemma_difference_cells<C1: Compression, C2: Compression, C3: Compression>(
    a: &CsMatrix<C1>,
    b: &CsMatrix<C2>,
    m: &CsMatrix<C3>,
    da: &DenseMatrix,
    db: &DenseMatrix,
    dm: &DenseMatrix,
)
    requires
        a.wf(),
        b.wf(),
        same_shape(a, b),
        cell_differences_fit(a, b),
        is_difference(a, b, Ok::<CsMatrix<C3>, OperationError>(*m)),
        forall|i: int, j: int|
            0 <= i < a.spec_nrows() && 0 <= j < a.spec_ncols() ==> #[trigger] da.at(i, j) == a.cell(
                i,
                j,
            ) && db.at(i, j) == b.cell(i, j) && dm.at(i, j) == m.cell(i, j),
    ensures
        forall|i: int, j: int|
            0 <= i < a.spec_nrows() && 0 <= j < a.spec_ncols() ==> #[trigger] dm.at(i, j) == da.at(
                i,
                j,
            ) - db.at(i, j),
{
    assert forall|i: int, j: int| 0 <= i < a.spec_nrows() && 0 <= j < a.spec_ncols() implies #[trigger] dm.at(
        i,
        j,
    ) == da.at(i, j) - db.at(i, j) by {
        assert(m.entry(i, j) == sub_entry(a.entry(i, j), b.entry(i, j)));
        assert(i64::MIN <= a.cell(i, j) - b.cell(i, j) <= i64::MAX);
        assert(da.at(i, j) == a.cell(i, j));
    }
}

/// Subtracting the matrix that stores nothing changes nothing, structure and
/// values.
pub proof fn lemma_subtract_zero<C1: Compression, C2: Compression>(
    a: &CsMatrix<C1>,
    z: &CsMatrix<C2>,
    r: Result<CsMatrix<C1>, OperationError>,
)
    requires
        a.wf(),
        z.wf(),
        z@.nnz() == 0,
        same_shape(a, z),
        is_difference(a, z, r),
    ensures
        r matches Ok(m) && m@ == a@,
{
    let m = r->Ok_0;
    assert forall|k: int, mi: int| 0 <= k < a@.nmajor && 0 <= mi < a@.nminor implies #[trigger] m@.get(
        k,
        mi,
    ) == a@.get(k, mi) by {
        let i = if C1::row_major() { k } else { mi };
        let j = if C1::row_major() { mi } else { k };
        assert(m.entry(i, j) == sub_entry(a.entry(i, j), z.entry(i, j)));
        assert(z.entry(i, j) is None) by {
            let kz = if C2::row_major() { i } else { j };
            let mz = if C2::row_major() { j } else { i };
            if exists|p: int| z@.stores(kz, mz, p) {
                let p = choose|p: int| z@.stores(kz, mz, p);
                assert(z@.offsets[kz] <= z@.offsets[z@.nmajor as int]);
                assert(z@.offsets[kz + 1] <= z@.offsets[z@.nmajor as int]);
            }
        }
    }
    crate::lanes::lemma_lanes_unique(m@, a@);
}


/// Adds (or subtracts) every stored value of `cs` into the dense matrix `d`.
fn accumulate<C: Compression>(d: &mut DenseMatrix, cs: &CsMatrix<C>, subtract: bool)
    requires
        old(d).wf(),
        cs.wf(),
        old(d).spec_nrows() == cs.spec_nrows(),
        old(d).spec_ncols() == cs.spec_ncols(),
        forall|r: int, c: int|
            0 <= r < cs.spec_nrows() && 0 <= c < cs.spec_ncols() ==> i64::MIN <= #[trigger] old(d).at(r, c)
                + (if subtract { -cs.cell(r, c) } else { cs.cell(r, c) }) <= i64::MAX,
    ensures
        final(d).wf(),
        final(d).spec_nrows() == old(d).spec_nrows(),
        final(d).spec_ncols() == old(d).spec_ncols(),
        forall|r: int, c: int|
            0 <= r < cs.spec_nrows() && 0 <= c < cs.spec_ncols() ==> #[trigger] final(d).at(r, c)
                == old(d).at(r, c) + (if subtract { -cs.cell(r, c) } else { cs.cell(r, c) }),
{
    let ghost l = cs@;
    let ghost d0: DenseMatrix = *d;
    let row_major = C::is_row_major();
    let nrows = cs.nrows();
    let ncols = cs.ncols();
    let nmajor = if row_major { nrows } else { ncols };
    let nnz = cs.nnz();
    let mut k: usize = 0;
    let mut p: usize = 0;
    while p < nnz
        invariant
            l == cs@,
            l.wf(),
            nnz == l.nnz(),
            nmajor == l.nmajor,
            row_major == C::row_major(),
            nrows == cs.spec_nrows(),
            ncols == cs.spec_ncols(),
            p <= nnz,
            nmajor > 0 ==> k < nmajor,
            p < nnz ==> nmajor > 0 && cs.offsets@[k as int] <= p,
            d.wf(),
            d.spec_nrows() == nrows,
            d.spec_ncols() == ncols,
            forall|r: int, c: int|
                0 <= r < nrows && 0 <= c < ncols ==> i64::MIN <= #[trigger] d0.at(r, c) + (if subtract {
                    -cs.cell(r, c)
                } else {
                    cs.cell(r, c)
                }) <= i64::MAX,
            forall|r: int, c: int|
                0 <= r < nrows && 0 <= c < ncols ==> #[trigger] d.at(r, c) == d0.at(r, c) + (if stored_below(
                    l,
                    if row_major { r } else { c },
                    if row_major { c } else { r },
                    p as int,
                ) {
                    if subtract { -cs.cell(r, c) } else { cs.cell(r, c) }
                } else {
                    0
                }),
        decreases nnz - p,
    {
        k = crate::transpose::lane_containing(&cs.offsets, nmajor, k, p);
        let mi = cs.indices[p];
        let v = cs.values[p];
        let r = if row_major { k } else { mi };
        let c = if row_major { mi } else { k };
        proof {
            assert(l.stores(k as int, mi as int, p as int));
            lemma_get_stored(l, k as int, mi as int, p as int);
            assert(l.lane_sorted(k as int));
            assert(!stored_below(l, k as int, mi as int, p as int)) by {
                if stored_below(l, k as int, mi as int, p as int) {
                    let p1 = choose|p1: int| 0 <= p1 < p && l.stores(k as int, mi as int, p1);
                    assert(l.indices[p1] < l.indices[p as int]);
                }
            }
            assert(cs.cell(r as int, c as int) == v);
        }
        let cur = d.get(r, c);
        if subtract {
            d.set(r, c, cur - v);
        } else {
            d.set(r, c, cur + v);
        }
        proof {
            assert forall|r1: int, c1: int|
                0 <= r1 < nrows && 0 <= c1 < ncols implies #[trigger] d.at(r1, c1) == d0.at(r1, c1) + (if stored_below(
                l,
                if row_major { r1 } else { c1 },
                if row_major { c1 } else { r1 },
                p + 1,
            ) {
                if subtract { -cs.cell(r1, c1) } else { cs.cell(r1, c1) }
            } else {
                0
            }) by {
                let k1 = if row_major { r1 } else { c1 };
                let m1 = if row_major { c1 } else { r1 };
                if r1 == r && c1 == c {
                    assert(l.stores(k1, m1, p as int));
                } else {
                    if stored_below(l, k1, m1, p + 1) {
                        let p1 = choose|p1: int| 0 <= p1 < p + 1 && l.stores(k1, m1, p1);
                        if p1 == p {
                            assert(l.in_lane(k as int, p as int));
                            if k1 < k {
                                assert(l.offsets[k1 + 1] <= l.offsets[k as int]);
                            } else if k1 > k {
                                assert(l.offsets[k + 1] <= l.offsets[k1]);
                            }
                        }
                        assert(stored_below(l, k1, m1, p as int));
                    }
                }
            }
        }
        p = p + 1;
    }
    proof {
        assert forall|r1: int, c1: int|
            0 <= r1 < nrows && 0 <= c1 < ncols implies #[trigger] d.at(r1, c1) == d0.at(r1, c1) + (if subtract {
            -cs.cell(r1, c1)
        } else {
            cs.cell(r1, c1)
        }) by {
            let k1 = if row_major { r1 } else { c1 };
            let m1 = if row_major { c1 } else { r1 };
            if exists|p1: int| l.stores(k1, m1, p1) {
                let p1 = choose|p1: int| l.stores(k1, m1, p1);
                assert(p1 < nnz);
                assert(stored_below(l, k1, m1, nnz as int));
            }
        }
    }
}

/// Negates every cell of `d`.
fn negate(d: &mut DenseMatrix)
    requires
        old(d).wf(),
        forall|r: int, c: int|
            0 <= r < old(d).spec_nrows() && 0 <= c < old(d).spec_ncols() ==> #[trigger] old(d).at(r, c)
                != i64::MIN,
    ensures
        final(d).wf(),
        final(d).spec_nrows() == old(d).spec_nrows(),
        final(d).spec_ncols() == old(d).spec_ncols(),
        forall|r: int, c: int|
            0 <= r < old(d).spec_nrows() && 0 <= c < old(d).spec_ncols() ==> #[trigger] final(d).at(r, c)
                == -old(d).at(r, c),
{
    let ghost d0: DenseMatrix = *d;
    let nrows = d.nrows();
    let ncols = d.ncols();
    let mut c: usize = 0;
    while c < ncols
        invariant
            d.wf(),
            d.spec_nrows() == nrows,
            d.spec_ncols() == ncols,
            nrows == d0.spec_nrows(),
            ncols == d0.spec_ncols(),
            c <= ncols,
            forall|r1: int, c1: int|
                0 <= r1 < nrows && 0 <= c1 < ncols ==> #[trigger] d0.at(r1, c1) != i64::MIN,
            forall|r1: int, c1: int|
                0 <= r1 < nrows && 0 <= c1 < ncols ==> #[trigger] d.at(r1, c1) == (if c1 < c {
                    -d0.at(r1, c1)
                } else {
                    d0.at(r1, c1)
                }),
        decreases ncols - c,
    {
        let mut r: usize = 0;
        while r < nrows
            invariant
                d.wf(),
                d.spec_nrows() == nrows,
                d.spec_ncols() == ncols,
                nrows == d0.spec_nrows(),
                ncols == d0.spec_ncols(),
                c < ncols,
                r <= nrows,
                forall|r1: int, c1: int|
                    0 <= r1 < nrows && 0 <= c1 < ncols ==> #[trigger] d0.at(r1, c1) != i64::MIN,
                forall|r1: int, c1: int|
                    0 <= r1 < nrows && 0 <= c1 < ncols ==> #[trigger] d.at(r1, c1) == (if c1 < c
                        || (c1 == c && r1 < r) {
                        -d0.at(r1, c1)
                    } else {
                        d0.at(r1, c1)
                    }),
            decreases nrows - r,
        {
            let v = d.get(r, c);
            assert(d0.at(r as int, c as int) != i64::MIN);
            d.set(r, c, -v);
            r = r + 1;
        }
        c = c + 1;
    }
}

pub open spec fn dense_matches<C: Compression>(d: &DenseMatrix, m: &CsMatrix<C>) -> bool {
    d.spec_nrows() == m.spec_nrows() && d.spec_ncols() == m.spec_ncols()
}

/// `dense - m`, cell by cell.
pub open spec fn is_dense_minus_sparse<C: Compression>(
    dense: &DenseMatrix,
    m: &CsMatrix<C>,
    r: Result<DenseMatrix, OperationError>,
) -> bool {
    &&& !dense_matches(dense, m) ==> r == Err::<DenseMatrix, OperationError>(
        OperationError {
            kind: OperationErrorKind::InvalidPattern,
            left_nrows: dense.spec_nrows() as usize,
            left_ncols: dense.spec_ncols() as usize,
            right_nrows: m.spec_nrows() as usize,
            right_ncols: m.spec_ncols() as usize,
        },
    )
    &&& dense_matches(dense, m) ==> (r matches Ok(d) && d.wf() && d.spec_nrows() == dense.spec_nrows()
        && d.spec_ncols() == dense.spec_ncols() && forall|i: int, j: int|
        0 <= i < dense.spec_nrows() && 0 <= j < dense.spec_ncols() ==> #[trigger] d.at(i, j)
            == dense.at(i, j) - m.cell(i, j))
}

/// `m - dense`, cell by cell.
pub open spec fn is_sparse_minus_dense<C: Compression>(
    m: &CsMatrix<C>,
    dense: &DenseMatrix,
    r: Result<DenseMatrix, OperationError>,
) -> bool {
    &&& !dense_matches(dense, m) ==> r == Err::<DenseMatrix, OperationError>(
        OperationError {
            kind: OperationErrorKind::InvalidPattern,
            left_nrows: m.spec_nrows() as usize,
            left_ncols: m.spec_ncols() as usize,
            right_nrows: dense.spec_nrows() as usize,
            right_ncols: dense.spec_ncols() as usize,
        },
    )
    &&& dense_matches(dense, m) ==> (r matches Ok(d) && d.wf() && d.spec_nrows() == dense.spec_nrows()
        && d.spec_ncols() == dense.spec_ncols() && forall|i: int, j: int|
        0 <= i < dense.spec_nrows() && 0 <= j < dense.spec_ncols() ==> #[trigger] d.at(i, j)
            == m.cell(i, j) - dense.at(i, j))
}

fn spsub_dense_cs<C: Compression>(dense: DenseMatrix, m: CsMatrix<C>) -> (r: Result<DenseMatrix, OperationError>)
    requires
        dense.wf(),
        m.wf(),
        dense_matches(&dense, &m) ==> forall|i: int, j: int|
            0 <= i < dense.spec_nrows() && 0 <= j < dense.spec_ncols() ==> i64::MIN <= #[trigger] dense.at(i, j)
                - m.cell(i, j) <= i64::MAX,
    ensures
        is_dense_minus_sparse(&dense, &m, r),
{
    let (lrows, lcols) = dense.shape();
    let (rrows, rcols) = m.shape();
    if lrows != rrows || lcols != rcols {
        return Err(
            OperationError {
                kind: OperationErrorKind::InvalidPattern,
                left_nrows: lrows,
                left_ncols: lcols,
                right_nrows: rrows,
                right_ncols: rcols,
            },
        );
    }
    let mut d = dense;
    accumulate(&mut d, &m, true);
    Ok(d)
}

fn spsub_cs_dense<C: Compression>(m: CsMatrix<C>, dense: DenseMatrix) -> (r: Result<DenseMatrix, OperationError>)
    requires
        dense.wf(),
        m.wf(),
        dense_matches(&dense, &m) ==> forall|i: int, j: int|
            0 <= i < dense.spec_nrows() && 0 <= j < dense.spec_ncols() ==> #[trigger] dense.at(i, j)
                != i64::MIN && i64::MIN <= m.cell(i, j) - dense.at(i, j) <= i64::MAX,
    ensures
        is_sparse_minus_dense(&m, &dense, r),
{
    let (lrows, lcols) = m.shape();
    let (rrows, rcols) = dense.shape();
    if lrows != rrows || lcols != rcols {
        return Err(
            OperationError {
                kind: OperationErrorKind::InvalidPattern,
                left_nrows: lrows,
                left_ncols: lcols,
                right_nrows: rrows,
                right_ncols: rcols,
            },
        );
    }
    let mut d = dense;
    negate(&mut d);
    accumulate(&mut d, &m, false);
    Ok(d)
}

/// `dense - csc` as a dense matrix.
pub fn spsub_dense_csc(dense: DenseMatrix, csc: CscMatrix) -> (r: Result<DenseMatrix, OperationError>)
    requires
        dense.wf(),
        csc.wf(),
        dense_matches(&dense, &csc) ==> forall|i: int, j: int|
            0 <= i < dense.spec_nrows() && 0 <= j < dense.spec_ncols() ==> i64::MIN <= #[trigger] dense.at(i, j)
                - csc.cell(i, j) <= i64::MAX,
    ensures
        is_dense_minus_sparse(&dense, &csc, r),
{
    spsub_dense_cs(dense, csc)
}

/// `dense - csr` as a dense matrix.
pub fn spsub_dense_csr(dense: DenseMatrix, csr: CsrMatrix) -> (r: Result<DenseMatrix, OperationError>)
    requires
        dense.wf(),
        csr.wf(),
        dense_matches(&dense, &csr) ==> forall|i: int, j: int|
            0 <= i < dense.spec_nrows() && 0 <= j < dense.spec_ncols() ==> i64::MIN <= #[trigger] dense.at(i, j)
                - csr.cell(i, j) <= i64::MAX,
    ensures
        is_dense_minus_sparse(&dense, &csr, r),
{
    spsub_dense_cs(dense, csr)
}

/// `csc - dense` as a dense matrix; the dense operand is negated first, so
/// none of its cells may be `i64::MIN`.
pub fn spsub_csc_dense(csc: CscMatrix, dense: DenseMatrix) -> (r: Result<DenseMatrix, OperationError>)
    requires
        dense.wf(),
        csc.wf(),
        dense_matches(&dense, &csc) ==> forall|i: int, j: int|
            0 <= i < dense.spec_nrows() && 0 <= j < dense.spec_ncols() ==> #[trigger] dense.at(i, j)
                != i64::MIN && i64::MIN <= csc.cell(i, j) - dense.at(i, j) <= i64::MAX,
    ensures
        is_sparse_minus_dense(&csc, &dense, r),
{
    spsub_cs_dense(csc, dense)
}

/// `csr - dense` as a dense matrix; the dense operand is negated first, so
/// none of its cells may be `i64::MIN`.
pub fn spsub_csr_dense(csr: CsrMatrix, dense: DenseMatrix) -> (r: Result<DenseMatrix, OperationError>)
    requires
        dense.wf(),
        csr.wf(),
        dense_matches(&dense, &csr) ==> forall|i: int, j: int|
            0 <= i < dense.spec_nrows() && 0 <= j < dense.spec_ncols() ==> #[trigger] dense.at(i, j)
                != i64::MIN && i64::MIN <= csr.cell(i, j) - dense.at(i, j) <= i64::MAX,
    ensures
        is_sparse_minus_dense(&csr, &dense, r),
{
    spsub_cs_dense(csr, dense)
}

} // verus!
