//! Multiplying or dividing every stored value by a scalar.
use vstd::prelude::*;
use crate::cs::{Compression, CsMatrix, parts_view};
use crate::lanes::Lanes;

verus! {

/// `x / d` rounded toward zero, as integer division on `i64` does it.
pub open spec fn trunc_div(x: int, d: int) -> int {
    if x == 0 {
        0
    } else if x > 0 && d > 0 {
        x / d
    } else if x < 0 && d < 0 {
        (x * -1) / (d * -1)
    } else if x < 0 {
        ((x * -1) / d) * -1
    } else {
        (x / (d * -1)) * -1
    }
}

/// `l` with each stored value replaced by `f` of it.
pub open spec fn map_values(l: Lanes, f: spec_fn(i64) -> int) -> Lanes {
    Lanes { values: l.values.map_values(|v: i64| f(v) as i64), ..l }
}

/// Multiplies every stored value by `scalar`. The structure is kept as it
/// is, so a zero scalar leaves explicit zeros.
pub fn sp_cs_scalar_prod<C: Compression>(cs: CsMatrix<C>, scalar: i64) -> (r: CsMatrix<C>)
    requires
        cs.wf(),
        forall|p: int|
            0 <= p < cs@.nnz() ==> i64::MIN <= #[trigger] cs@.values[p] * scalar <= i64::MAX,
    ensures
        r.wf(),
        r.spec_nrows() == cs.spec_nrows(),
        r.spec_ncols() == cs.spec_ncols(),
        r@ == map_values(cs@, |v: i64| v * scalar),
{
    let ghost l = cs@;
    let (nrows, ncols) = cs.shape();
    let (offsets, indices, values) = cs.disassemble();
    let mut out: Vec<i64> = Vec::new();
    let mut p: usize = 0;
    while p < values.len()
        invariant
            p <= values@.len(),
            values@ == l.values,
            l.wf(),
            forall|q: int|
                0 <= q < l.nnz() ==> i64::MIN <= #[trigger] l.values[q] * scalar <= i64::MAX,
            out@.len() == p,
            forall|q: int| 0 <= q < p ==> #[trigger] out@[q] == values@[q] * scalar,
        decreases values@.len() - p,
    {
        out.push(values[p] * scalar);
        p = p + 1;
    }
    let ghost target = map_values(l, |v: i64| v * scalar);
    assert(out@ =~= target.values);
    assert(target.offsets == l.offsets && target.indices == l.indices);
    assert forall|k: int| 0 <= k < target.nmajor implies #[trigger] target.lane_sorted(k) by {
        assert(l.lane_sorted(k));
    }
    assert(target.wf());
    assert(parts_view(C::row_major(), nrows, ncols, offsets@, indices@, out@) == target);
    CsMatrix::<C>::from_parts_unchecked(nrows, ncols, offsets, indices, out)
}

/// Divides every stored value by `scalar`, rounding toward zero. The
/// structure is kept as it is, so stored zeros stay stored.
pub fn sp_cs_scalar_div<C: Compression>(cs: CsMatrix<C>, scalar: i64) -> (r: CsMatrix<C>)
    requires
        cs.wf(),
        scalar != 0,
        forall|p: int|
            0 <= p < cs@.nnz() ==> i64::MIN <= #[trigger] trunc_div(cs@.values[p] as int, scalar as int)
                <= i64::MAX,
    ensures
        r.wf(),
        r.spec_nrows() == cs.spec_nrows(),
        r.spec_ncols() == cs.spec_ncols(),
        r@ == map_values(cs@, |v: i64| trunc_div(v as int, scalar as int)),
{
    let ghost l = cs@;
    let (nrows, ncols) = cs.shape();
    let (offsets, indices, values) = cs.disassemble();
    let mut out: Vec<i64> = Vec::new();
    let mut p: usize = 0;
    while p < values.len()
        invariant
            p <= values@.len(),
            values@ == l.values,
            l.wf(),
            scalar != 0,
            forall|q: int|
                0 <= q < l.nnz() ==> i64::MIN <= #[trigger] trunc_div(l.values[q] as int, scalar as int)
                    <= i64::MAX,
            out@.len() == p,
            forall|q: int| 0 <= q < p ==> #[trigger] out@[q] == trunc_div(values@[q] as int, scalar as int),
        decreases values@.len() - p,
    {
        let q = match values[p].checked_div(scalar) {
            Some(q) => q,
            None => 0,
        };
        assert(trunc_div(values@[p as int] as int, scalar as int) == q);
        out.push(q);
        p = p + 1;
    }
    let ghost target = map_values(l, |v: i64| trunc_div(v as int, scalar as int));
    assert(out@ =~= target.values);
    assert(target.offsets == l.offsets && target.indices == l.indices);
    assert forall|k: int| 0 <= k < target.nmajor implies #[trigger] target.lane_sorted(k) by {
        assert(l.lane_sorted(k));
    }
    assert(target.wf());
    assert(parts_view(C::row_major(), nrows, ncols, offsets@, indices@, out@) == target);
    CsMatrix::<C>::from_parts_unchecked(nrows, ncols, offsets, indices, out)
}

} // verus!
