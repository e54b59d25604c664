//! Conversions between the dense, coordinate and compressed formats.
use vstd::prelude::*;
use crate::coo::{CooMatrix, CooView, zip3};
use crate::cs::{Compression, CsMatrix, CsrMatrix, CscMatrix, parts_view};
use crate::lanes::Lanes;
use crate::dense::DenseMatrix;
use crate::offsets::{
    counts_to_offsets, count_eq, num_below, nondecreasing, lemma_count_le_len,
    lemma_num_below_all, lemma_num_below_mono, lemma_num_below_zero, lemma_prefix_counts,
    lemma_sorted_position, lemma_position_sorted,
};
use crate::sums::{
    Triplet, seq_sum, key_term, pos_term, neg_term, key_lt, key_le, keyed, lemma_sum_take_step,
    lemma_sum_zero, lemma_prefix_bounds, lemma_sum_permutation, lemma_sum_swap,
    lemma_permutation_contains,
};

verus! {

/// Relies on `slice::sort_unstable`: afterwards the vector holds the same
/// elements in ascending tuple order, which orders by the first component,
/// then the second.
#[verifier::external_body]
fn sort_triplets(v: &mut Vec<Triplet>)
    ensures
        final(v)@.to_multiset() == old(v)@.to_multiset(),
        forall|i: int, j: int|
            0 <= i < j < final(v)@.len() ==> key_le(#[trigger] final(v)@[i], #[trigger] final(v)@[j]),
{
    v.sort_unstable();
}

/// A vector of `n` zeros.
pub(crate) fn zeros_usize(n: usize) -> (r: Vec<usize>)
    ensures
        r@.len() == n,
        forall|i: int| 0 <= i < n ==> #[trigger] r@[i] == 0,
{
    let mut r: Vec<usize> = Vec::new();
    let mut i: usize = 0;
    while i < n
        invariant
            i <= n,
            r@.len() == i,
            forall|j: int| 0 <= j < i ==> #[trigger] r@[j] == 0,
        decreases n - i,
    {
        r.push(0);
        i = i + 1;
    }
    r
}

/// What a compressed conversion of `coo` stores at (`i`, `j`): the sum of the
/// entries there, or nothing where there are none.
pub open spec fn coo_entry(coo: CooView, i: int, j: int) -> Option<i64> {
    if coo.has_entry(i, j) {
        Some(coo.cell(i, j) as i64)
    } else {
        None
    }
}

/// Maps each entry's (row, col) to (major, minor).
fn keyed_triplets(rows: &Vec<usize>, cols: &Vec<usize>, vals: &Vec<i64>, row_major: bool) -> (r: Vec<
    Triplet,
>)
    requires
        rows@.len() == cols@.len(),
        rows@.len() == vals@.len(),
    ensures
        r@ == keyed(zip3(rows@, cols@, vals@), row_major),
{
    let ghost ks = keyed(zip3(rows@, cols@, vals@), row_major);
    let mut out: Vec<Triplet> = Vec::new();
    let mut i: usize = 0;
    while i < vals.len()
        invariant
            rows@.len() == cols@.len(),
            rows@.len() == vals@.len(),
            ks == keyed(zip3(rows@, cols@, vals@), row_major),
            ks.len() == vals@.len(),
            i <= vals@.len(),
            out@ =~= ks.take(i as int),
        decreases vals@.len() - i,
    {
        if row_major {
            out.push((rows[i], cols[i], vals[i]));
        } else {
            out.push((cols[i], rows[i], vals[i]));
        }
        assert(out@ =~= ks.take(i + 1));
        i = i + 1;
    }
    assert(ks.take(vals@.len() as int) =~= ks);
    out
}

/// Converts a coordinate matrix to compressed form in orientation `C`,
/// adding up entries that share a position.
fn convert_coo_cs<C: Compression>(coo: CooMatrix) -> (r: CsMatrix<C>)
    requires
        coo.wf(),
        coo@.sums_fit(),
    ensures
        r.wf(),
        r.spec_nrows() == coo@.nrows,
        r.spec_ncols() == coo@.ncols,
        forall|i: int, j: int|
            0 <= i < coo@.nrows && 0 <= j < coo@.ncols ==> #[trigger] r.entry(i, j) == coo_entry(
                coo@,
                i,
                j,
            ),
{
    let nrows = coo.nrows();
    let ncols = coo.ncols();
    let row_major = C::is_row_major();
    let nmajor = if row_major { nrows } else { ncols };
    let nminor = if row_major { ncols } else { nrows };
    let ghost cv = coo@;
    let ghost ks = keyed(cv.entries, row_major);
    let (rows, cols, vals) = coo.disassemble();
    let n = vals.len();
    let mut triplets = keyed_triplets(&rows, &cols, &vals, row_major);
    assert forall|j: int| 0 <= j < ks.len() implies (#[trigger] ks[j]).0 < nmajor && ks[j].1
        < nminor by {
        assert(cv.entries[j].0 < nrows);
    }
    assert forall|k: int, m: int|
        seq_sum(ks, #[trigger] pos_term(k, m)) <= i64::MAX && i64::MIN <= seq_sum(
            ks,
            neg_term(k, m),
        ) by {
        if row_major {
            assert(cv.pos_total(k, m) <= i64::MAX);
        } else {
            lemma_sum_swap(cv.entries, m, k);
            assert(cv.pos_total(m, k) <= i64::MAX);
        }
    }
    assert(triplets@ == ks);
    assert(ks.len() == n);
    sort_triplets(&mut triplets);
    let ghost s = triplets@;
    proof {
        s.to_multiset_ensures();
        ks.to_multiset_ensures();
    }
    assert forall|j: int| 0 <= j < s.len() implies (#[trigger] s[j]).0 < nmajor && s[j].1
        < nminor by {
        let i = lemma_permutation_contains(s, ks, j);
    }
    assert forall|k: int, m: int|
        seq_sum(s, #[trigger] pos_term(k, m)) <= i64::MAX && i64::MIN <= seq_sum(
            s,
            neg_term(k, m),
        ) by {
        lemma_sum_permutation(s, ks, pos_term(k, m));
        lemma_sum_permutation(s, ks, neg_term(k, m));
    }

    let mut counts = zeros_usize(nmajor);
    let mut indices: Vec<usize> = Vec::new();
    let mut data: Vec<i64> = Vec::new();
    let ghost mut majors: Seq<usize> = Seq::empty();
    // `slot[j]` is the output position of sorted entry `j`; `src[a]` is a
    // sorted entry that went into output position `a`.
    let ghost mut slot: Seq<int> = Seq::empty();
    let ghost mut src: Seq<int> = Seq::empty();
    let mut last_major: usize = 0;
    let mut i: usize = 0;
    while i < n
        invariant
            s.len() == n,
            triplets@ == s,
            forall|a: int, b: int| 0 <= a < b < n ==> key_le(#[trigger] s[a], #[trigger] s[b]),
            forall|j: int| 0 <= j < n ==> (#[trigger] s[j]).0 < nmajor && s[j].1 < nminor,
            forall|k: int, m: int|
                seq_sum(s, #[trigger] pos_term(k, m)) <= i64::MAX && i64::MIN <= seq_sum(
                    s,
                    neg_term(k, m),
                ),
            i <= n,
            majors.len() == indices@.len(),
            majors.len() == data@.len(),
            majors.len() <= i,
            counts@.len() == nmajor,
            forall|k: int| 0 <= k < nmajor ==> #[trigger] counts@[k] == count_eq(majors, k),
            forall|a: int|
                0 <= a < majors.len() ==> #[trigger] majors[a] < nmajor && indices@[a] < nminor,
            forall|a: int, b: int|
                0 <= a < b < majors.len() ==> key_lt(
                    (#[trigger] majors[a], indices@[a], 0i64),
                    (#[trigger] majors[b], indices@[b], 0i64),
                ),
            i == 0 ==> majors.len() == 0,
            i > 0 ==> majors.len() > 0 && majors.last() == s[i - 1].0 && indices@.last() == s[i
                - 1].1 && last_major == majors.last(),
            forall|a: int|
                0 <= a < majors.len() ==> #[trigger] data@[a] == seq_sum(
                    s.take(i as int),
                    key_term(majors[a] as int, indices@[a] as int),
                ),
            slot.len() == i,
            forall|j: int|
                0 <= j < i ==> 0 <= #[trigger] slot[j] < majors.len() && majors[slot[j]] == s[j].0
                    && indices@[slot[j]] == s[j].1,
            src.len() == majors.len(),
            forall|a: int|
                0 <= a < majors.len() ==> 0 <= #[trigger] src[a] < i && s[src[a]].0 == majors[a]
                    && s[src[a]].1 == indices@[a],
        decreases n - i,
    {
        let t = triplets[i];
        let maj = t.0;
        let min = t.1;
        let v = t.2;
        let q = indices.len();
        proof {
            lemma_sum_take_step(s, key_term(maj as int, min as int), i as int);
            lemma_prefix_bounds(s, i + 1, maj as int, min as int);
            assert forall|a: int|
                0 <= a < majors.len() && (majors[a] != maj || indices@[a] != min) implies seq_sum(
                s.take(i + 1),
                key_term(majors[a] as int, indices@[a] as int),
            ) == seq_sum(s.take(i as int), key_term(majors[a] as int, indices@[a] as int)) by {
                lemma_sum_take_step(s, key_term(majors[a] as int, indices@[a] as int), i as int);
            }
        }
        if q > 0 && maj == last_major && min == indices[q - 1] {
            let prev = data[q - 1];
            data.set(q - 1, prev + v);
            proof {
                assert forall|a: int| 0 <= a < majors.len() implies #[trigger] data@[a] == seq_sum(
                    s.take(i + 1),
                    key_term(majors[a] as int, indices@[a] as int),
                ) by {
                    if a < q - 1 {
                        assert(key_lt(
                            (majors[a], indices@[a], 0i64),
                            (majors[q - 1], indices@[q - 1], 0i64),
                        ));
                    }
                }
                slot = slot.push(q - 1);
            }
        } else {
            proof {
                if i > 0 {
                    assert(key_lt(s[i - 1], s[i as int])) by {
                        assert(key_le(s[i - 1], s[i as int]));
                    }
                }
                assert forall|j: int| 0 <= j < s.take(i as int).len() implies key_term(
                    maj as int,
                    min as int,
                )(#[trigger] s.take(i as int)[j]) == 0 by {
                    assert(key_le(s[j], s[i - 1]));
                }
                lemma_sum_zero(s.take(i as int), key_term(maj as int, min as int));
                lemma_count_le_len(majors, maj as int);
            }
            counts.set(maj, counts[maj] + 1);
            indices.push(min);
            data.push(v);
            last_major = maj;
            proof {
                let old_majors = majors;
                majors = majors.push(maj);
                assert(majors.drop_last() =~= old_majors);
                assert forall|a: int, b: int|
                    0 <= a < b < majors.len() implies key_lt(
                    (#[trigger] majors[a], indices@[a], 0i64),
                    (#[trigger] majors[b], indices@[b], 0i64),
                ) by {
                    if b == q && a < q - 1 {
                        assert(key_lt(
                            (majors[a], indices@[a], 0i64),
                            (majors[q - 1], indices@[q - 1], 0i64),
                        ));
                    }
                }
                slot = slot.push(q as int);
                src = src.push(i as int);
            }
        }
        i = i + 1;
    }
    proof {
        assert(s.take(n as int) =~= s);
        lemma_num_below_all(majors, nmajor as int);
        lemma_prefix_counts(counts@, majors, nmajor as int);
    }
    let offsets = counts_to_offsets(&counts);
    let ghost l = parts_view(C::row_major(), nrows, ncols, offsets@, indices@, data@);
    proof {
        assert forall|k: int| 0 <= k <= nmajor implies #[trigger] offsets@[k] == num_below(
            majors,
            k,
        ) by {
            lemma_prefix_counts(counts@, majors, k);
        }
        assert(nondecreasing(majors)) by {
            assert forall|a: int, b: int| 0 <= a <= b < majors.len() implies #[trigger] majors[a]
                <= #[trigger] majors[b] by {
                if a < b {
                    assert(key_lt(
                        (majors[a], indices@[a], 0i64),
                        (majors[b], indices@[b], 0i64),
                    ));
                }
            }
        }
        lemma_num_below_zero(majors);
        assert forall|x: int, y: int| 0 <= x <= y <= nmajor implies #[trigger] offsets@[x]
            <= #[trigger] offsets@[y] by {
            lemma_num_below_mono(majors, x, y);
        }
        assert forall|a: int| 0 <= a < majors.len() implies l.in_lane(majors[a] as int, a) by {
            lemma_sorted_position(majors, a);
        }
        assert forall|k: int| 0 <= k < nmajor implies #[trigger] l.lane_sorted(k) by {
            assert forall|p: int, q: int| offsets@[k] <= p < q < offsets@[k + 1] implies #[trigger] indices@[p]
                < #[trigger] indices@[q] by {
                lemma_num_below_all(majors, nmajor as int);
                lemma_num_below_mono(majors, k + 1, nmajor as int);
                lemma_position_sorted(majors, p, k);
                lemma_position_sorted(majors, q, k);
                assert(key_lt((majors[p], indices@[p], 0i64), (majors[q], indices@[q], 0i64)));
            }
        }
        assert forall|p: int| 0 <= p < l.indices.len() implies #[trigger] l.indices[p]
            < l.nminor by {
            assert(majors[p] < nmajor);
        }
        assert(l.offsets[0] == 0);
        assert(l.offsets[l.nmajor as int] == l.indices.len());
        assert(l.offsets_wf());
        assert(l.wf());
    }
    let r = CsMatrix::<C>::from_parts_unchecked(nrows, ncols, offsets, indices, data);
    proof {
        assert forall|ri: int, cj: int|
            0 <= ri < cv.nrows && 0 <= cj < cv.ncols implies #[trigger] r.entry(ri, cj) == coo_entry(
            cv,
            ri,
            cj,
        ) by {
            let k = if row_major { ri } else { cj };
            let m = if row_major { cj } else { ri };
            assert(r.entry(ri, cj) == l.get(k, m));
            assert(seq_sum(ks, key_term(k, m)) == cv.cell(ri, cj)) by {
                assert(cv.entries.take(cv.entries.len() as int) =~= cv.entries);
                if !row_major {
                    lemma_sum_swap(cv.entries, ri, cj);
                }
            }
            lemma_sum_permutation(s, ks, key_term(k, m));
            if cv.has_entry(ri, cj) {
                let e = choose|e: int|
                    0 <= e < cv.entries.len() && (#[trigger] cv.entries[e]).0 == ri
                        && cv.entries[e].1 == cj;
                let j = lemma_permutation_contains(ks, s, e);
                let a = slot[j];
                assert(l.stores(k, m, a));
                crate::lanes::lemma_get_stored(l, k, m, a);
            } else {
                if exists|p: int| l.stores(k, m, p) {
                    let p = choose|p: int| l.stores(k, m, p);
                    let k2 = majors[p] as int;
                    assert(l.in_lane(k2, p));
                    assert(k2 == k) by {
                        if k2 < k {
                            assert(l.offsets[k2 + 1] <= l.offsets[k]);
                        } else if k2 > k {
                            assert(l.offsets[k + 1] <= l.offsets[k2]);
                        }
                    }
                    let j = src[p];
                    let e = lemma_permutation_contains(s, ks, j);
                    assert(cv.entries[e].0 == ri && cv.entries[e].1 == cj);
                }
            }
        }
    }
    r
}

/// Converts a coordinate matrix to CSR, adding up entries that share a
/// position.
pub fn convert_coo_csr(coo: CooMatrix) -> (r: CsrMatrix)
    requires
        coo.wf(),
        coo@.sums_fit(),
    ensures
        r.wf(),
        r.spec_nrows() == coo@.nrows,
        r.spec_ncols() == coo@.ncols,
        forall|i: int, j: int|
            0 <= i < coo@.nrows && 0 <= j < coo@.ncols ==> #[trigger] r.entry(i, j) == coo_entry(
                coo@,
                i,
                j,
            ),
{
    convert_coo_cs(coo)
}

/// Converts a coordinate matrix to CSC, adding up entries that share a
/// position.
pub fn convert_coo_csc(coo: CooMatrix) -> (r: CscMatrix)
    requires
        coo.wf(),
        coo@.sums_fit(),
    ensures
        r.wf(),
        r.spec_nrows() == coo@.nrows,
        r.spec_ncols() == coo@.ncols,
        forall|i: int, j: int|
            0 <= i < coo@.nrows && 0 <= j < coo@.ncols ==> #[trigger] r.entry(i, j) == coo_entry(
                coo@,
                i,
                j,
            ),
{
    convert_coo_cs(coo)
}


/// Converts CSR to CSC without going through coordinates.
pub fn convert_csr_csc(csr: &CsrMatrix) -> (r: CscMatrix)
    requires
        csr.wf(),
    ensures
        r.wf(),
        r.spec_nrows() == csr.spec_nrows(),
        r.spec_ncols() == csr.spec_ncols(),
        forall|i: int, j: int|
            0 <= i < csr.spec_nrows() && 0 <= j < csr.spec_ncols() ==> #[trigger] r.entry(i, j)
                == csr.entry(i, j),
{
    let (offsets, indices, values) = crate::transpose::transpose_lanes(
        csr.nrows,
        csr.ncols,
        &csr.offsets,
        &csr.indices,
        &csr.values,
    );
    CscMatrix::from_parts_unchecked(csr.nrows, csr.ncols, offsets, indices, values)
}

/// Converts CSC to CSR without going through coordinates.
pub fn convert_csc_csr(csc: &CscMatrix) -> (r: CsrMatrix)
    requires
        csc.wf(),
    ensures
        r.wf(),
        r.spec_nrows() == csc.spec_nrows(),
        r.spec_ncols() == csc.spec_ncols(),
        forall|i: int, j: int|
            0 <= i < csc.spec_nrows() && 0 <= j < csc.spec_ncols() ==> #[trigger] r.entry(i, j)
                == csc.entry(i, j),
{
    let (offsets, indices, values) = crate::transpose::transpose_lanes(
        csc.ncols,
        csc.nrows,
        &csc.offsets,
        &csc.indices,
        &csc.values,
    );
    CsrMatrix::from_parts_unchecked(csc.nrows, csc.ncols, offsets, indices, values)
}


/// Cell (`r1`, `c1`) comes before cell (`r2`, `c2`) when walking column by column.
pub open spec fn col_major_before(r1: int, c1: int, r2: int, c2: int) -> bool {
    c1 < c2 || (c1 == c2 && r1 < r2)
}

/// `coo` lists the non-zero cells of `d`, each once, in column-major order.
pub open spec fn is_coo_of_dense(coo: CooView, d: &DenseMatrix) -> bool {
    &&& coo.nrows == d.spec_nrows()
    &&& coo.ncols == d.spec_ncols()
    &&& coo.wf()
    &&& forall|i: int|
        0 <= i < coo.entries.len() ==> (#[trigger] coo.entries[i]).2 != 0 && coo.entries[i].2
            == d.at(coo.entries[i].0 as int, coo.entries[i].1 as int)
    &&& forall|i: int, j: int|
        0 <= i < j < coo.entries.len() ==> col_major_before(
            (#[trigger] coo.entries[i]).0 as int,
            coo.entries[i].1 as int,
            (#[trigger] coo.entries[j]).0 as int,
            coo.entries[j].1 as int,
        )
    &&& forall|r: int, c: int|
        0 <= r < d.spec_nrows() && 0 <= c < d.spec_ncols() && #[trigger] d.at(r, c) != 0
            ==> coo.has_entry(r, c)
}

/// Lists the non-zero cells of a dense matrix, column by column.
pub fn convert_dense_coo(dense: &DenseMatrix) -> (coo: CooMatrix)
    requires
        dense.wf(),
    ensures
        coo.wf(),
        is_coo_of_dense(coo@, dense),
{
    let nrows = dense.nrows();
    let ncols = dense.ncols();
    let mut coo = CooMatrix::new(nrows, ncols);
    let mut j: usize = 0;
    while j < ncols
        invariant
            dense.wf(),
            nrows == dense.spec_nrows(),
            ncols == dense.spec_ncols(),
            j <= ncols,
            coo.wf(),
            coo@.nrows == nrows,
            coo@.ncols == ncols,
            forall|e: int|
                0 <= e < coo@.entries.len() ==> (#[trigger] coo@.entries[e]).2 != 0
                    && coo@.entries[e].2 == dense.at(
                    coo@.entries[e].0 as int,
                    coo@.entries[e].1 as int,
                ) && col_major_before(
                    coo@.entries[e].0 as int,
                    coo@.entries[e].1 as int,
                    0,
                    j as int,
                ),
            forall|a: int, b: int|
                0 <= a < b < coo@.entries.len() ==> col_major_before(
                    (#[trigger] coo@.entries[a]).0 as int,
                    coo@.entries[a].1 as int,
                    (#[trigger] coo@.entries[b]).0 as int,
                    coo@.entries[b].1 as int,
                ),
            forall|r: int, c: int|
                0 <= r < nrows && 0 <= c < j && #[trigger] dense.at(r, c) != 0 ==> coo@.has_entry(
                    r,
                    c,
                ),
        decreases ncols - j,
    {
        let mut i: usize = 0;
        while i < nrows
            invariant
                dense.wf(),
                nrows == dense.spec_nrows(),
                ncols == dense.spec_ncols(),
                j < ncols,
                i <= nrows,
                coo.wf(),
                coo@.nrows == nrows,
                coo@.ncols == ncols,
                forall|e: int|
                    0 <= e < coo@.entries.len() ==> (#[trigger] coo@.entries[e]).2 != 0
                        && coo@.entries[e].2 == dense.at(
                        coo@.entries[e].0 as int,
                        coo@.entries[e].1 as int,
                    ) && col_major_before(
                        coo@.entries[e].0 as int,
                        coo@.entries[e].1 as int,
                        i as int,
                        j as int,
                    ),
                forall|a: int, b: int|
                    0 <= a < b < coo@.entries.len() ==> col_major_before(
                        (#[trigger] coo@.entries[a]).0 as int,
                        coo@.entries[a].1 as int,
                        (#[trigger] coo@.entries[b]).0 as int,
                        coo@.entries[b].1 as int,
                    ),
                forall|r: int, c: int|
                    0 <= r < nrows && 0 <= c < ncols && col_major_before(r, c, i as int, j as int)
                        && #[trigger] dense.at(r, c) != 0 ==> coo@.has_entry(r, c),
            decreases nrows - i,
        {
            let v = dense.get(i, j);
            if v != 0 {
                let ghost old_entries = coo@.entries;
                coo.push(i, j, v);
                proof {
                    assert forall|r: int, c: int|
                        0 <= r < nrows && 0 <= c < ncols && col_major_before(
                            r,
                            c,
                            i + 1,
                            j as int,
                        ) && #[trigger] dense.at(r, c) != 0 implies coo@.has_entry(r, c) by {
                        if r == i && c == j {
                            assert(coo@.entries[old_entries.len() as int] == (i, j, v));
                        } else {
                            let e = choose|e: int|
                                0 <= e < old_entries.len() && (#[trigger] old_entries[e]).0 == r
                                    && old_entries[e].1 == c;
                            assert(coo@.entries[e] == old_entries[e]);
                        }
                    }
                }
            }
            i = i + 1;
        }
        j = j + 1;
    }
    coo
}

/// Adds every entry of a coordinate matrix into a zero dense matrix, so that
/// entries sharing a position are summed.
pub fn convert_coo_dense(coo: &CooMatrix) -> (d: DenseMatrix)
    requires
        coo.wf(),
        coo@.prefix_sums_fit(),
        coo@.nrows * coo@.ncols <= usize::MAX,
    ensures
        d.wf(),
        d.spec_nrows() == coo@.nrows,
        d.spec_ncols() == coo@.ncols,
        forall|r: int, c: int|
            0 <= r < coo@.nrows && 0 <= c < coo@.ncols ==> #[trigger] d.at(r, c) == coo@.cell(r, c),
{
    let nrows = coo.nrows();
    let ncols = coo.ncols();
    let mut d = DenseMatrix::zeros(nrows, ncols);
    let n = coo.nnz();
    let ghost cv = coo@;
    proof {
        assert forall|r: int, c: int| 0 <= r < nrows && 0 <= c < ncols implies #[trigger] d.at(r, c)
            == cv.cell_sum(0, r, c) by {
            assert(cv.entries.take(0) =~= Seq::<Triplet>::empty());
        }
    }
    let mut i: usize = 0;
    while i < n
        invariant
            coo.wf(),
            cv == coo@,
            cv.prefix_sums_fit(),
            n == cv.entries.len(),
            i <= n,
            d.wf(),
            d.spec_nrows() == nrows,
            d.spec_ncols() == ncols,
            nrows == cv.nrows,
            ncols == cv.ncols,
            forall|r: int, c: int|
                0 <= r < nrows && 0 <= c < ncols ==> #[trigger] d.at(r, c) == cv.cell_sum(
                    i as int,
                    r,
                    c,
                ),
        decreases n - i,
    {
        let r = coo.row_indices[i];
        let c = coo.col_indices[i];
        let v = coo.values[i];
        proof {
            assert(cv.entries[i as int] == (r, c, v));
            assert forall|r1: int, c1: int|
                0 <= r1 < nrows && 0 <= c1 < ncols implies #[trigger] cv.cell_sum(i + 1, r1, c1)
                == cv.cell_sum(i as int, r1, c1) + key_term(r1, c1)(cv.entries[i as int]) by {
                lemma_sum_take_step(cv.entries, key_term(r1, c1), i as int);
            }
            assert(i64::MIN <= cv.cell_sum(i + 1, r as int, c as int) <= i64::MAX);
            assert(cv.cell_sum(i + 1, r as int, c as int) == cv.cell_sum(i as int, r as int, c as int)
                + key_term(r as int, c as int)(cv.entries[i as int]));
        }
        let cur = d.get(r, c);
        d.set(r, c, cur + v);
        i = i + 1;
    }
    d
}

/// `coo` lists the stored entries of `m` in storage order: lane by lane,
/// ascending minor index within a lane.
pub open spec fn is_coo_of_cs<C: Compression>(coo: CooView, m: &CsMatrix<C>) -> bool {
    &&& coo.nrows == m.spec_nrows()
    &&& coo.ncols == m.spec_ncols()
    &&& coo.wf()
    &&& coo.entries.len() == m@.nnz()
    &&& forall|p: int|
        0 <= p < coo.entries.len() ==> {
            let e = #[trigger] coo.entries[p];
            let k = if C::row_major() { e.0 } else { e.1 };
            let mi = if C::row_major() { e.1 } else { e.0 };
            m@.in_lane(k as int, p) && mi == m@.indices[p] && e.2 == m@.values[p]
        }
}

fn convert_cs_coo<C: Compression>(cs: &CsMatrix<C>) -> (coo: CooMatrix)
    requires
        cs.wf(),
    ensures
        coo.wf(),
        is_coo_of_cs(coo@, cs),
{
    let ghost l = cs@;
    let row_major = C::is_row_major();
    let nrows = cs.nrows();
    let ncols = cs.ncols();
    let nmajor = if row_major { nrows } else { ncols };
    let nnz = cs.nnz();
    let mut coo = CooMatrix::new(nrows, ncols);
    let mut k: usize = 0;
    let mut p: usize = 0;
    while p < nnz
        invariant
            l == cs@,
            l.wf(),
            nnz == l.nnz(),
            nmajor == l.nmajor,
            row_major == C::row_major(),
            nrows == cs.spec_nrows(),
            ncols == cs.spec_ncols(),
            p <= nnz,
            nmajor > 0 ==> k < nmajor,
            p < nnz ==> nmajor > 0 && cs.offsets@[k as int] <= p,
            coo.wf(),
            coo@.nrows == nrows,
            coo@.ncols == ncols,
            coo@.entries.len() == p,
            forall|q: int|
                0 <= q < p ==> {
                    let e = #[trigger] coo@.entries[q];
                    let kk = if C::row_major() { e.0 } else { e.1 };
                    let mi = if C::row_major() { e.1 } else { e.0 };
                    l.in_lane(kk as int, q) && mi == l.indices[q] && e.2 == l.values[q]
                },
        decreases nnz - p,
    {
        k = crate::transpose::lane_containing(&cs.offsets, nmajor, k, p);
        let mi = cs.indices[p];
        let v = cs.values[p];
        let ghost old_entries = coo@.entries;
        if row_major {
            coo.push(k, mi, v);
        } else {
            coo.push(mi, k, v);
        }
        proof {
            assert forall|q: int| 0 <= q < p + 1 implies {
                let e = #[trigger] coo@.entries[q];
                let kk = if C::row_major() { e.0 } else { e.1 };
                let mi = if C::row_major() { e.1 } else { e.0 };
                l.in_lane(kk as int, q) && mi == l.indices[q] && e.2 == l.values[q]
            } by {
                if q < p {
                    assert(coo@.entries[q] == old_entries[q]);
                }
            }
        }
        p = p + 1;
    }
    coo
}

/// Lists the stored entries of a CSR matrix row by row.
pub fn convert_csr_coo(csr: &CsrMatrix) -> (coo: CooMatrix)
    requires
        csr.wf(),
    ensures
        coo.wf(),
        is_coo_of_cs(coo@, csr),
{
    convert_cs_coo(csr)
}

/// Lists the stored entries of a CSC matrix column by column.
pub fn convert_csc_coo(csc: &CscMatrix) -> (coo: CooMatrix)
    requires
        csc.wf(),
    ensures
        coo.wf(),
        is_coo_of_cs(coo@, csc),
{
    convert_cs_coo(csc)
}


/// Some position below `p` stores (`k`, `m`).
pub open spec fn stored_below(l: Lanes, k: int, m: int, p: int) -> bool {
    exists|p1: int| 0 <= p1 < p && l.stores(k, m, p1)
}

/// Lane `k`, minor index `m` of `d` read in the given orientation.
pub open spec fn dense_lane_value(d: &DenseMatrix, row_major: bool, k: int, m: int) -> int {
    if row_major { d.at(k, m) } else { d.at(m, k) }
}

/// A dense matrix with the values of `cs`, zero where it stores nothing.
fn convert_cs_dense<C: Compression>(cs: &CsMatrix<C>) -> (d: DenseMatrix)
    requires
        cs.wf(),
        cs.spec_nrows() * cs.spec_ncols() <= usize::MAX,
    ensures
        d.wf(),
        d.spec_nrows() == cs.spec_nrows(),
        d.spec_ncols() == cs.spec_ncols(),
        forall|r: int, c: int|
            0 <= r < cs.spec_nrows() && 0 <= c < cs.spec_ncols() ==> #[trigger] d.at(r, c)
                == cs.cell(r, c),
{
    let ghost l = cs@;
    let row_major = C::is_row_major();
    let nrows = cs.nrows();
    let ncols = cs.ncols();
    let nmajor = if row_major { nrows } else { ncols };
    let nnz = cs.nnz();
    let mut d = DenseMatrix::zeros(nrows, ncols);
    let mut k: usize = 0;
    let mut p: usize = 0;
    while p < nnz
        invariant
            l == cs@,
            l.wf(),
            nnz == l.nnz(),
            nmajor == l.nmajor,
            row_major == C::row_major(),
            nrows == cs.spec_nrows(),
            ncols == cs.spec_ncols(),
            p <= nnz,
            nmajor > 0 ==> k < nmajor,
            p < nnz ==> nmajor > 0 && cs.offsets@[k as int] <= p,
            d.wf(),
            d.spec_nrows() == nrows,
            d.spec_ncols() == ncols,
            forall|r: int, c: int|
                0 <= r < nrows && 0 <= c < ncols ==> #[trigger] d.at(r, c) == (if stored_below(
                    l,
                    if row_major { r } else { c },
                    if row_major { c } else { r },
                    p as int,
                ) {
                    l.value_at(if row_major { r } else { c }, if row_major { c } else { r })
                } else {
                    0
                }),
        decreases nnz - p,
    {
        k = crate::transpose::lane_containing(&cs.offsets, nmajor, k, p);
        let mi = cs.indices[p];
        let v = cs.values[p];
        let r = if row_major { k } else { mi };
        let c = if row_major { mi } else { k };
        proof {
            assert(l.stores(k as int, mi as int, p as int));
            crate::lanes::lemma_get_stored(l, k as int, mi as int, p as int);
            assert(l.lane_sorted(k as int));
            assert(!stored_below(l, k as int, mi as int, p as int)) by {
                if stored_below(l, k as int, mi as int, p as int) {
                    let p1 = choose|p1: int| 0 <= p1 < p && l.stores(k as int, mi as int, p1);
                    assert(l.indices[p1] < l.indices[p as int]);
                }
            }
        }
        let cur = d.get(r, c);
        d.set(r, c, cur + v);
        proof {
            assert forall|r1: int, c1: int|
                0 <= r1 < nrows && 0 <= c1 < ncols implies #[trigger] d.at(r1, c1) == (if stored_below(
                l,
                if row_major { r1 } else { c1 },
                if row_major { c1 } else { r1 },
                p + 1,
            ) {
                l.value_at(if row_major { r1 } else { c1 }, if row_major { c1 } else { r1 })
            } else {
                0
            }) by {
                let k1 = if row_major { r1 } else { c1 };
                let m1 = if row_major { c1 } else { r1 };
                if r1 == r && c1 == c {
                    assert(l.stores(k1, m1, p as int));
                } else {
                    if stored_below(l, k1, m1, p + 1) {
                        let p1 = choose|p1: int| 0 <= p1 < p + 1 && l.stores(k1, m1, p1);
                        if p1 == p {
                            assert(l.in_lane(k as int, p as int));
                            if k1 < k {
                                assert(l.offsets[k1 + 1] <= l.offsets[k as int]);
                            } else if k1 > k {
                                assert(l.offsets[k + 1] <= l.offsets[k1]);
                            }
                        }
                        assert(stored_below(l, k1, m1, p as int));
                    }
                }
            }
        }
        p = p + 1;
    }
    proof {
        assert forall|r1: int, c1: int|
            0 <= r1 < nrows && 0 <= c1 < ncols implies #[trigger] d.at(r1, c1) == cs.cell(r1, c1) by {
            let k1 = if row_major { r1 } else { c1 };
            let m1 = if row_major { c1 } else { r1 };
            if exists|p1: int| l.stores(k1, m1, p1) {
                let p1 = choose|p1: int| l.stores(k1, m1, p1);
                assert(p1 < nnz);
                assert(stored_below(l, k1, m1, nnz as int));
            }
        }
    }
    d
}

/// Converts CSR to a dense matrix.
pub fn convert_csr_dense(csr: &CsrMatrix) -> (d: DenseMatrix)
    requires
        csr.wf(),
        csr.spec_nrows() * csr.spec_ncols() <= usize::MAX,
    ensures
        d.wf(),
        d.spec_nrows() == csr.spec_nrows(),
        d.spec_ncols() == csr.spec_ncols(),
        forall|r: int, c: int|
            0 <= r < csr.spec_nrows() && 0 <= c < csr.spec_ncols() ==> #[trigger] d.at(r, c)
                == csr.cell(r, c),
{
    convert_cs_dense(csr)
}

/// Converts CSC to a dense matrix.
pub fn convert_csc_dense(csc: &CscMatrix) -> (d: DenseMatrix)
    requires
        csc.wf(),
        csc.spec_nrows() * csc.spec_ncols() <= usize::MAX,
    ensures
        d.wf(),
        d.spec_nrows() == csc.spec_nrows(),
        d.spec_ncols() == csc.spec_ncols(),
        forall|r: int, c: int|
            0 <= r < csc.spec_nrows() && 0 <= c < csc.spec_ncols() ==> #[trigger] d.at(r, c)
                == csc.cell(r, c),
{
    convert_cs_dense(csc)
}

pub open spec fn dense_ok(d: &DenseMatrix, row_major: bool, nminor: nat, k: int, m: usize, v: i64) -> bool {
    &&& m < nminor
    &&& v == dense_lane_value(d, row_major, k, m as int)
    &&& v != 0
}

/// Appends the non-zero values of lane `k` of `d`, in ascending minor order.
fn dense_lane(
    d: &DenseMatrix,
    row_major: bool,
    k: usize,
    nminor: usize,
    out_idx: &mut Vec<usize>,
    out_val: &mut Vec<i64>,
)
    requires
        d.wf(),
        row_major ==> k < d.spec_nrows() && nminor == d.spec_ncols(),
        !row_major ==> k < d.spec_ncols() && nminor == d.spec_nrows(),
        old(out_idx)@.len() == old(out_val)@.len(),
    ensures
        ({
            let s = old(out_idx)@.len() as int;
            let e = final(out_idx)@.len() as int;
            &&& s <= e
            &&& final(out_val)@.len() == e
            &&& final(out_idx)@.take(s) == old(out_idx)@
            &&& final(out_val)@.take(s) == old(out_val)@
            &&& forall|q: int|
                s <= q < e ==> #[trigger] dense_ok(
                    d,
                    row_major,
                    nminor as nat,
                    k as int,
                    final(out_idx)@[q],
                    final(out_val)@[q],
                )
            &&& forall|q1: int, q2: int|
                s <= q1 < q2 < e ==> #[trigger] final(out_idx)@[q1] < #[trigger] final(out_idx)@[q2]
            &&& forall|m: int|
                0 <= m < nminor && dense_lane_value(d, row_major, k as int, m) != 0 ==> exists|q: int|
                    s <= q < e && #[trigger] final(out_idx)@[q] == m
        }),
{
    let ghost s = out_idx@.len() as int;
    let ghost old_idx = out_idx@;
    let ghost old_val = out_val@;
    let mut m: usize = 0;
    while m < nminor
        invariant
            d.wf(),
            row_major ==> k < d.spec_nrows() && nminor == d.spec_ncols(),
            !row_major ==> k < d.spec_ncols() && nminor == d.spec_nrows(),
            m <= nminor,
            0 <= s <= out_idx@.len(),
            out_val@.len() == out_idx@.len(),
            out_idx@.take(s) == old_idx,
            out_val@.take(s) == old_val,
            forall|q: int|
                s <= q < out_idx@.len() ==> #[trigger] dense_ok(
                    d,
                    row_major,
                    nminor as nat,
                    k as int,
                    out_idx@[q],
                    out_val@[q],
                ),
            forall|q: int| s <= q < out_idx@.len() ==> #[trigger] out_idx@[q] < m,
            forall|q1: int, q2: int|
                s <= q1 < q2 < out_idx@.len() ==> #[trigger] out_idx@[q1] < #[trigger] out_idx@[q2],
            forall|m1: int|
                0 <= m1 < m && dense_lane_value(d, row_major, k as int, m1) != 0 ==> exists|q: int|
                    s <= q < out_idx@.len() && #[trigger] out_idx@[q] == m1,
        decreases nminor - m,
    {
        let v = if row_major { d.get(k, m) } else { d.get(m, k) };
        if v != 0 {
            let ghost prev_idx = out_idx@;
            let ghost prev_val = out_val@;
            out_idx.push(m);
            out_val.push(v);
            proof {
                assert(out_idx@.take(s) =~= prev_idx.take(s));
                assert(out_val@.take(s) =~= prev_val.take(s));
                assert forall|m1: int|
                    0 <= m1 < m + 1 && dense_lane_value(d, row_major, k as int, m1) != 0 implies exists|q: int|
                    s <= q < out_idx@.len() && #[trigger] out_idx@[q] == m1 by {
                    if m1 < m {
                        let q = choose|q: int| s <= q < prev_idx.len() && #[trigger] prev_idx[q] == m1;
                        assert(out_idx@[q] == m1);
                    } else {
                        assert(out_idx@[prev_idx.len() as int] == m1);
                    }
                }
            }
        }
        m = m + 1;
    }
}

/// Keeps the non-zero cells of a dense matrix, traversing lane by lane in the
/// orientation `C`.
fn convert_dense_cs<C: Compression>(dense: &DenseMatrix) -> (r: CsMatrix<C>)
    requires
        dense.wf(),
    ensures
        r.wf(),
        r.spec_nrows() == dense.spec_nrows(),
        r.spec_ncols() == dense.spec_ncols(),
        forall|i: int, j: int|
            0 <= i < dense.spec_nrows() && 0 <= j < dense.spec_ncols() ==> #[trigger] r.entry(i, j)
                == (if dense.at(i, j) != 0 { Some(dense.at(i, j) as i64) } else { None }),
{
    let row_major = C::is_row_major();
    let nrows = dense.nrows();
    let ncols = dense.ncols();
    let nmajor = if row_major { nrows } else { ncols };
    let nminor = if row_major { ncols } else { nrows };
    let mut offsets: Vec<usize> = Vec::new();
    let mut idx: Vec<usize> = Vec::new();
    let mut val: Vec<i64> = Vec::new();
    offsets.push(0);
    let mut k: usize = 0;
    while k < nmajor
        invariant
            dense.wf(),
            row_major == C::row_major(),
            nrows == dense.spec_nrows(),
            ncols == dense.spec_ncols(),
            nmajor == (if row_major { nrows } else { ncols }),
            nminor == (if row_major { ncols } else { nrows }),
            k <= nmajor,
            offsets@.len() == k + 1,
            offsets@[0] == 0,
            offsets@[k as int] == idx@.len(),
            idx@.len() == val@.len(),
            forall|i: int, j: int|
                0 <= i <= j <= k ==> #[trigger] offsets@[i] <= #[trigger] offsets@[j],
            forall|k1: int, q: int|
                0 <= k1 < k && offsets@[k1] <= q < offsets@[k1 + 1] ==> #[trigger] dense_ok(
                    dense,
                    row_major,
                    nminor as nat,
                    k1,
                    idx@[q],
                    val@[q],
                ),
            forall|k1: int, q1: int, q2: int|
                #![trigger offsets@[k1], idx@[q1], idx@[q2]]
                0 <= k1 < k && offsets@[k1] <= q1 < q2 < offsets@[k1 + 1] ==> idx@[q1] < idx@[q2],
            forall|k1: int, m: int|
                0 <= k1 < k && 0 <= m < nminor && #[trigger] dense_lane_value(dense, row_major, k1, m) != 0
                    ==> exists|q: int|
                    offsets@[k1] <= q < offsets@[k1 + 1] && #[trigger] idx@[q] == m,
        decreases nmajor - k,
    {
        let ghost prev_idx = idx@;
        let ghost prev_val = val@;
        dense_lane(dense, row_major, k, nminor, &mut idx, &mut val);
        let ghost prev_offsets = offsets@;
        offsets.push(idx.len());
        proof {
            let s = prev_idx.len() as int;
            assert forall|q: int| 0 <= q < s implies idx@[q] == prev_idx[q] && val@[q] == prev_val[q] by {
                assert(idx@.take(s)[q] == prev_idx[q]);
                assert(val@.take(s)[q] == prev_val[q]);
            }
            assert forall|k1: int, q: int|
                0 <= k1 < k + 1 && offsets@[k1] <= q < offsets@[k1 + 1] implies #[trigger] dense_ok(
                dense,
                row_major,
                nminor as nat,
                k1,
                idx@[q],
                val@[q],
            ) by {
                if k1 < k {
                    assert(offsets@[k1 + 1] <= offsets@[k as int]);
                    assert(dense_ok(dense, row_major, nminor as nat, k1, prev_idx[q], prev_val[q]));
                }
            }
            assert forall|k1: int, q1: int, q2: int|
                #![trigger offsets@[k1], idx@[q1], idx@[q2]]
                0 <= k1 < k + 1 && offsets@[k1] <= q1 < q2 < offsets@[k1 + 1] implies idx@[q1]
                < idx@[q2] by {
                if k1 < k {
                    assert(offsets@[k1 + 1] <= offsets@[k as int]);
                    assert(prev_offsets[k1] == offsets@[k1]);
                    assert(prev_idx[q1] < prev_idx[q2]);
                }
            }
            assert forall|k1: int, m: int|
                0 <= k1 < k + 1 && 0 <= m < nminor && #[trigger] dense_lane_value(dense, row_major, k1, m)
                    != 0 implies exists|q: int|
                offsets@[k1] <= q < offsets@[k1 + 1] && #[trigger] idx@[q] == m by {
                if k1 < k {
                    assert(offsets@[k1 + 1] <= offsets@[k as int]);
                    assert(prev_offsets[k1] == offsets@[k1]);
                    assert(prev_offsets[k1 + 1] == offsets@[k1 + 1]);
                    let q = choose|q: int|
                        prev_offsets[k1] <= q < prev_offsets[k1 + 1] && #[trigger] prev_idx[q] == m;
                    assert(idx@[q] == m);
                } else {
                    let q = choose|q: int| s <= q < idx@.len() && #[trigger] idx@[q] == m;
                }
            }
        }
        k = k + 1;
    }
    let ghost t = parts_view(C::row_major(), nrows, ncols, offsets@, idx@, val@);
    proof {
        assert(t.offsets_wf());
        assert forall|q: int| 0 <= q < t.indices.len() implies #[trigger] t.indices[q] < t.nminor by {
            let k1 = crate::lanes::lemma_lane_of(t, q);
            assert(dense_ok(dense, row_major, nminor as nat, k1, idx@[q], val@[q]));
        }
        assert forall|k1: int| 0 <= k1 < nmajor implies #[trigger] t.lane_sorted(k1) by {
            assert forall|q1: int, q2: int|
                t.offsets[k1] <= q1 < q2 < t.offsets[k1 + 1] implies #[trigger] t.indices[q1]
                < #[trigger] t.indices[q2] by {
                assert(offsets@[k1] <= q1 < q2 < offsets@[k1 + 1]);
            }
        }
        assert(t.wf());
    }
    let r = CsMatrix::<C>::from_parts_unchecked(nrows, ncols, offsets, idx, val);
    proof {
        assert forall|i: int, j: int|
            0 <= i < nrows && 0 <= j < ncols implies #[trigger] r.entry(i, j) == (if dense.at(i, j)
            != 0 {
            Some(dense.at(i, j) as i64)
        } else {
            None
        }) by {
            let k1 = if row_major { i } else { j };
            let m = if row_major { j } else { i };
            assert(dense_lane_value(dense, row_major, k1, m) == dense.at(i, j));
            if dense.at(i, j) != 0 {
                let q = choose|q: int| offsets@[k1] <= q < offsets@[k1 + 1] && #[trigger] idx@[q] == m;
                assert(t.stores(k1, m, q));
                crate::lanes::lemma_get_stored(t, k1, m, q);
                assert(dense_ok(dense, row_major, nminor as nat, k1, idx@[q], val@[q]));
            } else if exists|q: int| t.stores(k1, m, q) {
                let q = choose|q: int| t.stores(k1, m, q);
                assert(dense_ok(dense, row_major, nminor as nat, k1, idx@[q], val@[q]));
            }
        }
    }
    r
}

/// Keeps the non-zero cells of a dense matrix as CSR.
pub fn convert_dense_csr(dense: &DenseMatrix) -> (r: CsrMatrix)
    requires
        dense.wf(),
    ensures
        r.wf(),
        r.spec_nrows() == dense.spec_nrows(),
        r.spec_ncols() == dense.spec_ncols(),
        forall|i: int, j: int|
            0 <= i < dense.spec_nrows() && 0 <= j < dense.spec_ncols() ==> #[trigger] r.entry(i, j)
                == (if dense.at(i, j) != 0 { Some(dense.at(i, j) as i64) } else { None }),
{
    convert_dense_cs(dense)
}

/// Keeps the non-zero cells of a dense matrix as CSC.
pub fn convert_dense_csc(dense: &DenseMatrix) -> (r: CscMatrix)
    requires
        dense.wf(),
    ensures
        r.wf(),
        r.spec_nrows() == dense.spec_nrows(),
        r.spec_ncols() == dense.spec_ncols(),
        forall|i: int, j: int|
            0 <= i < dense.spec_nrows() && 0 <= j < dense.spec_ncols() ==> #[trigger] r.entry(i, j)
                == (if dense.at(i, j) != 0 { Some(dense.at(i, j) as i64) } else { None }),
{
    convert_dense_cs(dense)
}


/// `d` is the dense realisation of `coo`: same shape, each cell the sum of the
/// entries there.
pub open spec fn realizes(d: &DenseMatrix, coo: CooView) -> bool {
    &&& d.wf()
    &&& d.spec_nrows() == coo.nrows
    &&& d.spec_ncols() == coo.ncols
    &&& forall|r: int, c: int|
        0 <= r < coo.nrows && 0 <= c < coo.ncols ==> #[trigger] d.at(r, c) == coo.cell(r, c)
}

proof fn lemma_cell_of_listing(coo: CooView, d: &DenseMatrix, n: int, r: int, c: int)
    requires
        is_coo_of_dense(coo, d),
        0 <= n <= coo.entries.len(),
        0 <= r < d.spec_nrows(),
        0 <= c < d.spec_ncols(),
    ensures
        coo.cell_sum(n, r, c) == (if exists|i: int|
            0 <= i < n && (#[trigger] coo.entries[i]).0 == r && coo.entries[i].1 == c {
            d.at(r, c)
        } else {
            0
        }),
    decreases n,
{
    if n == 0 {
        assert(coo.entries.take(0) =~= Seq::<Triplet>::empty());
    } else {
        lemma_cell_of_listing(coo, d, n - 1, r, c);
        lemma_sum_take_step(coo.entries, key_term(r, c), n - 1);
        let e = coo.entries[n - 1];
        if e.0 == r && e.1 == c {
            if exists|i: int|
                0 <= i < n - 1 && (#[trigger] coo.entries[i]).0 == r && coo.entries[i].1 == c {
                let i = choose|i: int|
                    0 <= i < n - 1 && (#[trigger] coo.entries[i]).0 == r && coo.entries[i].1 == c;
                assert(col_major_before(
                    coo.entries[i].0 as int,
                    coo.entries[i].1 as int,
                    e.0 as int,
                    e.1 as int,
                ));
            }
        } else {
            if exists|i: int|
                0 <= i < n && (#[trigger] coo.entries[i]).0 == r && coo.entries[i].1 == c {
                let i = choose|i: int|
                    0 <= i < n && (#[trigger] coo.entries[i]).0 == r && coo.entries[i].1 == c;
                assert(i < n - 1);
            }
        }
    }
}

/// Listing the non-zero cells of a dense matrix and adding them back into a
/// zero matrix gives the matrix back.
pub proof fn lemma_dense_coo_dense(d: &DenseMatrix, coo: CooView, d2: &DenseMatrix)
    requires
        d.wf(),
        is_coo_of_dense(coo, d),
        realizes(d2, coo),
    ensures
        d2.spec_nrows() == d.spec_nrows(),
        d2.spec_ncols() == d.spec_ncols(),
        d2@ == d@,
{
    assert forall|r: int| 0 <= r < d.spec_nrows() implies #[trigger] d2@[r] =~= d@[r] by {
        assert forall|c: int| 0 <= c < d.spec_ncols() implies d2@[r][c] == d@[r][c] by {
            lemma_cell_of_listing(coo, d, coo.entries.len() as int, r, c);
            assert(coo.entries.take(coo.entries.len() as int) =~= coo.entries);
            assert(d2.at(r, c) == coo.cell(r, c));
            if d.at(r, c) != 0 {
                assert(coo.has_entry(r, c));
            }
        }
    }
    assert(d2@ =~= d@);
}

/// Realising a coordinate matrix densely, listing its non-zero cells and
/// realising that list again gives the same dense matrix: repeated positions
/// collapse under addition.
pub proof fn lemma_coo_dense_coo(coo: CooView, d: &DenseMatrix, coo2: CooView, d2: &DenseMatrix)
    requires
        coo.wf(),
        realizes(d, coo),
        is_coo_of_dense(coo2, d),
        realizes(d2, coo2),
    ensures
        d2.spec_nrows() == d.spec_nrows(),
        d2.spec_ncols() == d.spec_ncols(),
        d2@ == d@,
{
    lemma_dense_coo_dense(d, coo2, d2);
}

/// Without repeated positions, compression stores exactly one entry per
/// coordinate entry.
pub proof fn lemma_coo_cs_nnz<C: Compression>(coo: CooView, m: &CsMatrix<C>)
    requires
        coo.wf(),
        coo.no_duplicates(),
        m.wf(),
        m.spec_nrows() == coo.nrows,
        m.spec_ncols() == coo.ncols,
        forall|i: int, j: int|
            0 <= i < coo.nrows && 0 <= j < coo.ncols ==> #[trigger] m.entry(i, j) == coo_entry(
                coo,
                i,
                j,
            ),
    ensures
        m@.nnz() == coo.entries.len(),
{
    let l = m@;
    let ks = coo.entries.map_values(|e: Triplet| (e.0 as int, e.1 as int));
    let lane_of = |p: int| choose|k: int| l.in_lane(k, p);
    let rs = Seq::new(
        l.nnz(),
        |p: int|
            if C::row_major() {
                (lane_of(p), l.indices[p] as int)
            } else {
                (l.indices[p] as int, lane_of(p))
            },
    );
    assert forall|p: int| 0 <= p < l.nnz() implies l.in_lane(#[trigger] lane_of(p), p) by {
        let k = crate::lanes::lemma_lane_of(l, p);
    }
    assert(ks.no_duplicates()) by {
        assert forall|i: int, j: int| 0 <= i < ks.len() && 0 <= j < ks.len() && i != j implies ks[i]
            != ks[j] by {
            if i < j {
                assert(coo.entries[i].0 != coo.entries[j].0 || coo.entries[i].1 != coo.entries[j].1);
            } else {
                assert(coo.entries[j].0 != coo.entries[i].0 || coo.entries[j].1 != coo.entries[i].1);
            }
        }
    }
    assert(rs.no_duplicates()) by {
        assert forall|p: int, q: int| 0 <= p < rs.len() && 0 <= q < rs.len() && p != q implies rs[p]
            != rs[q] by {
            let kp = lane_of(p);
            let kq = lane_of(q);
            assert(l.in_lane(kp, p));
            assert(l.in_lane(kq, q));
            if kp == kq {
                assert(l.lane_sorted(kp));
                if p < q {
                    assert(l.indices[p] < l.indices[q]);
                } else {
                    assert(l.indices[q] < l.indices[p]);
                }
            }
        }
    }
    assert(ks.to_set() =~= rs.to_set()) by {
        assert forall|x: (int, int)| ks.to_set().contains(x) implies rs.to_set().contains(x) by {
            assert(ks.contains(x));
            let i = choose|i: int| 0 <= i < ks.len() && ks[i] == x;
            assert(coo.entries[i].0 < coo.nrows && coo.entries[i].1 < coo.ncols);
            assert(coo.has_entry(x.0, x.1));
            assert(m.entry(x.0, x.1) is Some);
            let k = if C::row_major() { x.0 } else { x.1 };
            let mi = if C::row_major() { x.1 } else { x.0 };
            let p = choose|p: int| l.stores(k, mi, p);
            assert(l.in_lane(lane_of(p), p));
            assert(lane_of(p) == k) by {
                if lane_of(p) < k {
                    assert(l.offsets[lane_of(p) + 1] <= l.offsets[k]);
                } else if lane_of(p) > k {
                    assert(l.offsets[k + 1] <= l.offsets[lane_of(p)]);
                }
            }
            assert(rs[p] == x);
            assert(rs.contains(x));
        }
        assert forall|x: (int, int)| rs.to_set().contains(x) implies ks.to_set().contains(x) by {
            assert(rs.contains(x));
            let p = choose|p: int| 0 <= p < rs.len() && rs[p] == x;
            let k = lane_of(p);
            assert(l.in_lane(k, p));
            let mi = l.indices[p] as int;
            assert(l.stores(k, mi, p));
            assert(mi < l.nminor);
            let i = if C::row_major() { k } else { mi };
            let j = if C::row_major() { mi } else { k };
            assert(m.entry(i, j) is Some);
            assert(coo.has_entry(i, j));
            let e = choose|e: int|
                0 <= e < coo.entries.len() && (#[trigger] coo.entries[e]).0 == i
                    && coo.entries[e].1 == j;
            assert(ks[e] == x);
            assert(ks.contains(x));
        }
    }
    ks.unique_seq_to_set();
    rs.unique_seq_to_set();
}

/// Changing the orientation twice gives back the same matrix, structure and
/// values.
pub proof fn lemma_orientation_round_trip<C1: Compression, C2: Compression>(
    m: &CsMatrix<C1>,
    t: &CsMatrix<C2>,
    m2: &CsMatrix<C1>,
)
    requires
        m.wf(),
        t.wf(),
        m2.wf(),
        t.spec_nrows() == m.spec_nrows(),
        t.spec_ncols() == m.spec_ncols(),
        forall|i: int, j: int|
            0 <= i < m.spec_nrows() && 0 <= j < m.spec_ncols() ==> #[trigger] t.entry(i, j)
                == m.entry(i, j),
        m2.spec_nrows() == t.spec_nrows(),
        m2.spec_ncols() == t.spec_ncols(),
        forall|i: int, j: int|
            0 <= i < t.spec_nrows() && 0 <= j < t.spec_ncols() ==> #[trigger] m2.entry(i, j)
                == t.entry(i, j),
    ensures
        m2@ == m@,
{
    assert forall|k: int, mi: int| 0 <= k < m@.nmajor && 0 <= mi < m@.nminor implies #[trigger] m2@.get(
        k,
        mi,
    ) == m@.get(k, mi) by {
        if C1::row_major() {
            assert(m2.entry(k, mi) == t.entry(k, mi));
        } else {
            assert(m2.entry(mi, k) == t.entry(mi, k));
        }
    }
    crate::lanes::lemma_lanes_unique(m2@, m@);
}

/// A compressed matrix without explicit zeros survives a trip through dense
/// form unchanged.
pub proof fn lemma_cs_dense_cs<C: Compression>(m: &CsMatrix<C>, d: &DenseMatrix, m2: &CsMatrix<C>)
    requires
        m.wf(),
        m@.no_explicit_zeros(),
        d.wf(),
        d.spec_nrows() == m.spec_nrows(),
        d.spec_ncols() == m.spec_ncols(),
        forall|r: int, c: int|
            0 <= r < m.spec_nrows() && 0 <= c < m.spec_ncols() ==> #[trigger] d.at(r, c) == m.cell(
                r,
                c,
            ),
        m2.wf(),
        m2.spec_nrows() == d.spec_nrows(),
        m2.spec_ncols() == d.spec_ncols(),
        forall|i: int, j: int|
            0 <= i < d.spec_nrows() && 0 <= j < d.spec_ncols() ==> #[trigger] m2.entry(i, j) == (if d.at(
                i,
                j,
            ) != 0 {
                Some(d.at(i, j) as i64)
            } else {
                None
            }),
    ensures
        m2@ == m@,
{
    let l = m@;
    assert forall|k: int, mi: int| 0 <= k < l.nmajor && 0 <= mi < l.nminor implies #[trigger] m2@.get(
        k,
        mi,
    ) == l.get(k, mi) by {
        let i = if C::row_major() { k } else { mi };
        let j = if C::row_major() { mi } else { k };
        assert(m2.entry(i, j) == m2@.get(k, mi));
        assert(d.at(i, j) == l.value_at(k, mi));
        if l.get(k, mi) is Some {
            let p = choose|p: int| l.stores(k, mi, p);
            crate::lanes::lemma_get_stored(l, k, mi, p);
            assert(l.values[p] != 0);
        }
    }
    crate::lanes::lemma_lanes_unique(m2@, l);
}

} // verus!
