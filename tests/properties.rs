use nalgebra_sparse::convert::{
    convert_coo_csc, convert_coo_csr, convert_coo_dense, convert_csc_csr, convert_csc_dense,
    convert_csr_csc, convert_csr_dense, convert_dense_coo, convert_dense_csc, convert_dense_csr,
};
use nalgebra_sparse::coo::CooMatrix;
use nalgebra_sparse::cs::{CscMatrix, CsrMatrix};
use nalgebra_sparse::dense::DenseMatrix;
use nalgebra_sparse::error::{OperationError, OperationErrorKind, SparseFormatErrorKind};
use nalgebra_sparse::scalar::{sp_cs_scalar_div, sp_cs_scalar_prod};
use nalgebra_sparse::spsub::{
    spsub_csc_csc, spsub_csc_csr, spsub_csc_dense, spsub_csr_csc, spsub_csr_csr, spsub_csr_dense,
    spsub_dense_csc, spsub_dense_csr,
};
use nalgebra_sparse::{SparseEntry, SparseEntryMut};

fn sample_csr() -> CsrMatrix {
    CsrMatrix::try_from_parts(
        3,
        4,
        vec![0, 3, 4, 6],
        vec![1, 2, 3, 0, 1, 3],
        vec![5, 3, 2, 2, 1, 4],
    )
    .unwrap()
}

#[test]
fn dense_to_coo_to_csr_scenario() {
    let dense = DenseMatrix::from_row_slice(2, 3, &[1, 0, 3, 0, 5, 0]);
    let coo = convert_dense_coo(&dense);
    assert_eq!(coo.row_indices(), &[0, 1, 0]);
    assert_eq!(coo.col_indices(), &[0, 1, 2]);
    assert_eq!(coo.values(), &[1, 5, 3]);
    let csr = convert_coo_csr(coo);
    assert_eq!(csr.offsets(), &[0, 2, 3]);
    assert_eq!(csr.indices(), &[0, 2, 1]);
    assert_eq!(csr.values(), &[1, 3, 5]);
}

#[test]
fn dense_coo_dense_round_trip() {
    let dense = DenseMatrix::from_row_slice(3, 2, &[0, -4, 7, 0, 0, 9]);
    let coo = convert_dense_coo(&dense);
    assert_eq!(coo.nnz(), 3);
    assert_eq!(convert_coo_dense(&coo), dense);
}

#[test]
fn coo_dense_coo_dense_collapses_duplicates() {
    let coo = CooMatrix::try_from_triplets(
        2,
        2,
        vec![0, 1, 0, 0, 1],
        vec![1, 0, 1, 1, 1],
        vec![2, 3, 4, -6, 0],
    )
    .unwrap();
    let dense = convert_coo_dense(&coo);
    assert_eq!(dense, DenseMatrix::from_row_slice(2, 2, &[0, 0, 3, 0]));
    let coo2 = convert_dense_coo(&dense);
    assert_eq!(coo2.nnz(), 1);
    assert_eq!(convert_coo_dense(&coo2), dense);
}

#[test]
fn compression_keeps_nnz_without_duplicates() {
    let coo = CooMatrix::try_from_triplets(
        3,
        3,
        vec![2, 0, 1, 0],
        vec![2, 0, 0, 2],
        vec![7, 0, -1, 3],
    )
    .unwrap();
    assert_eq!(convert_coo_csr(coo.clone()).nnz(), 4);
    assert_eq!(convert_coo_csc(coo).nnz(), 4);
}

#[test]
fn compression_sums_duplicates_to_explicit_zero() {
    let coo = CooMatrix::try_from_triplets(2, 2, vec![1, 1], vec![0, 0], vec![5, -5]).unwrap();
    let csr = convert_coo_csr(coo);
    assert_eq!(csr.offsets(), &[0, 0, 1]);
    assert_eq!(csr.indices(), &[0]);
    assert_eq!(csr.values(), &[0]);
}

#[test]
fn orientation_round_trips() {
    let csr = sample_csr();
    let csc = convert_csr_csc(&csr);
    assert_eq!(csc.offsets(), &[0, 1, 3, 4, 6]);
    assert_eq!(csc.indices(), &[1, 0, 2, 0, 0, 2]);
    assert_eq!(csc.values(), &[2, 5, 1, 3, 2, 4]);
    assert_eq!(convert_csc_csr(&csc), csr);
    assert_eq!(convert_csr_csc(&convert_csc_csr(&csc)), csc);
}

#[test]
fn csr_dense_csr_round_trip() {
    let csr = sample_csr();
    assert_eq!(convert_dense_csr(&convert_csr_dense(&csr)), csr);
    let csc = convert_csr_csc(&csr);
    assert_eq!(convert_dense_csc(&convert_csc_dense(&csc)), csc);
}

#[test]
fn explicit_zero_is_dropped_by_dense_round_trip() {
    let csr = CsrMatrix::try_from_parts(1, 2, vec![0, 2], vec![0, 1], vec![0, 3]).unwrap();
    let back = convert_dense_csr(&convert_csr_dense(&csr));
    assert_eq!(back.indices(), &[1]);
    assert_eq!(back.values(), &[3]);
}

#[test]
fn difference_keeps_explicit_zeros() {
    let a = sample_csr();
    let diff = spsub_csr_csr(a.clone(), a.clone()).unwrap();
    assert_eq!(diff.offsets(), a.offsets());
    assert_eq!(diff.indices(), a.indices());
    assert_eq!(diff.values(), &[0, 0, 0, 0, 0, 0]);
}

#[test]
fn difference_values_one_sided() {
    let a = CsrMatrix::try_from_parts(1, 3, vec![0, 2], vec![0, 2], vec![4, 9]).unwrap();
    let b = CscMatrix::try_from_parts(1, 3, vec![0, 0, 1, 2], vec![0, 0], vec![6, 1]).unwrap();
    let diff = spsub_csr_csc(a, b).unwrap();
    assert_eq!(diff.offsets(), &[0, 3]);
    assert_eq!(diff.indices(), &[0, 1, 2]);
    assert_eq!(diff.values(), &[4, -6, 8]);
}

#[test]
fn subtracting_zero_is_identity() {
    let a = sample_csr();
    assert_eq!(spsub_csr_csr(a.clone(), CsrMatrix::zeros(3, 4)).unwrap(), a);
    assert_eq!(spsub_csr_csc(a.clone(), CscMatrix::zeros(3, 4)).unwrap(), a);
    let c = convert_csr_csc(&a);
    assert_eq!(spsub_csc_csc(c.clone(), CscMatrix::zeros(3, 4)).unwrap(), c);
    assert_eq!(spsub_csc_csr(c.clone(), CsrMatrix::zeros(3, 4)).unwrap(), c);
}

#[test]
fn shape_mismatch_is_an_error() {
    let expected = OperationError {
        kind: OperationErrorKind::InvalidPattern,
        left_nrows: 3,
        left_ncols: 4,
        right_nrows: 4,
        right_ncols: 3,
    };
    let a = sample_csr();
    assert_eq!(spsub_csr_csr(a.clone(), CsrMatrix::zeros(4, 3)), Err(expected));
    assert_eq!(spsub_csr_csc(a.clone(), CscMatrix::zeros(4, 3)), Err(expected));
    let c = convert_csr_csc(&a);
    assert_eq!(spsub_csc_csr(c.clone(), CsrMatrix::zeros(4, 3)), Err(expected));
    let err = spsub_csc_csc(c, CscMatrix::zeros(4, 3)).unwrap_err();
    assert_eq!(err.kind(), OperationErrorKind::InvalidPattern);
    assert_eq!(
        spsub_dense_csr(DenseMatrix::zeros(4, 3), a.clone()),
        Err(OperationError { left_nrows: 4, left_ncols: 3, right_nrows: 3, right_ncols: 4, ..expected })
    );
    assert_eq!(spsub_csr_dense(a, DenseMatrix::zeros(4, 3)), Err(expected));
}

#[test]
fn dense_sparse_differences() {
    let a = sample_csr();
    let dense = DenseMatrix::from_row_slice(3, 4, &[1, 1, 1, 1, 2, 2, 2, 2, 3, 3, 3, 3]);
    let left = spsub_dense_csr(dense.clone(), a.clone()).unwrap();
    assert_eq!(
        left,
        DenseMatrix::from_row_slice(3, 4, &[1, -4, -2, -1, 0, 2, 2, 2, 3, 2, 3, -1])
    );
    let right = spsub_csr_dense(a.clone(), dense.clone()).unwrap();
    assert_eq!(
        right,
        DenseMatrix::from_row_slice(3, 4, &[-1, 4, 2, 1, 0, -2, -2, -2, -3, -2, -3, 1])
    );
    let c = convert_csr_csc(&a);
    assert_eq!(spsub_dense_csc(dense.clone(), c.clone()).unwrap(), left);
    assert_eq!(spsub_csc_dense(c, dense).unwrap(), right);
}

#[test]
fn scalar_product_and_division() {
    let a = sample_csr();
    let p = sp_cs_scalar_prod(a.clone(), -3);
    assert_eq!(p.offsets(), a.offsets());
    assert_eq!(p.indices(), a.indices());
    assert_eq!(p.values(), &[-15, -9, -6, -6, -3, -12]);
    let q = sp_cs_scalar_div(convert_csr_csc(&a), 2);
    assert_eq!(q.values(), &[1, 2, 0, 1, 1, 2]);
    let n = CsrMatrix::try_from_parts(1, 2, vec![0, 2], vec![0, 1], vec![-7, 7]).unwrap();
    assert_eq!(sp_cs_scalar_div(n, 2).values(), &[-3, 3]);
    let z = sp_cs_scalar_prod(a, 0);
    assert_eq!(z.nnz(), 6);
}

#[test]
fn entries_and_values() {
    let a = sample_csr();
    assert_eq!(a.get_entry(0, 1), Some(SparseEntry::NonZero(&5)));
    assert_eq!(a.get_entry(0, 0), Some(SparseEntry::Zero));
    assert_eq!(a.get_entry(3, 0), None);
    assert_eq!(a.get_entry(0, 4), None);
    assert_eq!(a.get_entry(2, 3).unwrap().into_value(), 4);
    assert_eq!(a.get_entry(1, 1).unwrap().into_value(), 0);
    let c = convert_csr_csc(&a);
    assert_eq!(c.get_entry(2, 1), Some(SparseEntry::NonZero(&1)));
    let mut x: i64 = 12;
    assert_eq!(SparseEntryMut::NonZero(&mut x).into_value(), 12);
    assert_eq!(SparseEntryMut::Zero.into_value(), 0);
}

#[test]
fn compressed_parts_are_validated() {
    let k = |r: Result<CsrMatrix, nalgebra_sparse::error::SparseFormatError>| r.unwrap_err().kind();
    assert_eq!(
        k(CsrMatrix::try_from_parts(2, 2, vec![0, 1, 2], vec![0, 1], vec![1])),
        SparseFormatErrorKind::LengthMismatch
    );
    assert_eq!(
        k(CsrMatrix::try_from_parts(2, 2, vec![0, 2], vec![0, 1], vec![1, 1])),
        SparseFormatErrorKind::InvalidOffsets
    );
    assert_eq!(
        k(CsrMatrix::try_from_parts(2, 2, vec![1, 1, 2], vec![0, 1], vec![1, 1])),
        SparseFormatErrorKind::InvalidOffsets
    );
    assert_eq!(
        k(CsrMatrix::try_from_parts(2, 2, vec![0, 2, 1], vec![0], vec![1])),
        SparseFormatErrorKind::InvalidOffsets
    );
    assert_eq!(
        k(CsrMatrix::try_from_parts(2, 2, vec![0, 1, 2], vec![0, 2], vec![1, 1])),
        SparseFormatErrorKind::IndexOutOfBounds
    );
    assert_eq!(
        k(CsrMatrix::try_from_parts(2, 2, vec![0, 2, 2], vec![1, 0], vec![1, 1])),
        SparseFormatErrorKind::DuplicateOrUnsortedIndices
    );
    assert_eq!(
        k(CsrMatrix::try_from_parts(2, 2, vec![0, 2, 2], vec![1, 1], vec![1, 1])),
        SparseFormatErrorKind::DuplicateOrUnsortedIndices
    );
    assert!(CscMatrix::try_from_parts(2, 3, vec![0, 0, 1, 1], vec![1], vec![1]).is_ok());
    assert_eq!(
        CscMatrix::try_from_parts(2, 3, vec![0, 0, 1, 1], vec![2], vec![1]).unwrap_err().kind(),
        SparseFormatErrorKind::IndexOutOfBounds
    );
}

#[test]
fn triplets_are_validated() {
    assert_eq!(
        CooMatrix::try_from_triplets(2, 2, vec![0], vec![0, 1], vec![1]).unwrap_err().kind(),
        SparseFormatErrorKind::LengthMismatch
    );
    assert_eq!(
        CooMatrix::try_from_triplets(2, 2, vec![0, 2], vec![0, 1], vec![1, 1]).unwrap_err().kind(),
        SparseFormatErrorKind::IndexOutOfBounds
    );
    assert_eq!(
        CooMatrix::try_from_triplets(2, 2, vec![0, 1], vec![0, 2], vec![1, 1]).unwrap_err().kind(),
        SparseFormatErrorKind::IndexOutOfBounds
    );
}

#[test]
fn empty_shapes() {
    let coo = CooMatrix::new(0, 0);
    let csr = convert_coo_csr(coo.clone());
    assert_eq!(csr.offsets(), &[0]);
    assert_eq!(csr.nnz(), 0);
    let csc = convert_coo_csc(CooMatrix::new(2, 0));
    assert_eq!(csc.offsets(), &[0]);
    assert_eq!(convert_csc_csr(&csc).offsets(), &[0, 0, 0]);
    assert_eq!(convert_coo_dense(&coo).shape(), (0, 0));
    let d = DenseMatrix::zeros(2, 3);
    assert_eq!(convert_dense_coo(&d).nnz(), 0);
    assert_eq!(convert_dense_csr(&d).offsets(), &[0, 0, 0]);
}

#[test]
fn dense_storage_is_column_major() {
    let d = DenseMatrix::from_column_slice(2, 3, &[1, 2, 3, 4, 5, 6]);
    assert_eq!(d, DenseMatrix::from_row_slice(2, 3, &[1, 3, 5, 2, 4, 6]));
    assert_eq!(d.get(1, 2), 6);
    let coo = convert_dense_coo(&d);
    assert_eq!(coo.values(), &[1, 2, 3, 4, 5, 6]);
}
