use nalgebra_sparse::convert::{convert_csc_dense, convert_csr_dense};
use nalgebra_sparse::cs::{CscMatrix, CsrMatrix};
use nalgebra_sparse::dense::DenseMatrix;
use nalgebra_sparse::spsub::{spsub_csc_csc, spsub_csc_csr, spsub_csr_csc, spsub_csr_csr};

fn dense_difference(a: &DenseMatrix, b: &DenseMatrix) -> DenseMatrix {
    let (nrows, ncols) = a.shape();
    let mut out = DenseMatrix::zeros(nrows, ncols);
    for r in 0..nrows {
        for c in 0..ncols {
            out.set(r, c, a.get(r, c) - b.get(r, c));
        }
    }
    out
}

fn left_parts() -> (Vec<usize>, Vec<usize>, Vec<i64>) {
    (
        vec![0, 4, 7, 10, 13],
        vec![0, 1, 2, 3, 0, 1, 3, 1, 2, 3, 0, 1, 3],
        vec![1, 2, 3, 4, -1, 2, 5, 4, -2, 6, 2, 4, 6],
    )
}

fn right_parts() -> (Vec<usize>, Vec<usize>, Vec<i64>) {
    (
        vec![0, 4, 6, 8, 12],
        vec![0, 1, 2, 3, 1, 3, 1, 3, 0, 1, 2, 3],
        vec![6, 4, 2, 8, 1, 7, 2, 6, 4, 1, 6, 3],
    )
}

#[test]
fn spsub_csr_csr_agrees_with_dense() {
    let (o, i, v) = left_parts();
    let a = CsrMatrix::try_from_parts(4, 4, o, i, v).unwrap();
    let (o, i, v) = right_parts();
    let b = CsrMatrix::try_from_parts(4, 4, o, i, v).unwrap();

    let dense_a = convert_csr_dense(&a);
    let dense_b = convert_csr_dense(&b);

    let diff = spsub_csr_csr(a, b).unwrap();
    let dense_diff = dense_difference(&dense_a, &dense_b);

    assert_eq!(convert_csr_dense(&diff), dense_diff);
}

#[test]
fn spsub_csr_csc_agrees_with_dense() {
    let (o, i, v) = left_parts();
    let a = CsrMatrix::try_from_parts(4, 4, o, i, v).unwrap();
    let (o, i, v) = right_parts();
    let b = CscMatrix::try_from_parts(4, 4, o, i, v).unwrap();

    let dense_a = convert_csr_dense(&a);
    let dense_b = convert_csc_dense(&b);

    let diff = spsub_csr_csc(a, b).unwrap();
    let dense_diff = dense_difference(&dense_a, &dense_b);

    assert_eq!(convert_csr_dense(&diff), dense_diff);
}

#[test]
fn spsub_csc_csr_agrees_with_dense() {
    let (o, i, v) = left_parts();
    let a = CscMatrix::try_from_parts(4, 4, o, i, v).unwrap();
    let (o, i, v) = right_parts();
    let b = CsrMatrix::try_from_parts(4, 4, o, i, v).unwrap();

    let dense_a = convert_csc_dense(&a);
    let dense_b = convert_csr_dense(&b);

    let diff = spsub_csc_csr(a, b).unwrap();
    let dense_diff = dense_difference(&dense_a, &dense_b);

    assert_eq!(convert_csc_dense(&diff), dense_diff);
}

#[test]
fn spsub_csc_csc_agrees_with_dense() {
    let (o, i, v) = left_parts();
    let a = CscMatrix::try_from_parts(4, 4, o, i, v).unwrap();
    let (o, i, v) = right_parts();
    let b = CscMatrix::try_from_parts(4, 4, o, i, v).unwrap();

    let dense_a = convert_csc_dense(&a);
    let dense_b = convert_csc_dense(&b);

    let diff = spsub_csc_csc(a, b).unwrap();
    let dense_diff = dense_difference(&dense_a, &dense_b);

    assert_eq!(convert_csc_dense(&diff), dense_diff);
}
