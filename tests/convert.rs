use nalgebra_sparse::convert::{
    convert_coo_csc, convert_coo_csr, convert_coo_dense, convert_csc_coo, convert_csc_dense,
    convert_csr_coo, convert_csr_dense, convert_dense_coo, convert_dense_csc, convert_dense_csr,
};
use nalgebra_sparse::coo::CooMatrix;
use nalgebra_sparse::cs::{CscMatrix, CsrMatrix};
use nalgebra_sparse::dense::DenseMatrix;

#[test]
fn coo_from_dense_and_dense_from_coo_are_symmetric() {
    let dense = DenseMatrix::from_row_slice(2, 3, &[1, 0, 3, 0, 5, 0]);

    // The coordinate form of a dense matrix is not unique; this one is the
    // column-major listing of the non-zero cells.
    let coo = CooMatrix::try_from_triplets(2, 3, vec![0, 1, 0], vec![0, 1, 2], vec![1, 5, 3])
        .unwrap();

    assert_eq!(convert_dense_coo(&dense), coo);
    assert_eq!(convert_coo_dense(&coo), dense);
}

#[test]
fn coo_with_duplicates_from_dense_and_dense_from_coo_with_duplicates_are_symmetric() {
    let dense = DenseMatrix::from_row_slice(2, 3, &[1, 0, 3, 0, 5, 0]);

    let coo_no_dup =
        CooMatrix::try_from_triplets(2, 3, vec![0, 1, 0], vec![0, 1, 2], vec![1, 5, 3]).unwrap();

    let coo_dup = CooMatrix::try_from_triplets(
        2,
        3,
        vec![0, 1, 0, 1],
        vec![0, 1, 2, 1],
        vec![1, -2, 3, 7],
    )
    .unwrap();

    let converted_coo = convert_coo_dense(&coo_dup);

    assert_eq!(&converted_coo, &dense);

    let converted_coo_without_duplicates = convert_dense_coo(&converted_coo);

    assert_eq!(converted_coo_without_duplicates, coo_no_dup);
}

#[test]
fn csr_from_coo_has_expected_format() {
    let coo = {
        let mut coo = CooMatrix::new(3, 4);
        coo.push(1, 3, 4);
        coo.push(0, 1, 2);
        coo.push(2, 0, 1);
        coo.push(2, 3, 2);
        coo.push(2, 2, 1);
        coo
    };

    let expected_csr = CsrMatrix::try_from_parts(
        3,
        4,
        vec![0, 1, 2, 5],
        vec![1, 3, 0, 2, 3],
        vec![2, 4, 1, 1, 2],
    )
    .unwrap();

    let converted_csr = convert_coo_csr(coo);

    assert_eq!(convert_csr_dense(&converted_csr), convert_csr_dense(&expected_csr));
    assert_eq!(converted_csr, expected_csr);
}

#[test]
fn csr_from_coo_with_duplicates_has_expected_format() {
    let coo = {
        let mut coo = CooMatrix::new(3, 4);
        coo.push(1, 3, 4);
        coo.push(2, 3, 2);
        coo.push(0, 1, 2);
        coo.push(2, 0, 1);
        coo.push(2, 3, 2);
        coo.push(0, 1, 3);
        coo.push(2, 2, 1);
        coo
    };

    let expected_csr = CsrMatrix::try_from_parts(
        3,
        4,
        vec![0, 1, 2, 5],
        vec![1, 3, 0, 2, 3],
        vec![5, 4, 1, 1, 4],
    )
    .unwrap();

    let converted_csr = convert_coo_csr(coo);

    assert_eq!(convert_csr_dense(&converted_csr), convert_csr_dense(&expected_csr));
    assert_eq!(converted_csr, expected_csr);
}

#[test]
fn csc_from_coo_has_expected_format() {
    let coo = {
        let mut coo = CooMatrix::new(3, 4);
        coo.push(1, 3, 4);
        coo.push(0, 1, 2);
        coo.push(2, 0, 1);
        coo.push(2, 3, 2);
        coo.push(2, 2, 1);
        coo
    };

    let expected_csc = CscMatrix::try_from_parts(
        3,
        4,
        vec![0, 1, 2, 3, 5],
        vec![2, 0, 2, 1, 2],
        vec![1, 2, 1, 4, 2],
    )
    .unwrap();

    let converted_csc = convert_coo_csc(coo);

    assert_eq!(convert_csc_dense(&converted_csc), convert_csc_dense(&expected_csc));
    assert_eq!(converted_csc, expected_csc);
}

#[test]
fn csc_from_coo_with_duplicates_has_expected_format() {
    let coo = {
        let mut coo = CooMatrix::new(3, 4);
        coo.push(1, 3, 4);
        coo.push(2, 3, 2);
        coo.push(0, 1, 2);
        coo.push(2, 0, 1);
        coo.push(2, 3, 2);
        coo.push(0, 1, 3);
        coo.push(2, 2, 1);
        coo
    };

    let expected_csc = CscMatrix::try_from_parts(
        3,
        4,
        vec![0, 1, 2, 3, 5],
        vec![2, 0, 2, 1, 2],
        vec![1, 5, 1, 4, 4],
    )
    .unwrap();

    let converted_csc = convert_coo_csc(coo);

    assert_eq!(convert_csc_dense(&converted_csc), convert_csc_dense(&expected_csc));
    assert_eq!(converted_csc, expected_csc);
}

#[test]
fn coo_from_csr_has_expected_format() {
    let csr = CsrMatrix::try_from_parts(
        3,
        4,
        vec![0, 1, 2, 5],
        vec![1, 3, 0, 2, 3],
        vec![5, 4, 1, 1, 4],
    )
    .unwrap();

    let expected_coo = CooMatrix::try_from_triplets(
        3,
        4,
        vec![0, 1, 2, 2, 2],
        vec![1, 3, 0, 2, 3],
        vec![5, 4, 1, 1, 4],
    )
    .unwrap();

    assert_eq!(convert_csr_coo(&csr), expected_coo);
}

#[test]
fn coo_from_csc_has_expected_format() {
    let csc = CscMatrix::try_from_parts(
        3,
        4,
        vec![0, 1, 2, 3, 5],
        vec![2, 0, 2, 1, 2],
        vec![1, 2, 1, 4, 2],
    )
    .unwrap();

    let expected_coo = CooMatrix::try_from_triplets(
        3,
        4,
        vec![2, 0, 2, 1, 2],
        vec![0, 1, 2, 3, 3],
        vec![1, 2, 1, 4, 2],
    )
    .unwrap();

    assert_eq!(convert_csc_coo(&csc), expected_coo);
}

#[test]
fn csr_dense_conversion_is_reflective() {
    let csr = CsrMatrix::try_from_parts(
        3,
        4,
        vec![0, 3, 4, 6],
        vec![1, 2, 3, 0, 1, 3],
        vec![5, 3, 2, 2, 1, 4],
    )
    .unwrap();

    let dense = DenseMatrix::from_row_slice(3, 4, &[0, 5, 3, 2, 2, 0, 0, 0, 0, 1, 0, 4]);

    assert_eq!(convert_csr_dense(&csr), dense);

    let final_csr = convert_dense_csr(&dense);

    assert_eq!(csr, final_csr);
}

#[test]
fn csc_dense_conversion_is_reflective() {
    let csc = CscMatrix::try_from_parts(
        3,
        4,
        vec![0, 1, 3, 4, 6],
        vec![1, 0, 2, 0, 0, 2],
        vec![2, 5, 1, 3, 2, 4],
    )
    .unwrap();

    let dense = DenseMatrix::from_row_slice(3, 4, &[0, 5, 3, 2, 2, 0, 0, 0, 0, 1, 0, 4]);

    assert_eq!(convert_csc_dense(&csc), dense);

    let final_csc = convert_dense_csc(&dense);

    assert_eq!(csc, final_csc);
}
