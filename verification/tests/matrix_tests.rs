use matrix_engine::error::MatrixError;
use matrix_engine::matrix::{matrix_mul, Matrix};

#[test]
fn test_matrix_mul() {
    // generate 3 * 3 matrix
    let m1 = Matrix::new(vec![1, 2, 3, 4, 5, 6, 7, 8, 9], 3, 3);
    let m2 = Matrix::new(vec![1, 2, 3, 4, 5, 6, 7, 8, 9], 3, 3);
    let m3 = m1.multiply(&m2).unwrap();
    assert_eq!(m3.data, vec![30, 36, 42, 66, 81, 96, 102, 126, 150]);
}

#[test]
fn test_get_row() {
    let m = Matrix::new(vec![1, 2, 3, 4, 5, 6], 2, 3);
    assert_eq!(m.get_row(0), vec![1, 2, 3]);
    assert_eq!(m.get_row(1), vec![4, 5, 6]);
}

#[test]
fn test_get_col() {
    let m = Matrix::new(vec![1, 2, 3, 4, 5, 6], 2, 3);
    assert_eq!(m.get_col(0), vec![1, 4]);
    assert_eq!(m.get_col(1), vec![2, 5]);
    assert_eq!(m.get_col(2), vec![3, 6]);
}

#[test]
fn test_dot_product_exact() {
    let a = vec![1, 2, 3];
    let b = vec![4, 5, 6];
    assert_eq!(matrix_mul(&a, &b), Ok(32));
}

#[test]
fn test_dot_product_empty() {
    let a: Vec<i64> = vec![];
    let b: Vec<i64> = vec![];
    assert_eq!(matrix_mul(&a, &b), Ok(0));
}

#[test]
fn test_dot_product_length_mismatch() {
    let a = vec![1, 2, 3];
    let b = vec![4, 5];
    assert_eq!(matrix_mul(&a, &b), Err(MatrixError::VectorLengthMismatch));
}

#[test]
fn test_sequential_dimension_mismatch() {
    // 2x3 times 2x3 is incompatible: no output may be produced.
    let a = Matrix::new(vec![1, 2, 3, 4, 5, 6], 2, 3);
    let b = Matrix::new(vec![1, 2, 3, 4, 5, 6], 2, 3);
    match a.multiply(&b) {
        Err(e) => assert_eq!(e, MatrixError::DimensionMismatch),
        Ok(_) => panic!("incompatible shapes must not multiply"),
    }
}

#[test]
fn test_sequential_one_by_one() {
    let a = Matrix::new(vec![7], 1, 1);
    let b = Matrix::new(vec![6], 1, 1);
    let c = a.multiply(&b).unwrap();
    assert_eq!(c.data, vec![42]);
    assert_eq!(c.rows, 1);
    assert_eq!(c.cols, 1);
}

#[test]
fn test_sequential_negative_elements() {
    let a = Matrix::new(vec![-1, 2, 3, -4], 2, 2);
    let b = Matrix::new(vec![5, -6, -7, 8], 2, 2);
    let c = a.multiply(&b).unwrap();
    assert_eq!(c.data, vec![-19, 22, 43, -50]);
}
