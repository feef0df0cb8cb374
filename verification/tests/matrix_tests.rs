use matmul::matrix::multiply_with_workers;
use matmul::{dot_product, multiply, Error, Matrix, Vector};

#[test]
fn test_multiply() {
    let m1 = Matrix::from_data(vec![1; 4], 2, 2);
    let m2 = Matrix::from_data(vec![2; 4], 2, 2);
    let result = multiply(&m1, &m2).expect("Matrix multiply error");
    println!("{:?}", result.to_vec());
}

#[test]
fn multiply_ones_by_twos() {
    let m1 = Matrix::from_data(vec![1; 4], 2, 2);
    let m2 = Matrix::from_data(vec![2; 4], 2, 2);
    let result = multiply(&m1, &m2).expect("Matrix multiply error");
    assert_eq!(result.row_count(), 2);
    assert_eq!(result.col_count(), 2);
    assert_eq!(result.to_vec(), vec![4, 4, 4, 4]);
}

#[test]
fn multiply_row_by_column() {
    let a = Matrix::from_data(vec![1, 2, 3], 1, 3);
    let b = Matrix::from_data(vec![4, 5, 6], 3, 1);
    let result = multiply(&a, &b).expect("Matrix multiply error");
    assert_eq!(result.row_count(), 1);
    assert_eq!(result.col_count(), 1);
    assert_eq!(result.to_vec(), vec![32]);
}

#[test]
fn multiply_empty_inner_dimension() {
    let a = Matrix::from_data(vec![], 2, 0);
    let b = Matrix::from_data(vec![], 0, 2);
    let result = multiply(&a, &b).expect("Matrix multiply error");
    assert_eq!(result.row_count(), 2);
    assert_eq!(result.col_count(), 2);
    assert_eq!(result.to_vec(), vec![0, 0, 0, 0]);
}

#[test]
fn multiply_dimension_mismatch() {
    let a = Matrix::from_data(vec![1, 2, 3, 4], 2, 2);
    let b = Matrix::from_data(vec![1, 2, 3], 3, 1);
    let result = multiply(&a, &b);
    assert_eq!(result.unwrap_err(), Error::DimensionMismatch);
}

#[test]
fn multiply_matches_formula() {
    let a = Matrix::from_data(vec![1, 2, 3, 4, 5, 6], 2, 3);
    let b = Matrix::from_data(vec![7, 8, 9, 10, 11, 12], 3, 2);
    let result = multiply(&a, &b).expect("Matrix multiply error");
    assert_eq!(result.to_vec(), vec![58, 64, 139, 154]);
}

#[test]
fn multiply_by_identity_returns_original() {
    let a = Matrix::from_data(vec![3, -1, 4, 1, -5, 9], 2, 3);
    let id = Matrix::from_data(vec![1, 0, 0, 0, 1, 0, 0, 0, 1], 3, 3);
    let result = multiply(&a, &id).expect("Matrix multiply error");
    assert_eq!(result.row_count(), 2);
    assert_eq!(result.col_count(), 3);
    assert_eq!(result.to_vec(), a.to_vec());
}

#[test]
fn multiply_with_negative_entries() {
    let a = Matrix::from_data(vec![-1, 2, -3, 4], 2, 2);
    let b = Matrix::from_data(vec![5, -6, 7, -8], 2, 2);
    let result = multiply(&a, &b).expect("Matrix multiply error");
    assert_eq!(result.to_vec(), vec![9, -10, 13, -14]);
}

#[test]
fn pool_size_does_not_change_result() {
    let a = Matrix::from_data(vec![1, 2, 3, 4, 5, 6, 7, 8, 9, 10, 11, 12], 3, 4);
    let b = Matrix::from_data(vec![2, 0, 1, -1, 3, 5, 7, 11, 13, -2, -4, -6], 4, 3);
    let r1 = multiply_with_workers(&a, &b, 1).expect("Matrix multiply error");
    let r8 = multiply_with_workers(&a, &b, 8).expect("Matrix multiply error");
    assert_eq!(r1.row_count(), r8.row_count());
    assert_eq!(r1.col_count(), r8.col_count());
    assert_eq!(r1.to_vec(), r8.to_vec());
}

#[test]
fn new_matrix_is_zero_filled() {
    let m = Matrix::new(2, 3);
    assert_eq!(m.row_count(), 2);
    assert_eq!(m.col_count(), 3);
    assert_eq!(m.to_vec(), vec![0, 0, 0, 0, 0, 0]);
}

#[test]
fn row_extraction() {
    let m = Matrix::from_data(vec![1, 2, 3, 4, 5, 6], 2, 3);
    let r = m.row(1);
    assert_eq!(r.len(), 3);
    assert_eq!(r.get(0), 4);
    assert_eq!(r.get(1), 5);
    assert_eq!(r.get(2), 6);
}

#[test]
fn col_extraction() {
    let m = Matrix::from_data(vec![1, 2, 3, 4, 5, 6], 2, 3);
    let c = m.col(2);
    assert_eq!(c.len(), 2);
    assert_eq!(c.get(0), 3);
    assert_eq!(c.get(1), 6);
}

#[test]
fn get_reads_cells_in_row_major_order() {
    let m = Matrix::from_data(vec![1, 2, 3, 4, 5, 6], 2, 3);
    assert_eq!(m.get(0, 0), 1);
    assert_eq!(m.get(0, 2), 3);
    assert_eq!(m.get(1, 0), 4);
    assert_eq!(m.get(1, 2), 6);
}

#[test]
fn dot_product_of_equal_lengths() {
    let a = Vector::new(vec![1, 2, 3]);
    let b = Vector::new(vec![4, 5, 6]);
    assert_eq!(dot_product(a, b).expect("dot product error"), 32);
}

#[test]
fn dot_product_mismatched_lengths() {
    let a = Vector::new(vec![1, 2, 3]);
    let b = Vector::new(vec![4, 5]);
    let result = dot_product(a, b);
    assert_eq!(result.unwrap_err(), Error::DimensionMismatch);
}
