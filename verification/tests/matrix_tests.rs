use workpool::matrix::{mat_mul_rows, Matrix};

#[test]
fn new_fills_with_the_initial_value() {
    let m = Matrix::new(2, 3, 7);
    assert_eq!(m.rows, 2);
    assert_eq!(m.cols, 3);
    assert_eq!(m.data, vec![vec![7, 7, 7], vec![7, 7, 7]]);
}

#[test]
fn from_vec_is_a_single_row() {
    let m = Matrix::from_vec(vec![1, 2, 3]);
    assert_eq!(m.rows, 1);
    assert_eq!(m.cols, 3);
    assert_eq!(m.data, vec![vec![1, 2, 3]]);
}

#[test]
fn collect_stacks_rows_in_order() {
    let parts = vec![
        Matrix::from_vec(vec![1, 2]),
        Matrix::from_vec(vec![3, 4]),
        Matrix::from_vec(vec![5, 6]),
    ];
    let m = Matrix::collect(parts);
    assert_eq!(m.rows, 3);
    assert_eq!(m.cols, 2);
    assert_eq!(m.data, vec![vec![1, 2], vec![3, 4], vec![5, 6]]);
}

#[test]
fn constant_square_product() {
    // two 5-by-5 matrices of constants: every product entry is 5 * 10 * 20
    let a = Matrix::new(5, 5, 10);
    let b = Matrix::new(5, 5, 20);
    let out = a.mul(&b);
    assert_eq!(out.rows, 5);
    assert_eq!(out.cols, 5);
    for row in &out.data {
        for &cell in row {
            assert_eq!(cell, 1000);
        }
    }
}

#[test]
fn known_product() {
    let a = Matrix {
        rows: 2,
        cols: 3,
        data: vec![vec![1, 2, 3], vec![4, 5, 6]],
    };
    let b = Matrix {
        rows: 3,
        cols: 2,
        data: vec![vec![7, 8], vec![9, 10], vec![11, 12]],
    };
    let out = a.mul(&b);
    assert_eq!(out.data, vec![vec![58, 64], vec![139, 154]]);
}

#[test]
fn row_wise_product_equals_whole_product() {
    let a = Matrix {
        rows: 2,
        cols: 3,
        data: vec![vec![1, -2, 3], vec![0, 5, -6]],
    };
    let b = Matrix {
        rows: 3,
        cols: 2,
        data: vec![vec![7, 8], vec![-9, 10], vec![11, 0]],
    };
    let whole = a.mul(&b);
    let by_rows = mat_mul_rows(&a, &b);
    assert_eq!(whole.data, by_rows.data);
}
