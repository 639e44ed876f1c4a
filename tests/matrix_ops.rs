use neural::matrix::{Layout, Matrix};

fn int_matrix(rows: &[&[i64]]) -> Matrix<i64> {
    let r = rows.len();
    let c = rows[0].len();
    let mut flat = Vec::new();
    for row in rows {
        assert_eq!(row.len(), c);
        flat.extend_from_slice(row);
    }
    Matrix::from_flat(&flat, r, c, Layout::RowMajor)
}

fn rows_of(m: &Matrix<i64>) -> Vec<Vec<i64>> {
    let (r, c) = m.size();
    (0..r).map(|i| (0..c).map(|j| m.get(i, j)).collect()).collect()
}

#[test]
fn product_correctness() {
    let a = int_matrix(&[&[3, 6, 7], &[13, 16, 17]]);
    let b = int_matrix(&[&[30, 60], &[130, 160], &[130, 160]]);
    let p = a.product(&b);
    assert_eq!(rows_of(&p), vec![vec![1780, 2260], vec![4680, 6060]]);
}

#[test]
fn product_shape_law() {
    let a = Matrix::<i64>::new(4, 3);
    let b = Matrix::<i64>::new(3, 5);
    assert_eq!(a.product(&b).size(), (4, 5));
    let mut out = Matrix::<i64>::new(4, 5);
    a.product_into(&b, &mut out);
    assert_eq!(out.size(), (4, 5));
    let row = Matrix::<i64>::new(1, 7);
    let col = Matrix::<i64>::new(7, 1);
    assert_eq!(row.product(&col).size(), (1, 1));
    assert_eq!(col.product(&row).size(), (7, 7));
}

#[test]
fn product_into_overwrites_output() {
    let a = int_matrix(&[&[1, 2], &[3, 4]]);
    let b = int_matrix(&[&[5, 6], &[7, 8]]);
    let mut out = int_matrix(&[&[100, 100], &[100, 100]]);
    a.product_into(&b, &mut out);
    assert_eq!(rows_of(&out), vec![vec![19, 22], vec![43, 50]]);
}

#[test]
fn product_with_empty_inner_dimension_is_zero() {
    let a = Matrix::<i64>::new(2, 0);
    let b = Matrix::<i64>::new(0, 3);
    assert_eq!(rows_of(&a.product(&b)), vec![vec![0, 0, 0], vec![0, 0, 0]]);
}

#[test]
fn transpose_round_trip() {
    let a = int_matrix(&[&[1, 2, 3], &[4, 5, 6]]);
    let t = a.transpose();
    assert_eq!(t.size(), (3, 2));
    assert_eq!(rows_of(&t), vec![vec![1, 4], vec![2, 5], vec![3, 6]]);
    let back = t.transpose();
    assert_eq!(back.size(), (2, 3));
    assert_eq!(rows_of(&back), rows_of(&a));
}

#[test]
fn transpose_into_reuses_output() {
    let a = int_matrix(&[&[1, 2], &[3, 4], &[5, 6]]);
    let mut out = Matrix::<i64>::new(2, 3);
    a.transpose_into(&mut out);
    assert_eq!(rows_of(&out), vec![vec![1, 3, 5], vec![2, 4, 6]]);
}

#[test]
fn add_scalar_zero_is_identity() {
    let a = int_matrix(&[&[1, -2, 3], &[4, 5, -6]]);
    let mut b = a.copy();
    b.add_scalar(0);
    assert_eq!(rows_of(&b), rows_of(&a));
}

#[test]
fn multiply_scalar_one_is_identity() {
    let a = int_matrix(&[&[1, -2, 3], &[4, 5, -6]]);
    let mut b = a.copy();
    b.multiply_scalar(1);
    assert_eq!(rows_of(&b), rows_of(&a));
}

#[test]
fn scalar_operations() {
    let mut a = int_matrix(&[&[1, -2], &[3, 0]]);
    a.add_scalar(5);
    assert_eq!(rows_of(&a), vec![vec![6, 3], vec![8, 5]]);
    a.multiply_scalar(-2);
    assert_eq!(rows_of(&a), vec![vec![-12, -6], vec![-16, -10]]);
}

#[test]
fn elementwise_matrix_operations() {
    let a = int_matrix(&[&[1, 2, 3], &[4, 5, 6]]);
    let b = int_matrix(&[&[10, 20, 30], &[40, 50, 60]]);
    let mut s = a.copy();
    s.add_matrix(&b);
    assert_eq!(rows_of(&s), vec![vec![11, 22, 33], vec![44, 55, 66]]);
    let d = b.subtract_matrix(&a);
    assert_eq!(rows_of(&d), vec![vec![9, 18, 27], vec![36, 45, 54]]);
    let h = a.multiply_matrix_ret(&b);
    assert_eq!(rows_of(&h), vec![vec![10, 40, 90], vec![160, 250, 360]]);
    let mut m = a.copy();
    m.multiply_matrix(&b);
    assert_eq!(rows_of(&m), rows_of(&h));
    assert_eq!(rows_of(&a), vec![vec![1, 2, 3], vec![4, 5, 6]]);
}

#[test]
fn new_is_zero_filled() {
    let m = Matrix::<i64>::new(3, 2);
    assert_eq!(m.size(), (3, 2));
    assert_eq!(m.len(), 6);
    assert_eq!(m.to_vec(), vec![0; 6]);
}

#[test]
fn layouts() {
    let v = [1i64, 2, 3, 4, 5, 6];
    let cm = Matrix::from_slice_cm(&v, 2, 3);
    assert_eq!(rows_of(&cm), vec![vec![1, 3, 5], vec![2, 4, 6]]);
    assert_eq!(cm.to_vec(), vec![1, 3, 5, 2, 4, 6]);
    assert_eq!(cm.to_flat(Layout::ColumnMajor), v.to_vec());
    let rm = Matrix::from_flat(&v, 2, 3, Layout::RowMajor);
    assert_eq!(rows_of(&rm), vec![vec![1, 2, 3], vec![4, 5, 6]]);
    assert_eq!(rm.to_flat(Layout::RowMajor), v.to_vec());
    assert_eq!(rm.to_flat(Layout::ColumnMajor), vec![1, 4, 2, 5, 3, 6]);
    let moved = Matrix::from_row_major(vec![7i64, 8, 9, 10], 2, 2);
    assert_eq!(moved.into_vec(), vec![7, 8, 9, 10]);
}

#[test]
fn column_vector_from_slice() {
    let m = Matrix::from_slice(&[4i64, 5, 6]);
    assert_eq!(m.size(), (3, 1));
    assert_eq!(rows_of(&m), vec![vec![4], vec![5], vec![6]]);
}

#[test]
fn filled_and_assign() {
    let src = int_matrix(&[&[1, 2], &[3, 4]]);
    let mut m = Matrix::filled(2, 2, 9i64);
    assert_eq!(m.to_vec(), vec![9, 9, 9, 9]);
    m.assign(&src);
    assert_eq!(rows_of(&m), rows_of(&src));
}

#[test]
fn randomize_stays_in_range() {
    let mut m = Matrix::<i64>::new(8, 8);
    m.randomize(-3, 3);
    assert_eq!(m.size(), (8, 8));
    assert!(m.to_vec().iter().all(|&x| (-3..=3).contains(&x)));
    let mut fixed = Matrix::<i64>::new(2, 3);
    fixed.randomize(5, 5);
    assert_eq!(fixed.to_vec(), vec![5; 6]);
}
