use snake_evolve::matrix::Matrix;

fn from_rows(rows: &[&[i64]]) -> Matrix<i64> {
    let height = rows.len();
    let width = rows[0].len();
    Matrix::new_map(height, width, |r, c| rows[r][c])
}

fn cells(m: &Matrix<i64>) -> Vec<Vec<i64>> {
    (0..m.get_height()).map(|r| m.row(r).to_vec()).collect()
}

#[test]
fn new_fills_with_default() {
    let m: Matrix<i64> = Matrix::new(2, 3);
    assert_eq!(m.get_height(), 2);
    assert_eq!(m.get_width(), 3);
    assert_eq!(cells(&m), vec![vec![0, 0, 0], vec![0, 0, 0]]);
}

#[test]
fn new_map_places_each_cell() {
    let m = Matrix::new_map(2, 3, |r, c| (10 * r + c) as i64);
    assert_eq!(cells(&m), vec![vec![0, 1, 2], vec![10, 11, 12]]);
    assert_eq!(m.get(1, 2), 12);
}

#[test]
fn new_map_with_no_rows() {
    let m: Matrix<i64> = Matrix::new_map(0, 4, |_, _| 1);
    assert_eq!(m.get_height(), 0);
    assert_eq!(m.get_width(), 4);
}

#[test]
fn map_applies_to_every_cell() {
    let m = from_rows(&[&[1, 2], &[3, 4]]).map(|v| v * 3);
    assert_eq!(cells(&m), vec![vec![3, 6], vec![9, 12]]);
}

#[test]
fn scalar_division_through_map() {
    let m = from_rows(&[&[4, 8], &[12, 16]]).map(|v| v / 4);
    assert_eq!(cells(&m), vec![vec![1, 2], vec![3, 4]]);
}

#[test]
fn row_returns_that_row() {
    let m = from_rows(&[&[1, 2, 3], &[4, 5, 6]]);
    assert_eq!(m.row(1), &[4, 5, 6]);
}

#[test]
fn elementwise_add_and_sub() {
    let a = from_rows(&[&[1, 2], &[3, 4]]);
    let b = from_rows(&[&[10, 20], &[30, 40]]);
    let sum = a.zip_with(&b, |x, y| x + y);
    assert_eq!(cells(&sum), vec![vec![11, 22], vec![33, 44]]);
    let diff = b.zip_with(&a, |x, y| x - y);
    assert_eq!(cells(&diff), vec![vec![9, 18], vec![27, 36]]);
}

#[test]
fn product_of_two_square_matrices() {
    let a = from_rows(&[&[1, 2], &[3, 4]]);
    let b = from_rows(&[&[5, 6], &[7, 8]]);
    let p = a.product_with(&b, |x, y| x * y, |x, y| x + y);
    assert_eq!(cells(&p), vec![vec![19, 22], vec![43, 50]]);
}

#[test]
fn product_shape_is_outer_dimensions() {
    let a = Matrix::new_map(2, 3, |r, c| (r + c) as i64);
    let b = Matrix::new_map(3, 4, |r, c| (r * c) as i64);
    let p = a.product_with(&b, |x, y| x * y, |x, y| x + y);
    assert_eq!(p.get_height(), 2);
    assert_eq!(p.get_width(), 4);
    // row 1 of a is [1, 2, 3]; column 3 of b is [0, 3, 6]
    assert_eq!(p.get(1, 3), 24);
}

#[test]
fn product_of_row_and_column() {
    let a = from_rows(&[&[1, 2, 3]]);
    let b = from_rows(&[&[4], &[5], &[6]]);
    let p = a.product_with(&b, |x, y| x * y, |x, y| x + y);
    assert_eq!(cells(&p), vec![vec![32]]);
}

#[test]
fn product_with_empty_inner_dimension_is_empty() {
    let a: Matrix<i64> = Matrix::new_map(0, 0, |_, _| 1);
    let b: Matrix<i64> = Matrix::new_map(0, 3, |_, _| 1);
    let p = a.product_with(&b, |x, y| x * y, |x, y| x + y);
    assert_eq!((p.get_height(), p.get_width()), (0, 3));
}
