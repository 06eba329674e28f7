use connes_distance::binary64::Binary64;
use connes_distance::matrix::Matrix;

fn datum(x: f64) -> Binary64 {
    Binary64::from_bits(x.to_bits())
}

fn data(xs: &[f64]) -> Vec<Binary64> {
    xs.iter().map(|x| datum(*x)).collect()
}

#[test]
fn entries_must_fill_the_shape() {
    assert!(Matrix::from_row_slice(2, 3, data(&[1.0, 2.0, 3.0, 4.0, 5.0, 6.0])).is_some());
    assert!(Matrix::from_row_slice(2, 3, data(&[1.0, 2.0, 3.0, 4.0, 5.0])).is_none());
    assert!(Matrix::from_row_slice(2, 2, data(&[1.0, 2.0, 3.0, 4.0, 5.0])).is_none());
    assert!(Matrix::from_row_slice(0, 5, data(&[])).is_some());
    assert!(Matrix::from_row_slice(0, 5, data(&[1.0])).is_none());
    assert!(Matrix::from_row_slice(usize::MAX, 2, data(&[])).is_none());
    assert!(Matrix::from_row_slice(usize::MAX, usize::MAX, data(&[1.0])).is_none());
}

#[test]
fn entries_are_read_row_after_row() {
    let m = Matrix::from_row_slice(2, 3, data(&[1.0, 2.0, 3.0, 4.0, 5.0, 6.0])).unwrap();
    assert_eq!(m.rows(), 2);
    assert_eq!(m.cols(), 3);
    assert_eq!(m.get(0, 0), Some(datum(1.0)));
    assert_eq!(m.get(0, 2), Some(datum(3.0)));
    assert_eq!(m.get(1, 0), Some(datum(4.0)));
    assert_eq!(m.get(1, 2), Some(datum(6.0)));
    assert_eq!(m.get(2, 0), None);
    assert_eq!(m.get(0, 3), None);
    assert_eq!(m.get(1, usize::MAX), None);
    assert_eq!(m.entries(), &data(&[1.0, 2.0, 3.0, 4.0, 5.0, 6.0]));
}

#[test]
fn clone_is_the_same_matrix() {
    let m = Matrix::from_row_slice(1, 2, data(&[0.25, -0.25])).unwrap();
    let copy = m.clone();
    assert_eq!(copy.rows(), 1);
    assert_eq!(copy.cols(), 2);
    assert_eq!(copy.entries(), m.entries());
}

#[test]
fn rows_are_handed_out_left_to_right() {
    let m = Matrix::from_row_slice(2, 3, data(&[1.0, 2.0, 3.0, 4.0, 5.0, 6.0])).unwrap();
    assert_eq!(m.row(0), Some(data(&[1.0, 2.0, 3.0])));
    assert_eq!(m.row(1), Some(data(&[4.0, 5.0, 6.0])));
    assert_eq!(m.row(2), None);
    let empty = Matrix::from_row_slice(2, 0, data(&[])).unwrap();
    assert_eq!(empty.row(1), Some(data(&[])));
}

#[test]
fn row_sums_add_from_the_left() {
    let m = Matrix::from_row_slice(
        3,
        3,
        data(&[0.1, 0.2, 0.3, 1e16, 1.0, -1e16, 1e16, -1e16, 1.0]),
    )
    .unwrap();
    assert_eq!(m.row_sums(), data(&[0.0 + 0.1 + 0.2 + 0.3, 0.0, 1.0]));
    let empty = Matrix::from_row_slice(2, 0, data(&[])).unwrap();
    assert_eq!(empty.row_sums(), data(&[0.0, 0.0]));
    let none = Matrix::from_row_slice(0, 2, data(&[])).unwrap();
    assert_eq!(none.row_sums(), data(&[]));
}

#[test]
fn less_identity_takes_one_off_the_diagonal() {
    let m = Matrix::from_row_slice(2, 2, data(&[0.95, 0.05, 0.25, 0.75])).unwrap();
    let l = m.less_identity();
    assert_eq!(l.rows(), 2);
    assert_eq!(l.cols(), 2);
    assert_eq!(l.entries(), &data(&[0.95 - 1.0, 0.05, 0.25, 0.75 - 1.0]));
    let wide = Matrix::from_row_slice(2, 3, data(&[1.0, -0.0, 0.0, 4.0, 5.0, 6.0])).unwrap();
    assert_eq!(wide.less_identity().entries(), &data(&[0.0, -0.0, 0.0, 4.0, 4.0, 6.0]));
}

#[test]
fn transpose_turns_rows_into_columns() {
    let m = Matrix::from_row_slice(2, 3, data(&[1.0, 2.0, 3.0, 4.0, 5.0, 6.0])).unwrap();
    let t = m.transpose();
    assert_eq!(t.rows(), 3);
    assert_eq!(t.cols(), 2);
    assert_eq!(t.entries(), &data(&[1.0, 4.0, 2.0, 5.0, 3.0, 6.0]));
    for i in 0..3 {
        for j in 0..2 {
            assert_eq!(t.get(i, j), m.get(j, i));
        }
    }
    assert_eq!(t.transpose().entries(), m.entries());
    let empty = Matrix::from_row_slice(0, 4, data(&[])).unwrap().transpose();
    assert_eq!((empty.rows(), empty.cols()), (4, 0));
    let one = Matrix::from_row_slice(1, 1, data(&[7.0])).unwrap();
    assert_eq!(one.transpose().entries(), &data(&[7.0]));
}
