use tiled_matrix::matrix::Matrix;
use tiled_matrix::matrix::MatrixError;

#[test]
fn create_zero_filled() {
    let m = Matrix::new(3, 4).unwrap();
    for r in 0..3 {
        for c in 0..4 {
            assert_eq!(m.get_val(r, c), Some(0));
        }
    }
}

#[test]
fn create_rejects_negative_dims() {
    assert_eq!(Matrix::new(-1, 2).unwrap_err(), MatrixError::InvalidShape);
    assert_eq!(Matrix::new(2, -5).unwrap_err(), MatrixError::InvalidShape);
    assert_eq!(Matrix::new(-3, -3).unwrap_err(), MatrixError::InvalidShape);
}

#[test]
fn create_zero_sized() {
    let m = Matrix::new(0, 5).unwrap();
    assert_eq!(m.get_val(0, 0), None);
    let m2 = Matrix::new(5, 0).unwrap();
    assert_eq!(m2.get_val(0, 0), None);
}

#[test]
fn set_then_get_returns_value() {
    let mut m = Matrix::new(2, 3).unwrap();
    assert_eq!(m.set_val(1, 2, 42), Ok(()));
    assert_eq!(m.get_val(1, 2), Some(42));
    assert_eq!(m.set_val(0, 0, -7), Ok(()));
    assert_eq!(m.get_val(0, 0), Some(-7));
    // the other elements are untouched
    assert_eq!(m.get_val(0, 1), Some(0));
    assert_eq!(m.get_val(1, 1), Some(0));
}

#[test]
fn get_out_of_range_is_none() {
    let m = Matrix::new(2, 3).unwrap();
    assert_eq!(m.get_val(2, 0), None);
    assert_eq!(m.get_val(0, 3), None);
    assert_eq!(m.get_val(-1, 0), None);
    assert_eq!(m.get_val(0, -1), None);
}

#[test]
fn set_out_of_range_leaves_storage() {
    let mut m = Matrix::new(2, 2).unwrap();
    assert_eq!(m.set_val(0, 0, 5), Ok(()));
    assert_eq!(m.set_val(2, 0, 9), Err(MatrixError::IndexOutOfRange));
    assert_eq!(m.set_val(0, 2, 9), Err(MatrixError::IndexOutOfRange));
    assert_eq!(m.set_val(-1, 1, 9), Err(MatrixError::IndexOutOfRange));
    for r in 0..2 {
        for c in 0..2 {
            let expected = if r == 0 && c == 0 { 5 } else { 0 };
            assert_eq!(m.get_val(r, c), Some(expected));
        }
    }
}

#[test]
fn set_all_length_mismatch_leaves_buffer() {
    let mut m = Matrix::new(2, 3).unwrap();
    assert_eq!(m.set_val(1, 1, 11), Ok(()));
    let too_short = vec![1, 2, 3];
    assert_eq!(m.set_all(&too_short), Err(MatrixError::LengthMismatch));
    let too_long = vec![1, 2, 3, 4, 5, 6, 7];
    assert_eq!(m.set_all(&too_long), Err(MatrixError::LengthMismatch));
    assert_eq!(m.get_val(1, 1), Some(11));
    assert_eq!(m.get_val(0, 0), Some(0));
}

#[test]
fn set_all_replaces_every_element() {
    let mut m = Matrix::new(2, 3).unwrap();
    let values = vec![1, 2, 3, 4, 5, 6];
    assert_eq!(m.set_all(&values), Ok(()));
    assert_eq!(m.get_val(0, 0), Some(1));
    assert_eq!(m.get_val(0, 1), Some(2));
    assert_eq!(m.get_val(0, 2), Some(3));
    assert_eq!(m.get_val(1, 0), Some(4));
    assert_eq!(m.get_val(1, 1), Some(5));
    assert_eq!(m.get_val(1, 2), Some(6));
}

#[test]
fn create_instances_do_not_share_storage() {
    let mut m1 = Matrix::new(2, 2).unwrap();
    let m2 = Matrix::new(2, 2).unwrap();
    assert_eq!(m1.set_val(0, 0, 99), Ok(()));
    assert_eq!(m2.get_val(0, 0), Some(0));
    assert_eq!(m1.get_val(0, 0), Some(99));
}
