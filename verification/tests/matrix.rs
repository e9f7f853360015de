use algos::matrix::Matrix;

#[test]
fn test_rotate_cw() {
    let mut m = Matrix::with_fn(3, |row, col| (row, col));
    m.rotate_cw();
    assert_eq!(m.get_row(0), &[(2, 0), (1, 0), (0, 0)]);
    assert_eq!(m.get_row(1), &[(2, 1), (1, 1), (0, 1)]);
    assert_eq!(m.get_row(2), &[(2, 2), (1, 2), (0, 2)]);
}

#[test]
fn test_rotate_ccw() {
    let mut m = Matrix::with_fn(3, |row, col| (row, col));
    m.rotate_ccw();
    assert_eq!(m.get_row(0), &[(0, 2), (1, 2), (2, 2)]);
    assert_eq!(m.get_row(1), &[(0, 1), (1, 1), (2, 1)]);
    assert_eq!(m.get_row(2), &[(0, 0), (1, 0), (2, 0)]);
}

#[test]
fn test_transpose() {
    let mut m = Matrix::with_fn(3, |row, col| (row, col));
    m.transpose();
    assert_eq!(m.get_row(0), &[(0, 0), (1, 0), (2, 0)]);
    assert_eq!(m.get_row(1), &[(0, 1), (1, 1), (2, 1)]);
    assert_eq!(m.get_row(2), &[(0, 2), (1, 2), (2, 2)]);
}

#[test]
fn test_set_row() {
    let mut m = Matrix::with_fn(2, |_, _| 0);
    assert_eq!(m.dimensions, 2);
    assert_eq!(m.get_row(0), &[0, 0]);
    assert_eq!(m.get_row(1), &[0, 0]);
    m.set(0, 1, 99);
    assert_eq!(m.get_row(0), &[0, 99]);
    assert_eq!(m.get_row(1), &[0, 0]);
    m.set(1, 0, 99);
    assert_eq!(m.get_row(0), &[0, 99]);
    assert_eq!(m.get_row(1), &[99, 0]);
}

#[test]
fn test_get_row() {
    let m = Matrix::with_fn(3, |row, col| (row, col));
    assert_eq!(m.get_row(0), &[(0, 0), (0, 1), (0, 2)]);
    assert_eq!(m.get_row(1), &[(1, 0), (1, 1), (1, 2)]);
    assert_eq!(m.get_row(2), &[(2, 0), (2, 1), (2, 2)]);
}

#[test]
fn test_matrix_reverse_rows() {
    let mut m = Matrix::with_fn(3, |row, col| (row, col));
    m.reverse_rows();
    assert_eq!(m.get_row(0), &[(0, 2), (0, 1), (0, 0)]);
    assert_eq!(m.get_row(1), &[(1, 2), (1, 1), (1, 0)]);
    assert_eq!(m.get_row(2), &[(2, 2), (2, 1), (2, 0)]);
}

#[test]
fn test_creating_matrix() {
    let m = Matrix::with_fn(3, |row, col| (row, col));
    for i in 0..3 {
        for j in 0..3 {
            let &(a, b) = m.get(i, j);
            assert_eq!(a, i);
            assert_eq!(b, j);
        }
    }
}

#[test]
fn test_into_iterator() {
    let m = Matrix::with_fn(3, |row, col| (row, col));
    let mut rows = m.into_iter();
    let mut collected: Vec<&[(usize, usize)]> = Vec::new();
    while let Some(row) = rows.next() {
        collected.push(row);
    }
    assert_eq!(collected.len(), 3);
    assert_eq!(collected[0], &[(0, 0), (0, 1), (0, 2)]);
    assert_eq!(collected[1], &[(1, 0), (1, 1), (1, 2)]);
    assert_eq!(collected[2], &[(2, 0), (2, 1), (2, 2)]);

    // Take a new iterator to confirm that the matrix wasn't consumed the first
    // time.
    let mut rows = m.into_iter();
    let mut collected: Vec<&[(usize, usize)]> = Vec::new();
    while let Some(row) = rows.next() {
        collected.push(row);
    }
    assert_eq!(collected.len(), 3);
}

#[test]
fn test_with_data_works_when_input_vec_len_matches_dimensions() {
    Matrix::with_data(3, vec![1, 2, 3, 4, 5, 6, 7, 8, 9]);
}

#[test]
fn test_with_data_reads_back() {
    let m = Matrix::with_data(2, vec![1, 2, 3, 4]);
    assert_eq!(*m.get(0, 0), 1);
    assert_eq!(*m.get(0, 1), 2);
    assert_eq!(*m.get(1, 0), 3);
    assert_eq!(*m.get(1, 1), 4);
}

#[test]
fn test_get_row_mut() {
    let mut m = Matrix::with_fn(2, |_, _| 0);
    let row = m.get_row_mut(1);
    row[0] = 5;
    row[1] = 7;
    assert_eq!(m.get_row(0), &[0, 0]);
    assert_eq!(m.get_row(1), &[5, 7]);
}
