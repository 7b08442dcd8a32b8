use coremark::square_matrix::Matrix;

#[test]
fn matrix_test_matrix_add_const() {
    let size = 3;
    let mut matrix = Matrix::new(size);
    matrix.add_const(5);

    for i in 0..size {
        for j in 0..size {
            assert_eq!(matrix.get(i, j), 5);
        }
    }
}

#[test]
fn matrix_test_matrix_mul_const() {
    let size = 2;
    let mut matrix = Matrix::new(size);
    for i in 0..size {
        for j in 0..size {
            matrix.set(i, j, (i + j) as i32);
        }
    }
    let result = matrix.mul_const(2);

    for i in 0..size {
        for j in 0..size {
            assert_eq!(result.get(i, j), (i + j) as i32 * 2);
        }
    }
}

#[test]
fn test_matrix_mul_matrix() {
    let size = 2;
    let mut matrix_a = Matrix::new(size);
    let mut matrix_b = Matrix::new(size);

    matrix_a.set(0, 0, 1);
    matrix_a.set(0, 1, 2);
    matrix_a.set(1, 0, 3);
    matrix_a.set(1, 1, 4);

    matrix_b.set(0, 0, 2);
    matrix_b.set(0, 1, 0);
    matrix_b.set(1, 0, 1);
    matrix_b.set(1, 1, 2);

    let result = matrix_a.mul_matrix(&matrix_b);

    assert_eq!(result.get(0, 0), 4);
    assert_eq!(result.get(0, 1), 4);
    assert_eq!(result.get(1, 0), 10);
    assert_eq!(result.get(1, 1), 8);
}

#[test]
fn test_square_mul_vect() {
    let mut matrix = Matrix::new(2);
    matrix.set(0, 0, 1);
    matrix.set(0, 1, 2);
    matrix.set(1, 0, 3);
    matrix.set(1, 1, 4);

    let result = matrix.mul_vect(&[2, 1]);
    assert_eq!(result, vec![4, 10]);
}

#[test]
fn test_square_slices() {
    let mut matrix = Matrix::new(2);
    matrix.set(1, 0, 9);
    assert_eq!(matrix.as_slice(), &[0, 0, 9, 0]);
    matrix.as_mut_slice()[3] = 4;
    assert_eq!(matrix.get(1, 1), 4);
}
