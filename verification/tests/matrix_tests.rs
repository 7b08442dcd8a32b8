use coremark::matrix::Matrix;

#[test]
fn test_matrix_add_const() {
    let (rows, cols) = (3, 4);
    let mut matrix = Matrix::new(rows, cols);
    matrix.add_const(5);

    for i in 0..rows {
        for j in 0..cols {
            assert_eq!(matrix.get(i, j), 5);
        }
    }
}

#[test]
fn test_matrix_mul_const() {
    let (rows, cols) = (3, 4);
    let mut matrix = Matrix::new(rows, cols);

    for i in 0..rows {
        for j in 0..cols {
            matrix.set(i, j, (i * cols + j) as i32);
        }
    }

    let result = matrix.mul_const(2);

    for i in 0..rows {
        for j in 0..cols {
            assert_eq!(result.get(i, j), (i * cols + j) as i32 * 2);
        }
    }
}

#[test]
fn test_matrix_mul_vect() {
    let (rows, cols) = (2, 2);
    let mut matrix = Matrix::new(rows, cols);

    matrix.set(0, 0, 1);
    matrix.set(0, 1, 2);
    matrix.set(1, 0, 3);
    matrix.set(1, 1, 4);

    let vector = vec![2, 1];
    let result = matrix.mul_vect(&vector);

    assert_eq!(result, vec![4, 10]);
}

#[test]
fn test_square_mul_matrix() {
    let size = 3;
    let mut matrix_a = Matrix::new(size, size);
    let mut matrix_b = Matrix::new(size, size);

    for i in 0..size {
        for j in 0..size {
            matrix_a.set(i, j, (i + 1) as i32 * (j + 1) as i32);
            matrix_b.set(i, j, (j + 1) as i32 * (i + 1) as i32);
        }
    }

    let result = matrix_a.mul_matrix(&matrix_b);

    for i in 0..size {
        for j in 0..size {
            let expected = (0..size)
                .map(|k| matrix_a.get(i, k) * matrix_b.get(k, j))
                .sum::<i32>();
            assert_eq!(result.get(i, j), expected);
        }
    }
}

#[test]
fn test_non_square_mul_matrix() {
    let (a, b) = (2, 3);
    let mut matrix_a = Matrix::new(a, b);
    let mut matrix_b = Matrix::new(b, a);

    for i in 0..a {
        for j in 0..b {
            matrix_a.set(i, j, i as i32 + j as i32);
        }
    }
    for i in 0..b {
        for j in 0..a {
            matrix_b.set(i, j, i as i32 - j as i32);
        }
    }

    let result = matrix_a.mul_matrix(&matrix_b);

    for i in 0..a {
        for j in 0..a {
            let expected = (0..b)
                .map(|k| matrix_a.get(i, k) * matrix_b.get(k, j))
                .sum::<i32>();
            assert_eq!(result.get(i, j), expected);
        }
    }
}

#[test]
fn test_edge_cases_mul_matrix() {
    // Empty matrix (0 x 3) * (3 x 2)
    let matrix_a = Matrix::new(0, 3);
    let matrix_b = Matrix::new(3, 2);
    let result = matrix_a.mul_matrix(&matrix_b);
    assert_eq!(result.rows(), 0);
    assert_eq!(result.cols(), 2);

    // Single row (1 x 3) * (3 x 1)
    let mut matrix_c = Matrix::new(1, 3);
    for j in 0..3 {
        matrix_c.set(0, j, j as i32 + 1);
    }
    let mut matrix_d = Matrix::new(3, 1);
    for i in 0..3 {
        matrix_d.set(i, 0, i as i32 + 1);
    }
    let result = matrix_c.mul_matrix(&matrix_d);
    assert_eq!(result.rows(), 1);
    assert_eq!(result.cols(), 1);
    assert_eq!(result.get(0, 0), 14); // 1*1 + 2*2 + 3*3

    // Single col (3 x 1) * (1 x 3)
    let result = matrix_d.mul_matrix(&matrix_c);
    assert_eq!(result.rows(), 3);
    assert_eq!(result.cols(), 3);
    for i in 0..3 {
        for j in 0..3 {
            assert_eq!(result.get(i, j), (i as i32 + 1) * (j as i32 + 1));
        }
    }
}

#[test]
fn test_inverse_identity_scaled() {
    // over integers a diagonal matrix of ones inverts to itself
    let mut matrix = Matrix::new(2, 2);
    matrix.set(0, 0, 1);
    matrix.set(1, 1, 1);

    let inverse = matrix.inverse();
    assert!(inverse.is_some());
    let inverse = inverse.unwrap();
    assert_eq!(inverse.rows(), 2);
    assert_eq!(inverse.cols(), 2);
    assert_eq!(inverse.get(0, 0), 1);
    assert_eq!(inverse.get(0, 1), 0);
    assert_eq!(inverse.get(1, 0), 0);
    assert_eq!(inverse.get(1, 1), 1);
}

#[test]
fn test_inverse_singular() {
    // a zero pivot column stops the elimination
    let matrix = Matrix::new(2, 2);
    assert!(matrix.inverse().is_none());
}

#[test]
fn test_as_slices() {
    let mut matrix = Matrix::new(1, 2);
    matrix.set(0, 1, 7);
    assert_eq!(matrix.as_slice(), &[0, 7]);
    matrix.as_mut_slice()[0] = 3;
    assert_eq!(matrix.get(0, 0), 3);
}
