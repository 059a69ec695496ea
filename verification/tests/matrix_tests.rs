use rust_aads::matrix::Matrix;

/// The matrix with the given rows
fn matrix_of(rows: &[&[i32]]) -> Matrix<i32> {
    let cols = if rows.is_empty() { 0 } else { rows[0].len() };
    let mut m: Matrix<i32> = Matrix::new(rows.len(), cols);
    for (r, row) in rows.iter().enumerate() {
        for (c, x) in row.iter().enumerate() {
            m.set(r, c, *x);
        }
    }
    m
}

/// The rows of a matrix of `rows` rows and `cols` columns
fn rows_of(m: &Matrix<i32>, rows: usize, cols: usize) -> Vec<Vec<i32>> {
    (0..rows).map(|r| (0..cols).map(|c| *m.get(r, c).unwrap()).collect()).collect()
}

#[test]
/// A new matrix holds the default value at every place and nothing beyond
fn new_matrix_holds_defaults() {
    let m: Matrix<i32> = Matrix::new(2, 3);
    for r in 0..2 {
        for c in 0..3 {
            assert_eq!(m.get(r, c), Some(&0));
        }
    }
    assert_eq!(m.get(2, 0), None);
    assert_eq!(m.get(0, 3), None);
    assert_eq!(m.get(5, 5), None);

    let words: Matrix<String> = Matrix::new(1, 2);
    assert_eq!(words.get(0, 1), Some(&String::new()));

    let empty: Matrix<i32> = Matrix::new(0, 4);
    assert_eq!(empty.get(0, 0), None);
}

#[test]
/// Elements are written and read by `set`, `get`, `access` and by index
fn element_access() {
    let mut m: Matrix<i32> = Matrix::new(2, 2);
    m.set(0, 1, 7);
    m.set(1, 0, -4);
    assert_eq!(rows_of(&m, 2, 2), vec![vec![0, 7], vec![-4, 0]]);

    *m.access(1, 1) = 9;
    *m.access(0, 1) += 1;
    assert_eq!(rows_of(&m, 2, 2), vec![vec![0, 8], vec![-4, 9]]);
    assert_eq!(*m.access(1, 0), -4);

    assert_eq!(m[0], vec![0, 8]);
    assert_eq!(m[1][1], 9);
    m[1][0] = 5;
    m[0] = vec![1, 2];
    assert_eq!(rows_of(&m, 2, 2), vec![vec![1, 2], vec![5, 9]]);
}

#[test]
/// A clone holds the same elements and does not follow later changes
fn clone_is_independent() {
    let mut m = matrix_of(&[&[1, 2], &[3, 4]]);
    let copy = m.clone();
    m.set(0, 0, 100);
    assert_eq!(rows_of(&copy, 2, 2), vec![vec![1, 2], vec![3, 4]]);
    assert_eq!(rows_of(&m, 2, 2), vec![vec![100, 2], vec![3, 4]]);
}

#[test]
/// Negation negates every element
fn negation() {
    let m = matrix_of(&[&[1, -2, 0], &[7, 8, -9]]);
    let negated = (-m).unwrap();
    assert_eq!(rows_of(&negated, 2, 3), vec![vec![-1, 2, 0], vec![-7, -8, 9]]);
    assert_eq!(negated.get(2, 0), None);
    assert_eq!(negated.get(0, 3), None);
}

#[test]
/// Addition adds place by place and fails on different shapes
fn addition() {
    let a = matrix_of(&[&[1, 2], &[3, 4], &[5, 6]]);
    let b = matrix_of(&[&[10, 20], &[30, 40], &[50, 60]]);
    let sum = (a + b).unwrap();
    assert_eq!(rows_of(&sum, 3, 2), vec![vec![11, 22], vec![33, 44], vec![55, 66]]);

    let a = matrix_of(&[&[1, 2], &[3, 4], &[5, 6]]);
    let c = matrix_of(&[&[1, 2, 3], &[4, 5, 6]]);
    assert!((a + c).is_none());

    let a = matrix_of(&[&[1, 2]]);
    let d = matrix_of(&[&[1, 2], &[3, 4]]);
    assert!((a + d).is_none());
}

#[test]
/// Subtraction subtracts place by place and fails on different shapes
fn subtraction() {
    let a = matrix_of(&[&[1, 2], &[3, 4]]);
    let b = matrix_of(&[&[10, 20], &[30, 50]]);
    let rest = (a - b).unwrap();
    assert_eq!(rows_of(&rest, 2, 2), vec![vec![-9, -18], vec![-27, -46]]);

    let a = matrix_of(&[&[1, 2], &[3, 4]]);
    let c = matrix_of(&[&[1], &[2]]);
    assert!((a - c).is_none());
}

#[test]
/// Multiplication by a scalar multiplies every element
fn scalar_multiplication() {
    let a = matrix_of(&[&[1, -2], &[3, 0]]);
    let scaled = a * 5;
    assert_eq!(rows_of(&scaled, 2, 2), vec![vec![5, -10], vec![15, 0]]);
}

#[test]
/// The product of two matrices is made of the sums of products of rows with columns
fn matrix_multiplication() {
    let a = matrix_of(&[&[1, 2, 3], &[4, 5, 6]]);
    let b = matrix_of(&[&[7, 8], &[9, 10], &[11, 12]]);
    let product = (a * b).unwrap();
    assert_eq!(rows_of(&product, 2, 2), vec![vec![58, 64], vec![139, 154]]);
    assert_eq!(product.get(2, 0), None);
    assert_eq!(product.get(0, 2), None);

    let a = matrix_of(&[&[1, 2], &[3, 4]]);
    let b = matrix_of(&[&[0, 1], &[1, 0]]);
    let ab = (a.clone() * b.clone()).unwrap();
    let ba = (b * a).unwrap();
    assert_eq!(rows_of(&ab, 2, 2), vec![vec![2, 1], vec![4, 3]]);
    assert_eq!(rows_of(&ba, 2, 2), vec![vec![3, 4], vec![1, 2]]);

    let a = matrix_of(&[&[2], &[3]]);
    let row = matrix_of(&[&[4, 5, 6]]);
    let outer = (a * row).unwrap();
    assert_eq!(rows_of(&outer, 2, 3), vec![vec![8, 10, 12], vec![12, 15, 18]]);
}

#[test]
/// The product fails where the columns of the one are not as many as the rows of the other
fn matrix_multiplication_of_unfit_shapes() {
    let a = matrix_of(&[&[1, 2, 3], &[4, 5, 6]]);
    let b = matrix_of(&[&[7, 8], &[9, 10]]);
    assert!((a * b).is_none());

    let a = matrix_of(&[&[1, 2]]);
    let b = matrix_of(&[&[1, 2]]);
    assert!((a * b).is_none());
}

#[test]
/// A matrix of which a row was shortened is not filled: the operations that need every
/// element fail, and multiplication by a scalar passes over what is missing
fn matrix_with_a_shortened_row() {
    let mut m = matrix_of(&[&[1, 2], &[3, 4]]);
    m[1].pop();
    assert_eq!(m.get(1, 1), None);
    assert_eq!(m.get(1, 0), Some(&3));
    assert!((-m.clone()).is_none());
    assert!((m.clone() + matrix_of(&[&[1, 1], &[1, 1]])).is_none());
    assert!((matrix_of(&[&[1, 1], &[1, 1]]) - m.clone()).is_none());
    assert!((m.clone() * matrix_of(&[&[1, 0], &[0, 1]])).is_none());

    let scaled = m * 3;
    assert_eq!(scaled.get(0, 0), Some(&3));
    assert_eq!(scaled.get(0, 1), Some(&6));
    assert_eq!(scaled.get(1, 0), Some(&9));
    assert_eq!(scaled.get(1, 1), None);
}

#[test]
/// A matrix of which a row was lengthened keeps what lies beyond its columns as it is
fn matrix_with_a_lengthened_row() {
    let mut m = matrix_of(&[&[1, 2], &[3, 4]]);
    m[0].push(50);
    let negated = (-m).unwrap();
    assert_eq!(negated.get(0, 0), Some(&-1));
    assert_eq!(negated.get(0, 1), Some(&-2));
    assert_eq!(negated.get(0, 2), Some(&50));
    assert_eq!(negated.get(1, 1), Some(&-4));
    assert_eq!(negated.get(1, 2), None);
}
