use cholesky::dense::DenseMatrix;
use cholesky::errors::LinAlgError;
use cholesky::scalar::Scalar;
use cholesky::solve::solve;
use cholesky::sparse::{convert_file_csr, Matrix};

/// Double precision wrapped as a scalar for the verified kernels.
#[derive(Clone, Copy, Debug, PartialEq)]
struct F64(f64);

impl Scalar for F64 {
    fn zero() -> F64 {
        F64(0.0)
    }

    fn plus(self, other: F64) -> F64 {
        F64(self.0 + other.0)
    }

    fn minus(self, other: F64) -> F64 {
        F64(self.0 - other.0)
    }

    fn times(self, other: F64) -> F64 {
        F64(self.0 * other.0)
    }

    fn divide(self, other: F64) -> F64 {
        F64(self.0 / other.0)
    }

    fn sqrt(self) -> F64 {
        F64(self.0.sqrt())
    }

    fn abs(self) -> F64 {
        F64(self.0.abs())
    }

    fn lt(self, other: F64) -> bool {
        self.0 < other.0
    }

    fn is_zero(self) -> bool {
        self.0 == 0.0
    }

    fn is_positive(self) -> bool {
        self.0 > 0.0
    }

    fn from_text(t: &[char]) -> Option<F64> {
        let s: String = t.iter().collect();
        s.parse::<f64>().ok().map(F64)
    }
}

fn fmat(rows: usize, columns: usize, cells: &[f64]) -> DenseMatrix<F64> {
    assert_eq!(cells.len(), rows * columns);
    DenseMatrix { rows, columns, data: cells.iter().map(|v| F64(*v)).collect() }
}

fn cell(m: &DenseMatrix<F64>, row: usize, col: usize) -> f64 {
    m.get(row, col).0
}

#[test]
fn test_convert_file_csr() {
    let input = vec![
        String::from("4 4 4"),
        String::from("1 1 1.0"),
        String::from("2 2 2.0"),
        String::from("3 3 3.0"),
        String::from("4 4 4.0"),
    ];

    let matrix: Matrix<F64> = convert_file_csr(input).unwrap();

    assert_eq!(matrix.rows, 4);
    assert_eq!(matrix.columns, 4);
    assert_eq!(matrix.nnz, 4);
    let values: Vec<f64> = matrix.values.iter().map(|v| v.0).collect();
    assert_eq!(values, vec![1.0, 2.0, 3.0, 4.0]);
    assert_eq!(matrix.col_indices, vec![0, 1, 2, 3]);
    assert_eq!(matrix.row_ptr, vec![0, 1, 2, 3, 4]);
}

#[test]
fn test_new() {
    let matrix: DenseMatrix<F64> = DenseMatrix::new(3, 3);

    assert_eq!(matrix.rows, 3);
    assert_eq!(matrix.columns, 3);

    for i in 0..matrix.rows {
        for j in 0..matrix.columns {
            assert_eq!(cell(&matrix, i, j), 0.0);
        }
    }
}

#[test]
fn test_set() {
    let mut matrix: DenseMatrix<F64> = DenseMatrix::new(3, 3);

    matrix.set(0, 0, F64(1.0));
    matrix.set(1, 1, F64(2.0));
    matrix.set(2, 2, F64(3.0));

    assert_eq!(cell(&matrix, 0, 0), 1.0);
    assert_eq!(cell(&matrix, 1, 1), 2.0);
    assert_eq!(cell(&matrix, 2, 2), 3.0);

    assert_eq!(cell(&matrix, 0, 1), 0.0);
    assert_eq!(cell(&matrix, 1, 0), 0.0);
    assert_eq!(cell(&matrix, 2, 1), 0.0);
}

#[test]
fn test_get() {
    let mut matrix: DenseMatrix<F64> = DenseMatrix::new(3, 3);

    matrix.set(0, 0, F64(5.0));
    matrix.set(1, 1, F64(10.0));
    matrix.set(2, 2, F64(15.0));

    assert_eq!(cell(&matrix, 0, 0), 5.0);
    assert_eq!(cell(&matrix, 1, 1), 10.0);
    assert_eq!(cell(&matrix, 2, 2), 15.0);

    assert_eq!(cell(&matrix, 0, 1), 0.0);
}

#[test]
fn test_to_dense() {
    let sparse_matrix = Matrix {
        rows: 3,
        columns: 3,
        nnz: 3,
        values: vec![F64(1.0), F64(2.0), F64(3.0)],
        col_indices: vec![0, 1, 2],
        row_ptr: vec![0, 1, 2, 3],
    };

    let dense_matrix = sparse_matrix.to_dense();

    assert_eq!(dense_matrix.rows, 3);
    assert_eq!(dense_matrix.columns, 3);

    assert_eq!(cell(&dense_matrix, 0, 0), 1.0);
    assert_eq!(cell(&dense_matrix, 1, 1), 2.0);
    assert_eq!(cell(&dense_matrix, 2, 2), 3.0);

    assert_eq!(cell(&dense_matrix, 0, 1), 0.0);
    assert_eq!(cell(&dense_matrix, 0, 2), 0.0);
    assert_eq!(cell(&dense_matrix, 1, 0), 0.0);
    assert_eq!(cell(&dense_matrix, 2, 0), 0.0);
    assert_eq!(cell(&dense_matrix, 2, 1), 0.0);
}

#[test]
fn test_set_2x3() {
    let mut matrix: DenseMatrix<F64> = DenseMatrix::new(2, 3);

    matrix.set(0, 0, F64(1.0));
    matrix.set(0, 1, F64(2.0));
    matrix.set(0, 2, F64(3.0));
    matrix.set(1, 0, F64(4.0));
    matrix.set(1, 1, F64(5.0));
    matrix.set(1, 2, F64(6.0));

    assert_eq!(cell(&matrix, 0, 0), 1.0);
    assert_eq!(cell(&matrix, 0, 1), 2.0);
    assert_eq!(cell(&matrix, 0, 2), 3.0);
    assert_eq!(cell(&matrix, 1, 0), 4.0);
    assert_eq!(cell(&matrix, 1, 1), 5.0);
    assert_eq!(cell(&matrix, 1, 2), 6.0);
}

#[test]
fn test_set_and_get_1x1() {
    let mut matrix: DenseMatrix<F64> = DenseMatrix::new(1, 1);
    matrix.set(0, 0, F64(10.0));

    assert_eq!(cell(&matrix, 0, 0), 10.0);
}

#[test]
fn test_set_and_get_2x2() {
    let mut matrix: DenseMatrix<F64> = DenseMatrix::new(2, 2);

    matrix.set(0, 0, F64(1.0));
    matrix.set(0, 1, F64(2.0));
    matrix.set(1, 0, F64(3.0));
    matrix.set(1, 1, F64(4.0));

    assert_eq!(cell(&matrix, 0, 0), 1.0);
    assert_eq!(cell(&matrix, 0, 1), 2.0);
    assert_eq!(cell(&matrix, 1, 0), 3.0);
    assert_eq!(cell(&matrix, 1, 1), 4.0);
}

#[test]
fn test_set_and_get_3x3() {
    let mut matrix: DenseMatrix<F64> = DenseMatrix::new(3, 3);

    matrix.set(0, 0, F64(1.0));
    matrix.set(0, 1, F64(2.0));
    matrix.set(0, 2, F64(3.0));
    matrix.set(1, 0, F64(4.0));
    matrix.set(1, 1, F64(5.0));
    matrix.set(1, 2, F64(6.0));
    matrix.set(2, 0, F64(7.0));
    matrix.set(2, 1, F64(8.0));
    matrix.set(2, 2, F64(9.0));

    assert_eq!(cell(&matrix, 0, 0), 1.0);
    assert_eq!(cell(&matrix, 0, 1), 2.0);
    assert_eq!(cell(&matrix, 0, 2), 3.0);
    assert_eq!(cell(&matrix, 1, 0), 4.0);
    assert_eq!(cell(&matrix, 1, 1), 5.0);
    assert_eq!(cell(&matrix, 1, 2), 6.0);
    assert_eq!(cell(&matrix, 2, 0), 7.0);
    assert_eq!(cell(&matrix, 2, 1), 8.0);
    assert_eq!(cell(&matrix, 2, 2), 9.0);
}

#[test]
fn test_set_and_get_edges() {
    let mut matrix: DenseMatrix<F64> = DenseMatrix::new(3, 3);

    matrix.set(0, 0, F64(1.0));
    matrix.set(0, 2, F64(3.0));
    matrix.set(2, 0, F64(7.0));
    matrix.set(2, 2, F64(9.0));

    assert_eq!(cell(&matrix, 0, 0), 1.0);
    assert_eq!(cell(&matrix, 0, 2), 3.0);
    assert_eq!(cell(&matrix, 2, 0), 7.0);
    assert_eq!(cell(&matrix, 2, 2), 9.0);
}

#[test]
fn test_transpose_2x2() {
    let mut matrix: DenseMatrix<F64> = DenseMatrix::new(2, 2);

    matrix.set(0, 0, F64(1.0));
    matrix.set(0, 1, F64(2.0));
    matrix.set(1, 0, F64(3.0));
    matrix.set(1, 1, F64(4.0));

    let transposed = matrix.transpose_conjugate();

    assert_eq!(cell(&transposed, 0, 0), 1.0);
    assert_eq!(cell(&transposed, 0, 1), 3.0);
    assert_eq!(cell(&transposed, 1, 0), 2.0);
    assert_eq!(cell(&transposed, 1, 1), 4.0);
}

#[test]
fn test_transpose_conjugate_3x2() {
    let mut matrix: DenseMatrix<F64> = DenseMatrix::new(3, 2);

    matrix.set(0, 0, F64(1.0));
    matrix.set(0, 1, F64(2.0));
    matrix.set(1, 0, F64(3.0));
    matrix.set(1, 1, F64(4.0));
    matrix.set(2, 0, F64(5.0));
    matrix.set(2, 1, F64(6.0));

    let transposed = matrix.transpose_conjugate();

    assert_eq!(cell(&transposed, 0, 0), 1.0);
    assert_eq!(cell(&transposed, 1, 0), 2.0);
    assert_eq!(cell(&transposed, 0, 1), 3.0);
    assert_eq!(cell(&transposed, 1, 1), 4.0);
    assert_eq!(cell(&transposed, 0, 2), 5.0);
    assert_eq!(cell(&transposed, 1, 2), 6.0);
}

#[test]
fn test_get_2x3() {
    let mut matrix: DenseMatrix<F64> = DenseMatrix::new(2, 3);

    matrix.set(0, 0, F64(1.0));
    matrix.set(0, 1, F64(2.0));
    matrix.set(0, 2, F64(3.0));
    matrix.set(1, 0, F64(4.0));
    matrix.set(1, 1, F64(5.0));
    matrix.set(1, 2, F64(6.0));

    assert_eq!(cell(&matrix, 0, 0), 1.0);
    assert_eq!(cell(&matrix, 0, 1), 2.0);
    assert_eq!(cell(&matrix, 0, 2), 3.0);
    assert_eq!(cell(&matrix, 1, 0), 4.0);
    assert_eq!(cell(&matrix, 1, 1), 5.0);
    assert_eq!(cell(&matrix, 1, 2), 6.0);
}

#[test]
fn test_transpose_conjugate_2x3() {
    let mut matrix: DenseMatrix<F64> = DenseMatrix::new(2, 3);

    matrix.set(0, 0, F64(1.0));
    matrix.set(0, 1, F64(2.0));
    matrix.set(0, 2, F64(3.0));
    matrix.set(1, 0, F64(4.0));
    matrix.set(1, 1, F64(5.0));
    matrix.set(1, 2, F64(6.0));

    let transposed = matrix.transpose_conjugate();

    println!("{:?}", matrix.data);
    println!("{:?}", transposed.data);

    assert_eq!(cell(&transposed, 0, 0), 1.0);
    assert_eq!(cell(&transposed, 0, 1), 4.0);
    assert_eq!(cell(&transposed, 1, 0), 2.0);
    assert_eq!(cell(&transposed, 1, 1), 5.0);
    assert_eq!(cell(&transposed, 2, 0), 3.0);
    assert_eq!(cell(&transposed, 2, 1), 6.0);
}

#[test]
fn test_matmul_2x2() {
    let mut matrix_a: DenseMatrix<F64> = DenseMatrix::new(2, 2);
    matrix_a.set(0, 0, F64(1.0));
    matrix_a.set(0, 1, F64(2.0));
    matrix_a.set(1, 0, F64(3.0));
    matrix_a.set(1, 1, F64(4.0));

    let mut matrix_b: DenseMatrix<F64> = DenseMatrix::new(2, 2);
    matrix_b.set(0, 0, F64(2.0));
    matrix_b.set(0, 1, F64(0.0));
    matrix_b.set(1, 0, F64(1.0));
    matrix_b.set(1, 1, F64(2.0));

    let result = matrix_a.matmul(&matrix_b).unwrap();

    assert_eq!(cell(&result, 0, 0), 4.0);
    assert_eq!(cell(&result, 0, 1), 4.0);
    assert_eq!(cell(&result, 1, 0), 10.0);
    assert_eq!(cell(&result, 1, 1), 8.0);
}

#[test]
fn test_matmul_3x2_2x3() {
    let mut matrix_a: DenseMatrix<F64> = DenseMatrix::new(3, 2);
    matrix_a.set(0, 0, F64(1.0));
    matrix_a.set(0, 1, F64(2.0));
    matrix_a.set(1, 0, F64(3.0));
    matrix_a.set(1, 1, F64(4.0));
    matrix_a.set(2, 0, F64(5.0));
    matrix_a.set(2, 1, F64(6.0));

    let mut matrix_b: DenseMatrix<F64> = DenseMatrix::new(2, 3);
    matrix_b.set(0, 0, F64(7.0));
    matrix_b.set(0, 1, F64(8.0));
    matrix_b.set(0, 2, F64(9.0));
    matrix_b.set(1, 0, F64(10.0));
    matrix_b.set(1, 1, F64(11.0));
    matrix_b.set(1, 2, F64(12.0));

    let result = matrix_a.matmul(&matrix_b).unwrap();

    assert_eq!(cell(&result, 0, 0), 27.0);
    assert_eq!(cell(&result, 0, 1), 30.0);
    assert_eq!(cell(&result, 0, 2), 33.0);
    assert_eq!(cell(&result, 1, 0), 61.0);
    assert_eq!(cell(&result, 1, 1), 68.0);
    assert_eq!(cell(&result, 1, 2), 75.0);
    assert_eq!(cell(&result, 2, 0), 95.0);
    assert_eq!(cell(&result, 2, 1), 106.0);
    assert_eq!(cell(&result, 2, 2), 117.0);
}

#[test]
fn test_matmul_1x3_3x1() {
    let mut matrix_a: DenseMatrix<F64> = DenseMatrix::new(1, 3);
    matrix_a.set(0, 0, F64(1.0));
    matrix_a.set(0, 1, F64(2.0));
    matrix_a.set(0, 2, F64(3.0));

    let mut matrix_b: DenseMatrix<F64> = DenseMatrix::new(3, 1);
    matrix_b.set(0, 0, F64(4.0));
    matrix_b.set(1, 0, F64(5.0));
    matrix_b.set(2, 0, F64(6.0));

    let result = matrix_a.matmul(&matrix_b).unwrap();

    assert_eq!(cell(&result, 0, 0), 32.0);
}

#[test]
fn test_subtract_2x2() {
    let mut matrix_a: DenseMatrix<F64> = DenseMatrix::new(2, 2);
    matrix_a.set(0, 0, F64(5.0));
    matrix_a.set(0, 1, F64(6.0));
    matrix_a.set(1, 0, F64(7.0));
    matrix_a.set(1, 1, F64(8.0));

    let mut matrix_b: DenseMatrix<F64> = DenseMatrix::new(2, 2);
    matrix_b.set(0, 0, F64(1.0));
    matrix_b.set(0, 1, F64(2.0));
    matrix_b.set(1, 0, F64(3.0));
    matrix_b.set(1, 1, F64(4.0));

    let result = matrix_a.subtract(&matrix_b).unwrap();

    assert_eq!(cell(&result, 0, 0), 4.0);
    assert_eq!(cell(&result, 0, 1), 4.0);
    assert_eq!(cell(&result, 1, 0), 4.0);
    assert_eq!(cell(&result, 1, 1), 4.0);
}

#[test]
fn test_subtract_3x3() {
    let mut matrix_a: DenseMatrix<F64> = DenseMatrix::new(3, 3);
    matrix_a.set(0, 0, F64(9.0));
    matrix_a.set(0, 1, F64(8.0));
    matrix_a.set(0, 2, F64(7.0));
    matrix_a.set(1, 0, F64(6.0));
    matrix_a.set(1, 1, F64(5.0));
    matrix_a.set(1, 2, F64(4.0));
    matrix_a.set(2, 0, F64(3.0));
    matrix_a.set(2, 1, F64(2.0));
    matrix_a.set(2, 2, F64(1.0));

    let mut matrix_b: DenseMatrix<F64> = DenseMatrix::new(3, 3);
    matrix_b.set(0, 0, F64(1.0));
    matrix_b.set(0, 1, F64(2.0));
    matrix_b.set(0, 2, F64(3.0));
    matrix_b.set(1, 0, F64(4.0));
    matrix_b.set(1, 1, F64(5.0));
    matrix_b.set(1, 2, F64(6.0));
    matrix_b.set(2, 0, F64(7.0));
    matrix_b.set(2, 1, F64(8.0));
    matrix_b.set(2, 2, F64(9.0));

    let result = matrix_a.subtract(&matrix_b).unwrap();

    assert_eq!(cell(&result, 0, 0), 8.0);
    assert_eq!(cell(&result, 0, 1), 6.0);
    assert_eq!(cell(&result, 0, 2), 4.0);
    assert_eq!(cell(&result, 1, 0), 2.0);
    assert_eq!(cell(&result, 1, 1), 0.0);
    assert_eq!(cell(&result, 1, 2), -2.0);
    assert_eq!(cell(&result, 2, 0), -4.0);
    assert_eq!(cell(&result, 2, 1), -6.0);
    assert_eq!(cell(&result, 2, 2), -8.0);
}

#[test]
fn test_subtract_1x1() {
    let mut matrix_a: DenseMatrix<F64> = DenseMatrix::new(1, 1);
    matrix_a.set(0, 0, F64(10.0));

    let mut matrix_b: DenseMatrix<F64> = DenseMatrix::new(1, 1);
    matrix_b.set(0, 0, F64(5.0));

    let result = matrix_a.subtract(&matrix_b).unwrap();

    assert_eq!(cell(&result, 0, 0), 5.0);
}

#[test]
fn test_subtract_2x3() {
    let mut matrix_a: DenseMatrix<F64> = DenseMatrix::new(2, 3);
    matrix_a.set(0, 0, F64(1.0));
    matrix_a.set(0, 1, F64(2.0));
    matrix_a.set(0, 2, F64(3.0));
    matrix_a.set(1, 0, F64(4.0));
    matrix_a.set(1, 1, F64(5.0));
    matrix_a.set(1, 2, F64(6.0));

    let mut matrix_b: DenseMatrix<F64> = DenseMatrix::new(2, 3);
    matrix_b.set(0, 0, F64(6.0));
    matrix_b.set(0, 1, F64(5.0));
    matrix_b.set(0, 2, F64(4.0));
    matrix_b.set(1, 0, F64(3.0));
    matrix_b.set(1, 1, F64(2.0));
    matrix_b.set(1, 2, F64(1.0));

    let result = matrix_a.subtract(&matrix_b).unwrap();

    assert_eq!(cell(&result, 0, 0), -5.0);
    assert_eq!(cell(&result, 0, 1), -3.0);
    assert_eq!(cell(&result, 0, 2), -1.0);
    assert_eq!(cell(&result, 1, 0), 1.0);
    assert_eq!(cell(&result, 1, 1), 3.0);
    assert_eq!(cell(&result, 1, 2), 5.0);
}

#[test]
fn test_cholesky_2x2() {
    let mut matrix: DenseMatrix<F64> = DenseMatrix::new(2, 2);
    matrix.set(0, 0, F64(4.0));
    matrix.set(0, 1, F64(12.0));
    matrix.set(1, 0, F64(12.0));
    matrix.set(1, 1, F64(37.0));

    let l = matrix.cholesky().expect("Cholesky decomposition failed");

    let tolerance = 1e-6;
    assert!((cell(&l, 0, 0) - 2.0).abs() < tolerance);
    assert!((cell(&l, 0, 1) - 0.0).abs() < tolerance);
    assert!((cell(&l, 1, 0) - 6.0).abs() < tolerance);
    assert!((cell(&l, 1, 1) - 1.0).abs() < tolerance);
}

#[test]
fn test_cholesky_3x3() {
    let mut matrix: DenseMatrix<F64> = DenseMatrix::new(3, 3);
    matrix.set(0, 0, F64(25.0));
    matrix.set(0, 1, F64(15.0));
    matrix.set(0, 2, F64(-5.0));
    matrix.set(1, 0, F64(15.0));
    matrix.set(1, 1, F64(18.0));
    matrix.set(1, 2, F64(0.0));
    matrix.set(2, 0, F64(-5.0));
    matrix.set(2, 1, F64(0.0));
    matrix.set(2, 2, F64(11.0));

    let l = matrix.cholesky().expect("Cholesky decomposition failed");

    let tolerance = 1e-6;
    assert!((cell(&l, 0, 0) - 5.0).abs() < tolerance);
    assert!((cell(&l, 0, 1) - 0.0).abs() < tolerance);
    assert!((cell(&l, 0, 2) - 0.0).abs() < tolerance);
    assert!((cell(&l, 1, 0) - 3.0).abs() < tolerance);
    assert!((cell(&l, 1, 1) - 3.0).abs() < tolerance);
    assert!((cell(&l, 1, 2) - 0.0).abs() < tolerance);
    assert!((cell(&l, 2, 0) - -1.0).abs() < tolerance);
    assert!((cell(&l, 2, 1) - 1.0).abs() < tolerance);
    assert!((cell(&l, 2, 2) - 3.0).abs() < tolerance);
}

#[test]
fn test_cholesky_4x4() {
    let mut matrix: DenseMatrix<F64> = DenseMatrix::new(4, 4);
    matrix.set(0, 0, F64(16.0));
    matrix.set(0, 1, F64(24.0));
    matrix.set(0, 2, F64(8.0));
    matrix.set(0, 3, F64(4.0));
    matrix.set(1, 0, F64(24.0));
    matrix.set(1, 1, F64(61.0));
    matrix.set(1, 2, F64(25.0));
    matrix.set(1, 3, F64(10.0));
    matrix.set(2, 0, F64(8.0));
    matrix.set(2, 1, F64(25.0));
    matrix.set(2, 2, F64(26.0));
    matrix.set(2, 3, F64(5.0));
    matrix.set(3, 0, F64(4.0));
    matrix.set(3, 1, F64(10.0));
    matrix.set(3, 2, F64(5.0));
    matrix.set(3, 3, F64(6.0));

    let l = matrix.cholesky().expect("Cholesky decomposition failed");

    let tolerance = 1e1;
    assert!((cell(&l, 0, 0) - 4.0).abs() < tolerance);
    assert!((cell(&l, 0, 1) - 0.0).abs() < tolerance);
    assert!((cell(&l, 0, 2) - 0.0).abs() < tolerance);
    assert!((cell(&l, 0, 3) - 0.0).abs() < tolerance);
    assert!((cell(&l, 1, 0) - 6.0).abs() < tolerance);
    assert!((cell(&l, 1, 1) - 5.0).abs() < tolerance);
    assert!((cell(&l, 1, 2) - 0.0).abs() < tolerance);
    assert!((cell(&l, 1, 3) - 0.0).abs() < tolerance);
    assert!((cell(&l, 2, 0) - 2.0).abs() < tolerance);
    assert!((cell(&l, 2, 1) - 3.0).abs() < tolerance);
    assert!((cell(&l, 2, 2) - 3.0).abs() < tolerance);
    assert!((cell(&l, 2, 3) - 0.0).abs() < tolerance);
    assert!((cell(&l, 3, 0) - 1.0).abs() < tolerance);
    assert!((cell(&l, 3, 1) - 1.0).abs() < tolerance);
    assert!((cell(&l, 3, 2) - 1.0).abs() < tolerance);
    assert!((cell(&l, 3, 3) - 2.0).abs() < tolerance);
}

#[test]
fn test_non_positive_definite_matrix() {
    let matrix_data = vec![
        F64(1.0),
        F64(2.0),
        F64(3.0),
        F64(2.0),
        F64(-1.0),
        F64(4.0),
        F64(3.0),
        F64(4.0),
        F64(1.0),
    ];

    let matrix = DenseMatrix { rows: 3, columns: 3, data: matrix_data };

    let result = matrix.cholesky();

    assert!(result.is_err(), "Expected an error due to non-positive definite matrix");
    if let Err(err) = result {
        assert!(
            err.message().contains("The matrix is not positive definite"),
            "Error message should mention positive definite condition"
        );
    }
}

#[test]
fn test_forward_substitution() {
    let mut l: DenseMatrix<F64> = DenseMatrix::new(3, 3);
    l.set(0, 0, F64(2.0));
    l.set(1, 0, F64(3.0));
    l.set(1, 1, F64(4.0));
    l.set(2, 0, F64(1.0));
    l.set(2, 1, F64(2.0));
    l.set(2, 2, F64(5.0));

    let mut b: DenseMatrix<F64> = DenseMatrix::new(3, 1);
    b.set(0, 0, F64(4.0));
    b.set(1, 0, F64(10.0));
    b.set(2, 0, F64(7.0));

    let x = l.forward_substitution(&b).unwrap();

    let tolerance = 1e0;
    assert!((cell(&x, 0, 0) - 2.0).abs() < tolerance);
    assert!((cell(&x, 1, 0) - 1.0).abs() < tolerance);
    assert!((cell(&x, 2, 0) - 1.0).abs() < tolerance);
}

#[test]
fn test_backward_substitution() {
    let mut u: DenseMatrix<F64> = DenseMatrix::new(3, 3);
    u.set(0, 0, F64(2.0));
    u.set(0, 1, F64(3.0));
    u.set(0, 2, F64(1.0));
    u.set(1, 1, F64(4.0));
    u.set(1, 2, F64(2.0));
    u.set(2, 2, F64(5.0));

    let mut b: DenseMatrix<F64> = DenseMatrix::new(3, 1);
    b.set(0, 0, F64(5.0));
    b.set(1, 0, F64(6.0));
    b.set(2, 0, F64(7.0));

    let x = u.backward_substitution(&b).unwrap();

    let tolerance = 1e1;
    assert!((cell(&x, 0, 0) - (-1.0)).abs() < tolerance);
    assert!((cell(&x, 1, 0) - 1.0).abs() < tolerance);
    assert!((cell(&x, 2, 0) - 1.4).abs() < tolerance);
}

#[test]
fn test_norms_of_zero_difference() {
    let a = fmat(2, 2, &[1.5, -2.0, 3.25, 0.0]);
    let b = fmat(2, 2, &[1.5, -2.0, 3.25, 0.0]);

    assert_eq!(a.max_norm(&b).unwrap().0, 0.0);
    assert_eq!(a.euclidean_norm(&b).unwrap().0, 0.0);
}

#[test]
fn test_norms_of_difference() {
    let a = fmat(2, 1, &[3.0, 4.0]);
    let b = fmat(2, 1, &[0.0, 0.0]);

    assert_eq!(a.max_norm(&b).unwrap().0, 4.0);
    assert_eq!(a.euclidean_norm(&b).unwrap().0, 5.0);
}

#[test]
fn test_norms_of_empty() {
    let a: DenseMatrix<F64> = DenseMatrix::new(0, 0);
    let b: DenseMatrix<F64> = DenseMatrix::new(0, 0);

    assert_eq!(a.max_norm(&b).unwrap().0, 0.0);
    assert_eq!(a.euclidean_norm(&b).unwrap().0, 0.0);
}

#[test]
fn test_norm_dimension_mismatch() {
    let a = fmat(2, 1, &[3.0, 4.0]);
    let b = fmat(1, 2, &[3.0, 4.0]);

    assert_eq!(a.max_norm(&b), Err(LinAlgError::DimensionMismatch));
    assert_eq!(a.euclidean_norm(&b), Err(LinAlgError::DimensionMismatch));
}

#[test]
fn test_matmul_dimension_mismatch() {
    let a = fmat(2, 2, &[1.0, 2.0, 3.0, 4.0]);
    let b = fmat(3, 1, &[1.0, 2.0, 3.0]);

    assert!(matches!(a.matmul(&b), Err(LinAlgError::DimensionMismatch)));
}

#[test]
fn test_subtract_dimension_mismatch() {
    let a = fmat(2, 2, &[1.0, 2.0, 3.0, 4.0]);
    let b = fmat(2, 3, &[1.0, 2.0, 3.0, 4.0, 5.0, 6.0]);

    assert!(matches!(a.subtract(&b), Err(LinAlgError::DimensionMismatch)));
}

#[test]
fn test_cholesky_not_square() {
    let a = fmat(2, 3, &[1.0, 0.0, 0.0, 0.0, 1.0, 0.0]);

    assert!(matches!(a.cholesky(), Err(LinAlgError::DimensionMismatch)));
}

#[test]
fn test_forward_substitution_singular() {
    let l = fmat(2, 2, &[2.0, 0.0, 1.0, 0.0]);
    let b = fmat(2, 1, &[4.0, 2.0]);

    assert!(matches!(l.forward_substitution(&b), Err(LinAlgError::SingularSystem(1))));
}

#[test]
fn test_backward_substitution_singular() {
    let u = fmat(2, 2, &[0.0, 1.0, 0.0, 3.0]);
    let b = fmat(2, 1, &[4.0, 2.0]);

    assert!(matches!(u.backward_substitution(&b), Err(LinAlgError::SingularSystem(0))));
}

#[test]
fn test_substitution_dimension_mismatch() {
    let l = fmat(2, 2, &[1.0, 0.0, 0.0, 1.0]);
    let b = fmat(3, 1, &[1.0, 2.0, 3.0]);

    assert!(matches!(l.forward_substitution(&b), Err(LinAlgError::DimensionMismatch)));
    assert!(matches!(l.backward_substitution(&b), Err(LinAlgError::DimensionMismatch)));
}

#[test]
fn test_convert_rejects_bad_value() {
    let input = vec![String::from("1 1 1"), String::from("1 1 abc")];

    assert!(matches!(convert_file_csr::<F64>(input), Err(LinAlgError::ParseError)));
}

#[test]
fn test_convert_rejects_zero_index() {
    let input = vec![String::from("2 2 1"), String::from("0 1 5.0")];

    assert!(matches!(convert_file_csr::<F64>(input), Err(LinAlgError::IndexOutOfRange)));
}

#[test]
fn test_convert_rejects_out_of_bounds() {
    let input = vec![String::from("2 2 1"), String::from("1 3 5.0")];

    assert!(matches!(convert_file_csr::<F64>(input), Err(LinAlgError::IndexOutOfRange)));
}

#[test]
fn test_convert_rejects_nnz_mismatch() {
    let input = vec![String::from("2 2 3"), String::from("1 1 5.0")];

    assert!(matches!(convert_file_csr::<F64>(input), Err(LinAlgError::ParseError)));
}

#[test]
fn test_convert_rejects_short_header() {
    let input = vec![String::from("2 2")];

    assert!(matches!(convert_file_csr::<F64>(input), Err(LinAlgError::ParseError)));

    let empty: Vec<String> = Vec::new();
    assert!(matches!(convert_file_csr::<F64>(empty), Err(LinAlgError::ParseError)));
}

#[test]
fn test_convert_unsorted_rows() {
    let input = vec![
        String::from("2 2 2"),
        String::from("2 1 5.0"),
        String::from("1 2 7.0"),
    ];

    let m: Matrix<F64> = convert_file_csr(input).unwrap();

    assert_eq!(m.row_ptr, vec![0, 1, 2]);
    assert_eq!(m.col_indices, vec![1, 0]);
    let values: Vec<f64> = m.values.iter().map(|v| v.0).collect();
    assert_eq!(values, vec![7.0, 5.0]);

    let dense = m.to_dense();
    assert_eq!(cell(&dense, 0, 1), 7.0);
    assert_eq!(cell(&dense, 1, 0), 5.0);
    assert_eq!(cell(&dense, 0, 0), 0.0);
    assert_eq!(cell(&dense, 1, 1), 0.0);
}

#[test]
fn test_diagonal_scenario() {
    let input = vec![
        String::from("3 3 3"),
        String::from("1 1 1.0"),
        String::from("2 2 2.0"),
        String::from("3 3 3.0"),
    ];

    let m: Matrix<F64> = convert_file_csr(input).unwrap();
    let dense = m.to_dense();

    for i in 0..3 {
        for j in 0..3 {
            let expected = if i == j { (i + 1) as f64 } else { 0.0 };
            assert_eq!(cell(&dense, i, j), expected);
        }
    }

    let bt = dense.transpose_conjugate();
    let bb = dense.matmul(&bt).unwrap();
    for i in 0..3 {
        for j in 0..3 {
            let expected = if i == j { ((i + 1) * (i + 1)) as f64 } else { 0.0 };
            assert_eq!(cell(&bb, i, j), expected);
        }
    }

    let l = bb.cholesky().unwrap();
    for i in 0..3 {
        for j in 0..3 {
            let expected = if i == j { (i + 1) as f64 } else { 0.0 };
            assert_eq!(cell(&l, i, j), expected);
        }
    }
}

#[test]
fn test_solve_diagonal() {
    let input = vec![
        String::from("3 3 3"),
        String::from("1 1 1.0"),
        String::from("2 2 2.0"),
        String::from("3 3 3.0"),
    ];

    let m: Matrix<F64> = convert_file_csr(input).unwrap();
    let (mn, en) = solve(&m, F64(1.0)).unwrap();

    // B = diag(1, 4, 9), so x = (1, 1/4, 1/9) and the residual of
    // A x - b is (0, -1/2, -2/3): max norm 2/3, Euclidean norm 5/6.
    assert!((mn.0 - 2.0 / 3.0).abs() < 1e-12);
    assert!((en.0 - 5.0 / 6.0).abs() < 1e-12);
}

#[test]
fn test_solve_not_positive_definite() {
    let input = vec![String::from("1 1 1"), String::from("1 1 0.0")];

    let m: Matrix<F64> = convert_file_csr(input).unwrap();

    assert_eq!(solve(&m, F64(1.0)), Err(LinAlgError::NotPositiveDefinite(0, 0)));
}

#[test]
fn test_error_messages() {
    assert!(LinAlgError::SingularSystem(2).message().contains("cannot be zero"));
    assert!(LinAlgError::DimensionMismatch.message().contains("Dimension mismatch"));
    assert!(LinAlgError::ParseError.message().contains("parsing"));
    assert!(LinAlgError::IndexOutOfRange.message().contains("out of range"));
}

#[test]
fn test_integer_scalar_ops() {
    assert_eq!(<i64 as Scalar>::zero(), 0);
    assert_eq!(7i64.plus(5), 12);
    assert_eq!(i64::MAX.plus(1), i64::MAX);
    assert_eq!(i64::MIN.minus(1), i64::MIN);
    assert_eq!((3i64).times(-4), -12);
    assert_eq!(i64::MAX.times(2), i64::MAX);
    assert_eq!((-17i64).divide(5), -3);
    assert_eq!((17i64).divide(0), 0);
    assert_eq!((16i64).sqrt(), 4);
    assert_eq!((17i64).sqrt(), 4);
    assert_eq!((0i64).sqrt(), 0);
    assert_eq!((-9i64).abs(), 9);
    assert!(1i64.lt(2));
    assert!(0i64.is_zero());
    assert!(3i64.is_positive());

    let t: Vec<char> = "-42".chars().collect();
    assert_eq!(<i64 as Scalar>::from_text(&t), Some(-42));
    let t2: Vec<char> = "9000000000000000000000".chars().collect();
    assert_eq!(<i64 as Scalar>::from_text(&t2), None);
    let t3: Vec<char> = "1.0".chars().collect();
    assert_eq!(<i64 as Scalar>::from_text(&t3), None);
}

#[test]
fn test_integer_cholesky_exact() {
    let mut matrix: DenseMatrix<i64> = DenseMatrix::new(2, 2);
    matrix.set(0, 0, 4);
    matrix.set(0, 1, 12);
    matrix.set(1, 0, 12);
    matrix.set(1, 1, 37);

    let l = matrix.cholesky().unwrap();

    assert_eq!(*l.get(0, 0), 2);
    assert_eq!(*l.get(0, 1), 0);
    assert_eq!(*l.get(1, 0), 6);
    assert_eq!(*l.get(1, 1), 1);
}
