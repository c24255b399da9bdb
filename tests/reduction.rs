use linalg::field::{Equals, Field};
use linalg::matrix::Matrix;
use linalg::rational::Rational;
use linalg::reduction::MatrixError;

/// The exact fraction written by a decimal literal with at most nine decimals.
fn q(x: f64) -> Rational {
    let mut den: i64 = 1;
    while (x * den as f64).fract().abs() > 1e-9 && den < 1_000_000_000 {
        den *= 10;
    }
    Rational::new((x * den as f64).round() as i64, den)
}

fn to_f64(r: &Rational) -> f64 {
    assert!(r.is_defined());
    r.num as f64 / r.den as f64
}

fn close(r: &Rational, x: f64) -> bool {
    (to_f64(r) - x).abs() < 1e-6
}

fn matrix(rows: &[&[f64]]) -> Matrix<Rational> {
    Matrix::new(rows.iter().map(|r| r.iter().map(|x| q(*x)).collect()).collect())
}

fn matrix_is(m: &Matrix<Rational>, rows: &[&[f64]]) -> bool {
    m.data.len() == rows.len()
        && m.data.iter().zip(rows.iter()).all(|(row, exp)| {
            row.len() == exp.len() && row.iter().zip(exp.iter()).all(|(a, b)| close(a, *b))
        })
}

fn same(a: &Matrix<Rational>, b: &Matrix<Rational>) -> bool {
    a.data.len() == b.data.len()
        && a.data.iter().zip(b.data.iter()).all(|(x, y)| {
            x.len() == y.len() && x.iter().zip(y.iter()).all(|(s, t)| s.num == t.num && s.den == t.den)
        })
}

fn identity(n: usize) -> Matrix<Rational> {
    Matrix::new(
        (0..n)
            .map(|i| (0..n).map(|j| if i == j { Rational::one() } else { Rational::zero() }).collect())
            .collect(),
    )
}

/// Column of the first non-zero entry of each row (the row length for a zero row).
fn leads(m: &Matrix<Rational>) -> Vec<usize> {
    m.data.iter().map(|row| row.iter().position(|x| !x.is_zero()).unwrap_or(row.len())).collect()
}

#[test]
fn test_row_echelon() {
    let u = matrix(&[&[1., 0., 0.], &[0., 1., 0.], &[0., 0., 1.]]);
    assert!(matrix_is(&u.row_echelon(), &[&[1., 0., 0.], &[0., 1., 0.], &[0., 0., 1.]]));
    let u = matrix(&[&[1., 2.], &[3., 4.]]);
    assert!(matrix_is(&u.row_echelon(), &[&[1., 0.], &[0., 1.]]));
    let u = matrix(&[&[1., 2.], &[2., 4.]]);
    assert!(matrix_is(&u.row_echelon(), &[&[1., 2.], &[0., 0.]]));
    let u = matrix(&[&[8., 5., -2., 4., 28.], &[4., 2.5, 20., 4., -4.], &[8., 5., 1., 4., 17.]]);
    assert!(matrix_is(
        &u.row_echelon(),
        &[&[1., 0.625, 0., 0., -12.1666667], &[0., 0., 1., 0., -3.6666667], &[0., 0., 0., 1., 29.5]]
    ));
}

#[test]
fn row_echelon_leaves_input_alone() {
    let u = matrix(&[&[0., 2.], &[3., 4.]]);
    let before = u.clone();
    let _ = u.row_echelon();
    assert!(same(&u, &before));
}

#[test]
fn row_echelon_skips_zero_columns() {
    let u = matrix(&[&[0., 0., 2., 4.], &[0., 0., 1., 1.], &[0., 0., 0., 0.]]);
    let r = u.row_echelon();
    assert!(matrix_is(&r, &[&[0., 0., 1., 0.], &[0., 0., 0., 1.], &[0., 0., 0., 0.]]));
    assert_eq!(leads(&r), vec![2, 3, 4]);
}

#[test]
fn row_echelon_is_a_staircase() {
    let u = matrix(&[&[0., 1., 2., 3.], &[0., 2., 4., 6.], &[1., 1., 1., 1.], &[2., 0., 5., 0.]]);
    let l = leads(&u.row_echelon());
    let width = u.shape()[0];
    for i in 1..l.len() {
        assert!(l[i] == width || l[i - 1] < l[i]);
        assert!(l[i - 1] < width || l[i] == width);
    }
}

#[test]
fn row_echelon_of_the_zero_matrix() {
    let u = matrix(&[&[0., 0.], &[0., 0.]]);
    assert!(matrix_is(&u.row_echelon(), &[&[0., 0.], &[0., 0.]]));
}

#[test]
fn row_echelon_count_counts_exchanges() {
    let u = matrix(&[&[1., 2.], &[3., 4.]]);
    let mut swaps: usize = 0;
    let r = u.row_echelon_count(&mut swaps);
    assert_eq!(swaps, 1);
    assert!(matrix_is(&r, &[&[3., 4.], &[0., 2. / 3.]]));
    let mut more: usize = 5;
    let _ = matrix(&[&[4., 1.], &[1., 3.]]).row_echelon_count(&mut more);
    assert_eq!(more, 5);
}

#[test]
fn test_determinant() {
    let u = matrix(&[&[1., -1.], &[-1., 1.]]);
    assert!(close(&u.determinant(), 0.));
    let u = matrix(&[&[2., 0., 0.], &[0., 2., 0.], &[0., 0., 2.]]);
    assert!(close(&u.determinant(), 8.));
    let u = matrix(&[&[8., 5., -2.], &[4., 7., 20.], &[7., 6., 1.]]);
    assert!(close(&u.determinant(), -174.));
    let u = matrix(&[&[8., 5., -2., 4.], &[4., 2.5, 20., 4.], &[8., 5., 1., 4.], &[28., -4., 17., 1.]]);
    assert!(close(&u.determinant(), 1032.));
}

#[test]
fn determinant_changes_sign_when_rows_swap() {
    let a = matrix(&[&[8., 5., -2.], &[4., 7., 20.], &[7., 6., 1.]]);
    let b = matrix(&[&[4., 7., 20.], &[8., 5., -2.], &[7., 6., 1.]]);
    let c = matrix(&[&[7., 6., 1.], &[4., 7., 20.], &[8., 5., -2.]]);
    let d = a.determinant();
    assert!(b.determinant().equals(&d.neg()));
    assert!(c.determinant().equals(&d.neg()));
}

#[test]
fn determinant_is_multiplicative() {
    let a = matrix(&[&[8., 5., -2.], &[4., 7., 20.], &[7., 6., 1.]]);
    let b = matrix(&[&[2., 0., 1.], &[1., 3., 0.], &[0., -1., 4.]]);
    let ab = a.mul_mat(&b);
    assert!(ab.determinant().equals(&a.determinant().mul(&b.determinant())));
    let s = matrix(&[&[1., -1.], &[-1., 1.]]);
    let t = matrix(&[&[3., 1.], &[2., 5.]]);
    assert!(s.mul_mat(&t).determinant().is_zero());
}

#[test]
fn determinant_of_a_singular_matrix_with_zero_column() {
    let u = matrix(&[&[0., 1.], &[0., 3.]]);
    assert!(u.determinant().is_zero());
}

#[test]
fn test_inverse() {
    let u = matrix(&[&[1., 0., 0.], &[0., 1., 0.], &[0., 0., 1.]]);
    assert!(matrix_is(&u.inverse().unwrap(), &[&[1., 0., 0.], &[0., 1., 0.], &[0., 0., 1.]]));
    let u = matrix(&[&[2., 0., 0.], &[0., 2., 0.], &[0., 0., 2.]]);
    assert!(matrix_is(&u.inverse().unwrap(), &[&[0.5, 0., 0.], &[0., 0.5, 0.], &[0., 0., 0.5]]));
    let u = matrix(&[&[8., 5., -2.], &[4., 7., 20.], &[7., 6., 1.]]);
    assert!(matrix_is(
        &u.inverse().unwrap(),
        &[
            &[0.649425287, 0.097701149, -0.655172414],
            &[-0.781609195, -0.126436782, 0.965517241],
            &[0.143678161, 0.074712644, -0.206896552]
        ]
    ));
}

#[test]
fn inverse_round_trip() {
    let a = matrix(&[&[8., 5., -2.], &[4., 7., 20.], &[7., 6., 1.]]);
    let inv = a.inverse().unwrap();
    assert!(same(&a.mul_mat(&inv), &identity(3)));
    assert!(same(&inv.mul_mat(&a), &identity(3)));
    assert!(same(&inv.inverse().unwrap(), &a));
}

#[test]
fn inverse_of_singular_matrix_fails() {
    let u = matrix(&[&[1., 2.], &[2., 4.]]);
    assert_eq!(u.inverse().unwrap_err(), MatrixError::Singular);
    let z = matrix(&[&[0., 0.], &[0., 0.]]);
    assert_eq!(z.inverse().unwrap_err(), MatrixError::Singular);
}

#[test]
fn inverse_of_non_square_matrix_fails() {
    let u = matrix(&[&[1., 2., 3.], &[4., 5., 6.]]);
    assert_eq!(u.inverse().unwrap_err(), MatrixError::NotSquare);
}

#[test]
fn test_rank() {
    let u = matrix(&[&[1., 0., 0.], &[0., 1., 0.], &[0., 0., 1.]]);
    assert_eq!(3, u.rank());
    let u = matrix(&[&[1., 2., 0., 0.], &[2., 4., 0., 0.], &[-1., 2., 1., 1.]]);
    assert_eq!(2, u.rank());
    let u = matrix(&[&[8., 5., -2.], &[4., 7., 20.], &[7., 6., 1.], &[21., 18., 7.]]);
    assert_eq!(3, u.rank());
}

#[test]
fn rank_bounds_and_zero_matrix() {
    let z = matrix(&[&[0., 0., 0.], &[0., 0., 0.]]);
    assert_eq!(z.rank(), 0);
    let wide = matrix(&[&[1., 2., 3., 4.], &[2., 1., 0., 5.]]);
    assert_eq!(wide.rank(), 2);
    let tall = matrix(&[&[1., 2.], &[3., 4.], &[5., 6.], &[7., 9.]]);
    assert_eq!(tall.rank(), 2);
    let one = matrix(&[&[0., 0.], &[0., 0.5]]);
    assert_eq!(one.rank(), 1);
}

#[test]
fn pivot_ties_keep_the_upper_row() {
    let u = matrix(&[&[-2., 1.], &[2., 3.]]);
    let mut swaps: usize = 0;
    let r = u.row_echelon_count(&mut swaps);
    assert_eq!(swaps, 0);
    assert!(matrix_is(&r, &[&[-2., 1.], &[0., 4.]]));
    assert!(close(&u.determinant(), -8.));
}

#[test]
fn empty_matrix() {
    let e: Matrix<Rational> = Matrix::new(vec![]);
    assert_eq!(e.rank(), 0);
    assert!(close(&e.determinant(), 1.));
    assert_eq!(e.inverse().unwrap().data.len(), 0);
    assert_eq!(e.row_echelon().data.len(), 0);
}

#[test]
fn overflowing_entries_become_undefined_without_panicking() {
    let big = Rational::from_int(i64::MAX);
    let u = Matrix::new(vec![vec![big, Rational::one()], vec![Rational::one(), big]]);
    assert!(!u.determinant().is_defined());
    assert_eq!(u.rank(), 2);
}

#[test]
fn rank_deficient_square_matrix_has_zero_determinant() {
    let u = matrix(&[&[1., 2., 3.], &[2., 4., 6.], &[1., 1., 1.]]);
    assert_eq!(u.rank(), 2);
    assert!(u.determinant().is_zero());
    assert_eq!(u.inverse().unwrap_err(), MatrixError::Singular);
}

#[test]
fn full_rank_square_matrices_have_non_zero_determinant() {
    let cases: [&[&[f64]]; 3] = [
        &[&[0., 1.], &[1., 0.]],
        &[&[8., 5., -2.], &[4., 7., 20.], &[7., 6., 1.]],
        &[&[2., 0., 0.], &[0., 2., 0.], &[0., 0., 2.]],
    ];
    for rows in cases {
        let u = matrix(rows);
        assert_eq!(u.rank(), rows.len());
        assert!(!u.determinant().is_zero());
        assert!(u.inverse().is_ok());
    }
}

#[test]
fn inverse_products_are_checked() {
    let a = matrix(&[&[0., 2.], &[4., 1.]]);
    let inv = a.inverse().unwrap();
    assert!(same(&a.mul_mat(&inv), &identity(2)));
    assert!(same(&inv.mul_mat(&a), &identity(2)));
    assert!(matrix_is(&inv, &[&[-0.125, 0.25], &[0.5, 0.]]));
}
