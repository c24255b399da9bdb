use linalg::complex::Complex;
use linalg::field::{Conjugate, Equals, Field};
use linalg::matrix::Matrix;
use linalg::rational::Rational;
use linalg::vector::{cross_product, linear_combination, Vector};

/// The exact fraction written by a decimal literal with at most nine decimals.
fn q(x: f64) -> Rational {
    let mut den: i64 = 1;
    while (x * den as f64).fract().abs() > 1e-9 && den < 1_000_000_000 {
        den *= 10;
    }
    Rational::new((x * den as f64).round() as i64, den)
}

fn c(x: f64) -> Complex {
    Complex::from_real(q(x))
}

fn ci(re: f64, im: f64) -> Complex {
    Complex::new(q(re), q(im))
}

fn close(r: &Rational, x: f64) -> bool {
    r.is_defined() && (r.num as f64 / r.den as f64 - x).abs() < 1e-6
}

fn is(z: &Complex, x: f64) -> bool {
    close(&z.re, x) && close(&z.im, 0.)
}

fn vector(xs: &[f64]) -> Vector<Complex> {
    Vector::new(xs.iter().map(|x| c(*x)).collect())
}

fn matrix(rows: &[&[f64]]) -> Matrix<Complex> {
    Matrix::new(rows.iter().map(|r| r.iter().map(|x| c(*x)).collect()).collect())
}

fn vector_is(v: &Vector<Complex>, xs: &[f64]) -> bool {
    v.data.len() == xs.len() && v.data.iter().zip(xs.iter()).all(|(a, b)| is(a, *b))
}

fn matrix_is(m: &Matrix<Complex>, rows: &[&[f64]]) -> bool {
    m.data.len() == rows.len()
        && m.data.iter().zip(rows.iter()).all(|(row, exp)| {
            row.len() == exp.len() && row.iter().zip(exp.iter()).all(|(a, b)| is(a, *b))
        })
}

#[test]
fn test_vector_add_complex() {
    let u = vector(&[2., 3.]);
    let v = vector(&[5., 7.]);
    let w = u._add(&v);
    assert_eq!(w.size(), 2);
    assert!(vector_is(&w, &[7., 10.]));
}

#[test]
fn test_vector_sub_complex() {
    let u = vector(&[2., 3.]);
    let v = vector(&[5., 7.]);
    let w = u._sub(&v);
    assert_eq!(w.size(), 2);
    assert!(vector_is(&w, &[-3., -4.]));
}

#[test]
fn test_vector_scl_complex() {
    let u = vector(&[2., 3.]);
    let w = u._scl(c(2.));
    assert_eq!(w.size(), 2);
    assert!(vector_is(&w, &[4., 6.]));
}

#[test]
fn test_matrix_add_complex() {
    let u = matrix(&[&[1., 2.], &[3., 4.]]);
    let v = Matrix::new(vec![vec![c(7.), c(4.)], vec![c(2.).neg(), c(2.)]]);
    assert!(matrix_is(&u._add(&v), &[&[8., 6.], &[1., 6.]]));
}

#[test]
fn test_matrix_sub_complex() {
    let u = matrix(&[&[1., 2.], &[3., 4.]]);
    let v = Matrix::new(vec![vec![c(7.), c(4.)], vec![c(2.).neg(), c(2.)]]);
    assert!(matrix_is(&u._sub(&v), &[&[-6., -2.], &[5., 2.]]));
}

#[test]
fn test_matrix_scl_complex() {
    let u = matrix(&[&[1., 2.], &[3., 4.]]);
    assert!(matrix_is(&u._scl(c(2.)), &[&[2., 4.], &[6., 8.]]));
}

#[test]
fn test_linear_combination_complex() {
    let e1 = vector(&[1., 0., 0.]);
    let e2 = vector(&[0., 1., 0.]);
    let e3 = vector(&[0., 0., 1.]);
    let r = linear_combination(&[&e1, &e2, &e3], &[c(10.), c(-2.), c(0.5)]);
    assert!(vector_is(&r, &[10., -2., 0.5]));
    let v1 = vector(&[1., 2., 3.]);
    let v2 = vector(&[0., 10., -100.]);
    let r = linear_combination(&[&v1, &v2], &[c(10.), c(-2.)]);
    assert!(vector_is(&r, &[10., 0., 230.]));
}

#[test]
fn test_dot_complex() {
    let u = vector(&[0., 0.]);
    let v = vector(&[1., 1.]);
    assert!(is(&u.dot(&v), 0.));
    let u = vector(&[1., 1.]);
    let v = vector(&[1., 1.]);
    assert!(is(&u.dot(&v), 2.));
    let u = vector(&[-1., 6.]);
    let v = vector(&[3., 2.]);
    assert!(is(&u.dot(&v), 9.));
}

#[test]
fn test_cross_product_complex() {
    let u = vector(&[0., 0., 1.]);
    let v = vector(&[1., 0., 0.]);
    assert!(vector_is(&cross_product(&u, &v), &[0., 1., 0.]));
    let u = vector(&[1., 2., 3.]);
    let v = vector(&[4., 5., 6.]);
    assert!(vector_is(&cross_product(&u, &v), &[-3., 6., -3.]));
    let u = vector(&[4., 2., -3.]);
    let v = vector(&[-2., -5., 16.]);
    assert!(vector_is(&cross_product(&u, &v), &[17., -58., -16.]));
}

#[test]
fn test_mul_vec_complex() {
    let u = matrix(&[&[1., 0.], &[0., 1.]]);
    let v = vector(&[4., 2.]);
    assert!(vector_is(&u.mul_vec(&v), &[4., 2.]));
    let u = matrix(&[&[2., 0.], &[0., 2.]]);
    assert!(vector_is(&u.mul_vec(&v), &[8., 4.]));
    let u = matrix(&[&[2., -2.], &[-2., 2.]]);
    assert!(vector_is(&u.mul_vec(&v), &[4., -4.]));
}

#[test]
fn test_mul_mat_complex() {
    let u = matrix(&[&[1., 0.], &[0., 1.]]);
    let v = matrix(&[&[1., 0.], &[0., 1.]]);
    assert!(matrix_is(&u.mul_mat(&v), &[&[1., 0.], &[0., 1.]]));
    let v = matrix(&[&[2., 1.], &[4., 2.]]);
    assert!(matrix_is(&u.mul_mat(&v), &[&[2., 1.], &[4., 2.]]));
    let u = matrix(&[&[3., -5.], &[6., 8.]]);
    assert!(matrix_is(&u.mul_mat(&v), &[&[-14., -7.], &[44., 22.]]));
}

#[test]
fn test_trace_complex() {
    let u = matrix(&[&[1., 0.], &[0., 1.]]);
    assert!(is(&u.trace(), 2.));
    let u = matrix(&[&[2., -5., 0.], &[4., 3., 7.], &[-2., 3., 4.]]);
    assert!(is(&u.trace(), 9.));
    let u = matrix(&[&[-2., -8., 4.], &[1., -23., 4.], &[0., 6., 4.]]);
    assert!(is(&u.trace(), -21.));
}

#[test]
fn test_transpose_complex() {
    let u = matrix(&[&[1., 0.], &[0., 1.]]);
    assert!(matrix_is(&u.transpose(), &[&[1., 0.], &[0., 1.]]));
    let u = matrix(&[&[2., -5., 0.], &[4., 3., 7.], &[-2., 3., 4.]]);
    assert!(matrix_is(&u.transpose(), &[&[2., 4., -2.], &[-5., 3., 3.], &[0., 7., 4.]]));
    let u = matrix(&[&[-2., -8., 4.], &[1., -23., 4.]]);
    assert!(matrix_is(&u.transpose(), &[&[-2., 1.], &[-8., -23.], &[4., 4.]]));
}

#[test]
fn test_determinant_complex() {
    let u = matrix(&[&[1., -1.], &[-1., 1.]]);
    assert!(is(&u.determinant(), 0.));
    let u = matrix(&[&[2., 0., 0.], &[0., 2., 0.], &[0., 0., 2.]]);
    assert!(is(&u.determinant(), 8.));
    let u = matrix(&[&[8., 5., -2., 4.], &[4., 2.5, 20., 4.], &[8., 5., 1., 4.], &[28., -4., 17., 1.]]);
    assert!(is(&u.determinant(), 1032.));
}

#[test]
fn test_inverse_coplex() {
    let u = matrix(&[&[1., 0., 0.], &[0., 1., 0.], &[0., 0., 1.]]);
    assert!(matrix_is(&u.inverse().unwrap(), &[&[1., 0., 0.], &[0., 1., 0.], &[0., 0., 1.]]));
    let u = matrix(&[&[2., 0., 0.], &[0., 2., 0.], &[0., 0., 2.]]);
    assert!(matrix_is(&u.inverse().unwrap(), &[&[0.5, 0., 0.], &[0., 0.5, 0.], &[0., 0., 0.5]]));
    let u = matrix(&[&[8., 5., -2.], &[4., 7., 20.], &[7., 6., 1.]]);
    assert!(matrix_is(
        &u.inverse().unwrap(),
        &[
            &[0.649425287, 0.097701149, -0.655172414],
            &[-0.781609195, -0.126436782, 0.965517241],
            &[0.143678161, 0.074712644, -0.206896552]
        ]
    ));
}

#[test]
fn test_rank_complex() {
    let u = matrix(&[&[1., 0., 0.], &[0., 1., 0.], &[0., 0., 1.]]);
    assert_eq!(3, u.rank());
    let u = matrix(&[&[1., 2., 0., 0.], &[2., 4., 0., 0.], &[-1., 2., 1., 1.]]);
    assert_eq!(2, u.rank());
    let u = matrix(&[&[8., 5., -2.], &[4., 7., 20.], &[7., 6., 1.], &[21., 18., 7.]]);
    assert_eq!(3, u.rank());
}

#[test]
fn complex_arithmetic() {
    let i = ci(0., 1.);
    let m = i.mul(&i);
    assert!(m.equals(&c(-1.)));
    let z = ci(1., 2.).div(&ci(3., 4.));
    assert!(z.equals(&Complex::new(Rational::new(11, 25), Rational::new(2, 25))));
    assert!(ci(0., 2.).mag_gt(&ci(1., 1.)));
    assert!(!ci(3., 4.).mag_gt(&ci(-5., 0.)));
    assert!(ci(1., -1.).conjugate().equals(&ci(1., 1.)));
}

#[test]
fn pivoting_uses_the_modulus() {
    let u = Matrix::new(vec![vec![c(1.), c(0.)], vec![ci(0., 2.), c(1.)]]);
    let mut swaps: usize = 0;
    let r = u.row_echelon_count(&mut swaps);
    assert_eq!(swaps, 1);
    assert!(r.data[0][0].equals(&ci(0., 2.)));
    assert!(r.data[1][0].is_zero());
}

#[test]
fn complex_determinant_and_inverse() {
    let i = ci(0., 1.);
    let u = Matrix::new(vec![vec![i, c(0.)], vec![c(0.), i]]);
    assert!(u.determinant().equals(&c(-1.)));
    let a = Matrix::new(vec![vec![c(1.), i], vec![c(0.), c(1.)]]);
    let inv = a.inverse().unwrap();
    assert!(inv.data[0][1].equals(&ci(0., -1.)));
    assert!(inv.data[0][0].equals(&c(1.)) && inv.data[1][1].equals(&c(1.)));
    assert!(inv.data[1][0].is_zero());
}

#[test]
fn conjugate_transpose() {
    let u = Matrix::new(vec![vec![ci(1., 1.), ci(2., -3.)]]);
    let t = u.transpose();
    assert_eq!(t.shape(), [1, 2]);
    assert!(t.data[0][0].equals(&ci(1., -1.)));
    assert!(t.data[1][0].equals(&ci(2., 3.)));
}
