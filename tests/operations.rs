use linalg::field::Field;
use linalg::matrix::Matrix;
use linalg::rational::Rational;
use linalg::vector::{cross_product, linear_combination, Vector};

/// The exact fraction written by a decimal literal with at most nine decimals.
fn q(x: f64) -> Rational {
    let mut den: i64 = 1;
    while (x * den as f64).fract().abs() > 1e-9 && den < 1_000_000_000 {
        den *= 10;
    }
    Rational::new((x * den as f64).round() as i64, den)
}

fn to_f64(r: &Rational) -> f64 {
    assert!(r.is_defined());
    r.num as f64 / r.den as f64
}

fn close(r: &Rational, x: f64) -> bool {
    (to_f64(r) - x).abs() < 1e-6
}

fn vector(xs: &[f64]) -> Vector<Rational> {
    Vector::new(xs.iter().map(|x| q(*x)).collect())
}

fn matrix(rows: &[&[f64]]) -> Matrix<Rational> {
    Matrix::new(rows.iter().map(|r| r.iter().map(|x| q(*x)).collect()).collect())
}

#[test]
fn test_vector_add() {
    let u = vector(&[2., 3.]);
    let v = vector(&[5., 7.]);
    let w = u._add(&v);
    assert_eq!(w.size(), 2);
    assert_eq!(w, vector(&[7., 10.]));
}

#[test]
fn test_vector_sub() {
    let u = vector(&[2., 3.]);
    let v = vector(&[5., 7.]);
    let w = u._sub(&v);
    assert_eq!(w.size(), 2);
    assert_eq!(w, vector(&[-3., -4.]));
}

#[test]
fn test_vector_scl() {
    let u = vector(&[2., 3.]);
    let w = u._scl(q(2.));
    assert_eq!(w.size(), 2);
    assert_eq!(w, vector(&[4., 6.]));
}

#[test]
fn test_matrix_add() {
    let u = matrix(&[&[1., 2.], &[3., 4.]]);
    let v = matrix(&[&[7., 4.], &[-2., 2.]]);
    let w = u._add(&v);
    assert_eq!(w, matrix(&[&[8., 6.], &[1., 6.]]));
}

#[test]
fn test_matrix_sub() {
    let u = matrix(&[&[1., 2.], &[3., 4.]]);
    let v = matrix(&[&[7., 4.], &[-2., 2.]]);
    let w = u._sub(&v);
    assert_eq!(w, matrix(&[&[-6.0, -2.0], &[5.0, 2.0]]));
}

#[test]
fn test_matrix_scl() {
    let u = matrix(&[&[1., 2.], &[3., 4.]]);
    let w = u._scl(q(2.));
    assert_eq!(w, matrix(&[&[2.0, 4.0], &[6.0, 8.0]]));
}

#[test]
fn test_linear_combination() {
    let e1 = vector(&[1., 0., 0.]);
    let e2 = vector(&[0., 1., 0.]);
    let e3 = vector(&[0., 0., 1.]);
    let r = linear_combination(&[&e1, &e2, &e3], &[q(10.), q(-2.), q(0.5)]);
    assert_eq!(r, vector(&[10., -2., 0.5]));

    let v1 = vector(&[1., 2., 3.]);
    let v2 = vector(&[0., 10., -100.]);
    let r = linear_combination(&[&v1, &v2], &[q(10.), q(-2.)]);
    assert_eq!(r, vector(&[10., 0., 230.]));
}

#[test]
fn test_dot() {
    let u = vector(&[0., 0.]);
    let v = vector(&[1., 1.]);
    assert!(close(&u.dot(&v), 0.));

    let u = vector(&[1., 1.]);
    let v = vector(&[1., 1.]);
    assert!(close(&u.dot(&v), 2.));

    let u = vector(&[-1., 6.]);
    let v = vector(&[3., 2.]);
    assert!(close(&u.dot(&v), 9.));
}

#[test]
fn test_cross_product() {
    let u = vector(&[0., 0., 1.]);
    let v = vector(&[1., 0., 0.]);
    assert_eq!(cross_product(&u, &v), vector(&[0., 1., 0.]));

    let u = vector(&[1., 2., 3.]);
    let v = vector(&[4., 5., 6.]);
    assert_eq!(cross_product(&u, &v), vector(&[-3., 6., -3.]));

    let u = vector(&[4., 2., -3.]);
    let v = vector(&[-2., -5., 16.]);
    assert_eq!(cross_product(&u, &v), vector(&[17., -58., -16.]));
}

#[test]
fn test_mul_vec() {
    let u = matrix(&[&[1., 0.], &[0., 1.]]);
    let v = vector(&[4., 2.]);
    assert_eq!(u.mul_vec(&v), vector(&[4., 2.]));
    let u = matrix(&[&[2., 0.], &[0., 2.]]);
    let v = vector(&[4., 2.]);
    assert_eq!(u.mul_vec(&v), vector(&[8., 4.]));
    let u = matrix(&[&[2., -2.], &[-2., 2.]]);
    let v = vector(&[4., 2.]);
    assert_eq!(u.mul_vec(&v), vector(&[4., -4.]));
}

#[test]
fn test_mul_mat() {
    let u = matrix(&[&[1., 0.], &[0., 1.]]);
    let v = matrix(&[&[1., 0.], &[0., 1.]]);
    assert_eq!(u.mul_mat(&v), matrix(&[&[1., 0.], &[0., 1.]]));
    let u = matrix(&[&[1., 0.], &[0., 1.]]);
    let v = matrix(&[&[2., 1.], &[4., 2.]]);
    assert_eq!(u.mul_mat(&v), matrix(&[&[2., 1.], &[4., 2.]]));
    let u = matrix(&[&[3., -5.], &[6., 8.]]);
    let v = matrix(&[&[2., 1.], &[4., 2.]]);
    assert_eq!(u.mul_mat(&v), matrix(&[&[-14., -7.], &[44., 22.]]));
}

#[test]
fn mul_mat_of_non_square_shapes() {
    let u = matrix(&[&[1., 2., 3.], &[4., 5., 6.]]);
    let v = matrix(&[&[1.], &[0.], &[-1.]]);
    assert_eq!(u.mul_mat(&v), matrix(&[&[-2.], &[-2.]]));
    let w = matrix(&[&[1., 0., 2.], &[0., 1., 0.]]);
    assert_eq!(w.mul_vec(&vector(&[3., 4., 5.])), vector(&[13., 4.]));
}

#[test]
fn test_trace() {
    let u = matrix(&[&[1., 0.], &[0., 1.]]);
    assert!(close(&u.trace(), 2.));
    let u = matrix(&[&[2., -5., 0.], &[4., 3., 7.], &[-2., 3., 4.]]);
    assert!(close(&u.trace(), 9.));
    let u = matrix(&[&[-2., -8., 4.], &[1., -23., 4.], &[0., 6., 4.]]);
    assert!(close(&u.trace(), -21.));
}

#[test]
fn test_transpose() {
    let u = matrix(&[&[1., 0.], &[0., 1.]]);
    assert_eq!(u.transpose(), matrix(&[&[1., 0.], &[0., 1.]]));
    let u = matrix(&[&[2., -5., 0.], &[4., 3., 7.], &[-2., 3., 4.]]);
    assert_eq!(u.transpose(), matrix(&[&[2., 4., -2.], &[-5., 3., 3.], &[0., 7., 4.]]));
    let u = matrix(&[&[-2., -8., 4.], &[1., -23., 4.]]);
    assert_eq!(u.transpose(), matrix(&[&[-2., 1.], &[-8., -23.], &[4., 4.]]));
}

#[test]
fn test_shape() {
    let m1 = matrix(&[&[1., 2., 3.], &[4., 5., 6.]]);
    let m2 = matrix(&[&[5.]]);
    assert_eq!(m1.shape(), [3, 2]);
    assert_eq!(m2.shape(), [1, 1]);
}

#[test]
fn shape_comparison() {
    let m1 = matrix(&[&[1., 2., 3.], &[4., 5., 6.]]);
    let m2 = matrix(&[&[0., 0., 0.], &[0., 0., 0.]]);
    let m3 = matrix(&[&[1., 2.], &[3., 4.], &[5., 6.]]);
    assert!(m1.is_same_shape(&m2));
    assert!(!m1.is_same_shape(&m3));
    assert_eq!(Matrix::<Rational>::new(vec![]).shape(), [0, 0]);
}

#[test]
fn test_size() {
    let v1 = vector(&[1., 2., 3.]);
    let v2 = vector(&[5.]);
    assert_eq!(v1.size(), 3);
    assert_eq!(v2.size(), 1);
    assert!(!v1.is_same_size(&v2));
    assert!(v1.is_same_size(&vector(&[0., 0., 0.])));
}

#[test]
fn scalar_operations_are_exact() {
    let a = Rational::new(1, 3);
    let b = Rational::new(1, 6);
    let s = a.add(&b);
    assert_eq!((s.num, s.den), (1, 2));
    let d = a.sub(&b);
    assert_eq!((d.num, d.den), (1, 6));
    let p = a.mul(&b);
    assert_eq!((p.num, p.den), (1, 18));
    let r = a.div(&b);
    assert_eq!((r.num, r.den), (2, 1));
    let n = a.neg();
    assert_eq!((n.num, n.den), (-1, 3));
    let lowest = Rational::new(6, -4);
    assert_eq!((lowest.num, lowest.den), (-3, 2));
    assert!(Rational::new(0, 5).is_zero());
    assert!(Rational::new(-3, 1).mag_gt(&Rational::new(2, 1)));
    assert!(!Rational::new(2, 1).mag_gt(&Rational::new(-2, 1)));
}

#[test]
fn undefined_scalars_propagate() {
    let zero = Rational::zero();
    let one = Rational::one();
    let q = one.div(&zero);
    assert!(!q.is_defined());
    assert!(!q.add(&one).is_defined());
    assert!(!q.is_zero());
    assert!(q.mag_gt(&one));
    let big = Rational::from_int(i64::MAX);
    assert!(!big.mul(&big).is_defined());
    assert!(!Rational::new(1, 0).is_defined());
}

#[test]
fn equality_compares_values_and_shapes() {
    assert_ne!(vector(&[1., 2.]), vector(&[1., 2., 3.]));
    assert_ne!(vector(&[1., 2.]), vector(&[1., 3.]));
    let half = Rational { num: 2, den: 4 };
    assert_eq!(Vector::new(vec![half]), vector(&[0.5]));
    assert_ne!(matrix(&[&[1., 2.]]), matrix(&[&[1., 2.], &[3., 4.]]));
    assert_eq!(Matrix::new(vec![vec![half, Rational::one()]]), matrix(&[&[0.5, 1.]]));
    let undefined = Rational::new(1, 0);
    assert_ne!(Vector::new(vec![undefined]), Vector::new(vec![undefined]));
}
