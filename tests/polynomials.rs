use lattice_commitments::field::{add_mod, from_signed, inv_mod, mul_mod, neg_mod, sub_mod};
use lattice_commitments::polynomial::{isqrt, Norm, Polynomial, PolynomialError};
use lattice_commitments::ring::RingPolynomial64;

fn poly(c: Vec<u64>) -> Polynomial {
    Polynomial { coefficients: c, modulus: 101 }
}

#[test]
fn field_operations() {
    assert_eq!(add_mod(100, 5, 101), 4);
    assert_eq!(sub_mod(3, 5, 101), 99);
    assert_eq!(neg_mod(0, 101), 0);
    assert_eq!(neg_mod(1, 101), 100);
    assert_eq!(mul_mod(50, 3, 101), 49);
    assert_eq!(from_signed(-1, 101), 100);
    assert_eq!(from_signed(-203, 101), 100);
    assert_eq!(from_signed(-205, 101), 98);
    assert_eq!(from_signed(i64::MIN, 2013265921), (((i64::MIN as i128) % 2013265921 + 2013265921) % 2013265921) as u64);
}

#[test]
fn polynomial_add_sub_neg() {
    let a = poly(vec![1, 2, 100]);
    let b = poly(vec![100, 5]);
    assert_eq!(a.add(&b).coefficients, vec![0, 7, 100]);
    assert_eq!(a.sub(&b).coefficients, vec![2, 98, 100]);
    assert_eq!(b.neg().coefficients, vec![1, 96]);
}

#[test]
fn polynomial_mul_schoolbook() {
    // (1 + 2X)(3 + X) = 3 + 7X + 2X^2
    let a = poly(vec![1, 2]);
    let b = poly(vec![3, 1]);
    assert_eq!(a.mul(&b).coefficients, vec![3, 7, 2, 0]);
    // coefficients wrap modulo 101
    let c = poly(vec![50]);
    assert_eq!(c.mul(&c).coefficients, vec![76, 0]);
}

#[test]
fn polynomial_degree_and_terms() {
    let mut p = poly(vec![0, 3, 0, 5, 0, 0]);
    assert_eq!(p.degree(), 3);
    assert!(!p.is_zero());
    assert_eq!(p.pop_term(), (5, 3));
    assert_eq!(p.degree(), 1);
    assert_eq!(p.pop_term(), (3, 1));
    assert!(p.is_zero());
    assert_eq!(p.degree(), 0);
    assert_eq!(p.pop_term(), (0, 0));
    p.term(7, 8);
    assert_eq!(p.coefficients.len(), 9);
    assert_eq!(p.coefficients[8], 7);
    p.term(100, 8);
    assert_eq!(p.coefficients[8], 6);
    assert_eq!(Polynomial::identity(101).coefficients, vec![1]);
}

#[test]
fn polynomial_shift_and_scale() {
    let p = poly(vec![1, 2]);
    assert_eq!(p.shift_and_clone(3).coefficients, vec![0, 0, 0, 1, 2]);
    let mut q = poly(vec![1, 2, 60]);
    q.mul_scalar(2);
    assert_eq!(q.coefficients, vec![2, 4, 19]);
}

#[test]
fn polynomial_norms() {
    // centered: 1, -1, 50, -50
    let p = poly(vec![1, 100, 50, 51]);
    assert_eq!(p.norm_l1(), 102);
    assert_eq!(p.norm_l2_squared(), 5002);
    assert_eq!(p.norm_l2(), 70);
    assert_eq!(p.norm_max(), 50);
    let z = poly(vec![]);
    assert_eq!(z.norm_l1(), 0);
    assert_eq!(z.norm_max(), 0);
}

#[test]
fn integer_square_root() {
    assert_eq!(isqrt(0), 0);
    assert_eq!(isqrt(1), 1);
    assert_eq!(isqrt(24), 4);
    assert_eq!(isqrt(25), 5);
    assert_eq!(isqrt(u128::MAX), u64::MAX);
}

#[test]
fn ring_reduction_folds_high_degrees() {
    // X^N + 1 with N = 4: 1 - 5 + 9, 2 - 6, 3 - 7, 4 - 8
    let p = poly(vec![1, 2, 3, 4, 5, 6, 7, 8, 9]);
    let r = RingPolynomial64::from_polynomial(&p, 4);
    assert_eq!(r.0.coefficients, vec![5, 97, 97, 97]);
}

#[test]
fn ring_multiplication_is_negacyclic() {
    let x3 = RingPolynomial64::from_signed(&vec![0, 0, 0, 1], 101, 4);
    let x1 = RingPolynomial64::from_signed(&vec![0, 1], 101, 4);
    // X^3 * X = X^4 = -1
    assert_eq!(x3.mul(&x1).0.coefficients, vec![100, 0, 0, 0]);
    let a = RingPolynomial64::from_signed(&vec![1, 2, 3, 4], 101, 4);
    let b = RingPolynomial64::from_signed(&vec![5, 6, 7, 8], 101, 4);
    // negacyclic convolution: [5 - 61, 16 - 52, 34 - 32, 60]
    assert_eq!(a.mul(&b).0.coefficients, vec![45, 65, 2, 60]);
    assert_eq!(a.add(&b).0.coefficients, vec![6, 8, 10, 12]);
    assert_eq!(a.sub(&b).0.coefficients, vec![97, 97, 97, 97]);
    assert_eq!(a.neg().0.coefficients, vec![100, 99, 98, 97]);
    let one = RingPolynomial64::one(101, 4);
    assert_eq!(a.mul(&one), a);
    assert_eq!(RingPolynomial64::zero(101, 4).0.coefficients, vec![0, 0, 0, 0]);
}

#[test]
fn ring_modulus_and_membership() {
    let a = RingPolynomial64::from_signed(&vec![-1, 2], 101, 4);
    assert_eq!(a.0.coefficients, vec![100, 2, 0, 0]);
    assert_eq!(a.modulus().coefficients, vec![1, 0, 0, 0, 1]);
    assert!(a.is_member(101, 4));
    assert!(!a.is_member(103, 4));
    assert!(!a.is_member(101, 8));
    assert_eq!(a.norm_l1(), 3);
    assert_eq!(a.norm_max(), 2);
    assert_eq!(a.norm_l2(), 2);
    assert!(a.same_as(&a.copy()));
}

#[test]
fn polynomial_division() {
    // (X^2 + 3X + 2) / (X + 1) = X + 2
    let p = poly(vec![2, 3, 1]);
    let d = poly(vec![1, 1]);
    let (q, r) = p.div(&d).unwrap();
    assert_eq!(q.coefficients, vec![2, 1]);
    assert!(r.is_zero());
    // (X^2 + 1) / (2X) = 51 X, remainder 1 (2 * 51 = 1 mod 101)
    let p2 = poly(vec![1, 0, 1]);
    let d2 = poly(vec![0, 2, 0]);
    let (q2, r2) = p2.div(&d2).unwrap();
    assert_eq!(q2.coefficients, vec![0, 51]);
    assert_eq!(r2.coefficients[0], 1);
    assert_eq!(r2.degree(), 0);
    assert_eq!(p2.div(&poly(vec![0, 0])), Err(PolynomialError::DivideByZero));
}

#[test]
fn folding_matches_division_by_modulus() {
    let p = poly(vec![1, 2, 3, 4, 5, 6, 7, 8, 9, 10, 11]);
    let folded = RingPolynomial64::from_polynomial(&p, 4);
    let modulus = folded.modulus();
    let (_q, r) = p.div(&modulus).unwrap();
    assert!(r.degree() < 4);
    for i in 0..r.coefficients.len() {
        let expected = if i < 4 { folded.0.coefficients[i] } else { 0 };
        assert_eq!(r.coefficients[i], expected);
    }
}

#[test]
fn modular_inverse() {
    assert_eq!(inv_mod(2, 101), Some(51));
    assert_eq!(inv_mod(0, 101), None);
    assert_eq!(inv_mod(4, 10), None);
    let x = inv_mod(12345, 2013265921).unwrap();
    assert_eq!((12345u128 * x as u128) % 2013265921, 1);
}

#[test]
fn division_needs_invertible_leading_coefficient() {
    let p = Polynomial { coefficients: vec![1, 1, 1], modulus: 10 };
    let d = Polynomial { coefficients: vec![0, 2], modulus: 10 };
    assert_eq!(p.div(&d), Err(PolynomialError::NotInvertible));
}

#[test]
fn ring_constant_and_division() {
    let c = RingPolynomial64::from_u64(205, 101, 4);
    assert_eq!(c.0.coefficients, vec![3, 0, 0, 0]);
    // (X^3 + 2X^2 + X) / (X + 1) = X^2 + X
    let a = RingPolynomial64::from_signed(&vec![0, 1, 2, 1], 101, 4);
    let b = RingPolynomial64::from_signed(&vec![1, 1], 101, 4);
    assert_eq!(a.div(&b).unwrap().0.coefficients, vec![0, 1, 1, 0]);
    let z = RingPolynomial64::zero(101, 4);
    assert_eq!(a.div(&z), Err(PolynomialError::DivideByZero));
}
