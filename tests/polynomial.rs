use sumcheck::{is_prime, modular_pow, MultiVarPolynomial, PolyError};

fn poly(num_vars: usize, modulus: i32, terms: &[(&[usize], i32)]) -> MultiVarPolynomial {
    let mut p = MultiVarPolynomial::new(num_vars, modulus).unwrap();
    for (e, c) in terms {
        p.add_term(e.to_vec(), *c).unwrap();
    }
    p
}

#[test]
fn test_create_polynomial() {
    let poly = MultiVarPolynomial::new(3, 7).unwrap();
    assert_eq!(poly.num_vars, 3);
    assert_eq!(poly.modulus, 7);
    assert!(poly.terms.is_empty());
}

#[test]
fn test_add_term() {
    let mut poly = MultiVarPolynomial::new(2, 5).unwrap();
    poly.add_term(vec![1, 2], 3).unwrap();
    assert_eq!(poly.terms.len(), 1);
    assert_eq!(poly.coefficient(&vec![1, 2]), Some(3));

    // Adding another term with the same exponent
    poly.add_term(vec![1, 2], 2).unwrap();
    assert_eq!(poly.coefficient(&vec![1, 2]), Some(0)); // (3 + 2) % 5 = 0
}

#[test]
fn test_degree_in_var() {
    let mut poly = MultiVarPolynomial::new(2, 11).unwrap();
    poly.add_term(vec![3, 1], 4).unwrap();
    poly.add_term(vec![1, 2], 5).unwrap();
    assert_eq!(poly.degree_in_var(0), Ok(3));
    assert_eq!(poly.degree_in_var(1), Ok(2));
}

#[test]
fn test_partial_eval() {
    // x_1 + x_2 over Z/23
    let mut poly = MultiVarPolynomial::new(2, 23).unwrap();
    poly.add_term(vec![1, 0], 1).unwrap();
    poly.add_term(vec![0, 1], 1).unwrap();

    // x_1 = 3
    let partial_eval_poly = poly.partial_eval(vec![(0, 3)]).unwrap();

    // 3 + x_2
    let mut expected_poly = MultiVarPolynomial::new(1, 23).unwrap();
    expected_poly.add_term(vec![0], 3).unwrap();
    expected_poly.add_term(vec![1], 1).unwrap();

    assert_eq!(partial_eval_poly, expected_poly);
}

#[test]
fn test_bool_sum() {
    let mut poly = MultiVarPolynomial::new(2, 5).unwrap();
    poly.add_term(vec![1, 0], 2).unwrap();
    poly.add_term(vec![0, 1], 3).unwrap();

    let bool_sum_poly = poly.bool_sum();
    let expected_poly = MultiVarPolynomial {
        terms: vec![(vec![1], 4), (vec![0], 3)],
        num_vars: 1,
        modulus: 5,
    };
    assert_eq!(bool_sum_poly, expected_poly);
}

#[test]
fn test_addition() {
    let mut poly1 = MultiVarPolynomial::new(2, 11).unwrap();
    poly1.add_term(vec![1, 1], 4).unwrap();
    poly1.add_term(vec![0, 0], 3).unwrap();

    let mut poly2 = MultiVarPolynomial::new(2, 11).unwrap();
    poly2.add_term(vec![1, 1], 5).unwrap();
    poly2.add_term(vec![0, 1], 2).unwrap();

    let sum_poly = poly1.add(&poly2).unwrap();
    let expected_poly = MultiVarPolynomial {
        terms: vec![(vec![1, 1], 9), (vec![0, 0], 3), (vec![0, 1], 2)],
        num_vars: 2,
        modulus: 11,
    };
    assert_eq!(sum_poly, expected_poly);
}

#[test]
fn test_is_prime() {
    assert!(is_prime(8009));
}

#[test]
fn test_modular_pow() {
    assert_eq!(modular_pow(2, 3, 5), 3);
}

#[test]
fn is_prime_small_and_composite_values() {
    let primes = [2, 3, 5, 7, 11, 13, 23, 25, 29, 49, 97, 121, 169, 7919];
    let expected = [true, true, true, true, true, true, true, false, true, false, true, false, false, true];
    for (n, e) in primes.iter().zip(expected.iter()) {
        assert_eq!(is_prime(*n), *e, "{}", n);
    }
    assert!(!is_prime(1));
    assert!(!is_prime(0));
    assert!(!is_prime(-7));
    assert!(!is_prime(8001));
    assert!(is_prime(2147483647));
}

#[test]
fn modular_pow_values() {
    assert_eq!(modular_pow(3, 0, 7), 1);
    assert_eq!(modular_pow(-2, 3, 7), 6);
    assert_eq!(modular_pow(10, 5, 13), 4);
    assert_eq!(modular_pow(2147483646, 2, 2147483647), 1);
}

#[test]
fn new_rejects_non_prime_modulus() {
    assert_eq!(MultiVarPolynomial::new(2, 8).unwrap_err(), PolyError::InvalidModulus);
    assert_eq!(MultiVarPolynomial::new(2, 1).unwrap_err(), PolyError::InvalidModulus);
    assert_eq!(MultiVarPolynomial::new(2, -5).unwrap_err(), PolyError::InvalidModulus);
}

#[test]
fn add_term_reduces_and_checks_arity() {
    let mut p = MultiVarPolynomial::new(2, 7).unwrap();
    p.add_term(vec![1, 0], -3).unwrap();
    assert_eq!(p.coefficient(&vec![1, 0]), Some(4));
    p.add_term(vec![1, 0], 20).unwrap();
    assert_eq!(p.coefficient(&vec![1, 0]), Some(3));
    assert_eq!(p.add_term(vec![1], 1), Err(PolyError::ArityMismatch));
    assert_eq!(p.terms.len(), 1);
}

#[test]
fn add_term_opposite_coefficients_leave_a_zero_term() {
    let mut p = poly(2, 11, &[(&[1, 0], 5)]);
    let before = p.clone();
    p.add_term(vec![0, 1], 4).unwrap();
    p.add_term(vec![0, 1], 7).unwrap();
    assert_eq!(p.coefficient(&vec![0, 1]), Some(0));
    assert_eq!(p.coefficient(&vec![1, 0]), Some(5));
    // the explicit zero term makes the two unequal under `==`, equal as polynomials
    assert_ne!(p, before);
    assert!(p.same_values(&before));
    assert!(before.same_values(&p));
    assert!(!p.same_values(&poly(2, 11, &[(&[1, 0], 6)])));
}

#[test]
fn degree_of_empty_polynomial_and_bad_index() {
    let p = MultiVarPolynomial::new(3, 5).unwrap();
    assert_eq!(p.degree_in_var(2), Ok(0));
    assert_eq!(p.degree_in_var(3), Err(PolyError::IndexOutOfRange));
}

#[test]
fn partial_eval_errors() {
    let p = poly(2, 23, &[(&[1, 0], 1)]);
    assert_eq!(p.partial_eval(vec![(2, 1)]).unwrap_err(), PolyError::IndexOutOfRange);
    assert_eq!(p.partial_eval(vec![(0, 1), (0, 2)]).unwrap_err(), PolyError::DuplicateAssignment);
    assert_eq!(p.partial_eval(vec![(0, 1), (0, 2), (5, 0)]).unwrap_err(), PolyError::IndexOutOfRange);
}

#[test]
fn partial_eval_full_assignment_is_the_value() {
    // 2x^3 + xz + yz over Z/97 at (2, 3, 6): 16 + 12 + 18 = 46
    let p = poly(3, 97, &[(&[3, 0, 0], 2), (&[1, 0, 1], 1), (&[0, 1, 1], 1)]);
    let v = p.partial_eval(vec![(2, 6), (0, 2), (1, 3)]).unwrap();
    assert_eq!(v.num_vars, 0);
    assert_eq!(v.terms.len(), 1);
    assert_eq!(v.coefficient(&vec![]), Some(46));
}

#[test]
fn partial_eval_merges_terms() {
    // x*y + 2y over Z/5 at x = 3: 5y = 0y
    let p = poly(2, 5, &[(&[1, 1], 1), (&[0, 1], 2)]);
    let q = p.partial_eval(vec![(0, 3)]).unwrap();
    assert_eq!(q.num_vars, 1);
    assert_eq!(q.terms.len(), 1);
    assert_eq!(q.coefficient(&vec![1]), Some(0));
}

#[test]
fn bool_sum_is_sum_of_fixings() {
    let p = poly(3, 13, &[(&[1, 2, 1], 3), (&[0, 0, 2], 5), (&[2, 0, 0], 7)]);
    let s = p.bool_sum();
    let a = p.partial_eval(vec![(2, 0)]).unwrap();
    let b = p.partial_eval(vec![(2, 1)]).unwrap();
    assert_eq!(s.num_vars, 2);
    assert_eq!(s, a.add(&b).unwrap());
}

#[test]
fn add_commutes_and_associates() {
    let a = poly(2, 11, &[(&[1, 1], 4), (&[0, 0], 3)]);
    let b = poly(2, 11, &[(&[1, 1], 5), (&[0, 1], 2)]);
    let c = poly(2, 11, &[(&[0, 1], 10), (&[2, 0], 1)]);
    assert_eq!(a.add(&b).unwrap(), b.add(&a).unwrap());
    let left = a.add(&b).unwrap().add(&c).unwrap();
    let right = a.add(&b.add(&c).unwrap()).unwrap();
    assert_eq!(left, right);
    assert_eq!(left.coefficient(&vec![0, 1]), Some(1));
}

#[test]
fn add_rejects_incompatible_operands() {
    let a = poly(2, 11, &[(&[1, 1], 4)]);
    let b = poly(1, 11, &[(&[1], 4)]);
    let c = poly(2, 13, &[(&[1, 1], 4)]);
    assert_eq!(a.add(&b).unwrap_err(), PolyError::IncompatibleOperands);
    assert_eq!(a.add(&c).unwrap_err(), PolyError::IncompatibleOperands);
}

#[test]
fn equality_ignores_term_order() {
    let a = MultiVarPolynomial { terms: vec![(vec![1], 4), (vec![0], 3)], num_vars: 1, modulus: 5 };
    let b = MultiVarPolynomial { terms: vec![(vec![0], 3), (vec![1], 4)], num_vars: 1, modulus: 5 };
    let c = MultiVarPolynomial { terms: vec![(vec![0], 3), (vec![1], 2)], num_vars: 1, modulus: 5 };
    assert_eq!(a, b);
    assert_ne!(a, c);
}
