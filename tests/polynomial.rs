use loquat_vc::crypto::polynomial::Polynomial;
use loquat_vc::utils::error::LoquatError;
use loquat_vc::utils::field_operations::{mod_sub, P};

#[test]
fn test_polynomial_evaluation() {
    let poly = Polynomial::new(vec![1, 2, 3]);
    assert_eq!(poly.evaluate(2), (3 * 4 + 2 * 2 + 1) % P);
}

#[test]
fn test_polynomial_interpolation() {
    let points = vec![(1, 3), (2, 5), (3, 7)];
    let poly = Polynomial::interpolate(&points).unwrap();
    assert_eq!(poly.evaluate(1), 3 % P);
    assert_eq!(poly.evaluate(2), 5 % P);
    assert_eq!(poly.evaluate(3), 7 % P);
}

#[test]
fn polynomial_test_mod_sub() {
    assert_eq!(mod_sub(10, 3, P), 7);
    assert_eq!(mod_sub(5, 5, P), 0);
    assert_eq!(mod_sub(3, 10, P), P - 7);
    let large_a = P - 2;
    let large_b = P - 5;
    assert_eq!(mod_sub(large_a, large_b, P), 3);
    assert_eq!(mod_sub(large_b, large_a, P), P - 3);
}

#[test]
fn interpolation_recovers_the_line() {
    // Through (1, 3), (2, 5), (3, 7) runs 2x + 1.
    let poly = Polynomial::interpolate(&[(1, 3), (2, 5), (3, 7)]).unwrap();
    assert_eq!(poly.coefficients(), &vec![1, 2, 0]);
    assert_eq!(poly.degree(), 2);
}

#[test]
fn interpolation_with_repeated_abscissa_fails() {
    assert_eq!(Polynomial::interpolate(&[(1, 3), (1, 4)]).unwrap_err(), LoquatError::ArithmeticError);
    assert_eq!(Polynomial::interpolate(&[(0, 3), (P, 4)]).unwrap_err(), LoquatError::ArithmeticError);
}

#[test]
fn interpolation_of_no_points_is_empty() {
    let poly = Polynomial::interpolate(&[]).unwrap();
    assert!(poly.coefficients().is_empty());
    assert_eq!(poly.evaluate(9), 0);
}

#[test]
fn interpolation_through_large_values() {
    let points = [(P - 1, 5), (7, P - 2), (123456789, 42), (0, 1)];
    let poly = Polynomial::interpolate(&points).unwrap();
    for &(x, y) in &points {
        assert_eq!(poly.evaluate(x), y % P);
    }
}

#[test]
fn evaluation_reduces_large_coefficients() {
    let poly = Polynomial::new(vec![u128::MAX, u128::MAX]);
    // (2^128 - 1) mod P = 1, so the value at 3 is 1 + 3 = 4.
    assert_eq!(poly.evaluate(3), 4);
    assert_eq!(Polynomial::new(vec![]).evaluate(5), 0);
}
