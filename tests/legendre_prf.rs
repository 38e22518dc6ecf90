use loquat_vc::crypto::legendre_prf::LegendrePRF;
use loquat_vc::utils::error::LoquatError;
use loquat_vc::utils::field_operations::{mod_add, mod_mul, mod_pow, mod_sub, P};

#[test]
fn test_legendre_symbol() {
    let a1 = 4;
    let a2 = 5;
    let exp = mod_sub(P, 1, P) / 2;

    let result1 = mod_pow(a1, exp, P);
    assert_eq!(result1, 1);
    assert_eq!(LegendrePRF::legendre_symbol(a1), 1);

    let result2 = mod_pow(a2, exp, P);
    assert_eq!(result2, P - 1);
    assert_eq!(LegendrePRF::legendre_symbol(a2), -1);
}

#[test]
fn test_legendre_prf() {
    let prf = LegendrePRF::keygen();
    let x = 42;

    let k_x = mod_add(prf.secret_key(), x, P);

    let output = prf.evaluate(x).unwrap();

    assert!(output == 0 || output == 1, "PRF output must be 0 or 1");

    let exp = mod_sub(P, 1, P) / 2;
    let legendre = mod_pow(k_x, exp, P);
    let expected = if legendre == 1 { 0 } else { 1 };

    assert_eq!(output, expected, "PRF output should match expected value");
}

#[test]
fn legendre_symbol_of_zero_and_of_p_is_zero() {
    assert_eq!(LegendrePRF::legendre_symbol(0), 0);
    assert_eq!(LegendrePRF::legendre_symbol(P), 0);
}

#[test]
fn legendre_symbol_is_multiplicative_on_small_values() {
    let values = [2u128, 3, 4, 5, 7, 9, 10, 11, 25];
    for &a in &values {
        for &b in &values {
            let ab = mod_mul(a, b, P);
            assert_eq!(
                LegendrePRF::legendre_symbol(a) * LegendrePRF::legendre_symbol(b),
                LegendrePRF::legendre_symbol(ab)
            );
        }
    }
    // 4 is a residue and 5 is not, so 20 is not.
    assert_eq!(LegendrePRF::legendre_symbol(20), -1);
    assert_eq!(LegendrePRF::legendre_symbol(25), 1);
}

#[test]
fn evaluate_at_the_negated_key_is_an_arithmetic_error() {
    let prf = LegendrePRF::with_key(12345);
    assert_eq!(prf.evaluate(P - 12345), Err(LoquatError::ArithmeticError));
}

#[test]
fn evaluate_maps_residues_to_zero_and_non_residues_to_one() {
    let prf = LegendrePRF::with_key(0);
    assert_eq!(prf.evaluate(4), Ok(0));
    assert_eq!(prf.evaluate(5), Ok(1));
}

#[test]
fn with_key_reduces_the_key() {
    assert_eq!(LegendrePRF::with_key(P + 3).secret_key(), 3);
    let prf = LegendrePRF::new();
    assert!(prf.secret_key() >= 1 && prf.secret_key() < P);
}
