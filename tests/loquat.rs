use loquat_vc::crypto::legendre_prf::LegendrePRF;
use loquat_vc::signature::loquat::{Loquat, LoquatSignature};
use loquat_vc::utils::error::LoquatError;
use loquat_vc::utils::field_operations::{mod_add, mod_sub, P};

#[test]
fn test_loquat_signature() {
    let keypair = Loquat::keygen();
    let message = b"Test message for Loquat";

    let signature = Loquat::sign(keypair.secret_key, message).unwrap();

    assert!(Loquat::verify(&keypair.public_key, message, &signature));
}

#[test]
fn test_invalid_signature() {
    let keypair = Loquat::keygen();
    let message = b"Test message for Loquat";
    let invalid_message = b"Tampered message";

    let signature = Loquat::sign(keypair.secret_key, message).unwrap();

    assert!(!Loquat::verify(&keypair.public_key, invalid_message, &signature));
    assert!(Loquat::verify(&keypair.public_key, message, &signature));
}

#[test]
fn test_large_message_hash() {
    let keypair = Loquat::keygen();
    let large_message = [0xFF; 64].to_vec();

    let signature = Loquat::sign(keypair.secret_key, &large_message).unwrap();

    assert!(Loquat::verify(&keypair.public_key, &large_message, &signature));
}

#[test]
fn test_legendre_prf_consistency() {
    let secret_key = 12345u128;
    let message = 67890u128;

    let legendre_prf = LegendrePRF::with_key(secret_key);
    let result1 = legendre_prf.evaluate(message);
    let result2 = legendre_prf.evaluate(message);

    assert_eq!(result1, result2);

    let keypair = Loquat::keygen();
    let test_message = b"Testing Legendre PRF in Loquat";

    let signature = Loquat::sign(keypair.secret_key, test_message).unwrap();
    assert!(Loquat::verify(&keypair.public_key, test_message, &signature));
}

#[test]
fn fixed_keys_sign_and_verify_on_both_branches() {
    let message = b"branch coverage";
    let m = Loquat::message_digest(message);
    let mut seen = [false, false];
    for sk in 1u128..40 {
        let keypair = Loquat::keypair_from_secret(sk);
        let signature = Loquat::sign(sk, message).unwrap();
        let bit = LegendrePRF::with_key(sk).evaluate(m).unwrap();
        let expected = if bit == 1 { mod_add(sk, m, P) } else { mod_sub(sk, m, P) };
        assert_eq!(signature.sigma, expected);
        seen[bit as usize] = true;
        assert!(Loquat::verify(&keypair.public_key, message, &signature));
        assert!(!Loquat::verify(&keypair.public_key, b"another message", &signature));
    }
    assert!(seen[0] && seen[1]);
}

#[test]
fn signing_where_the_prf_is_undefined_fails() {
    let message = b"zero point";
    let m = Loquat::message_digest(message);
    let sk = P - m;
    assert_eq!(Loquat::sign(sk, message).unwrap_err(), LoquatError::ArithmeticError);
}

#[test]
fn verify_rejects_a_wrong_key_or_a_changed_signature() {
    let alice = Loquat::keypair_from_secret(1111);
    let bob = Loquat::keypair_from_secret(2222);
    let message = b"hello";
    let signature = Loquat::sign(alice.secret_key, message).unwrap();
    assert!(!Loquat::verify(&bob.public_key, message, &signature));
    let changed = LoquatSignature { sigma: mod_add(signature.sigma, 1, P), merkle_root: signature.merkle_root.clone() };
    assert!(!Loquat::verify(&alice.public_key, message, &changed));
    assert!(!Loquat::verify(&[], message, &signature));
}

#[test]
fn public_key_is_the_digest_of_the_big_endian_key() {
    let pk = Loquat::public_key(5);
    let mut bytes = [0u8; 16];
    bytes[15] = 5;
    let expected = loquat_vc::crypto::hash_functions::Hash::new(
        loquat_vc::crypto::hash_functions::HashFunction::Sha3_256,
    )
    .compute(&bytes);
    assert_eq!(pk, expected);
    assert_eq!(Loquat::keypair_from_secret(5).public_key, expected);
}
