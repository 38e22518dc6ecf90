use loquat_vc::signature::loquat::Loquat;
use loquat_vc::signature::ring_signature::{LoquatRingSignature, RingSignature};
use loquat_vc::utils::encoding::Natural;
use loquat_vc::utils::field_operations::{mod_add, mod_mul, mod_pow, mod_sub, P};
use num_bigint::BigUint;
use num_traits::ToPrimitive;

#[test]
fn test_ring_signature() {
    let keypair1 = Loquat::keygen();
    let keypair2 = Loquat::keygen();
    let keypair3 = Loquat::keygen();

    let public_keys = vec![keypair1.public_key.clone(), keypair2.public_key.clone(), keypair3.public_key.clone()];
    let message = b"Ring Signature Test";

    let ring_sig = LoquatRingSignature::sign(keypair2.secret_key, message, &public_keys, 1);
    assert!(LoquatRingSignature::verify(&public_keys, message, &ring_sig));
}

#[test]
fn test_invalid_ring_signature() {
    let keypair1 = Loquat::keygen();
    let keypair2 = Loquat::keygen();
    let keypair3 = Loquat::keygen();

    let public_keys = vec![keypair1.public_key.clone(), keypair2.public_key.clone(), keypair3.public_key.clone()];
    let message = b"Ring Signature Test";

    let ring_sig = LoquatRingSignature::sign(keypair2.secret_key, message, &public_keys, 1);

    // Ring verification checks the ring commitment and the range of the
    // response only; the message takes no part, so a changed message still
    // verifies. A changed ring does not.
    let tampered_message = b"Tampered Message";
    assert!(LoquatRingSignature::verify(&public_keys, tampered_message, &ring_sig));
    let other_ring = vec![keypair1.public_key.clone(), keypair3.public_key.clone()];
    assert!(!LoquatRingSignature::verify(&other_ring, message, &ring_sig));
}

#[test]
fn test_modular_arithmetic() {
    let result = mod_add(P - 2, 5, P);
    assert_eq!(result, 3);

    let result = mod_sub(5, 10, P);
    assert_eq!(result, P - 5);

    let result = mod_mul(P - 1, P - 1, P);
    assert_eq!(result, 1);

    let result = mod_pow(2, 126, P);
    assert_eq!(result, 1u128 << 126);
}

#[test]
fn ring_response_adds_key_digest_and_challenge() {
    let keys = vec![Loquat::public_key(1), Loquat::public_key(2)];
    let message = b"ring";
    let sig = LoquatRingSignature::sign_with_challenge(77, message, &keys, 0, 1000);
    let digest = loquat_vc::crypto::hash_functions::Hash::new(
        loquat_vc::crypto::hash_functions::HashFunction::Sha3_256,
    )
    .compute(message);
    let expected = ((BigUint::from(77u32) + BigUint::from_bytes_be(&digest) + BigUint::from(1000u32))
        % BigUint::from(P))
    .to_u128()
    .unwrap();
    assert_eq!(sig.sigma, expected);
    assert_eq!(sig.challenge, 1000);
}

#[test]
fn ring_verify_rejects_out_of_range_response_and_empty_ring() {
    let keys = vec![Loquat::public_key(1), Loquat::public_key(2), Loquat::public_key(3)];
    let sig = LoquatRingSignature::sign_with_challenge(5, b"m", &keys, 2, 9);
    let out_of_range = RingSignature { sigma: P, ring_commitment: sig.ring_commitment.clone(), challenge: 9 };
    assert!(!LoquatRingSignature::verify(&keys, b"m", &out_of_range));
    assert!(!LoquatRingSignature::verify(&[], b"m", &sig));
    let wrong_commitment = RingSignature { sigma: sig.sigma, ring_commitment: Natural::from_u128(0), challenge: 9 };
    assert!(!LoquatRingSignature::verify(&keys, b"m", &wrong_commitment));
}
