use loquat_vc::crypto::hash_functions::HashFunction;
use loquat_vc::utils::field_operations::{mod_mul, P};
use num_bigint::BigUint;
use num_traits::ToPrimitive;

fn digest(algorithm: HashFunction, input: &[u8]) -> Vec<u8> {
    loquat_vc::crypto::hash_functions::Hash::new(algorithm).compute(input)
}

#[test]
fn test_sha3_256() {
    let input = b"Loquat Test";
    let hash = digest(HashFunction::Sha3_256, input);
    assert_eq!(hash.len(), 32);
}

#[test]
fn test_shake128() {
    let input = b"Loquat Test";
    let hash = digest(HashFunction::Shake128, input);
    assert_eq!(hash.len(), 32);
}

#[test]
fn test_poseidon() {
    let input = b"Loquat Test";
    let hash = digest(HashFunction::Poseidon, input);
    assert_eq!(hash.len(), 32);

    let a: u128 = 12345;
    let b: u128 = 67890;
    let result = mod_mul(a, b, P);
    let expected = (BigUint::from(a) * BigUint::from(b)) % BigUint::from(P);
    let expected_u128 = expected.to_u128().expect("Result should fit in u128");
    assert_eq!(result, expected_u128);
}

#[test]
fn test_griffin() {
    let input = b"Loquat Test";
    let hash = digest(HashFunction::Griffin, input);
    assert_eq!(hash.len(), 32);

    let a: u128 = 98765;
    let b: u128 = 43210;
    let result = mod_mul(a, b, P);
    let expected = (BigUint::from(a) * BigUint::from(b)) % BigUint::from(P);
    let expected_u128 = expected.to_u128().expect("Result should fit in u128");
    assert_eq!(result, expected_u128);
}

fn hex(bytes: &[u8]) -> String {
    bytes.iter().map(|b| format!("{:02x}", b)).collect()
}

#[test]
fn sha3_256_of_empty_input_is_the_standard_vector() {
    assert_eq!(
        hex(&digest(HashFunction::Sha3_256, b"")),
        "a7ffc6f8bf1ed76651c14756a061d662f580ff4de43b49fa82d80a4b80f8434a"
    );
}

#[test]
fn shake128_of_empty_input_is_the_standard_vector() {
    assert_eq!(
        hex(&digest(HashFunction::Shake128, b"")),
        "7f9c2ba4e88f827d616045507605853ed73b8093f6efbc88eb1a6eacfa66ef26"
    );
}

#[test]
fn placeholder_digests_of_empty_input_are_zero() {
    assert_eq!(digest(HashFunction::Poseidon, b""), vec![0u8; 32]);
    assert_eq!(digest(HashFunction::Griffin, b""), vec![0u8; 32]);
}

fn le_bytes(v: u128) -> Vec<u8> {
    v.to_le_bytes().to_vec()
}

#[test]
fn poseidon_of_one_byte_raises_it_to_five_to_the_rounds() {
    // The first state element is 2; after 65 S-box rounds it is 2^(5^65) mod P.
    let p = BigUint::from(P);
    let mut x = BigUint::from(2u32);
    for _ in 0..65 {
        x = x.modpow(&BigUint::from(5u32), &p);
    }
    let mut expected = le_bytes(x.to_u128().unwrap());
    expected.extend(le_bytes(0));
    assert_eq!(digest(HashFunction::Poseidon, &[2u8]), expected);
}

#[test]
fn griffin_matches_its_round_function() {
    let input: Vec<u8> = (1u8..=40).collect();
    let p = BigUint::from(P);
    let mut s: Vec<BigUint> = (0..3)
        .map(|i| {
            let chunk = &input[16 * i..std::cmp::min(16 * i + 16, input.len())];
            BigUint::from_bytes_le(chunk) % &p
        })
        .collect();
    let inv = BigUint::from((P + 1) / 5);
    for round in 0..10 {
        let e = if round % 2 == 0 { BigUint::from(5u32) } else { inv.clone() };
        let t: Vec<BigUint> = s.iter().map(|x| x.modpow(&e, &p)).collect();
        s = (0..3).map(|i| (&t[i] + &t[(i + 1) % 3]) % &p).collect();
    }
    let mut expected = le_bytes(s[0].to_u128().unwrap());
    expected.extend(le_bytes(s[1].to_u128().unwrap()));
    assert_eq!(digest(HashFunction::Griffin, &input), expected);
}
