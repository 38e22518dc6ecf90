use loquat_vc::utils::encoding::{Encoding, Natural};
use num_bigint::BigUint;

#[test]
fn test_encode_decode_biguint() {
    let value = Natural::from_u128(123456789u128);
    let encoded = Encoding::encode_biguint(&value);
    let decoded = Encoding::decode_biguint(&encoded);
    assert_eq!(value, decoded);
}

#[test]
fn encoding_matches_minimal_big_endian_bytes() {
    for v in [0u128, 1, 255, 256, 123456789, u128::MAX] {
        let ours = Encoding::encode_biguint(&Natural::from_u128(v));
        assert_eq!(ours, BigUint::from(v).to_bytes_be());
    }
}

#[test]
fn decoding_ignores_leading_zeros() {
    assert_eq!(Encoding::decode_biguint(&[0, 0, 1, 2]).to_bytes_be(), vec![1, 2]);
    assert_eq!(Encoding::decode_biguint(&[0, 0]).to_bytes_be(), vec![0]);
    assert_eq!(Encoding::decode_biguint(&[]).to_bytes_be(), vec![0]);
}
