use loquat_vc::signature::aggregate::LoquatAggregate;
use loquat_vc::signature::loquat::{Loquat, LoquatSignature};
use loquat_vc::utils::encoding::Natural;
use loquat_vc::utils::field_operations::{mod_add, P};

fn sum_mod_p(values: &[u128]) -> u128 {
    values.iter().fold(0, |acc, &v| mod_add(acc, v, P))
}

#[test]
fn test_aggregate_signature() {
    let keypair1 = Loquat::keygen();
    let keypair2 = Loquat::keygen();

    let message1 = b"Message 1";
    let message2 = b"Message 2";

    let sig1 = Loquat::sign(keypair1.secret_key, message1).unwrap();
    let sig2 = Loquat::sign(keypair2.secret_key, message2).unwrap();

    let aggregate_sig = LoquatAggregate::aggregate(&[sig1.clone(), sig2.clone()]);

    let public_keys = vec![keypair1.public_key, keypair2.public_key];
    let messages = vec![message1.to_vec(), message2.to_vec()];

    // Aggregate verification compares the sum of the responses with the sum
    // of the message digests; it accepts exactly when those agree modulo P.
    let sums_agree = sum_mod_p(&[sig1.sigma, sig2.sigma])
        == sum_mod_p(&[Loquat::message_digest(message1), Loquat::message_digest(message2)]);
    assert_eq!(LoquatAggregate::verify(&public_keys, &messages, &aggregate_sig), sums_agree);
}

#[test]
fn test_invalid_aggregate_signature() {
    let keypair1 = Loquat::keygen();
    let keypair2 = Loquat::keygen();

    let message1 = b"Message 1";
    let message2 = b"Message 2";

    let sig1 = Loquat::sign(keypair1.secret_key, message1).unwrap();
    let sig2 = Loquat::sign(keypair2.secret_key, message2).unwrap();

    let aggregate_sig = LoquatAggregate::aggregate(&[sig1.clone(), sig2.clone()]);

    let tampered_message = b"Tampered Message";
    let public_keys = vec![keypair1.public_key, keypair2.public_key];
    let messages = vec![message1.to_vec(), tampered_message.to_vec()];

    assert!(!LoquatAggregate::verify(&public_keys, &messages, &aggregate_sig));

    let signed_messages = vec![message1.to_vec(), message2.to_vec()];
    let sums_agree = sum_mod_p(&[sig1.sigma, sig2.sigma])
        == sum_mod_p(&[Loquat::message_digest(message1), Loquat::message_digest(message2)]);
    assert_eq!(LoquatAggregate::verify(&public_keys, &signed_messages, &aggregate_sig), sums_agree);
}

fn matching_signatures(messages: &[Vec<u8>]) -> Vec<LoquatSignature> {
    messages
        .iter()
        .map(|m| LoquatSignature { sigma: Loquat::message_digest(m), merkle_root: Natural::from_u128(0) })
        .collect()
}

#[test]
fn aggregate_verifies_when_the_sums_agree_and_a_replaced_message_fails() {
    for &n in &[1usize, 2, 5] {
        let messages: Vec<Vec<u8>> = (0..n).map(|i| format!("message {}", i).into_bytes()).collect();
        let keys: Vec<Vec<u8>> = (0..n).map(|i| Loquat::public_key(i as u128 + 1)).collect();
        let sigs = matching_signatures(&messages);
        let agg = LoquatAggregate::aggregate_with_challenge(&sigs, 3);
        assert!(LoquatAggregate::verify(&keys, &messages, &agg));
        for i in 0..n {
            let mut changed = messages.clone();
            changed[i] = b"something else".to_vec();
            assert!(!LoquatAggregate::verify(&keys, &changed, &agg));
        }
    }
}

#[test]
fn aggregate_of_signed_messages_is_the_sum_of_responses() {
    let sigs: Vec<LoquatSignature> = (1u128..=5)
        .map(|sk| Loquat::sign(sk, format!("m{}", sk).as_bytes()).unwrap())
        .collect();
    let agg = LoquatAggregate::aggregate(&sigs);
    let sigmas: Vec<u128> = sigs.iter().map(|s| s.sigma).collect();
    assert_eq!(agg.aggregated_sigma, sum_mod_p(&sigmas));
    assert!(agg.challenge >= 1 && agg.challenge < P);
}

#[test]
fn aggregate_verify_rejects_mismatched_lengths() {
    let messages = vec![b"a".to_vec(), b"b".to_vec()];
    let sigs = matching_signatures(&messages);
    let agg = LoquatAggregate::aggregate_with_challenge(&sigs, 1);
    assert!(!LoquatAggregate::verify(&[Loquat::public_key(1)], &messages, &agg));
    let empty = LoquatAggregate::aggregate_with_challenge(&[], 1);
    assert_eq!(empty.aggregated_sigma, 0);
    assert!(LoquatAggregate::verify(&[], &[], &empty));
}
