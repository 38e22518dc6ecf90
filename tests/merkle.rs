use loquat_vc::crypto::hash_functions::HashFunction;
use loquat_vc::crypto::merkle::MerkleTree;
use loquat_vc::utils::encoding::Natural;

fn leaves_of(values: &[u128]) -> Vec<Natural> {
    values.iter().map(|&v| Natural::from_u128(v)).collect()
}

#[test]
fn test_merkle_tree() {
    let leaves = leaves_of(&[1, 2, 3, 4]);
    let tree = MerkleTree::new(leaves.clone(), HashFunction::Sha3_256);

    let root = tree.root().unwrap();
    let proof = tree.generate_proof(2).unwrap();
    assert!(MerkleTree::verify_proof(&root, &leaves[2], &proof, &HashFunction::Sha3_256));
}

#[test]
fn merkle_test_invalid_proof() {
    let leaves = leaves_of(&[1, 2, 3, 4]);
    let tree = MerkleTree::new(leaves.clone(), HashFunction::Sha3_256);

    let root = tree.root().unwrap();
    let proof = tree.generate_proof(1).unwrap();
    assert!(!MerkleTree::verify_proof(&root, &leaves[3], &proof, &HashFunction::Sha3_256));
}

#[test]
fn every_leaf_proof_verifies_and_every_flip_fails() {
    for &n in &[1usize, 2, 3, 4, 5, 8] {
        let values: Vec<u128> = (0..n as u128).map(|v| 1000 + v).collect();
        let leaves = leaves_of(&values);
        let tree = MerkleTree::new(leaves.clone(), HashFunction::Sha3_256);
        let root = tree.root().unwrap();
        for i in 0..n {
            let proof = tree.generate_proof(i).unwrap();
            assert!(MerkleTree::verify_proof(&root, &leaves[i], &proof, &HashFunction::Sha3_256));
            for k in 0..proof.len() {
                let mut flipped_side = proof.clone();
                flipped_side[k].1 = !flipped_side[k].1;
                assert!(!MerkleTree::verify_proof(&root, &leaves[i], &flipped_side, &HashFunction::Sha3_256));
                let mut flipped_value = proof.clone();
                flipped_value[k].0 = Natural::from_u128(7);
                assert!(!MerkleTree::verify_proof(&root, &leaves[i], &flipped_value, &HashFunction::Sha3_256));
            }
        }
        assert!(tree.generate_proof(n).is_none());
    }
}

#[test]
fn single_leaf_is_its_own_root() {
    let leaves = leaves_of(&[42]);
    let tree = MerkleTree::new(leaves.clone(), HashFunction::Sha3_256);
    assert_eq!(tree.root().unwrap(), leaves[0]);
    assert!(tree.generate_proof(0).unwrap().is_empty());
}

#[test]
fn empty_tree_has_no_root() {
    let tree = MerkleTree::new(Vec::new(), HashFunction::Sha3_256);
    assert!(tree.root().is_none());
    assert!(tree.generate_proof(0).is_none());
}

#[test]
fn odd_leaf_is_carried_up_unchanged() {
    let leaves = leaves_of(&[1, 2, 3]);
    let tree = MerkleTree::new(leaves.clone(), HashFunction::Sha3_256);
    let proof = tree.generate_proof(2).unwrap();
    // The third leaf has no sibling in the bottom layer.
    assert_eq!(proof.len(), 1);
    assert!(!proof[0].1);
    let pair = MerkleTree::new(leaves_of(&[1, 2]), HashFunction::Sha3_256).root().unwrap();
    assert_eq!(proof[0].0, pair);
}

#[test]
fn two_leaf_root_is_the_digest_of_the_concatenated_bytes() {
    let tree = MerkleTree::new(leaves_of(&[1, 2]), HashFunction::Sha3_256);
    let digest = loquat_vc::crypto::hash_functions::Hash::new(HashFunction::Sha3_256).compute(&[1u8, 2u8]);
    assert_eq!(tree.root().unwrap(), Natural::from_bytes_be(&digest));
}

#[test]
fn proofs_round_trip_under_every_algorithm() {
    for alg in [HashFunction::Sha3_256, HashFunction::Shake128, HashFunction::Poseidon, HashFunction::Griffin] {
        let leaves = leaves_of(&[5, 6, 7, 8, 9]);
        let tree = MerkleTree::new(leaves.clone(), alg);
        let root = tree.root().unwrap();
        for i in 0..5 {
            let proof = tree.generate_proof(i).unwrap();
            assert!(MerkleTree::verify_proof(&root, &leaves[i], &proof, &alg));
        }
    }
}
