//! Ring signatures over a list of public keys. Verification checks only that
//! the ring commitment matches the stated ring and that the response lies
//! in the field; it does not show that any member's secret key was used.
use vstd::prelude::*;
use vstd::arithmetic::div_mod::*;
use crate::crypto::hash_functions::{sha3_256_of, HashFunction};
use crate::crypto::merkle::{nodes_view, root_of, MerkleTree};
use crate::utils::encoding::{be_value, canonical, reduce_be, Natural};
use crate::utils::field_operations::{mod_add, P};
use crate::utils::randomness::random_in_range;

verus! {

/// The byte strings of a list of public keys.
pub open spec fn keys_view(keys: Seq<Vec<u8>>) -> Seq<Seq<u8>> {
    keys.map_values(|k: Vec<u8>| k@)
}

/// The ring commitment: the Merkle root over the public keys read as
/// big-endian numbers.
pub open spec fn ring_root(keys: Seq<Seq<u8>>) -> Seq<u8> {
    root_of(HashFunction::Sha3_256, keys.map_values(|k: Seq<u8>| canonical(k)))
}

/// The ring response `sk + H(message) + challenge mod P`, with the digest
/// read as an unreduced 256-bit number.
pub open spec fn ring_response(sk: u128, message: Seq<u8>, challenge: u128) -> u128 {
    ((sk + be_value(sha3_256_of(message)) + challenge) % (P as int)) as u128
}

/// Whether a ring signature with response `sigma` and commitment
/// `commitment` verifies for the ring `keys`.
pub open spec fn ring_valid(keys: Seq<Seq<u8>>, sigma: u128, commitment: Seq<u8>) -> bool {
    keys.len() > 0 && ring_root(keys) == commitment && sigma < P
}

/// A ring signature.
#[derive(Debug, Clone)]
pub struct RingSignature {
    /// The response.
    pub sigma: u128,
    /// The Merkle root over the ring's public keys.
    pub ring_commitment: Natural,
    /// The random challenge drawn at signing.
    pub challenge: u128,
}

/// The Loquat ring signature scheme.
pub struct LoquatRingSignature;

impl LoquatRingSignature {
    /// The Merkle root over the ring, none for an empty ring.
    fn ring_commitment(public_keys: &[Vec<u8>]) -> (r: Option<Natural>)
        ensures
            match r {
                None => public_keys@.len() == 0,
                Some(c) => public_keys@.len() > 0 && c@ == ring_root(keys_view(public_keys@)),
            },
    {
        let mut leaves: Vec<Natural> = Vec::new();
        let mut i: usize = 0;
        while i < public_keys.len()
            invariant
                i <= public_keys@.len(),
                nodes_view(leaves@) =~= keys_view(public_keys@).map_values(|k: Seq<u8>| canonical(k)).take(
                    i as int,
                ),
            decreases public_keys@.len() - i,
        {
            let leaf = Natural::from_bytes_be(public_keys[i].as_slice());
            proof {
                assert(nodes_view(leaves@.push(leaf)) =~= nodes_view(leaves@).push(leaf@));
            }
            leaves.push(leaf);
            i = i + 1;
        }
        proof {
            let all = keys_view(public_keys@).map_values(|k: Seq<u8>| canonical(k));
            assert(all.take(public_keys@.len() as int) =~= all);
        }
        let tree = MerkleTree::new(leaves, HashFunction::Sha3_256);
        tree.root()
    }

    /// Signs `message` for the ring `public_keys` under the given challenge.
    /// The signer's position is not used.
    pub fn sign_with_challenge(
        sk: u128,
        message: &[u8],
        public_keys: &[Vec<u8>],
        signer_index: usize,
        challenge: u128,
    ) -> (r: RingSignature)
        requires
            public_keys@.len() > 0,
        ensures
            r.sigma == ring_response(sk, message@, challenge),
            r.ring_commitment@ == ring_root(keys_view(public_keys@)),
            r.challenge == challenge,
    {
        let hash = crate::crypto::hash_functions::Hash::new(HashFunction::Sha3_256).compute(message);
        let m = reduce_be(hash.as_slice(), P);
        let ring_commitment = Self::ring_commitment(public_keys).unwrap();
        let sigma = mod_add(mod_add(sk, m, P), challenge, P);
        proof {
            let pm = P as int;
            let big = be_value(hash@) as int;
            lemma_add_mod_noop_right(sk as int, big, pm);
            lemma_add_mod_noop(sk + big, challenge as int, pm);
            lemma_add_mod_noop(sk + m, challenge as int, pm);
            lemma_mod_twice(challenge as int, pm);
        }
        RingSignature { sigma, ring_commitment, challenge }
    }

    /// Signs `message` for the ring `public_keys` with a fresh challenge drawn
    /// from `[1, P - 1)`.
    pub fn sign(sk: u128, message: &[u8], public_keys: &[Vec<u8>], signer_index: usize) -> (r: RingSignature)
        requires
            public_keys@.len() > 0,
        ensures
            1 <= r.challenge < P - 1,
            r.sigma == ring_response(sk, message@, r.challenge),
            r.ring_commitment@ == ring_root(keys_view(public_keys@)),
    {
        let challenge = random_in_range(1, P - 1);
        Self::sign_with_challenge(sk, message, public_keys, signer_index, challenge)
    }

    /// Accepts exactly when the ring is non-empty, its commitment matches,
    /// and the response lies in `[0, P)`. The message takes no part.
    pub fn verify(public_keys: &[Vec<u8>], message: &[u8], ring_sig: &RingSignature) -> (r: bool)
        ensures
            r == ring_valid(keys_view(public_keys@), ring_sig.sigma, ring_sig.ring_commitment@),
    {
        match Self::ring_commitment(public_keys) {
            Some(expected) => expected.equals(&ring_sig.ring_commitment) && ring_sig.sigma < P,
            None => false,
        }
    }
}

/// Ring round trip: a ring signature verifies for the ring it was made for,
/// whatever the signer's key, the challenge, or the message it is checked
/// against.
pub proof fn lemma_ring_sign_then_verify(sk: u128, message: Seq<u8>, keys: Seq<Seq<u8>>, challenge: u128)
    requires
        keys.len() > 0,
    ensures
        ring_valid(keys, ring_response(sk, message, challenge), ring_root(keys)),
{
    lemma_mod_bound(sk + be_value(sha3_256_of(message)) + challenge, P as int);
}

} // verus!
