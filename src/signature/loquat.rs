//! The Loquat signature: the Legendre PRF bit of the message digest under the
//! secret key chooses whether the response adds or subtracts the digest, and
//! a two-leaf Merkle root binds the response to the digest.
use vstd::prelude::*;
use vstd::arithmetic::div_mod::*;
use crate::crypto::hash_functions::{sha3_256_of, HashFunction};
use crate::crypto::legendre_prf::{prf_bit, LegendrePRF};
use crate::crypto::merkle::{root_of, MerkleTree};
use crate::utils::encoding::{be16, be_value, bytes_equal, canonical, reduce_be, u128_to_be_bytes, Natural};
use crate::utils::error::LoquatError;
use crate::utils::field_operations::{mod_add, mod_sub, P};
use crate::utils::randomness::random_in_range;

verus! {

/// The message digest reduced into the field.
pub open spec fn message_digest(message: Seq<u8>) -> u128 {
    (be_value(sha3_256_of(message)) % (P as nat)) as u128
}

/// The public key of a secret key: the SHA3-256 digest of its 16 big-endian
/// bytes.
pub open spec fn public_key_of(sk: u128) -> Seq<u8> {
    sha3_256_of(be16(sk))
}

/// The response: `sk + m` for PRF bit one, `sk - m` for bit zero, mod `P`.
pub open spec fn response(sk: u128, m: u128, bit: u8) -> u128 {
    if bit == 1 {
        ((sk + m) % (P as int)) as u128
    } else {
        ((sk - m) % (P as int)) as u128
    }
}

/// The Merkle root over the two leaves `sigma` and `m`.
pub open spec fn commitment(sigma: u128, m: u128) -> Seq<u8> {
    root_of(HashFunction::Sha3_256, seq![canonical(be16(sigma)), canonical(be16(m))])
}

/// The two algebraic branches a signer may have taken.
#[derive(Clone, Copy, Debug, PartialEq, Eq, Structural)]
pub enum Branch {
    /// PRF bit one: the response added the digest.
    Added,
    /// PRF bit zero: the response subtracted the digest.
    Subtracted,
}

/// The secret key that `sigma` reveals if it was made on `branch`.
pub open spec fn candidate_key(sigma: u128, m: u128, branch: Branch) -> u128 {
    match branch {
        Branch::Added => ((sigma - m) % (P as int)) as u128,
        Branch::Subtracted => ((sigma + m) % (P as int)) as u128,
    }
}

/// Whether the signature `(sigma, root)` on `message` verifies under `pk`:
/// some branch's candidate key, the added one first, has public key `pk`,
/// and re-signing the digest with it gives the same root.
pub open spec fn signature_valid(pk: Seq<u8>, message: Seq<u8>, sigma: u128, root: Seq<u8>) -> bool {
    let m = message_digest(message);
    let s = (sigma % P) as u128;
    let k1 = candidate_key(s, m, Branch::Added);
    let k2 = candidate_key(s, m, Branch::Subtracted);
    if public_key_of(k1) != pk && public_key_of(k2) != pk {
        false
    } else {
        let sk = if public_key_of(k1) == pk { k1 } else { k2 };
        match prf_bit(sk, m) {
            Ok(b) => commitment(response(sk, m, b), m) == root,
            Err(_) => false,
        }
    }
}

/// A Loquat signature.
#[derive(Debug, Clone)]
pub struct LoquatSignature {
    /// The response.
    pub sigma: u128,
    /// The Merkle root over the response and the message digest.
    pub merkle_root: Natural,
}

/// A secret key and its public key.
#[derive(Debug, Clone)]
pub struct LoquatKeyPair {
    pub secret_key: u128,
    pub public_key: Vec<u8>,
}

/// The Loquat signature scheme.
pub struct Loquat;

impl Loquat {
    /// The message digest reduced into the field.
    pub fn message_digest(message: &[u8]) -> (r: u128)
        ensures
            r == message_digest(message@),
            r < P,
    {
        let hash = crate::crypto::hash_functions::Hash::new(HashFunction::Sha3_256).compute(message);
        reduce_be(hash.as_slice(), P)
    }

    /// The public key of `secret_key`.
    pub fn public_key(secret_key: u128) -> (r: Vec<u8>)
        ensures
            r@ == public_key_of(secret_key),
    {
        let bytes = u128_to_be_bytes(secret_key);
        crate::crypto::hash_functions::Hash::new(HashFunction::Sha3_256).compute(bytes.as_slice())
    }

    /// The key pair of a given secret key.
    pub fn keypair_from_secret(secret_key: u128) -> (r: LoquatKeyPair)
        ensures
            r.secret_key == secret_key,
            r.public_key@ == public_key_of(secret_key),
    {
        LoquatKeyPair { secret_key, public_key: Self::public_key(secret_key) }
    }

    /// A key pair with a secret key drawn from `[1, P)`.
    pub fn keygen() -> (r: LoquatKeyPair)
        ensures
            1 <= r.secret_key < P,
            r.public_key@ == public_key_of(r.secret_key),
    {
        let secret_key = random_in_range(1, P);
        Self::keypair_from_secret(secret_key)
    }

    /// The response to digest `m` for PRF bit `bit`.
    fn respond(sk: u128, m: u128, bit: u8) -> (r: u128)
        ensures
            r == response(sk, m, bit),
    {
        if bit == 1 {
            mod_add(sk, m, P)
        } else {
            mod_sub(sk, m, P)
        }
    }

    /// The candidate secret key for `branch`.
    fn recover_key(sigma: u128, m: u128, branch: Branch) -> (r: u128)
        ensures
            r == candidate_key(sigma, m, branch),
    {
        match branch {
            Branch::Added => mod_sub(sigma, m, P),
            Branch::Subtracted => mod_add(sigma, m, P),
        }
    }

    /// The Merkle root over the leaves `sigma` and `m`.
    fn commit(sigma: u128, m: u128) -> (r: Natural)
        ensures
            r@ == commitment(sigma, m),
    {
        let mut leaves: Vec<Natural> = Vec::new();
        leaves.push(Natural::from_u128(sigma));
        leaves.push(Natural::from_u128(m));
        let tree = MerkleTree::new(leaves, HashFunction::Sha3_256);
        proof {
            assert(crate::crypto::merkle::nodes_view(leaves@) =~= seq![
                canonical(be16(sigma)),
                canonical(be16(m)),
            ]);
        }
        tree.root().unwrap()
    }

    /// Signs `message` under `sk`. Fails with an arithmetic error exactly when
    /// the PRF is undefined there, that is when `sk + m = 0 mod P`.
    pub fn sign(sk: u128, message: &[u8]) -> (r: Result<LoquatSignature, LoquatError>)
        ensures
            match prf_bit(sk, message_digest(message@)) {
                Ok(b) => r is Ok && r->Ok_0.sigma == response(sk, message_digest(message@), b)
                    && r->Ok_0.merkle_root@ == commitment(
                    response(sk, message_digest(message@), b),
                    message_digest(message@),
                ),
                Err(e) => r == Err::<LoquatSignature, LoquatError>(e),
            },
    {
        let m = Self::message_digest(message);
        let prf = LegendrePRF::with_key(sk);
        proof {
            lemma_add_mod_noop(sk as int, m as int, P as int);
            lemma_small_mod(m as nat, P as nat);
        }
        let bit = match prf.evaluate(m) {
            Ok(b) => b,
            Err(e) => return Err(e),
        };
        let sigma = Self::respond(sk, m, bit);
        let merkle_root = Self::commit(sigma, m);
        Ok(LoquatSignature { sigma, merkle_root })
    }

    /// Verifies `signature` on `message` under `pk`. The branch the signer
    /// took is not known: the candidate key of each branch is checked against
    /// `pk`, the added branch first, and the match is re-signed. A PRF
    /// failure on the candidate rejects.
    pub fn verify(pk: &[u8], message: &[u8], signature: &LoquatSignature) -> (r: bool)
        ensures
            r == signature_valid(pk@, message@, signature.sigma, signature.merkle_root@),
    {
        let m = Self::message_digest(message);
        let sigma = signature.sigma % P;
        let branches = [Branch::Added, Branch::Subtracted];
        let mut found: Option<u128> = None;
        let mut i: usize = 0;
        while i < 2
            invariant
                i <= 2,
                branches@ == seq![Branch::Added, Branch::Subtracted],
                found == (if i >= 1 && public_key_of(candidate_key(sigma, m, Branch::Added)) == pk@ {
                    Some(candidate_key(sigma, m, Branch::Added))
                } else if i >= 2 && public_key_of(candidate_key(sigma, m, Branch::Subtracted)) == pk@ {
                    Some(candidate_key(sigma, m, Branch::Subtracted))
                } else {
                    None::<u128>
                }),
            decreases 2 - i,
        {
            if found.is_none() {
                let key = Self::recover_key(sigma, m, branches[i]);
                let expected = Self::public_key(key);
                if bytes_equal(expected.as_slice(), pk) {
                    found = Some(key);
                }
            }
            i = i + 1;
        }
        let sk = match found {
            Some(k) => k,
            None => return false,
        };
        let prf = LegendrePRF::with_key(sk);
        proof {
            lemma_small_mod(sk as nat, P as nat);
        }
        let bit = match prf.evaluate(m) {
            Ok(b) => b,
            Err(_) => return false,
        };
        let expected_root = Self::commit(Self::respond(sk, m, bit), m);
        expected_root.equals(&signature.merkle_root)
    }
}

/// Correctness: a signature made by `sign` under a secret key in `[1, P)`
/// verifies under that key's public key. The only way it can fail is a
/// digest collision: on PRF bit zero the added-branch candidate `sk - 2m`
/// is tried first, and it must not share the public key of `sk` unless it
/// is `sk`.
pub proof fn lemma_sign_then_verify(sk: u128, message: Seq<u8>)
    requires
        1 <= sk < P,
        prf_bit(sk, message_digest(message)) is Ok,
        ({
            let mirror = ((sk - 2 * message_digest(message)) % (P as int)) as u128;
            public_key_of(mirror) == public_key_of(sk) ==> mirror == sk
        }),
    ensures
        ({
            let m = message_digest(message);
            let sigma = response(sk, m, prf_bit(sk, m)->Ok_0);
            signature_valid(public_key_of(sk), message, sigma, commitment(sigma, m))
        }),
{
    let m = message_digest(message);
    let pm = P as int;
    let b = prf_bit(sk, m)->Ok_0;
    let sigma = response(sk, m, b);
    lemma_mod_bound(be_value(sha3_256_of(message)) as int, pm);
    lemma_small_mod(m as nat, P as nat);
    lemma_small_mod(sk as nat, P as nat);
    lemma_small_mod(sigma as nat, P as nat);
    assert(sigma % P == sigma);
    let k1 = candidate_key(sigma, m, Branch::Added);
    let k2 = candidate_key(sigma, m, Branch::Subtracted);
    if b == 1 {
        lemma_sub_mod_noop(sk + m, m as int, pm);
        assert(k1 == sk);
    } else {
        lemma_sub_mod_noop(sk - m, m as int, pm);
        lemma_add_mod_noop(sk - m, m as int, pm);
        assert(k1 == ((sk - 2 * m) % pm) as u128);
        assert(k2 == sk);
    }
}

/// Unforgeability, up to collisions: a signature on `message` does not
/// verify for a message with another reduced digest, as long as no other
/// field element shares the signer's public key and no other pair of field
/// elements shares the signature's Merkle commitment.
pub proof fn lemma_other_message_rejected(sk: u128, message: Seq<u8>, other: Seq<u8>)
    requires
        1 <= sk < P,
        prf_bit(sk, message_digest(message)) is Ok,
        message_digest(other) != message_digest(message),
        forall|k: u128| k < P && #[trigger] public_key_of(k) == public_key_of(sk) ==> k == sk,
        ({
            let m = message_digest(message);
            let sigma = response(sk, m, prf_bit(sk, m)->Ok_0);
            forall|s: u128, t: u128|
                s < P && t < P && #[trigger] commitment(s, t) == commitment(sigma, m) ==> s == sigma && t == m
        }),
    ensures
        ({
            let m = message_digest(message);
            let sigma = response(sk, m, prf_bit(sk, m)->Ok_0);
            !signature_valid(public_key_of(sk), other, sigma, commitment(sigma, m))
        }),
{
    let m = message_digest(message);
    let m2 = message_digest(other);
    let sigma = response(sk, m, prf_bit(sk, m)->Ok_0);
    let pm = P as int;
    lemma_mod_bound(be_value(sha3_256_of(other)) as int, pm);
    lemma_mod_bound(sigma - m2, pm);
    lemma_mod_bound(sigma + m2, pm);
    lemma_small_mod(sigma as nat, P as nat);
    let s = (sigma % P) as u128;
    let k1 = candidate_key(s, m2, Branch::Added);
    let k2 = candidate_key(s, m2, Branch::Subtracted);
    if signature_valid(public_key_of(sk), other, sigma, commitment(sigma, m)) {
        let k = if public_key_of(k1) == public_key_of(sk) { k1 } else { k2 };
        assert(public_key_of(k) == public_key_of(sk));
        assert(k == sk);
        let b = prf_bit(k, m2)->Ok_0;
        let r = response(k, m2, b);
        lemma_mod_bound(k + m2, pm);
        lemma_mod_bound(k - m2, pm);
        assert(r < P);
        assert(commitment(r, m2) == commitment(sigma, m));
    }
}

} // verus!
