//! Fixed-output digests of byte strings. SHA3-256 and SHAKE128 come from the
//! `sha3` crate; Poseidon and Griffin are simplified, unvetted placeholders
//! built on the field arithmetic, not production-grade hashes.
use vstd::prelude::*;
use sha3::digest::ExtendableOutput;
use sha3::{Digest, Sha3_256, Shake128};
use crate::utils::encoding::{le_bytes, le_value, lemma_le_bytes_len, lemma_power_256_bound, push_le_bytes};
use crate::utils::field_operations::{mod_add, mod_pow, power, P};

verus! {

/// The digest algorithms on offer.
#[derive(Clone, Copy, Debug, PartialEq, Eq, Structural)]
pub enum HashFunction {
    Sha3_256,
    Shake128,
    /// Placeholder: S-box rounds only, no round constants or MDS mixing.
    Poseidon,
    /// Placeholder: alternating S-box and inverse S-box with a rotation mix.
    Griffin,
}

/// What SHA3-256 gives for a byte string.
pub uninterp spec fn sha3_256_of(input: Seq<u8>) -> Seq<u8>;

/// The first 32 bytes that SHAKE128 gives for a byte string.
pub uninterp spec fn shake128_of(input: Seq<u8>) -> Seq<u8>;

/// Relies on `sha3::Sha3_256::digest` (the `Digest` trait of `digest` 0.10):
/// the SHA3-256 digest, whose output size is 32 bytes.
#[verifier::external_body]
fn sha3_256(input: &[u8]) -> (r: Vec<u8>)
    ensures
        r@ == sha3_256_of(input@),
        r@.len() == 32,
{
    Sha3_256::digest(input).to_vec()
}

/// Relies on `sha3::Shake128::digest_xof` (the `ExtendableOutput` trait of
/// `digest` 0.10): it fills the 32-byte buffer with SHAKE128 output.
#[verifier::external_body]
fn shake128(input: &[u8]) -> (r: Vec<u8>)
    ensures
        r@ == shake128_of(input@),
        r@.len() == 32,
{
    let mut output = [0u8; 32];
    Shake128::digest_xof(input, &mut output);
    output.to_vec()
}

/// Number of field elements in the placeholder permutations' state.
pub const STATE_WIDTH: usize = 3;

/// Bytes of input absorbed into each state element.
pub const CHUNK_BYTES: usize = 16;

/// Placeholder Poseidon: S-box rounds applied to the first state element.
pub const POSEIDON_FIRST_ROUNDS: u128 = 65;

/// Placeholder Poseidon: S-box rounds applied to the other state elements.
pub const POSEIDON_OTHER_ROUNDS: u128 = 8;

/// Placeholder Griffin: number of rounds.
pub const GRIFFIN_ROUNDS: u128 = 10;

/// The S-box exponent of both placeholders.
pub const SBOX_EXP: u128 = 5;

/// Griffin's inverse S-box exponent, `(P + 1) / 5`.
pub const INV_SBOX_EXP: u128 = (P + 1) / 5;

/// The `i`-th initial state element: the `i`-th 16-byte chunk of the input,
/// read little-endian and reduced modulo `P`; zero past the input's end.
pub open spec fn initial_state(input: Seq<u8>, i: nat) -> nat {
    let start = CHUNK_BYTES * i;
    if start < input.len() {
        let end = if start + CHUNK_BYTES < input.len() { start + CHUNK_BYTES } else { input.len() as int };
        le_value(input.subrange(start as int, end)) % (P as nat)
    } else {
        0
    }
}

/// `x` after `n` rounds of the S-box `x -> x^5 mod P`.
pub open spec fn sbox_rounds(x: nat, n: nat) -> nat
    decreases n,
{
    if n == 0 {
        x
    } else {
        (power(sbox_rounds(x, (n - 1) as nat) as int, SBOX_EXP as nat) % (P as int)) as nat
    }
}

/// The placeholder Poseidon digest: the first two state elements after their
/// S-box rounds, 16 little-endian bytes each.
pub open spec fn poseidon_of(input: Seq<u8>) -> Seq<u8> {
    le_bytes(sbox_rounds(initial_state(input, 0), POSEIDON_FIRST_ROUNDS as nat), 16) + le_bytes(
        sbox_rounds(initial_state(input, 1), POSEIDON_OTHER_ROUNDS as nat),
        16,
    )
}

/// One Griffin round on the state `(a, b, c)`: every element through the
/// S-box (even rounds) or the inverse S-box (odd rounds), then each element
/// plus its successor, cyclically.
pub open spec fn griffin_round(s: (nat, nat, nat), round: nat) -> (nat, nat, nat) {
    let e = if round % 2 == 0 { SBOX_EXP as nat } else { INV_SBOX_EXP as nat };
    let a = (power(s.0 as int, e) % (P as int)) as nat;
    let b = (power(s.1 as int, e) % (P as int)) as nat;
    let c = (power(s.2 as int, e) % (P as int)) as nat;
    ((a + b) % (P as nat), (b + c) % (P as nat), (c + a) % (P as nat))
}

/// The Griffin state after rounds `0 .. n`.
pub open spec fn griffin_rounds(s: (nat, nat, nat), n: nat) -> (nat, nat, nat)
    decreases n,
{
    if n == 0 {
        s
    } else {
        griffin_round(griffin_rounds(s, (n - 1) as nat), (n - 1) as nat)
    }
}

/// The placeholder Griffin digest.
pub open spec fn griffin_of(input: Seq<u8>) -> Seq<u8> {
    let s = griffin_rounds(
        (initial_state(input, 0), initial_state(input, 1), initial_state(input, 2)),
        GRIFFIN_ROUNDS as nat,
    );
    le_bytes(s.0, 16) + le_bytes(s.1, 16)
}

/// The digest of `input` under `algorithm`.
pub open spec fn digest_of(algorithm: HashFunction, input: Seq<u8>) -> Seq<u8> {
    match algorithm {
        HashFunction::Sha3_256 => sha3_256_of(input),
        HashFunction::Shake128 => shake128_of(input),
        HashFunction::Poseidon => poseidon_of(input),
        HashFunction::Griffin => griffin_of(input),
    }
}

/// The little-endian value of `input[start..end]`, a run of at most 16 bytes.
fn le_chunk(input: &[u8], start: usize, end: usize) -> (r: u128)
    requires
        start <= end <= input@.len(),
        end - start <= CHUNK_BYTES,
    ensures
        r == le_value(input@.subrange(start as int, end as int)),
{
    let mut value: u128 = 0;
    let mut j: usize = end;
    proof {
        assert(input@.subrange(end as int, end as int).len() == 0);
    }
    while j > start
        invariant
            start <= j <= end <= input@.len(),
            end - start <= CHUNK_BYTES,
            value == le_value(input@.subrange(j as int, end as int)),
            value < power(256, (end - j) as nat),
        decreases j,
    {
        j = j - 1;
        proof {
            let k = (end - j - 1) as nat;
            let sub = input@.subrange(j as int, end as int);
            assert(sub.drop_first() =~= input@.subrange(j + 1, end as int));
            lemma_power_256_bound(k);
            assert(power(256, k + 1) == 256 * power(256, k));
        }
        value = (input[j] as u128) + 256 * value;
    }
    value
}

/// The `i`-th initial state element of the placeholder permutations.
fn initial_element(input: &[u8], i: usize) -> (r: u128)
    requires
        i < STATE_WIDTH,
    ensures
        r == initial_state(input@, i as nat),
{
    let start = CHUNK_BYTES * i;
    if start < input.len() {
        let end = if start + CHUNK_BYTES < input.len() { start + CHUNK_BYTES } else { input.len() };
        le_chunk(input, start, end) % P
    } else {
        0
    }
}

/// `x` after `rounds` rounds of the S-box.
fn sbox_iterate(x: u128, rounds: u128) -> (r: u128)
    ensures
        r == sbox_rounds(x as nat, rounds as nat),
{
    let mut y: u128 = x;
    let mut i: u128 = 0;
    while i < rounds
        invariant
            i <= rounds,
            y == sbox_rounds(x as nat, i as nat),
        decreases rounds - i,
    {
        y = mod_pow(y, SBOX_EXP, P);
        i = i + 1;
    }
    y
}

/// The placeholder Poseidon digest.
fn poseidon(input: &[u8]) -> (r: Vec<u8>)
    ensures
        r@ == poseidon_of(input@),
{
    let first = sbox_iterate(initial_element(input, 0), POSEIDON_FIRST_ROUNDS);
    let second = sbox_iterate(initial_element(input, 1), POSEIDON_OTHER_ROUNDS);
    let mut output: Vec<u8> = Vec::new();
    push_le_bytes(&mut output, first, 16);
    push_le_bytes(&mut output, second, 16);
    proof {
        assert(output@ =~= poseidon_of(input@));
    }
    output
}

/// The placeholder Griffin digest.
fn griffin(input: &[u8]) -> (r: Vec<u8>)
    ensures
        r@ == griffin_of(input@),
{
    let mut s0 = initial_element(input, 0);
    let mut s1 = initial_element(input, 1);
    let mut s2 = initial_element(input, 2);
    let ghost init = (s0 as nat, s1 as nat, s2 as nat);
    let mut round: u128 = 0;
    while round < GRIFFIN_ROUNDS
        invariant
            round <= GRIFFIN_ROUNDS,
            (s0 as nat, s1 as nat, s2 as nat) == griffin_rounds(init, round as nat),
        decreases GRIFFIN_ROUNDS - round,
    {
        let e = if round % 2 == 0 { SBOX_EXP } else { INV_SBOX_EXP };
        let a = mod_pow(s0, e, P);
        let b = mod_pow(s1, e, P);
        let c = mod_pow(s2, e, P);
        s0 = mod_add(a, b, P);
        s1 = mod_add(b, c, P);
        s2 = mod_add(c, a, P);
        round = round + 1;
    }
    let mut output: Vec<u8> = Vec::new();
    push_le_bytes(&mut output, s0, 16);
    push_le_bytes(&mut output, s1, 16);
    proof {
        assert(output@ =~= griffin_of(input@));
    }
    output
}

/// A digest algorithm, chosen once.
pub struct Hash {
    algorithm: HashFunction,
}

impl Hash {
    /// The spec-level algorithm of this instance.
    pub closed spec fn spec_algorithm(&self) -> HashFunction {
        self.algorithm
    }

    /// A hash instance running `algorithm`.
    pub fn new(algorithm: HashFunction) -> (r: Self)
        ensures
            r.spec_algorithm() == algorithm,
    {
        Hash { algorithm }
    }

    /// The 32-byte digest of `input`.
    pub fn compute(&self, input: &[u8]) -> (r: Vec<u8>)
        ensures
            r@ == digest_of(self.spec_algorithm(), input@),
            r@.len() == 32,
    {
        proof {
            lemma_digest_len(self.algorithm, input@);
        }
        match self.algorithm {
            HashFunction::Sha3_256 => sha3_256(input),
            HashFunction::Shake128 => shake128(input),
            HashFunction::Poseidon => poseidon(input),
            HashFunction::Griffin => griffin(input),
        }
    }
}

/// Every algorithm's digest is 32 bytes long.
pub proof fn lemma_digest_len(algorithm: HashFunction, input: Seq<u8>)
    ensures
        algorithm is Poseidon || algorithm is Griffin ==> digest_of(algorithm, input).len() == 32,
{
    let s = griffin_rounds(
        (initial_state(input, 0), initial_state(input, 1), initial_state(input, 2)),
        GRIFFIN_ROUNDS as nat,
    );
    lemma_le_bytes_len(s.0, 16);
    lemma_le_bytes_len(s.1, 16);
    lemma_le_bytes_len(sbox_rounds(initial_state(input, 0), POSEIDON_FIRST_ROUNDS as nat), 16);
    lemma_le_bytes_len(sbox_rounds(initial_state(input, 1), POSEIDON_OTHER_ROUNDS as nat), 16);
}

} // verus!
