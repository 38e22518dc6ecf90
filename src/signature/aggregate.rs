//! Aggregation of Loquat signatures. Verification compares the sum of the
//! responses with the sum of the message digests, modulo `P`: a linear
//! consistency check, not an authentication of each signer.
use vstd::prelude::*;
use vstd::arithmetic::div_mod::*;
use crate::crypto::hash_functions::sha3_256_of;
use crate::signature::loquat::{message_digest, Loquat, LoquatSignature};
use crate::utils::encoding::be_value;
use crate::utils::field_operations::{mod_add, P};
use crate::utils::randomness::random_in_range;

verus! {

/// The sum of the signatures' responses, each reduced modulo `P`.
pub open spec fn sigma_sum(sigs: Seq<LoquatSignature>) -> nat
    decreases sigs.len(),
{
    if sigs.len() == 0 {
        0
    } else {
        sigma_sum(sigs.drop_last()) + (sigs.last().sigma % P) as nat
    }
}

/// The sum of the messages' reduced digests.
pub open spec fn digest_sum(messages: Seq<Seq<u8>>) -> nat
    decreases messages.len(),
{
    if messages.len() == 0 {
        0
    } else {
        digest_sum(messages.drop_last()) + message_digest(messages.last()) as nat
    }
}

/// The byte strings of a list of messages.
pub open spec fn messages_view(messages: Seq<Vec<u8>>) -> Seq<Seq<u8>> {
    messages.map_values(|m: Vec<u8>| m@)
}

/// Whether an aggregate with response sum `aggregated_sigma` verifies for
/// these public keys and messages.
pub open spec fn aggregate_valid(n_keys: nat, messages: Seq<Seq<u8>>, aggregated_sigma: u128) -> bool {
    n_keys == messages.len() && digest_sum(messages) % (P as nat) == aggregated_sigma % P
}

/// An aggregate signature.
#[derive(Debug, Clone)]
pub struct AggregateSignature {
    /// The sum of the responses modulo `P`.
    pub aggregated_sigma: u128,
    /// A random challenge, carried but not checked.
    pub challenge: u128,
}

/// The Loquat aggregate signature scheme.
pub struct LoquatAggregate;

impl LoquatAggregate {
    /// Sums the responses under the given challenge.
    pub fn aggregate_with_challenge(signatures: &[LoquatSignature], challenge: u128) -> (r: AggregateSignature)
        ensures
            r.aggregated_sigma == sigma_sum(signatures@) % (P as nat),
            r.challenge == challenge,
    {
        let mut acc: u128 = 0;
        let mut i: usize = 0;
        proof {
            assert(signatures@.take(0).len() == 0);
        }
        while i < signatures.len()
            invariant
                i <= signatures@.len(),
                acc == sigma_sum(signatures@.take(i as int)) % (P as nat),
            decreases signatures@.len() - i,
        {
            let s = signatures[i].sigma % P;
            proof {
                let t = signatures@.take(i + 1);
                assert(t.drop_last() =~= signatures@.take(i as int));
                lemma_add_mod_noop(sigma_sum(signatures@.take(i as int)) as int, s as int, P as int);
                lemma_mod_twice(sigma_sum(signatures@.take(i as int)) as int, P as int);
                lemma_small_mod(s as nat, P as nat);
            }
            acc = mod_add(acc, s, P);
            i = i + 1;
        }
        proof {
            assert(signatures@.take(signatures@.len() as int) =~= signatures@);
        }
        AggregateSignature { aggregated_sigma: acc, challenge }
    }

    /// Sums the responses; the challenge is drawn from `[1, P)`.
    pub fn aggregate(signatures: &[LoquatSignature]) -> (r: AggregateSignature)
        ensures
            r.aggregated_sigma == sigma_sum(signatures@) % (P as nat),
            1 <= r.challenge < P,
    {
        let challenge = random_in_range(1, P);
        Self::aggregate_with_challenge(signatures, challenge)
    }

    /// Accepts exactly when there are as many keys as messages and the
    /// digests sum to the aggregated response modulo `P`.
    pub fn verify(public_keys: &[Vec<u8>], messages: &[Vec<u8>], agg_sig: &AggregateSignature) -> (r: bool)
        ensures
            r == aggregate_valid(public_keys@.len(), messages_view(messages@), agg_sig.aggregated_sigma),
    {
        if public_keys.len() != messages.len() {
            return false;
        }
        let ghost mv = messages_view(messages@);
        let mut acc: u128 = 0;
        let mut i: usize = 0;
        proof {
            assert(mv.take(0).len() == 0);
        }
        while i < messages.len()
            invariant
                i <= messages@.len(),
                mv == messages_view(messages@),
                acc == digest_sum(mv.take(i as int)) % (P as nat),
            decreases messages@.len() - i,
        {
            let d = Loquat::message_digest(messages[i].as_slice());
            proof {
                let t = mv.take(i + 1);
                assert(t.drop_last() =~= mv.take(i as int));
                assert(t.last() == messages@[i as int]@);
                lemma_add_mod_noop(digest_sum(mv.take(i as int)) as int, d as int, P as int);
                lemma_mod_twice(digest_sum(mv.take(i as int)) as int, P as int);
                lemma_small_mod(d as nat, P as nat);
            }
            acc = mod_add(acc, d, P);
            i = i + 1;
        }
        proof {
            assert(mv.take(messages@.len() as int) =~= mv);
        }
        acc == agg_sig.aggregated_sigma % P
    }
}

/// Aggregate round trip: the aggregate of `sigs` verifies for as many keys
/// as messages whenever the responses and the digests agree in sum modulo
/// `P`. Nothing more holds: the check compares these two sums only, so
/// without that agreement the aggregate is rejected.
pub proof fn lemma_aggregate_round_trip(n_keys: nat, sigs: Seq<LoquatSignature>, messages: Seq<Seq<u8>>)
    requires
        n_keys == messages.len(),
        sigma_sum(sigs) % (P as nat) == digest_sum(messages) % (P as nat),
    ensures
        aggregate_valid(n_keys, messages, (sigma_sum(sigs) % (P as nat)) as u128),
{
    lemma_mod_twice(sigma_sum(sigs) as int, P as int);
}

/// Replacing one message moves the digest sum by the change in its digest.
proof fn lemma_digest_sum_update(messages: Seq<Seq<u8>>, i: int, other: Seq<u8>)
    requires
        0 <= i < messages.len(),
    ensures
        digest_sum(messages.update(i, other)) + message_digest(messages[i]) == digest_sum(messages)
            + message_digest(other),
    decreases messages.len(),
{
    let u = messages.update(i, other);
    if i == messages.len() - 1 {
        assert(u.drop_last() =~= messages.drop_last());
    } else {
        assert(u.drop_last() =~= messages.drop_last().update(i, other));
        lemma_digest_sum_update(messages.drop_last(), i, other);
    }
}

/// Replacing one message of a verifying aggregate by a message with another
/// reduced digest makes it fail.
pub proof fn lemma_aggregate_tamper(
    n_keys: nat,
    messages: Seq<Seq<u8>>,
    aggregated_sigma: u128,
    i: int,
    other: Seq<u8>,
)
    requires
        aggregate_valid(n_keys, messages, aggregated_sigma),
        0 <= i < messages.len(),
        message_digest(other) != message_digest(messages[i]),
    ensures
        !aggregate_valid(n_keys, messages.update(i, other), aggregated_sigma),
{
    let pm = P as int;
    let u = messages.update(i, other);
    let a = message_digest(messages[i]) as int;
    let b = message_digest(other) as int;
    lemma_digest_sum_update(messages, i, other);
    lemma_mod_bound(be_value(sha3_256_of(messages[i])) as int, pm);
    lemma_mod_bound(be_value(sha3_256_of(other)) as int, pm);
    if digest_sum(u) % (P as nat) == aggregated_sigma % P {
        let su = digest_sum(u) as int;
        let sm = digest_sum(messages) as int;
        assert(su % pm == sm % pm);
        assert(su - sm == b - a);
        lemma_mod_equivalence(su, sm, pm);
        assert((b - a) % pm == 0);
        lemma_fundamental_div_mod(b - a, pm);
        assert(false) by (nonlinear_arith)
            requires
                b - a == pm * ((b - a) / pm),
                -pm < b - a < pm,
                b != a,
        ;
    }
}

} // verus!
