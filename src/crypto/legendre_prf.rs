//! The Legendre pseudorandom function: the quadratic character of
//! `key + x` in the field of order `P`.
use vstd::prelude::*;
use vstd::arithmetic::div_mod::*;
use crate::utils::error::LoquatError;
use crate::utils::field_operations::{
    lemma_power_distributes, lemma_power_mod_base, mod_add, mod_pow, power, P,
};
use crate::utils::randomness::random_in_range;

verus! {

/// The exponent `(P - 1) / 2` of Euler's criterion.
pub const EULER_EXP: u128 = (P - 1) / 2;

/// `a^((P - 1) / 2) mod P`.
pub open spec fn euler_power(a: u128) -> int {
    power(a as int, EULER_EXP as nat) % (P as int)
}

/// The Legendre symbol of `a`: zero for `a = 0 mod P`, else one when Euler's
/// power is one, else minus one.
pub open spec fn legendre(a: u128) -> i8 {
    if a % P == 0 {
        0
    } else if euler_power(a) == 1 {
        1
    } else {
        -1i8
    }
}

/// The PRF bit at `key + x mod P`: zero on a quadratic residue, one on a
/// non-residue, an arithmetic error at zero.
pub open spec fn prf_bit(key: u128, x: u128) -> Result<u8, LoquatError> {
    let k = ((key + x) % (P as int)) as u128;
    if legendre(k) == 1 {
        Ok(0u8)
    } else if legendre(k) == -1 {
        Ok(1u8)
    } else {
        Err(LoquatError::ArithmeticError)
    }
}

/// The Legendre PRF under one secret key.
pub struct LegendrePRF {
    secret_key: u128,
}

impl View for LegendrePRF {
    type V = u128;

    closed spec fn view(&self) -> u128 {
        self.secret_key
    }
}

impl LegendrePRF {
    /// A PRF under a fresh secret key drawn from `[1, P)`.
    pub fn new() -> (r: Self)
        ensures
            1 <= r@ < P,
    {
        LegendrePRF { secret_key: random_in_range(1, P) }
    }

    /// A PRF under `key mod P`.
    pub fn with_key(key: u128) -> (r: Self)
        ensures
            r@ == key % P,
    {
        LegendrePRF { secret_key: key % P }
    }

    /// The same as `new`.
    pub fn keygen() -> (r: Self)
        ensures
            1 <= r@ < P,
    {
        Self::new()
    }

    /// The secret key.
    pub fn secret_key(&self) -> (r: u128)
        ensures
            r == self@,
    {
        self.secret_key
    }

    /// The Legendre symbol of `a` modulo `P`, by Euler's criterion.
    pub fn legendre_symbol(a: u128) -> (r: i8)
        ensures
            r == legendre(a),
    {
        if a % P == 0 {
            return 0;
        }
        let result = mod_pow(a, EULER_EXP, P);
        if result == 1 {
            1
        } else {
            -1
        }
    }

    /// The PRF bit at `x`: zero when `key + x` is a quadratic residue, one
    /// when it is not, an arithmetic error when it is zero modulo `P`.
    pub fn evaluate(&self, x: u128) -> (r: Result<u8, LoquatError>)
        ensures
            r == prf_bit(self@, x),
    {
        let k = mod_add(self.secret_key, x, P);
        let symbol = Self::legendre_symbol(k);
        if symbol == 1 {
            Ok(0)
        } else if symbol == -1 {
            Ok(1)
        } else {
            Err(LoquatError::ArithmeticError)
        }
    }
}

/// The Legendre symbol is multiplicative on nonzero elements whose Euler
/// powers are `1` or `P - 1`. Euler's criterion gives this of every nonzero
/// element for the prime `P`; that primality is not proved here, so it
/// stands as the premise.
pub proof fn lemma_legendre_multiplicative(a: u128, b: u128)
    requires
        a % P != 0,
        b % P != 0,
        euler_power(a) == 1 || euler_power(a) == P - 1,
        euler_power(b) == 1 || euler_power(b) == P - 1,
    ensures
        legendre(a) * legendre(b) == legendre(((a * b) % (P as int)) as u128),
{
    let m = P as int;
    let e = EULER_EXP as nat;
    let ab = (a * b) % m;
    lemma_power_mod_base(a * b, e, m);
    lemma_power_distributes(a as int, b as int, e);
    lemma_mul_mod_noop(power(a as int, e), power(b as int, e), m);
    lemma_small_mod(ab as nat, P as nat);
    let x = euler_power(a);
    let y = euler_power(b);
    assert((x * y) % m == power(ab, e) % m);
    assert((m - 1) * (m - 1) == m * (m - 2) + 1);
    lemma_mod_multiples_vanish(m - 2, 1, m);
    lemma_small_mod(1, P as nat);
    lemma_small_mod((P - 1) as nat, P as nat);
    assert(1 * (m - 1) == m - 1);
    assert((m - 1) * 1 == m - 1);
    if ab == 0 {
        assert(power(0, e) == 0) by {
            assert(e > 0);
            assert(power(0, e) == 0 * power(0, (e - 1) as nat));
        }
        lemma_small_mod(0, P as nat);
    }
}

} // verus!
