//! Modular arithmetic on `u128` values without overflow, and field elements
//! of the prime field of order `P = 2^127 - 1`.
use vstd::prelude::*;
use vstd::arithmetic::div_mod::*;
use crate::utils::encoding::{be16, be_value, lemma_be16_value, lemma_power_256_bound, u128_to_be_bytes};
use crate::utils::error::LoquatError;

verus! {

/// The field modulus, the Mersenne prime `2^127 - 1`.
pub const P: u128 = 0x7fff_ffff_ffff_ffff_ffff_ffff_ffff_ffff;

/// `b` to the power `e`, over the integers.
pub open spec fn power(b: int, e: nat) -> int
    decreases e,
{
    if e == 0 {
        1
    } else {
        b * power(b, (e - 1) as nat)
    }
}

/// Modular addition: `(a + b) mod modulus`, for any operands.
pub fn mod_add(a: u128, b: u128, modulus: u128) -> (r: u128)
    requires
        modulus > 0,
    ensures
        r == (a + b) % (modulus as int),
{
    let x = a % modulus;
    let y = b % modulus;
    proof {
        lemma_add_mod_noop(a as int, b as int, modulus as int);
    }
    if x > modulus - y {
        proof {
            lemma_mod_sub_multiples_vanish(x + y, modulus as int);
        }
        (x - (modulus - y)) % modulus
    } else {
        (x + y) % modulus
    }
}

/// Modular subtraction: `(a - b) mod modulus`, always in `[0, modulus)`.
pub fn mod_sub(a: u128, b: u128, modulus: u128) -> (r: u128)
    requires
        modulus > 0,
    ensures
        r == (a - b) % (modulus as int),
{
    let x = a % modulus;
    let y = b % modulus;
    proof {
        lemma_sub_mod_noop(a as int, b as int, modulus as int);
    }
    if x >= y {
        proof {
            lemma_small_mod((x - y) as nat, modulus as nat);
        }
        x - y
    } else {
        proof {
            lemma_mod_add_multiples_vanish(x - y, modulus as int);
            lemma_small_mod((modulus - (y - x)) as nat, modulus as nat);
        }
        modulus - (y - x)
    }
}

/// One step of double-and-add keeps `res + acc * k` modulo `m`.
proof fn lemma_double_and_add_step(res: int, acc: int, k: int, m: int)
    requires
        m > 0,
        k >= 0,
    ensures
        ((res + acc * (k % 2)) % m + ((acc + acc) % m) * (k / 2)) % m == (res + acc * k) % m,
{
    let x = res + acc * (k % 2);
    let y = (acc + acc) * (k / 2);
    let z = ((acc + acc) % m) * (k / 2);
    assert(acc * k == acc * (k % 2) + (acc + acc) * (k / 2)) by (nonlinear_arith)
        requires
            k >= 0,
            k == 2 * (k / 2) + k % 2,
    ;
    lemma_mul_mod_noop_left(acc + acc, k / 2, m);
    assert(z % m == y % m);
    lemma_add_mod_noop_right(z, x, m);
    assert((z + x % m) % m == (z + x) % m);
    lemma_add_mod_noop_right(x, z, m);
    lemma_add_mod_noop_right(x, y, m);
    assert((x + z) % m == (x + y) % m);
    assert(x % m + z == z + x % m);
}

/// Modular multiplication: `(a * b) mod modulus`, by doubling and adding so
/// that no intermediate value leaves `u128`.
pub fn mod_mul(a: u128, b: u128, modulus: u128) -> (r: u128)
    requires
        modulus > 0,
    ensures
        r == (a * b) % (modulus as int),
{
    let mut res: u128 = 0;
    let mut acc: u128 = a % modulus;
    let mut k: u128 = b;
    proof {
        lemma_mul_mod_noop_left(a as int, b as int, modulus as int);
        lemma_small_mod(0, modulus as nat);
    }
    while k > 0
        invariant
            modulus > 0,
            res < modulus,
            acc < modulus,
            (res + acc * k) % (modulus as int) == (a * b) % (modulus as int),
        decreases k,
    {
        proof {
            lemma_double_and_add_step(res as int, acc as int, k as int, modulus as int);
        }
        if k % 2 == 1 {
            assert(acc * (k % 2) == acc) by (nonlinear_arith)
                requires
                    k % 2 == 1,
            ;
            res = mod_add(res, acc, modulus);
        } else {
            assert(acc * (k % 2) == 0) by (nonlinear_arith)
                requires
                    k % 2 == 0,
            ;
            proof {
                lemma_small_mod(res as nat, modulus as nat);
            }
        }
        acc = mod_add(acc, acc, modulus);
        k = k / 2;
    }
    proof {
        lemma_small_mod(res as nat, modulus as nat);
    }
    res
}

/// Reducing the base modulo `m` does not change a power modulo `m`.
pub proof fn lemma_power_mod_base(base: int, k: nat, m: int)
    requires
        m > 0,
    ensures
        power(base, k) % m == power(base % m, k) % m,
    decreases k,
{
    if k > 0 {
        lemma_power_mod_base(base, (k - 1) as nat, m);
        lemma_mul_mod_noop_general(base, power(base, (k - 1) as nat), m);
        lemma_mul_mod_noop_general(base % m, power(base % m, (k - 1) as nat), m);
        lemma_mod_twice(base, m);
    }
}

/// `b^(e1 + e2) = b^e1 * b^e2`.
pub proof fn lemma_power_adds(b: int, e1: nat, e2: nat)
    ensures
        power(b, e1 + e2) == power(b, e1) * power(b, e2),
    decreases e1,
{
    if e1 > 0 {
        lemma_power_adds(b, (e1 - 1) as nat, e2);
        assert(power(b, e1 + e2) == b * power(b, (e1 - 1 + e2) as nat));
        assert(b * (power(b, (e1 - 1) as nat) * power(b, e2)) == (b * power(b, (e1 - 1) as nat))
            * power(b, e2)) by (nonlinear_arith);
    }
}

/// `(b * b)^k = b^(2k)`.
proof fn lemma_power_square(b: int, k: nat)
    ensures
        power(b * b, k) == power(b, 2 * k),
    decreases k,
{
    if k > 0 {
        lemma_power_square(b, (k - 1) as nat);
        lemma_power_adds(b, 2, (2 * (k - 1)) as nat);
        assert(power(b, 2) == b * b) by {
            assert(power(b, 0) == 1);
            assert(power(b, 1) == b * power(b, 0));
            assert(power(b, 2) == b * power(b, 1));
        }
        assert((2 + 2 * (k - 1)) as nat == 2 * k);
    }
}

/// One step of square-and-multiply keeps `res * base^k` modulo `m`.
proof fn lemma_square_and_multiply_step(res: int, base: int, k: nat, m: int)
    requires
        m > 0,
    ensures
        ((if k % 2 == 1 { (res * base) % m } else { res }) * power((base * base) % m, k / 2)) % m
            == (res * power(base, k)) % m,
{
    let h = k / 2;
    let bb = (base * base) % m;
    lemma_power_mod_base(base * base, h, m);
    lemma_mod_twice(base * base, m);
    lemma_power_square(base, h);
    lemma_mul_mod_noop_right(res, power(bb, h), m);
    lemma_mul_mod_noop_right(res * base, power(bb, h), m);
    lemma_mul_mod_noop_right(res, power(base * base, h), m);
    lemma_mul_mod_noop_right(res * base, power(base * base, h), m);
    if k % 2 == 1 {
        lemma_power_adds(base, 1, 2 * h);
        assert(power(base, 1) == base) by {
            assert(power(base, 0) == 1);
            assert(power(base, 1) == base * power(base, 0));
        }
        assert((1 + 2 * h) as nat == k);
        lemma_mul_mod_noop_left(res * base, power(bb, h), m);
        assert(res * base * power(base, 2 * h) == res * (base * power(base, 2 * h)))
            by (nonlinear_arith);
    } else {
        assert(2 * h == k);
    }
}

/// `(a * b)^e = a^e * b^e`.
pub proof fn lemma_power_distributes(a: int, b: int, e: nat)
    ensures
        power(a * b, e) == power(a, e) * power(b, e),
    decreases e,
{
    if e > 0 {
        lemma_power_distributes(a, b, (e - 1) as nat);
        let x = power(a, (e - 1) as nat);
        let y = power(b, (e - 1) as nat);
        assert((a * b) * (x * y) == (a * x) * (b * y)) by (nonlinear_arith);
    }
}

/// Modular exponentiation: `a^exp mod modulus` by square-and-multiply; the
/// empty product gives `1 mod modulus`.
pub fn mod_pow(a: u128, exp: u128, modulus: u128) -> (r: u128)
    requires
        modulus > 0,
    ensures
        r == power(a as int, exp as nat) % (modulus as int),
{
    let mut result: u128 = 1 % modulus;
    let mut base: u128 = a % modulus;
    let mut k: u128 = exp;
    proof {
        lemma_power_mod_base(a as int, exp as nat, modulus as int);
        lemma_mul_mod_noop_left(1, power(base as int, exp as nat), modulus as int);
    }
    while k > 0
        invariant
            modulus > 0,
            result < modulus,
            base < modulus,
            (result * power(base as int, k as nat)) % (modulus as int) == power(a as int, exp as nat)
                % (modulus as int),
        decreases k,
    {
        proof {
            lemma_square_and_multiply_step(result as int, base as int, k as nat, modulus as int);
        }
        if k % 2 == 1 {
            result = mod_mul(result, base, modulus);
        }
        base = mod_mul(base, base, modulus);
        k = k / 2;
    }
    proof {
        assert(power(base as int, 0) == 1);
        lemma_small_mod(result as nat, modulus as nat);
    }
    result
}

/// Greatest common divisor, by Euclid's recurrence.
pub open spec fn gcd(a: nat, b: nat) -> nat
    decreases b,
{
    if b == 0 {
        a
    } else {
        gcd(b, a % b)
    }
}

/// `a` has a multiplicative inverse modulo `P`.
pub open spec fn invertible(a: nat) -> bool {
    exists|x: int| #[trigger] ((a * x) % (P as int)) == 1
}

/// Returns the cofactors of `gcd(a, b)` in `a` and in `b`.
proof fn lemma_gcd_divides(a: nat, b: nat) -> (k: (int, int))
    ensures
        a == k.0 * gcd(a, b),
        b == k.1 * gcd(a, b),
    decreases b,
{
    if b == 0 {
        (1, 0)
    } else {
        let (kb, kr) = lemma_gcd_divides(b, a % b);
        let g = gcd(a, b) as int;
        let q = (a / b) as int;
        assert(gcd(a, b) == gcd(b, a % b));
        lemma_fundamental_div_mod(a as int, b as int);
        assert(a == q * b + (a % b));
        assert(a == q * (kb * g) + kr * g);
        assert(q * (kb * g) + kr * g == (q * kb + kr) * g) by (nonlinear_arith);
        (q * kb + kr, kb)
    }
}

/// A common divisor other than one rules out an inverse modulo `P`.
proof fn lemma_no_inverse(a: nat)
    requires
        gcd(a, P as nat) != 1,
    ensures
        !invertible(a),
{
    let g = gcd(a, P as nat) as int;
    let (ka, kp) = lemma_gcd_divides(a, P as nat);
    assert forall|x: int| #[trigger] ((a * x) % (P as int)) != 1 by {
        if (a * x) % (P as int) == 1 {
            let q = (a * x) / (P as int);
            lemma_fundamental_div_mod(a * x, P as int);
            assert(a * x - q * (P as int) == 1);
            let t = ka * x - q * kp;
            assert(g * t == 1) by (nonlinear_arith)
                requires
                    a == ka * g,
                    P as int == kp * g,
                    a * x - q * (P as int) == 1,
                    t == ka * x - q * kp,
            ;
            assert(g >= 0);
            assert(false) by (nonlinear_arith)
                requires
                    g * t == 1,
                    g != 1,
                    g >= 0,
            ;
        }
    }
}

/// An element of the field of integers modulo `P`, held in `[0, P)`.
#[derive(Debug, Clone, Copy, PartialEq, Eq)]
pub struct FieldElement {
    value: u128,
}

impl View for FieldElement {
    type V = nat;

    closed spec fn view(&self) -> nat {
        self.value as nat
    }
}

impl FieldElement {
    /// The element `value mod P`.
    pub fn new(value: u128) -> (r: Self)
        ensures
            r@ == (value as nat) % (P as nat),
    {
        FieldElement { value: value % P }
    }

    /// The canonical representative in `[0, P)`.
    pub fn value(&self) -> (r: u128)
        ensures
            r == self@,
    {
        self.value
    }

    /// The 16 big-endian bytes of the representative.
    pub fn to_bytes_be(&self) -> (r: Vec<u8>)
        ensures
            r@ == be16(self@ as u128),
    {
        u128_to_be_bytes(self.value)
    }

    /// The element spelled by exactly 16 big-endian bytes. An encoding error
    /// for any other length, or for a value not below `P`.
    pub fn from_bytes_be(bytes: &[u8]) -> (r: Result<Self, LoquatError>)
        ensures
            match r {
                Ok(x) => bytes@.len() == 16 && be_value(bytes@) < P && x@ == be_value(bytes@),
                Err(e) => e == LoquatError::EncodingError && !(bytes@.len() == 16 && be_value(bytes@) < P),
            },
    {
        if bytes.len() != 16 {
            return Err(LoquatError::EncodingError);
        }
        let mut acc: u128 = 0;
        let mut i: usize = 0;
        proof {
            assert(bytes@.take(0).len() == 0);
            assert(power(256, 0) == 1);
        }
        while i < 16
            invariant
                bytes@.len() == 16,
                i <= 16,
                acc == be_value(bytes@.take(i as int)),
                acc < power(256, i as nat),
            decreases 16 - i,
        {
            proof {
                assert(bytes@.take(i + 1).drop_last() =~= bytes@.take(i as int));
                lemma_power_256_bound(i as nat);
                assert(power(256, (i + 1) as nat) == 256 * power(256, i as nat));
            }
            acc = acc * 256 + bytes[i] as u128;
            i = i + 1;
        }
        proof {
            assert(bytes@.take(16) =~= bytes@);
        }
        if acc >= P {
            return Err(LoquatError::EncodingError);
        }
        Ok(FieldElement { value: acc })
    }

    /// Field addition.
    pub fn add(&self, other: &Self) -> (r: Self)
        ensures
            r@ == (self@ + other@) % (P as nat),
    {
        FieldElement { value: mod_add(self.value, other.value, P) }
    }

    /// Field subtraction.
    pub fn sub(&self, other: &Self) -> (r: Self)
        ensures
            r@ as int == (self@ - other@) % (P as int),
    {
        FieldElement { value: mod_sub(self.value, other.value, P) }
    }

    /// Field multiplication.
    pub fn mul(&self, other: &Self) -> (r: Self)
        ensures
            r@ == (self@ * other@) % (P as nat),
    {
        FieldElement { value: mod_mul(self.value, other.value, P) }
    }

    /// `self^exp`, with `x^0 = 1` for every `x`, zero included.
    pub fn pow(&self, exp: u128) -> (r: Self)
        ensures
            r@ as int == power(self@ as int, exp as nat) % (P as int),
    {
        FieldElement { value: mod_pow(self.value, exp, P) }
    }

    /// The multiplicative inverse, by the extended Euclidean algorithm with
    /// the Bezout cofactor of `self` kept modulo `P`. It fails with an
    /// arithmetic error exactly when no inverse exists, which for the prime
    /// `P` is the case of zero alone.
    pub fn inverse(&self) -> (r: Result<Self, LoquatError>)
        ensures
            match r {
                Ok(x) => x@ < P && (self@ * x@) % (P as nat) == 1,
                Err(e) => e == LoquatError::ArithmeticError && !invertible(self@),
            },
            self@ % (P as nat) == 0 ==> r.is_err(),
    {
        let a = self.value;
        let mut old_r: u128 = a;
        let mut r: u128 = P;
        let mut old_s: u128 = 1;
        let mut s: u128 = 0;
        proof {
            lemma_small_mod(1, P as nat);
            lemma_mod_self_0(P as int);
            lemma_small_mod(0, P as nat);
        }
        while r != 0
            invariant
                old_s < P,
                s < P,
                (old_s * a) % (P as int) == (old_r as int) % (P as int),
                (s * a) % (P as int) == (r as int) % (P as int),
                gcd(old_r as nat, r as nat) == gcd(a as nat, P as nat),
            decreases r,
        {
            let q = old_r / r;
            let new_r = old_r % r;
            let qs = mod_mul(q, s, P);
            let new_s = mod_sub(old_s, qs, P);
            proof {
                let m = P as int;
                lemma_fundamental_div_mod(old_r as int, r as int);
                assert(old_r == r * q + new_r);
                assert(r * q == q * r) by (nonlinear_arith);
                assert(new_r == old_r - q * r);
                // new_s * a == (old_s - q * s) * a, modulo P
                lemma_mul_mod_noop_left(old_s - qs, a as int, m);
                lemma_sub_mod_noop_right(old_s as int, q * s, m);
                lemma_mul_mod_noop_left(old_s - q * s, a as int, m);
                assert((old_s - q * s) * a == old_s * a - q * (s * a)) by (nonlinear_arith);
                lemma_sub_mod_noop(old_s * a, q * (s * a), m);
                lemma_mul_mod_noop_right(q as int, s * a, m);
                lemma_mul_mod_noop_right(q as int, r as int, m);
                lemma_sub_mod_noop(old_r as int, q * r, m);
                assert((new_s * a) % m == (new_r as int) % m);
            }
            old_r = r;
            r = new_r;
            old_s = s;
            s = new_s;
        }
        if old_r == 1 {
            proof {
                let m = P as int;
                lemma_small_mod(1, P as nat);
                assert((old_s * a) % m == 1);
                assert(a * old_s == old_s * a);
                lemma_mul_mod_noop_left(a as int, old_s as int, m);
                if a % P == 0 {
                    assert(((a % P) * old_s) == 0);
                    lemma_small_mod(0, P as nat);
                }
            }
            Ok(FieldElement { value: old_s })
        } else {
            proof {
                lemma_no_inverse(a as nat);
            }
            Err(LoquatError::ArithmeticError)
        }
    }
}

/// Encoding a field element and decoding the bytes gives it back.
pub proof fn lemma_field_bytes_round_trip(x: FieldElement)
    requires
        x@ < P,
    ensures
        be16(x@ as u128).len() == 16,
        be_value(be16(x@ as u128)) == x@,
{
    lemma_be16_value(x@ as u128);
}

} // verus!
