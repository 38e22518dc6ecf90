//! Byte encodings: little- and big-endian integers, and `Natural`, an
//! unbounded natural number held as its minimal big-endian bytes.
use vstd::prelude::*;
use vstd::arithmetic::div_mod::*;
use crate::utils::field_operations::{mod_add, mod_mul, power};

verus! {

/// The little-endian value of a byte string.
pub open spec fn le_value(s: Seq<u8>) -> nat
    decreases s.len(),
{
    if s.len() == 0 {
        0
    } else {
        s[0] as nat + 256 * le_value(s.drop_first())
    }
}

/// The `n` low bytes of `v`, least significant first.
pub open spec fn le_bytes(v: nat, n: nat) -> Seq<u8>
    decreases n,
{
    if n == 0 {
        seq![]
    } else {
        seq![(v % 256) as u8] + le_bytes(v / 256, (n - 1) as nat)
    }
}

/// `le_bytes(v, n)` holds `n` bytes.
pub proof fn lemma_le_bytes_len(v: nat, n: nat)
    ensures
        le_bytes(v, n).len() == n,
    decreases n,
{
    if n > 0 {
        lemma_le_bytes_len(v / 256, (n - 1) as nat);
    }
}

/// Appends the `n` low bytes of `v`, least significant first.
pub fn push_le_bytes(out: &mut Vec<u8>, v: u128, n: usize)
    ensures
        final(out)@ == old(out)@ + le_bytes(v as nat, n as nat),
{
    let mut x: u128 = v;
    let mut j: usize = 0;
    while j < n
        invariant
            j <= n,
            old(out)@ + le_bytes(v as nat, n as nat) == out@ + le_bytes(x as nat, (n - j) as nat),
        decreases n - j,
    {
        proof {
            let rest = le_bytes(x as nat, (n - j) as nat);
            assert(rest == seq![(x % 256) as u8] + le_bytes((x / 256) as nat, (n - j - 1) as nat));
            assert(out@ + rest =~= out@.push((x % 256) as u8) + le_bytes(
                (x / 256) as nat,
                (n - j - 1) as nat,
            ));
        }
        out.push((x % 256) as u8);
        x = x / 256;
        j = j + 1;
    }
    proof {
        assert(out@ + le_bytes(x as nat, 0) =~= out@);
    }
}

/// Powers of a positive base are positive.
pub proof fn lemma_power_positive(b: int, e: nat)
    requires
        b >= 1,
    ensures
        power(b, e) >= 1,
    decreases e,
{
    if e > 0 {
        lemma_power_positive(b, (e - 1) as nat);
        assert(b * power(b, (e - 1) as nat) >= 1) by (nonlinear_arith)
            requires
                b >= 1,
                power(b, (e - 1) as nat) >= 1,
        ;
    }
}

/// Powers of 256 up to the fifteenth stay within `256^15`, whose value is
/// given.
pub proof fn lemma_power_256_bound(k: nat)
    requires
        k <= 15,
    ensures
        power(256, k) <= 1329227995784915872903807060280344576,
        power(256, 15) == 1329227995784915872903807060280344576,
    decreases 15 - k,
{
    if k == 15 {
        assert(power(256, 0) == 1);
        assert(power(256, 1) == 256);
        assert(power(256, 2) == 65536);
        assert(power(256, 3) == 16777216);
        assert(power(256, 4) == 4294967296);
        assert(power(256, 5) == 1099511627776);
        assert(power(256, 6) == 281474976710656);
        assert(power(256, 7) == 72057594037927936);
        assert(power(256, 8) == 18446744073709551616);
        assert(power(256, 9) == 4722366482869645213696);
        assert(power(256, 10) == 1208925819614629174706176);
        assert(power(256, 11) == 309485009821345068724781056);
        assert(power(256, 12) == 79228162514264337593543950336);
        assert(power(256, 13) == 20282409603651670423947251286016);
        assert(power(256, 14) == 5192296858534827628530496329220096);
        assert(power(256, 15) == 1329227995784915872903807060280344576);
    } else {
        lemma_power_256_bound(k + 1);
        lemma_power_positive(256, k);
        assert(power(256, k + 1) == 256 * power(256, k));
    }
}

/// The big-endian value of a byte string.
pub open spec fn be_value(s: Seq<u8>) -> nat
    decreases s.len(),
{
    if s.len() == 0 {
        0
    } else {
        be_value(s.drop_last()) * 256 + s.last() as nat
    }
}

/// The `n` low bytes of `v`, most significant first.
pub open spec fn be_bytes(v: nat, n: nat) -> Seq<u8> {
    Seq::new(n, |i: int| le_bytes(v, n)[n - 1 - i])
}

/// The 16 big-endian bytes of `v`, as `u128::to_be_bytes` lays them out.
pub open spec fn be16(v: u128) -> Seq<u8> {
    be_bytes(v as nat, 16)
}

/// Reading `n` big-endian bytes of `v` back gives `v mod 256^n`.
pub proof fn lemma_be_bytes_value(v: nat, n: nat)
    ensures
        be_value(be_bytes(v, n)) == v % (power(256, n) as nat),
    decreases n,
{
    lemma_le_bytes_len(v, n);
    if n == 0 {
        assert(power(256, 0) == 1);
        assert(be_bytes(v, n).len() == 0);
    } else {
        let s = be_bytes(v, n);
        lemma_le_bytes_len(v / 256, (n - 1) as nat);
        assert(s.drop_last() =~= be_bytes(v / 256, (n - 1) as nat));
        assert(s.last() == (v % 256) as u8);
        lemma_be_bytes_value(v / 256, (n - 1) as nat);
        lemma_power_positive(256, (n - 1) as nat);
        lemma_breakdown(v as int, 256, power(256, (n - 1) as nat));
        assert(power(256, n) == 256 * power(256, (n - 1) as nat));
    }
}

/// The 16 big-endian bytes of a `u128` read back as that number.
pub proof fn lemma_be16_value(v: u128)
    ensures
        be16(v).len() == 16,
        be_value(be16(v)) == v,
{
    lemma_be_bytes_value(v as nat, 16);
    lemma_power_256_bound(15);
    lemma_power_positive(256, 15);
    assert(power(256, 16) == 256 * power(256, 15));
    assert(power(256, 15) == 1329227995784915872903807060280344576);
    lemma_small_mod(v as nat, power(256, 16) as nat);
}

/// `s` without its leading zero bytes.
pub open spec fn strip_zeros(s: Seq<u8>) -> Seq<u8>
    decreases s.len(),
{
    if s.len() > 0 && s[0] == 0 {
        strip_zeros(s.drop_first())
    } else {
        s
    }
}

/// The minimal big-endian form of the number that `s` spells: no leading
/// zero byte, and `[0]` for zero.
pub open spec fn canonical(s: Seq<u8>) -> Seq<u8> {
    let t = strip_zeros(s);
    if t.len() == 0 {
        seq![0u8]
    } else {
        t
    }
}

/// The 16 big-endian bytes of `v`.
pub fn u128_to_be_bytes(v: u128) -> (r: Vec<u8>)
    ensures
        r@ == be16(v),
{
    let mut le: Vec<u8> = Vec::new();
    push_le_bytes(&mut le, v, 16);
    proof {
        lemma_le_bytes_len(v as nat, 16);
    }
    let mut out: Vec<u8> = Vec::new();
    let mut i: usize = 0;
    while i < 16
        invariant
            i <= 16,
            le@ == le_bytes(v as nat, 16),
            le@.len() == 16,
            out@ =~= be16(v).take(i as int),
        decreases 16 - i,
    {
        out.push(le[15 - i]);
        i = i + 1;
    }
    proof {
        assert(out@ =~= be16(v));
    }
    out
}

/// Leading zeros up to `i` can be skipped before stripping.
proof fn lemma_strip_from(s: Seq<u8>, i: int)
    requires
        0 <= i <= s.len(),
        forall|j: int| 0 <= j < i ==> s[j] == 0,
    ensures
        strip_zeros(s) == strip_zeros(s.subrange(i, s.len() as int)),
    decreases i,
{
    if i > 0 {
        assert(s.drop_first().subrange(i - 1, s.drop_first().len() as int) =~= s.subrange(
            i,
            s.len() as int,
        ));
        lemma_strip_from(s.drop_first(), i - 1);
    } else {
        assert(s.subrange(0, s.len() as int) =~= s);
    }
}

/// The minimal big-endian form of `bytes`.
pub fn canonical_bytes(bytes: &[u8]) -> (r: Vec<u8>)
    ensures
        r@ == canonical(bytes@),
{
    let mut i: usize = 0;
    while i < bytes.len() && bytes[i] == 0
        invariant
            i <= bytes@.len(),
            forall|j: int| 0 <= j < i ==> bytes@[j] == 0,
        decreases bytes@.len() - i,
    {
        i = i + 1;
    }
    proof {
        lemma_strip_from(bytes@, i as int);
    }
    let mut out: Vec<u8> = Vec::new();
    if i == bytes.len() {
        out.push(0);
        proof {
            assert(bytes@.subrange(i as int, bytes@.len() as int).len() == 0);
            assert(out@ =~= seq![0u8]);
        }
    } else {
        let start = i;
        while i < bytes.len()
            invariant
                start <= i <= bytes@.len(),
                out@ =~= bytes@.subrange(start as int, i as int),
            decreases bytes@.len() - i,
        {
            out.push(bytes[i]);
            i = i + 1;
        }
        proof {
            assert(strip_zeros(bytes@.subrange(start as int, bytes@.len() as int)) == bytes@.subrange(
                start as int,
                bytes@.len() as int,
            ));
        }
    }
    out
}

/// `be_value(bytes) mod modulus`, folded one byte at a time so that no
/// intermediate value leaves `u128`.
pub fn reduce_be(bytes: &[u8], modulus: u128) -> (r: u128)
    requires
        modulus > 0,
    ensures
        r == be_value(bytes@) % (modulus as nat),
{
    let mut acc: u128 = 0;
    let mut i: usize = 0;
    proof {
        assert(bytes@.take(0).len() == 0);
        lemma_small_mod(0, modulus as nat);
    }
    while i < bytes.len()
        invariant
            modulus > 0,
            i <= bytes@.len(),
            acc == be_value(bytes@.take(i as int)) % (modulus as nat),
        decreases bytes@.len() - i,
    {
        let shifted = mod_mul(acc, 256, modulus);
        let next = mod_add(shifted, bytes[i] as u128, modulus);
        proof {
            let m = modulus as int;
            let prev = be_value(bytes@.take(i as int)) as int;
            assert(bytes@.take(i + 1).drop_last() =~= bytes@.take(i as int));
            assert(be_value(bytes@.take(i + 1)) == prev * 256 + bytes@[i as int]);
            let b = bytes@[i as int] as int;
            lemma_mul_mod_noop_left(prev, 256, m);
            assert((acc * 256) % m == (prev * 256) % m);
            lemma_add_mod_noop_right(b, acc * 256, m);
            lemma_add_mod_noop_right(b, prev * 256, m);
            assert(next == (b + (acc * 256) % m) % m);
            assert(next == (prev * 256 + b) % m);
        }
        acc = next;
        i = i + 1;
    }
    proof {
        assert(bytes@.take(bytes@.len() as int) =~= bytes@);
    }
    acc
}

/// Whether two byte strings are equal.
pub fn bytes_equal(a: &[u8], b: &[u8]) -> (r: bool)
    ensures
        r == (a@ == b@),
{
    if a.len() != b.len() {
        return false;
    }
    let mut i: usize = 0;
    while i < a.len()
        invariant
            i <= a@.len(),
            a@.len() == b@.len(),
            forall|j: int| 0 <= j < i ==> a@[j] == b@[j],
        decreases a@.len() - i,
    {
        if a[i] != b[i] {
            return false;
        }
        i = i + 1;
    }
    proof {
        assert(a@ =~= b@);
    }
    true
}

/// A natural number of any size, held as its minimal big-endian bytes.
#[derive(Debug, Clone, PartialEq, Eq)]
pub struct Natural {
    bytes: Vec<u8>,
}

impl View for Natural {
    type V = Seq<u8>;

    closed spec fn view(&self) -> Seq<u8> {
        self.bytes@
    }
}

impl Natural {
    /// The number spelled by `bytes`, big-endian; leading zeros are ignored.
    pub fn from_bytes_be(bytes: &[u8]) -> (r: Self)
        ensures
            r@ == canonical(bytes@),
    {
        Natural { bytes: canonical_bytes(bytes) }
    }

    /// The number `v`.
    pub fn from_u128(v: u128) -> (r: Self)
        ensures
            r@ == canonical(be16(v)),
    {
        let b = u128_to_be_bytes(v);
        Natural { bytes: canonical_bytes(b.as_slice()) }
    }

    /// Its minimal big-endian bytes; zero gives `[0]`.
    pub fn to_bytes_be(&self) -> (r: Vec<u8>)
        ensures
            r@ == self@,
    {
        let mut out: Vec<u8> = Vec::new();
        let mut i: usize = 0;
        while i < self.bytes.len()
            invariant
                i <= self.bytes@.len(),
                out@ =~= self.bytes@.take(i as int),
            decreases self.bytes@.len() - i,
        {
            out.push(self.bytes[i]);
            i = i + 1;
        }
        proof {
            assert(self.bytes@.take(self.bytes@.len() as int) =~= self.bytes@);
        }
        out
    }

    /// A copy of this number.
    pub fn duplicate(&self) -> (r: Self)
        ensures
            r@ == self@,
    {
        Natural { bytes: self.to_bytes_be() }
    }

    /// Whether the two numbers are equal.
    pub fn equals(&self, other: &Self) -> (r: bool)
        ensures
            r == (self@ == other@),
    {
        bytes_equal(self.bytes.as_slice(), other.bytes.as_slice())
    }
}

/// Conversions between numbers and their byte strings.
pub struct Encoding;

impl Encoding {
    /// The minimal big-endian bytes of `value`.
    pub fn encode_biguint(value: &Natural) -> (r: Vec<u8>)
        ensures
            r@ == value@,
    {
        value.to_bytes_be()
    }

    /// The number spelled big-endian by `bytes`.
    pub fn decode_biguint(bytes: &[u8]) -> (r: Natural)
        ensures
            r@ == canonical(bytes@),
    {
        Natural::from_bytes_be(bytes)
    }
}

} // verus!
