//! Polynomials over the field of order `P`, by coefficients in ascending
//! order: evaluation, sum, product and Lagrange interpolation.
use vstd::prelude::*;
use vstd::arithmetic::div_mod::*;
use crate::utils::error::LoquatError;
use crate::utils::field_operations::{
    invertible, mod_add, mod_mul, mod_sub, power, FieldElement, P,
};

verus! {

/// `sum c[i] * x^i` over the integers.
pub open spec fn poly_value(c: Seq<u128>, x: int) -> int
    decreases c.len(),
{
    if c.len() == 0 {
        0
    } else {
        poly_value(c.drop_last(), x) + c.last() * power(x, (c.len() - 1) as nat)
    }
}

/// The `i`-th coefficient, zero outside the list.
pub open spec fn coef(c: Seq<u128>, i: int) -> int {
    if 0 <= i < c.len() {
        c[i] as int
    } else {
        0
    }
}

/// Coefficient-wise sum modulo `P`.
pub open spec fn add_coeffs(a: Seq<u128>, b: Seq<u128>) -> Seq<u128> {
    let n = if a.len() >= b.len() { a.len() } else { b.len() };
    Seq::new(n, |i: int| ((coef(a, i) + coef(b, i)) % (P as int)) as u128)
}

/// `sum_{i < n} a[i] * b[k - i]`: the first `n` terms of the `k`-th
/// coefficient of the product.
pub open spec fn conv(a: Seq<u128>, b: Seq<u128>, k: int, n: nat) -> int
    decreases n,
{
    if n == 0 {
        0
    } else {
        conv(a, b, k, (n - 1) as nat) + a[n - 1] * coef(b, k - (n - 1))
    }
}

/// The product's coefficients modulo `P`.
pub open spec fn mul_coeffs(a: Seq<u128>, b: Seq<u128>) -> Seq<u128> {
    Seq::new((a.len() + b.len() - 1) as nat, |k: int| (conv(a, b, k, a.len()) % (P as int)) as u128)
}

/// Each coefficient times `y`, then times `z`, modulo `P`.
pub open spec fn scale(c: Seq<u128>, y: u128, z: u128) -> Seq<u128> {
    c.map_values(|ck: u128| ((((ck * y) % (P as int)) * z) % (P as int)) as u128)
}

/// The unique inverse of an invertible `d` modulo `P`.
pub open spec fn inverse_of(d: nat) -> u128 {
    (choose|x: int| 0 <= x < P && #[trigger] ((d * x) % (P as int)) == 1) as u128
}

/// `prod_{j < n, j != i} (X - x_j)`.
pub open spec fn basis(points: Seq<(u128, u128)>, i: int, n: nat) -> Seq<u128>
    decreases n,
{
    if n == 0 {
        seq![1u128]
    } else if n - 1 == i {
        basis(points, i, (n - 1) as nat)
    } else {
        mul_coeffs(basis(points, i, (n - 1) as nat), seq![((0 - points[n - 1].0) % (P as int)) as u128, 1u128])
    }
}

/// `prod_{j < n, j != i} (x_i - x_j) mod P`.
pub open spec fn denominator(points: Seq<(u128, u128)>, i: int, n: nat) -> nat
    decreases n,
{
    if n == 0 {
        1
    } else if n - 1 == i {
        denominator(points, i, (n - 1) as nat)
    } else {
        ((denominator(points, i, (n - 1) as nat) * ((points[i].0 - points[n - 1].0) % (P as int))) % (P as int)) as nat
    }
}

/// The sum of the first `m` Lagrange terms `y_i / den_i * basis_i`, over
/// `points.len()` zero coefficients.
pub open spec fn lagrange(points: Seq<(u128, u128)>, m: nat) -> Seq<u128>
    decreases m,
{
    if m == 0 {
        Seq::new(points.len(), |k: int| 0u128)
    } else {
        let i = m - 1;
        add_coeffs(
            lagrange(points, (m - 1) as nat),
            scale(
                basis(points, i, points.len()),
                points[i].1,
                inverse_of(denominator(points, i, points.len())),
            ),
        )
    }
}

/// Inverses modulo `P` are unique.
proof fn lemma_inverse_unique(d: nat, x: u128, y: u128)
    requires
        x < P,
        y < P,
        (d * x) % (P as int) == 1,
        (d * y) % (P as int) == 1,
    ensures
        x == y,
{
    let m = P as int;
    lemma_mul_mod_noop_right(x as int, d * y, m);
    lemma_mul_mod_noop_left(d * x, y as int, m);
    assert(x * (d * y) == (d * x) * y) by (nonlinear_arith);
    lemma_small_mod(x as nat, P as nat);
    lemma_small_mod(y as nat, P as nat);
    assert(x as int * 1 == x);
    assert(1 * y as int == y);
}

/// A polynomial over the field, by coefficients in ascending order.
#[derive(Debug, Clone)]
pub struct Polynomial {
    coeffs: Vec<u128>,
}

impl View for Polynomial {
    type V = Seq<u128>;

    closed spec fn view(&self) -> Seq<u128> {
        self.coeffs@
    }
}

impl Polynomial {
    /// The polynomial with these coefficients, lowest degree first.
    pub fn new(coeffs: Vec<u128>) -> (r: Self)
        ensures
            r@ == coeffs@,
    {
        Polynomial { coeffs }
    }

    /// The coefficients, lowest degree first.
    pub fn coefficients(&self) -> (r: &Vec<u128>)
        ensures
            r@ == self@,
    {
        &self.coeffs
    }

    /// One less than the number of coefficients.
    pub fn degree(&self) -> (r: usize)
        requires
            self@.len() > 0,
        ensures
            r == self@.len() - 1,
    {
        self.coeffs.len() - 1
    }

    /// The value at `x`, modulo `P`.
    pub fn evaluate(&self, x: u128) -> (r: u128)
        ensures
            r == poly_value(self@, x as int) % (P as int),
    {
        let c = &self.coeffs;
        let mut result: u128 = 0;
        let mut pw: u128 = 1;
        let mut i: usize = 0;
        proof {
            assert(c@.take(0).len() == 0);
            lemma_small_mod(0, P as nat);
            lemma_small_mod(1, P as nat);
        }
        while i < c.len()
            invariant
                i <= c@.len(),
                result == poly_value(c@.take(i as int), x as int) % (P as int),
                pw == power(x as int, i as nat) % (P as int),
            decreases c@.len() - i,
        {
            let term = mod_mul(c[i], pw, P);
            let next = mod_add(result, term, P);
            proof {
                let m = P as int;
                let pv = poly_value(c@.take(i as int), x as int);
                let pi = power(x as int, i as nat);
                assert(c@.take(i + 1).drop_last() =~= c@.take(i as int));
                assert(poly_value(c@.take(i + 1), x as int) == pv + c@[i as int] * pi);
                lemma_mul_mod_noop_right(c@[i as int] as int, pi, m);
                lemma_add_mod_noop(pv, c@[i as int] * pi, m);
                lemma_mod_twice(pv, m);
                lemma_mod_twice(c@[i as int] * pi, m);
                lemma_mul_mod_noop_left(pi, x as int, m);
                assert(power(x as int, (i + 1) as nat) == x * pi);
                assert(x * pi == pi * x) by (nonlinear_arith);
            }
            result = next;
            pw = mod_mul(pw, x, P);
            i = i + 1;
        }
        proof {
            assert(c@.take(c@.len() as int) =~= c@);
        }
        result
    }

    /// Coefficient-wise sum modulo `P`.
    fn add_poly(a: &Vec<u128>, b: &Vec<u128>) -> (r: Vec<u128>)
        ensures
            r@ == add_coeffs(a@, b@),
    {
        let n = if a.len() >= b.len() { a.len() } else { b.len() };
        let mut result: Vec<u128> = Vec::new();
        let mut i: usize = 0;
        while i < n
            invariant
                n == (if a@.len() >= b@.len() { a@.len() } else { b@.len() }),
                i <= n,
                result@ =~= add_coeffs(a@, b@).take(i as int),
            decreases n - i,
        {
            let x = if i < a.len() { a[i] } else { 0 };
            let y = if i < b.len() { b[i] } else { 0 };
            result.push(mod_add(x, y, P));
            i = i + 1;
        }
        proof {
            assert(add_coeffs(a@, b@).take(n as int) =~= add_coeffs(a@, b@));
        }
        result
    }

    /// Product modulo `P`, by the schoolbook convolution.
    fn mul_poly(a: &Vec<u128>, b: &Vec<u128>) -> (r: Vec<u128>)
        requires
            a@.len() > 0,
            b@.len() > 0,
            a@.len() + b@.len() <= usize::MAX,
        ensures
            r@ == mul_coeffs(a@, b@),
    {
        let len = a.len() + b.len() - 1;
        let mut result: Vec<u128> = Vec::new();
        let mut k: usize = 0;
        while k < len
            invariant
                k <= len,
                result@.len() == k,
                forall|t: int| 0 <= t < k ==> result@[t] == 0,
            decreases len - k,
        {
            result.push(0);
            k = k + 1;
        }
        let mut i: usize = 0;
        while i < a.len()
            invariant
                len == a@.len() + b@.len() - 1,
                i <= a@.len(),
                result@.len() == len,
                forall|t: int| 0 <= t < len ==> #[trigger] result@[t] == conv(a@, b@, t, i as nat) % (P as int),
            decreases a@.len() - i,
        {
            let mut j: usize = 0;
            while j < b.len()
                invariant
                    len == a@.len() + b@.len() - 1,
                    i < a@.len(),
                    j <= b@.len(),
                    result@.len() == len,
                    forall|t: int|
                        0 <= t < len ==> #[trigger] result@[t] == (conv(a@, b@, t, i as nat) + (if i <= t < i + j {
                            a@[i as int] * b@[t - i]
                        } else {
                            0
                        })) % (P as int),
                decreases b@.len() - j,
            {
                let t = i + j;
                let prod = mod_mul(a[i], b[j], P);
                let updated = mod_add(result[t], prod, P);
                proof {
                    let m = P as int;
                    let cv = conv(a@, b@, t as int, i as nat);
                    assert(result@[t as int] == cv % m);
                    lemma_add_mod_noop(cv, a@[i as int] * b@[j as int], m);
                    lemma_mod_twice(cv, m);
                    lemma_mod_twice(a@[i as int] * b@[j as int], m);
                    assert(t - i == j);
                }
                result.set(t, updated);
                j = j + 1;
            }
            proof {
                assert forall|t: int| 0 <= t < len implies #[trigger] result@[t] == conv(a@, b@, t, (i + 1) as nat)
                    % (P as int) by {
                    assert(conv(a@, b@, t, (i + 1) as nat) == conv(a@, b@, t, i as nat) + a@[i as int] * coef(
                        b@,
                        t - i,
                    ));
                    if !(i <= t < i + b@.len()) {
                        assert(coef(b@, t - i) == 0);
                        assert(a@[i as int] * coef(b@, t - i) == 0);
                    }
                }
            }
            i = i + 1;
        }
        proof {
            assert(result@ =~= mul_coeffs(a@, b@));
        }
        result
    }

    /// The polynomial of degree below `points.len()` through the given
    /// points, by Lagrange's formula. Fails with an arithmetic error when a
    /// denominator `prod (x_i - x_j)` has no inverse, which for the prime `P`
    /// is when two abscissae coincide modulo `P`.
    pub fn interpolate(points: &[(u128, u128)]) -> (r: Result<Self, LoquatError>)
        requires
            points@.len() < usize::MAX,
        ensures
            match r {
                Ok(p) => p@ == lagrange(points@, points@.len()) && forall|i: int|
                    0 <= i < points@.len() ==> invertible(#[trigger] denominator(points@, i, points@.len())),
                Err(e) => e == LoquatError::ArithmeticError && exists|i: int|
                    0 <= i < points@.len() && !invertible(#[trigger] denominator(points@, i, points@.len())),
            },
    {
        let n = points.len();
        let mut coeffs: Vec<u128> = Vec::new();
        let mut k: usize = 0;
        while k < n
            invariant
                k <= n,
                coeffs@ =~= Seq::new(k as nat, |t: int| 0u128),
            decreases n - k,
        {
            coeffs.push(0);
            k = k + 1;
        }
        let mut i: usize = 0;
        while i < n
            invariant
                n == points@.len(),
                n < usize::MAX,
                i <= n,
                coeffs@ == lagrange(points@, i as nat),
                forall|q: int| 0 <= q < i ==> invertible(#[trigger] denominator(points@, q, n as nat)),
            decreases n - i,
        {
            let (xi, yi) = points[i];
            let mut num: Vec<u128> = Vec::new();
            num.push(1);
            let mut den: u128 = 1;
            let mut j: usize = 0;
            proof {
                assert(num@ =~= seq![1u128]);
                lemma_small_mod(1, P as nat);
            }
            while j < n
                invariant
                    n == points@.len(),
                    n < usize::MAX,
                    i < n,
                    j <= n,
                    (xi, yi) == points@[i as int],
                    num@ == basis(points@, i as int, j as nat),
                    num@.len() == (if j > i { j as int } else { j + 1 }),
                    den == denominator(points@, i as int, j as nat),
                    den < P,
                decreases n - j,
            {
                if i != j {
                    let (xj, _) = points[j];
                    let mut factor: Vec<u128> = Vec::new();
                    factor.push(mod_sub(0, xj, P));
                    factor.push(1);
                    proof {
                        assert(factor@ =~= seq![((0 - points@[j as int].0) % (P as int)) as u128, 1u128]);
                    }
                    num = Self::mul_poly(&num, &factor);
                    den = mod_mul(den, mod_sub(xi, xj, P), P);
                }
                j = j + 1;
            }
            let inv_den = match FieldElement::new(den).inverse() {
                Ok(v) => v.value(),
                Err(e) => {
                    proof {
                        lemma_small_mod(den as nat, P as nat);
                    }
                    return Err(e);
                },
            };
            proof {
                lemma_small_mod(den as nat, P as nat);
                let d = den as nat;
                assert(invertible(d));
                assert(0 <= inv_den < P && ((d * inv_den) % (P as int)) == 1);
                let chosen = choose|x: int| 0 <= x < P && #[trigger] ((d * x) % (P as int)) == 1;
                lemma_inverse_unique(d, inv_den, chosen as u128);
            }
            let mut scaled: Vec<u128> = Vec::new();
            let mut t: usize = 0;
            while t < num.len()
                invariant
                    t <= num@.len(),
                    scaled@ =~= scale(num@, yi, inv_den).take(t as int),
                decreases num@.len() - t,
            {
                let c_yi = mod_mul(num[t], yi, P);
                scaled.push(mod_mul(c_yi, inv_den, P));
                t = t + 1;
            }
            proof {
                assert(scale(num@, yi, inv_den).take(num@.len() as int) =~= scale(num@, yi, inv_den));
            }
            coeffs = Self::add_poly(&coeffs, &scaled);
            i = i + 1;
        }
        Ok(Polynomial { coeffs })
    }
}

} // verus!
