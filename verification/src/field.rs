//! Arithmetic modulo a prime: Euclid's algorithm, inverses, residues.

use crate::bignum::{abs, big_add, big_div, big_eq, big_from_i64, big_lt, big_mul, big_neg, big_rem, big_sub, trunc_div, trunc_rem, BigNum};
use vstd::arithmetic::div_mod::{
    lemma_add_mod_noop, lemma_fundamental_div_mod, lemma_mod_bound, lemma_mod_multiples_basic,
    lemma_mod_multiples_vanish, lemma_mul_mod_noop_general, lemma_small_mod,
};
use vstd::prelude::*;

verus! {

/// `p` has no divisor strictly between one and itself.
pub open spec fn is_prime(p: int) -> bool {
    p > 1 && forall|d: int| 1 < d < p ==> #[trigger] (p % d) != 0
}

/// No integer greater than one divides both `a` and `b`.
pub open spec fn coprime(a: int, b: int) -> bool {
    forall|d: int|
        #![trigger (a % d)]
        #![trigger (b % d)]
        d > 1 ==> !(a % d == 0 && b % d == 0)
}

/// `v` is the residue in `[0, p)` whose product with `k` is one modulo `p`.
pub open spec fn is_inverse_mod(k: int, v: int, p: int) -> bool {
    0 <= v < p && (k * v) % p == 1int % p
}

/// The inverse of `k` modulo `p`, where there is one.
pub open spec fn inverse_mod(k: int, p: int) -> int {
    choose|v: int| is_inverse_mod(k, v, p)
}

/// What Euclid's algorithm yields on `(a, b)` with the division that rounds
/// towards zero: a common divisor `g` and coefficients `x`, `y` with
/// `a * x + b * y == g`.
pub open spec fn extended_gcd(a: int, b: int) -> (int, int, int)
    decreases abs(b),
{
    if b == 0 {
        (a, 1int, 0int)
    } else {
        let r = extended_gcd(b, trunc_rem(a, b));
        (r.0, r.2, r.1 - r.2 * trunc_div(a, b))
    }
}

/// The division that rounds towards zero: quotient times divisor plus
/// remainder gives the dividend, and the remainder is smaller than the divisor
/// and has the dividend's sign.
pub proof fn lemma_trunc_div_rem(a: int, b: int)
    requires
        b != 0,
    ensures
        a == b * trunc_div(a, b) + trunc_rem(a, b),
        abs(trunc_rem(a, b)) < abs(b),
        a >= 0 ==> trunc_rem(a, b) >= 0,
        a <= 0 ==> trunc_rem(a, b) <= 0,
{
    let n = abs(a);
    let d = abs(b);
    let q = n / d;
    let r = n % d;
    lemma_fundamental_div_mod(n, d);
    lemma_mod_bound(n, d);
    assert(n == d * q + r);
    assert((-d) * (-q) == d * q) by (nonlinear_arith);
    assert(d * (-q) == -(d * q)) by (nonlinear_arith);
    assert((-d) * q == -(d * q)) by (nonlinear_arith);
}

/// With a positive modulus, the remainder that follows the dividend's sign is
/// congruent to the dividend.
pub proof fn lemma_trunc_rem_congruent(a: int, p: int)
    requires
        p > 0,
    ensures
        trunc_rem(a, p) % p == a % p,
        a >= 0 ==> trunc_rem(a, p) == a % p,
{
    lemma_trunc_div_rem(a, p);
    let q = trunc_div(a, p);
    lemma_mod_multiples_vanish(q, trunc_rem(a, p), p);
    if a >= 0 {
        lemma_mod_bound(a, p);
    }
}

/// Congruent factors give congruent products.
pub proof fn lemma_mul_congruent(a: int, a2: int, b: int, b2: int, p: int)
    requires
        p > 0,
        a % p == a2 % p,
        b % p == b2 % p,
    ensures
        (a * b) % p == (a2 * b2) % p,
{
    lemma_mul_mod_noop_general(a, b, p);
    lemma_mul_mod_noop_general(a2, b2, p);
}

/// Congruent terms give congruent sums.
pub proof fn lemma_add_congruent(a: int, a2: int, b: int, b2: int, p: int)
    requires
        p > 0,
        a % p == a2 % p,
        b % p == b2 % p,
    ensures
        (a + b) % p == (a2 + b2) % p,
{
    lemma_add_mod_noop(a, b, p);
    lemma_add_mod_noop(a2, b2, p);
}

/// Bezout's identity for the coefficients of [`extended_gcd`].
pub proof fn lemma_bezout(a: int, b: int)
    ensures
        a * extended_gcd(a, b).1 + b * extended_gcd(a, b).2 == extended_gcd(a, b).0,
    decreases abs(b),
{
    if b != 0 {
        lemma_trunc_div_rem(a, b);
        let c = trunc_rem(a, b);
        let n = trunc_div(a, b);
        lemma_bezout(b, c);
        let r = extended_gcd(b, c);
        let g = r.0;
        let x = r.1;
        let y = r.2;
        assert(a * y + b * (x - y * n) == g) by (nonlinear_arith)
            requires
                a == b * n + c,
                b * x + c * y == g,
        ;
    }
}

/// The first component of [`extended_gcd`] divides both arguments: the
/// cofactors are returned.
pub proof fn lemma_gcd_divides(a: int, b: int) -> (k: (int, int))
    ensures
        a == k.0 * extended_gcd(a, b).0,
        b == k.1 * extended_gcd(a, b).0,
    decreases abs(b),
{
    if b == 0 {
        assert(extended_gcd(a, b).0 == a);
        assert(a == 1 * a && b == 0 * a) by (nonlinear_arith)
            requires
                b == 0,
        ;
        (1, 0)
    } else {
        lemma_trunc_div_rem(a, b);
        let c = trunc_rem(a, b);
        let n = trunc_div(a, b);
        let k2 = lemma_gcd_divides(b, c);
        assert(extended_gcd(a, b).0 == extended_gcd(b, c).0);
        let g = extended_gcd(b, c).0;
        let kb = k2.0;
        let kc = k2.1;
        let ka = kb * n + kc;
        assert(a == ka * g) by (nonlinear_arith)
            requires
                a == b * n + c,
                b == kb * g,
                c == kc * g,
                ka == kb * n + kc,
        ;
        (ka, kb)
    }
}

/// On natural numbers the common divisor found is natural, and zero only for
/// `(0, 0)`.
pub proof fn lemma_gcd_sign(a: int, b: int)
    requires
        a >= 0,
        b >= 0,
    ensures
        extended_gcd(a, b).0 >= 0,
        extended_gcd(a, b).0 == 0 ==> a == 0 && b == 0,
    decreases abs(b),
{
    if b != 0 {
        lemma_trunc_div_rem(a, b);
        lemma_gcd_sign(b, trunc_rem(a, b));
    }
}

/// A multiple of a positive number that is itself positive is at least that
/// number.
proof fn lemma_positive_multiple(c: int, k: int, g: int)
    requires
        c == k * g,
        c > 0,
        g > 0,
    ensures
        c >= g,
{
    assert(k >= 1) by (nonlinear_arith)
        requires
            c == k * g,
            c > 0,
            g > 0,
    ;
    assert(k * g >= g) by (nonlinear_arith)
        requires
            k >= 1,
            g > 0,
    ;
}

/// The coefficients of [`extended_gcd`] stay small: scaled by the common
/// divisor, the second is at most the first argument.
pub proof fn lemma_gcd_coefficient_bound(a: int, b: int)
    requires
        a > 0,
        b >= 0,
    ensures
        extended_gcd(a, b).0 * abs(extended_gcd(a, b).2) <= a,
        extended_gcd(a, b).0 * abs(extended_gcd(a, b).1) <= if b >= extended_gcd(a, b).0 {
            b
        } else {
            extended_gcd(a, b).0
        },
    decreases abs(b),
{
    if b != 0 {
        lemma_trunc_div_rem(a, b);
        let c = trunc_rem(a, b);
        let n = trunc_div(a, b);
        let r = extended_gcd(b, c);
        let g = r.0;
        let x = r.1;
        let y = r.2;
        lemma_gcd_coefficient_bound(b, c);
        lemma_gcd_sign(b, c);
        assert(n >= 0);
        if c == 0 {
            assert(r == (b, 1int, 0int));
            assert(n >= 1) by (nonlinear_arith)
                requires
                    a == b * n,
                    a > 0,
                    b > 0,
            ;
            assert(b * n >= b) by (nonlinear_arith)
                requires
                    n >= 1,
                    b > 0,
            ;
            assert(y * n == 0) by (nonlinear_arith)
                requires
                    y == 0,
            ;
            assert(g * abs(x - y * n) <= a);
            assert(g * abs(y) == 0) by (nonlinear_arith)
                requires
                    y == 0,
            ;
        } else {
            let k = lemma_gcd_divides(b, c);
            lemma_positive_multiple(c, k.1, g);
            assert(g * abs(x) <= c);
            assert(g * abs(y) <= b);
            assert(abs(x - y * n) <= abs(x) + abs(y) * n) by (nonlinear_arith)
                requires
                    n >= 0,
            ;
            assert(g * abs(x - y * n) <= a) by (nonlinear_arith)
                requires
                    g * abs(x) <= c,
                    g * abs(y) <= b,
                    a == b * n + c,
                    n >= 0,
                    g > 0,
                    abs(x - y * n) <= abs(x) + abs(y) * n,
            ;
        }
        assert(extended_gcd(a, b) == (g, y, x - y * n));
    } else {
        assert(extended_gcd(a, b) == (a, 1int, 0int));
        assert(a * abs(0) == 0 && a * abs(1) == a) by (nonlinear_arith);
    }
}

/// A number whose residue modulo `d` is zero is a multiple of `d`.
proof fn lemma_zero_residue_is_multiple(x: int, d: int) -> (t: int)
    requires
        d > 0,
        x % d == 0,
    ensures
        x == t * d,
{
    lemma_fundamental_div_mod(x, d);
    let t = x / d;
    assert(d * t == t * d) by (nonlinear_arith);
    t
}

/// Being coprime to `p` passes from `k` to the size of its remainder by `p`.
pub proof fn lemma_coprime_remainder(k: int, p: int)
    requires
        p > 0,
        coprime(k, p),
    ensures
        coprime(p, abs(trunc_rem(k, p))),
{
    lemma_trunc_div_rem(k, p);
    let n = trunc_div(k, p);
    let k2 = trunc_rem(k, p);
    let m = abs(k2);
    assert forall|d: int| d > 1 && #[trigger] (p % d) == 0 implies m % d != 0 by {
        if m % d == 0 {
            let tp = lemma_zero_residue_is_multiple(p, d);
            let tm = lemma_zero_residue_is_multiple(m, d);
            let t = if k2 < 0 {
                tp * n - tm
            } else {
                tp * n + tm
            };
            assert(k == t * d) by (nonlinear_arith)
                requires
                    k == p * n + k2,
                    p == tp * d,
                    m == tm * d,
                    k2 < 0 ==> k2 == -m && t == tp * n - tm,
                    k2 >= 0 ==> k2 == m && t == tp * n + tm,
            ;
            lemma_mod_multiples_basic(t, d);
            assert(k % d == 0);
            assert(false);
        }
    }
}

/// Numbers without a common divisor above one have the common divisor one.
pub proof fn lemma_coprime_gcd(a: int, b: int)
    requires
        a > 0,
        b >= 0,
        coprime(a, b),
    ensures
        extended_gcd(a, b).0 == 1,
{
    lemma_gcd_sign(a, b);
    let k = lemma_gcd_divides(a, b);
    let g = extended_gcd(a, b).0;
    if g > 1 {
        lemma_mod_multiples_basic(k.0, g);
        lemma_mod_multiples_basic(k.1, g);
        assert(a % g == 0);
        assert(b % g == 0);
    }
}

/// Numbers with the common divisor one have no common divisor above one.
pub proof fn lemma_gcd_coprime(a: int, b: int)
    requires
        extended_gcd(a, b).0 == 1,
    ensures
        coprime(a, b),
{
    lemma_bezout(a, b);
    let x = extended_gcd(a, b).1;
    let y = extended_gcd(a, b).2;
    assert forall|d: int| d > 1 && #[trigger] (a % d) == 0 implies b % d != 0 by {
        if b % d == 0 {
            let ta = lemma_zero_residue_is_multiple(a, d);
            let tb = lemma_zero_residue_is_multiple(b, d);
            let t = ta * x + tb * y;
            assert(1 == t * d) by (nonlinear_arith)
                requires
                    a * x + b * y == 1,
                    a == ta * d,
                    b == tb * d,
                    t == ta * x + tb * y,
            ;
            lemma_mod_multiples_basic(t, d);
            lemma_small_mod(1, d as nat);
            assert(false);
        }
    }
}

/// A prime is coprime to every residue that is not zero.
pub proof fn lemma_prime_coprime(k: int, p: int)
    requires
        is_prime(p),
        k % p != 0,
    ensures
        coprime(k % p, p),
        coprime(k, p),
{
    lemma_mod_bound(k, p);
    let m = k % p;
    lemma_fundamental_div_mod(k, p);
    assert forall|d: int| d > 1 && #[trigger] (p % d) == 0 implies m % d != 0 && k % d != 0 by {
        if d < p {
            assert(p % d != 0);
        } else if d > p {
            lemma_small_mod(p as nat, d as nat);
        } else {
            lemma_small_mod(m as nat, p as nat);
            assert(m % d != 0);
            assert(k % d != 0);
        }
    }
}

/// The value that [`mod_inverse`] computes from Euclid's coefficients.
spec fn euclid_inverse(k: int, p: int) -> int {
    let k2 = trunc_rem(k, p);
    let r = if k2 < 0 {
        -extended_gcd(p, -k2).2
    } else {
        extended_gcd(p, k2).2
    };
    trunc_rem(p + r, p)
}

proof fn lemma_euclid_inverse(k: int, p: int)
    requires
        p > 0,
        coprime(k, p),
    ensures
        is_inverse_mod(k, euclid_inverse(k, p), p),
{
    lemma_trunc_div_rem(k, p);
    let n = trunc_div(k, p);
    let k2 = trunc_rem(k, p);
    let m = abs(k2);
    lemma_coprime_remainder(k, p);
    lemma_coprime_gcd(p, m);
    lemma_bezout(p, m);
    lemma_gcd_coefficient_bound(p, m);
    let x = extended_gcd(p, m).1;
    let y = extended_gcd(p, m).2;
    let r = if k2 < 0 {
        -y
    } else {
        y
    };
    assert(1 * abs(y) == abs(y)) by (nonlinear_arith);
    assert(abs(r) <= p);
    let v = trunc_rem(p + r, p);
    assert(v == euclid_inverse(k, p));
    lemma_trunc_rem_congruent(p + r, p);
    lemma_mod_bound(p + r, p);
    lemma_mod_multiples_vanish(1, r, p);
    assert(v % p == r % p) by {
        lemma_small_mod(v as nat, p as nat);
    }
    // k * r is one more than a multiple of p
    let t = n * r - x;
    assert(k * r == p * t + 1) by (nonlinear_arith)
        requires
            k == p * n + k2,
            p * x + m * y == 1,
            k2 < 0 ==> k2 == -m && r == -y,
            k2 >= 0 ==> k2 == m && r == y,
            t == n * r - x,
    ;
    lemma_mod_multiples_vanish(t, 1, p);
    assert((k * r) % p == 1int % p);
    lemma_mul_congruent(k, k, v, r, p);
}

/// Modulo `p`, a number has at most one inverse.
pub proof fn lemma_inverse_unique(k: int, v: int, w: int, p: int)
    requires
        p > 0,
        is_inverse_mod(k, v, p),
        is_inverse_mod(k, w, p),
    ensures
        v == w,
{
    lemma_mul_congruent(v, v, k * w, 1, p);
    assert((k * v) == (v * k)) by (nonlinear_arith);
    lemma_mul_congruent(v * k, 1, w, w, p);
    assert(v * (k * w) == (v * k) * w) by (nonlinear_arith);
    assert(v * 1 == v && 1 * w == w) by (nonlinear_arith);
    lemma_small_mod(v as nat, p as nat);
    lemma_small_mod(w as nat, p as nat);
}

/// Any residue that inverts `k` is the one that [`inverse_mod`] names.
pub proof fn lemma_inverse_mod_is(k: int, v: int, p: int)
    requires
        p > 0,
        is_inverse_mod(k, v, p),
    ensures
        inverse_mod(k, p) == v,
{
    lemma_inverse_unique(k, inverse_mod(k, p), v, p);
}

/// Every number coprime to `p` has an inverse modulo `p`.
pub proof fn lemma_inverse_exists(k: int, p: int)
    requires
        p > 0,
        coprime(k, p),
    ensures
        is_inverse_mod(k, inverse_mod(k, p), p),
{
    lemma_euclid_inverse(k, p);
}

/// Inverting twice gives back the residue one started from: for `k` coprime
/// to `p`, the inverse of `k` is itself coprime to `p`, and its inverse is
/// `k % p`.
pub proof fn lemma_inverse_involution(k: int, p: int)
    requires
        p > 0,
        coprime(k, p),
    ensures
        coprime(inverse_mod(k, p), p),
        inverse_mod(inverse_mod(k, p), p) == k % p,
{
    lemma_inverse_exists(k, p);
    let v = inverse_mod(k, p);
    lemma_mod_bound(k, p);
    assert(v * k == k * v) by (nonlinear_arith);
    lemma_mul_mod_noop_general(v, k, p);
    assert(is_inverse_mod(v, k % p, p));
    lemma_inverse_mod_is(v, k % p, p);
    assert forall|d: int| d > 1 && #[trigger] (v % d) == 0 implies p % d != 0 by {
        if p % d == 0 {
            let tv = lemma_zero_residue_is_multiple(v, d);
            let tp = lemma_zero_residue_is_multiple(p, d);
            if p == 1 {
                lemma_small_mod(1, d as nat);
            } else {
                lemma_fundamental_div_mod(k * v, p);
                lemma_small_mod(1, p as nat);
                let q = (k * v) / p;
                let t = k * tv - tp * q;
                assert(1 == t * d) by (nonlinear_arith)
                    requires
                        k * v == p * q + 1,
                        v == tv * d,
                        p == tp * d,
                        t == k * tv - tp * q,
                ;
                lemma_mod_multiples_basic(t, d);
                lemma_small_mod(1, d as nat);
            }
            assert(false);
        }
    }
}

/// Adding the modulus to the remainder that follows the dividend's sign, and
/// reducing again, gives the residue in `[0, m)`.
pub proof fn lemma_normalized_residue(a: int, m: int)
    requires
        m > 0,
    ensures
        trunc_rem(trunc_rem(a, m) + m, m) == a % m,
{
    lemma_trunc_div_rem(a, m);
    lemma_trunc_rem_congruent(a, m);
    let t = trunc_rem(a, m);
    lemma_trunc_rem_congruent(t + m, m);
    lemma_mod_multiples_vanish(1, t, m);
}

/// Euclid's algorithm with coefficients: the common divisor of `a` and `b`
/// and the pair `(x, y)` with `a * x + b * y` equal to it.
pub fn gcd(a: &BigNum, b: &BigNum) -> (r: (BigNum, BigNum, BigNum))
    ensures
        (r.0@, r.1@, r.2@) == extended_gcd(a@, b@),
        a@ * r.1@ + b@ * r.2@ == r.0@,
    decreases abs(b@),
{
    proof {
        lemma_bezout(a@, b@);
    }
    let zero = big_from_i64(0);
    if big_eq(b, &zero) {
        (a.clone(), big_from_i64(1), big_from_i64(0))
    } else {
        let n = big_div(a, b);
        let c = big_rem(a, b);
        proof {
            lemma_trunc_div_rem(a@, b@);
        }
        let (g, x, y) = gcd(b, &c);
        let t = big_mul(&y, &n);
        let y2 = big_sub(&x, &t);
        (g, y, y2)
    }
}

/// The inverse of `k` in the field of residues modulo `prime`.
pub fn mod_inverse(k: &BigNum, prime: &BigNum) -> (r: BigNum)
    requires
        prime@ > 0,
        coprime(k@, prime@),
    ensures
        is_inverse_mod(k@, r@, prime@),
        r@ == inverse_mod(k@, prime@),
{
    let zero = big_from_i64(0);
    let k2 = big_rem(k, prime);
    let r = if big_lt(&k2, &zero) {
        let m = big_neg(&k2);
        let (_g, _x, y) = gcd(prime, &m);
        big_neg(&y)
    } else {
        let (_g, _x, y) = gcd(prime, &k2);
        y
    };
    let sum = big_add(prime, &r);
    let v = big_rem(&sum, prime);
    proof {
        lemma_euclid_inverse(k@, prime@);
        lemma_inverse_mod_is(k@, v@, prime@);
    }
    v
}

/// The residue of `a` modulo `m`; for a positive modulus it lies in `[0, m)`.
pub fn modulus(a: &BigNum, m: &BigNum) -> (r: BigNum)
    requires
        m@ != 0,
    ensures
        r@ == trunc_rem(trunc_rem(a@, m@) + m@, m@),
        m@ > 0 ==> r@ == a@ % m@,
{
    let t = big_rem(a, m);
    let s = big_add(&t, m);
    proof {
        lemma_trunc_div_rem(a@, m@);
        if m@ > 0 {
            lemma_normalized_residue(a@, m@);
        }
    }
    big_rem(&s, m)
}

} // verus!
