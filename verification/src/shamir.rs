//! Threshold sharing of a secret over a prime field.
//!
//! A secret is the constant term of a random polynomial of degree
//! `threshold`; a share is a point of that polynomial. `threshold + 1` shares
//! give the secret back by Lagrange interpolation at zero.

use crate::bignum::{big_add, big_from_i64, big_mul, big_rem, big_sub, trunc_rem, values_of, BigNum};
use crate::field::{
    coprime, gcd, inverse_mod, is_inverse_mod, is_prime, lemma_add_congruent,
    lemma_coprime_gcd,
    lemma_gcd_coprime, lemma_inverse_exists, lemma_inverse_mod_is, lemma_mul_congruent,
    lemma_prime_coprime, lemma_trunc_rem_congruent, mod_inverse, modulus,
};
use rand::distributions::Distribution;
use rand::distributions::Uniform;
use vstd::arithmetic::div_mod::{
    lemma_add_mod_noop, lemma_mod_bound, lemma_mod_twice,
    lemma_mul_mod_noop_general, lemma_small_mod, lemma_sub_mod_noop,
};
use vstd::prelude::*;

verus! {

/// A point `[x, y]` of the sharing polynomial.
pub type Share = [BigNum; 2];

/// The x-coordinates of a sequence of shares.
pub open spec fn xs_of(shares: Seq<Share>) -> Seq<int> {
    shares.map_values(|s: Share| s[0]@)
}

/// The y-values of a sequence of shares.
pub open spec fn ys_of(shares: Seq<Share>) -> Seq<int> {
    shares.map_values(|s: Share| s[1]@)
}

/// The polynomial with the given coefficients, constant term first, at `x`.
pub open spec fn poly_eval(coefficients: Seq<int>, x: int) -> int
    decreases coefficients.len(),
{
    if coefficients.len() == 0 {
        0
    } else {
        coefficients[0] + x * poly_eval(coefficients.skip(1), x)
    }
}

/// Horner's rule from the leading coefficient down, reduced by `p` at the
/// leading coefficient and after each step, with the remainder that follows
/// the dividend's sign.
pub open spec fn horner(coefficients: Seq<int>, x: int, p: int) -> int
    decreases coefficients.len(),
{
    if coefficients.len() == 0 {
        0
    } else if coefficients.len() == 1 {
        trunc_rem(coefficients[0], p)
    } else {
        trunc_rem(horner(coefficients.skip(1), x, p) * x + coefficients[0], p)
    }
}

/// No number of `numbers` is negative.
pub open spec fn all_natural(numbers: Seq<int>) -> bool {
    forall|k: int| 0 <= k < numbers.len() ==> numbers[k] >= 0
}

/// The product of `xs[j]` over `j < n`, `j != i`.
pub open spec fn product_skipping(xs: Seq<int>, i: int, n: nat) -> int
    decreases n,
{
    if n == 0 {
        1
    } else if n - 1 == i {
        product_skipping(xs, i, (n - 1) as nat)
    } else {
        product_skipping(xs, i, (n - 1) as nat) * xs[n - 1]
    }
}

/// The product of `xs[j] - xs[i]` over `j < n`, `j != i`.
pub open spec fn difference_product_skipping(xs: Seq<int>, i: int, n: nat) -> int
    decreases n,
{
    if n == 0 {
        1
    } else if n - 1 == i {
        difference_product_skipping(xs, i, (n - 1) as nat)
    } else {
        difference_product_skipping(xs, i, (n - 1) as nat) * (xs[n - 1] - xs[i])
    }
}

/// The numerator of the `i`-th Lagrange basis polynomial at zero, as a
/// residue.
pub open spec fn numerator(xs: Seq<int>, i: int, p: int) -> int {
    product_skipping(xs, i, xs.len()) % p
}

/// The denominator of the `i`-th Lagrange basis polynomial, as a residue.
pub open spec fn denominator(xs: Seq<int>, i: int, p: int) -> int {
    difference_product_skipping(xs, i, xs.len()) % p
}

/// Every denominator of the Lagrange basis over `xs` has an inverse modulo `p`.
pub open spec fn interpolable(xs: Seq<int>, p: int) -> bool {
    forall|i: int| 0 <= i < xs.len() ==> coprime(#[trigger] denominator(xs, i, p), p)
}

/// The `i`-th term of the interpolation sum.
pub open spec fn lagrange_term(xs: Seq<int>, ys: Seq<int>, i: int, p: int) -> int {
    ys[i] * numerator(xs, i, p) * inverse_mod(denominator(xs, i, p), p)
}

/// The first `n` terms of the interpolation sum, reduced by `p` after each
/// addition with the remainder that follows the dividend's sign.
pub open spec fn lagrange_sum(xs: Seq<int>, ys: Seq<int>, n: nat, p: int) -> int
    decreases n,
{
    if n == 0 {
        0
    } else {
        trunc_rem(
            lagrange_sum(xs, ys, (n - 1) as nat, p) + lagrange_term(xs, ys, n - 1, p),
            p,
        )
    }
}

/// The value at zero of the polynomial through the points `(xs[i], ys[i])`.
pub open spec fn lagrange_at_zero(xs: Seq<int>, ys: Seq<int>, p: int) -> int {
    lagrange_sum(xs, ys, xs.len(), p)
}

/// Evaluates the polynomial with the given coefficients, constant term first,
/// at `point`, reducing by `prime` along the way: on natural numbers and a
/// positive modulus the result is the residue of the polynomial's value.
pub fn mod_evaluate_polynomial(coefficients: &[BigNum], point: &BigNum, prime: &BigNum) -> (r:
    BigNum)
    requires
        coefficients@.len() >= 1,
        prime@ != 0,
    ensures
        r@ == horner(values_of(coefficients@), point@, prime@),
        all_natural(values_of(coefficients@)) && point@ >= 0 && prime@ > 0 ==> r@ == poly_eval(
            values_of(coefficients@),
            point@,
        ) % prime@,
{
    let n = coefficients.len();
    let ghost cs = values_of(coefficients@);
    let mut partial = big_rem(&coefficients[n - 1], prime);
    let mut i = n - 1;
    proof {
        assert(cs.skip(i as int).len() == 1);
        assert(cs.skip(i as int)[0] == coefficients@[i as int]@);
    }
    while i > 0
        invariant
            0 <= i < n,
            n == coefficients@.len(),
            cs == values_of(coefficients@),
            prime@ != 0,
            partial@ == horner(cs.skip(i as int), point@, prime@),
        decreases i,
    {
        i = i - 1;
        let t = big_mul(&partial, point);
        let s = big_add(&t, &coefficients[i]);
        partial = big_rem(&s, prime);
        proof {
            assert(cs.skip(i as int).skip(1) =~= cs.skip(i + 1));
            assert(cs.skip(i as int)[0] == coefficients@[i as int]@);
        }
    }
    proof {
        assert(cs.skip(0) =~= cs);
        if all_natural(cs) && point@ >= 0 && prime@ > 0 {
            lemma_horner_natural(cs, point@, prime@);
        }
    }
    partial
}

/// The value at zero of the polynomial through `(points[i], values[i])`,
/// modulo `prime`.
pub fn lagrange_interpolation_at_zero(points: &[BigNum], values: &[BigNum], prime: &BigNum) -> (r:
    BigNum)
    requires
        points@.len() == values@.len(),
        prime@ > 1,
        interpolable(values_of(points@), prime@),
    ensures
        r@ == lagrange_at_zero(values_of(points@), values_of(values@), prime@),
{
    let ghost xs = values_of(points@);
    let ghost ys = values_of(values@);
    let ghost p = prime@;
    let n = values.len();
    let mut acc = big_from_i64(0);
    let mut i: usize = 0;
    while i < n
        invariant
            0 <= i <= n,
            n == values@.len(),
            n == points@.len(),
            xs == values_of(points@),
            ys == values_of(values@),
            p == prime@,
            p > 1,
            interpolable(xs, p),
            acc@ == lagrange_sum(xs, ys, i as nat, p),
        decreases n - i,
    {
        let xi = &points[i];
        let yi = &values[i];
        let mut num = big_from_i64(1);
        let mut denum = big_from_i64(1);
        let mut j: usize = 0;
        proof {
            lemma_small_mod(1, p as nat);
        }
        while j < n
            invariant
                0 <= j <= n,
                0 <= i < n,
                n == points@.len(),
                xs == values_of(points@),
                p == prime@,
                p > 1,
                xi@ == xs[i as int],
                num@ == product_skipping(xs, i as int, j as nat) % p,
                denum@ == difference_product_skipping(xs, i as int, j as nat) % p,
            decreases n - j,
        {
            if j != i {
                let xj = &points[j];
                let num_xj_prod = big_mul(&num, xj);
                num = modulus(&num_xj_prod, prime);
                let xj_xi_diff = big_sub(xj, xi);
                let dnum_diff_prod = big_mul(&denum, &xj_xi_diff);
                denum = modulus(&dnum_diff_prod, prime);
                proof {
                    lemma_mul_mod_noop_general(
                        product_skipping(xs, i as int, j as nat),
                        xs[j as int],
                        p,
                    );
                    lemma_mul_mod_noop_general(
                        difference_product_skipping(xs, i as int, j as nat),
                        xs[j as int] - xs[i as int],
                        p,
                    );
                }
            }
            j = j + 1;
        }
        proof {
            assert(denum@ == denominator(xs, i as int, p));
            assert(num@ == numerator(xs, i as int, p));
        }
        let mod_inv = mod_inverse(&denum, prime);
        let prod1 = big_mul(yi, &num);
        let prod2 = big_mul(&prod1, &mod_inv);
        let sum = big_add(&acc, &prod2);
        acc = big_rem(&sum, prime);
        i = i + 1;
    }
    acc
}

/// Whether the polynomial through points with the x-coordinates `points` can
/// be interpolated modulo `prime`.
pub fn can_interpolate(points: &[BigNum], prime: &BigNum) -> (ok: bool)
    requires
        prime@ > 1,
    ensures
        ok == interpolable(values_of(points@), prime@),
{
    let ghost xs = values_of(points@);
    let ghost p = prime@;
    let n = points.len();
    let one = big_from_i64(1);
    let mut i: usize = 0;
    while i < n
        invariant
            0 <= i <= n,
            n == points@.len(),
            xs == values_of(points@),
            p == prime@,
            p > 1,
            one@ == 1,
            forall|k: int| 0 <= k < i ==> coprime(#[trigger] denominator(xs, k, p), p),
        decreases n - i,
    {
        let xi = &points[i];
        let mut denum = big_from_i64(1);
        let mut j: usize = 0;
        proof {
            lemma_small_mod(1, p as nat);
        }
        while j < n
            invariant
                0 <= j <= n,
                0 <= i < n,
                n == points@.len(),
                xs == values_of(points@),
                p == prime@,
                p > 1,
                xi@ == xs[i as int],
                denum@ == difference_product_skipping(xs, i as int, j as nat) % p,
            decreases n - j,
        {
            if j != i {
                let diff = big_sub(&points[j], xi);
                let prod = big_mul(&denum, &diff);
                denum = modulus(&prod, prime);
                proof {
                    lemma_mul_mod_noop_general(
                        difference_product_skipping(xs, i as int, j as nat),
                        xs[j as int] - xs[i as int],
                        p,
                    );
                }
            }
            j = j + 1;
        }
        let (g, _x, _y) = gcd(prime, &denum);
        proof {
            lemma_mod_bound(difference_product_skipping(xs, i as int, n as nat), p);
            assert(denum@ == denominator(xs, i as int, p));
            if g@ == 1 {
                lemma_gcd_coprime(p, denum@);
            } else if coprime(denum@, p) {
                lemma_coprime_gcd(p, denum@);
            }
        }
        if !g.eq(&one) {
            return false;
        }
        i = i + 1;
    }
    true
}

/// The parameters of a sharing scheme.
pub struct ShamirSecretSharing {
    /// Maximum number of shares that can be known without exposing the secret.
    pub threshold: usize,
    /// Number of shares to split the secret into.
    pub share_count: usize,
    /// Prime defining the field in which computation takes place.
    pub prime: BigNum,
}

/// `coefficients` is a polynomial as [`ShamirSecretSharing::share`] draws it:
/// the secret first, then `threshold` numbers from `[0, i64::MAX)`.
pub open spec fn is_sampled_polynomial(coefficients: Seq<int>, secret: int, threshold: nat) -> bool {
    &&& coefficients.len() == threshold + 1
    &&& coefficients[0] == secret
    &&& forall|k: int| 1 <= k < coefficients.len() ==> 0 <= #[trigger] coefficients[k] < i64::MAX
}

/// `xs` is a list of x-coordinates as [`ShamirSecretSharing::share`] draws it:
/// the anchor first, then `share_count - 1` numbers from `[0, i64::MAX)`.
pub open spec fn is_sampled_points(xs: Seq<int>, anchor: int, share_count: nat) -> bool {
    &&& xs.len() == share_count
    &&& xs[0] == anchor
    &&& forall|k: int| 1 <= k < xs.len() ==> 0 <= #[trigger] xs[k] < i64::MAX
}

/// `shares` are the points of the polynomial `coefficients` at `xs`, in order.
pub open spec fn is_evaluation(shares: Seq<Share>, coefficients: Seq<int>, xs: Seq<int>, p: int) -> bool {
    &&& shares.len() == xs.len()
    &&& forall|i: int|
        0 <= i < shares.len() ==> (#[trigger] shares[i])[0]@ == xs[i] && shares[i][1]@ == horner(
            coefficients,
            xs[i],
            p,
        )
}

/// `shares` is a sharing of `secret`: the points, at the anchor and at drawn
/// x-coordinates, of a polynomial drawn around the secret.
pub open spec fn is_sharing(
    shares: Seq<Share>,
    secret: int,
    anchor: int,
    threshold: nat,
    share_count: nat,
    p: int,
) -> bool {
    exists|coefficients: Seq<int>|
        {
            &&& #[trigger] is_sampled_polynomial(coefficients, secret, threshold)
            &&& is_sampled_points(xs_of(shares), anchor, share_count)
            &&& is_evaluation(shares, coefficients, xs_of(shares), p)
        }
}

impl ShamirSecretSharing {
    /// Minimum number of shares required to reconstruct the secret: always
    /// `threshold + 1`.
    pub fn reconstruct_limit(&self) -> (r: usize)
        requires
            self.threshold < usize::MAX,
        ensures
            r == self.threshold + 1,
    {
        self.threshold + 1
    }

    /// Splits `secret` into `share_count` shares, the first of them at the
    /// x-coordinate `hash_pass`.
    pub fn share(&self, secret: &BigNum, hash_pass: &BigNum) -> (r: Vec<Share>)
        requires
            self.threshold < usize::MAX,
            self.share_count >= 1,
            self.prime@ != 0,
        ensures
            is_sharing(
                r@,
                secret@,
                hash_pass@,
                self.threshold as nat,
                self.share_count as nat,
                self.prime@,
            ),
    {
        let result = self.sample_polynomial(secret, hash_pass);
        let shares = self.evaluate_polynomial(result[0].as_slice(), result[1].as_slice());
        proof {
            assert(xs_of(shares@) =~= values_of(result[1]@));
            assert(is_sampled_polynomial(
                values_of(result[0]@),
                secret@,
                self.threshold as nat,
            ));
        }
        shares
    }

    /// Reconstructs the secret from the first `threshold + 1` of `shares`;
    /// later ones are ignored.
    pub fn reconstruct(&self, shares: &Vec<Share>) -> (r: BigNum)
        requires
            self.threshold < usize::MAX,
            shares@.len() >= self.threshold + 1,
            self.prime@ > 1,
            interpolable(xs_of(shares@.take(self.threshold + 1)), self.prime@),
        ensures
            r@ == lagrange_at_zero(
                xs_of(shares@.take(self.threshold + 1)),
                ys_of(shares@.take(self.threshold + 1)),
                self.prime@,
            ),
    {
        let limit = self.reconstruct_limit();
        let x_values = self.coordinates(shares, 0);
        let y_values = self.coordinates(shares, 1);
        lagrange_interpolation_at_zero(x_values.as_slice(), y_values.as_slice(), &self.prime)
    }

    /// Whether the first `threshold + 1` of `shares` determine a polynomial
    /// modulo the prime, so that [`Self::reconstruct`] may be called on them.
    pub fn can_reconstruct(&self, shares: &Vec<Share>) -> (ok: bool)
        requires
            self.threshold < usize::MAX,
            shares@.len() >= self.threshold + 1,
            self.prime@ > 1,
        ensures
            ok == interpolable(xs_of(shares@.take(self.threshold + 1)), self.prime@),
    {
        let x_values = self.coordinates(shares, 0);
        can_interpolate(x_values.as_slice(), &self.prime)
    }

    /// The x-coordinates (`which == 0`) or y-values (`which == 1`) of the
    /// first `threshold + 1` shares.
    fn coordinates(&self, shares: &Vec<Share>, which: usize) -> (r: Vec<BigNum>)
        requires
            self.threshold < usize::MAX,
            shares@.len() >= self.threshold + 1,
            which < 2,
        ensures
            r@.len() == self.threshold + 1,
            which == 0 ==> values_of(r@) == xs_of(shares@.take(self.threshold + 1)),
            which == 1 ==> values_of(r@) == ys_of(shares@.take(self.threshold + 1)),
    {
        let limit = self.reconstruct_limit();
        let mut out: Vec<BigNum> = Vec::new();
        let mut i: usize = 0;
        while i < limit
            invariant
                0 <= i <= limit,
                limit <= shares@.len(),
                which < 2,
                out@.len() == i,
                forall|k: int| 0 <= k < i ==> (#[trigger] out@[k])@ == shares@[k][which as int]@,
            decreases limit - i,
        {
            out.push(shares[i][which].clone());
            i = i + 1;
        }
        proof {
            if which == 0 {
                assert(values_of(out@) =~= xs_of(shares@.take(limit as int)));
            } else {
                assert(values_of(out@) =~= ys_of(shares@.take(limit as int)));
            }
        }
        out
    }

    /// Draws the polynomial and the x-coordinates: the coefficients, with
    /// `zero_value` as the constant term, and the points, with `hash_pass`
    /// first.
    fn sample_polynomial(&self, zero_value: &BigNum, hash_pass: &BigNum) -> (r: [Vec<BigNum>; 2])
        requires
            self.threshold < usize::MAX,
            self.share_count >= 1,
        ensures
            is_sampled_polynomial(values_of(r[0]@), zero_value@, self.threshold as nat),
            is_sampled_points(values_of(r[1]@), hash_pass@, self.share_count as nat),
    {
        let mut coefficients: Vec<BigNum> = Vec::new();
        coefficients.push(zero_value.clone());
        let mut i: usize = 0;
        while i < self.threshold
            invariant
                0 <= i <= self.threshold,
                self.threshold < usize::MAX,
                coefficients@.len() == i + 1,
                coefficients@[0]@ == zero_value@,
                forall|k: int| 1 <= k < coefficients@.len() ==> 0 <= (#[trigger] coefficients@[k])@ < i64::MAX,
            decreases self.threshold - i,
        {
            coefficients.push(big_from_i64(random_below(i64::MAX)));
            i = i + 1;
        }
        let mut points: Vec<BigNum> = Vec::new();
        points.push(hash_pass.clone());
        let mut j: usize = 1;
        while j < self.share_count
            invariant
                1 <= j <= self.share_count,
                points@.len() == j,
                points@[0]@ == hash_pass@,
                forall|k: int| 1 <= k < points@.len() ==> 0 <= (#[trigger] points@[k])@ < i64::MAX,
            decreases self.share_count - j,
        {
            points.push(big_from_i64(random_below(i64::MAX)));
            j = j + 1;
        }
        [coefficients, points]
    }

    /// The points of the polynomial `coefficients` at each of `points`, in
    /// order.
    pub fn evaluate_polynomial(&self, coefficients: &[BigNum], points: &[BigNum]) -> (r: Vec<Share>)
        requires
            coefficients@.len() >= 1,
            self.prime@ != 0,
        ensures
            is_evaluation(r@, values_of(coefficients@), values_of(points@), self.prime@),
    {
        let mut result: Vec<Share> = Vec::new();
        let n = points.len();
        let mut i: usize = 0;
        while i < n
            invariant
                0 <= i <= n,
                n == points@.len(),
                coefficients@.len() >= 1,
                self.prime@ != 0,
                result@.len() == i,
                forall|k: int|
                    0 <= k < i ==> (#[trigger] result@[k])[0]@ == points@[k]@ && result@[k][1]@
                        == horner(values_of(coefficients@), points@[k]@, self.prime@),
            decreases n - i,
        {
            let point = &points[i];
            let y_val = mod_evaluate_polynomial(coefficients, point, &self.prime);
            result.push([point.clone(), y_val]);
            i = i + 1;
        }
        result
    }
}

/// Horner's rule computes the polynomial's value up to a multiple of `p`.
pub proof fn lemma_horner_congruent(coefficients: Seq<int>, x: int, p: int)
    requires
        p > 0,
        coefficients.len() >= 1,
    ensures
        horner(coefficients, x, p) % p == poly_eval(coefficients, x) % p,
    decreases coefficients.len(),
{
    let rest = coefficients.skip(1);
    if coefficients.len() == 1 {
        assert(poly_eval(rest, x) == 0);
        assert(x * 0 == 0) by (nonlinear_arith);
        lemma_trunc_rem_congruent(coefficients[0], p);
    } else {
        lemma_horner_congruent(rest, x, p);
        let h = horner(rest, x, p);
        let e = poly_eval(rest, x);
        lemma_trunc_rem_congruent(h * x + coefficients[0], p);
        lemma_mul_congruent(h, e, x, x, p);
        lemma_add_congruent(h * x, e * x, coefficients[0], coefficients[0], p);
        assert(e * x == x * e) by (nonlinear_arith);
    }
}

/// On natural coefficients and a natural point, Horner's rule gives the
/// residue in `[0, p)` of the polynomial's value.
pub proof fn lemma_horner_natural(coefficients: Seq<int>, x: int, p: int)
    requires
        p > 0,
        coefficients.len() >= 1,
        x >= 0,
        all_natural(coefficients),
    ensures
        horner(coefficients, x, p) >= 0,
        horner(coefficients, x, p) == poly_eval(coefficients, x) % p,
    decreases coefficients.len(),
{
    if coefficients.len() == 1 {
        lemma_trunc_rem_congruent(coefficients[0], p);
        lemma_horner_congruent(coefficients, x, p);
        lemma_mod_twice(coefficients[0], p);
        lemma_mod_bound(coefficients[0], p);
    } else {
        let rest = coefficients.skip(1);
        lemma_horner_natural(rest, x, p);
        let h = horner(rest, x, p);
        assert(h * x >= 0) by (nonlinear_arith)
            requires
                h >= 0,
                x >= 0,
        ;
        lemma_trunc_rem_congruent(h * x + coefficients[0], p);
        lemma_horner_congruent(coefficients, x, p);
        lemma_mod_twice(h * x + coefficients[0], p);
    }
}

/// What the interpolation sum is made of when there are two points.
proof fn lemma_two_point_terms(x0: int, x1: int, y0: int, y1: int, p: int)
    ensures
        numerator(seq![x0, x1], 0, p) == x1 % p,
        numerator(seq![x0, x1], 1, p) == x0 % p,
        denominator(seq![x0, x1], 0, p) == (x1 - x0) % p,
        denominator(seq![x0, x1], 1, p) == (x0 - x1) % p,
        lagrange_at_zero(seq![x0, x1], seq![y0, y1], p) == trunc_rem(
            trunc_rem(lagrange_term(seq![x0, x1], seq![y0, y1], 0, p), p) + lagrange_term(
                seq![x0, x1],
                seq![y0, y1],
                1,
                p,
            ),
            p,
        ),
{
    let xs = seq![x0, x1];
    let ys = seq![y0, y1];
    reveal_with_fuel(product_skipping, 3);
    reveal_with_fuel(difference_product_skipping, 3);
    reveal_with_fuel(lagrange_sum, 3);
    assert(xs.len() == 2 && xs[0] == x0 && xs[1] == x1);
    assert(product_skipping(xs, 0, 2) == 1 * x1);
    assert(product_skipping(xs, 1, 2) == 1 * x0);
    assert(difference_product_skipping(xs, 0, 2) == 1 * (x1 - x0));
    assert(difference_product_skipping(xs, 1, 2) == 1 * (x0 - x1));
    assert(lagrange_sum(xs, ys, 1, p) == trunc_rem(0 + lagrange_term(xs, ys, 0, p), p));
}

/// Two points of a line over a prime field, at x-coordinates that differ
/// modulo the prime, give the line's value at zero: the interpolation sum is
/// congruent to the constant term `s`, and equal to its residue in `[0, p)`
/// when both y-values are natural.
pub proof fn lemma_two_point_interpolation(
    p: int,
    s: int,
    c: int,
    x0: int,
    x1: int,
    y0: int,
    y1: int,
)
    requires
        is_prime(p),
        (x1 - x0) % p != 0,
        y0 % p == (s + c * x0) % p,
        y1 % p == (s + c * x1) % p,
    ensures
        interpolable(seq![x0, x1], p),
        lagrange_at_zero(seq![x0, x1], seq![y0, y1], p) % p == s % p,
        y0 >= 0 && y1 >= 0 ==> lagrange_at_zero(seq![x0, x1], seq![y0, y1], p) == s % p,
{
    let xs = seq![x0, x1];
    let ys = seq![y0, y1];
    lemma_two_point_terms(x0, x1, y0, y1, p);
    let d0 = (x1 - x0) % p;
    let d1 = (x0 - x1) % p;
    lemma_mod_bound(x1 - x0, p);
    lemma_mod_bound(x0 - x1, p);
    // the two denominators are opposite residues
    lemma_add_mod_noop(x1 - x0, x0 - x1, p);
    assert((d0 + d1) % p == 0);
    if d1 == 0 {
        lemma_small_mod(d0 as nat, p as nat);
    }
    lemma_prime_coprime(x1 - x0, p);
    lemma_prime_coprime(x0 - x1, p);
    assert(interpolable(xs, p)) by {
        assert forall|i: int| 0 <= i < xs.len() implies coprime(
            #[trigger] denominator(xs, i, p),
            p,
        ) by {
            if i == 0 {
            } else {
                assert(i == 1);
            }
        }
    }
    lemma_inverse_exists(d0, p);
    lemma_inverse_exists(d1, p);
    let e0 = inverse_mod(d0, p);
    let e1 = inverse_mod(d1, p);
    lemma_small_mod(1, p as nat);
    // the inverse of the second denominator is the opposite of the first's
    let w = (-e0) % p;
    lemma_mod_bound(-e0, p);
    lemma_mod_twice(-e0, p);
    lemma_sub_mod_noop(0, d0, p);
    lemma_small_mod(d0 as nat, p as nat);
    lemma_small_mod(d1 as nat, p as nat);
    assert(d1 % p == (-d0) % p) by {
        lemma_add_mod_noop(d0 + d1, -d0, p);
        lemma_small_mod(0, p as nat);
        assert((0 + (-d0) % p) % p == (d0 + d1 + (-d0)) % p);
        lemma_mod_twice(-d0, p);
    }
    lemma_mul_congruent(d1, -d0, w, -e0, p);
    assert((-d0) * (-e0) == d0 * e0) by (nonlinear_arith);
    assert(is_inverse_mod(d1, w, p));
    lemma_inverse_mod_is(d1, w, p);
    assert(e1 == w);
    // the two terms, up to multiples of p
    let n0 = x1 % p;
    let n1 = x0 % p;
    lemma_mod_bound(x1, p);
    lemma_mod_bound(x0, p);
    lemma_mod_twice(x1, p);
    lemma_mod_twice(x0, p);
    let t0 = y0 * n0 * e0;
    let t1 = y1 * n1 * e1;
    assert(t0 == lagrange_term(xs, ys, 0, p));
    assert(t1 == lagrange_term(xs, ys, 1, p));
    let f0 = s + c * x0;
    let f1 = s + c * x1;
    lemma_mul_congruent(y0, f0, n0, x1, p);
    lemma_mul_congruent(y0 * n0, f0 * x1, e0, e0, p);
    lemma_mul_congruent(y1, f1, n1, x0, p);
    lemma_mul_congruent(y1 * n1, f1 * x0, e1, -e0, p);
    let a0 = f0 * x1 * e0;
    let a1 = f1 * x0 * (-e0);
    lemma_add_congruent(t0, a0, t1, a1, p);
    let m0 = f0 * x1;
    let m1 = f1 * x0;
    let cx = c * x0;
    let cy = c * x1;
    assert(m0 == s * x1 + cx * x1) by (nonlinear_arith)
        requires
            m0 == (s + cx) * x1,
    ;
    assert(m1 == s * x0 + cy * x0) by (nonlinear_arith)
        requires
            m1 == (s + cy) * x0,
    ;
    assert(cx * x1 == cy * x0) by (nonlinear_arith)
        requires
            cx == c * x0,
            cy == c * x1,
    ;
    assert(s * x1 - s * x0 == s * (x1 - x0)) by (nonlinear_arith);
    let dm = s * (x1 - x0);
    assert(m0 - m1 == dm);
    assert(a0 + a1 == dm * e0) by (nonlinear_arith)
        requires
            a0 == m0 * e0,
            a1 == m1 * (-e0),
            m0 - m1 == dm,
    ;
    let dx = x1 - x0;
    assert(dm * e0 == (s * e0) * dx) by (nonlinear_arith)
        requires
            dm == s * dx,
    ;
    lemma_mod_twice(x1 - x0, p);
    lemma_mul_congruent(s * e0, s * e0, x1 - x0, d0, p);
    assert((s * e0) * d0 == s * (d0 * e0)) by (nonlinear_arith);
    lemma_mul_congruent(s, s, d0 * e0, 1, p);
    assert(s * 1 == s) by (nonlinear_arith);
    assert((t0 + t1) % p == s % p);
    // the reductions along the way change nothing modulo p
    let l = lagrange_at_zero(xs, ys, p);
    lemma_trunc_rem_congruent(t0, p);
    lemma_trunc_rem_congruent(trunc_rem(t0, p) + t1, p);
    lemma_add_congruent(trunc_rem(t0, p), t0, t1, t1, p);
    assert(l % p == s % p);
    if y0 >= 0 && y1 >= 0 {
        assert(t0 >= 0) by (nonlinear_arith)
            requires
                y0 >= 0,
                n0 >= 0,
                e0 >= 0,
                t0 == y0 * n0 * e0,
        ;
        assert(t1 >= 0) by (nonlinear_arith)
            requires
                y1 >= 0,
                n1 >= 0,
                e1 >= 0,
                t1 == y1 * n1 * e1,
        ;
        lemma_mod_bound(t0, p);
        lemma_mod_bound(trunc_rem(t0, p) + t1, p);
        lemma_small_mod(l as nat, p as nat);
    }
}

/// Any two shares of a sharing with threshold one, at x-coordinates that
/// differ modulo the prime, can be interpolated, and give a number congruent
/// to the secret; where the secret is a residue in `[0, p)` and the anchor is
/// natural, they give the secret itself.
pub proof fn lemma_two_shares_recover_secret(
    shares: Seq<Share>,
    secret: int,
    anchor: int,
    share_count: nat,
    p: int,
    i: int,
    j: int,
)
    requires
        is_prime(p),
        is_sharing(shares, secret, anchor, 1, share_count, p),
        0 <= i < share_count,
        0 <= j < share_count,
        (shares[j][0]@ - shares[i][0]@) % p != 0,
    ensures
        interpolable(seq![shares[i][0]@, shares[j][0]@], p),
        lagrange_at_zero(
            seq![shares[i][0]@, shares[j][0]@],
            seq![shares[i][1]@, shares[j][1]@],
            p,
        ) % p == secret % p,
        0 <= secret < p && anchor >= 0 ==> lagrange_at_zero(
            seq![shares[i][0]@, shares[j][0]@],
            seq![shares[i][1]@, shares[j][1]@],
            p,
        ) == secret,
{
    let coefficients = choose|coefficients: Seq<int>|
        {
            &&& #[trigger] is_sampled_polynomial(coefficients, secret, 1)
            &&& is_sampled_points(xs_of(shares), anchor, share_count)
            &&& is_evaluation(shares, coefficients, xs_of(shares), p)
        };
    let xs = xs_of(shares);
    let c = coefficients[1];
    let x0 = shares[i][0]@;
    let x1 = shares[j][0]@;
    let y0 = shares[i][1]@;
    let y1 = shares[j][1]@;
    assert(xs[i] == x0 && xs[j] == x1);
    assert(y0 == horner(coefficients, x0, p));
    assert(y1 == horner(coefficients, x1, p));
    lemma_horner_congruent(coefficients, x0, p);
    lemma_horner_congruent(coefficients, x1, p);
    reveal_with_fuel(poly_eval, 3);
    assert(coefficients.skip(1).skip(1).len() == 0);
    assert(coefficients.skip(1)[0] == c);
    assert forall|x: int| poly_eval(coefficients, x) == secret + c * x by {
        assert(poly_eval(coefficients, x) == secret + x * (c + x * 0));
        assert(x * (c + x * 0) == c * x) by (nonlinear_arith);
    }
    lemma_two_point_interpolation(p, secret, c, x0, x1, y0, y1);
    if 0 <= secret < p && anchor >= 0 {
        assert(x0 >= 0 && x1 >= 0);
        lemma_horner_natural(coefficients, x0, p);
        lemma_horner_natural(coefficients, x1, p);
        lemma_small_mod(secret as nat, p as nat);
    }
}

/// Whichever two shares of one sharing are interpolated, the result is the
/// same: two pairs, each at x-coordinates that differ modulo the prime, give
/// congruent numbers, and the same number where the secret is a residue in
/// `[0, p)` and the anchor is natural.
pub proof fn lemma_share_subsets_agree(
    shares: Seq<Share>,
    secret: int,
    anchor: int,
    share_count: nat,
    p: int,
    i: int,
    j: int,
    k: int,
    l: int,
)
    requires
        is_prime(p),
        is_sharing(shares, secret, anchor, 1, share_count, p),
        0 <= i < share_count,
        0 <= j < share_count,
        0 <= k < share_count,
        0 <= l < share_count,
        (shares[j][0]@ - shares[i][0]@) % p != 0,
        (shares[l][0]@ - shares[k][0]@) % p != 0,
    ensures
        lagrange_at_zero(
            seq![shares[i][0]@, shares[j][0]@],
            seq![shares[i][1]@, shares[j][1]@],
            p,
        ) % p == lagrange_at_zero(
            seq![shares[k][0]@, shares[l][0]@],
            seq![shares[k][1]@, shares[l][1]@],
            p,
        ) % p,
        0 <= secret < p && anchor >= 0 ==> lagrange_at_zero(
            seq![shares[i][0]@, shares[j][0]@],
            seq![shares[i][1]@, shares[j][1]@],
            p,
        ) == lagrange_at_zero(
            seq![shares[k][0]@, shares[l][0]@],
            seq![shares[k][1]@, shares[l][1]@],
            p,
        ),
{
    lemma_two_shares_recover_secret(shares, secret, anchor, share_count, p, i, j);
    lemma_two_shares_recover_secret(shares, secret, anchor, share_count, p, k, l);
}

/// A uniformly drawn integer in `[0, high)`, from `rand`'s `Uniform` over the
/// thread-local generator.
#[verifier::external_body]
fn random_below(high: i64) -> (r: i64)
    requires
        0 < high,
    ensures
        0 <= r < high,
{
    Uniform::from(0..high).sample(&mut rand::thread_rng())
}

} // verus!
