//! Splitting a secret into shares and reconstructing it, over the field of
//! the integers modulo a prime.

use crate::bignum::{
    be_bytes_value, big_add, big_bits, big_clone, big_div, big_from_bytes_be, big_from_usize,
    big_ge, big_is_zero, big_mul, big_one, big_rem, big_sub, big_value, big_values, big_zero,
};
use crate::error::ShamirError;
use crate::interpolation::{
    basis_denominator, basis_numerator, denominator_product, fitted_poly, interpolable,
    interpolate, lagrange_sum, lagrange_term, lemma_denominator_product_invertible,
    lemma_fitted_poly, lemma_interpolation_exact, pairwise_distinct, pairwise_incongruent,
};
use crate::modular::{
    bezout, congruent, gcd, inverse_mod, invertible_mod, is_prime, lemma_congruent_add,
    lemma_congruent_mul,
    lemma_congruent_rem, lemma_congruent_sub, lemma_gcd_divides, lemma_gcd_rem,
    lemma_inverse_mod_inverts, lemma_inverse_mod_is, lemma_inverse_of_congruent,
    lemma_invertible_iff_coprime,
};
use crate::polynomial::{lemma_poly_eval_at_zero, lemma_poly_eval_pad, poly_eval, poly_pad};
use crate::random::{random_byte, thread_generator};
use num_bigint::BigUint;
use rand::rngs::ThreadRng;
use vstd::arithmetic::div_mod::{
    lemma_add_mod_noop, lemma_fundamental_div_mod, lemma_mod_add_multiples_vanish,
    lemma_mod_bound, lemma_mod_self_0, lemma_mod_twice, lemma_mul_mod_noop_general,
    lemma_small_mod,
};
use vstd::prelude::*;
use vstd::slice::slice_subrange;

verus! {

/// The indices of a list of shares, in order.
pub open spec fn share_indices(pool: Seq<(usize, BigUint)>) -> Seq<int> {
    Seq::new(pool.len(), |k: int| pool[k].0 as int)
}

/// The values of a list of shares, in order.
pub open spec fn share_values(pool: Seq<(usize, BigUint)>) -> Seq<int> {
    Seq::new(pool.len(), |k: int| big_value(pool[k].1) as int)
}

/// `c` is a polynomial that shares `secret` with the threshold `minimum`:
/// its constant term is the secret, it has as many coefficients as the
/// threshold asks for (one, where the threshold is 0), and the others are
/// field elements.
pub open spec fn is_sharing_polynomial(p: nat, c: Seq<int>, secret: nat, minimum: nat) -> bool {
    &&& c.len() == if minimum == 0 {
        1
    } else {
        minimum
    }
    &&& c[0] == secret
    &&& forall|k: int| 1 <= k < c.len() ==> 0 <= #[trigger] c[k] < p
}

/// `pool` holds the shares of the polynomial `c` in order: the share at
/// position `k` has the index `k + 1` and the value of `c` there, modulo
/// `p`. No share has the index 0, at which `c` is the secret.
pub open spec fn is_share_pool(p: nat, c: Seq<int>, pool: Seq<(usize, BigUint)>) -> bool {
    forall|k: int|
        0 <= k < pool.len() ==> (#[trigger] pool[k]).0 == k + 1 && big_value(pool[k].1)
            == poly_eval(c, k + 1) % (p as int)
}

/// `chosen` is a selection of shares of `pool`, no share taken twice:
/// `picks` names, for each chosen share, its position in the pool.
pub open spec fn is_selection(
    pool: Seq<(usize, BigUint)>,
    picks: Seq<int>,
    chosen: Seq<(usize, BigUint)>,
) -> bool {
    &&& chosen.len() == picks.len()
    &&& forall|i: int|
        0 <= i < picks.len() ==> {
            &&& 0 <= #[trigger] picks[i] < pool.len()
            &&& chosen[i].0 == pool[picks[i]].0
            &&& big_value(chosen[i].1) == big_value(pool[picks[i]].1)
        }
    &&& forall|i: int, j: int|
        0 <= i < j < picks.len() ==> #[trigger] picks[i] != #[trigger] picks[j]
}

/// What an interpolation at `x` through the points `(xs[i], ys[i])` comes
/// to modulo `p`: the value of the interpolant, unless two nodes are equal
/// or a denominator has no inverse.
pub open spec fn interpolation_outcome(p: nat, xs: Seq<int>, ys: Seq<int>, x: int) -> Result<
    nat,
    ShamirError,
> {
    if !pairwise_distinct(xs) {
        Err(ShamirError::DuplicatePoints)
    } else if !interpolable(p, xs) {
        Err(ShamirError::NonInvertible)
    } else {
        Ok(interpolate(p, xs, ys, x))
    }
}

/// What the reconstruction from the shares `(xs[i], ys[i])` comes to modulo
/// `p`: the interpolant's value at 0, where there are at least two shares
/// and the interpolation succeeds.
pub open spec fn recovery(p: nat, xs: Seq<int>, ys: Seq<int>) -> Result<nat, ShamirError> {
    if xs.len() < 2 {
        Err(ShamirError::InsufficientShares)
    } else {
        interpolation_outcome(p, xs, ys, 0)
    }
}

/// What the test of a fresh pool of shares comes to: whether its first
/// `minimum` shares and its last `minimum` shares both reconstruct to
/// `secret`, or the failure of the first reconstruction that fails.
pub open spec fn reconstruction_test_outcome(
    p: nat,
    secret: nat,
    pool: Seq<(usize, BigUint)>,
    minimum: nat,
) -> Result<bool, ShamirError> {
    let first = pool.take(minimum as int);
    let last = pool.skip(pool.len() - minimum);
    match recovery(p, share_indices(first), share_values(first)) {
        Err(e) => Err(e),
        Ok(a) => match recovery(p, share_indices(last), share_values(last)) {
            Err(e) => Err(e),
            Ok(b) => Ok(a == b && a == secret),
        },
    }
}

/// The result `r` of a computation is what `expected` says: the number
/// that it names, held as a big integer, or the failure that it names.
pub open spec fn yields(r: Result<BigUint, ShamirError>, expected: Result<nat, ShamirError>) -> bool {
    match r {
        Ok(v) => expected == Ok::<nat, ShamirError>(big_value(v)),
        Err(e) => expected == Err::<nat, ShamirError>(e),
    }
}

/// Whether no two of the numbers are equal.
pub fn all_distinct(x_s: &[BigUint]) -> (r: bool)
    ensures
        r == pairwise_distinct(big_values(x_s@)),
{
    let ghost xs = big_values(x_s@);
    let k = x_s.len();
    let mut i: usize = 0;
    while i < k
        invariant
            i <= k,
            k == x_s.len(),
            xs == big_values(x_s@),
            forall|a: int, b: int| 0 <= a < b < k && a < i ==> #[trigger] xs[a] != #[trigger] xs[b],
        decreases k - i,
    {
        let mut j: usize = i + 1;
        while j < k
            invariant
                i < j <= k,
                k == x_s.len(),
                xs == big_values(x_s@),
                forall|b: int| i < b < j ==> xs[i as int] != #[trigger] xs[b],
            decreases k - j,
        {
            if big_ge(&x_s[i], &x_s[j]) && big_ge(&x_s[j], &x_s[i]) {
                assert(xs[i as int] == xs[j as int]);
                return false;
            }
            assert(xs[i as int] != xs[j as int]);
            j = j + 1;
        }
        i = i + 1;
    }
    true
}

/// The field of the integers modulo one number, and the sharing scheme over
/// it. The scheme is sound where the number is prime.
pub struct ShamirSecret {
    prime: BigUint,
}

impl ShamirSecret {
    #[verifier::type_invariant]
    spec fn has_modulus(&self) -> bool {
        big_value(self.prime) >= 2
    }

    /// The modulus of the field.
    pub closed spec fn modulus(&self) -> nat {
        big_value(self.prime)
    }

    /// The scheme over the integers modulo `prime`.
    pub fn new(prime: BigUint) -> (r: Self)
        requires
            big_value(prime) >= 2,
        ensures
            r.modulus() == big_value(prime),
    {
        ShamirSecret { prime }
    }

    /// The scheme over the integers modulo `prime`, where `prime` is at
    /// least 2; nothing for 0 and 1, modulo which there is no field.
    pub fn try_new(prime: BigUint) -> (r: Option<Self>)
        ensures
            r is Some <==> big_value(prime) >= 2,
            r matches Some(s) ==> s.modulus() == big_value(prime),
    {
        let one = big_one();
        let two = big_add(&one, &one);
        if big_ge(&prime, &two) {
            Some(ShamirSecret { prime })
        } else {
            None
        }
    }

    /// The modulus of the field, which is at least 2.
    pub fn prime(&self) -> (r: &BigUint)
        ensures
            big_value(*r) == self.modulus(),
            self.modulus() >= 2,
    {
        proof {
            use_type_invariant(self);
        }
        &self.prime
    }

    /// The field element that `a` stands for: its remainder modulo the
    /// modulus.
    pub fn reduce(&self, a: &BigUint) -> (r: BigUint)
        ensures
            big_value(r) == big_value(*a) % self.modulus(),
            big_value(r) < self.modulus(),
    {
        proof {
            use_type_invariant(self);
            lemma_mod_bound(big_value(*a) as int, self.modulus() as int);
        }
        big_rem(a, &self.prime)
    }

    /// The sum of `a` and `b` in the field.
    pub fn add_mod(&self, a: &BigUint, b: &BigUint) -> (r: BigUint)
        ensures
            big_value(r) == (big_value(*a) + big_value(*b)) % self.modulus(),
            big_value(r) < self.modulus(),
    {
        proof {
            use_type_invariant(self);
            lemma_mod_bound((big_value(*a) + big_value(*b)) as int, self.modulus() as int);
        }
        let sum = big_add(a, b);
        big_rem(&sum, &self.prime)
    }

    /// The difference of `a` and `b` in the field. Where `b` exceeds `a`
    /// the subtraction wraps through the modulus, so that no intermediate
    /// value is negative.
    pub fn sub_mod(&self, a: &BigUint, b: &BigUint) -> (r: BigUint)
        ensures
            big_value(r) == (big_value(*a) - big_value(*b)) % (self.modulus() as int),
            big_value(r) < self.modulus(),
    {
        let ghost m = self.modulus() as int;
        let ghost d = big_value(*a) - big_value(*b);
        proof {
            use_type_invariant(self);
            lemma_mod_bound(d, m);
        }
        if big_ge(a, b) {
            let difference = big_sub(a, b);
            big_rem(&difference, &self.prime)
        } else {
            let excess = big_sub(b, a);
            let wrapped = big_rem(&excess, &self.prime);
            proof {
                lemma_mod_bound(-d, m);
            }
            let lifted = big_sub(&self.prime, &wrapped);
            proof {
                // lifted = m - (-d % m), which is congruent to d.
                lemma_congruent_rem(-d, m);
                lemma_mod_self_0(m);
                lemma_small_mod(0, m as nat);
                lemma_congruent_sub(m, 0, (-d) % m, -d, m);
            }
            big_rem(&lifted, &self.prime)
        }
    }

    /// The product of `a` and `b` in the field.
    pub fn mul_mod(&self, a: &BigUint, b: &BigUint) -> (r: BigUint)
        ensures
            big_value(r) == (big_value(*a) * big_value(*b)) % self.modulus(),
            big_value(r) < self.modulus(),
    {
        proof {
            use_type_invariant(self);
            lemma_mod_bound((big_value(*a) * big_value(*b)) as int, self.modulus() as int);
        }
        let product = big_mul(a, b);
        big_rem(&product, &self.prime)
    }

    /// The extended Euclidean algorithm on `a` and the modulus: the
    /// greatest common divisor of the two, and the Bézout coefficient of
    /// `a` as a field element, whose product with `a` is congruent to the
    /// divisor.
    pub fn extended_euclidean_gcd(&self, a: &BigUint) -> (r: (BigUint, BigUint))
        ensures
            big_value(r.0) == gcd(big_value(*a), self.modulus()),
            big_value(r.1) == bezout(big_value(*a), self.modulus()).0 % (self.modulus() as int),
            big_value(r.1) < self.modulus(),
            congruent(
                (big_value(*a) * big_value(r.1)) as int,
                big_value(r.0) as int,
                self.modulus() as int,
            ),
    {
        let ghost m = self.modulus() as int;
        let ghost a0 = big_value(*a) as int;
        let ghost target = bezout(big_value(*a), self.modulus()).0;
        proof {
            use_type_invariant(self);
            lemma_small_mod(1, m as nat);
            lemma_mod_self_0(m);
            lemma_small_mod(0, m as nat);
            assert(1 * a0 == a0);
            assert(0 * a0 == 0);
            assert(target * 1 + bezout(big_value(*a), self.modulus()).1 * 0 == target);
        }
        let mut x = big_zero();
        let mut last_x = big_one();
        let mut a_val = big_clone(a);
        let mut b_val = big_clone(&self.prime);
        while !big_is_zero(&b_val)
            invariant
                m == self.modulus(),
                m >= 2,
                a0 == big_value(*a),
                gcd(big_value(a_val), big_value(b_val)) == gcd(big_value(*a), self.modulus()),
                big_value(x) < m,
                big_value(last_x) < m,
                congruent(big_value(last_x) * a0, big_value(a_val) as int, m),
                congruent(big_value(x) * a0, big_value(b_val) as int, m),
                congruent(
                    target,
                    bezout(big_value(a_val), big_value(b_val)).0 * big_value(last_x) + bezout(
                        big_value(a_val),
                        big_value(b_val),
                    ).1 * big_value(x),
                    m,
                ),
            decreases big_value(b_val),
        {
            let quot = big_div(&a_val, &b_val);
            let remainder = big_rem(&a_val, &b_val);
            let step = self.mul_mod(&quot, &x);
            let next_x = self.sub_mod(&last_x, &step);
            proof {
                let av = big_value(a_val) as int;
                let bv = big_value(b_val) as int;
                let q = big_value(quot) as int;
                let xv = big_value(x) as int;
                let lx = big_value(last_x) as int;
                lemma_fundamental_div_mod(av, bv);
                lemma_mod_bound(av, bv);
                // next_x is congruent to lx - q * xv, so next_x * a0 is
                // congruent to av - q * bv, the remainder.
                lemma_congruent_rem(q * xv, m);
                lemma_congruent_sub(lx, lx, big_value(step) as int, q * xv, m);
                lemma_congruent_rem(lx - big_value(step), m);
                lemma_congruent_mul(big_value(next_x) as int, lx - q * xv, a0, a0, m);
                lemma_congruent_mul(q, q, xv * a0, bv, m);
                lemma_congruent_sub(lx * a0, av, q * (xv * a0), q * bv, m);
                assert((lx - q * xv) * a0 == lx * a0 - q * (xv * a0)) by (nonlinear_arith);
                assert(av - q * bv == big_value(remainder)) by (nonlinear_arith)
                    requires
                        av == bv * q + big_value(remainder),
                ;
                // The coefficients of (av, bv) come from those of the next
                // pair, (bv, remainder), as next_x comes from lx and xv.
                let u = bezout(big_value(b_val), big_value(remainder)).0;
                let v = bezout(big_value(b_val), big_value(remainder)).1;
                assert(bezout(big_value(a_val), big_value(b_val)) == (v, u - q * v));
                lemma_congruent_mul(v, v, big_value(next_x) as int, lx - q * xv, m);
                lemma_congruent_add(u * xv, u * xv, v * big_value(next_x), v * (lx - q * xv), m);
                assert(v * lx + (u - q * v) * xv == u * xv + v * (lx - q * xv))
                    by (nonlinear_arith);
            }
            a_val = b_val;
            b_val = remainder;
            last_x = x;
            x = next_x;
        }
        proof {
            assert(a0 * big_value(last_x) == big_value(last_x) * a0) by (nonlinear_arith);
            assert(1 * big_value(last_x) + 0 * big_value(x) == big_value(last_x));
            lemma_small_mod(big_value(last_x), m as nat);
        }
        (a_val, last_x)
    }

    /// The inverse of `a` in the field, by the extended Euclidean
    /// algorithm; it exists where `a` and the modulus have no common
    /// divisor but 1.
    pub fn inverse(&self, a: &BigUint) -> (r: Result<BigUint, ShamirError>)
        ensures
            r is Ok <==> invertible_mod(big_value(*a) as int, self.modulus()),
            r is Ok <==> gcd(big_value(*a), self.modulus()) == 1,
            r matches Ok(v) ==> big_value(v) == inverse_mod(big_value(*a) as int, self.modulus()),
            r matches Err(e) ==> e == ShamirError::NonInvertible,
    {
        let ghost p = self.modulus();
        let ghost av = big_value(*a);
        proof {
            use_type_invariant(self);
            lemma_gcd_divides(av, p);
            lemma_gcd_rem(av, p);
            lemma_invertible_iff_coprime(av as int, p);
        }
        let (divisor, coefficient) = self.extended_euclidean_gcd(a);
        let one = big_one();
        if big_ge(&one, &divisor) {
            proof {
                lemma_small_mod(1, p);
                lemma_inverse_mod_is(av as int, big_value(coefficient), p);
            }
            Ok(coefficient)
        } else {
            Err(ShamirError::NonInvertible)
        }
    }

    /// The quotient of `num` by `den` in the field: the product of `num`
    /// and the inverse of `den`.
    pub fn division_modulo_prime(&self, num: &BigUint, den: &BigUint) -> (r: Result<
        BigUint,
        ShamirError,
    >)
        ensures
            r is Ok <==> invertible_mod(big_value(*den) as int, self.modulus()),
            r matches Ok(v) ==> big_value(v) == (big_value(*num) * inverse_mod(
                big_value(*den) as int,
                self.modulus(),
            )) % self.modulus() && big_value(v) < self.modulus(),
            r matches Err(e) ==> e == ShamirError::NonInvertible,
    {
        match self.inverse(den) {
            Ok(inv) => Ok(self.mul_mod(num, &inv)),
            Err(e) => Err(e),
        }
    }

    /// The value of the polynomial `poly`, constant term first, at `x` in
    /// the field, by Horner's method.
    pub fn eval_coefficient_tuple_at_x(&self, poly: &[BigUint], x: &BigUint) -> (r: BigUint)
        ensures
            big_value(r) == poly_eval(big_values(poly@), big_value(*x) as int) % (
            self.modulus() as int),
            big_value(r) < self.modulus(),
    {
        let ghost m = self.modulus() as int;
        let ghost xv = big_value(*x) as int;
        let ghost c = big_values(poly@);
        proof {
            use_type_invariant(self);
            lemma_small_mod(0, m as nat);
            assert(c.skip(poly.len() as int).len() == 0);
        }
        let mut accum = big_zero();
        let mut i: usize = poly.len();
        while i > 0
            invariant
                i <= poly.len(),
                m == self.modulus(),
                m >= 2,
                xv == big_value(*x),
                c == big_values(poly@),
                big_value(accum) == poly_eval(c.skip(i as int), xv) % m,
            decreases i,
        {
            i = i - 1;
            let scaled = self.mul_mod(&accum, x);
            let ghost before = big_value(accum) as int;
            accum = self.add_mod(&scaled, &poly[i]);
            proof {
                let tail = c.skip(i as int);
                let rest = poly_eval(c.skip(i + 1), xv);
                assert(tail.drop_first() =~= c.skip(i + 1));
                assert(tail[0] == big_value(poly[i as int]));
                lemma_congruent_rem(rest, m);
                lemma_congruent_mul(xv, xv, before, rest, m);
                lemma_congruent_rem(before * xv, m);
                assert(before * xv == xv * before) by (nonlinear_arith);
                lemma_congruent_add(tail[0], tail[0], big_value(scaled) as int, xv * rest, m);
                assert(big_value(scaled) + big_value(poly[i as int]) == tail[0] + big_value(
                    scaled,
                ));
            }
        }
        proof {
            assert(c.skip(0) =~= c);
        }
        accum
    }

    /// The field element that a run of random bytes stands for: the number
    /// that the bytes write in base 256, most significant first, reduced
    /// modulo the modulus. The reduction favours the small elements
    /// slightly.
    pub fn coefficient_from_bytes(&self, bytes: &[u8]) -> (r: BigUint)
        ensures
            big_value(r) == be_bytes_value(bytes@) % self.modulus(),
            big_value(r) < self.modulus(),
    {
        let number = big_from_bytes_be(bytes);
        self.reduce(&number)
    }

    /// A random field element, from one byte more than the modulus has
    /// whole bytes.
    fn random_coefficient(&self, rng: &mut ThreadRng) -> (r: BigUint)
        ensures
            big_value(r) < self.modulus(),
    {
        let count: u64 = big_bits(&self.prime) / 8 + 1;
        let mut bytes: Vec<u8> = Vec::new();
        let mut k: u64 = 0;
        while k < count
            invariant
                k <= count,
            decreases count - k,
        {
            bytes.push(random_byte(rng));
            k = k + 1;
        }
        self.coefficient_from_bytes(bytes.as_slice())
    }

    /// The shares with the indices 1 to `shares` of the polynomial `poly`,
    /// constant term first.
    pub fn shares_from_polynomial(&self, poly: &[BigUint], shares: usize) -> (pool: Vec<
        (usize, BigUint),
    >)
        ensures
            pool@.len() == shares,
            is_share_pool(self.modulus(), big_values(poly@), pool@),
    {
        let mut points: Vec<(usize, BigUint)> = Vec::new();
        let mut i: usize = 0;
        while i < shares
            invariant
                i <= shares,
                points@.len() == i,
                is_share_pool(self.modulus(), big_values(poly@), points@),
            decreases shares - i,
        {
            i = i + 1;
            let x = big_from_usize(i);
            let y = self.eval_coefficient_tuple_at_x(poly, &x);
            points.push((i, y));
        }
        points
    }

    /// Splits `key` into `shares` shares with the threshold `minimum`: the
    /// shares with the indices 1 to `shares` of a polynomial with `minimum`
    /// coefficients, whose constant term is `key` and whose other
    /// coefficients are random field elements. Returns the secret with the
    /// shares. A threshold above the number of shares is refused, and no
    /// share is made. What the threshold means is stated by
    /// `lemma_threshold_shares_recover_secret` and
    /// `lemma_below_threshold_fits_every_secret`.
    pub fn make_random_shamir_pool(&self, key: BigUint, minimum: usize, shares: usize) -> (r:
        Result<(BigUint, Vec<(usize, BigUint)>), ShamirError>)
        ensures
            r is Err <==> minimum > shares,
            r matches Err(e) ==> e == ShamirError::InvalidParameters,
            r matches Ok(split) ==> big_value(split.0) == big_value(key),
            r matches Ok(split) ==> split.1@.len() == shares,
            r matches Ok(split) ==> exists|c: Seq<int>| #[trigger]
                is_sharing_polynomial(self.modulus(), c, big_value(key), minimum as nat)
                    && is_share_pool(self.modulus(), c, split.1@),
    {
        if minimum > shares {
            return Err(ShamirError::InvalidParameters);
        }
        let mut rng = thread_generator();
        let mut poly: Vec<BigUint> = Vec::new();
        poly.push(big_clone(&key));
        let mut k: usize = 1;
        while k < minimum
            invariant
                1 <= k,
                k == 1 || k <= minimum,
                poly@.len() == k,
                big_value(poly@[0]) == big_value(key),
                forall|j: int| 1 <= j < poly@.len() ==> big_value(#[trigger] poly@[j]) < self.modulus(),
            decreases minimum - k,
        {
            let coefficient = self.random_coefficient(&mut rng);
            poly.push(coefficient);
            k = k + 1;
        }
        let points = self.shares_from_polynomial(poly.as_slice(), shares);
        proof {
            let c = big_values(poly@);
            assert(c[0] == big_value(poly@[0]));
            assert forall|j: int| 1 <= j < c.len() implies 0 <= #[trigger] c[j] < self.modulus() by {
                assert(c[j] == big_value(poly@[j]));
            }
            assert(is_sharing_polynomial(self.modulus(), c, big_value(key), minimum as nat));
        }
        Ok((key, points))
    }

    /// The value at `x` of the polynomial of least degree through the
    /// points `(x_s[i], y_s[i])`, in the field, by Lagrange's formula. The
    /// terms are brought to one shared denominator, the product of all the
    /// denominators, which is divided out at the end.
    pub fn lagrange_interpolation(&self, x: &BigUint, x_s: &[BigUint], y_s: &[BigUint]) -> (r:
        Result<BigUint, ShamirError>)
        requires
            x_s@.len() == y_s@.len(),
        ensures
            yields(
                r,
                interpolation_outcome(
                    self.modulus(),
                    big_values(x_s@),
                    big_values(y_s@),
                    big_value(*x) as int,
                ),
            ),
    {
        if !all_distinct(x_s) {
            return Err(ShamirError::DuplicatePoints);
        }
        let ghost p = self.modulus();
        let ghost m = self.modulus() as int;
        let ghost xs = big_values(x_s@);
        let ghost ys = big_values(y_s@);
        let ghost xv = big_value(*x) as int;
        proof {
            use_type_invariant(self);
            lemma_small_mod(1, p);
            lemma_small_mod(0, p);
        }
        let k = x_s.len();
        let mut nums: Vec<BigUint> = Vec::new();
        let mut dens: Vec<BigUint> = Vec::new();
        let mut i: usize = 0;
        while i < k
            invariant
                i <= k,
                k == x_s.len(),
                m == self.modulus(),
                m >= 2,
                xs == big_values(x_s@),
                xv == big_value(*x),
                nums@.len() == i,
                dens@.len() == i,
                forall|a: int|
                    0 <= a < i ==> big_value(#[trigger] nums@[a]) == basis_numerator(xs, a, xv, k as nat)
                        % m,
                forall|a: int|
                    0 <= a < i ==> big_value(#[trigger] dens@[a]) == basis_denominator(xs, a) % m,
            decreases k - i,
        {
            let mut num_product = big_one();
            let mut den_product = big_one();
            proof {
                lemma_small_mod(1, m as nat);
            }
            let mut j: usize = 0;
            while j < k
                invariant
                    j <= k,
                    i < k,
                    k == x_s.len(),
                    m == self.modulus(),
                    m >= 2,
                    xs == big_values(x_s@),
                    xv == big_value(*x),
                    big_value(num_product) == basis_numerator(xs, i as int, xv, j as nat) % m,
                    big_value(den_product) == basis_numerator(xs, i as int, xs[i as int], j as nat)
                        % m,
                decreases k - j,
            {
                if j != i {
                    let ghost above = basis_numerator(xs, i as int, xv, j as nat);
                    let ghost below = basis_numerator(xs, i as int, xs[i as int], j as nat);
                    let diff = self.sub_mod(x, &x_s[j]);
                    num_product = self.mul_mod(&num_product, &diff);
                    let diff = self.sub_mod(&x_s[i], &x_s[j]);
                    den_product = self.mul_mod(&den_product, &diff);
                    proof {
                        assert(xs[j as int] == big_value(x_s@[j as int]));
                        assert(xs[i as int] == big_value(x_s@[i as int]));
                        lemma_mul_mod_noop_general(above, xv - xs[j as int], m);
                        lemma_mul_mod_noop_general(below, xs[i as int] - xs[j as int], m);
                    }
                }
                j = j + 1;
            }
            nums.push(num_product);
            dens.push(den_product);
            i = i + 1;
        }
        let mut den = big_one();
        let mut i: usize = 0;
        while i < k
            invariant
                i <= k,
                k == x_s.len(),
                k == dens@.len(),
                m == self.modulus(),
                m >= 2,
                forall|a: int|
                    0 <= a < k ==> big_value(#[trigger] dens@[a]) == basis_denominator(xs, a) % m,
                big_value(den) == denominator_product(xs, i as nat) % m,
            decreases k - i,
        {
            proof {
                lemma_mul_mod_noop_general(
                    denominator_product(xs, i as nat),
                    basis_denominator(xs, i as int),
                    m,
                );
            }
            den = self.mul_mod(&den, &dens[i]);
            i = i + 1;
        }
        let ghost shared = denominator_product(xs, k as nat);
        let mut num = big_zero();
        let mut i: usize = 0;
        while i < k
            invariant
                i <= k,
                k == x_s.len(),
                k == y_s.len(),
                k == nums@.len(),
                k == dens@.len(),
                p == self.modulus(),
                m == p,
                p >= 2,
                xs == big_values(x_s@),
                ys == big_values(y_s@),
                xv == big_value(*x),
                pairwise_distinct(xs),
                shared == denominator_product(xs, k as nat),
                big_value(den) == shared % m,
                forall|a: int|
                    0 <= a < k ==> big_value(#[trigger] nums@[a]) == basis_numerator(xs, a, xv, k as nat)
                        % m,
                forall|a: int|
                    0 <= a < k ==> big_value(#[trigger] dens@[a]) == basis_denominator(xs, a) % m,
                forall|a: int| 0 <= a < i ==> invertible_mod(#[trigger] basis_denominator(xs, a), p),
                big_value(num) == (shared * lagrange_sum(p, xs, ys, xv, i as nat)) % m,
            decreases k - i,
        {
            let ghost above = basis_numerator(xs, i as int, xv, k as nat);
            let ghost below = basis_denominator(xs, i as int);
            let ghost y = ys[i as int];
            let scaled = self.mul_mod(&nums[i], &den);
            let weighted = self.mul_mod(&scaled, &y_s[i]);
            proof {
                assert(xs.len() == k);
                assert(y == big_value(y_s@[i as int]));
                lemma_mul_mod_noop_general(above, shared, m);
                lemma_mul_mod_noop_general(above * shared, y, m);
                lemma_congruent_rem(below, m);
                lemma_inverse_of_congruent(below % m, below, p);
            }
            match self.division_modulo_prime(&weighted, &dens[i]) {
                Ok(term) => {
                    let ghost before = lagrange_sum(p, xs, ys, xv, i as nat);
                    let ghost inv = inverse_mod(below, p) as int;
                    let ghost t = lagrange_term(p, xs, ys, xv, i as int);
                    num = self.add_mod(&num, &term);
                    proof {
                        lemma_mul_mod_noop_general(above * shared * y, inv, m);
                        assert(above * shared * y * inv == shared * t) by (nonlinear_arith)
                            requires
                                t == y * above * inv,
                        ;
                        lemma_add_mod_noop(shared * before, shared * t, m);
                        assert(shared * (before + t) == shared * before + shared * t)
                            by (nonlinear_arith);
                    }
                },
                Err(_) => {
                    assert(!invertible_mod(basis_denominator(xs, i as int), p));
                    return Err(ShamirError::NonInvertible);
                },
            }
            i = i + 1;
        }
        let ghost total = lagrange_sum(p, xs, ys, xv, k as nat);
        proof {
            assert(xs.len() == k);
            lemma_denominator_product_invertible(p, xs, k as nat);
            lemma_congruent_rem(shared, m);
            lemma_inverse_of_congruent(shared % m, shared, p);
            lemma_inverse_mod_inverts(shared, p);
        }
        match self.division_modulo_prime(&num, &den) {
            Ok(result) => {
                let normalized = self.add_mod(&result, &self.prime);
                proof {
                    let inv = inverse_mod(shared, p) as int;
                    lemma_mul_mod_noop_general(shared * total, inv, m);
                    assert(shared * total * inv == total * (shared * inv)) by (nonlinear_arith);
                    lemma_mul_mod_noop_general(total, shared * inv, m);
                    assert(total * 1 == total);
                    lemma_mod_add_multiples_vanish(big_value(result) as int, m);
                    lemma_small_mod(big_value(result), p);
                    assert(interpolable(p, xs));
                }
                Ok(normalized)
            },
            Err(e) => {
                assert(false);
                Err(e)
            },
        }
    }

    /// The secret that the shares stand for: the value at 0 of the
    /// polynomial of least degree through them. At least two shares with
    /// different indices are needed. Shares that do not all come from one
    /// split, or fewer of them than its threshold, give a field element
    /// that is unrelated to the secret; this cannot be told from here.
    pub fn recover_secret(&self, shares: &[(usize, BigUint)]) -> (r: Result<BigUint, ShamirError>)
        ensures
            yields(r, recovery(self.modulus(), share_indices(shares@), share_values(shares@))),
            shares@.len() < 2 <==> r matches Err(ShamirError::InsufficientShares),
            shares@.len() >= 2 && !pairwise_distinct(share_indices(shares@)) <==> r matches Err(
                ShamirError::DuplicatePoints,
            ),
    {
        if shares.len() < 2 {
            return Err(ShamirError::InsufficientShares);
        }
        let mut x_s: Vec<BigUint> = Vec::new();
        let mut y_s: Vec<BigUint> = Vec::new();
        let mut i: usize = 0;
        while i < shares.len()
            invariant
                i <= shares.len(),
                x_s@.len() == i,
                y_s@.len() == i,
                forall|a: int| 0 <= a < i ==> big_value(#[trigger] x_s@[a]) == shares@[a].0,
                forall|a: int|
                    0 <= a < i ==> big_value(#[trigger] y_s@[a]) == big_value(shares@[a].1),
            decreases shares.len() - i,
        {
            x_s.push(big_from_usize(shares[i].0));
            y_s.push(big_clone(&shares[i].1));
            i = i + 1;
        }
        proof {
            assert(big_values(x_s@) =~= share_indices(shares@));
            assert(big_values(y_s@) =~= share_values(shares@));
        }
        let zero = big_zero();
        self.lagrange_interpolation(&zero, x_s.as_slice(), y_s.as_slice())
    }

    /// Tests a fresh pool of shares: whether the first `minimum` of them
    /// and the last `minimum` of them both reconstruct to `secret`.
    pub fn reconstruction_test(
        &self,
        secret: &BigUint,
        pool: &[(usize, BigUint)],
        minimum: usize,
    ) -> (r: Result<bool, ShamirError>)
        requires
            minimum <= pool@.len(),
        ensures
            r == reconstruction_test_outcome(
                self.modulus(),
                big_value(*secret),
                pool@,
                minimum as nat,
            ),
    {
        let first = slice_subrange(pool, 0, minimum);
        let last = slice_subrange(pool, pool.len() - minimum, pool.len());
        proof {
            assert(first@ =~= pool@.take(minimum as int));
            assert(last@ =~= pool@.skip(pool@.len() - minimum));
        }
        let a = match self.recover_secret(first) {
            Ok(a) => a,
            Err(e) => {
                return Err(e);
            },
        };
        let b = match self.recover_secret(last) {
            Ok(b) => b,
            Err(e) => {
                return Err(e);
            },
        };
        let agree = big_ge(&a, &b) && big_ge(&b, &a);
        let right = big_ge(&a, secret) && big_ge(secret, &a);
        Ok(agree && right)
    }
}

/// Reconstruction undoes splitting. Under a prime modulus that exceeds the
/// number of shares, take the shares of a polynomial that shares `secret`
/// with a threshold of at least 2, and choose any of them, no fewer than
/// the threshold and none twice: their reconstruction is the secret, as a
/// field element.
pub proof fn lemma_threshold_shares_recover_secret(
    p: nat,
    c: Seq<int>,
    secret: nat,
    minimum: nat,
    pool: Seq<(usize, BigUint)>,
    picks: Seq<int>,
    chosen: Seq<(usize, BigUint)>,
)
    requires
        is_prime(p),
        pool.len() < p,
        minimum >= 2,
        is_sharing_polynomial(p, c, secret, minimum),
        is_share_pool(p, c, pool),
        is_selection(pool, picks, chosen),
        chosen.len() >= minimum,
    ensures
        recovery(p, share_indices(chosen), share_values(chosen)) == Ok::<nat, ShamirError>(
            secret % p,
        ),
        secret < p ==> recovery(p, share_indices(chosen), share_values(chosen)) == Ok::<
            nat,
            ShamirError,
        >(secret),
{
    let m = p as int;
    let xs = share_indices(chosen);
    let ys = share_values(chosen);
    assert forall|i: int| 0 <= i < xs.len() implies 1 <= #[trigger] xs[i] < p && congruent(
        ys[i],
        poly_eval(c, xs[i]),
        m,
    ) by {
        let k = picks[i];
        assert(pool[k].0 == k + 1);
        lemma_mod_twice(poly_eval(c, k + 1), m);
    }
    assert forall|i: int, j: int| 0 <= i < j < xs.len() implies #[trigger] xs[i] != #[trigger] xs[j]
        && !congruent(xs[i], xs[j], m) by {
        assert(picks[i] != picks[j]);
        assert(pool[picks[i]].0 == picks[i] + 1);
        assert(pool[picks[j]].0 == picks[j] + 1);
        lemma_small_mod(xs[i] as nat, p);
        lemma_small_mod(xs[j] as nat, p);
    }
    assert(pairwise_incongruent(xs, p));
    lemma_interpolation_exact(p, c, xs, ys, 0);
    lemma_poly_eval_at_zero(c);
    if secret < p {
        lemma_small_mod(secret, p);
    }
}

/// Which shares are chosen does not matter: under the conditions of
/// `lemma_threshold_shares_recover_secret`, two selections from the shares
/// of one polynomial reconstruct to the same result.
pub proof fn lemma_selections_agree(
    p: nat,
    c: Seq<int>,
    secret: nat,
    minimum: nat,
    pool: Seq<(usize, BigUint)>,
    picks1: Seq<int>,
    chosen1: Seq<(usize, BigUint)>,
    picks2: Seq<int>,
    chosen2: Seq<(usize, BigUint)>,
)
    requires
        is_prime(p),
        pool.len() < p,
        minimum >= 2,
        is_sharing_polynomial(p, c, secret, minimum),
        is_share_pool(p, c, pool),
        is_selection(pool, picks1, chosen1),
        is_selection(pool, picks2, chosen2),
        chosen1.len() >= minimum,
        chosen2.len() >= minimum,
    ensures
        recovery(p, share_indices(chosen1), share_values(chosen1)) == recovery(
            p,
            share_indices(chosen2),
            share_values(chosen2),
        ),
{
    lemma_threshold_shares_recover_secret(p, c, secret, minimum, pool, picks1, chosen1);
    lemma_threshold_shares_recover_secret(p, c, secret, minimum, pool, picks2, chosen2);
}

/// The test of a fresh pool succeeds: under a prime modulus that exceeds
/// the number of shares, the shares of a polynomial that shares a field
/// element with a threshold of at least 2, and of no more than there are
/// shares, pass `reconstruction_test`.
pub proof fn lemma_fresh_pool_passes_test(
    p: nat,
    c: Seq<int>,
    secret: nat,
    minimum: nat,
    pool: Seq<(usize, BigUint)>,
)
    requires
        is_prime(p),
        pool.len() < p,
        secret < p,
        2 <= minimum <= pool.len(),
        is_sharing_polynomial(p, c, secret, minimum),
        is_share_pool(p, c, pool),
    ensures
        reconstruction_test_outcome(p, secret, pool, minimum) == Ok::<bool, ShamirError>(true),
{
    let first = pool.take(minimum as int);
    let last = pool.skip(pool.len() - minimum);
    let first_picks = Seq::new(minimum, |i: int| i);
    let last_picks = Seq::new(minimum, |i: int| pool.len() - minimum + i);
    assert(is_selection(pool, first_picks, first));
    assert(is_selection(pool, last_picks, last));
    lemma_threshold_shares_recover_secret(p, c, secret, minimum, pool, first_picks, first);
    lemma_threshold_shares_recover_secret(p, c, secret, minimum, pool, last_picks, last);
}

/// Fewer shares than the threshold say nothing of the secret. Under a
/// prime modulus, take fewer points than the threshold, with different
/// indices from 1 to below the modulus and with field elements as values:
/// whatever field element is proposed as the secret, some polynomial
/// shares it with that threshold and passes through every one of the
/// points.
pub proof fn lemma_below_threshold_fits_every_secret(
    p: nat,
    minimum: nat,
    xs: Seq<int>,
    ys: Seq<int>,
    candidate: nat,
)
    requires
        is_prime(p),
        candidate < p,
        xs.len() == ys.len(),
        xs.len() < minimum,
        pairwise_distinct(xs),
        forall|i: int| 0 <= i < xs.len() ==> 1 <= #[trigger] xs[i] < p,
        forall|i: int| 0 <= i < ys.len() ==> 0 <= #[trigger] ys[i] < p,
    ensures
        exists|c: Seq<int>| #[trigger]
            is_sharing_polynomial(p, c, candidate, minimum) && forall|i: int|
                0 <= i < xs.len() ==> ys[i] == poly_eval(c, #[trigger] xs[i]) % (p as int),
{
    let m = p as int;
    // The points, with the proposed secret at 0 put in front of them.
    let nodes = seq![0int] + xs;
    let values = seq![candidate as int] + ys;
    assert forall|i: int, j: int| 0 <= i < j < nodes.len() implies !congruent(
        #[trigger] nodes[i],
        #[trigger] nodes[j],
        m,
    ) by {
        lemma_small_mod(nodes[i] as nat, p);
        lemma_small_mod(nodes[j] as nat, p);
        if i > 0 {
            assert(xs[i - 1] != xs[j - 1]);
        }
    }
    lemma_fitted_poly(p, nodes, values);
    let fitted = fitted_poly(p, nodes, values);
    let c = poly_pad(fitted, minimum);
    lemma_poly_eval_pad(fitted, minimum, 0);
    lemma_poly_eval_at_zero(fitted);
    assert(congruent(poly_eval(fitted, nodes[0]), values[0], m));
    lemma_small_mod(candidate, p);
    lemma_small_mod(fitted[0] as nat, p);
    assert(c[0] == candidate);
    assert forall|i: int| 0 <= i < xs.len() implies ys[i] == poly_eval(c, #[trigger] xs[i]) % m by {
        lemma_poly_eval_pad(fitted, minimum, xs[i]);
        assert(nodes[i + 1] == xs[i]);
        assert(values[i + 1] == ys[i]);
        assert(congruent(poly_eval(fitted, nodes[i + 1]), values[i + 1], m));
        lemma_small_mod(ys[i] as nat, p);
    }
    assert(is_sharing_polynomial(p, c, candidate, minimum));
}

} // verus!
