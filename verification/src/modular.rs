//! Arithmetic modulo a number: congruence, greatest common divisors,
//! inverses and primes.
//!
//! Everything here is mathematics over `int` and `nat`. The executable field
//! arithmetic states its results with these functions, and the laws of the
//! scheme are proved from these lemmas.

use vstd::arithmetic::div_mod::{
    lemma_add_mod_noop, lemma_fundamental_div_mod, lemma_mod_bound, lemma_mod_multiples_vanish,
    lemma_mod_self_0, lemma_mod_twice, lemma_mul_mod_noop_general, lemma_small_mod,
    lemma_sub_mod_noop,
};
use vstd::prelude::*;

verus! {

/// `a` and `b` leave the same remainder on division by `m`.
pub open spec fn congruent(a: int, b: int, m: int) -> bool {
    a % m == b % m
}

/// The greatest common divisor, by Euclid's recursion.
pub open spec fn gcd(a: nat, b: nat) -> nat
    decreases b,
{
    if b == 0 {
        a
    } else {
        gcd(b, a % b)
    }
}

/// `p` is at least 2 and no number strictly between 1 and `p` divides it.
pub open spec fn is_prime(p: nat) -> bool {
    &&& p >= 2
    &&& forall|d: nat| 1 < d < p ==> #[trigger] (p % d) != 0
}

/// `b` is the inverse of `a` modulo `p`: a residue whose product with `a`
/// leaves the remainder 1.
pub open spec fn is_inverse_mod(a: int, b: nat, p: nat) -> bool {
    &&& b < p
    &&& (a * b) % (p as int) == 1
}

/// `a` has an inverse modulo `p`.
pub open spec fn invertible_mod(a: int, p: nat) -> bool {
    exists|b: nat| is_inverse_mod(a, b, p)
}

/// The inverse of `a` modulo `p`, where there is one.
pub open spec fn inverse_mod(a: int, p: nat) -> nat
    recommends
        invertible_mod(a, p),
{
    choose|b: nat| is_inverse_mod(a, b, p)
}

/// Products of congruent numbers are congruent.
pub proof fn lemma_congruent_mul(a: int, b: int, c: int, d: int, m: int)
    requires
        m > 0,
        congruent(a, b, m),
        congruent(c, d, m),
    ensures
        congruent(a * c, b * d, m),
{
    lemma_mul_mod_noop_general(a, c, m);
    lemma_mul_mod_noop_general(b, d, m);
}

/// Sums of congruent numbers are congruent.
pub proof fn lemma_congruent_add(a: int, b: int, c: int, d: int, m: int)
    requires
        m > 0,
        congruent(a, b, m),
        congruent(c, d, m),
    ensures
        congruent(a + c, b + d, m),
{
    lemma_add_mod_noop(a, c, m);
    lemma_add_mod_noop(b, d, m);
}

/// Differences of congruent numbers are congruent.
pub proof fn lemma_congruent_sub(a: int, b: int, c: int, d: int, m: int)
    requires
        m > 0,
        congruent(a, b, m),
        congruent(c, d, m),
    ensures
        congruent(a - c, b - d, m),
{
    lemma_sub_mod_noop(a, c, m);
    lemma_sub_mod_noop(b, d, m);
}

/// A number is congruent to its remainder.
pub proof fn lemma_congruent_rem(a: int, m: int)
    requires
        m > 0,
    ensures
        congruent(a % m, a, m),
        0 <= a % m < m,
{
    lemma_mod_twice(a, m);
    lemma_mod_bound(a, m);
}

/// A multiple of a multiple of `d` is a multiple of `d`.
pub proof fn lemma_multiple_of_multiple(a: int, k: int, d: int)
    requires
        d > 0,
        a % d == 0,
    ensures
        (a * k) % d == 0,
        (k * a) % d == 0,
{
    lemma_mul_mod_noop_general(a, k, d);
    lemma_mul_mod_noop_general(k, a, d);
    assert((a % d) * k == 0) by (nonlinear_arith)
        requires
            a % d == 0,
    ;
    assert(k * (a % d) == 0) by (nonlinear_arith)
        requires
            a % d == 0,
    ;
    lemma_small_mod(0, d as nat);
}

/// The greatest common divisor divides both numbers, and is zero only when
/// both are.
pub proof fn lemma_gcd_divides(a: nat, b: nat)
    ensures
        gcd(a, b) == 0 <==> a == 0 && b == 0,
        gcd(a, b) > 0 ==> a % gcd(a, b) == 0 && b % gcd(a, b) == 0,
    decreases b,
{
    let g = gcd(a, b);
    if b == 0 {
        if a > 0 {
            lemma_mod_self_0(a as int);
            lemma_small_mod(0, a);
        }
    } else {
        let r = a % b;
        lemma_gcd_divides(b, r);
        assert(g == gcd(b, r));
        assert(g > 0);
        let q = a as int / b as int;
        lemma_fundamental_div_mod(a as int, b as int);
        lemma_multiple_of_multiple(b as int, q, g as int);
        lemma_add_mod_noop(b as int * q, r as int, g as int);
        lemma_small_mod(0, g);
        assert(a as int == b as int * q + r as int);
    }
}

/// The greatest common divisor with `b` is that of the remainder on division
/// by `b`.
pub proof fn lemma_gcd_rem(a: nat, b: nat)
    requires
        b > 0,
    ensures
        gcd(a, b) == gcd(a % b, b),
{
    lemma_mod_twice(a as int, b as int);
    assert(gcd(a, b) == gcd(b, a % b));
    assert(gcd(a % b, b) == gcd(b, (a % b) % b));
}

/// The coefficients that the extended Euclidean algorithm finds for `a`
/// and `b`: a pair `(x, y)` with `a * x + b * y == gcd(a, b)`.
pub open spec fn bezout(a: nat, b: nat) -> (int, int)
    decreases b,
{
    if b == 0 {
        (1, 0)
    } else {
        let below = bezout(b, a % b);
        (below.1, below.0 - (a / b) * below.1)
    }
}

/// Bézout's identity: the greatest common divisor of two numbers is the
/// combination of them with the coefficients of `bezout`.
pub proof fn lemma_bezout(a: nat, b: nat)
    ensures
        a * bezout(a, b).0 + b * bezout(a, b).1 == gcd(a, b),
    decreases b,
{
    if b == 0 {
        assert(a * 1 + b * 0 == a) by (nonlinear_arith);
    } else {
        let r = a % b;
        let q = a as int / b as int;
        let x = bezout(b, r).0;
        let y = bezout(b, r).1;
        lemma_bezout(b, r);
        lemma_fundamental_div_mod(a as int, b as int);
        let g = gcd(a, b) as int;
        assert(a * y + b * (x - q * y) == g) by (nonlinear_arith)
            requires
                b * x + r * y == g,
                a as int == b as int * q + r as int,
        ;
    }
}

/// The greatest common divisor is the greatest: every common divisor of
/// two numbers divides it.
pub proof fn lemma_gcd_is_greatest(a: nat, b: nat, d: nat)
    requires
        d > 0,
        a % d == 0,
        b % d == 0,
    ensures
        gcd(a, b) % d == 0,
{
    let x = bezout(a, b).0;
    let y = bezout(a, b).1;
    lemma_bezout(a, b);
    lemma_multiple_of_multiple(a as int, x, d as int);
    lemma_multiple_of_multiple(b as int, y, d as int);
    lemma_add_mod_noop(a * x, b * y, d as int);
    lemma_small_mod(0, d);
}

/// Two inverses of one number are the same residue.
pub proof fn lemma_inverse_unique(a: int, b1: nat, b2: nat, p: nat)
    requires
        p >= 2,
        is_inverse_mod(a, b1, p),
        is_inverse_mod(a, b2, p),
    ensures
        b1 == b2,
{
    let m = p as int;
    // b1 = b1 * 1 = b1 * (a * b2) = (b1 * a) * b2 = 1 * b2 = b2, modulo p.
    lemma_mul_mod_noop_general(b1 as int, a * b2, m);
    lemma_mul_mod_noop_general(a * b1, b2 as int, m);
    assert(b1 * (a * b2) == (a * b1) * b2) by (nonlinear_arith);
    lemma_small_mod(1, p);
    assert(b1 as int * 1 == b1 as int);
    assert(1 * b2 as int == b2 as int);
    lemma_small_mod(b1, p);
    lemma_small_mod(b2, p);
}

/// Where a number is invertible, `inverse_mod` is its inverse.
pub proof fn lemma_inverse_mod_inverts(a: int, p: nat)
    requires
        invertible_mod(a, p),
    ensures
        is_inverse_mod(a, inverse_mod(a, p), p),
{
}

/// A residue that inverts `a` is the inverse of `a`.
pub proof fn lemma_inverse_mod_is(a: int, b: nat, p: nat)
    requires
        p >= 2,
        is_inverse_mod(a, b, p),
    ensures
        invertible_mod(a, p),
        inverse_mod(a, p) == b,
{
    lemma_inverse_unique(a, b, inverse_mod(a, p), p);
}

/// Congruent numbers are invertible together, with the same inverse.
pub proof fn lemma_inverse_of_congruent(a: int, b: int, p: nat)
    requires
        p >= 2,
        congruent(a, b, p as int),
    ensures
        invertible_mod(a, p) == invertible_mod(b, p),
        invertible_mod(a, p) ==> inverse_mod(a, p) == inverse_mod(b, p),
{
    if invertible_mod(a, p) {
        let c = inverse_mod(a, p);
        lemma_congruent_mul(a, b, c as int, c as int, p as int);
        lemma_inverse_mod_is(b, c, p);
    }
    if invertible_mod(b, p) {
        let c = inverse_mod(b, p);
        lemma_congruent_mul(b, a, c as int, c as int, p as int);
        lemma_inverse_mod_is(a, c, p);
    }
}

/// A number is invertible modulo `p` exactly when its remainder and `p` have
/// no common divisor but 1.
pub proof fn lemma_invertible_iff_coprime(a: int, p: nat)
    requires
        p >= 2,
    ensures
        invertible_mod(a, p) <==> gcd((a % (p as int)) as nat, p) == 1,
{
    let m = p as int;
    lemma_congruent_rem(a, m);
    let r = (a % m) as nat;
    lemma_inverse_of_congruent(r as int, a, p);
    let g = gcd(r, p);
    lemma_gcd_divides(r, p);
    if g == 1 {
        let x = bezout(r, p).0;
        let y = bezout(r, p).1;
        lemma_bezout(r, p);
        // r * x + p * y == 1, so r * x leaves the remainder 1.
        lemma_mod_multiples_vanish(y, r * x, m);
        lemma_small_mod(1, p);
        assert(m * y + r * x == 1) by (nonlinear_arith)
            requires
                r * x + p * y == 1,
                m == p,
        ;
        let b = (x % m) as nat;
        lemma_mod_bound(x, m);
        lemma_mul_mod_noop_general(r as int, x, m);
        assert(is_inverse_mod(r as int, b, p));
    } else if invertible_mod(r as int, p) {
        let b = inverse_mod(r as int, p);
        // g divides r * b and p, so it divides their combination 1.
        let k = (r * b) as int / m;
        lemma_fundamental_div_mod((r * b) as int, m);
        lemma_multiple_of_multiple(r as int, b as int, g as int);
        lemma_multiple_of_multiple(m, k, g as int);
        lemma_sub_mod_noop((r * b) as int, m * k, g as int);
        lemma_small_mod(0, g);
        lemma_small_mod(1, g);
        assert(false);
    }
}

/// Trial division: a number of at least 2 that no number from 2 up to a
/// bound divides, where the square of the bound reaches the number, is
/// prime.
pub proof fn lemma_trial_division(p: nat, bound: nat)
    requires
        p >= 2,
        bound * bound >= p,
        forall|d: nat| 2 <= d <= bound ==> #[trigger] (p % d) != 0,
    ensures
        is_prime(p),
{
    assert forall|d: nat| 1 < d < p implies #[trigger] (p % d) != 0 by {
        if p % d == 0 {
            // p is d * e; one of the two factors does not exceed the bound.
            let e = p / d;
            lemma_fundamental_div_mod(p as int, d as int);
            assert(p == d * e);
            assert(e >= 2) by (nonlinear_arith)
                requires
                    p == d * e,
                    1 < d < p,
            ;
            if d > bound {
                assert(e <= bound) by (nonlinear_arith)
                    requires
                        p == d * e,
                        d > bound,
                        bound * bound >= p,
                        e >= 2,
                ;
                lemma_mod_multiples_vanish(d as int, 0, e as int);
                lemma_small_mod(0, e);
                assert(e * d + 0 == p) by (nonlinear_arith)
                    requires
                        p == d * e,
                ;
                assert(p % e == 0);
            }
        }
    }
}

/// A positive number below a prime has no common divisor with it but 1.
pub proof fn lemma_prime_coprime(a: nat, p: nat)
    requires
        is_prime(p),
        0 < a < p,
    ensures
        gcd(a, p) == 1,
{
    let g = gcd(a, p);
    lemma_gcd_divides(a, p);
    if g > a {
        lemma_small_mod(a, g);
    }
    if g > 1 {
        assert(p % g != 0);
    }
}

/// Modulo a prime, every number that is not a multiple of it is invertible.
pub proof fn lemma_prime_invertible(a: int, p: nat)
    requires
        is_prime(p),
        a % (p as int) != 0,
    ensures
        invertible_mod(a, p),
{
    lemma_mod_bound(a, p as int);
    lemma_prime_coprime((a % (p as int)) as nat, p);
    lemma_invertible_iff_coprime(a, p);
}

/// Euclid's lemma: a prime that divides a product divides a factor.
pub proof fn lemma_prime_divides_product(a: int, b: int, p: nat)
    requires
        is_prime(p),
        (a * b) % (p as int) == 0,
    ensures
        a % (p as int) == 0 || b % (p as int) == 0,
{
    let m = p as int;
    if a % m != 0 {
        lemma_prime_invertible(a, p);
        let c = inverse_mod(a, p) as int;
        // b = 1 * b = (a * c) * b = (a * b) * c = 0 * c = 0, modulo p.
        lemma_mul_mod_noop_general(a * c, b, m);
        lemma_mul_mod_noop_general(a * b, c, m);
        assert((a * c) * b == (a * b) * c) by (nonlinear_arith);
        assert(1 * b == b);
        assert(0 * c == 0);
        lemma_small_mod(0, p);
    }
}

/// A product of invertible numbers is invertible.
pub proof fn lemma_invertible_product(a: int, b: int, p: nat)
    requires
        p >= 2,
        invertible_mod(a, p),
        invertible_mod(b, p),
    ensures
        invertible_mod(a * b, p),
        congruent(
            inverse_mod(a * b, p) as int,
            (inverse_mod(a, p) * inverse_mod(b, p)) as int,
            p as int,
        ),
{
    let m = p as int;
    let c = inverse_mod(a, p) as int;
    let d = inverse_mod(b, p) as int;
    lemma_mul_mod_noop_general(a * c, b * d, m);
    assert((a * c) * (b * d) == (a * b) * (c * d)) by (nonlinear_arith);
    lemma_small_mod(1, p);
    let e = ((c * d) % m) as nat;
    lemma_mod_bound(c * d, m);
    lemma_mul_mod_noop_general(a * b, c * d, m);
    lemma_inverse_mod_is(a * b, e, p);
    lemma_mod_twice(c * d, m);
}

} // verus!
