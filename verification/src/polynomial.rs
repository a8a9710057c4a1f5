//! Polynomials with integer coefficients, and what their roots modulo a
//! prime say about them.
//!
//! A polynomial is the sequence of its coefficients, the constant term
//! first. The central result is that a polynomial with at least as many
//! roots modulo a prime, no two of them congruent, as it has coefficients
//! vanishes everywhere modulo that prime.

use crate::modular::{
    congruent, is_prime, lemma_congruent_add, lemma_congruent_mul, lemma_congruent_rem,
    lemma_prime_divides_product,
};
use vstd::arithmetic::div_mod::{
    lemma_add_mod_noop, lemma_mod_equivalence, lemma_mul_mod_noop_general, lemma_small_mod,
};
use vstd::prelude::*;

verus! {

/// The value at `x` of the polynomial `c[0] + c[1] x + c[2] x^2 + ...`.
pub open spec fn poly_eval(c: Seq<int>, x: int) -> int
    decreases c.len(),
{
    if c.len() == 0 {
        0
    } else {
        c[0] + x * poly_eval(c.drop_first(), x)
    }
}

/// The quotient of the polynomial `c` on division by `x - a`.
pub open spec fn poly_quotient(c: Seq<int>, a: int) -> Seq<int> {
    if c.len() == 0 {
        Seq::empty()
    } else {
        Seq::new((c.len() - 1) as nat, |j: int| poly_eval(c.skip(j + 1), a))
    }
}

/// The polynomial `w * c`.
pub open spec fn poly_scale(c: Seq<int>, w: int) -> Seq<int> {
    Seq::new(c.len(), |k: int| w * c[k])
}

/// The sum of two polynomials with the same number of coefficients.
pub open spec fn poly_add(c: Seq<int>, d: Seq<int>) -> Seq<int>
    recommends
        c.len() == d.len(),
{
    Seq::new(c.len(), |k: int| c[k] + d[k])
}

/// The polynomial `(x - a) * c`, which has one coefficient more than `c`.
pub open spec fn poly_times_linear(c: Seq<int>, a: int) -> Seq<int> {
    Seq::new(
        c.len() + 1,
        |k: int|
            (if k >= 1 {
                c[k - 1]
            } else {
                0
            }) - a * (if k < c.len() {
                c[k]
            } else {
                0
            }),
    )
}

/// The polynomial `c` written with `n` coefficients, the added ones zero.
pub open spec fn poly_pad(c: Seq<int>, n: nat) -> Seq<int>
    recommends
        c.len() <= n,
{
    Seq::new(
        n,
        |k: int|
            if k < c.len() {
                c[k]
            } else {
                0
            },
    )
}

/// The polynomial `c` with each coefficient replaced by its remainder
/// modulo `p`.
pub open spec fn poly_reduce(c: Seq<int>, p: nat) -> Seq<int> {
    Seq::new(c.len(), |k: int| c[k] % (p as int))
}

/// The constant term of a polynomial is its value at 0.
pub proof fn lemma_poly_eval_at_zero(c: Seq<int>)
    requires
        c.len() > 0,
    ensures
        poly_eval(c, 0) == c[0],
{
    assert(0 * poly_eval(c.drop_first(), 0) == 0) by (nonlinear_arith);
}

/// A polynomial with one coefficient is constant.
pub proof fn lemma_poly_eval_constant(v: int, x: int)
    ensures
        poly_eval(seq![v], x) == v,
{
    let c = seq![v];
    assert(c.len() == 1);
    assert(c.drop_first().len() == 0);
    assert(poly_eval(c.drop_first(), x) == 0);
    assert(x * 0 == 0) by (nonlinear_arith);
}

/// Division by `x - a` leaves the value at `a` as the remainder:
/// `c(x) = c(a) + (x - a) * q(x)` for the quotient `q`.
pub proof fn lemma_poly_division(c: Seq<int>, a: int, x: int)
    ensures
        poly_eval(c, x) == poly_eval(c, a) + (x - a) * poly_eval(poly_quotient(c, a), x),
    decreases c.len(),
{
    let q = poly_quotient(c, a);
    if c.len() == 0 {
        assert((x - a) * 0 == 0) by (nonlinear_arith);
    } else if c.len() == 1 {
        let rest = c.drop_first();
        assert(poly_eval(rest, x) == 0);
        assert(poly_eval(rest, a) == 0);
        assert(x * 0 == 0) by (nonlinear_arith);
        assert(a * 0 == 0) by (nonlinear_arith);
        assert((x - a) * 0 == 0) by (nonlinear_arith);
    } else {
        let rest = c.drop_first();
        let q_rest = poly_quotient(rest, a);
        lemma_poly_division(rest, a, x);
        assert(c.skip(1) =~= rest);
        assert(q[0] == poly_eval(rest, a));
        assert(q.drop_first() =~= q_rest) by {
            assert forall|j: int| 0 <= j < q_rest.len() implies q.drop_first()[j] == q_rest[j] by {
                assert(c.skip(j + 2) =~= rest.skip(j + 1));
            }
        }
        let fa = poly_eval(rest, a);
        let fx = poly_eval(rest, x);
        let qx = poly_eval(q_rest, x);
        assert(poly_eval(q, x) == fa + x * qx);
        assert(c[0] + x * fx == (c[0] + a * fa) + (x - a) * (fa + x * qx)) by (nonlinear_arith)
            requires
                fx == fa + (x - a) * qx,
        ;
    }
}

/// Writing a polynomial with more coefficients, the added ones zero, leaves
/// its values as they are.
pub proof fn lemma_poly_eval_pad(c: Seq<int>, n: nat, x: int)
    requires
        c.len() <= n,
    ensures
        poly_eval(poly_pad(c, n), x) == poly_eval(c, x),
    decreases n,
{
    let padded = poly_pad(c, n);
    if n == 0 {
    } else if c.len() == 0 {
        assert(padded.drop_first() =~= poly_pad(c, (n - 1) as nat));
        lemma_poly_eval_pad(c, (n - 1) as nat, x);
        assert(x * 0 == 0) by (nonlinear_arith);
    } else {
        assert(padded.drop_first() =~= poly_pad(c.drop_first(), (n - 1) as nat));
        lemma_poly_eval_pad(c.drop_first(), (n - 1) as nat, x);
    }
}

/// Scaling a polynomial scales its values.
pub proof fn lemma_poly_eval_scale(c: Seq<int>, w: int, x: int)
    ensures
        poly_eval(poly_scale(c, w), x) == w * poly_eval(c, x),
    decreases c.len(),
{
    let scaled = poly_scale(c, w);
    if c.len() == 0 {
        assert(w * 0 == 0) by (nonlinear_arith);
    } else {
        assert(scaled.drop_first() =~= poly_scale(c.drop_first(), w));
        lemma_poly_eval_scale(c.drop_first(), w, x);
        let rest = poly_eval(c.drop_first(), x);
        assert(w * c[0] + x * (w * rest) == w * (c[0] + x * rest)) by (nonlinear_arith);
    }
}

/// Adding polynomials adds their values.
pub proof fn lemma_poly_eval_add(c: Seq<int>, d: Seq<int>, x: int)
    requires
        c.len() == d.len(),
    ensures
        poly_eval(poly_add(c, d), x) == poly_eval(c, x) + poly_eval(d, x),
    decreases c.len(),
{
    let sum = poly_add(c, d);
    if c.len() > 0 {
        assert(sum.drop_first() =~= poly_add(c.drop_first(), d.drop_first()));
        lemma_poly_eval_add(c.drop_first(), d.drop_first(), x);
        let rc = poly_eval(c.drop_first(), x);
        let rd = poly_eval(d.drop_first(), x);
        assert((c[0] + d[0]) + x * (rc + rd) == (c[0] + x * rc) + (d[0] + x * rd))
            by (nonlinear_arith);
    }
}

/// Multiplying a polynomial by `x - a` multiplies its values by `x - a`.
pub proof fn lemma_poly_eval_times_linear(c: Seq<int>, a: int, x: int)
    ensures
        poly_eval(poly_times_linear(c, a), x) == (x - a) * poly_eval(c, x),
    decreases c.len(),
{
    let product = poly_times_linear(c, a);
    if c.len() == 0 {
        assert(product.len() == 1);
        assert(product.drop_first().len() == 0);
        assert(poly_eval(product.drop_first(), x) == 0);
        assert(a * 0 == 0) by (nonlinear_arith);
        assert(product[0] == 0);
        assert(x * 0 == 0) by (nonlinear_arith);
        assert((x - a) * 0 == 0) by (nonlinear_arith);
    } else {
        // (x - a) * c = -a * c[0] + x * (c[0] + (x - a) * rest)
        let rest = c.drop_first();
        let shifted = poly_times_linear(rest, a);
        let lifted = poly_pad(seq![c[0]], shifted.len());
        assert(lifted.len() == shifted.len());
        assert(product.drop_first() =~= poly_add(lifted, shifted));
        lemma_poly_eval_add(lifted, shifted, x);
        lemma_poly_eval_pad(seq![c[0]], shifted.len(), x);
        lemma_poly_eval_times_linear(rest, a, x);
        lemma_poly_eval_constant(c[0], x);
        let r = poly_eval(rest, x);
        assert(product[0] == 0 - a * c[0]);
        assert(poly_eval(product, x) == (0 - a * c[0]) + x * (c[0] + (x - a) * r));
        assert((0 - a * c[0]) + x * (c[0] + (x - a) * r) == (x - a) * (c[0] + x * r))
            by (nonlinear_arith);
    }
}

/// Reducing the coefficients modulo `p` leaves the values congruent.
pub proof fn lemma_poly_eval_reduce(c: Seq<int>, p: nat, x: int)
    requires
        p > 0,
    ensures
        congruent(poly_eval(poly_reduce(c, p), x), poly_eval(c, x), p as int),
    decreases c.len(),
{
    let reduced = poly_reduce(c, p);
    if c.len() > 0 {
        assert(reduced.drop_first() =~= poly_reduce(c.drop_first(), p));
        lemma_poly_eval_reduce(c.drop_first(), p, x);
        lemma_congruent_rem(c[0], p as int);
        lemma_congruent_mul(
            x,
            x,
            poly_eval(reduced.drop_first(), x),
            poly_eval(c.drop_first(), x),
            p as int,
        );
        lemma_congruent_add(
            reduced[0],
            c[0],
            x * poly_eval(reduced.drop_first(), x),
            x * poly_eval(c.drop_first(), x),
            p as int,
        );
    }
}

/// A polynomial with at least as many roots modulo a prime, pairwise
/// incongruent, as it has coefficients is a multiple of the prime at every
/// argument.
pub proof fn lemma_many_roots_vanish(p: nat, c: Seq<int>, roots: Seq<int>, t: int)
    requires
        is_prime(p),
        roots.len() >= c.len(),
        forall|i: int, j: int|
            0 <= i < j < roots.len() ==> !congruent(#[trigger] roots[i], #[trigger] roots[j], p as int),
        forall|i: int| 0 <= i < roots.len() ==> #[trigger] poly_eval(c, roots[i]) % (p as int) == 0,
    ensures
        poly_eval(c, t) % (p as int) == 0,
    decreases c.len(),
{
    let m = p as int;
    lemma_small_mod(0, p);
    if c.len() > 0 {
        let a = roots.last();
        let q = poly_quotient(c, a);
        let others = roots.drop_last();
        assert(poly_eval(c, a) % m == 0);
        assert forall|i: int| 0 <= i < others.len() implies #[trigger] poly_eval(q, others[i]) % m
            == 0 by {
            let r = others[i];
            assert(r == roots[i]);
            assert(poly_eval(c, roots[i]) % m == 0);
            lemma_poly_division(c, a, r);
            lemma_add_mod_noop(poly_eval(c, a), (r - a) * poly_eval(q, r), m);
            lemma_small_mod((((r - a) * poly_eval(q, r)) % m) as nat, p);
            lemma_prime_divides_product(r - a, poly_eval(q, r), p);
            lemma_mod_equivalence(r, a, m);
            assert(!congruent(roots[i], roots[roots.len() - 1], m));
        }
        lemma_many_roots_vanish(p, q, others, t);
        lemma_poly_division(c, a, t);
        lemma_mul_mod_noop_general(t - a, poly_eval(q, t), m);
        assert((t - a) % m * 0 == 0) by (nonlinear_arith);
        lemma_add_mod_noop(poly_eval(c, a), (t - a) * poly_eval(q, t), m);
    }
}

} // verus!
