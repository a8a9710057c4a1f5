//! Lagrange interpolation modulo a number, as mathematics.
//!
//! Given nodes `xs` and values `ys`, the interpolant at `x` is
//!
//! ```text
//!   sum over i of  ys[i] * prod over j != i of (x - xs[j]) / (xs[i] - xs[j])
//! ```
//!
//! taken modulo `p`, where a division is a multiplication by the inverse
//! modulo `p` of the whole denominator. The main result says that, modulo a
//! prime, the interpolant through enough points of a polynomial is the
//! value of that polynomial.

use crate::modular::{
    congruent, inverse_mod, invertible_mod, is_inverse_mod, is_prime, lemma_congruent_mul,
    lemma_inverse_mod_inverts, lemma_invertible_product, lemma_prime_divides_product,
    lemma_prime_invertible,
};
use crate::polynomial::{
    lemma_many_roots_vanish, lemma_poly_eval_add, lemma_poly_eval_constant, lemma_poly_eval_pad,
    lemma_poly_eval_reduce, lemma_poly_eval_scale, lemma_poly_eval_times_linear, poly_add,
    poly_eval, poly_pad, poly_reduce, poly_scale, poly_times_linear,
};
use vstd::arithmetic::div_mod::{lemma_mod_bound, lemma_mod_equivalence, lemma_small_mod};
use vstd::prelude::*;

verus! {

/// The product of `x - xs[j]` over the `j` below `n` other than `i`.
pub open spec fn basis_numerator(xs: Seq<int>, i: int, x: int, n: nat) -> int
    decreases n,
{
    if n == 0 {
        1
    } else if n - 1 == i {
        basis_numerator(xs, i, x, (n - 1) as nat)
    } else {
        basis_numerator(xs, i, x, (n - 1) as nat) * (x - xs[n - 1])
    }
}

/// The product of `xs[i] - xs[j]` over all `j` other than `i`.
pub open spec fn basis_denominator(xs: Seq<int>, i: int) -> int {
    basis_numerator(xs, i, xs[i], xs.len())
}

/// The term of the interpolant that belongs to the node `i`.
pub open spec fn lagrange_term(p: nat, xs: Seq<int>, ys: Seq<int>, x: int, i: int) -> int {
    ys[i] * basis_numerator(xs, i, x, xs.len()) * inverse_mod(basis_denominator(xs, i), p)
}

/// The sum of the terms of the nodes below `n`.
pub open spec fn lagrange_sum(p: nat, xs: Seq<int>, ys: Seq<int>, x: int, n: nat) -> int
    decreases n,
{
    if n == 0 {
        0
    } else {
        lagrange_sum(p, xs, ys, x, (n - 1) as nat) + lagrange_term(p, xs, ys, x, n - 1)
    }
}

/// Every denominator of the interpolation is invertible modulo `p`.
pub open spec fn interpolable(p: nat, xs: Seq<int>) -> bool {
    forall|i: int| 0 <= i < xs.len() ==> invertible_mod(#[trigger] basis_denominator(xs, i), p)
}

/// The value at `x`, modulo `p`, of the interpolant through the points
/// `(xs[i], ys[i])`.
pub open spec fn interpolate(p: nat, xs: Seq<int>, ys: Seq<int>, x: int) -> nat
    recommends
        xs.len() == ys.len(),
        interpolable(p, xs),
{
    (lagrange_sum(p, xs, ys, x, xs.len()) % (p as int)) as nat
}

/// The product of the denominators of the nodes below `n`: with `n` the
/// number of nodes, the one denominator that all terms can share.
pub open spec fn denominator_product(xs: Seq<int>, n: nat) -> int
    decreases n,
{
    if n == 0 {
        1
    } else {
        denominator_product(xs, (n - 1) as nat) * basis_denominator(xs, n - 1)
    }
}

/// No two of the numbers are equal.
pub open spec fn pairwise_distinct(xs: Seq<int>) -> bool {
    forall|i: int, j: int| 0 <= i < j < xs.len() ==> #[trigger] xs[i] != #[trigger] xs[j]
}

/// No two of the numbers are congruent modulo `p`.
pub open spec fn pairwise_incongruent(xs: Seq<int>, p: nat) -> bool {
    forall|i: int, j: int|
        0 <= i < j < xs.len() ==> !congruent(#[trigger] xs[i], #[trigger] xs[j], p as int)
}

/// The polynomial whose value at `x` is `basis_numerator(xs, i, x, n)`.
pub open spec fn numerator_poly(xs: Seq<int>, i: int, n: nat) -> Seq<int>
    decreases n,
{
    if n == 0 {
        seq![1int]
    } else if n - 1 == i {
        numerator_poly(xs, i, (n - 1) as nat)
    } else {
        poly_times_linear(numerator_poly(xs, i, (n - 1) as nat), xs[n - 1])
    }
}

/// The polynomial whose value at `x` is `lagrange_sum(p, xs, ys, x, n)`.
pub open spec fn interpolant_poly(p: nat, xs: Seq<int>, ys: Seq<int>, n: nat) -> Seq<int>
    decreases n,
{
    if n == 0 {
        poly_pad(Seq::empty(), xs.len())
    } else {
        poly_add(
            interpolant_poly(p, xs, ys, (n - 1) as nat),
            poly_scale(
                numerator_poly(xs, n - 1, xs.len()),
                ys[n - 1] * inverse_mod(basis_denominator(xs, n - 1), p),
            ),
        )
    }
}

/// The polynomial through the points `(xs[i], ys[i])` modulo `p`, with as
/// many coefficients as there are points, each a residue modulo `p`.
pub open spec fn fitted_poly(p: nat, xs: Seq<int>, ys: Seq<int>) -> Seq<int> {
    poly_reduce(interpolant_poly(p, xs, ys, xs.len()), p)
}

/// The numerator polynomial takes the values of the numerator, and has one
/// coefficient more than it has factors.
pub proof fn lemma_numerator_poly(xs: Seq<int>, i: int, n: nat, x: int)
    requires
        0 <= i,
    ensures
        poly_eval(numerator_poly(xs, i, n), x) == basis_numerator(xs, i, x, n),
        i < n ==> numerator_poly(xs, i, n).len() == n,
        i >= n ==> numerator_poly(xs, i, n).len() == n + 1,
    decreases n,
{
    if n == 0 {
        lemma_poly_eval_constant(1, x);
    } else {
        lemma_numerator_poly(xs, i, (n - 1) as nat, x);
        if n - 1 != i {
            lemma_poly_eval_times_linear(numerator_poly(xs, i, (n - 1) as nat), xs[n - 1], x);
            assert((x - xs[n - 1]) * basis_numerator(xs, i, x, (n - 1) as nat) == basis_numerator(
                xs,
                i,
                x,
                (n - 1) as nat,
            ) * (x - xs[n - 1])) by (nonlinear_arith);
        }
    }
}

/// The interpolant polynomial takes the values of the Lagrange sum, and has
/// as many coefficients as there are nodes.
pub proof fn lemma_interpolant_poly(p: nat, xs: Seq<int>, ys: Seq<int>, n: nat, x: int)
    requires
        n <= xs.len(),
    ensures
        poly_eval(interpolant_poly(p, xs, ys, n), x) == lagrange_sum(p, xs, ys, x, n),
        interpolant_poly(p, xs, ys, n).len() == xs.len(),
    decreases n,
{
    if n == 0 {
        lemma_poly_eval_pad(Seq::empty(), xs.len(), x);
    } else {
        let i = n - 1;
        let w = ys[i] * inverse_mod(basis_denominator(xs, i), p);
        let numerator = numerator_poly(xs, i, xs.len());
        lemma_interpolant_poly(p, xs, ys, (n - 1) as nat, x);
        lemma_numerator_poly(xs, i, xs.len(), x);
        lemma_poly_eval_scale(numerator, w, x);
        lemma_poly_eval_add(
            interpolant_poly(p, xs, ys, (n - 1) as nat),
            poly_scale(numerator, w),
            x,
        );
        let b = basis_numerator(xs, i, x, xs.len());
        let v = inverse_mod(basis_denominator(xs, i), p) as int;
        assert((ys[i] * v) * b == ys[i] * b * v) by (nonlinear_arith);
    }
}

/// At a node other than its own, a basis numerator is zero.
pub proof fn lemma_numerator_at_other_node(xs: Seq<int>, i: int, m: int, n: nat)
    requires
        0 <= m < n <= xs.len(),
        i != m,
    ensures
        basis_numerator(xs, i, xs[m], n) == 0,
    decreases n,
{
    let before = basis_numerator(xs, i, xs[m], (n - 1) as nat);
    if n - 1 == m {
        assert(before * (xs[m] - xs[m]) == 0) by (nonlinear_arith);
    } else {
        lemma_numerator_at_other_node(xs, i, m, (n - 1) as nat);
        assert(0 * (xs[m] - xs[n - 1]) == 0) by (nonlinear_arith);
    }
}

/// At the node `m`, only the term of `m` is left of the Lagrange sum.
pub proof fn lemma_lagrange_sum_at_node(p: nat, xs: Seq<int>, ys: Seq<int>, m: int, n: nat)
    requires
        0 <= m < xs.len(),
        n <= xs.len(),
    ensures
        m < n ==> lagrange_sum(p, xs, ys, xs[m], n) == lagrange_term(p, xs, ys, xs[m], m),
        m >= n ==> lagrange_sum(p, xs, ys, xs[m], n) == 0,
    decreases n,
{
    if n > 0 {
        let i = n - 1;
        lemma_lagrange_sum_at_node(p, xs, ys, m, (n - 1) as nat);
        if i != m {
            lemma_numerator_at_other_node(xs, i, m, xs.len());
            let v = inverse_mod(basis_denominator(xs, i), p) as int;
            assert(ys[i] * 0 * v == 0) by (nonlinear_arith);
        }
    }
}

/// Modulo a prime, a product of differences of pairwise incongruent numbers
/// is not a multiple of the prime.
pub proof fn lemma_denominator_prefix_nonzero(p: nat, xs: Seq<int>, i: int, n: nat)
    requires
        is_prime(p),
        pairwise_incongruent(xs, p),
        0 <= i < xs.len(),
        n <= xs.len(),
    ensures
        basis_numerator(xs, i, xs[i], n) % (p as int) != 0,
    decreases n,
{
    if n == 0 {
        lemma_small_mod(1, p);
    } else {
        lemma_denominator_prefix_nonzero(p, xs, i, (n - 1) as nat);
        let j = n - 1;
        if j != i {
            let before = basis_numerator(xs, i, xs[i], (n - 1) as nat);
            lemma_mod_equivalence(xs[i], xs[j], p as int);
            if i < j {
                assert(!congruent(xs[i], xs[j], p as int));
            } else {
                assert(!congruent(xs[j], xs[i], p as int));
            }
            if (before * (xs[i] - xs[j])) % (p as int) == 0 {
                lemma_prime_divides_product(before, xs[i] - xs[j], p);
            }
        }
    }
}

/// Modulo a prime, pairwise incongruent nodes can be interpolated: every
/// denominator is invertible.
pub proof fn lemma_prime_interpolable(p: nat, xs: Seq<int>)
    requires
        is_prime(p),
        pairwise_incongruent(xs, p),
    ensures
        interpolable(p, xs),
{
    assert forall|i: int| 0 <= i < xs.len() implies invertible_mod(
        #[trigger] basis_denominator(xs, i),
        p,
    ) by {
        lemma_denominator_prefix_nonzero(p, xs, i, xs.len());
        lemma_prime_invertible(basis_denominator(xs, i), p);
    }
}

/// Where the denominators of the nodes below `n` are invertible, so is
/// their product.
pub proof fn lemma_denominator_product_invertible(p: nat, xs: Seq<int>, n: nat)
    requires
        p >= 2,
        n <= xs.len(),
        forall|i: int| 0 <= i < n ==> invertible_mod(#[trigger] basis_denominator(xs, i), p),
    ensures
        invertible_mod(denominator_product(xs, n), p),
    decreases n,
{
    if n == 0 {
        lemma_small_mod(1, p);
        assert(is_inverse_mod(1, 1, p));
    } else {
        lemma_denominator_product_invertible(p, xs, (n - 1) as nat);
        assert(invertible_mod(basis_denominator(xs, n - 1), p));
        lemma_invertible_product(
            denominator_product(xs, (n - 1) as nat),
            basis_denominator(xs, n - 1),
            p,
        );
    }
}

/// The interpolant passes through its points: at the node `m` it is
/// congruent to `ys[m]`.
pub proof fn lemma_interpolant_at_node(p: nat, xs: Seq<int>, ys: Seq<int>, m: int)
    requires
        p >= 2,
        interpolable(p, xs),
        0 <= m < xs.len(),
    ensures
        congruent(lagrange_sum(p, xs, ys, xs[m], xs.len()), ys[m], p as int),
{
    let d = basis_denominator(xs, m);
    let v = inverse_mod(d, p) as int;
    lemma_lagrange_sum_at_node(p, xs, ys, m, xs.len());
    assert(invertible_mod(basis_denominator(xs, m), p));
    lemma_inverse_mod_inverts(d, p);
    lemma_small_mod(1, p);
    assert(congruent(d * v, 1, p as int));
    lemma_congruent_mul(ys[m], ys[m], d * v, 1, p as int);
    assert(ys[m] * d * v == ys[m] * (d * v)) by (nonlinear_arith);
    assert(ys[m] * 1 == ys[m]);
}

/// Modulo a prime, through any points with pairwise incongruent nodes there
/// is a polynomial with as many coefficients as points: `fitted_poly`,
/// whose coefficients are residues.
pub proof fn lemma_fitted_poly(p: nat, xs: Seq<int>, ys: Seq<int>)
    requires
        is_prime(p),
        xs.len() == ys.len(),
        pairwise_incongruent(xs, p),
    ensures
        fitted_poly(p, xs, ys).len() == xs.len(),
        forall|k: int| 0 <= k < xs.len() ==> 0 <= #[trigger] fitted_poly(p, xs, ys)[k] < p,
        forall|i: int|
            0 <= i < xs.len() ==> congruent(
                poly_eval(fitted_poly(p, xs, ys), #[trigger] xs[i]),
                ys[i],
                p as int,
            ),
{
    let g = interpolant_poly(p, xs, ys, xs.len());
    let c = fitted_poly(p, xs, ys);
    lemma_prime_interpolable(p, xs);
    lemma_interpolant_poly(p, xs, ys, xs.len(), 0);
    assert forall|k: int| 0 <= k < xs.len() implies 0 <= #[trigger] c[k] < p by {
        lemma_mod_bound(g[k], p as int);
    }
    assert forall|i: int| 0 <= i < xs.len() implies congruent(
        poly_eval(c, #[trigger] xs[i]),
        ys[i],
        p as int,
    ) by {
        lemma_poly_eval_reduce(g, p, xs[i]);
        lemma_interpolant_poly(p, xs, ys, xs.len(), xs[i]);
        lemma_interpolant_at_node(p, xs, ys, i);
    }
}

/// Modulo a prime, the interpolant through points of a polynomial, at least
/// as many as the polynomial has coefficients and with pairwise incongruent
/// nodes, has the values of that polynomial everywhere.
pub proof fn lemma_interpolation_exact(p: nat, c: Seq<int>, xs: Seq<int>, ys: Seq<int>, x: int)
    requires
        is_prime(p),
        xs.len() == ys.len(),
        c.len() <= xs.len(),
        pairwise_incongruent(xs, p),
        forall|i: int|
            0 <= i < xs.len() ==> congruent(#[trigger] ys[i], poly_eval(c, xs[i]), p as int),
    ensures
        interpolable(p, xs),
        interpolate(p, xs, ys, x) == poly_eval(c, x) % (p as int),
{
    let m = p as int;
    let k = xs.len();
    lemma_prime_interpolable(p, xs);
    // The difference of the interpolant and the polynomial, as a polynomial
    // with as many coefficients as there are nodes.
    let g = interpolant_poly(p, xs, ys, k);
    let f = poly_scale(poly_pad(c, k), -1);
    let h = poly_add(g, f);
    lemma_interpolant_poly(p, xs, ys, k, x);
    assert forall|t: int| #[trigger] poly_eval(h, t) == lagrange_sum(p, xs, ys, t, k) - poly_eval(c, t) by {
        lemma_interpolant_poly(p, xs, ys, k, t);
        lemma_poly_eval_pad(c, k, t);
        lemma_poly_eval_scale(poly_pad(c, k), -1, t);
        lemma_poly_eval_add(g, f, t);
    }
    assert forall|i: int| 0 <= i < xs.len() implies #[trigger] poly_eval(h, xs[i]) % m == 0 by {
        lemma_interpolant_at_node(p, xs, ys, i);
        lemma_mod_equivalence(lagrange_sum(p, xs, ys, xs[i], k), poly_eval(c, xs[i]), m);
    }
    lemma_many_roots_vanish(p, h, xs, x);
    lemma_mod_equivalence(lagrange_sum(p, xs, ys, x, k), poly_eval(c, x), m);
}

} // verus!
