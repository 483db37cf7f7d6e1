//! Why interpolation gives back the polynomial that was evaluated: the
//! Lagrange formula passes through its points, and a polynomial with as many
//! roots as coefficients is zero.
use crate::gf256::{
    gf_add, gf_div, gf_mul, gf_sub, lemma_add_comm, lemma_add_eq_zero, lemma_add_self,
    lemma_add_self_inverse, lemma_add_zero, lemma_mul_comm, lemma_mul_div, lemma_mul_nonzero,
    lemma_mul_one,
};
use crate::poly::{
    basis_poly, diff_product, lagrange_poly, lagrange_sum, lagrange_term, lemma_basis_len,
    lemma_lagrange_sum_len, lemma_product_linear, lemma_value_product_linear,
    lemma_value_upto_const, lemma_value_upto_ext, lemma_value_upto_scale, lemma_value_upto_sum,
    linear_factor, poly_product, poly_scale, poly_sum, poly_value, poly_value_upto,
};
use vstd::prelude::*;

verus! {

/// The first `n` points differ from one another.
pub open spec fn distinct_points(xs: Seq<u8>, n: nat) -> bool {
    forall|i: int, j: int| 0 <= i < j < n ==> xs[i] != xs[j]
}

/// The value of a basis polynomial is the product of the differences.
pub proof fn lemma_basis_value(xs: Seq<u8>, j: int, x: u8, upto: nat)
    ensures
        poly_value(basis_poly(xs, j, upto), x) == diff_product(xs, j, x, upto),
    decreases upto,
{
    if upto == 0 {
        let one = seq![1u8];
        assert(poly_value_upto(one, x, 0) == 0);
        assert(poly_value(one, x) == gf_add(0, gf_mul(one[0], 1)));
        lemma_mul_one(1);
        lemma_add_zero(1);
    } else {
        lemma_basis_value(xs, j, x, (upto - 1) as nat);
        if upto - 1 != j {
            lemma_value_product_linear(basis_poly(xs, j, (upto - 1) as nat), xs[upto - 1], x);
        }
    }
}

/// A basis polynomial vanishes at every point but its own.
pub proof fn lemma_diff_product_zero(xs: Seq<u8>, j: int, i: int, upto: nat)
    requires
        0 <= i < upto,
        i != j,
    ensures
        diff_product(xs, j, xs[i], upto) == 0,
    decreases upto,
{
    if upto - 1 == i {
        lemma_add_self(xs[i]);
    } else {
        lemma_diff_product_zero(xs, j, i, (upto - 1) as nat);
    }
}

/// At its own point a basis polynomial does not vanish, where the points
/// differ.
pub proof fn lemma_diff_product_nonzero(xs: Seq<u8>, j: int, upto: nat)
    requires
        forall|m: int| 0 <= m < upto && m != j ==> xs[m] != xs[j],
    ensures
        diff_product(xs, j, xs[j], upto) != 0,
    decreases upto,
{
    if upto > 0 {
        lemma_diff_product_nonzero(xs, j, (upto - 1) as nat);
        if upto - 1 != j {
            lemma_add_eq_zero(xs[j], xs[upto - 1]);
            lemma_mul_nonzero(
                diff_product(xs, j, xs[j], (upto - 1) as nat),
                gf_sub(xs[j], xs[upto - 1]),
            );
        }
    }
}

/// The value of one term of the Lagrange formula at one of the points.
proof fn lemma_lagrange_term_value(xs: Seq<u8>, ys: Seq<u8>, degree: nat, j: int, i: int)
    requires
        distinct_points(xs, degree),
        0 <= j < degree,
        0 <= i < degree,
    ensures
        poly_value_upto(lagrange_term(xs, ys, j, degree), xs[i], degree) == if i == j {
            ys[j]
        } else {
            0
        },
{
    let denom = diff_product(xs, j, xs[j], degree);
    let scale = gf_div(ys[j], denom);
    let basis = basis_poly(xs, j, degree);
    lemma_basis_len(xs, j, degree);
    lemma_value_upto_scale(scale, basis, xs[i], degree);
    lemma_basis_value(xs, j, xs[i], degree);
    assert(poly_value_upto(basis, xs[i], degree) == diff_product(xs, j, xs[i], degree));
    if i == j {
        assert forall|m: int| 0 <= m < degree && m != j implies xs[m] != xs[j] by {
            if m < j {
                assert(xs[m] != xs[j]);
            } else {
                assert(xs[j] != xs[m]);
            }
        }
        lemma_diff_product_nonzero(xs, j, degree);
        lemma_mul_div(ys[j], denom);
    } else {
        lemma_diff_product_zero(xs, j, i, degree);
    }
}

/// The sum of the first `upto` terms of the Lagrange formula has the given
/// values at the first `upto` points and vanishes at the others.
proof fn lemma_lagrange_sum_value(xs: Seq<u8>, ys: Seq<u8>, degree: nat, upto: nat, i: int)
    requires
        distinct_points(xs, degree),
        upto <= degree,
        0 <= i < degree,
    ensures
        poly_value(lagrange_sum(xs, ys, degree, upto), xs[i]) == if i < upto {
            ys[i]
        } else {
            0
        },
    decreases upto,
{
    lemma_lagrange_sum_len(xs, ys, degree, upto);
    if upto == 0 {
        let zeros = lagrange_sum(xs, ys, degree, 0);
        lemma_value_upto_const(zeros, xs[i], degree);
    } else {
        let j = upto - 1;
        let prev = lagrange_sum(xs, ys, degree, j as nat);
        let term = lagrange_term(xs, ys, j, degree);
        lemma_lagrange_sum_len(xs, ys, degree, j as nat);
        lemma_lagrange_sum_value(xs, ys, degree, j as nat, i);
        lemma_lagrange_term_value(xs, ys, degree, j, i);
        lemma_value_upto_sum(prev, term, xs[i], degree);
        lemma_add_zero(ys[i]);
        lemma_add_zero(0);
    }
}

/// The Lagrange formula passes through its points.
pub proof fn lemma_lagrange_passes(xs: Seq<u8>, ys: Seq<u8>, degree: nat, i: int)
    requires
        distinct_points(xs, degree),
        0 <= i < degree,
    ensures
        lagrange_poly(xs, ys, degree).len() == degree,
        poly_value(lagrange_poly(xs, ys, degree), xs[i]) == ys[i],
{
    lemma_lagrange_sum_len(xs, ys, degree, degree);
    lemma_lagrange_sum_value(xs, ys, degree, degree, i);
}

/// The value at `a` of the part of `p` from coefficient `k` on, divided by
/// `X^k`: the running value of Horner's scheme.
pub open spec fn horner_tail(p: Seq<u8>, a: u8, k: nat) -> u8
    decreases p.len() - k,
{
    if k >= p.len() {
        0
    } else {
        gf_add(p[k as int], gf_mul(a, horner_tail(p, a, k + 1)))
    }
}

/// The quotient of `p` by `X - a`.
pub open spec fn quotient(p: Seq<u8>, a: u8) -> Seq<u8> {
    Seq::new((p.len() - 1) as nat, |k: int| horner_tail(p, a, (k + 1) as nat))
}

/// A polynomial is its quotient by `X - a` times `X - a`, plus a constant.
proof fn lemma_division(p: Seq<u8>, a: u8, x: u8)
    requires
        p.len() >= 1,
    ensures
        poly_value(p, x) == gf_add(
            gf_mul(poly_value(quotient(p, a), x), gf_sub(x, a)),
            horner_tail(p, a, 0),
        ),
{
    let n = p.len();
    let q = quotient(p, a);
    let rem = horner_tail(p, a, 0);
    let product = poly_product(q, linear_factor(a));
    let constant = Seq::new(n, |k: int| if k == 0 { rem } else { 0u8 });
    let both = poly_sum(product, constant);
    lemma_product_linear(q, a);
    assert(product.len() == n);
    assert forall|k: int| 0 <= k < n implies p[k] == both[k] by {
        let low = poly_scale(a, q).push(0);
        let high = seq![0u8] + q;
        assert(product[k] == gf_add(low[k], high[k]));
        let here = horner_tail(p, a, k as nat);
        let next = horner_tail(p, a, (k + 1) as nat);
        assert(here == gf_add(p[k], gf_mul(a, next)));
        lemma_add_self_inverse(p[k], gf_mul(a, next));
        assert(p[k] == gf_add(here, gf_mul(a, next)));
        lemma_add_zero(here);
        lemma_add_zero(0);
        lemma_add_zero(gf_mul(a, next));
        lemma_add_comm(here, gf_mul(a, next));
        if k < n - 1 {
            assert(low[k] == gf_mul(a, next));
        } else {
            assert(low[k] == 0);
            assert(next == 0);
        }
        if k == 0 {
            assert(high[k] == 0);
            assert(constant[k] == rem);
        } else {
            assert(high[k] == here);
            assert(constant[k] == 0);
            lemma_add_zero(product[k]);
        }
    }
    lemma_value_upto_ext(p, both, x, n);
    lemma_value_upto_sum(product, constant, x, n);
    lemma_value_upto_const(constant, x, n);
    lemma_value_product_linear(q, a, x);
}

/// A polynomial with as many distinct roots as coefficients is zero.
pub proof fn lemma_roots_zero(p: Seq<u8>, roots: Seq<u8>)
    requires
        distinct_points(roots, p.len()),
        forall|i: int| 0 <= i < p.len() ==> poly_value(p, roots[i]) == 0,
    ensures
        forall|k: int| 0 <= k < p.len() ==> p[k] == 0,
    decreases p.len(),
{
    let n = p.len();
    if n > 0 {
        let a = roots[n - 1];
        let q = quotient(p, a);
        let rem = horner_tail(p, a, 0);
        lemma_division(p, a, a);
        lemma_add_self(a);
        lemma_mul_comm(poly_value(q, a), 0);
        lemma_add_zero(rem);
        assert(rem == 0);
        assert forall|i: int| 0 <= i < q.len() implies poly_value(q, roots[i]) == 0 by {
            lemma_division(p, a, roots[i]);
            lemma_add_zero(gf_mul(poly_value(q, roots[i]), gf_sub(roots[i], a)));
            lemma_mul_nonzero(poly_value(q, roots[i]), gf_sub(roots[i], a));
            lemma_add_eq_zero(roots[i], a);
            assert(roots[i] != roots[n - 1]);
        }
        lemma_roots_zero(q, roots);
        assert forall|k: int| 0 <= k < n implies p[k] == 0 by {
            let here = horner_tail(p, a, k as nat);
            let next = horner_tail(p, a, (k + 1) as nat);
            assert(here == gf_add(p[k], gf_mul(a, next)));
            if k >= 1 {
                assert(q[k - 1] == here);
            }
            if k + 1 < n {
                assert(q[k] == next);
            }
            assert(here == 0 && next == 0);
            lemma_add_zero(p[k]);
        }
    }
}

/// Interpolation gives back the polynomial that was evaluated: where the
/// `ys` are the values of `c` at as many distinct points as `c` has
/// coefficients, the Lagrange formula yields `c`.
pub proof fn lemma_interpolation(c: Seq<u8>, xs: Seq<u8>, ys: Seq<u8>)
    requires
        distinct_points(xs, c.len()),
        forall|i: int| 0 <= i < c.len() ==> ys[i] == poly_value(c, xs[i]),
    ensures
        lagrange_poly(xs, ys, c.len()) == c,
{
    let n = c.len();
    let found = lagrange_poly(xs, ys, n);
    let diff = poly_sum(found, c);
    lemma_lagrange_sum_len(xs, ys, n, n);
    assert forall|i: int| 0 <= i < n implies poly_value(diff, xs[i]) == 0 by {
        lemma_lagrange_passes(xs, ys, n, i);
        lemma_value_upto_sum(found, c, xs[i], n);
        lemma_add_self(ys[i]);
    }
    lemma_roots_zero(diff, xs);
    assert forall|k: int| 0 <= k < n implies found[k] == c[k] by {
        assert(diff[k] == gf_add(found[k], c[k]));
        lemma_add_eq_zero(found[k], c[k]);
    }
    assert(found =~= c);
}

} // verus!
