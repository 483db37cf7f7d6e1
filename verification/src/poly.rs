//! Polynomials over GF(256) as sequences of coefficients in ascending power
//! order, and the interpolating polynomial through a list of points.
use crate::gf256::{
    gf_add, gf_div, gf_mul, gf_sub, lemma_add_comm, lemma_add_swap, lemma_add_zero,
    lemma_mul_assoc, lemma_mul_comm, lemma_mul_distributes, lemma_mul_one,
};
use vstd::prelude::*;

verus! {

/// The `n`-th power of `x`.
pub open spec fn gf_pow(x: u8, n: nat) -> u8
    decreases n,
{
    if n == 0 {
        1
    } else {
        gf_mul(gf_pow(x, (n - 1) as nat), x)
    }
}

/// The sum of the terms `c[j] * x^j` for `j < n`.
pub open spec fn poly_value_upto(c: Seq<u8>, x: u8, n: nat) -> u8
    decreases n,
{
    if n == 0 {
        0
    } else {
        gf_add(poly_value_upto(c, x, (n - 1) as nat), gf_mul(c[n - 1], gf_pow(x, (n - 1) as nat)))
    }
}

/// The value of the polynomial `c` at `x`.
pub open spec fn poly_value(c: Seq<u8>, x: u8) -> u8 {
    poly_value_upto(c, x, c.len())
}

/// The term that `a[i]` contributes to coefficient `n` of the product of `a`
/// and `b`.
pub open spec fn product_term(a: Seq<u8>, b: Seq<u8>, n: int, i: int) -> u8 {
    if 0 <= n - i < b.len() {
        gf_mul(a[i], b[n - i])
    } else {
        0
    }
}

/// The sum of the terms that `a[0]`, .., `a[upto - 1]` contribute to
/// coefficient `n` of the product of `a` and `b`.
pub open spec fn product_coeff(a: Seq<u8>, b: Seq<u8>, n: int, upto: nat) -> u8
    decreases upto,
{
    if upto == 0 {
        0
    } else {
        gf_add(product_coeff(a, b, n, (upto - 1) as nat), product_term(a, b, n, upto - 1))
    }
}

/// The product of two polynomials, of which one at least is not empty.
pub open spec fn poly_product(a: Seq<u8>, b: Seq<u8>) -> Seq<u8> {
    Seq::new((a.len() + b.len() - 1) as nat, |n: int| product_coeff(a, b, n, a.len()))
}

/// The polynomial `p` with every coefficient multiplied by `s`.
pub open spec fn poly_scale(s: u8, p: Seq<u8>) -> Seq<u8> {
    Seq::new(p.len(), |i: int| gf_mul(s, p[i]))
}

/// The sum of `p` and the first `p.len()` coefficients of `q`.
pub open spec fn poly_sum(p: Seq<u8>, q: Seq<u8>) -> Seq<u8> {
    Seq::new(p.len(), |i: int| gf_add(p[i], q[i]))
}

/// The polynomial `X - root`.
pub open spec fn linear_factor(root: u8) -> Seq<u8> {
    seq![gf_sub(0, root), 1u8]
}

/// The product of the differences `x - xs[m]` over the `m < upto` other than
/// `j`.
pub open spec fn diff_product(xs: Seq<u8>, j: int, x: u8, upto: nat) -> u8
    decreases upto,
{
    if upto == 0 {
        1
    } else {
        let rest = diff_product(xs, j, x, (upto - 1) as nat);
        if upto - 1 == j {
            rest
        } else {
            gf_mul(rest, gf_sub(x, xs[upto - 1]))
        }
    }
}

/// The product of the polynomials `X - xs[m]` over the `m < upto` other than
/// `j`.
pub open spec fn basis_poly(xs: Seq<u8>, j: int, upto: nat) -> Seq<u8>
    decreases upto,
{
    if upto == 0 {
        seq![1u8]
    } else {
        let rest = basis_poly(xs, j, (upto - 1) as nat);
        if upto - 1 == j {
            rest
        } else {
            poly_product(rest, linear_factor(xs[upto - 1]))
        }
    }
}

/// The `j`-th term of the Lagrange formula for `degree` points: the basis
/// polynomial of `xs[j]`, scaled so that its value at `xs[j]` is `ys[j]`.
pub open spec fn lagrange_term(xs: Seq<u8>, ys: Seq<u8>, j: int, degree: nat) -> Seq<u8> {
    poly_scale(gf_div(ys[j], diff_product(xs, j, xs[j], degree)), basis_poly(xs, j, degree))
}

/// The sum of the first `upto` terms of the Lagrange formula.
pub open spec fn lagrange_sum(xs: Seq<u8>, ys: Seq<u8>, degree: nat, upto: nat) -> Seq<u8>
    decreases upto,
{
    if upto == 0 {
        Seq::new(degree, |i: int| 0u8)
    } else {
        poly_sum(
            lagrange_sum(xs, ys, degree, (upto - 1) as nat),
            lagrange_term(xs, ys, upto - 1, degree),
        )
    }
}

/// The `degree` coefficients of the polynomial that the Lagrange formula
/// gives for the points `(xs[i], ys[i])`, `i < degree`.
pub open spec fn lagrange_poly(xs: Seq<u8>, ys: Seq<u8>, degree: nat) -> Seq<u8> {
    lagrange_sum(xs, ys, degree, degree)
}

/// The number of coefficients of a basis polynomial.
pub proof fn lemma_basis_len(xs: Seq<u8>, j: int, upto: nat)
    ensures
        basis_poly(xs, j, upto).len() == if 0 <= j < upto {
            upto
        } else {
            upto + 1
        },
    decreases upto,
{
    if upto > 0 {
        lemma_basis_len(xs, j, (upto - 1) as nat);
    }
}

pub proof fn lemma_lagrange_sum_len(xs: Seq<u8>, ys: Seq<u8>, degree: nat, upto: nat)
    ensures
        lagrange_sum(xs, ys, degree, upto).len() == degree,
    decreases upto,
{
    if upto > 0 {
        lemma_lagrange_sum_len(xs, ys, degree, (upto - 1) as nat);
    }
}

// ---------------------------------------------------------------------------
// Values of sums, multiples and products
// ---------------------------------------------------------------------------

/// The value depends on the coefficients that are summed only.
pub proof fn lemma_value_upto_ext(p: Seq<u8>, q: Seq<u8>, x: u8, n: nat)
    requires
        forall|i: int| 0 <= i < n ==> p[i] == q[i],
    ensures
        poly_value_upto(p, x, n) == poly_value_upto(q, x, n),
    decreases n,
{
    if n > 0 {
        lemma_value_upto_ext(p, q, x, (n - 1) as nat);
    }
}

/// A polynomial with a constant term alone has that term as its value.
pub proof fn lemma_value_upto_const(p: Seq<u8>, x: u8, n: nat)
    requires
        n >= 1,
        forall|i: int| 1 <= i < n ==> p[i] == 0,
    ensures
        poly_value_upto(p, x, n) == p[0],
    decreases n,
{
    if n == 1 {
        assert(poly_value_upto(p, x, 0) == 0);
        lemma_mul_one(p[0]);
        lemma_add_zero(p[0]);
    } else {
        lemma_value_upto_const(p, x, (n - 1) as nat);
        lemma_add_zero(p[0]);
    }
}

/// The value of a sum is the sum of the values.
pub proof fn lemma_value_upto_sum(p: Seq<u8>, q: Seq<u8>, x: u8, n: nat)
    requires
        n <= p.len(),
    ensures
        poly_value_upto(poly_sum(p, q), x, n) == gf_add(
            poly_value_upto(p, x, n),
            poly_value_upto(q, x, n),
        ),
    decreases n,
{
    if n == 0 {
        lemma_add_zero(0);
    } else {
        lemma_value_upto_sum(p, q, x, (n - 1) as nat);
        let xn = gf_pow(x, (n - 1) as nat);
        lemma_mul_distributes(xn, p[n - 1], q[n - 1]);
        lemma_add_swap(
            poly_value_upto(p, x, (n - 1) as nat),
            poly_value_upto(q, x, (n - 1) as nat),
            gf_mul(p[n - 1], xn),
            gf_mul(q[n - 1], xn),
        );
    }
}

/// The value of a multiple is the multiple of the value.
pub proof fn lemma_value_upto_scale(s: u8, p: Seq<u8>, x: u8, n: nat)
    requires
        n <= p.len(),
    ensures
        poly_value_upto(poly_scale(s, p), x, n) == gf_mul(s, poly_value_upto(p, x, n)),
    decreases n,
{
    if n > 0 {
        lemma_value_upto_scale(s, p, x, (n - 1) as nat);
        let xn = gf_pow(x, (n - 1) as nat);
        lemma_mul_assoc(s, p[n - 1], xn);
        lemma_mul_distributes(s, poly_value_upto(p, x, (n - 1) as nat), gf_mul(p[n - 1], xn));
    }
}

/// Moving every coefficient one power up multiplies the value by `x`.
pub proof fn lemma_value_upto_shift(a: Seq<u8>, x: u8, k: nat)
    requires
        k <= a.len(),
    ensures
        poly_value_upto(seq![0u8] + a, x, k + 1) == gf_mul(x, poly_value_upto(a, x, k)),
    decreases k,
{
    let s = seq![0u8] + a;
    if k == 0 {
        assert(poly_value_upto(s, x, 0) == 0);
        assert(s[0] == 0);
        lemma_add_zero(0);
    } else {
        lemma_value_upto_shift(a, x, (k - 1) as nat);
        let xk = gf_pow(x, (k - 1) as nat);
        let c = a[k - 1];
        assert(s[k as int] == c);
        assert(gf_pow(x, k) == gf_mul(xk, x));
        lemma_mul_assoc(c, xk, x);
        lemma_mul_comm(gf_mul(c, xk), x);
        lemma_mul_distributes(x, poly_value_upto(a, x, (k - 1) as nat), gf_mul(c, xk));
    }
}

/// The terms that make up a coefficient of the product with `X - r`.
proof fn lemma_product_linear_coeff(a: Seq<u8>, r: u8, n: int, upto: nat)
    requires
        upto <= a.len(),
    ensures
        product_coeff(a, linear_factor(r), n, upto) == gf_add(
            if 0 <= n < upto {
                gf_mul(a[n], r)
            } else {
                0
            },
            if 1 <= n <= upto {
                a[n - 1]
            } else {
                0
            },
        ),
    decreases upto,
{
    let b = linear_factor(r);
    lemma_add_zero(r);
    lemma_add_zero(0);
    assert(b[0] == r && b[1] == 1 && b.len() == 2);
    if upto > 0 {
        let i = upto - 1;
        lemma_product_linear_coeff(a, r, n, i as nat);
        lemma_mul_one(a[i]);
        let low: u8 = if 0 <= n < i {
            gf_mul(a[n], r)
        } else {
            0
        };
        let high: u8 = if 1 <= n <= i {
            a[n - 1]
        } else {
            0
        };
        lemma_add_zero(gf_add(low, high));
        lemma_add_zero(high);
        if n == i {
            lemma_add_comm(high, gf_mul(a[n], r));
        }
    }
}

/// The product with `X - r` is `r` times the polynomial plus the polynomial
/// moved one power up.
pub proof fn lemma_product_linear(a: Seq<u8>, r: u8)
    ensures
        poly_product(a, linear_factor(r)) == poly_sum(
            poly_scale(r, a).push(0),
            seq![0u8] + a,
        ),
{
    let lhs = poly_product(a, linear_factor(r));
    let rhs = poly_sum(poly_scale(r, a).push(0), seq![0u8] + a);
    assert(lhs.len() == rhs.len());
    assert forall|n: int| 0 <= n < lhs.len() implies lhs[n] == rhs[n] by {
        lemma_product_linear_coeff(a, r, n, a.len());
        if n < a.len() {
            lemma_mul_comm(a[n], r);
        }
    }
    assert(lhs =~= rhs);
}

/// The value of the product with `X - r` is the value times `x - r`.
pub proof fn lemma_value_product_linear(a: Seq<u8>, r: u8, x: u8)
    ensures
        poly_value(poly_product(a, linear_factor(r)), x) == gf_mul(
            poly_value(a, x),
            gf_sub(x, r),
        ),
{
    let len = a.len();
    let low = poly_scale(r, a).push(0);
    let high = seq![0u8] + a;
    let value = poly_value(a, x);
    lemma_product_linear(a, r);
    lemma_value_upto_sum(low, high, x, len + 1);
    lemma_value_upto_ext(low, poly_scale(r, a), x, len);
    lemma_value_upto_scale(r, a, x, len);
    assert(low[len as int] == 0);
    lemma_add_zero(gf_mul(r, value));
    lemma_value_upto_shift(a, x, len);
    assert(poly_value_upto(low, x, len + 1) == gf_mul(r, value));
    assert(poly_value_upto(high, x, len + 1) == gf_mul(x, value));
    lemma_mul_distributes(value, r, x);
    lemma_add_comm(r, x);
    lemma_mul_comm(gf_add(x, r), value);
}

} // verus!
