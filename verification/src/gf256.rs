//! GF(2^8) arithmetic with primitive polynomial x^8 + x^4 + x^3 + x^2 + 1 (0x11d).
//!
//! The field is modelled by the powers of the generator `x`: `gf_exp(i)` is
//! `x^i`, and `gf_log` is its inverse on the nonzero bytes. Multiplication,
//! division and inversion are defined through these two, exactly as the lookup
//! tables of [`Gf256`] compute them.
use vstd::arithmetic::div_mod::{lemma_mod_add_multiples_vanish, lemma_mod_multiples_vanish};
use vstd::prelude::*;
use vstd::relations::injective_on;
use vstd::set_lib::*;

verus! {

pub const GF256_SIZE: usize = 256;

pub const GF256_ORDER: usize = 255;

pub const PRIM_POLY_256: u16 = 0x11d;

/// The product of `a` and the generator `x`: a left shift by one bit, reduced
/// by the primitive polynomial when the shift carries out of the byte.
pub open spec fn xtime(a: u8) -> u8 {
    if a & 0x80 == 0 {
        a << 1
    } else {
        (a << 1) ^ 0x1d
    }
}

/// The `i`-th power of the generator.
pub open spec fn gf_exp(i: nat) -> u8
    decreases i,
{
    if i == 0 {
        1
    } else {
        xtime(gf_exp((i - 1) as nat))
    }
}

/// The discrete logarithm of a nonzero byte: the exponent below 255 at which
/// the generator reaches it. Of zero nothing is said.
pub open spec fn gf_log(a: u8) -> nat {
    choose|i: nat| i < 255 && gf_exp(i) == a
}

pub open spec fn gf_add(a: u8, b: u8) -> u8 {
    a ^ b
}

pub open spec fn gf_sub(a: u8, b: u8) -> u8 {
    a ^ b
}

pub open spec fn gf_mul(a: u8, b: u8) -> u8 {
    if a == 0 || b == 0 {
        0
    } else {
        gf_exp(gf_log(a) + gf_log(b))
    }
}

/// Division, with the convention that a zero divisor gives zero.
pub open spec fn gf_div(a: u8, b: u8) -> u8 {
    if a == 0 || b == 0 {
        0
    } else {
        gf_exp(((gf_log(a) - gf_log(b)) % 255) as nat)
    }
}

/// The multiplicative inverse, with the convention that zero gives zero.
pub open spec fn gf_inv(a: u8) -> u8 {
    if a == 0 {
        0
    } else {
        gf_exp((255 - gf_log(a)) as nat)
    }
}

/// The product of `a` and `b` as polynomials over GF(2), reduced by the
/// primitive polynomial: for each bit of `a`, lowest first, `b` is added where
/// the bit is set and then multiplied by the generator.
pub open spec fn gf_shift_add(a: u8, b: u8) -> u8
    decreases a,
{
    if a == 0 {
        0
    } else {
        gf_add(
            if a % 2 == 1 {
                b
            } else {
                0
            },
            gf_shift_add(a / 2, xtime(b)),
        )
    }
}

/// `b` multiplied `n` times by the generator.
pub open spec fn gf_shift(b: u8, n: nat) -> u8
    decreases n,
{
    if n == 0 {
        b
    } else {
        xtime(gf_shift(b, (n - 1) as nat))
    }
}

// ---------------------------------------------------------------------------
// Exclusive or
// ---------------------------------------------------------------------------

pub proof fn lemma_add_comm(a: u8, b: u8)
    ensures
        gf_add(a, b) == gf_add(b, a),
{
    assert(a ^ b == b ^ a) by (bit_vector);
}

pub proof fn lemma_add_assoc(a: u8, b: u8, c: u8)
    ensures
        gf_add(gf_add(a, b), c) == gf_add(a, gf_add(b, c)),
{
    assert((a ^ b) ^ c == a ^ (b ^ c)) by (bit_vector);
}

pub proof fn lemma_add_zero(a: u8)
    ensures
        gf_add(a, 0) == a,
        gf_add(0, a) == a,
{
    assert(a ^ 0 == a) by (bit_vector);
    assert(0 ^ a == a) by (bit_vector);
}

pub proof fn lemma_add_self(a: u8)
    ensures
        gf_add(a, a) == 0,
{
    assert(a ^ a == 0) by (bit_vector);
}

/// Two bytes whose sum is zero are equal.
pub proof fn lemma_add_eq_zero(a: u8, b: u8)
    ensures
        gf_add(a, b) == 0 <==> a == b,
{
    assert((a ^ b == 0) <==> a == b) by (bit_vector);
}

/// Four summands can be paired either way.
pub proof fn lemma_add_swap(a: u8, b: u8, c: u8, d: u8)
    ensures
        gf_add(gf_add(a, b), gf_add(c, d)) == gf_add(gf_add(a, c), gf_add(b, d)),
{
    assert((a ^ b) ^ (c ^ d) == (a ^ c) ^ (b ^ d)) by (bit_vector);
}

/// Addition and subtraction undo each other: adding `b` twice gives `a` back.
pub proof fn lemma_add_self_inverse(a: u8, b: u8)
    ensures
        gf_add(gf_add(a, b), b) == a,
{
    assert((a ^ b) ^ b == a) by (bit_vector);
}

// ---------------------------------------------------------------------------
// The generator has order 255
// ---------------------------------------------------------------------------

proof fn lemma_xtime_injective(a: u8, b: u8)
    requires
        xtime(a) == xtime(b),
    ensures
        a == b,
{
    assert(xtime(a) == xtime(b) ==> a == b) by (bit_vector);
}

proof fn lemma_xtime_linear(a: u8, b: u8)
    ensures
        xtime(a ^ b) == xtime(a) ^ xtime(b),
{
    assert(xtime(a ^ b) == xtime(a) ^ xtime(b)) by (bit_vector);
}

pub proof fn lemma_exp_nonzero(i: nat)
    ensures
        gf_exp(i) != 0,
    decreases i,
{
    if i > 0 {
        lemma_exp_nonzero((i - 1) as nat);
        let p = gf_exp((i - 1) as nat);
        assert(p != 0 ==> xtime(p) != 0) by (bit_vector);
    }
}

/// An exponent at which the generator returns to one is a period of `gf_exp`.
proof fn lemma_exp_shift(d: nat, n: nat)
    requires
        gf_exp(d) == 1,
    ensures
        gf_exp(n + d) == gf_exp(n),
    decreases n,
{
    if n > 0 {
        lemma_exp_shift(d, (n - 1) as nat);
        assert(gf_exp(n + d) == xtime(gf_exp((n + d - 1) as nat)));
    }
}

proof fn lemma_exp_cancel(i: nat, j: nat)
    requires
        i <= j,
        gf_exp(i) == gf_exp(j),
    ensures
        gf_exp((j - i) as nat) == 1,
    decreases i,
{
    if i > 0 {
        lemma_xtime_injective(gf_exp((i - 1) as nat), gf_exp((j - 1) as nat));
        lemma_exp_cancel((i - 1) as nat, (j - 1) as nat);
    }
}

proof fn lemma_exp_multiple(d: nat, k: nat)
    requires
        gf_exp(d) == 1,
    ensures
        gf_exp(k * d) == 1,
    decreases k,
{
    if k > 0 {
        lemma_exp_multiple(d, (k - 1) as nat);
        lemma_exp_shift(d, ((k - 1) * d) as nat);
        assert((k - 1) * d + d == k * d) by (nonlinear_arith);
    } else {
        assert(k * d == 0) by (nonlinear_arith)
            requires
                k == 0,
        ;
    }
}

/// Two periods have a common divisor that is a period too. The result is that
/// divisor with the two quotients.
proof fn lemma_common_period(a: nat, b: nat) -> (r: (nat, nat, nat))
    requires
        a > 0,
        b > 0,
        gf_exp(a) == 1,
        gf_exp(b) == 1,
    ensures
        r.0 > 0,
        a == r.1 * r.0,
        b == r.2 * r.0,
        gf_exp(r.0) == 1,
    decreases a + b,
{
    if a == b {
        assert(a == 1 * a) by (nonlinear_arith);
        (a, 1, 1)
    } else if a > b {
        lemma_exp_cancel(b, a);
        let (g, k1, k2) = lemma_common_period((a - b) as nat, b);
        assert(a == (k1 + k2) * g) by (nonlinear_arith)
            requires
                a - b == k1 * g,
                b == k2 * g,
        ;
        (g, k1 + k2, k2)
    } else {
        lemma_exp_cancel(a, b);
        let (g, k1, k2) = lemma_common_period(a, (b - a) as nat);
        assert(b == (k1 + k2) * g) by (nonlinear_arith)
            requires
                a == k1 * g,
                b - a == k2 * g,
        ;
        (g, k1, k1 + k2)
    }
}

/// The generator does not return to one before the 255th power.
proof fn lemma_exp_order(d: nat)
    requires
        0 < d < 255,
    ensures
        gf_exp(d) != 1,
{
    if gf_exp(d) == 1 {
        assert(gf_exp(255) == 1) by (bit_vector);
        let (g, kd, k) = lemma_common_period(d, 255);
        assert(g <= d && 1 <= k <= 255) by (nonlinear_arith)
            requires
                d == kd * g,
                255 == k * g,
                g > 0,
                d > 0,
        ;
        let g8 = g as u8;
        let k8 = k as u8;
        assert(g8 == 1 || g8 == 3 || g8 == 5 || g8 == 15 || g8 == 17 || g8 == 51 || g8 == 85)
            by (bit_vector)
            requires
                k8 * g8 == 255,
                g8 < 255,
        ;
        assert(gf_exp(15) != 1 && gf_exp(51) != 1 && gf_exp(85) != 1) by (bit_vector);
        if g == 1 {
            lemma_exp_multiple(1, 15);
        } else if g == 3 {
            lemma_exp_multiple(3, 5);
        } else if g == 5 {
            lemma_exp_multiple(5, 3);
        } else if g == 15 {
            lemma_exp_multiple(15, 1);
        } else if g == 17 {
            lemma_exp_multiple(17, 3);
        } else if g == 51 {
            lemma_exp_multiple(51, 1);
        } else {
            lemma_exp_multiple(85, 1);
        }
    }
}

pub proof fn lemma_exp_injective(i: nat, j: nat)
    requires
        i < 255,
        j < 255,
        gf_exp(i) == gf_exp(j),
    ensures
        i == j,
{
    if i < j {
        lemma_exp_cancel(i, j);
        lemma_exp_order((j - i) as nat);
    } else if j < i {
        lemma_exp_cancel(j, i);
        lemma_exp_order((i - j) as nat);
    }
}

/// Every nonzero byte is a power of the generator: the 255 powers below 255
/// are distinct and nonzero, and there are only 255 nonzero bytes.
pub proof fn lemma_exp_surjective(a: u8)
    requires
        a != 0,
    ensures
        exists|i: nat| i < 255 && gf_exp(i) == a,
{
    let dom = set_int_range(0, 255);
    let f = |i: int| gf_exp(i as nat);
    let img = dom.map(f);
    lemma_int_range(0, 255);
    assert(injective_on(f, dom)) by {
        assert forall|x1: int, x2: int|
            dom.contains(x1) && dom.contains(x2) && #[trigger] f(x1) == #[trigger] f(x2) implies x1
            == x2 by {
            lemma_exp_injective(x1 as nat, x2 as nat);
        }
    }
    lemma_map_size(dom, img, f);

    let nz = set_int_range(1, 256);
    let h = |i: int| i as u8;
    let all = nz.map(h);
    lemma_int_range(1, 256);
    assert(injective_on(h, nz));
    lemma_map_size(nz, all, h);

    assert forall|b: u8| img.contains(b) implies all.contains(b) by {
        let i = choose|i: int| dom.contains(i) && b == f(i);
        lemma_exp_nonzero(i as nat);
        assert(nz.contains(b as int) && b == h(b as int));
    }
    lemma_subset_equality(img, all);
    assert(nz.contains(a as int) && a == h(a as int));
    assert(all.contains(a));
    assert(img.contains(a));
    let i = choose|i: int| dom.contains(i) && a == f(i);
    assert((i as nat) < 255 && gf_exp(i as nat) == a);
}

pub proof fn lemma_log(a: u8)
    requires
        a != 0,
    ensures
        gf_log(a) < 255,
        gf_exp(gf_log(a)) == a,
{
    lemma_exp_surjective(a);
}

pub proof fn lemma_exp_mod(i: nat)
    ensures
        gf_exp(i) == gf_exp(i % 255),
    decreases i,
{
    if i >= 255 {
        assert(gf_exp(255) == 1) by (bit_vector);
        lemma_exp_mod((i - 255) as nat);
        lemma_exp_shift(255, (i - 255) as nat);
    }
}

pub proof fn lemma_log_exp(i: nat)
    ensures
        gf_log(gf_exp(i)) == i % 255,
{
    lemma_exp_mod(i);
    lemma_exp_nonzero(i);
    lemma_log(gf_exp(i));
    lemma_exp_injective(gf_log(gf_exp(i)), i % 255);
}

/// Exponents count modulo 255.
proof fn lemma_exp_congruent(i: nat, j: nat)
    requires
        i % 255 == j % 255,
    ensures
        gf_exp(i) == gf_exp(j),
{
    lemma_exp_mod(i);
    lemma_exp_mod(j);
}

proof fn lemma_mod_add(i: nat, j: nat)
    ensures
        (i % 255 + j) % 255 == (i + j) % 255,
{
    let q = i / 255;
    let r = i % 255;
    assert(i == 255 * q + r);
    lemma_mod_multiples_vanish(q as int, (r + j) as int, 255);
}

/// A difference of exponents is reduced modulo 255 by adding 255 first.
proof fn lemma_exp_sub_mod(x: nat, y: nat)
    requires
        y <= x + 255,
    ensures
        gf_exp(((x - y) % 255) as nat) == gf_exp((x + 255 - y) as nat),
{
    lemma_mod_add_multiples_vanish(x - y, 255);
    lemma_exp_mod((x + 255 - y) as nat);
}

/// An exponent may be reduced modulo 255 inside a sum.
proof fn lemma_exp_add_mod(i: nat, j: nat)
    ensures
        gf_exp(i % 255 + j) == gf_exp(i + j),
        gf_exp(j + i % 255) == gf_exp(i + j),
{
    lemma_mod_add(i, j);
    lemma_exp_congruent(i % 255 + j, i + j);
    assert(j + i % 255 == i % 255 + j);
}

// ---------------------------------------------------------------------------
// Field laws
// ---------------------------------------------------------------------------

pub proof fn lemma_mul_comm(a: u8, b: u8)
    ensures
        gf_mul(a, b) == gf_mul(b, a),
{
}

pub proof fn lemma_mul_one(a: u8)
    ensures
        gf_mul(a, 1) == a,
        gf_mul(1, a) == a,
{
    if a != 0 {
        lemma_log_exp(0);
        lemma_log(a);
    }
}

/// The field has no zero divisors.
pub proof fn lemma_mul_nonzero(a: u8, b: u8)
    ensures
        gf_mul(a, b) == 0 <==> (a == 0 || b == 0),
{
    if a != 0 && b != 0 {
        lemma_exp_nonzero(gf_log(a) + gf_log(b));
    }
}

pub proof fn lemma_mul_assoc(a: u8, b: u8, c: u8)
    ensures
        gf_mul(gf_mul(a, b), c) == gf_mul(a, gf_mul(b, c)),
{
    lemma_mul_nonzero(a, b);
    lemma_mul_nonzero(b, c);
    if a != 0 && b != 0 && c != 0 {
        let la = gf_log(a);
        let lb = gf_log(b);
        let lc = gf_log(c);
        let ab = gf_exp(la + lb);
        let bc = gf_exp(lb + lc);
        lemma_log_exp(la + lb);
        lemma_log_exp(lb + lc);
        assert(gf_mul(gf_mul(a, b), c) == gf_exp((la + lb) % 255 + lc));
        assert(gf_mul(a, gf_mul(b, c)) == gf_exp(la + (lb + lc) % 255));
        lemma_exp_add_mod(la + lb, lc);
        lemma_exp_add_mod(lb + lc, la);
        assert((la + lb) + lc == (lb + lc) + la);
    }
}

/// Every nonzero byte times its inverse is one.
pub proof fn lemma_mul_inv(a: u8)
    requires
        a != 0,
    ensures
        gf_inv(a) != 0,
        gf_mul(a, gf_inv(a)) == 1,
        gf_mul(gf_inv(a), a) == 1,
{
    let la = gf_log(a);
    lemma_log(a);
    let back = (255 - la) as nat;
    lemma_exp_nonzero(back);
    lemma_log_exp(back);
    assert(gf_mul(a, gf_inv(a)) == gf_exp(la + back % 255));
    lemma_exp_add_mod(back, la);
    assert(back + la == 255);
    assert(gf_exp(255) == 1) by (bit_vector);
}

/// Dividing a product by one of its nonzero factors gives the other factor.
pub proof fn lemma_div_mul(a: u8, b: u8)
    requires
        b != 0,
    ensures
        gf_div(gf_mul(a, b), b) == a,
{
    if a != 0 {
        let la = gf_log(a);
        let lb = gf_log(b);
        lemma_log(a);
        lemma_log(b);
        lemma_exp_nonzero(la + lb);
        lemma_log_exp(la + lb);
        let sum = (la + lb) % 255;
        let back = (255 - lb) as nat;
        assert(gf_div(gf_mul(a, b), b) == gf_exp(((sum - lb) % 255) as nat));
        lemma_exp_sub_mod(sum, lb);
        assert(sum + 255 - lb == sum + back);
        lemma_exp_add_mod(la + lb, back);
        assert(la + lb + back == la + 255);
        assert(gf_exp(255) == 1) by (bit_vector);
        lemma_exp_shift(255, la);
    }
}

/// A quotient times its nonzero divisor gives the dividend.
pub proof fn lemma_mul_div(a: u8, b: u8)
    requires
        b != 0,
    ensures
        gf_mul(gf_div(a, b), b) == a,
{
    lemma_div_is_mul_inv(a, b);
    lemma_mul_assoc(a, gf_inv(b), b);
    lemma_mul_inv(b);
    lemma_mul_one(a);
}

/// Division is multiplication by the inverse.
pub proof fn lemma_div_is_mul_inv(a: u8, b: u8)
    ensures
        gf_div(a, b) == gf_mul(a, gf_inv(b)),
{
    if a != 0 && b != 0 {
        let la = gf_log(a);
        let lb = gf_log(b);
        lemma_log(a);
        lemma_log(b);
        let back = (255 - lb) as nat;
        lemma_exp_nonzero(back);
        lemma_log_exp(back);
        assert(gf_mul(a, gf_inv(b)) == gf_exp(la + back % 255));
        lemma_exp_add_mod(back, la);
        lemma_exp_sub_mod(la, lb);
        assert(la + 255 - lb == back + la);
    }
}

proof fn lemma_shift_exp(j: nat, n: nat)
    ensures
        gf_shift(gf_exp(j), n) == gf_exp(j + n),
    decreases n,
{
    if n > 0 {
        lemma_shift_exp(j, (n - 1) as nat);
        assert(gf_exp(j + n) == xtime(gf_exp((j + n - 1) as nat)));
    }
}

proof fn lemma_shift_linear(b: u8, c: u8, n: nat)
    ensures
        gf_shift(b ^ c, n) == gf_shift(b, n) ^ gf_shift(c, n),
    decreases n,
{
    if n > 0 {
        lemma_shift_linear(b, c, (n - 1) as nat);
        lemma_xtime_linear(gf_shift(b, (n - 1) as nat), gf_shift(c, (n - 1) as nat));
    }
}

proof fn lemma_shift_zero(n: nat)
    ensures
        gf_shift(0, n) == 0,
    decreases n,
{
    if n > 0 {
        lemma_shift_zero((n - 1) as nat);
        assert(xtime(0) == 0) by (bit_vector);
    }
}

/// Multiplying by a nonzero `a` is multiplying `log(a)` times by the generator.
proof fn lemma_mul_is_shift(a: u8, b: u8)
    requires
        a != 0,
    ensures
        gf_mul(a, b) == gf_shift(b, gf_log(a)),
{
    if b == 0 {
        lemma_shift_zero(gf_log(a));
    } else {
        lemma_log(b);
        lemma_shift_exp(gf_log(b), gf_log(a));
    }
}

/// The product with the byte 2 is the product with the generator `x`: the
/// table product is the product of polynomials modulo the primitive one.
pub proof fn lemma_mul_generator(a: u8)
    ensures
        gf_mul(2, a) == xtime(a),
{
    assert(gf_exp(1) == 2) by (bit_vector);
    lemma_log_exp(1);
    lemma_mul_is_shift(2, a);
    assert(gf_shift(a, 1) == xtime(gf_shift(a, 0)));
}

/// Multiplication distributes over addition.
pub proof fn lemma_mul_distributes(a: u8, b: u8, c: u8)
    ensures
        gf_mul(a, gf_add(b, c)) == gf_add(gf_mul(a, b), gf_mul(a, c)),
        gf_mul(gf_add(b, c), a) == gf_add(gf_mul(b, a), gf_mul(c, a)),
{
    if a == 0 {
        lemma_add_zero(0);
    } else {
        lemma_mul_is_shift(a, b ^ c);
        lemma_mul_is_shift(a, b);
        lemma_mul_is_shift(a, c);
        lemma_shift_linear(b, c, gf_log(a));
    }
}

/// One step of multiplying by shifting and adding.
proof fn lemma_mul_step(a: u8, b: u8)
    ensures
        gf_mul(a, b) == gf_add(
            if a % 2 == 1 {
                b
            } else {
                0
            },
            gf_mul(a / 2, xtime(b)),
        ),
{
    let low: u8 = a % 2;
    let high: u8 = a / 2;
    assert(low ^ xtime(high) == a) by (bit_vector)
        requires
            low == a % 2,
            high == a / 2,
    ;
    lemma_mul_distributes(b, low, xtime(high));
    lemma_mul_one(b);
    lemma_mul_generator(high);
    lemma_mul_generator(b);
    lemma_mul_comm(2, high);
    lemma_mul_assoc(high, 2, b);
}

/// The product that the tables give is the product of polynomials over GF(2)
/// modulo the primitive polynomial.
pub proof fn lemma_mul_is_shift_add(a: u8, b: u8)
    ensures
        gf_mul(a, b) == gf_shift_add(a, b),
    decreases a,
{
    if a != 0 {
        lemma_mul_step(a, b);
        lemma_mul_is_shift_add(a / 2, xtime(b));
    }
}

// ---------------------------------------------------------------------------
// The lookup tables
// ---------------------------------------------------------------------------

/// The two lookup tables: `exp` holds the powers of the generator twice over,
/// so that the sum of two logarithms indexes it without reduction, and `log`
/// holds the logarithm of every nonzero byte.
pub struct Gf256 {
    exp: [u8; 510],
    log: [u8; GF256_SIZE],
}

impl Gf256 {
    pub closed spec fn exp_table(&self) -> Seq<u8> {
        self.exp@
    }

    pub closed spec fn log_table(&self) -> Seq<u8> {
        self.log@
    }

    /// The tables hold the powers and the logarithms of the field.
    pub open spec fn wf(&self) -> bool {
        &&& self.exp_table().len() == 510
        &&& self.log_table().len() == 256
        &&& forall|i: int| 0 <= i < 510 ==> self.exp_table()[i] == gf_exp(i as nat)
        &&& forall|a: int| 1 <= a < 256 ==> self.log_table()[a] == gf_log(a as u8)
    }

    #[verifier::type_invariant]
    closed spec fn tables_hold(&self) -> bool {
        self.wf()
    }

    #[inline]
    pub fn add(&self, a: u8, b: u8) -> (r: u8)
        ensures
            r == gf_add(a, b),
    {
        a ^ b
    }

    #[inline]
    pub fn sub(&self, a: u8, b: u8) -> (r: u8)
        ensures
            r == gf_sub(a, b),
    {
        a ^ b
    }

    #[inline]
    pub fn mul(&self, a: u8, b: u8) -> (r: u8)
        ensures
            r == gf_mul(a, b),
    {
        if a == 0 || b == 0 {
            return 0;
        }
        proof {
            use_type_invariant(self);
            lemma_log(a);
            lemma_log(b);
        }
        let la = self.log[a as usize] as usize;
        let lb = self.log[b as usize] as usize;
        self.exp[la + lb]
    }

    #[inline]
    pub fn div(&self, a: u8, b: u8) -> (r: u8)
        ensures
            r == gf_div(a, b),
    {
        if a == 0 {
            return 0;
        }
        if b == 0 {
            return 0;
        }
        proof {
            use_type_invariant(self);
            lemma_log(a);
            lemma_log(b);
        }
        let la = self.log[a as usize] as i32;
        let lb = self.log[b as usize] as i32;
        let mut idx = la - lb;
        if idx < 0 {
            idx += GF256_ORDER as i32;
        }
        self.exp[idx as usize]
    }

    #[inline]
    pub fn inv(&self, a: u8) -> (r: u8)
        ensures
            r == gf_inv(a),
    {
        if a == 0 {
            return 0;
        }
        proof {
            use_type_invariant(self);
            lemma_log(a);
        }
        let la = self.log[a as usize] as usize;
        self.exp[GF256_ORDER - la]
    }
}

impl Default for Gf256 {
    /// Builds the tables by doubling the generator 255 times.
    fn default() -> (r: Self)
        ensures
            r.wf(),
    {
        let mut exp = [0u8; 510];
        let mut log = [0u8; 256];

        let mut x: u16 = 1;
        for i in 0..GF256_ORDER
            invariant
                0 < x < 256,
                x == gf_exp(i as nat),
                forall|j: int| 0 <= j < i ==> exp@[j] == gf_exp(j as nat),
                forall|j: nat| j < i ==> log@[#[trigger] gf_exp(j) as int] == j,
        {
            exp[i] = x as u8;
            log[x as usize] = i as u8;
            proof {
                assert forall|j: nat| j < i + 1 implies log@[#[trigger] gf_exp(j) as int]
                    == j by {
                    if j < i && gf_exp(j) == gf_exp(i as nat) {
                        lemma_exp_injective(j, i as nat);
                    }
                }
                lemma_exp_nonzero((i + 1) as nat);
            }
            let ghost prev = x;
            x <<= 1;
            if x & 0x100 != 0 {
                x ^= PRIM_POLY_256;
            }
            assert(x < 256 && x == xtime(prev as u8)) by (bit_vector)
                requires
                    prev < 256,
                    x == if (prev << 1) & 0x100 != 0 {
                        (prev << 1) ^ 0x11d
                    } else {
                        prev << 1
                    },
            ;
        }
        for i in GF256_ORDER..510
            invariant
                forall|j: int| 0 <= j < i ==> exp@[j] == gf_exp(j as nat),
                forall|j: nat| j < 255 ==> log@[#[trigger] gf_exp(j) as int] == j,
        {
            exp[i] = exp[i - GF256_ORDER];
            proof {
                assert(gf_exp(255) == 1) by (bit_vector);
                lemma_exp_shift(255, (i - 255) as nat);
            }
        }
        proof {
            assert forall|a: int| 1 <= a < 256 implies log@[a] == gf_log(a as u8) by {
                lemma_log(a as u8);
                assert(log@[gf_exp(gf_log(a as u8)) as int] == gf_log(a as u8));
            }
        }
        Gf256 { exp, log }
    }
}

impl Clone for Gf256 {
    fn clone(&self) -> (r: Self)
        ensures
            r == *self,
    {
        proof {
            use_type_invariant(self);
        }
        Gf256 { exp: self.exp, log: self.log }
    }
}

} // verus!
