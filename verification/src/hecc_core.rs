//! The code itself: a polynomial evaluated at the points 1..=N, and its
//! coefficients interpolated from K + T of the values.
use crate::gf256::{gf_add, gf_mul, lemma_add_zero, Gf256};
use crate::poly::{
    basis_poly, diff_product, gf_pow, lagrange_poly, lagrange_sum, lemma_basis_len,
    lemma_lagrange_sum_len, linear_factor, poly_product, poly_scale, poly_sum, poly_value,
    poly_value_upto, product_coeff,
};
use crate::interpolation::{distinct_points, lemma_interpolation};
use vstd::prelude::*;
use vstd::relations::injective_on;
use vstd::set_lib::*;

verus! {

#[derive(Debug)]
pub enum HeccError {
    InvalidParams,
    InvalidShardIndex,
    DuplicateIndex,
    NotEnoughShards,
}

#[derive(Debug, Clone, Copy)]
pub struct HeccParams {
    pub k: usize,
    pub t: usize,
    pub n: usize,
}

/// The counts that a code can have: a message and a hiding vector that are
/// not empty, and at least as many shards as both hold symbols, at one of the
/// 255 nonzero points each.
pub open spec fn params_ok(k: nat, t: nat, n: nat) -> bool {
    k >= 1 && t >= 1 && k + t <= n && n <= 255
}

impl HeccParams {
    pub open spec fn valid(&self) -> bool {
        params_ok(self.k as nat, self.t as nat, self.n as nat)
    }

    pub fn validate(&self) -> (result: Result<(), HeccError>)
        ensures
            result is Ok <==> self.valid(),
            result matches Err(e) ==> e is InvalidParams,
    {
        if self.k == 0 || self.t == 0 || self.n > 255 || self.k > self.n || self.t > self.n
            - self.k {
            return Err(HeccError::InvalidParams);
        }
        Ok(())
    }
}

/// The shards of the message `m` hidden by `r`: the values at the points
/// 1, .., n of the polynomial whose coefficients are `m` followed by `r`.
pub open spec fn encoding(m: Seq<u8>, r: Seq<u8>, n: nat) -> Seq<u8> {
    Seq::new(n, |i: int| poly_value(m + r, (i + 1) as u8))
}

/// A point at which a shard can lie.
pub open spec fn point_in_range(point: usize) -> bool {
    1 <= point <= 255
}

/// Entry `i` has the point of an entry before it.
pub open spec fn repeats_earlier(shards: Seq<(u8, usize)>, i: int) -> bool {
    exists|j: int| 0 <= j < i && shards[j].1 == shards[i].1
}

/// The scan of a decoder takes entry `i`.
pub open spec fn accepted(shards: Seq<(u8, usize)>, i: int) -> bool {
    point_in_range(shards[i].1) && !repeats_earlier(shards, i)
}

/// The first entry from `from` on and before `need` that the scan does not
/// take, or `need` where it takes them all.
pub open spec fn first_rejected(shards: Seq<(u8, usize)>, need: nat, from: nat) -> nat
    decreases need - from,
{
    if from >= need {
        need
    } else if !accepted(shards, from as int) {
        from
    } else {
        first_rejected(shards, need, from + 1)
    }
}

/// The points of the first `need` entries.
pub open spec fn shard_points(shards: Seq<(u8, usize)>, need: nat) -> Seq<u8> {
    Seq::new(need, |i: int| shards[i].1 as u8)
}

/// The values of the first `need` entries.
pub open spec fn shard_values(shards: Seq<(u8, usize)>, need: nat) -> Seq<u8> {
    Seq::new(need, |i: int| shards[i].0)
}

/// What decoding returns. The scan reads the first `k + t` entries, in the
/// order given, and stops at the first whose point is out of range or
/// repeats; entries after the first `k + t` are not looked at.
pub open spec fn decoding(shards: Seq<(u8, usize)>, k: nat, t: nat) -> Result<
    (Seq<u8>, Seq<u8>),
    HeccError,
> {
    let need = k + t;
    let bad = first_rejected(shards, need, 0);
    if k == 0 || t == 0 {
        Err(HeccError::InvalidParams)
    } else if shards.len() < need {
        Err(HeccError::NotEnoughShards)
    } else if bad < need {
        if !point_in_range(shards[bad as int].1) {
            Err(HeccError::InvalidShardIndex)
        } else {
            Err(HeccError::DuplicateIndex)
        }
    } else {
        let coeffs = lagrange_poly(shard_points(shards, need), shard_values(shards, need), need);
        Ok((coeffs.subrange(0, k as int), coeffs.subrange(k as int, need as int)))
    }
}

/// Where the scan has taken every entry before `i`, it goes on from `i`.
pub proof fn lemma_first_rejected_from(shards: Seq<(u8, usize)>, need: nat, i: nat)
    requires
        i <= need,
        forall|j: int| 0 <= j < i ==> accepted(shards, j),
    ensures
        first_rejected(shards, need, 0) == first_rejected(shards, need, i),
    decreases i,
{
    if i > 0 {
        lemma_first_rejected_from(shards, need, (i - 1) as nat);
        assert(accepted(shards, i - 1));
    }
}

/// What the scan finds: every entry before the first rejected one is taken,
/// and that one, where there is one, is not.
proof fn lemma_first_rejected(shards: Seq<(u8, usize)>, need: nat, from: nat)
    requires
        from <= need,
    ensures
        from <= first_rejected(shards, need, from) <= need,
        forall|l: int| from <= l < first_rejected(shards, need, from) ==> accepted(shards, l),
        first_rejected(shards, need, from) < need ==> !accepted(
            shards,
            first_rejected(shards, need, from) as int,
        ),
    decreases need - from,
{
    if from < need && accepted(shards, from as int) {
        lemma_first_rejected(shards, need, from + 1);
    }
}

/// The points in range that occur among the shards.
pub open spec fn usable_points(shards: Seq<(u8, usize)>) -> Set<usize> {
    Set::new(
        |p: usize| point_in_range(p) && exists|i: int| 0 <= i < shards.len() && shards[i].1 == p,
    )
}

proof fn lemma_usable_points_finite(shards: Seq<(u8, usize)>)
    ensures
        usable_points(shards).finite(),
{
    let range = set_int_range(1, 256);
    let f = |i: int| i as usize;
    let all = range.map(f);
    lemma_int_range(1, 256);
    assert(injective_on(f, range));
    lemma_map_size(range, all, f);
    assert forall|p: usize| usable_points(shards).contains(p) implies all.contains(p) by {
        assert(range.contains(p as int) && p == f(p as int));
    }
    lemma_len_subset(usable_points(shards), all);
}

/// Decoding any `k + t` shards of an encoding gives the message and the
/// hiding vector back, whichever distinct points they lie at and in whatever
/// order they come. Entries after the first `k + t` do not matter.
pub proof fn lemma_decode_encode(m: Seq<u8>, r: Seq<u8>, n: nat, shards: Seq<(u8, usize)>)
    requires
        params_ok(m.len(), r.len(), n),
        shards.len() >= m.len() + r.len(),
        forall|i: int|
            0 <= i < m.len() + r.len() ==> 1 <= (#[trigger] shards[i]).1 <= n && shards[i].0
                == encoding(m, r, n)[shards[i].1 - 1],
        forall|i: int, j: int|
            0 <= i < j < m.len() + r.len() ==> (#[trigger] shards[i]).1 != (#[trigger] shards[j]).1,
    ensures
        decoding(shards, m.len(), r.len()) == Ok::<(Seq<u8>, Seq<u8>), HeccError>((m, r)),
{
    let k = m.len();
    let t = r.len();
    let need = k + t;
    let c = m + r;
    let xs = shard_points(shards, need);
    let ys = shard_values(shards, need);
    assert forall|i: int| 0 <= i < need implies accepted(shards, i) by {
        assert(1 <= shards[i].1 <= n);
        if repeats_earlier(shards, i) {
            let j = choose|j: int| 0 <= j < i && shards[j].1 == shards[i].1;
            assert(shards[j].1 != shards[i].1);
        }
    }
    lemma_first_rejected_from(shards, need, need);
    assert(distinct_points(xs, need)) by {
        assert forall|i: int, j: int| 0 <= i < j < need implies xs[i] != xs[j] by {
            assert(shards[i].1 != shards[j].1);
            assert(1 <= shards[i].1 <= n && 1 <= shards[j].1 <= n);
        }
    }
    assert forall|i: int| 0 <= i < need implies ys[i] == poly_value(c, xs[i]) by {
        assert(1 <= shards[i].1 <= n);
    }
    lemma_interpolation(c, xs, ys);
    assert(c.subrange(0, k as int) =~= m);
    assert(c.subrange(k as int, need as int) =~= r);
}

/// Decoding fails with `NotEnoughShards` where the input holds fewer than
/// `k + t` entries, and nowhere else.
pub proof fn lemma_decode_too_few(shards: Seq<(u8, usize)>, k: nat, t: nat)
    ensures
        decoding(shards, k, t) == Err::<(Seq<u8>, Seq<u8>), HeccError>(
            HeccError::NotEnoughShards,
        ) <==> k >= 1 && t >= 1 && shards.len() < k + t,
{
}

/// Decoding needs `k + t` shards at distinct points in range: with fewer it
/// fails.
pub proof fn lemma_decode_insufficient(shards: Seq<(u8, usize)>, k: nat, t: nat)
    requires
        k >= 1,
        t >= 1,
        usable_points(shards).len() < k + t,
    ensures
        decoding(shards, k, t) is Err,
{
    let need = k + t;
    if decoding(shards, k, t) is Ok {
        lemma_first_rejected(shards, need, 0);
        let first = set_int_range(0, need as int);
        let f = |i: int| shards[i].1;
        let points = first.map(f);
        lemma_int_range(0, need as int);
        assert(injective_on(f, first)) by {
            assert forall|x1: int, x2: int|
                first.contains(x1) && first.contains(x2) && #[trigger] f(x1) == #[trigger] f(
                    x2,
                ) implies x1 == x2 by {
                if x1 < x2 {
                    assert(accepted(shards, x2));
                } else if x2 < x1 {
                    assert(accepted(shards, x1));
                }
            }
        }
        lemma_map_size(first, points, f);
        assert forall|p: usize| points.contains(p) implies usable_points(shards).contains(p) by {
            let i = choose|i: int| first.contains(i) && p == f(i);
            assert(accepted(shards, i));
        }
        lemma_usable_points_finite(shards);
        lemma_len_subset(points, usable_points(shards));
    }
}

/// A point that repeats within the first `k + t` entries makes decoding fail
/// with `DuplicateIndex`, where every entry up to the repeated one has its
/// point in range.
pub proof fn lemma_decode_duplicate(shards: Seq<(u8, usize)>, k: nat, t: nat, i: int, j: int)
    requires
        k >= 1,
        t >= 1,
        shards.len() >= k + t,
        0 <= i < j < k + t,
        shards[i].1 == shards[j].1,
        forall|l: int| 0 <= l <= j ==> point_in_range(#[trigger] shards[l].1),
    ensures
        decoding(shards, k, t) == Err::<(Seq<u8>, Seq<u8>), HeccError>(HeccError::DuplicateIndex),
{
    lemma_first_rejected(shards, k + t, 0);
    let bad = first_rejected(shards, k + t, 0);
    assert(repeats_earlier(shards, j));
    assert(bad <= j) by {
        if bad > j {
            assert(accepted(shards, j));
        }
    }
    assert(point_in_range(shards[bad as int].1));
}

/// A point out of range within the first `k + t` entries makes decoding fail
/// with `InvalidShardIndex`, where the scan has taken every entry before it.
pub proof fn lemma_decode_invalid_point(shards: Seq<(u8, usize)>, k: nat, t: nat, i: int)
    requires
        k >= 1,
        t >= 1,
        shards.len() >= k + t,
        0 <= i < k + t,
        !point_in_range(shards[i].1),
        forall|l: int| 0 <= l < i ==> accepted(shards, l),
    ensures
        decoding(shards, k, t) == Err::<(Seq<u8>, Seq<u8>), HeccError>(
            HeccError::InvalidShardIndex,
        ),
{
    lemma_first_rejected_from(shards, k + t, i as nat);
}

pub fn hecc_encode(m: &[u8], r: &[u8], n: usize) -> (result: Result<Vec<u8>, HeccError>)
    ensures
        result is Ok <==> params_ok(m@.len(), r@.len(), n as nat),
        result matches Ok(out) ==> out@ == encoding(m@, r@, n as nat),
        result matches Err(e) ==> e is InvalidParams,
{
    let k = m.len();
    let t = r.len();
    if k == 0 || t == 0 || n > 255 || k > n || t > n - k {
        return Err(HeccError::InvalidParams);
    }
    let gf = Gf256::default();
    let mut coeffs = Vec::with_capacity(k + t);
    coeffs.extend_from_slice(m);
    coeffs.extend_from_slice(r);
    assert(coeffs@ =~= m@ + r@);

    let mut out = Vec::with_capacity(n);
    for i in 0..n
        invariant
            n <= 255,
            coeffs@ == m@ + r@,
            out@.len() == i,
            forall|c: int| 0 <= c < i ==> out@[c] == poly_value(m@ + r@, (c + 1) as u8),
    {
        let x = (i + 1) as u8;
        let y = poly_eval(&gf, &coeffs, x);
        out.push(y);
    }
    assert(out@ =~= encoding(m@, r@, n as nat));
    Ok(out)
}

pub fn hecc_decode(shards: &[(u8, usize)], k: usize, t: usize) -> (result: Result<
    (Vec<u8>, Vec<u8>),
    HeccError,
>)
    ensures
        match result {
            Ok((m, r)) => decoding(shards@, k as nat, t as nat) == Ok::<
                (Seq<u8>, Seq<u8>),
                HeccError,
            >((m@, r@)),
            Err(e) => decoding(shards@, k as nat, t as nat) == Err::<(Seq<u8>, Seq<u8>), HeccError>(
                e,
            ),
        },
{
    if k == 0 || t == 0 {
        return Err(HeccError::InvalidParams);
    }
    if k > shards.len() || t > shards.len() - k {
        return Err(HeccError::NotEnoughShards);
    }
    let need = k + t;

    let mut unique: Vec<(u8, usize)> = Vec::with_capacity(need);
    while unique.len() < need
        invariant
            k >= 1,
            t >= 1,
            need == k + t,
            need <= shards@.len(),
            unique@.len() <= need,
            unique@ == shards@.take(unique@.len() as int),
            forall|j: int| 0 <= j < unique@.len() ==> accepted(shards@, j),
        decreases need - unique@.len(),
    {
        let i = unique.len();
        let (v, idx) = shards[i];
        proof {
            lemma_first_rejected_from(shards@, need as nat, i as nat);
        }
        if idx == 0 || idx > 255 {
            return Err(HeccError::InvalidShardIndex);
        }
        let mut j: usize = 0;
        while j < i
            invariant
                k >= 1,
                t >= 1,
                need == k + t,
                need <= shards@.len(),
                first_rejected(shards@, need as nat, 0) == first_rejected(
                    shards@,
                    need as nat,
                    i as nat,
                ),
                j <= i,
                i < need,
                1 <= idx <= 255,
                i == unique@.len(),
                i < shards@.len(),
                idx == shards@[i as int].1,
                unique@ == shards@.take(i as int),
                forall|l: int| 0 <= l < j ==> shards@[l].1 != idx,
            decreases i - j,
        {
            if unique[j].1 == idx {
                assert(repeats_earlier(shards@, i as int));
                return Err(HeccError::DuplicateIndex);
            }
            j += 1;
        }
        unique.push((v, idx));
        assert(unique@ =~= shards@.take(i + 1));
    }
    proof {
        lemma_first_rejected_from(shards@, need as nat, need as nat);
    }

    let gf = Gf256::default();
    let mut xs: Vec<u8> = Vec::with_capacity(need);
    let mut ys: Vec<u8> = Vec::with_capacity(need);
    for i in 0..need
        invariant
            unique@ == shards@.take(need as int),
            need <= shards@.len(),
            forall|j: int| 0 <= j < need ==> accepted(shards@, j),
            xs@ == shard_points(shards@, i as nat),
            ys@ == shard_values(shards@, i as nat),
    {
        let (v, idx) = unique[i];
        assert(accepted(shards@, i as int));
        xs.push(idx as u8);
        ys.push(v);
        assert(xs@ =~= shard_points(shards@, (i + 1) as nat));
        assert(ys@ =~= shard_values(shards@, (i + 1) as nat));
    }

    let coeffs = lagrange_interpolate(&gf, &xs, &ys, need);
    proof {
        lemma_lagrange_sum_len(xs@, ys@, need as nat, need as nat);
    }
    let mut m: Vec<u8> = Vec::with_capacity(k);
    for i in 0..k
        invariant
            coeffs@.len() == k + t,
            m@ == coeffs@.subrange(0, i as int),
    {
        m.push(coeffs[i]);
        assert(m@ =~= coeffs@.subrange(0, i + 1));
    }
    let mut r: Vec<u8> = Vec::with_capacity(t);
    for i in 0..t
        invariant
            need == k + t,
            coeffs@.len() == k + t,
            r@ == coeffs@.subrange(k as int, k + i),
    {
        r.push(coeffs[k + i]);
        assert(r@ =~= coeffs@.subrange(k as int, k + i + 1));
    }
    Ok((m, r))
}

/// The value of the polynomial `coeffs` at `x`.
pub fn poly_eval(gf: &Gf256, coeffs: &[u8], x: u8) -> (y: u8)
    ensures
        y == poly_value(coeffs@, x),
{
    let mut y = 0u8;
    let mut x_pow = 1u8;
    for i in 0..coeffs.len()
        invariant
            y == poly_value_upto(coeffs@, x, i as nat),
            x_pow == gf_pow(x, i as nat),
    {
        let c = coeffs[i];
        if c != 0 {
            y ^= gf.mul(c, x_pow);
        } else {
            proof {
                lemma_add_zero(y);
            }
        }
        x_pow = gf.mul(x_pow, x);
    }
    y
}

/// The coefficients of the polynomial through the points `(xs[i], ys[i])`,
/// `i < degree`, by the Lagrange formula.
pub fn lagrange_interpolate(gf: &Gf256, xs: &[u8], ys: &[u8], degree: usize) -> (poly: Vec<u8>)
    requires
        degree <= xs@.len(),
        degree <= ys@.len(),
    ensures
        poly@ == lagrange_poly(xs@, ys@, degree as nat),
{
    let mut poly = vec![0u8; degree];
    assert(poly@ =~= lagrange_sum(xs@, ys@, degree as nat, 0));
    for j in 0..degree
        invariant
            degree <= xs@.len(),
            degree <= ys@.len(),
            poly@.len() == degree,
            poly@ == lagrange_sum(xs@, ys@, degree as nat, j as nat),
    {
        let mut basis = vec![1u8];
        let mut denom = 1u8;
        assert(basis@ =~= basis_poly(xs@, j as int, 0));
        for m in 0..degree
            invariant
                j < degree <= xs@.len(),
                basis@ == basis_poly(xs@, j as int, m as nat),
                denom == diff_product(xs@, j as int, xs@[j as int], m as nat),
        {
            proof {
                lemma_basis_len(xs@, j as int, m as nat);
            }
            if m != j {
                let xj = xs[j];
                let xm = xs[m];
                let diff = gf.sub(xj, xm);
                denom = gf.mul(denom, diff);
                let factor = vec![gf.sub(0, xm), 1];
                assert(factor@ =~= linear_factor(xm));
                basis = poly_mul(gf, &basis, &factor);
            }
        }
        proof {
            lemma_basis_len(xs@, j as int, degree as nat);
        }
        let scale = gf.div(ys[j], denom);
        let ghost prev = poly@;
        for i in 0..basis.len()
            invariant
                poly@.len() == degree,
                prev.len() == degree,
                basis@.len() == degree,
                forall|c: int| 0 <= c < i ==> poly@[c] == gf_add(prev[c], gf_mul(scale, basis@[c])),
                forall|c: int| i <= c < degree ==> poly@[c] == prev[c],
        {
            if i < poly.len() {
                let term = gf.mul(scale, basis[i]);
                let cur = poly[i];
                poly[i] = cur ^ term;
            }
        }
        assert(poly@ =~= poly_sum(prev, poly_scale(scale, basis@)));
    }
    poly
}

/// The product of two polynomials, of which one at least is not empty.
pub fn poly_mul(gf: &Gf256, a: &[u8], b: &[u8]) -> (out: Vec<u8>)
    requires
        1 <= a@.len() + b@.len() <= usize::MAX + 1,
    ensures
        out@ == poly_product(a@, b@),
{
    let n = if b.len() == 0 {
        a.len() - 1
    } else {
        a.len() + (b.len() - 1)
    };
    let mut out = vec![0u8; n];
    for i in 0..a.len()
        invariant
            n == a@.len() + b@.len() - 1,
            out@.len() == n,
            forall|c: int| 0 <= c < n ==> out@[c] == product_coeff(a@, b@, c, i as nat),
    {
        let ai = a[i];
        let ghost row = out@;
        if ai != 0 {
            for j in 0..b.len()
                invariant
                    i < a@.len(),
                    ai == a@[i as int],
                    n == a@.len() + b@.len() - 1,
                    out@.len() == n,
                    row.len() == n,
                    forall|c: int| 0 <= c < n ==> out@[c] == if i <= c < i + j {
                        gf_add(row[c], gf_mul(ai, b@[c - i]))
                    } else {
                        row[c]
                    },
            {
                let bj = b[j];
                if bj != 0 {
                    let term = gf.mul(ai, bj);
                    let cur = out[i + j];
                    out[i + j] = cur ^ term;
                } else {
                    proof {
                        lemma_add_zero(row[i + j]);
                    }
                }
            }
        }
        proof {
            assert forall|c: int| 0 <= c < n implies out@[c] == product_coeff(
                a@,
                b@,
                c,
                (i + 1) as nat,
            ) by {
                lemma_add_zero(row[c]);
            }
        }
    }
    out
}

} // verus!
