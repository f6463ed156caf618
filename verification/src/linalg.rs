//! Sums of products of complex fractions over a common denominator, and
//! how row operations act on them: the algebra behind Gauss-Jordan.

use vstd::prelude::*;
use crate::power::{Tri, teq, tmul, tone, tzero, lemma_teq_trans, lemma_teq_sym, lemma_tmul_cong,
    lemma_tmul_assoc, lemma_tmul_comm, lemma_tmul_nonzero};
use crate::rational::lemma_den_pos;

verus! {

pub open spec fn tadd(t: Tri, u: Tri) -> Tri {
    (t.0 * u.2 + u.0 * t.2, t.1 * u.2 + u.1 * t.2, t.2 * u.2)
}

pub open spec fn tneg(t: Tri) -> Tri {
    (-t.0, -t.1, t.2)
}

pub open spec fn tzero_form() -> Tri {
    (0, 0, 1)
}

/// A positive denominator.
pub open spec fn tpos(t: Tri) -> bool {
    t.2 > 0
}

/// `c[0]*y[0] + ... + c[k-1]*y[k-1]`.
pub open spec fn tsum(c: Seq<Tri>, y: Seq<Tri>, k: int) -> Tri
    decreases k,
{
    if k <= 0 {
        tzero_form()
    } else {
        tadd(tsum(c, y, k - 1), tmul(c[k - 1], y[k - 1]))
    }
}

pub proof fn lemma_teq_refl(t: Tri)
    ensures
        teq(t, t),
{
}

pub proof fn lemma_pos(t: Tri, u: Tri)
    requires
        tpos(t),
        tpos(u),
    ensures
        tpos(tadd(t, u)),
        tpos(tmul(t, u)),
{
    lemma_den_pos(t.2, u.2);
}

/// A form and the same form scaled by `k` are equal.
proof fn lemma_teq_scaled(t: Tri, k: int)
    ensures
        teq(t, (k * t.0, k * t.1, k * t.2)),
{
    assert(t.0 * (k * t.2) == (k * t.0) * t.2) by (nonlinear_arith);
    assert(t.1 * (k * t.2) == (k * t.1) * t.2) by (nonlinear_arith);
}

pub proof fn lemma_tadd_comm(t: Tri, u: Tri)
    ensures
        tadd(t, u) == tadd(u, t),
{
    assert(t.2 * u.2 == u.2 * t.2) by (nonlinear_arith);
}

pub proof fn lemma_tadd_assoc(t: Tri, u: Tri, v: Tri)
    ensures
        tadd(tadd(t, u), v) == tadd(t, tadd(u, v)),
{
    let (a, b, c) = (t.0, t.1, t.2);
    let (d, e, f) = (u.0, u.1, u.2);
    let (g, h, k) = (v.0, v.1, v.2);
    assert((a * f + d * c) * k + g * (c * f) == a * (f * k) + (d * k + g * f) * c) by (nonlinear_arith);
    assert((b * f + e * c) * k + h * (c * f) == b * (f * k) + (e * k + h * f) * c) by (nonlinear_arith);
    assert((c * f) * k == c * (f * k)) by (nonlinear_arith);
}

/// `(x*y)*(z*w) == (x*w)*(z*y)` and other regroupings of four factors.
pub proof fn lemma_regroup(x: int, y: int, z: int, w: int)
    ensures
        (x * y) * (z * w) == (x * z) * (y * w),
        (x * y) * (z * w) == (x * w) * (y * z),
{
    assert((x * y) * (z * w) == (x * z) * (y * w)) by (nonlinear_arith);
    assert((x * y) * (z * w) == (x * w) * (y * z)) by (nonlinear_arith);
}

/// `(a*f + d*c) * m == (a*f)*m + (d*c)*m`.
pub proof fn lemma_dist2(x: int, y: int, m: int)
    ensures
        (x + y) * m == x * m + y * m,
        (x - y) * m == x * m - y * m,
        m * (x + y) == m * x + m * y,
        m * (x - y) == m * x - m * y,
{
    vstd::arithmetic::mul::lemma_mul_is_distributive_add_other_way(m, x, y);
    vstd::arithmetic::mul::lemma_mul_is_distributive_sub_other_way(m, x, y);
    vstd::arithmetic::mul::lemma_mul_is_distributive_add(m, x, y);
    vstd::arithmetic::mul::lemma_mul_is_distributive_sub(m, x, y);
}

/// Cross-multiplied equality of one part of a sum.
proof fn lemma_tadd_part(a: int, c: int, a2: int, c2: int, d: int, f: int, d2: int, f2: int)
    requires
        a * c2 == a2 * c,
        d * f2 == d2 * f,
    ensures
        (a * f + d * c) * (c2 * f2) == (a2 * f2 + d2 * c2) * (c * f),
{
    lemma_dist2(a * f, d * c, c2 * f2);
    lemma_dist2(a2 * f2, d2 * c2, c * f);
    lemma_regroup(a, f, c2, f2);
    lemma_regroup(d, c, c2, f2);
    lemma_regroup(a2, f2, c, f);
    lemma_regroup(d2, c2, c, f);
    assert((a * c2) * (f * f2) == (a2 * c) * (f * f2));
    assert((d * f2) * (c * c2) == (d2 * f) * (c * c2));
    assert((a * f) * (c2 * f2) == (a * c2) * (f * f2));
    assert((a2 * f2) * (c * f) == (a2 * c) * (f2 * f)) by (nonlinear_arith);
    assert((a2 * c) * (f2 * f) == (a2 * c) * (f * f2)) by (nonlinear_arith);
    assert((d * c) * (c2 * f2) == (d * f2) * (c * c2)) by (nonlinear_arith);
    assert((d2 * c2) * (c * f) == (d2 * f) * (c2 * c)) by (nonlinear_arith);
    assert((d2 * f) * (c2 * c) == (d2 * f) * (c * c2)) by (nonlinear_arith);
}

pub proof fn lemma_tadd_cong(t: Tri, t2: Tri, u: Tri, u2: Tri)
    requires
        teq(t, t2),
        teq(u, u2),
    ensures
        teq(tadd(t, u), tadd(t2, u2)),
{
    lemma_tadd_part(t.0, t.2, t2.0, t2.2, u.0, u.2, u2.0, u2.2);
    lemma_tadd_part(t.1, t.2, t2.1, t2.2, u.1, u.2, u2.1, u2.2);
}

/// `(P*X - Q*Y)*u + (P*Z - Q*W)*v == P*(X*u + Z*v) - Q*(Y*u + W*v)`.
proof fn lemma_dist_part(pp: int, qq: int, x: int, y: int, z: int, w: int, u: int, v: int)
    ensures
        (pp * x - qq * y) * u + (pp * z - qq * w) * v == pp * (x * u + z * v) - qq * (y * u + w * v),
        (pp * x + qq * y) * u + (pp * z + qq * w) * v == pp * (x * u + z * v) + qq * (y * u + w * v),
{
    lemma_dist2(pp * x, qq * y, u);
    lemma_dist2(pp * z, qq * w, v);
    lemma_dist2(x * u, z * v, pp);
    lemma_dist2(y * u, w * v, qq);
    assert((pp * x) * u == pp * (x * u)) by (nonlinear_arith);
    assert((qq * y) * u == qq * (y * u)) by (nonlinear_arith);
    assert((pp * z) * v == pp * (z * v)) by (nonlinear_arith);
    assert((qq * w) * v == qq * (w * v)) by (nonlinear_arith);
}

/// `m*(P*(X*b + Z*a)) == P*(X*(m*b) + Z*(m*a))`.
proof fn lemma_scale_inner(m: int, pp: int, x: int, z: int, a: int, b: int)
    ensures
        m * (pp * (x * b + z * a)) == pp * (x * (m * b) + z * (m * a)),
{
    lemma_dist2(x * b, z * a, pp);
    lemma_dist2(x * (m * b), z * (m * a), pp);
    assert(m * (pp * (x * b)) == pp * (x * (m * b))) by (nonlinear_arith);
    assert(m * (pp * (z * a)) == pp * (z * (m * a))) by (nonlinear_arith);
    lemma_dist2(pp * (x * b), pp * (z * a), m);
}

/// `p*(A+B) == p*A + p*B`.
pub proof fn lemma_tdist(p: Tri, a: Tri, b: Tri)
    ensures
        teq(tmul(p, tadd(a, b)), tadd(tmul(p, a), tmul(p, b))),
{
    let l = tmul(p, tadd(a, b));
    let r = tadd(tmul(p, a), tmul(p, b));
    let (p0, p1, p2) = (p.0, p.1, p.2);
    let (a0, a1, a2) = (a.0, a.1, a.2);
    let (b0, b1, b2) = (b.0, b.1, b.2);
    let u = p2 * b2;
    let v = p2 * a2;
    lemma_dist_part(p0, p1, a0, a1, b0, b1, u, v);
    lemma_dist_part(p0, p1, a1, a0, b1, b0, u, v);
    lemma_scale_inner(p2, p0, a0, b0, a2, b2);
    lemma_scale_inner(p2, p1, a1, b1, a2, b2);
    lemma_scale_inner(p2, p0, a1, b1, a2, b2);
    lemma_scale_inner(p2, p1, a0, b0, a2, b2);
    lemma_dist2(p0 * (a0 * b2 + b0 * a2), p1 * (a1 * b2 + b1 * a2), p2);
    lemma_dist2(p0 * (a1 * b2 + b1 * a2), p1 * (a0 * b2 + b0 * a2), p2);
    assert(r.0 == p2 * l.0);
    assert(r.1 == p2 * l.1);
    assert(r.2 == p2 * l.2) by (nonlinear_arith)
        requires r.2 == (p2 * a2) * (p2 * b2), l.2 == p2 * (a2 * b2), {}
    lemma_teq_scaled(l, p2);
}

/// `(A+B)*y == A*y + B*y`.
pub proof fn lemma_tdist_right(a: Tri, b: Tri, y: Tri)
    ensures
        teq(tmul(tadd(a, b), y), tadd(tmul(a, y), tmul(b, y))),
{
    lemma_tmul_comm(tadd(a, b), y);
    lemma_tmul_comm(a, y);
    lemma_tmul_comm(b, y);
    lemma_tdist(y, a, b);
}

/// Products with zero are zero, and adding zero changes nothing.
pub proof fn lemma_tzero_ops(z: Tri, t: Tri)
    requires
        tzero(z),
        tpos(z),
        tpos(t),
    ensures
        tzero(tmul(t, z)),
        teq(tadd(t, z), t),
{
    assert(t.0 * z.2 * t.2 == t.0 * (t.2 * z.2)) by (nonlinear_arith);
    assert(t.1 * z.2 * t.2 == t.1 * (t.2 * z.2)) by (nonlinear_arith);
}

/// Equal forms are zero together.
pub proof fn lemma_teq_zero(t: Tri, u: Tri)
    requires
        teq(t, u),
        tpos(t),
        tpos(u),
    ensures
        tzero(t) == tzero(u),
{
    assert((t.0 == 0) == (u.0 == 0)) by (nonlinear_arith)
        requires t.0 * u.2 == u.0 * t.2, t.2 > 0, u.2 > 0, {}
    assert((t.1 == 0) == (u.1 == 0)) by (nonlinear_arith)
        requires t.1 * u.2 == u.1 * t.2, t.2 > 0, u.2 > 0, {}
}

/// Every entry has a positive denominator.
pub open spec fn all_pos(c: Seq<Tri>) -> bool {
    forall|j: int| 0 <= j < c.len() ==> #[trigger] tpos(c[j])
}

pub proof fn lemma_tsum_pos(c: Seq<Tri>, y: Seq<Tri>, k: int)
    requires
        k <= c.len(),
        k <= y.len(),
        all_pos(c),
        all_pos(y),
    ensures
        tpos(tsum(c, y, k)),
    decreases k,
{
    if k > 0 {
        lemma_tsum_pos(c, y, k - 1);
        assert(tpos(c[k - 1]) && tpos(y[k - 1]));
        lemma_pos(c[k - 1], y[k - 1]);
        lemma_pos(tsum(c, y, k - 1), tmul(c[k - 1], y[k - 1]));
    }
}

/// Sums over rows that agree entry by entry agree.
pub proof fn lemma_tsum_cong(c: Seq<Tri>, d: Seq<Tri>, y: Seq<Tri>, k: int)
    requires
        k <= c.len(),
        k <= d.len(),
        k <= y.len(),
        all_pos(c),
        all_pos(d),
        all_pos(y),
        forall|j: int| 0 <= j < k ==> teq(#[trigger] c[j], d[j]),
    ensures
        teq(tsum(c, y, k), tsum(d, y, k)),
    decreases k,
{
    if k > 0 {
        lemma_tsum_cong(c, d, y, k - 1);
        assert(teq(c[k - 1], d[k - 1]));
        lemma_tmul_cong(c[k - 1], d[k - 1], y[k - 1], y[k - 1]);
        lemma_tadd_cong(tsum(c, y, k - 1), tsum(d, y, k - 1), tmul(c[k - 1], y[k - 1]), tmul(d[k - 1], y[k - 1]));
    }
}

/// One step of the combination identity:
/// `(pA + qB) + (pa + qb)y == p(A + ay) + q(B + by)`.
proof fn lemma_comb_step(p: Tri, q: Tri, sa: Tri, sb: Tri, a: Tri, b: Tri, y: Tri)
    requires
        tpos(p),
        tpos(q),
        tpos(sa),
        tpos(sb),
        tpos(a),
        tpos(b),
        tpos(y),
    ensures
        teq(
            tadd(tadd(tmul(p, sa), tmul(q, sb)), tmul(tadd(tmul(p, a), tmul(q, b)), y)),
            tadd(tmul(p, tadd(sa, tmul(a, y))), tmul(q, tadd(sb, tmul(b, y)))),
        ),
{
    let pa = tmul(p, a);
    let qb = tmul(q, b);
    let ay = tmul(a, y);
    let by_ = tmul(b, y);
    lemma_pos(p, a);
    lemma_pos(q, b);
    lemma_pos(a, y);
    lemma_pos(b, y);
    lemma_pos(p, sa);
    lemma_pos(q, sb);
    lemma_pos(pa, y);
    lemma_pos(qb, y);
    lemma_pos(p, ay);
    lemma_pos(q, by_);
    lemma_pos(sa, ay);
    lemma_pos(sb, by_);
    // (pa + qb) y == (pa)y + (qb)y == p(ay) + q(by)
    lemma_tdist_right(pa, qb, y);
    lemma_tmul_assoc(p, a, y);
    lemma_tmul_assoc(q, b, y);
    let lhs1 = tadd(tmul(p, sa), tmul(q, sb));
    let mid = tadd(tmul(p, ay), tmul(q, by_));
    lemma_pos(tmul(p, ay), tmul(q, by_));
    lemma_pos(tmul(p, sa), tmul(q, sb));
    lemma_pos(pa, qb);
    lemma_pos(tadd(pa, qb), y);
    lemma_teq_refl(lhs1);
    lemma_tadd_cong(lhs1, lhs1, tmul(tadd(pa, qb), y), mid);
    // regroup: (pA + qB) + (p(ay) + q(by)) == (pA + p(ay)) + (qB + q(by))
    let x1 = tmul(p, sa);
    let x2 = tmul(q, sb);
    let x3 = tmul(p, ay);
    let x4 = tmul(q, by_);
    lemma_tadd_assoc(x1, x2, tadd(x3, x4));
    lemma_tadd_assoc(x2, x3, x4);
    lemma_tadd_comm(x2, x3);
    lemma_tadd_assoc(x3, x2, x4);
    lemma_tadd_assoc(x1, x3, tadd(x2, x4));
    let regrouped = tadd(tadd(x1, x3), tadd(x2, x4));
    assert(tadd(lhs1, mid) == regrouped);
    // p(A + ay) == pA + p(ay), and the same for q
    lemma_tdist(p, sa, ay);
    lemma_tdist(q, sb, by_);
    lemma_teq_sym(tmul(p, tadd(sa, ay)), tadd(x1, x3));
    lemma_teq_sym(tmul(q, tadd(sb, by_)), tadd(x2, x4));
    lemma_pos(x1, x3);
    lemma_pos(x2, x4);
    lemma_tadd_cong(tadd(x1, x3), tmul(p, tadd(sa, ay)), tadd(x2, x4), tmul(q, tadd(sb, by_)));
    lemma_pos(lhs1, mid);
    lemma_teq_trans(
        tadd(lhs1, tmul(tadd(pa, qb), y)),
        tadd(lhs1, mid),
        tadd(tmul(p, tadd(sa, ay)), tmul(q, tadd(sb, by_))),
    );
}

/// A row made of `p` times one row plus `q` times another has the
/// corresponding sum: `Σ c y == p Σ a y + q Σ b y`.
pub proof fn lemma_tsum_comb(p: Tri, q: Tri, a: Seq<Tri>, b: Seq<Tri>, c: Seq<Tri>, y: Seq<Tri>, k: int)
    requires
        0 <= k,
        k <= a.len(),
        k <= b.len(),
        k <= c.len(),
        k <= y.len(),
        tpos(p),
        tpos(q),
        all_pos(a),
        all_pos(b),
        all_pos(c),
        all_pos(y),
        forall|j: int| 0 <= j < k ==> teq(#[trigger] c[j], tadd(tmul(p, a[j]), tmul(q, b[j]))),
    ensures
        teq(tsum(c, y, k), tadd(tmul(p, tsum(a, y, k)), tmul(q, tsum(b, y, k)))),
    decreases k,
{
    if k == 0 {
        assert(tsum(c, y, 0) == tzero_form());
        let z = tzero_form();
        lemma_tzero_ops(z, p);
        lemma_tzero_ops(z, q);
        lemma_tmul_comm(p, z);
        lemma_tmul_comm(q, z);
        lemma_pos(p, z);
        lemma_pos(q, z);
        let s = tadd(tmul(p, z), tmul(q, z));
        assert(s.0 == 0 && s.1 == 0);
        lemma_pos(tmul(p, z), tmul(q, z));
    } else {
        lemma_tsum_comb(p, q, a, b, c, y, k - 1);
        let sa = tsum(a, y, k - 1);
        let sb = tsum(b, y, k - 1);
        let sc = tsum(c, y, k - 1);
        lemma_tsum_pos(a, y, k - 1);
        lemma_tsum_pos(b, y, k - 1);
        lemma_tsum_pos(c, y, k - 1);
        let (aj, bj, cj, yj) = (a[k - 1], b[k - 1], c[k - 1], y[k - 1]);
        assert(tpos(aj) && tpos(bj) && tpos(cj) && tpos(yj));
        assert(teq(cj, tadd(tmul(p, aj), tmul(q, bj))));
        lemma_pos(p, aj);
        lemma_pos(q, bj);
        lemma_pos(tmul(p, aj), tmul(q, bj));
        lemma_tmul_cong(cj, tadd(tmul(p, aj), tmul(q, bj)), yj, yj);
        lemma_pos(p, sa);
        lemma_pos(q, sb);
        lemma_pos(tmul(p, sa), tmul(q, sb));
        lemma_tadd_cong(sc, tadd(tmul(p, sa), tmul(q, sb)), tmul(cj, yj), tmul(tadd(tmul(p, aj), tmul(q, bj)), yj));
        lemma_comb_step(p, q, sa, sb, aj, bj, yj);
        lemma_pos(cj, yj);
        lemma_pos(sc, tmul(cj, yj));
        lemma_pos(tadd(tmul(p, aj), tmul(q, bj)), yj);
        lemma_pos(tadd(tmul(p, sa), tmul(q, sb)), tmul(tadd(tmul(p, aj), tmul(q, bj)), yj));
        lemma_teq_trans(
            tsum(c, y, k),
            tadd(tadd(tmul(p, sa), tmul(q, sb)), tmul(tadd(tmul(p, aj), tmul(q, bj)), yj)),
            tadd(tmul(p, tsum(a, y, k)), tmul(q, tsum(b, y, k))),
        );
    }
}

} // verus!
