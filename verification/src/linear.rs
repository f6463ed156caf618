//! Systems of linear equations, solved by Gauss-Jordan elimination over
//! exact values, with a step trace.

use vstd::prelude::*;
use vstd::string::*;
use crate::complex::{CFrac, ceq, csub, cmul, cdiv, czero, cnz};
use crate::linalg::{
    tadd, tneg, tsum, tpos, all_pos, tzero_form, lemma_tsum_comb, lemma_tsum_pos, lemma_tsum_cong,
    lemma_pos, lemma_teq_zero, lemma_tzero_ops, lemma_tadd_cong, lemma_teq_refl,
};
use crate::power::{Tri, tri, teq, tmul, tone, tzero, cone, lemma_tri_recip, lemma_tri_ceq, lemma_tri_cmul, lemma_tri_den,
    lemma_teq_trans, lemma_teq_sym, lemma_tmul_cong, lemma_tmul_nonzero, lemma_tmul_one, lemma_tmul_comm};
use crate::rational::{qint, lemma_den_pos};
use crate::linalg::lemma_dist2;
use crate::value::{Value, czero_frac};
use crate::solve::Step;
use crate::eval::is_int;
use crate::rational::{Frac, abs, rat_text};
use crate::format::{format_value, value_text, complex_text, format_result, result_text};
use crate::text::{decimal_text, usize_text, has_char, str_eq};
use crate::number::int_text;

verus! {

/// The rows of a matrix as sequences.
pub open spec fn mat(rows: Seq<Vec<Value>>) -> Seq<Seq<Value>> {
    rows.map_values(|r: Vec<Value>| r@)
}

/// Every row has `n` coefficients and a right-hand side, all well formed.
pub open spec fn matrix_ok(m: Seq<Seq<Value>>, n: nat) -> bool {
    forall|i: int| 0 <= i < m.len() ==> #[trigger] m[i].len() == n + 1
        && forall|j: int| 0 <= j < m[i].len() ==> (#[trigger] m[i][j]).wf()
}

/// Values for `n` unknowns, with positive denominators.
pub open spec fn assignment(x: Seq<CFrac>, n: nat) -> bool {
    x.len() == n && forall|j: int| 0 <= j < x.len() ==> (#[trigger] x[j]).0.1 > 0 && x[j].1.1 > 0
}

/// The unknowns' values followed by `-1`, as common-denominator forms.
pub open spec fn ys(x: Seq<CFrac>) -> Seq<Tri> {
    x.map_values(|c: CFrac| tri(c)).push((-1, 0, 1))
}

pub open spec fn rowt(r: Seq<Value>) -> Seq<Tri> {
    r.map_values(|v: Value| tri(v.cval()))
}

/// `r[0]*x[0] + ... + r[n-1]*x[n-1] - r[n]`.
pub open spec fn residual(r: Seq<Value>, x: Seq<CFrac>) -> Tri {
    tsum(rowt(r), ys(x), r.len() as int)
}

/// The values satisfy every equation `r[0]*x[0] + ... = r[n]` of the matrix.
pub open spec fn satisfies(m: Seq<Seq<Value>>, x: Seq<CFrac>) -> bool {
    forall|i: int| 0 <= i < m.len() ==> tzero(#[trigger] residual(m[i], x))
}

proof fn lemma_rowt_pos(r: Seq<Value>)
    requires
        forall|j: int| 0 <= j < r.len() ==> (#[trigger] r[j]).wf(),
    ensures
        all_pos(rowt(r)),
        rowt(r).len() == r.len(),
{
    assert forall|j: int| 0 <= j < rowt(r).len() implies #[trigger] tpos(rowt(r)[j]) by {
        assert(r[j].wf());
        lemma_tri_den(r[j].cval());
    }
}

proof fn lemma_ys_pos(x: Seq<CFrac>, n: nat)
    requires
        assignment(x, n),
    ensures
        all_pos(ys(x)),
        ys(x).len() == n + 1,
{
    assert forall|j: int| 0 <= j < ys(x).len() implies #[trigger] tpos(ys(x)[j]) by {
        if j < n {
            lemma_tri_den(x[j]);
        }
    }
}

/// The common-denominator form of a difference.
proof fn lemma_tri_csub(a: CFrac, b: CFrac)
    requires
        a.0.1 > 0 && a.1.1 > 0 && b.0.1 > 0 && b.1.1 > 0,
    ensures
        teq(tri(csub(a, b)), tadd(tri(a), tneg(tri(b)))),
{
    let (p, q, r, s) = (a.0.0, a.0.1, a.1.0, a.1.1);
    let (e, f, g, h) = (b.0.0, b.0.1, b.1.0, b.1.1);
    let d = csub(a, b);
    let t = tri(d);
    let u = tadd(tri(a), tneg(tri(b)));
    assert(d == ((p * f - e * q, q * f), (r * h - g * s, s * h)));
    let aa = p * f - e * q;
    let bb = s * h;
    lemma_dist2(p * f, e * q, s * h);
    crate::linalg::lemma_regroup(p, s, f, h);
    crate::linalg::lemma_regroup(e, h, q, s);
    assert((p * s) * (f * h) == (p * f) * (s * h));
    assert((e * h) * (q * s) == (e * q) * (h * s));
    assert((e * q) * (h * s) == (e * q) * (s * h)) by (nonlinear_arith);
    assert((-(e * h)) * (q * s) == -((e * h) * (q * s))) by (nonlinear_arith);
    assert(u.0 == aa * bb);
    crate::linalg::lemma_regroup(q, s, f, h);
    assert((q * s) * (f * h) == (q * f) * (s * h));
    assert(t.0 == aa * bb);
    assert(t.0 * u.2 == u.0 * t.2);
    let cc = r * h - g * s;
    let dd = q * f;
    lemma_dist2(r * h, g * s, q * f);
    crate::linalg::lemma_regroup(r, q, f, h);
    crate::linalg::lemma_regroup(g, f, q, s);
    assert((r * q) * (f * h) == (r * h) * (q * f)) by (nonlinear_arith);
    assert((g * f) * (q * s) == (g * s) * (q * f)) by (nonlinear_arith);
    assert((-(g * f)) * (q * s) == -((g * f) * (q * s))) by (nonlinear_arith);
    assert(u.1 == cc * dd);
    assert(t.1 == cc * dd);
    assert(t.1 * u.2 == u.1 * t.2);
}

/// Equal common-denominator forms come from equal complex fractions.
pub proof fn lemma_tri_ceq_rev(x: CFrac, y: CFrac)
    requires
        x.0.1 > 0 && x.1.1 > 0 && y.0.1 > 0 && y.1.1 > 0,
        teq(tri(x), tri(y)),
    ensures
        ceq(x, y),
{
    let (a, b, c, d) = (x.0.0, x.0.1, x.1.0, x.1.1);
    let (e, f, g, h) = (y.0.0, y.0.1, y.1.0, y.1.1);
    crate::linalg::lemma_regroup(a, d, f, h);
    crate::linalg::lemma_regroup(e, h, b, d);
    assert((a * f) * (d * h) == (e * b) * (d * h)) by (nonlinear_arith)
        requires (a * d) * (f * h) == (e * h) * (b * d), (a * d) * (f * h) == (a * f) * (d * h),
            (e * h) * (b * d) == (e * b) * (h * d), {}
    lemma_den_pos(d, h);
    assert(a * f == e * b) by (nonlinear_arith)
        requires (a * f) * (d * h) == (e * b) * (d * h), d * h > 0, {}
    crate::linalg::lemma_regroup(c, b, f, h);
    crate::linalg::lemma_regroup(g, f, b, d);
    assert((c * h) * (b * f) == (g * d) * (b * f)) by (nonlinear_arith)
        requires (c * b) * (f * h) == (g * f) * (b * d), (c * b) * (f * h) == (c * h) * (b * f),
            (g * f) * (b * d) == (g * d) * (f * b), {}
    lemma_den_pos(b, f);
    assert(c * h == g * d) by (nonlinear_arith)
        requires (c * h) * (b * f) == (g * d) * (b * f), b * f > 0, {}
}

/// `t * (-1) == -t`.
proof fn lemma_tmul_minus_one(t: Tri)
    ensures
        tmul(t, (-1, 0, 1)) == tneg(t),
{
    assert(t.0 * -1 == -t.0 && t.1 * 0 == 0 && t.0 * 0 == 0 && t.1 * -1 == -t.1 && t.2 * 1 == t.2) by (nonlinear_arith);
}

/// `(-F) * B == -(F * B)`.
proof fn lemma_tmul_neg(f: Tri, b: Tri)
    ensures
        tmul(tneg(f), b) == tneg(tmul(f, b)),
{
    assert((-f.0) * b.0 == -(f.0 * b.0)) by (nonlinear_arith);
    assert((-f.1) * b.1 == -(f.1 * b.1)) by (nonlinear_arith);
    assert((-f.0) * b.1 == -(f.0 * b.1)) by (nonlinear_arith);
    assert((-f.1) * b.0 == -(f.1 * b.0)) by (nonlinear_arith);
}

proof fn lemma_teq_neg(t: Tri, u: Tri)
    requires
        teq(t, u),
    ensures
        teq(tneg(t), tneg(u)),
{
    assert((-t.0) * u.2 == -(t.0 * u.2)) by (nonlinear_arith);
    assert((-u.0) * t.2 == -(u.0 * t.2)) by (nonlinear_arith);
    assert((-t.1) * u.2 == -(t.1 * u.2)) by (nonlinear_arith);
    assert((-u.1) * t.2 == -(u.1 * t.2)) by (nonlinear_arith);
}

/// `Y - V` is zero exactly when `Y == V`.
proof fn lemma_tsub_zero(y: Tri, v: Tri)
    ensures
        tzero(tadd(y, tneg(v))) == teq(y, v),
{
    assert((-v.0) * y.2 == -(v.0 * y.2)) by (nonlinear_arith);
    assert((-v.1) * y.2 == -(v.1 * y.2)) by (nonlinear_arith);
}

/// A sum whose terms vanish except perhaps the `i`-th.
proof fn lemma_tsum_sparse(c: Seq<Tri>, y: Seq<Tri>, k: int, i: int)
    requires
        0 <= k <= c.len(),
        k <= y.len(),
        all_pos(c),
        all_pos(y),
        forall|j: int| 0 <= j < k && j != i ==> tzero(#[trigger] c[j]),
    ensures
        teq(tsum(c, y, k), if 0 <= i < k { tmul(c[i], y[i]) } else { tzero_form() }),
    decreases k,
{
    if k > 0 {
        lemma_tsum_sparse(c, y, k - 1, i);
        lemma_tsum_pos(c, y, k - 1);
        let s = tsum(c, y, k - 1);
        let last = tmul(c[k - 1], y[k - 1]);
        assert(tpos(c[k - 1]) && tpos(y[k - 1]));
        lemma_pos(c[k - 1], y[k - 1]);
        let target = if 0 <= i < k - 1 { tmul(c[i], y[i]) } else { tzero_form() };
        if 0 <= i < k - 1 {
            assert(tpos(c[i]) && tpos(y[i]));
            lemma_pos(c[i], y[i]);
        }
        if k - 1 == i {
            // s is zero; s + last == last
            lemma_teq_zero(s, tzero_form());
            lemma_tzero_ops(s, last);
            crate::linalg::lemma_tadd_comm(s, last);
        } else {
            assert(tzero(c[k - 1]));
            lemma_tmul_comm(c[k - 1], y[k - 1]);
            lemma_tzero_ops(c[k - 1], y[k - 1]);
            lemma_tzero_ops(last, s);
            lemma_pos(s, last);
            lemma_teq_trans(tadd(s, last), s, target);
        }
    }
}

/// The residual of a row is its coefficient sum minus its right-hand side.
proof fn lemma_residual_split(r: Seq<Value>, x: Seq<CFrac>, n: nat)
    requires
        r.len() == n + 1,
        forall|j: int| 0 <= j < r.len() ==> (#[trigger] r[j]).wf(),
        assignment(x, n),
    ensures
        residual(r, x) == tadd(tsum(rowt(r), ys(x), n as int), tneg(tri(r[n as int].cval()))),
{
    lemma_tmul_minus_one(tri(r[n as int].cval()));
    assert(ys(x)[n as int] == (-1int, 0int, 1int));
    assert(rowt(r)[n as int] == tri(r[n as int].cval()));
}

/// A row whose coefficients all vanish holds exactly when its right-hand side does.
proof fn lemma_zero_row(r: Seq<Value>, x: Seq<CFrac>, n: nat)
    requires
        r.len() == n + 1,
        forall|j: int| 0 <= j < r.len() ==> (#[trigger] r[j]).wf(),
        forall|j: int| 0 <= j < n ==> czero(#[trigger] r[j].cval()),
        assignment(x, n),
    ensures
        tzero(residual(r, x)) == czero(r[n as int].cval()),
{
    lemma_rowt_pos(r);
    lemma_ys_pos(x, n);
    assert forall|j: int| 0 <= j < n && j != -1 implies tzero(#[trigger] rowt(r)[j]) by {
        assert(czero(r[j].cval()));
    }
    lemma_tsum_sparse(rowt(r), ys(x), n as int, -1);
    lemma_residual_split(r, x, n);
    let s = tsum(rowt(r), ys(x), n as int);
    lemma_tsum_pos(rowt(r), ys(x), n as int);
    let v = tri(r[n as int].cval());
    lemma_tri_den(r[n as int].cval());
    lemma_teq_zero(s, tzero_form());
    crate::linalg::lemma_tadd_comm(s, tneg(v));
    lemma_tzero_ops(s, tneg(v));
    lemma_pos(s, tneg(v));
    lemma_teq_zero(tadd(s, tneg(v)), tneg(v));
    crate::power::lemma_tzero(r[n as int].cval(), v);
}

/// A row with `1` in column `i`, `0` in the other coefficient columns and
/// right-hand side `v` holds exactly when `x[i] == v`.
proof fn lemma_unit_row(r: Seq<Value>, x: Seq<CFrac>, n: nat, i: int)
    requires
        r.len() == n + 1,
        0 <= i < n,
        forall|j: int| 0 <= j < r.len() ==> (#[trigger] r[j]).wf(),
        forall|j: int| 0 <= j < n && j != i ==> czero(#[trigger] r[j].cval()),
        ceq(r[i].cval(), (qint(1), czero_frac())),
        assignment(x, n),
    ensures
        tzero(residual(r, x)) == ceq(x[i], r[n as int].cval()),
{
    lemma_rowt_pos(r);
    lemma_ys_pos(x, n);
    assert forall|j: int| 0 <= j < n && j != i implies tzero(#[trigger] rowt(r)[j]) by {
        assert(czero(r[j].cval()));
    }
    lemma_tsum_sparse(rowt(r), ys(x), n as int, i);
    lemma_residual_split(r, x, n);
    let s = tsum(rowt(r), ys(x), n as int);
    lemma_tsum_pos(rowt(r), ys(x), n as int);
    let v = tri(r[n as int].cval());
    let yi = tri(x[i]);
    assert(ys(x)[i] == yi);
    lemma_tri_den(r[n as int].cval());
    lemma_tri_den(x[i]);
    lemma_tri_ceq(r[i].cval(), (qint(1), czero_frac()));
    assert(tri((qint(1), czero_frac())) == tone());
    lemma_tmul_cong(rowt(r)[i], tone(), yi, yi);
    lemma_tmul_one(yi);
    assert(tpos(rowt(r)[i]));
    lemma_pos(rowt(r)[i], yi);
    lemma_teq_trans(s, tmul(rowt(r)[i], yi), yi);
    lemma_teq_refl(tneg(v));
    lemma_tadd_cong(s, yi, tneg(v), tneg(v));
    lemma_pos(s, tneg(v));
    lemma_pos(yi, tneg(v));
    lemma_teq_zero(tadd(s, tneg(v)), tadd(yi, tneg(v)));
    lemma_tsub_zero(yi, v);
    if teq(yi, v) {
        lemma_tri_ceq_rev(x[i], r[n as int].cval());
    }
    if ceq(x[i], r[n as int].cval()) {
        lemma_tri_ceq(x[i], r[n as int].cval());
    }
}

/// Replacing row `i` by `row i - f * row p` (with `i != p`) keeps the
/// solutions: entry by entry `c == a - f*b`.
proof fn lemma_elim_row(a: Seq<Value>, b: Seq<Value>, c: Seq<Value>, f: CFrac, x: Seq<CFrac>, n: nat)
    requires
        a.len() == n + 1,
        b.len() == n + 1,
        c.len() == n + 1,
        forall|j: int| 0 <= j < a.len() ==> (#[trigger] a[j]).wf(),
        forall|j: int| 0 <= j < b.len() ==> (#[trigger] b[j]).wf(),
        forall|j: int| 0 <= j < c.len() ==> (#[trigger] c[j]).wf(),
        f.0.1 > 0 && f.1.1 > 0,
        forall|j: int| 0 <= j <= n ==> ceq(#[trigger] c[j].cval(), csub(a[j].cval(), cmul(f, b[j].cval()))),
        assignment(x, n),
        tzero(residual(b, x)),
    ensures
        tzero(residual(c, x)) == tzero(residual(a, x)),
{
    let (ra, rb, rc, y) = (rowt(a), rowt(b), rowt(c), ys(x));
    lemma_rowt_pos(a);
    lemma_rowt_pos(b);
    lemma_rowt_pos(c);
    lemma_ys_pos(x, n);
    let ff = tri(f);
    lemma_tri_den(f);
    let q = tneg(ff);
    assert forall|j: int| 0 <= j < n + 1 implies teq(#[trigger] rc[j], tadd(tmul(tone(), ra[j]), tmul(q, rb[j]))) by {
        let (av, bv, cv) = (a[j].cval(), b[j].cval(), c[j].cval());
        assert(a[j].wf() && b[j].wf() && c[j].wf());
        crate::complex::lemma_cmul_den(f, bv);
        lemma_tri_ceq(cv, csub(av, cmul(f, bv)));
        lemma_tri_csub(av, cmul(f, bv));
        lemma_tri_cmul(f, bv);
        lemma_tri_den(av);
        lemma_tri_den(bv);
        lemma_tri_den(cmul(f, bv));
        crate::complex::lemma_cmul_den(av, cmul(f, bv));
        lemma_tri_den(csub(av, cmul(f, bv)));
        let fb = tri(cmul(f, bv));
        let fb2 = tmul(ff, tri(bv));
        lemma_teq_neg(fb, fb2);
        lemma_teq_refl(tri(av));
        lemma_pos(ff, tri(bv));
        lemma_tadd_cong(tri(av), tri(av), tneg(fb), tneg(fb2));
        lemma_pos(tri(av), tneg(fb));
        lemma_teq_trans(tri(cv), tri(csub(av, cmul(f, bv))), tadd(tri(av), tneg(fb)));
        lemma_teq_trans(tri(cv), tadd(tri(av), tneg(fb)), tadd(tri(av), tneg(fb2)));
        lemma_tmul_one(tri(av));
        lemma_tmul_neg(ff, tri(bv));
    }
    lemma_tsum_comb(tone(), q, ra, rb, rc, y, (n + 1) as int);
    let sa = tsum(ra, y, (n + 1) as int);
    let sb = tsum(rb, y, (n + 1) as int);
    lemma_tsum_pos(ra, y, (n + 1) as int);
    lemma_tsum_pos(rb, y, (n + 1) as int);
    lemma_tsum_pos(rc, y, (n + 1) as int);
    lemma_tmul_one(sa);
    lemma_tzero_ops(sb, q);
    lemma_pos(q, sb);
    lemma_tzero_ops(tmul(q, sb), sa);
    lemma_pos(sa, tmul(q, sb));
    lemma_teq_trans(tsum(rc, y, (n + 1) as int), tadd(sa, tmul(q, sb)), sa);
    lemma_teq_zero(tsum(rc, y, (n + 1) as int), sa);
}

/// Scaling a row by a nonzero `k` keeps its solutions: entry by entry `c == a*k`.
proof fn lemma_scale_row(a: Seq<Value>, c: Seq<Value>, k: CFrac, x: Seq<CFrac>, n: nat)
    requires
        a.len() == n + 1,
        c.len() == n + 1,
        forall|j: int| 0 <= j < a.len() ==> (#[trigger] a[j]).wf(),
        forall|j: int| 0 <= j < c.len() ==> (#[trigger] c[j]).wf(),
        k.0.1 > 0 && k.1.1 > 0,
        !czero(k),
        forall|j: int| 0 <= j <= n ==> ceq(#[trigger] c[j].cval(), cmul(a[j].cval(), k)),
        assignment(x, n),
    ensures
        tzero(residual(c, x)) == tzero(residual(a, x)),
{
    let (ra, rc, y) = (rowt(a), rowt(c), ys(x));
    lemma_rowt_pos(a);
    lemma_rowt_pos(c);
    lemma_ys_pos(x, n);
    let kk = tri(k);
    lemma_tri_den(k);
    let z = tzero_form();
    assert forall|j: int| 0 <= j < n + 1 implies teq(#[trigger] rc[j], tadd(tmul(kk, ra[j]), tmul(z, ra[j]))) by {
        let (av, cv) = (a[j].cval(), c[j].cval());
        assert(a[j].wf() && c[j].wf());
        lemma_tri_den(av);
        lemma_tri_den(cv);
        crate::complex::lemma_cmul_den(av, k);
        lemma_tri_ceq(cv, cmul(av, k));
        lemma_tri_cmul(av, k);
        lemma_tri_den(cmul(av, k));
        lemma_tmul_comm(tri(av), kk);
        lemma_teq_trans(tri(cv), tri(cmul(av, k)), tmul(kk, tri(av)));
        lemma_pos(kk, tri(av));
        lemma_tmul_comm(z, tri(av));
        lemma_tzero_ops(z, tri(av));
        lemma_pos(tri(av), z);
        lemma_tzero_ops(tmul(z, tri(av)), tmul(kk, tri(av)));
        lemma_pos(tmul(kk, tri(av)), tmul(z, tri(av)));
        lemma_teq_sym(tadd(tmul(kk, tri(av)), tmul(z, tri(av))), tmul(kk, tri(av)));
        lemma_teq_trans(tri(cv), tmul(kk, tri(av)), tadd(tmul(kk, tri(av)), tmul(z, tri(av))));
    }
    lemma_tsum_comb(kk, z, ra, ra, rc, y, (n + 1) as int);
    let sa = tsum(ra, y, (n + 1) as int);
    lemma_tsum_pos(ra, y, (n + 1) as int);
    lemma_tsum_pos(rc, y, (n + 1) as int);
    lemma_pos(kk, sa);
    lemma_tmul_comm(z, sa);
    lemma_tzero_ops(z, sa);
    lemma_pos(z, sa);
    lemma_tzero_ops(tmul(z, sa), tmul(kk, sa));
    lemma_pos(tmul(kk, sa), tmul(z, sa));
    lemma_teq_trans(tsum(rc, y, (n + 1) as int), tadd(tmul(kk, sa), tmul(z, sa)), tmul(kk, sa));
    lemma_teq_zero(tsum(rc, y, (n + 1) as int), tmul(kk, sa));
    assert(!tzero(kk)) by {
        crate::power::lemma_tzero(k, kk);
    }
    if !tzero(sa) {
        lemma_tmul_nonzero(kk, sa);
    } else {
        lemma_tmul_comm(kk, sa);
        lemma_tzero_ops(sa, kk);
    }
}

/// A term's sign and body: `3/4`, `2x`, `x`, `(1/2)x`, `(1 + i)x`.
pub open spec fn term_text(c: Value, var: Option<Seq<char>>) -> (bool, Seq<char>) {
    match c {
        Value::Rational(r) => {
            let mag: Frac = (abs(r@.0) as int, r@.1);
            let m = rat_text(mag);
            (r@.0 < 0, match var {
                None => m,
                Some(v) => if mag == (1int, 1int) { v } else if r@.1 == 1 { m + v } else { "("@ + m + ")"@ + v },
            })
        },
        Value::ExactComplex(z) => {
            let m = "("@ + complex_text(z@) + ")"@;
            (false, match var {
                None => m,
                Some(v) => m + v,
            })
        },
    }
}

fn term(c: &Value, var: Option<&str>) -> (r: (bool, String))
    requires
        c.wf(),
    ensures
        (r.0, r.1@) == term_text(*c, match var { Some(v) => Some(v@), None => None }),
{
    match c {
        Value::Rational(q) => {
            let mag = q.abs();
            let m = mag.to_text();
            let body = match var {
                None => m,
                Some(v) => {
                    if mag.num.is_one() && mag.den.is_one() {
                        String::from_str(v)
                    } else if q.den.is_one() {
                        let mut s = m;
                        s.append(v);
                        s
                    } else {
                        let mut s = String::from_str("(");
                        s.append(m.as_str());
                        s.append(")");
                        s.append(v);
                        s
                    }
                },
            };
            (q.is_negative(), body)
        },
        Value::ExactComplex(_) => {
            let mut s = String::from_str("(");
            let t = format_value(c);
            s.append(t.as_str());
            s.append(")");
            match var {
                Some(v) => s.append(v),
                None => {},
            }
            (false, s)
        },
    }
}

/// `out` with one more signed term.
pub open spec fn pushed(out: Seq<char>, t: (bool, Seq<char>)) -> Seq<char> {
    if out.len() == 0 {
        (if t.0 { "-"@ } else { seq![] }) + t.1
    } else {
        out + (if t.0 { " - "@ } else { " + "@ }) + t.1
    }
}

fn push_term(out: &mut String, negative: bool, body: &str)
    ensures
        final(out)@ == pushed(old(out)@, (negative, body@)),
{
    if out.unicode_len() == 0 {
        if negative {
            out.append("-");
        }
    } else {
        out.append(if negative { " - " } else { " + " });
    }
    out.append(body);
    proof {
        if old(out)@.len() == 0 && !negative {
            assert(seq![] + body@ =~= body@);
        }
    }
}

/// The nonzero terms `coeffs[k..]` after the text `acc`.
pub open spec fn combo_from(names: Seq<Seq<char>>, coeffs: Seq<Value>, k: int, acc: Seq<char>) -> Seq<char>
    decreases coeffs.len() - k,
{
    if k < 0 || k >= coeffs.len() {
        acc
    } else {
        combo_from(names, coeffs, k + 1, if czero(coeffs[k].cval()) {
            acc
        } else {
            pushed(acc, term_text(coeffs[k], Some(names[k])))
        })
    }
}

/// The text a constant term starts with: nothing for zero.
pub open spec fn const_start(c: Value) -> Seq<char> {
    if czero(c.cval()) { seq![] } else { pushed(seq![], term_text(c, None)) }
}

/// More terms only lengthen a text that has begun.
proof fn lemma_combo_keeps_prefix(names: Seq<Seq<char>>, coeffs: Seq<Value>, k: int, acc: Seq<char>)
    requires
        acc.len() > 0,
    ensures
        acc.is_prefix_of(combo_from(names, coeffs, k, acc)),
    decreases coeffs.len() - k,
{
    if 0 <= k < coeffs.len() {
        let next = if czero(coeffs[k].cval()) { acc } else { pushed(acc, term_text(coeffs[k], Some(names[k]))) };
        assert(acc.is_prefix_of(next)) by {
            if !czero(coeffs[k].cval()) {
                let t = term_text(coeffs[k], Some(names[k]));
                assert(next == acc + ((if t.0 { " - "@ } else { " + "@ }) + t.1));
            }
        }
        lemma_combo_keeps_prefix(names, coeffs, k + 1, next);
    }
}

/// Collected terms begin with the constant written as that number is: the
/// constant −5 gives `-5 + x`, so a negative constant keeps its minus sign
/// (a complex constant stands in parentheses).
pub proof fn law_combo_starts_with_constant(names: Seq<Seq<char>>, coeffs: Seq<Value>, c: Value)
    requires
        c.wf(),
        !czero(c.cval()),
    ensures
        c is Rational ==> value_text(c).is_prefix_of(combo_text(names, coeffs, const_start(c))),
        c is ExactComplex ==> ("("@ + value_text(c) + ")"@).is_prefix_of(combo_text(names, coeffs, const_start(c))),
{
    reveal_strlit("-");
    let start = const_start(c);
    match c {
        Value::Rational(r) => {
            let n = r@.0;
            let tail = if r@.1 == 1 { seq![] } else { seq!['/'] + int_text(r@.1) };
            assert(rat_text(r@) =~= int_text(n) + tail);
            assert(rat_text((abs(n) as int, r@.1)) =~= int_text(abs(n) as int) + tail);
            if n < 0 {
                assert(start =~= "-"@ + rat_text((abs(n) as int, r@.1)));
                assert(start =~= rat_text(r@));
            } else {
                assert(start =~= rat_text(r@));
            }
        },
        Value::ExactComplex(z) => {
            assert(start =~= "("@ + complex_text(z@) + ")"@);
        },
    }
    assert(start.len() > 0) by {
        reveal_strlit("(");
        reveal_strlit(")");
        match c {
            Value::Rational(r) => {
                let n = r@.0;
                assert(decimal_text(abs(n)).len() > 0);
                assert(int_text(n).len() > 0);
            },
            _ => {},
        }
    }
    lemma_combo_keeps_prefix(names, coeffs, 0, start);
}

/// The text has a minus sign somewhere.
pub open spec fn has_minus(s: Seq<char>) -> bool {
    exists|i: int| 0 <= i < s.len() && s[i] == '-'
}

proof fn lemma_minus_concat(a: Seq<char>, b: Seq<char>)
    ensures
        has_minus(a + b) == (has_minus(a) || has_minus(b)),
{
    let ab = a + b;
    if has_minus(ab) {
        let i = choose|i: int| 0 <= i < ab.len() && ab[i] == '-';
        if i < a.len() {
            assert(a[i] == '-');
        } else {
            assert(b[i - a.len()] == '-');
        }
    }
    if has_minus(a) {
        let i = choose|i: int| 0 <= i < a.len() && a[i] == '-';
        assert(ab[i] == '-');
    }
    if has_minus(b) {
        let i = choose|i: int| 0 <= i < b.len() && b[i] == '-';
        assert(ab[a.len() + i] == '-');
    }
}

proof fn lemma_decimal_no_minus(n: nat)
    ensures
        !has_minus(decimal_text(n)),
    decreases n,
{
    if n >= 10 {
        lemma_decimal_no_minus(n / 10);
        let d = decimal_text(n / 10);
        assert(decimal_text(n) =~= d + seq![crate::text::digit_char(n % 10)]);
        lemma_minus_concat(d, seq![crate::text::digit_char(n % 10)]);
    }
}

/// A fraction's text has a minus sign exactly when the fraction is negative.
proof fn lemma_rat_minus(x: Frac)
    requires
        x.1 > 0,
    ensures
        has_minus(rat_text(x)) == (x.0 < 0),
{
    let n = x.0;
    lemma_decimal_no_minus(abs(n));
    lemma_decimal_no_minus(x.1 as nat);
    if n < 0 {
        lemma_minus_concat(seq!['-'], decimal_text(abs(n)));
        assert(seq!['-'][0] == '-');
    }
    assert(int_text(x.1) == decimal_text(x.1 as nat));
    if x.1 != 1 {
        lemma_minus_concat(int_text(n), seq!['/']);
        lemma_minus_concat(int_text(n) + seq!['/'], int_text(x.1));
    }
}

/// A term with a rational coefficient: its sign is the coefficient's, and
/// its body has no minus sign when the unknown's name has none.
proof fn lemma_term_minus(c: Value, var: Option<Seq<char>>)
    requires
        c is Rational,
        c.wf(),
        var matches Some(v) ==> !has_minus(v),
    ensures
        term_text(c, var).0 == (c.cval().0.0 < 0),
        !has_minus(term_text(c, var).1),
{
    reveal_strlit("(");
    reveal_strlit(")");
    let r = c->Rational_0;
    let mag: Frac = (abs(r@.0) as int, r@.1);
    let m = rat_text(mag);
    lemma_rat_minus(mag);
    match var {
        Some(v) => {
            lemma_minus_concat(m, v);
            lemma_minus_concat("("@, m);
            lemma_minus_concat("("@ + m, ")"@);
            lemma_minus_concat("("@ + m + ")"@, v);
        },
        None => {},
    }
}

/// `pushed` adds a minus sign exactly for a negative term.
proof fn lemma_pushed_minus(out: Seq<char>, t: (bool, Seq<char>))
    requires
        !has_minus(t.1),
    ensures
        has_minus(pushed(out, t)) == (has_minus(out) || t.0),
{
    reveal_strlit(" - ");
    reveal_strlit(" + ");
    reveal_strlit("-");
    assert(!has_minus(seq![]));
    assert(has_minus("-"@)) by { assert("-"@[0] == '-'); }
    assert(has_minus(" - "@)) by { assert(" - "@[1] == '-'); }
    assert(!has_minus(" + "@));
    if out.len() == 0 {
        let sign = if t.0 { "-"@ } else { seq![] };
        lemma_minus_concat(sign, t.1);
    } else {
        let sign = if t.0 { " - "@ } else { " + "@ };
        lemma_minus_concat(out, sign);
        lemma_minus_concat(out + sign, t.1);
    }
}

proof fn lemma_combo_minus(names: Seq<Seq<char>>, coeffs: Seq<Value>, k: int, acc: Seq<char>)
    requires
        0 <= k <= coeffs.len(),
        names.len() == coeffs.len(),
        forall|j: int| 0 <= j < coeffs.len() ==> (#[trigger] coeffs[j]) is Rational && coeffs[j].wf(),
        forall|j: int| 0 <= j < names.len() ==> !has_minus(#[trigger] names[j]),
    ensures
        has_minus(combo_from(names, coeffs, k, acc))
            == (has_minus(acc) || exists|j: int| k <= j < coeffs.len() && (#[trigger] coeffs[j]).cval().0.0 < 0),
    decreases coeffs.len() - k,
{
    if k < coeffs.len() {
        let next = if czero(coeffs[k].cval()) { acc } else { pushed(acc, term_text(coeffs[k], Some(names[k]))) };
        if !czero(coeffs[k].cval()) {
            lemma_term_minus(coeffs[k], Some(names[k]));
            lemma_pushed_minus(acc, term_text(coeffs[k], Some(names[k])));
        }
        lemma_combo_minus(names, coeffs, k + 1, next);
        if exists|j: int| k <= j < coeffs.len() && (#[trigger] coeffs[j]).cval().0.0 < 0 {
            let j = choose|j: int| k <= j < coeffs.len() && (#[trigger] coeffs[j]).cval().0.0 < 0;
            if j > k {
                assert(k + 1 <= j < coeffs.len() && coeffs[j].cval().0.0 < 0);
            }
        }
    }
}

/// The collected text of a form with rational coefficients has a minus sign
/// exactly when the constant or some coefficient is negative (the names of
/// the unknowns having none): no negative term loses its sign, and no
/// positive one gains one.
pub proof fn law_combo_minus_iff_negative(names: Seq<Seq<char>>, coeffs: Seq<Value>, c: Value)
    requires
        names.len() == coeffs.len(),
        forall|j: int| 0 <= j < coeffs.len() ==> (#[trigger] coeffs[j]) is Rational && coeffs[j].wf(),
        forall|j: int| 0 <= j < names.len() ==> !has_minus(#[trigger] names[j]),
        c is Rational,
        c.wf(),
    ensures
        has_minus(combo_text(names, coeffs, const_start(c)))
            == (c.cval().0.0 < 0 || exists|j: int| 0 <= j < coeffs.len() && (#[trigger] coeffs[j]).cval().0.0 < 0),
{
    reveal_strlit("0");
    let start = const_start(c);
    if czero(c.cval()) {
        assert(!has_minus(start));
    } else {
        lemma_term_minus(c, None);
        lemma_pushed_minus(seq![], term_text(c, None));
    }
    lemma_combo_minus(names, coeffs, 0, start);
    let out = combo_from(names, coeffs, 0, start);
    if out.len() == 0 {
        assert(!has_minus("0"@));
    }
}

/// `constant + c₁·v₁ + c₂·v₂ + …` with zero terms left out; `0` when all are.
pub open spec fn combo_text(names: Seq<Seq<char>>, coeffs: Seq<Value>, start: Seq<char>) -> Seq<char> {
    let out = combo_from(names, coeffs, 0, start);
    if out.len() == 0 { "0"@ } else { out }
}

pub(crate) fn fmt_combo(names: &[String], coeffs: &[Value], constant: &Value) -> (r: String)
    requires
        names@.len() == coeffs@.len(),
        constant.wf(),
        forall|k: int| 0 <= k < coeffs@.len() ==> (#[trigger] coeffs@[k]).wf(),
    ensures
        r@ == combo_text(names@.map_values(|s: String| s@), coeffs@, const_start(*constant)),
{
    let ghost nv = names@.map_values(|s: String| s@);
    let mut out = String::new();
    if !constant.is_zero() {
        let (neg, body) = term(constant, None);
        push_term(&mut out, neg, body.as_str());
    }
    let ghost start = out@;
    let mut k: usize = 0;
    while k < coeffs.len()
        invariant
            k <= coeffs@.len(),
            names@.len() == coeffs@.len(),
            nv == names@.map_values(|s: String| s@),
            forall|j: int| 0 <= j < coeffs@.len() ==> (#[trigger] coeffs@[j]).wf(),
            combo_from(nv, coeffs@, k as int, out@) == combo_from(nv, coeffs@, 0, start),
        decreases coeffs@.len() - k,
    {
        if !coeffs[k].is_zero() {
            let (neg, body) = term(&coeffs[k], Some(names[k].as_str()));
            push_term(&mut out, neg, body.as_str());
        }
        k = k + 1;
    }
    if out.unicode_len() == 0 {
        out.append("0");
        assert(out@ =~= "0"@);
    }
    out
}

/// `R3`: a row's name, counting from 1.
pub open spec fn row_name(i: nat) -> Seq<char> {
    "R"@ + decimal_text(i + 1)
}

fn row_label(i: usize) -> (r: String)
    requires
        i < usize::MAX,
    ensures
        r@ == row_name(i as nat),
{
    let mut s = String::from_str("R");
    let t = usize_text(i + 1);
    s.append(t.as_str());
    s
}

/// A value in parentheses when its text has '/', ' ' or '-'.
pub open spec fn paren_text(v: Value) -> Seq<char> {
    let s = value_text(v);
    if s.contains('/') || s.contains(' ') || s.contains('-') { "("@ + s + ")"@ } else { s }
}

fn paren(v: &Value) -> (r: String)
    requires
        v.wf(),
    ensures
        r@ == paren_text(*v),
{
    let s = format_value(v);
    if has_char(s.as_str(), '/') || has_char(s.as_str(), ' ') || has_char(s.as_str(), '-') {
        let mut p = String::from_str("(");
        p.append(s.as_str());
        p.append(")");
        p
    } else {
        s
    }
}

/// `R2 ← R2 - 3·R1`
pub open spec fn elim_text(target: nat, pivot: nat, factor: Value) -> Seq<char> {
    let (negative, mag) = term_text(factor, None);
    let scaled = if mag == "1"@ { row_name(pivot) } else { mag + "·"@ + row_name(pivot) };
    row_name(target) + " ← "@ + row_name(target) + (if negative { " + "@ } else { " - "@ }) + scaled
}

fn elim_op(target: usize, pivot: usize, factor: &Value) -> (r: String)
    requires
        target < usize::MAX,
        pivot < usize::MAX,
        factor.wf(),
    ensures
        r@ == elim_text(target as nat, pivot as nat, *factor),
{
    let (negative, mag) = term(factor, None);
    let scaled = if str_eq(mag.as_str(), "1") {
        row_label(pivot)
    } else {
        let mut s = mag;
        s.append("·");
        let l = row_label(pivot);
        s.append(l.as_str());
        s
    };
    let mut out = row_label(target);
    out.append(" ← ");
    let l = row_label(target);
    out.append(l.as_str());
    out.append(if negative { " + " } else { " - " });
    out.append(scaled.as_str());
    out
}

/// One line per row: `2x + y = 3`.
pub open spec fn row_text(row: Seq<Value>, vars: Seq<Seq<char>>) -> Seq<char> {
    let n = vars.len() as int;
    combo_text(vars, row.subrange(0, n), seq![]) + " = "@ + value_text(row[n])
}

/// `p * (1/p) == 1` for a nonzero `p`.
proof fn lemma_pivot_one(pv: CFrac, inv: CFrac)
    requires
        pv.0.1 > 0 && pv.1.1 > 0 && inv.0.1 > 0 && inv.1.1 > 0,
        !czero(pv),
        ceq(inv, cdiv(cone(), pv)),
    ensures
        ceq(cone(), cmul(pv, inv)),
{
    let d = cdiv(cone(), pv);
    crate::complex::lemma_norm_sqr_nonzero(pv);
    lemma_tri_den(pv);
    lemma_tri_den(inv);
    crate::complex::lemma_cmul_den(pv, inv);
    lemma_tri_recip(pv);
    lemma_tri_ceq(inv, d);
    lemma_tri_cmul(pv, inv);
    lemma_tmul_comm(tri(pv), tri(inv));
    lemma_tmul_comm(tri(d), tri(pv));
    assert(tri(d).2 != 0) by {
        let n = crate::complex::cnorm_sqr(pv);
        assert(n.0 > 0 && n.1 > 0);
        lemma_den_pos(pv.0.1, pv.1.1);
        assert(d.0.1 == (pv.0.1 * pv.1.1) * n.0 || d.0.1 != 0) by (nonlinear_arith)
            requires d.0.1 == crate::rational::qadd(crate::rational::qmul((1, 1), pv.0), crate::rational::qmul((0, 1), pv.1)).1 * n.0,
                pv.0.1 > 0, pv.1.1 > 0, n.0 > 0, {}
        assert(d.0.1 != 0) by (nonlinear_arith)
            requires d.0.1 == crate::rational::qadd(crate::rational::qmul((1, 1), pv.0), crate::rational::qmul((0, 1), pv.1)).1 * n.0,
                pv.0.1 > 0, pv.1.1 > 0, n.0 > 0, {}
        assert(d.1.1 != 0) by (nonlinear_arith)
            requires d.1.1 == crate::rational::qsub(crate::rational::qmul((0, 1), pv.0), crate::rational::qmul((1, 1), pv.1)).1 * n.0,
                pv.0.1 > 0, pv.1.1 > 0, n.0 > 0, {}
        assert(tri(d).2 == d.0.1 * d.1.1);
        assert(d.0.1 * d.1.1 != 0) by (nonlinear_arith) requires d.0.1 != 0, d.1.1 != 0, {}
    }
    lemma_tmul_cong(tri(pv), tri(pv), tri(inv), tri(d));
    lemma_pos(tri(pv), tri(inv));
    lemma_teq_trans(tri(cmul(pv, inv)), tmul(tri(pv), tri(inv)), tmul(tri(pv), tri(d)));
    assert(tmul(tri(pv), tri(d)).2 != 0) by (nonlinear_arith)
        requires tmul(tri(pv), tri(d)).2 == tri(pv).2 * tri(d).2, tri(pv).2 > 0, tri(d).2 != 0, {}
    lemma_teq_trans(tri(cmul(pv, inv)), tmul(tri(pv), tri(d)), tone());
    assert(tri(cone()) == tone());
    lemma_tri_den(cmul(pv, inv));
    lemma_teq_sym(tri(cmul(pv, inv)), tone());
    lemma_tri_ceq_rev(cone(), cmul(pv, inv));
}

/// `f - f*b == 0` when `b == 1`.
proof fn lemma_elim_zero(f: CFrac, b: CFrac)
    requires
        f.0.1 > 0 && f.1.1 > 0 && b.0.1 > 0 && b.1.1 > 0,
        ceq(b, cone()),
    ensures
        ceq((qint(0), czero_frac()), csub(f, cmul(f, b))),
{
    crate::complex::lemma_cmul_den(f, b);
    crate::complex::lemma_cmul_den(f, cmul(f, b));
    let d = csub(f, cmul(f, b));
    lemma_tri_csub(f, cmul(f, b));
    lemma_tri_cmul(f, b);
    lemma_tri_ceq(b, cone());
    assert(tri(cone()) == tone());
    lemma_tri_den(f);
    lemma_tri_den(b);
    lemma_teq_refl(tri(f));
    lemma_tmul_cong(tri(f), tri(f), tri(b), tone());
    lemma_tmul_one(tri(f));
    lemma_tri_den(cmul(f, b));
    lemma_pos(tri(f), tri(b));
    lemma_teq_trans(tri(cmul(f, b)), tmul(tri(f), tri(b)), tri(f));
    lemma_teq_neg(tri(cmul(f, b)), tri(f));
    lemma_tadd_cong(tri(f), tri(f), tneg(tri(cmul(f, b))), tneg(tri(f)));
    lemma_tri_den(d);
    lemma_pos(tri(f), tneg(tri(cmul(f, b))));
    lemma_teq_trans(tri(d), tadd(tri(f), tneg(tri(cmul(f, b)))), tadd(tri(f), tneg(tri(f))));
    lemma_tsub_zero(tri(f), tri(f));
    lemma_pos(tri(f), tneg(tri(f)));
    lemma_teq_zero(tri(d), tadd(tri(f), tneg(tri(f))));
    crate::power::lemma_tzero(d, tri(d));
}

/// A product with a zero factor is zero; a difference with a zero product is the first term.
proof fn lemma_zero_factor(c: CFrac, a: CFrac, k: CFrac)
    requires
        c.0.1 > 0 && c.1.1 > 0 && a.0.1 > 0 && a.1.1 > 0 && k.0.1 > 0 && k.1.1 > 0,
        czero(a),
        ceq(c, cmul(a, k)),
    ensures
        czero(c),
{
    crate::complex::lemma_cmul_den(a, k);
    let p = cmul(a, k);
    assert(p.0.0 == 0 && p.1.0 == 0) by (nonlinear_arith)
        requires
            p == cmul(a, k),
            a.0.0 == 0,
            a.1.0 == 0,
    {}
    crate::complex::lemma_ceq_zero(c, p);
}

proof fn lemma_minus_zero(c: CFrac, a: CFrac, f: CFrac, b: CFrac)
    requires
        c.0.1 > 0 && c.1.1 > 0 && a.0.1 > 0 && a.1.1 > 0 && f.0.1 > 0 && f.1.1 > 0 && b.0.1 > 0 && b.1.1 > 0,
        czero(b),
        ceq(c, csub(a, cmul(f, b))),
    ensures
        ceq(c, a),
{
    crate::complex::lemma_cmul_den(f, b);
    let p = cmul(f, b);
    assert(p.0.0 == 0 && p.1.0 == 0) by (nonlinear_arith)
        requires p == cmul(f, b), b.0.0 == 0, b.1.0 == 0, {}
    let d = csub(a, p);
    assert(ceq(d, a)) by (nonlinear_arith)
        requires
            d == crate::complex::csub(a, p),
            p.0.0 == 0,
            p.1.0 == 0,
            p.0.1 > 0,
            p.1.1 > 0,
    {}
    crate::complex::lemma_cmul_den(a, p);
    crate::complex::lemma_ceq_trans(c, d, a);
}

/// One more equation changed and the others kept: the solutions stay when
/// the changed row has the same solutions.
proof fn lemma_update_rows(m: Seq<Seq<Value>>, i: int, c: Seq<Value>, x: Seq<CFrac>)
    requires
        0 <= i < m.len(),
        tzero(residual(c, x)) == tzero(residual(m[i], x)),
    ensures
        satisfies(m.update(i, c), x) == satisfies(m, x),
{
    let m2 = m.update(i, c);
    if satisfies(m, x) {
        assert forall|j: int| 0 <= j < m2.len() implies tzero(#[trigger] residual(m2[j], x)) by {
            assert(tzero(residual(m[j], x)));
        }
    }
    if satisfies(m2, x) {
        assert forall|j: int| 0 <= j < m.len() implies tzero(#[trigger] residual(m[j], x)) by {
            assert(tzero(residual(m2[j], x)));
        }
    }
}

/// Swapping two equations keeps the solutions.
proof fn lemma_swap_rows(m: Seq<Seq<Value>>, p: int, r: int, x: Seq<CFrac>)
    requires
        0 <= p < m.len(),
        0 <= r < m.len(),
    ensures
        satisfies(m.update(p, m[r]).update(r, m[p]), x) == satisfies(m, x),
{
    let m2 = m.update(p, m[r]).update(r, m[p]);
    if satisfies(m, x) {
        assert forall|j: int| 0 <= j < m2.len() implies tzero(#[trigger] residual(m2[j], x)) by {
            if j == r {
                assert(tzero(residual(m[p], x)));
            } else if j == p {
                assert(tzero(residual(m[r], x)));
            } else {
                assert(tzero(residual(m[j], x)));
            }
        }
    }
    if satisfies(m2, x) {
        assert forall|j: int| 0 <= j < m.len() implies tzero(#[trigger] residual(m[j], x)) by {
            if j == r {
                assert(tzero(residual(m2[p], x)));
            } else if j == p {
                assert(tzero(residual(m2[r], x)));
            } else {
                assert(tzero(residual(m2[j], x)));
            }
        }
    }
}

/// The names of the unknowns.
pub open spec fn names(vars: Seq<String>) -> Seq<Seq<char>> {
    vars.map_values(|s: String| s@)
}

pub open spec fn row_wf(r: Seq<Value>) -> bool {
    forall|j: int| 0 <= j < r.len() ==> (#[trigger] r[j]).wf()
}

fn copy_row(row: &Vec<Value>) -> (r: Vec<Value>)
    requires
        row_wf(row@),
    ensures
        r@.len() == row@.len(),
        row_wf(r@),
        forall|j: int| 0 <= j < r@.len() ==> (#[trigger] r@[j]).cval() == row@[j].cval(),
{
    let mut r: Vec<Value> = Vec::new();
    let mut j: usize = 0;
    while j < row.len()
        invariant
            j <= row@.len(),
            r@.len() == j,
            row_wf(row@),
            forall|k: int| 0 <= k < j ==> (#[trigger] r@[k]).cval() == row@[k].cval() && r@[k].wf(),
        decreases row@.len() - j,
    {
        r.push(row[j].copy());
        j = j + 1;
    }
    r
}

/// `row * k`, with exactly 1 in column `col`.
fn scaled_row(row: &Vec<Value>, k: &Value, col: usize) -> (r: Vec<Value>)
    requires
        row_wf(row@),
        k.wf(),
        col < row@.len(),
    ensures
        r@.len() == row@.len(),
        row_wf(r@),
        r@[col as int].cval() == cone(),
        forall|j: int| 0 <= j < r@.len() && j != col ==> ceq(#[trigger] r@[j].cval(), cmul(row@[j].cval(), k.cval())),
{
    let mut r: Vec<Value> = Vec::new();
    let mut j: usize = 0;
    while j < row.len()
        invariant
            j <= row@.len(),
            r@.len() == j,
            row_wf(row@),
            k.wf(),
            col < row@.len(),
            forall|i: int| 0 <= i < j ==> (#[trigger] r@[i]).wf(),
            j > col ==> r@[col as int].cval() == cone(),
            forall|i: int| 0 <= i < j && i != col ==> ceq(#[trigger] r@[i].cval(), cmul(row@[i].cval(), k.cval())),
        decreases row@.len() - j,
    {
        if j == col {
            r.push(Value::integer(1));
        } else {
            r.push(row[j].mul(k));
        }
        j = j + 1;
    }
    r
}

/// `a - f*b`, with exactly 0 in column `col`.
fn reduced_row(a: &Vec<Value>, f: &Value, b: &Vec<Value>, col: usize) -> (r: Vec<Value>)
    requires
        row_wf(a@),
        row_wf(b@),
        f.wf(),
        a@.len() == b@.len(),
        col < a@.len(),
    ensures
        r@.len() == a@.len(),
        row_wf(r@),
        r@[col as int].cval() == (qint(0), czero_frac()),
        forall|j: int| 0 <= j < r@.len() && j != col ==> ceq(#[trigger] r@[j].cval(), csub(a@[j].cval(), cmul(f.cval(), b@[j].cval()))),
{
    let mut r: Vec<Value> = Vec::new();
    let mut j: usize = 0;
    while j < a.len()
        invariant
            j <= a@.len(),
            r@.len() == j,
            row_wf(a@),
            row_wf(b@),
            f.wf(),
            a@.len() == b@.len(),
            col < a@.len(),
            forall|i: int| 0 <= i < j ==> (#[trigger] r@[i]).wf(),
            j > col ==> r@[col as int].cval() == (qint(0), czero_frac()),
            forall|i: int| 0 <= i < j && i != col ==> ceq(#[trigger] r@[i].cval(), csub(a@[i].cval(), cmul(f.cval(), b@[i].cval()))),
        decreases a@.len() - j,
    {
        if j == col {
            r.push(Value::integer(0));
        } else {
            let fb = f.mul(&b[j]);
            let v = a[j].sub(&fb);
            proof {
                assert(a@[j as int].wf() && b@[j as int].wf());
                crate::complex::lemma_cmul_den(f.cval(), b@[j as int].cval());
                crate::complex::lemma_csub_cong(v.cval(), a@[j as int].cval(), fb.cval(), a@[j as int].cval(), cmul(f.cval(), b@[j as int].cval()));
            }
            r.push(v);
        }
        j = j + 1;
    }
    r
}

/// The first row from `from` on with a nonzero entry in column `col`.
fn pick_pivot(rows: &Vec<Vec<Value>>, from: usize, col: usize) -> (r: Option<usize>)
    requires
        forall|i: int| 0 <= i < rows@.len() ==> col < (#[trigger] rows@[i])@.len(),
    ensures
        r matches Some(p) ==> from <= p < rows@.len() && !czero(rows@[p as int]@[col as int].cval())
            && forall|i: int| from <= i < p ==> czero(#[trigger] rows@[i]@[col as int].cval()),
        r is None ==> forall|i: int| from <= i < rows@.len() ==> czero(#[trigger] rows@[i]@[col as int].cval()),
{
    let mut i = from;
    while i < rows.len()
        invariant
            from <= i || i == from,
            forall|k: int| 0 <= k < rows@.len() ==> col < (#[trigger] rows@[k])@.len(),
            forall|k: int| from <= k < i ==> czero(#[trigger] rows@[k]@[col as int].cval()),
        decreases rows@.len() - i,
    {
        if !rows[i][col].is_zero() {
            return Some(i);
        }
        i = i + 1;
    }
    None
}

/// `parts` joined by `sep`.
pub open spec fn join_text(parts: Seq<Seq<char>>, sep: Seq<char>) -> Seq<char>
    decreases parts.len(),
{
    if parts.len() == 0 {
        seq![]
    } else if parts.len() == 1 {
        parts[0]
    } else {
        join_text(parts.drop_last(), sep) + sep + parts.last()
    }
}

pub(crate) fn join(parts: &Vec<String>, sep: &str) -> (r: String)
    ensures
        r@ == join_text(names(parts@), sep@),
{
    let mut out = String::new();
    let mut k: usize = 0;
    while k < parts.len()
        invariant
            k <= parts@.len(),
            out@ == join_text(names(parts@).subrange(0, k as int), sep@),
        decreases parts@.len() - k,
    {
        if k > 0 {
            out.append(sep);
        }
        out.append(parts[k].as_str());
        proof {
            let s = names(parts@).subrange(0, k + 1);
            assert(s.drop_last() =~= names(parts@).subrange(0, k as int));
            if k == 0 {
                assert(join_text(s, sep@) == s[0]);
                assert(out@ =~= parts@[0]@);
            }
        }
        k = k + 1;
    }
    assert(names(parts@).subrange(0, parts@.len() as int) =~= names(parts@));
    out
}

/// The lines of a snapshot: one per row.
pub open spec fn snapshot_is(lines: Seq<String>, m: Seq<Seq<Value>>, vars: Seq<Seq<char>>) -> bool {
    &&& lines.len() == m.len()
    &&& forall|i: int| 0 <= i < m.len() ==> (#[trigger] lines[i])@ == row_text(m[i], vars)
}

fn snapshot(rows: &Vec<Vec<Value>>, vars: &Vec<String>) -> (r: Vec<String>)
    requires
        matrix_ok(mat(rows@), vars@.len()),
    ensures
        snapshot_is(r@, mat(rows@), names(vars@)),
{
    let n = vars.len();
    let mut out: Vec<String> = Vec::new();
    let mut i: usize = 0;
    while i < rows.len()
        invariant
            i <= rows@.len(),
            n == vars@.len(),
            matrix_ok(mat(rows@), n as nat),
            out@.len() == i,
            forall|k: int| 0 <= k < i ==> (#[trigger] out@[k])@ == row_text(mat(rows@)[k], names(vars@)),
        decreases rows@.len() - i,
    {
        let row = &rows[i];
        assert(mat(rows@)[i as int] == row@);
        assert(row@.len() == n + 1);
        let coeffs = vstd::slice::slice_subrange(row.as_slice(), 0, n);
        let zero = Value::integer(0);
        let mut line = fmt_combo(vars.as_slice(), coeffs, &zero);
        line.append(" = ");
        let t = format_value(&row[n]);
        line.append(t.as_str());
        proof {
            assert(const_start(zero) =~= seq![]);
            assert(names(vars@) == vars@.map_values(|s: String| s@));
        }
        out.push(line);
        i = i + 1;
    }
    out
}

#[derive(Debug, Clone, PartialEq)]
pub enum Solution {
    /// One value per variable, in order of first appearance.
    Unique(Vec<(String, Value)>),
    /// Each dependent variable expressed in terms of the free ones.
    Infinite { dependent: Vec<(String, LinearExpr)>, free: Vec<String> },
    NoSolution { reason: String },
}

/// `constant + c₁·v₁ + c₂·v₂ + …`
#[derive(Debug, Clone, PartialEq)]
pub struct LinearExpr {
    pub terms: Vec<(String, Value)>,
    pub constant: Value,
}

impl LinearExpr {
    pub open spec fn wf(&self) -> bool {
        &&& self.constant.wf()
        &&& forall|k: int| 0 <= k < self.terms@.len() ==> (#[trigger] self.terms@[k]).1.wf()
    }

    /// `constant + c₁·v₁ + c₂·v₂ + …`, zero terms left out, `0` when all are.
    pub open spec fn text(&self) -> Seq<char> {
        combo_text(
            self.terms@.map_values(|p: (String, Value)| p.0@),
            self.terms@.map_values(|p: (String, Value)| p.1),
            const_start(self.constant),
        )
    }

    pub fn to_text(&self) -> (r: String)
        requires
            self.wf(),
        ensures
            r@ == self.text(),
    {
        let ghost nv = self.terms@.map_values(|p: (String, Value)| p.0@);
        let ghost cv = self.terms@.map_values(|p: (String, Value)| p.1);
        let mut out = String::new();
        if !self.constant.is_zero() {
            let (neg, body) = term(&self.constant, None);
            push_term(&mut out, neg, body.as_str());
        }
        let ghost start = out@;
        let mut k: usize = 0;
        while k < self.terms.len()
            invariant
                k <= self.terms@.len(),
                nv == self.terms@.map_values(|p: (String, Value)| p.0@),
                cv == self.terms@.map_values(|p: (String, Value)| p.1),
                self.wf(),
                combo_from(nv, cv, k as int, out@) == combo_from(nv, cv, 0, start),
            decreases self.terms@.len() - k,
        {
            let (name, c) = &self.terms[k];
            assert(cv[k as int] == *c && nv[k as int] == name@);
            if !c.is_zero() {
                let (neg, body) = term(c, Some(name.as_str()));
                push_term(&mut out, neg, body.as_str());
            }
            k = k + 1;
        }
        if out.unicode_len() == 0 {
            out.append("0");
            assert(out@ =~= "0"@);
        }
        out
    }
}

/// The values of a unique solution.
pub open spec fn values_of(vals: Seq<(String, Value)>) -> Seq<CFrac> {
    vals.map_values(|p: (String, Value)| p.1.cval())
}

pub open spec fn contradiction_text(v: Value) -> Seq<char> {
    "the equations contradict each other (they reduce to 0 = "@ + value_text(v) + ")"@
}

/// `text` swaps rows `r` and `p` of `a`, giving `b`.
pub open spec fn swap_ok(text: Seq<char>, a: Seq<Seq<Value>>, b: Seq<Seq<Value>>, r: int, p: int) -> bool {
    &&& 0 <= r < a.len()
    &&& 0 <= p < a.len()
    &&& text == "swap "@ + row_name(r as nat) + " and "@ + row_name(p as nat)
    &&& b == a.update(p, a[r]).update(r, a[p])
}

/// `text` divides row `r` of `a` by its entry `pv` in column `c` (that is,
/// multiplies it by `inv`, the reciprocal of `pv`), giving `b`.
pub open spec fn scale_ok(text: Seq<char>, a: Seq<Seq<Value>>, b: Seq<Seq<Value>>, c: int, r: int, pv: Value, inv: Value) -> bool {
    &&& 0 <= r < a.len()
    &&& 0 <= c < a[r].len()
    &&& pv.wf()
    &&& pv.cval() == a[r][c].cval()
    &&& ceq(inv.cval(), cdiv(cone(), pv.cval()))
    &&& text == row_name(r as nat) + " ← "@ + row_name(r as nat) + " ÷ "@ + paren_text(pv)
    &&& b.len() == a.len()
    &&& forall|i: int| 0 <= i < a.len() && i != r ==> #[trigger] b[i] == a[i]
    &&& b[r].len() == a[r].len()
    &&& b[r][c].cval() == cone()
    &&& forall|j: int| 0 <= j < a[r].len() && j != c ==> ceq(#[trigger] b[r][j].cval(), cmul(a[r][j].cval(), inv.cval()))
}

/// `text` subtracts `f` times row `r` from row `i` of `a`, `f` being row
/// `i`'s entry in column `c`, giving `b`.
pub open spec fn elim_ok(text: Seq<char>, a: Seq<Seq<Value>>, b: Seq<Seq<Value>>, c: int, i: int, r: int, f: Value) -> bool {
    &&& 0 <= i < a.len()
    &&& 0 <= r < a.len()
    &&& i != r
    &&& 0 <= c < a[i].len()
    &&& f.wf()
    &&& f.cval() == a[i][c].cval()
    &&& text == elim_text(i as nat, r as nat, f)
    &&& b.len() == a.len()
    &&& forall|k: int| 0 <= k < a.len() && k != i ==> #[trigger] b[k] == a[k]
    &&& b[i].len() == a[i].len()
    &&& czero(b[i][c].cval())
    &&& forall|j: int| 0 <= j < a[i].len() && j != c ==> ceq(#[trigger] b[i][j].cval(),
        csub(a[i][j].cval(), cmul(f.cval(), a[r][j].cval())))
}

/// `text` names a row operation, pivoting on column `c`, that turns `a` into `b`.
pub open spec fn op_ok(text: Seq<char>, a: Seq<Seq<Value>>, b: Seq<Seq<Value>>, c: int) -> bool {
    ||| exists|r: int, p: int| #[trigger] swap_ok(text, a, b, r, p)
    ||| exists|r: int, pv: Value, inv: Value| #[trigger] scale_ok(text, a, b, c, r, pv, inv)
    ||| exists|i: int, r: int, f: Value| #[trigger] elim_ok(text, a, b, c, i, r, f)
}

/// Each operation `ops[j]` turns `ms[j]` into `ms[j + 1]`.
pub open spec fn ops_chain(ops: Seq<Seq<char>>, ms: Seq<Seq<Seq<Value>>>, c: int) -> bool {
    &&& ms.len() == ops.len() + 1
    &&& forall|j: int| 0 <= j < ops.len() ==> #[trigger] op_ok(ops[j], ms[j], ms[j + 1], c)
}

/// The columns before `c` of `a` are in reduced row echelon form: row `k`
/// below `piv.len()` has its leading 1 in column `piv[k]`, the only nonzero
/// entry of that column; the rows from `piv.len()` on are zero there.
pub open spec fn rref_upto(a: Seq<Seq<Value>>, piv: Seq<usize>, c: int) -> bool {
    &&& piv.len() <= a.len()
    &&& forall|k: int| 0 <= k < piv.len() ==> #[trigger] piv[k] < c
    &&& forall|k1: int, k2: int| 0 <= k1 < k2 < piv.len() ==> piv[k1] < piv[k2]
    &&& forall|k: int| 0 <= k < piv.len() ==> ceq(#[trigger] a[k][piv[k] as int].cval(), cone())
    &&& forall|k: int, i: int| 0 <= k < piv.len() && 0 <= i < a.len() && i != k
        ==> czero(#[trigger] a[i][piv[k] as int].cval())
    &&& forall|k: int, j: int| 0 <= k < piv.len() && 0 <= j < piv[k] ==> czero(#[trigger] a[k][j].cval())
    &&& forall|i: int, j: int| piv.len() <= i < a.len() && 0 <= j < c ==> czero(#[trigger] a[i][j].cval())
}

/// Row `p` is the first row from `r` on with a nonzero entry in column `c`.
pub open spec fn first_nonzero(a: Seq<Seq<Value>>, c: int, r: int, p: int) -> bool {
    &&& r <= p < a.len()
    &&& !czero(a[p][c].cval())
    &&& forall|i: int| r <= i < p ==> czero(#[trigger] a[i][c].cval())
}

/// The `k` operations that open the pivot on row `r`, column `c`: a swap
/// with the first row below holding a nonzero entry exactly when the entry
/// of row `r` is zero, then a division of row `r` by its entry exactly when
/// that entry is not 1.
pub open spec fn opening(ops: Seq<Seq<char>>, ms: Seq<Seq<Seq<Value>>>, c: int, r: int, k: int) -> bool {
    &&& ms.len() == ops.len() + 1
    &&& 0 <= r < ms[0].len()
    &&& (swaps(ms, c, r) == 1 ==> swaps_first(ops, ms, c, r))
    &&& k == swaps(ms, c, r) + if ms[swaps(ms, c, r)][r][c].cval() == cone() { 0int } else { 1int }
    &&& (k == swaps(ms, c, r) + 1 ==> scales_at(ops, ms, c, r, swaps(ms, c, r)))
    &&& k <= ops.len()
}

/// 1 when the pivot opens with a swap (the entry of row `r` is zero), else 0.
pub open spec fn swaps(ms: Seq<Seq<Seq<Value>>>, c: int, r: int) -> int {
    if czero(ms[0][r][c].cval()) { 1 } else { 0 }
}

/// The first operation swaps row `r` with the first row below it that has a
/// nonzero entry in column `c`.
pub open spec fn swaps_first(ops: Seq<Seq<char>>, ms: Seq<Seq<Seq<Value>>>, c: int, r: int) -> bool {
    exists|p: int| first_nonzero(ms[0], c, r, p) && #[trigger] swap_ok(ops[0], ms[0], ms[1], r, p)
}

/// Operation `s` divides row `r` by its entry in column `c`.
pub open spec fn scales_at(ops: Seq<Seq<char>>, ms: Seq<Seq<Seq<Value>>>, c: int, r: int, s: int) -> bool {
    exists|pv: Value, inv: Value| #[trigger] scale_ok(ops[s], ms[s], ms[s + 1], c, r, pv, inv)
}

/// Operation `k + j` clears column `c` of row `rows[j]` with row `r`.
pub open spec fn clears(ops: Seq<Seq<char>>, ms: Seq<Seq<Seq<Value>>>, c: int, r: int, k: int, rows: Seq<int>, j: int) -> bool {
    exists|f: Value| #[trigger] elim_ok(ops[k + j], ms[k + j], ms[k + j + 1], c, rows[j], r, f)
}

/// After the `k` opening operations come the eliminations: one for each row
/// other than `r` with a nonzero entry in column `c`, in order of rows.
pub open spec fn clearing(ops: Seq<Seq<char>>, ms: Seq<Seq<Seq<Value>>>, c: int, r: int, k: int, rows: Seq<int>) -> bool {
    &&& ops.len() == k + rows.len()
    &&& forall|j: int| 0 <= j < rows.len() ==> #[trigger] clears(ops, ms, c, r, k, rows, j)
    &&& forall|j1: int, j2: int| 0 <= j1 < j2 < rows.len() ==> rows[j1] < rows[j2]
    &&& forall|i: int| 0 <= i < ms[k].len() ==> ((i != r && !czero(ms[k][i][c].cval())) <==> #[trigger] rows.contains(i))
}

/// `ops` are the operations of a pivot on row `r`, column `c`, in order.
pub open spec fn pivot_ops(ops: Seq<Seq<char>>, ms: Seq<Seq<Seq<Value>>>, c: int, r: int) -> bool {
    exists|k: int, rows: Seq<int>| opening(ops, ms, c, r, k) && #[trigger] clearing(ops, ms, c, r, k, rows)
}

/// An "Isolate" step: the matrix `a` is in reduced row echelon form up to
/// column `c` with pivot rows `0..r`, and the step pivots on row `r`, column
/// `c`; its description names the unknown of column `c` and the row
/// operations, which turn `a` into the matrix `b` that its snapshot shows.
pub open spec fn isolate_ok(s: Step, a: Seq<Seq<Value>>, b: Seq<Seq<Value>>, vars: Seq<Seq<char>>) -> bool {
    exists|c: int, piv: Seq<usize>, ops: Seq<Seq<char>>, ms: Seq<Seq<Seq<Value>>>| #[trigger] ops_chain(ops, ms, c)
        && #[trigger] rref_upto(a, piv, c)
        && pivot_ops(ops, ms, c, piv.len() as int)
        && 0 <= c < vars.len()
        && ops.len() > 0
        && s.description@ == "Isolate "@ + vars[c] + ": "@ + join_text(ops, "; "@)
        && ms[0] == a
        && ms.last() == b
        && snapshot_is(s.snapshot@, b, vars)
}

/// The matrices `ms` shown by the steps: the first the system itself, each
/// later one obtained from the one before by the step's pivot, the last one
/// in reduced row echelon form (no pivot is left that would change it).
pub open spec fn trace_mats(steps: Seq<Step>, ms: Seq<Seq<Seq<Value>>>, orig: Seq<Seq<Value>>, vars: Seq<Seq<char>>) -> bool {
    &&& trace_steps(steps, ms, orig, vars)
    &&& exists|piv: Seq<usize>| #[trigger] rref_upto(ms.last(), piv, vars.len() as int)
}

/// The matrices `ms` shown by the steps so far, each obtained from the one
/// before by the step's pivot.
pub open spec fn trace_steps(steps: Seq<Step>, ms: Seq<Seq<Seq<Value>>>, orig: Seq<Seq<Value>>, vars: Seq<Seq<char>>) -> bool {
    &&& ms.len() == steps.len()
    &&& ms.len() >= 1
    &&& ms[0] == orig
    &&& forall|k: int| 1 <= k < steps.len() ==> #[trigger] isolate_ok(steps[k], ms[k - 1], ms[k], vars)
}

/// The opening operations stay what they were when more operations follow.
proof fn lemma_opening_extend(
    ops0: Seq<Seq<char>>,
    ms0: Seq<Seq<Seq<Value>>>,
    ops: Seq<Seq<char>>,
    ms: Seq<Seq<Seq<Value>>>,
    c: int,
    r: int,
    k: int,
)
    requires
        opening(ops0, ms0, c, r, k),
        ops0.len() == k,
        ms.len() == ops.len() + 1,
        ops.len() >= k,
        forall|j: int| 0 <= j < k ==> #[trigger] ops[j] == ops0[j],
        forall|j: int| 0 <= j <= k ==> #[trigger] ms[j] == ms0[j],
    ensures
        opening(ops, ms, c, r, k),
{
    let sw: int = if czero(ms0[0][r][c].cval()) { 1 } else { 0 };
    assert(ms[0] == ms0[0]);
    if sw == 1 {
        let p = choose|p: int| first_nonzero(ms0[0], c, r, p) && #[trigger] swap_ok(ops0[0], ms0[0], ms0[1], r, p);
        assert(ops[0] == ops0[0] && ms[1] == ms0[1]);
        assert(swap_ok(ops[0], ms[0], ms[1], r, p));
    }
    assert(ms[sw] == ms0[sw]);
    if k == sw + 1 {
        let (pv, inv) = choose|pv: Value, inv: Value| #[trigger] scale_ok(ops0[sw], ms0[sw], ms0[sw + 1], c, r, pv, inv);
        assert(ops[sw] == ops0[sw] && ms[sw + 1] == ms0[sw + 1]);
        assert(scale_ok(ops[sw], ms[sw], ms[sw + 1], c, r, pv, inv));
    }
}

pub open spec fn trace_ok(steps: Seq<Step>, orig: Seq<Seq<Value>>, vars: Seq<Seq<char>>) -> bool {
    exists|ms: Seq<Seq<Seq<Value>>>| #[trigger] trace_mats(steps, ms, orig, vars)
}

proof fn lemma_chain_push(ops: Seq<Seq<char>>, ms: Seq<Seq<Seq<Value>>>, c: int, t: Seq<char>, m2: Seq<Seq<Value>>)
    requires
        ops_chain(ops, ms, c),
        op_ok(t, ms.last(), m2, c),
    ensures
        ops_chain(ops.push(t), ms.push(m2), c),
{
    assert forall|j: int| 0 <= j < ops.push(t).len() implies #[trigger] op_ok(ops.push(t)[j], ms.push(m2)[j], ms.push(m2)[j + 1], c) by {
        if j < ops.len() {
            assert(op_ok(ops[j], ms[j], ms[j + 1], c));
        }
    }
}

/// A step's snapshot shows a system with the same solutions as `orig`.
pub open spec fn step_shows(s: Step, orig: Seq<Seq<Value>>, vars: Seq<Seq<char>>) -> bool {
    exists|mm: Seq<Seq<Value>>| #[trigger] snapshot_is(s.snapshot@, mm, vars)
        && matrix_ok(mm, vars.len())
        && mm.len() == orig.len()
        && forall|x: Seq<CFrac>| assignment(x, vars.len()) ==> (#[trigger] satisfies(mm, x)) == satisfies(orig, x)
}

/// The parametric form of the solutions: the pivot columns `piv` and the
/// free columns `fc` split the unknowns; each dependent unknown is the one of
/// its pivot column, each term of its expression that of a free column, with
/// no weight on the free columns before its own (reduced row echelon form,
/// which fixes which unknowns are free: pivots are taken in column order);
/// and a choice of values solves the system exactly when every dependent
/// unknown equals its expression in the free ones.
pub open spec fn param_ok(
    dep: Seq<(String, LinearExpr)>,
    free: Seq<String>,
    piv: Seq<int>,
    fc: Seq<int>,
    m: Seq<Seq<Value>>,
    vars: Seq<Seq<char>>,
) -> bool {
    let n = vars.len();
    &&& piv.len() == dep.len()
    &&& fc.len() == free.len()
    &&& forall|k: int| 0 <= k < piv.len() ==> 0 <= #[trigger] piv[k] < n
    &&& forall|j: int| 0 <= j < fc.len() ==> 0 <= #[trigger] fc[j] < n
    &&& forall|a: int, b: int| 0 <= a < piv.len() && 0 <= b < fc.len() ==> piv[a] != fc[b]
    &&& forall|a: int, b: int| 0 <= a < b < piv.len() ==> piv[a] < piv[b]
    &&& forall|a: int, b: int| 0 <= a < b < fc.len() ==> fc[a] < fc[b]
    &&& forall|k: int| 0 <= k < dep.len() ==> (#[trigger] dep[k]).0@ == vars[piv[k]]
    &&& forall|j: int| 0 <= j < free.len() ==> (#[trigger] free[j])@ == vars[fc[j]]
    &&& forall|k: int| 0 <= k < dep.len() ==> (#[trigger] dep[k]).1.terms@.len() == fc.len()
    &&& forall|k: int, j: int| 0 <= k < dep.len() && 0 <= j < fc.len() ==> (#[trigger] dep[k].1.terms@[j]).0@ == vars[fc[j]]
    &&& forall|k: int, j: int| 0 <= k < dep.len() && 0 <= j < fc.len() && fc[j] < piv[k]
        ==> czero((#[trigger] dep[k].1.terms@[j]).1.cval())
    &&& forall|x: Seq<CFrac>| assignment(x, n) ==> (#[trigger] satisfies(m, x) <==>
        forall|k: int| 0 <= k < dep.len() ==> teq(tri(x[piv[k]]), #[trigger] dep_value(dep[k].1, fc, x)))
}

/// What elimination concludes about the system `m` in the unknowns `vars`:
/// a unique solution satisfies every equation and is the only one; no
/// solution means that none satisfies them all; otherwise some unknowns are
/// free and the others depend on them.
pub open spec fn solution_ok(sol: Solution, m: Seq<Seq<Value>>, vars: Seq<Seq<char>>) -> bool {
    let n = vars.len();
    match sol {
        Solution::Unique(vals) => {
            &&& vals@.len() == n
            &&& forall|i: int| 0 <= i < n ==> (#[trigger] vals@[i]).0@ == vars[i] && vals@[i].1.wf()
            &&& assignment(values_of(vals@), n)
            &&& satisfies(m, values_of(vals@))
            &&& forall|x: Seq<CFrac>| assignment(x, n) && #[trigger] satisfies(m, x)
                ==> forall|j: int| 0 <= j < n ==> ceq(#[trigger] x[j], values_of(vals@)[j])
        },
        Solution::NoSolution { reason } => {
            &&& forall|x: Seq<CFrac>| assignment(x, n) ==> !#[trigger] satisfies(m, x)
            &&& exists|v: Value| v.wf() && !czero(v.cval()) && reason@ == #[trigger] contradiction_text(v)
        },
        Solution::Infinite { dependent, free } => {
            &&& free@.len() > 0
            &&& dependent@.len() + free@.len() == n
            &&& forall|k: int| 0 <= k < dependent@.len() ==> (#[trigger] dependent@[k]).1.wf()
            &&& exists|piv: Seq<int>, fc: Seq<int>| #[trigger] param_ok(dependent@, free@, piv, fc, m, vars)
        },
    }
}

proof fn lemma_pivots_ge(p: Seq<usize>, k: int)
    requires
        0 <= k < p.len(),
        forall|a: int, b: int| 0 <= a < b < p.len() ==> p[a] < p[b],
    ensures
        p[k] >= k,
    decreases k,
{
    if k > 0 {
        lemma_pivots_ge(p, k - 1);
        assert(p[k - 1] < p[k]);
    }
}

proof fn lemma_pivots_le(p: Seq<usize>, n: int, k: int)
    requires
        0 <= k < p.len(),
        p.len() == n,
        forall|a: int| 0 <= a < p.len() ==> p[a] < n,
        forall|a: int, b: int| 0 <= a < b < p.len() ==> p[a] < p[b],
    ensures
        p[k] <= k,
    decreases n - k,
{
    if k < n - 1 {
        lemma_pivots_le(p, n, k + 1);
        assert(p[k] < p[k + 1]);
    }
}

/// Eliminating row `i` with pivot row `r` keeps the solutions.
proof fn lemma_elim_matrix(m: Seq<Seq<Value>>, i: int, r: int, c: Seq<Value>, f: CFrac, n: nat, x: Seq<CFrac>)
    requires
        0 <= i < m.len(),
        0 <= r < m.len(),
        i != r,
        matrix_ok(m, n),
        c.len() == n + 1,
        row_wf(c),
        f.0.1 > 0 && f.1.1 > 0,
        forall|j: int| 0 <= j <= n ==> ceq(#[trigger] c[j].cval(), csub(m[i][j].cval(), cmul(f, m[r][j].cval()))),
        assignment(x, n),
    ensures
        satisfies(m.update(i, c), x) == satisfies(m, x),
{
    let m2 = m.update(i, c);
    assert(m[i].len() == n + 1 && m[r].len() == n + 1);
    assert(row_wf(m[i]) && row_wf(m[r])) by {
        assert(matrix_ok(m, n));
    }
    if satisfies(m, x) {
        assert(tzero(residual(m[r], x)));
        lemma_elim_row(m[i], m[r], c, f, x, n);
        lemma_update_rows(m, i, c, x);
    }
    if satisfies(m2, x) {
        assert(tzero(residual(m2[r], x)));
        assert(m2[r] == m[r]);
        lemma_elim_row(m[i], m[r], c, f, x, n);
        lemma_update_rows(m, i, c, x);
    }
}


/// Column `c2` is one of the first `t` pivot columns or a free column.
pub open spec fn col_covered(pivots: Seq<usize>, t: int, free: Seq<usize>, c2: int) -> bool {
    ||| exists|k: int| 0 <= k < t && #[trigger] pivots[k] == c2
    ||| exists|a: int| 0 <= a < free.len() && #[trigger] free[a] == c2
}

/// `Σ (-c)·y == -(Σ c·y)`.
proof fn lemma_tsum_neg(c: Seq<Tri>, d: Seq<Tri>, y: Seq<Tri>, k: int)
    requires
        0 <= k <= c.len(),
        k <= d.len(),
        k <= y.len(),
        forall|j: int| 0 <= j < k ==> #[trigger] d[j] == tneg(c[j]),
    ensures
        tsum(d, y, k) == tneg(tsum(c, y, k)),
    decreases k,
{
    if k > 0 {
        lemma_tsum_neg(c, d, y, k - 1);
        lemma_tmul_neg(c[k - 1], y[k - 1]);
        let s = tsum(c, y, k - 1);
        let t = tmul(c[k - 1], y[k - 1]);
        assert(tadd(tneg(s), tneg(t)) == tneg(tadd(s, t))) by (nonlinear_arith) {}
    }
}

/// The sum over the free columns: coefficients and values picked at `fc`.
pub open spec fn picked(c: Seq<Tri>, fc: Seq<int>) -> Seq<Tri> {
    fc.map_values(|col: int| c[col])
}

/// A sum over the columns below `k` whose coefficients vanish outside the
/// free columns `fc` and the column `p` splits into the `p` term and the
/// sum over the free columns below `k` (the first `t` of them).
proof fn lemma_tsum_split(c: Seq<Tri>, y: Seq<Tri>, p: int, fc: Seq<int>, k: int, t: int)
    requires
        0 <= k <= c.len(),
        c.len() == y.len(),
        all_pos(c),
        all_pos(y),
        0 <= t <= fc.len(),
        forall|j: int| 0 <= j < fc.len() ==> 0 <= #[trigger] fc[j] < c.len() && fc[j] != p,
        forall|a: int, b: int| 0 <= a < b < fc.len() ==> fc[a] < fc[b],
        forall|j: int| 0 <= j < t ==> #[trigger] fc[j] < k,
        forall|j: int| t <= j < fc.len() ==> #[trigger] fc[j] >= k,
        forall|col: int| 0 <= col < k && col != p && !fc.contains(col) ==> tzero(#[trigger] c[col]),
    ensures
        teq(tsum(c, y, k), tadd(if 0 <= p < k { tmul(c[p], y[p]) } else { tzero_form() },
            tsum(picked(c, fc), picked(y, fc), t))),
        tpos(tsum(picked(c, fc), picked(y, fc), t)),
    decreases k,
{
    let pc = picked(c, fc);
    let py = picked(y, fc);
    assert(all_pos(pc)) by {
        assert forall|j: int| 0 <= j < pc.len() implies #[trigger] tpos(pc[j]) by {
            assert(tpos(c[fc[j]]));
        }
    }
    assert(all_pos(py)) by {
        assert forall|j: int| 0 <= j < py.len() implies #[trigger] tpos(py[j]) by {
            assert(tpos(y[fc[j]]));
        }
    }
    lemma_tsum_pos(pc, py, t);
    let z = tzero_form();
    if k == 0 {
        assert(t == 0) by {
            if t > 0 {
                assert(fc[0] < 0);
            }
        }
        lemma_tzero_ops(z, z);
        lemma_teq_sym(tadd(z, z), z);
        return;
    }
    let col = k - 1;
    lemma_tsum_pos(c, y, k - 1);
    assert(tpos(c[col]) && tpos(y[col]));
    lemma_pos(c[col], y[col]);
    let cy = tmul(c[col], y[col]);
    if fc.contains(col) {
        let w = choose|j: int| 0 <= j < fc.len() && fc[j] == col;
        assert(w == t - 1) by {
            if w >= t {
                assert(fc[w] >= k);
            }
            if w < t - 1 {
                assert(fc[w] < fc[t - 1]);
                assert(fc[t - 1] < k);
            }
        }
        assert forall|j: int| t - 1 <= j < fc.len() implies #[trigger] fc[j] >= k - 1 by {
            if j > t - 1 {
                assert(fc[t - 1] < fc[j]);
            }
        }
        lemma_tsum_split(c, y, p, fc, k - 1, t - 1);
        let pt = if 0 <= p < k - 1 { tmul(c[p], y[p]) } else { z };
        if 0 <= p < k - 1 {
            assert(tpos(c[p]) && tpos(y[p]));
            lemma_pos(c[p], y[p]);
        }
        let f0 = tsum(pc, py, t - 1);
        assert(pc[t - 1] == c[col] && py[t - 1] == y[col]);
        assert(tsum(pc, py, t) == tadd(f0, cy));
        // sum(k) = sum(k-1) + cy ~ (pt + f0) + cy = pt + (f0 + cy)
        lemma_teq_refl(cy);
        lemma_tadd_cong(tsum(c, y, k - 1), tadd(pt, f0), cy, cy);
        crate::linalg::lemma_tadd_assoc(pt, f0, cy);
        assert(p != col);
    } else if col == p {
        assert forall|j: int| t <= j < fc.len() implies #[trigger] fc[j] >= k - 1 by {}
        assert forall|j: int| 0 <= j < t implies #[trigger] fc[j] < k - 1 by {
            assert(fc[j] != col);
        }
        lemma_tsum_split(c, y, p, fc, k - 1, t);
        let f = tsum(pc, py, t);
        // sum(k-1) ~ 0 + f ~ f; sum(k) = sum(k-1) + cy ~ f + cy = cy + f
        lemma_tzero_ops(z, f);
        crate::linalg::lemma_tadd_comm(z, f);
        lemma_pos(z, f);
        lemma_teq_trans(tsum(c, y, k - 1), tadd(z, f), f);
        lemma_teq_refl(cy);
        lemma_tadd_cong(tsum(c, y, k - 1), f, cy, cy);
        crate::linalg::lemma_tadd_comm(f, cy);
    } else {
        assert(tzero(c[col]));
        assert forall|j: int| t <= j < fc.len() implies #[trigger] fc[j] >= k - 1 by {}
        assert forall|j: int| 0 <= j < t implies #[trigger] fc[j] < k - 1 by {
            assert(fc[j] != col);
        }
        lemma_tsum_split(c, y, p, fc, k - 1, t);
        let pt = if 0 <= p < k - 1 { tmul(c[p], y[p]) } else { z };
        if 0 <= p < k - 1 {
            assert(tpos(c[p]) && tpos(y[p]));
            lemma_pos(c[p], y[p]);
        }
        let f = tsum(pc, py, t);
        // cy is zero: sum(k) = sum(k-1) + cy ~ sum(k-1)
        lemma_tmul_comm(c[col], y[col]);
        lemma_tzero_ops(c[col], y[col]);
        assert(tzero(cy));
        lemma_tzero_ops(cy, tsum(c, y, k - 1));
        lemma_pos(pt, f);
        lemma_teq_trans(tsum(c, y, k), tsum(c, y, k - 1), tadd(pt, f));
    }
}


/// The value of `constant + c₀·x[cols[0]] + c₁·x[cols[1]] + …` as a
/// common-denominator form: a dependent expression at the values `x`.
pub open spec fn dep_value(e: LinearExpr, cols: Seq<int>, x: Seq<CFrac>) -> Tri {
    tadd(
        tri(e.constant.cval()),
        tsum(
            e.terms@.map_values(|p: (String, Value)| tri(p.1.cval())),
            cols.map_values(|c: int| tri(x[c])),
            e.terms@.len() as int,
        ),
    )
}

proof fn lemma_tri_cneg(c: CFrac)
    ensures
        tri(crate::complex::cneg(c)) == tneg(tri(c)),
{
    assert((-c.0.0) * c.1.1 == -(c.0.0 * c.1.1)) by (nonlinear_arith);
    assert((-c.1.0) * c.0.1 == -(c.1.0 * c.0.1)) by (nonlinear_arith);
}

/// A reduced pivot row `x[p] + Σ r[fc[j]]·x[fc[j]] = r[n]` holds exactly when
/// `x[p]` equals the dependent expression `r[n] - Σ r[fc[j]]·x[fc[j]]`.
proof fn lemma_pivot_row(r: Seq<Value>, x: Seq<CFrac>, n: nat, p: int, fc: Seq<int>, e: LinearExpr)
    requires
        r.len() == n + 1,
        row_wf(r),
        assignment(x, n),
        0 <= p < n,
        ceq(r[p].cval(), cone()),
        forall|j: int| 0 <= j < fc.len() ==> 0 <= #[trigger] fc[j] < n && fc[j] != p,
        forall|a: int, b: int| 0 <= a < b < fc.len() ==> fc[a] < fc[b],
        forall|col: int| 0 <= col < n && col != p && !fc.contains(col) ==> czero(#[trigger] r[col].cval()),
        e.terms@.len() == fc.len(),
        forall|j: int| 0 <= j < fc.len() ==> (#[trigger] e.terms@[j]).1.wf()
            && ceq(e.terms@[j].1.cval(), crate::complex::cneg(r[fc[j]].cval())),
        e.constant.wf(),
        e.constant.cval() == r[n as int].cval(),
    ensures
        tzero(residual(r, x)) == teq(tri(x[p]), dep_value(e, fc, x)),
{
    let c = rowt(r);
    let y = ys(x);
    lemma_rowt_pos(r);
    lemma_ys_pos(x, n);
    assert forall|col: int| 0 <= col < n && col != p && !fc.contains(col) implies tzero(#[trigger] c[col]) by {
        assert(r[col].wf());
        lemma_teq_refl(tri(r[col].cval()));
        crate::power::lemma_tzero(r[col].cval(), tri(r[col].cval()));
    }
    let t = fc.len() as int;
    lemma_tsum_split(c, y, p, fc, n as int, t);
    let pc = picked(c, fc);
    let py = picked(y, fc);
    let f = tsum(pc, py, t);
    let xp = tri(x[p]);
    lemma_tri_den(x[p]);
    assert(y[p] == xp);
    // c[p] * x[p] ~ x[p]
    lemma_tri_ceq(r[p].cval(), cone());
    assert(tri(cone()) == tone());
    lemma_tmul_cong(c[p], tone(), xp, xp);
    lemma_tmul_one(xp);
    assert(tpos(c[p]));
    lemma_pos(c[p], xp);
    let cp = tmul(c[p], xp);
    lemma_teq_refl(f);
    lemma_tadd_cong(cp, xp, f, f);
    lemma_pos(cp, f);
    let s = tsum(c, y, n as int);
    lemma_tsum_pos(c, y, n as int);
    lemma_teq_trans(s, tadd(cp, f), tadd(xp, f));
    // residual = s - R ~ (xp + f) - R = xp + (f - R)
    let rr = tri(r[n as int].cval());
    assert(r[n as int].wf());
    lemma_tri_den(r[n as int].cval());
    lemma_residual_split(r, x, n);
    lemma_teq_refl(tneg(rr));
    lemma_tadd_cong(s, tadd(xp, f), tneg(rr), tneg(rr));
    crate::linalg::lemma_tadd_assoc(xp, f, tneg(rr));
    let w = tadd(xp, tneg(tadd(rr, tneg(f))));
    assert(tadd(f, tneg(rr)) == tneg(tadd(rr, tneg(f)))) by (nonlinear_arith) {}
    // residual ~ w
    lemma_pos(xp, f);
    lemma_pos(s, tneg(rr));
    // dep ~ R - f
    let ec = e.terms@.map_values(|q: (String, Value)| tri(q.1.cval()));
    let xs = fc.map_values(|col: int| tri(x[col]));
    assert(xs =~= py);
    let npc = pc.map_values(|q: Tri| tneg(q));
    assert forall|j: int| 0 <= j < t implies teq(#[trigger] ec[j], npc[j]) by {
        assert(e.terms@[j].1.wf());
        let v = r[fc[j]];
        assert(v.wf());
        lemma_tri_ceq(e.terms@[j].1.cval(), crate::complex::cneg(v.cval()));
        lemma_tri_cneg(v.cval());
    }
    assert(all_pos(ec)) by {
        assert forall|j: int| 0 <= j < ec.len() implies #[trigger] tpos(ec[j]) by {
            assert(e.terms@[j].1.wf());
            lemma_tri_den(e.terms@[j].1.cval());
        }
    }
    assert(all_pos(npc)) by {
        assert forall|j: int| 0 <= j < npc.len() implies #[trigger] tpos(npc[j]) by {
            assert(tpos(pc[j]));
        }
    }
    assert(all_pos(py)) by {
        assert forall|j: int| 0 <= j < py.len() implies #[trigger] tpos(py[j]) by {
            assert(tpos(y[fc[j]]));
        }
    }
    lemma_tsum_cong(ec, npc, py, t);
    lemma_tsum_neg(pc, npc, py, t);
    let dep = dep_value(e, fc, x);
    assert(dep == tadd(rr, tsum(ec, py, t)));
    lemma_teq_refl(rr);
    lemma_tadd_cong(rr, rr, tsum(ec, py, t), tneg(f));
    crate::linear::lemma_teq_neg(dep, tadd(rr, tneg(f)));
    lemma_teq_refl(xp);
    lemma_tadd_cong(xp, xp, tneg(dep), tneg(tadd(rr, tneg(f))));
    // residual ~ w ~ xp - dep
    lemma_tsum_pos(ec, py, t);
    lemma_pos(rr, tsum(ec, py, t));
    lemma_pos(rr, tneg(f));
    lemma_pos(xp, tneg(dep));
    lemma_pos(xp, tadd(f, tneg(rr)));
    lemma_teq_sym(tadd(xp, tneg(dep)), w);
    lemma_teq_trans(residual(r, x), w, tadd(xp, tneg(dep)));
    lemma_teq_zero(residual(r, x), tadd(xp, tneg(dep)));
    lemma_tsub_zero(xp, dep);
}

/// Solve the system whose augmented rows are `rows` (coefficients of
/// `vars`, then the right-hand side) by Gauss-Jordan elimination.
pub fn eliminate(rows: Vec<Vec<Value>>, vars: &Vec<String>) -> (out: (Solution, Vec<Step>))
    requires
        matrix_ok(mat(rows@), vars@.len()),
        rows@.len() < usize::MAX,
        vars@.len() < usize::MAX,
    ensures
        solution_ok(out.0, mat(rows@), names(vars@)),
        out.1@.len() >= 1,
        out.1@[0].description@ == "Write each equation in standard form"@,
        snapshot_is(out.1@[0].snapshot@, mat(rows@), names(vars@)),
        forall|k: int| 0 <= k < out.1@.len() ==> #[trigger] step_shows(out.1@[k], mat(rows@), names(vars@)),
        trace_ok(out.1@, mat(rows@), names(vars@)),
{
    let ghost orig = mat(rows@);
    let m = rows.len();
    let n = vars.len();
    let mut rows = rows;
    let first = snapshot(&rows, vars);
    let mut steps: Vec<Step> = Vec::new();
    steps.push(Step { description: String::from_str("Write each equation in standard form"), snapshot: first });
    proof {
        assert(step_shows(steps@[0], orig, names(vars@))) by {
            assert(snapshot_is(steps@[0].snapshot@, orig, names(vars@)));
        }
    }
    let ghost mut tms: Seq<Seq<Seq<Value>>> = seq![orig];
    let mut pivots: Vec<usize> = Vec::new();
    let mut col: usize = 0;
    while col < n && pivots.len() < m
        invariant
            n == vars@.len(),
            m == rows@.len(),
            m < usize::MAX,
            n < usize::MAX,
            matrix_ok(mat(rows@), n as nat),
            col <= n,
            pivots@.len() <= m,
            pivots@.len() <= col,
            forall|k: int| 0 <= k < pivots@.len() ==> #[trigger] pivots@[k] < col,
            forall|a: int, b: int| 0 <= a < b < pivots@.len() ==> pivots@[a] < pivots@[b],
            forall|k: int| 0 <= k < pivots@.len() ==> ceq(#[trigger] mat(rows@)[k][pivots@[k] as int].cval(), cone()),
            forall|k: int, i: int| 0 <= k < pivots@.len() && 0 <= i < m && i != k
                ==> czero(#[trigger] mat(rows@)[i][pivots@[k] as int].cval()),
            forall|x: Seq<CFrac>| assignment(x, n as nat) ==> (#[trigger] satisfies(mat(rows@), x)) == satisfies(orig, x),
            forall|i2: int, c: int| pivots@.len() <= i2 < m && 0 <= c < col ==> czero(#[trigger] mat(rows@)[i2][c].cval()),
            steps@.len() >= 1,
            steps@[0].description@ == "Write each equation in standard form"@,
            snapshot_is(steps@[0].snapshot@, orig, names(vars@)),
            forall|k: int| 0 <= k < steps@.len() ==> #[trigger] step_shows(steps@[k], orig, names(vars@)),
            orig.len() == m,
            trace_steps(steps@, tms, orig, names(vars@)),
            tms.last() == mat(rows@),
            forall|k: int, c: int| 0 <= k < pivots@.len() && 0 <= c < pivots@[k] ==> czero(#[trigger] mat(rows@)[k][c].cval()),
        decreases n - col,
    {
        let r = pivots.len();
        proof {
            assert forall|i: int| 0 <= i < rows@.len() implies col < (#[trigger] rows@[i])@.len() by {
                assert(mat(rows@)[i].len() == n + 1);
            }
        }
        let found = pick_pivot(&rows, r, col);
        if let Some(p) = found {
            let mut ops: Vec<String> = Vec::new();
            let ghost start = mat(rows@);
            let ghost piv0 = pivots@;
            let ghost mut opm: Seq<Seq<Seq<Value>>> = seq![start];
            assert(ops_chain(names(ops@), opm, col as int));
            assert(rref_upto(start, piv0, col as int));
            assert(czero(start[r as int][col as int].cval()) <==> p != r) by {
                if p != r {
                    assert(r <= r < p);
                }
            }
            if p != r {
                let ghost before = mat(rows@);
                let mut tmp: Vec<Value> = Vec::new();
                std::mem::swap(&mut tmp, &mut rows[p]);
                std::mem::swap(&mut tmp, &mut rows[r]);
                std::mem::swap(&mut tmp, &mut rows[p]);
                proof {
                    assert(mat(rows@) =~= before.update(p as int, before[r as int]).update(r as int, before[p as int]));
                    assert forall|x: Seq<CFrac>| assignment(x, n as nat) implies (#[trigger] satisfies(mat(rows@), x)) == satisfies(orig, x) by {
                        lemma_swap_rows(before, p as int, r as int, x);
                        assert(satisfies(before, x) == satisfies(orig, x));
                    }
                    assert forall|k: int| 0 <= k < pivots@.len() implies ceq(#[trigger] mat(rows@)[k][pivots@[k] as int].cval(), cone()) by {
                        assert(k < r);
                        assert(mat(rows@)[k] == before[k]);
                    }
                    assert forall|k: int, i: int| 0 <= k < pivots@.len() && 0 <= i < m && i != k
                        implies czero(#[trigger] mat(rows@)[i][pivots@[k] as int].cval()) by {
                        if i == r {
                            assert(mat(rows@)[i] == before[p as int]);
                            assert(czero(before[p as int][pivots@[k] as int].cval()));
                        } else if i == p {
                            assert(mat(rows@)[i] == before[r as int]);
                            assert(czero(before[r as int][pivots@[k] as int].cval()));
                        } else {
                            assert(mat(rows@)[i] == before[i]);
                        }
                    }
                    assert forall|k: int, c: int| 0 <= k < pivots@.len() && 0 <= c < pivots@[k]
                        implies czero(#[trigger] mat(rows@)[k][c].cval()) by {
                        assert(mat(rows@)[k] == before[k]);
                    }
                    assert forall|i2: int, c: int| pivots@.len() <= i2 < m && 0 <= c < col
                        implies czero(#[trigger] mat(rows@)[i2][c].cval()) by {
                        if i2 == r {
                            assert(mat(rows@)[i2] == before[p as int]);
                        } else if i2 == p {
                            assert(mat(rows@)[i2] == before[r as int]);
                        } else {
                            assert(mat(rows@)[i2] == before[i2]);
                        }
                    }
                }
                let mut t = String::from_str("swap ");
                let a = row_label(r);
                t.append(a.as_str());
                t.append(" and ");
                let b = row_label(p);
                t.append(b.as_str());
                let ghost nops = names(ops@);
                let ghost tv = t@;
                ops.push(t);
                proof {
                    assert(swap_ok(tv, before, mat(rows@), r as int, p as int));
                    lemma_chain_push(nops, opm, col as int, tv, mat(rows@));
                    assert(names(ops@) =~= nops.push(tv));
                    opm = opm.push(mat(rows@));
                    assert(first_nonzero(start, col as int, r as int, p as int));
                    assert(swap_ok(names(ops@)[0], opm[0], opm[1], r as int, p as int));
                }
            }
            let ghost sw: int = if p != r { 1 } else { 0 };
            let ghost msw = mat(rows@);
            assert(opm.len() == sw + 1 && opm[sw] == msw && names(ops@).len() == sw);
            assert(mat(rows@)[r as int] == rows@[r as int]@);
            assert(row_wf(rows@[r as int]@));
            let pv = rows[r][col].copy();
            assert(!czero(pv.cval()));
            if !is_int(&pv, 1) {
                let d = Value::integer(1).div(&pv);
                let inv = match d {
                    Ok(v) => v,
                    Err(_) => Value::integer(1),
                };
                let ghost before = mat(rows@);
                let newr = scaled_row(&rows[r], &inv, col);
                proof {
                    lemma_tri_den(pv.cval());
                    lemma_pivot_one(pv.cval(), inv.cval());
                    assert(!czero(inv.cval())) by {
                        if czero(inv.cval()) {
                            let (a, b) = (pv.cval(), inv.cval());
                            let pr = cmul(a, b);
                            assert(pr.0.0 == 0 && pr.1.0 == 0) by (nonlinear_arith)
                                requires pr == cmul(a, b), b.0.0 == 0, b.1.0 == 0, {}
                            crate::complex::lemma_cmul_den(a, b);
                            crate::complex::lemma_ceq_zero(cone(), pr);
                        }
                    }
                    assert forall|j: int| 0 <= j <= n implies ceq(#[trigger] newr@[j].cval(), cmul(before[r as int][j].cval(), inv.cval())) by {
                        if j == col {
                            assert(before[r as int][j].cval() == pv.cval());
                        }
                    }
                }
                rows[r] = newr;
                proof {
                    assert(mat(rows@) =~= before.update(r as int, newr@));
                    assert(before[r as int].len() == n + 1);
                    assert forall|x: Seq<CFrac>| assignment(x, n as nat) implies (#[trigger] satisfies(mat(rows@), x)) == satisfies(orig, x) by {
                        lemma_scale_row(before[r as int], newr@, inv.cval(), x, n as nat);
                        lemma_update_rows(before, r as int, newr@, x);
                        assert(satisfies(before, x) == satisfies(orig, x));
                    }
                    assert forall|k: int, i: int| 0 <= k < pivots@.len() && 0 <= i < m && i != k
                        implies czero(#[trigger] mat(rows@)[i][pivots@[k] as int].cval()) by {
                        if i == r {
                            let pc = pivots@[k] as int;
                            assert(czero(before[r as int][pc].cval()));
                            assert(pc != col);
                            assert(before[r as int][pc].wf() && newr@[pc].wf());
                            lemma_zero_factor(newr@[pc].cval(), before[r as int][pc].cval(), inv.cval());
                        } else {
                            assert(mat(rows@)[i] == before[i]);
                        }
                    }
                    assert forall|k: int| 0 <= k < pivots@.len() implies ceq(#[trigger] mat(rows@)[k][pivots@[k] as int].cval(), cone()) by {
                        assert(mat(rows@)[k] == before[k]);
                    }
                    assert forall|k: int, c: int| 0 <= k < pivots@.len() && 0 <= c < pivots@[k]
                        implies czero(#[trigger] mat(rows@)[k][c].cval()) by {
                        assert(mat(rows@)[k] == before[k]);
                    }
                    assert forall|i2: int, c: int| pivots@.len() <= i2 < m && 0 <= c < col
                        implies czero(#[trigger] mat(rows@)[i2][c].cval()) by {
                        if i2 == r {
                            assert(czero(before[r as int][c].cval()));
                            assert(before[r as int][c].wf() && newr@[c].wf());
                            lemma_zero_factor(newr@[c].cval(), before[r as int][c].cval(), inv.cval());
                        } else {
                            assert(mat(rows@)[i2] == before[i2]);
                        }
                    }
                }
                let mut t = row_label(r);
                t.append(" ← ");
                let a = row_label(r);
                t.append(a.as_str());
                t.append(" ÷ ");
                let q = paren(&pv);
                t.append(q.as_str());
                let ghost nops = names(ops@);
                let ghost tv = t@;
                ops.push(t);
                proof {
                    assert(mat(rows@)[r as int] == newr@);
                    assert(scale_ok(tv, before, mat(rows@), col as int, r as int, pv, inv));
                    lemma_chain_push(nops, opm, col as int, tv, mat(rows@));
                    assert(names(ops@) =~= nops.push(tv));
                    opm = opm.push(mat(rows@));
                    assert(scale_ok(names(ops@)[sw], opm[sw], opm[sw + 1], col as int, r as int, pv, inv));
                }
            }
            assert(mat(rows@)[r as int][col as int].cval() == cone());
            let ghost kk: int = names(ops@).len() as int;
            let ghost ops0 = names(ops@);
            let ghost opm0 = opm;
            let ghost mid = mat(rows@);
            let ghost mut erows: Seq<int> = Seq::empty();
            proof {
                assert(kk == sw + if msw[r as int][col as int].cval() == cone() { 0int } else { 1int });
                if sw == 1 {
                    assert(swap_ok(ops0[0], opm0[0], opm0[1], r as int, p as int));
                    assert(first_nonzero(opm0[0], col as int, r as int, p as int));
                }
                assert(opm0[sw] == msw);
                assert(opening(ops0, opm0, col as int, r as int, kk));
            }
            let mut i: usize = 0;
            while i < m
                invariant
                    n == vars@.len(),
                    m == rows@.len(),
                    m < usize::MAX,
                    n < usize::MAX,
                    col < n,
                    r < m,
                    r == pivots@.len(),
                    matrix_ok(mat(rows@), n as nat),
                    mat(rows@)[r as int][col as int].cval() == cone(),
                    forall|k: int| 0 <= k < pivots@.len() ==> #[trigger] pivots@[k] < col,
                    forall|k: int| 0 <= k < pivots@.len() ==> ceq(#[trigger] mat(rows@)[k][pivots@[k] as int].cval(), cone()),
                    forall|k: int, i2: int| 0 <= k < pivots@.len() && 0 <= i2 < m && i2 != k
                        ==> czero(#[trigger] mat(rows@)[i2][pivots@[k] as int].cval()),
                    forall|i2: int| 0 <= i2 < i && i2 != r ==> czero(#[trigger] mat(rows@)[i2][col as int].cval()),
                    forall|x: Seq<CFrac>| assignment(x, n as nat) ==> (#[trigger] satisfies(mat(rows@), x)) == satisfies(orig, x),
                    forall|i2: int, c: int| r <= i2 < m && 0 <= c < col ==> czero(#[trigger] mat(rows@)[i2][c].cval()),
                    ops_chain(names(ops@), opm, col as int),
                    opm.last() == mat(rows@),
                    opm[0] == start,
                    forall|k: int, c: int| 0 <= k < pivots@.len() && 0 <= c < pivots@[k] ==> czero(#[trigger] mat(rows@)[k][c].cval()),
                    kk == ops0.len(),
                    opm0.len() == kk + 1,
                    opening(ops0, opm0, col as int, r as int, kk),
                    names(ops@).len() == kk + erows.len(),
                    forall|j: int| 0 <= j < kk ==> #[trigger] names(ops@)[j] == ops0[j],
                    forall|j: int| 0 <= j <= kk ==> #[trigger] opm[j] == opm0[j],
                    opm0[kk] == mid,
                    mid.len() == m,
                    forall|j: int| 0 <= j < erows.len() ==> #[trigger] clears(names(ops@), opm, col as int, r as int, kk, erows, j),
                    forall|j1: int, j2: int| 0 <= j1 < j2 < erows.len() ==> erows[j1] < erows[j2],
                    forall|j: int| 0 <= j < erows.len() ==> 0 <= #[trigger] erows[j] < i,
                    forall|i2: int| 0 <= i2 < i ==> ((i2 != r && !czero(mid[i2][col as int].cval())) <==> #[trigger] erows.contains(i2)),
                    forall|i2: int| 0 <= i2 < m && (i2 >= i || i2 == r) ==> #[trigger] mat(rows@)[i2] == mid[i2],
                decreases m - i,
            {
                assert(mat(rows@)[i as int] == rows@[i as int]@);
                if i != r && !rows[i][col].is_zero() {
                    let factor = rows[i][col].copy();
                    let ghost before = mat(rows@);
                    assert(before[r as int] == rows@[r as int]@);
                    assert(row_wf(before[i as int]) && row_wf(before[r as int]));
                    let newi = reduced_row(&rows[i], &factor, &rows[r], col);
                    proof {
                        assert(factor.wf());
                        lemma_tri_den(factor.cval());
                        assert(before[r as int][col as int].cval() == cone());
                        lemma_elim_zero(factor.cval(), cone());
                        assert forall|j: int| 0 <= j <= n implies ceq(#[trigger] newi@[j].cval(),
                            csub(before[i as int][j].cval(), cmul(factor.cval(), before[r as int][j].cval()))) by {
                            if j == col {
                                assert(before[i as int][j].cval() == factor.cval());
                            }
                        }
                    }
                    rows[i] = newi;
                    proof {
                        assert(mat(rows@) =~= before.update(i as int, newi@));
                        assert forall|x: Seq<CFrac>| assignment(x, n as nat) implies (#[trigger] satisfies(mat(rows@), x)) == satisfies(orig, x) by {
                            lemma_elim_matrix(before, i as int, r as int, newi@, factor.cval(), n as nat, x);
                            assert(satisfies(before, x) == satisfies(orig, x));
                        }
                        assert forall|k: int| 0 <= k < pivots@.len() implies ceq(#[trigger] mat(rows@)[k][pivots@[k] as int].cval(), cone()) by {
                            let pc = pivots@[k] as int;
                            if k == i {
                                assert(czero(before[r as int][pc].cval()));
                                assert(newi@[pc].wf() && before[i as int][pc].wf() && before[r as int][pc].wf());
                                lemma_minus_zero(newi@[pc].cval(), before[i as int][pc].cval(), factor.cval(), before[r as int][pc].cval());
                                crate::complex::lemma_ceq_trans(newi@[pc].cval(), before[i as int][pc].cval(), cone());
                            } else {
                                assert(mat(rows@)[k] == before[k]);
                            }
                        }
                        assert forall|k: int, i2: int| 0 <= k < pivots@.len() && 0 <= i2 < m && i2 != k
                            implies czero(#[trigger] mat(rows@)[i2][pivots@[k] as int].cval()) by {
                            let pc = pivots@[k] as int;
                            if i2 == i {
                                assert(czero(before[r as int][pc].cval()));
                                assert(czero(before[i as int][pc].cval()));
                                assert(newi@[pc].wf() && before[i as int][pc].wf() && before[r as int][pc].wf());
                                lemma_minus_zero(newi@[pc].cval(), before[i as int][pc].cval(), factor.cval(), before[r as int][pc].cval());
                                crate::complex::lemma_ceq_zero(newi@[pc].cval(), before[i as int][pc].cval());
                            } else {
                                assert(mat(rows@)[i2] == before[i2]);
                            }
                        }
                        assert forall|i2: int| 0 <= i2 < i + 1 && i2 != r implies czero(#[trigger] mat(rows@)[i2][col as int].cval()) by {
                            if i2 != i {
                                assert(mat(rows@)[i2] == before[i2]);
                            }
                        }
                        assert forall|k: int, c: int| 0 <= k < pivots@.len() && 0 <= c < pivots@[k]
                            implies czero(#[trigger] mat(rows@)[k][c].cval()) by {
                            if k == i {
                                assert(pivots@[k] < col);
                                assert(czero(before[r as int][c].cval()));
                                assert(czero(before[i as int][c].cval()));
                                assert(newi@[c].wf() && before[i as int][c].wf() && before[r as int][c].wf());
                                lemma_minus_zero(newi@[c].cval(), before[i as int][c].cval(), factor.cval(), before[r as int][c].cval());
                                crate::complex::lemma_ceq_zero(newi@[c].cval(), before[i as int][c].cval());
                            } else {
                                assert(mat(rows@)[k] == before[k]);
                            }
                        }
                        assert forall|i2: int, c: int| r <= i2 < m && 0 <= c < col
                            implies czero(#[trigger] mat(rows@)[i2][c].cval()) by {
                            if i2 == i {
                                assert(czero(before[r as int][c].cval()));
                                assert(czero(before[i as int][c].cval()));
                                assert(newi@[c].wf() && before[i as int][c].wf() && before[r as int][c].wf());
                                lemma_minus_zero(newi@[c].cval(), before[i as int][c].cval(), factor.cval(), before[r as int][c].cval());
                                crate::complex::lemma_ceq_zero(newi@[c].cval(), before[i as int][c].cval());
                            } else {
                                assert(mat(rows@)[i2] == before[i2]);
                            }
                        }
                    }
                    let t = elim_op(i, r, &factor);
                    let ghost nops = names(ops@);
                    let ghost tv = t@;
                    ops.push(t);
                    proof {
                        assert(mat(rows@)[i as int] == newi@);
                        assert(czero(newi@[col as int].cval()));
                        assert(elim_ok(tv, before, mat(rows@), col as int, i as int, r as int, factor));
                        lemma_chain_push(nops, opm, col as int, tv, mat(rows@));
                        assert(names(ops@) =~= nops.push(tv));
                        let opm_b = opm;
                        let old_e = erows;
                        opm = opm.push(mat(rows@));
                        erows = erows.push(i as int);
                        assert(before[i as int] == mid[i as int]);
                        assert forall|j: int| 0 <= j < erows.len() implies #[trigger] clears(names(ops@), opm, col as int, r as int, kk, erows, j) by {
                            if j < old_e.len() {
                                assert(names(ops@)[kk + j] == nops[kk + j]);
                                assert(opm[kk + j] == opm_b[kk + j]);
                                assert(opm[kk + j + 1] == opm_b[kk + j + 1]);
                                assert(erows[j] == old_e[j]);
                                assert(clears(nops, opm_b, col as int, r as int, kk, old_e, j));
                                let f = choose|f: Value| #[trigger] elim_ok(nops[kk + j], opm_b[kk + j], opm_b[kk + j + 1], col as int, old_e[j], r as int, f);
                                assert(elim_ok(names(ops@)[kk + j], opm[kk + j], opm[kk + j + 1], col as int, erows[j], r as int, f));
                            } else {
                                assert(names(ops@)[kk + j] == tv);
                                assert(opm[kk + j] == before);
                                assert(elim_ok(names(ops@)[kk + j], opm[kk + j], opm[kk + j + 1], col as int, erows[j], r as int, factor));
                            }
                        }
                        assert forall|i2: int| 0 <= i2 < i + 1 implies ((i2 != r && !czero(mid[i2][col as int].cval())) <==> #[trigger] erows.contains(i2)) by {
                            if i2 < i {
                                if old_e.contains(i2) {
                                    let w = choose|w: int| 0 <= w < old_e.len() && old_e[w] == i2;
                                    assert(erows[w] == i2);
                                }
                                if erows.contains(i2) {
                                    let w = choose|w: int| 0 <= w < erows.len() && erows[w] == i2;
                                    if w < old_e.len() {
                                        assert(old_e[w] == i2);
                                    }
                                }
                            } else {
                                assert(erows[erows.len() - 1] == i2);
                            }
                        }
                        assert forall|j: int| 0 <= j < kk implies #[trigger] names(ops@)[j] == ops0[j] by {
                            assert(names(ops@)[j] == nops[j]);
                        }
                        assert forall|j: int| 0 <= j <= kk implies #[trigger] opm[j] == opm0[j] by {
                            assert(opm[j] == opm_b[j]);
                        }
                        assert forall|i2: int| 0 <= i2 < m && (i2 >= i + 1 || i2 == r) implies #[trigger] mat(rows@)[i2] == mid[i2] by {
                            assert(mat(rows@)[i2] == before[i2]);
                        }
                    }
                } else {
                    proof {
                        assert(mat(rows@)[i as int] == mid[i as int]);
                        assert forall|i2: int| 0 <= i2 < i + 1 implies ((i2 != r && !czero(mid[i2][col as int].cval())) <==> #[trigger] erows.contains(i2)) by {
                            if i2 == i && erows.contains(i2) {
                                let w = choose|w: int| 0 <= w < erows.len() && erows[w] == i2;
                                assert(erows[w] < i);
                            }
                        }
                    }
                }
                i = i + 1;
            }
            proof {
                lemma_opening_extend(ops0, opm0, names(ops@), opm, col as int, r as int, kk);
                assert(opm[kk] == mid);
                assert(clearing(names(ops@), opm, col as int, r as int, kk, erows));
                assert(pivot_ops(names(ops@), opm, col as int, r as int));
            }
            let ghost old_piv = pivots@;
            pivots.push(col);
            proof {
                assert forall|k: int, c: int| 0 <= k < pivots@.len() && 0 <= c < pivots@[k]
                    implies czero(#[trigger] mat(rows@)[k][c].cval()) by {
                    if k < old_piv.len() {
                        assert(pivots@[k] == old_piv[k]);
                    } else {
                        assert(k == r);
                    }
                }
            }
            if ops.len() > 0 {
                let mut d = String::from_str("Isolate ");
                d.append(vars[col].as_str());
                d.append(": ");
                let j = join(&ops, "; ");
                d.append(j.as_str());
                let snap = snapshot(&rows, vars);
                let ghost before = steps@;
                steps.push(Step { description: d, snapshot: snap });
                proof {
                    let cur = mat(rows@);
                    assert(isolate_ok(steps@[steps@.len() - 1], tms.last(), cur, names(vars@))) by {
                        assert(names(vars@)[col as int] == vars@[col as int]@);
                        assert(ops_chain(names(ops@), opm, col as int));
                        assert(tms.last() == start);
                        assert(rref_upto(tms.last(), piv0, col as int));
                        assert(piv0.len() == r);
                        assert(pivot_ops(names(ops@), opm, col as int, piv0.len() as int));
                    }
                    let t2 = tms.push(cur);
                    assert forall|k: int| 1 <= k < steps@.len() implies #[trigger] isolate_ok(steps@[k], t2[k - 1], t2[k], names(vars@)) by {
                        if k < before.len() {
                            assert(steps@[k] == before[k]);
                            assert(isolate_ok(before[k], tms[k - 1], tms[k], names(vars@)));
                        }
                    }
                    tms = t2;
                }
                proof {
                    let cur = mat(rows@);
                    assert(step_shows(steps@[steps@.len() - 1], orig, names(vars@))) by {
                        assert(names(vars@).len() == n);
                        assert(snapshot_is(steps@[steps@.len() - 1].snapshot@, cur, names(vars@)));
                        assert(matrix_ok(cur, names(vars@).len()));
                        assert(cur.len() == orig.len());
                        assert(forall|x: Seq<CFrac>| assignment(x, names(vars@).len()) ==> (#[trigger] satisfies(cur, x)) == satisfies(orig, x));
                    }
                    assert forall|k: int| 0 <= k < steps@.len() implies #[trigger] step_shows(steps@[k], orig, names(vars@)) by {
                        if k < before.len() {
                            assert(steps@[k] == before[k]);
                        }
                    }
                }
            } else {
                assert(opm.len() == 1);
            }
        }
        col = col + 1;
    }
    assert(trace_ok(steps@, orig, names(vars@))) by {
        assert(rref_upto(tms.last(), pivots@, n as int));
        assert(trace_mats(steps@, tms, orig, names(vars@)));
    }
    // A row 0 = c with c nonzero is a contradiction.
    let mut bad: Option<usize> = None;
    let mut i: usize = 0;
    while i < m
        invariant
            n == vars@.len(),
            m == rows@.len(),
            matrix_ok(mat(rows@), n as nat),
            bad matches Some(b) ==> b < m && !czero(mat(rows@)[b as int][n as int].cval())
                && forall|j: int| 0 <= j < n ==> czero(#[trigger] mat(rows@)[b as int][j].cval()),
            bad is None ==> forall|i2: int| 0 <= i2 < i ==> (czero(#[trigger] mat(rows@)[i2][n as int].cval())
                || exists|j: int| 0 <= j < n && !czero(#[trigger] mat(rows@)[i2][j].cval())),
        decreases m - i,
    {
        if bad.is_none() {
            assert(mat(rows@)[i as int] == rows@[i as int]@);
            let mut j: usize = 0;
            let mut all_zero = true;
            while j < n
                invariant
                    j <= n,
                    n == vars@.len(),
                    i < m,
                    m == rows@.len(),
                    matrix_ok(mat(rows@), n as nat),
                    mat(rows@)[i as int] == rows@[i as int]@,
                    all_zero == forall|k: int| 0 <= k < j ==> czero(#[trigger] mat(rows@)[i as int][k].cval()),
                decreases n - j,
            {
                if !rows[i][j].is_zero() {
                    all_zero = false;
                }
                j = j + 1;
            }
            if all_zero && !rows[i][n].is_zero() {
                bad = Some(i);
            }
        }
        i = i + 1;
    }
    if let Some(b) = bad {
        assert(mat(rows@)[b as int] == rows@[b as int]@);
        let mut reason = String::from_str("the equations contradict each other (they reduce to 0 = ");
        let t = format_value(&rows[b][n]);
        reason.append(t.as_str());
        reason.append(")");
        proof {
            let cur = mat(rows@);
            assert forall|x: Seq<CFrac>| assignment(x, n as nat) implies !#[trigger] satisfies(orig, x) by {
                assert(row_wf(cur[b as int]));
                lemma_zero_row(cur[b as int], x, n as nat);
                if satisfies(orig, x) {
                    assert(satisfies(cur, x));
                    assert(tzero(residual(cur[b as int], x)));
                }
            }
            assert(contradiction_text(rows@[b as int]@[n as int]) == reason@);
        }
        return (Solution::NoSolution { reason }, steps);
    }
    if pivots.len() == n {
        proof {
            assert forall|k: int| 0 <= k < pivots@.len() implies #[trigger] pivots@[k] == k by {
                lemma_pivots_ge(pivots@, k);
                lemma_pivots_le(pivots@, n as int, k);
            }
        }
        let mut vals: Vec<(String, Value)> = Vec::new();
        let mut k: usize = 0;
        while k < n
            invariant
                k <= n,
                n == vars@.len(),
                n <= m,
                m == rows@.len(),
                matrix_ok(mat(rows@), n as nat),
                vals@.len() == k,
                forall|i2: int| 0 <= i2 < k ==> (#[trigger] vals@[i2]).0@ == vars@[i2]@ && vals@[i2].1.wf()
                    && vals@[i2].1.cval() == mat(rows@)[i2][n as int].cval(),
            decreases n - k,
        {
            assert(mat(rows@)[k as int] == rows@[k as int]@);
            let v = rows[k][n].copy();
            vals.push((vars[k].clone(), v));
            k = k + 1;
        }
        proof {
            let cur = mat(rows@);
            let xs = values_of(vals@);
            assert forall|j: int| 0 <= j < xs.len() implies (#[trigger] xs[j]).0.1 > 0 && xs[j].1.1 > 0 by {
                assert(vals@[j].1.wf());
                lemma_tri_den(vals@[j].1.cval());
                assert(row_wf(cur[j]));
                assert(cur[j][n as int].wf());
            }
            assert(assignment(xs, n as nat));
            // rows below the unknowns' count are 0 = 0
            assert forall|x: Seq<CFrac>, i2: int| assignment(x, n as nat) && n <= i2 < m implies tzero(#[trigger] residual(cur[i2], x)) by {
                assert forall|j: int| 0 <= j < n implies czero(#[trigger] cur[i2][j].cval()) by {
                    assert(pivots@[j] == j);
                    assert(czero(cur[i2][pivots@[j] as int].cval()));
                }
                assert(row_wf(cur[i2]));
                lemma_zero_row(cur[i2], x, n as nat);
                if !czero(cur[i2][n as int].cval()) {
                    assert(bad is None);
                    let w = choose|j: int| 0 <= j < n && !czero(#[trigger] cur[i2][j].cval());
                    assert(czero(cur[i2][w].cval()));
                }
            }
            // rows above are x_i = rhs_i
            assert forall|x: Seq<CFrac>, i2: int| assignment(x, n as nat) && 0 <= i2 < n implies
                tzero(#[trigger] residual(cur[i2], x)) == ceq(x[i2], cur[i2][n as int].cval()) by {
                assert forall|j: int| 0 <= j < n && j != i2 implies czero(#[trigger] cur[i2][j].cval()) by {
                    assert(pivots@[j] == j);
                    assert(czero(cur[i2][pivots@[j] as int].cval()));
                }
                assert(pivots@[i2] == i2);
                assert(row_wf(cur[i2]));
                lemma_unit_row(cur[i2], x, n as nat, i2);
            }
            assert forall|i2: int| 0 <= i2 < cur.len() implies tzero(#[trigger] residual(cur[i2], xs)) by {
                if i2 < n {
                    assert(tzero(residual(cur[i2], xs)) == ceq(xs[i2], cur[i2][n as int].cval()));
                    crate::rational::lemma_qeq_refl(xs[i2].0);
                    crate::rational::lemma_qeq_refl(xs[i2].1);
                } else {
                    assert(tzero(residual(cur[i2], xs)));
                }
            }
            assert(satisfies(cur, xs));
            assert(satisfies(orig, xs));
            assert forall|x: Seq<CFrac>| assignment(x, n as nat) && #[trigger] satisfies(orig, x)
                implies forall|j: int| 0 <= j < n ==> ceq(#[trigger] x[j], xs[j]) by {
                assert(satisfies(cur, x));
                assert forall|j: int| 0 <= j < n implies ceq(#[trigger] x[j], xs[j]) by {
                    assert(tzero(residual(cur[j], x)));
                    assert(tzero(residual(cur[j], x)) == ceq(x[j], cur[j][n as int].cval()));
                }
            }
        }
        return (Solution::Unique(vals), steps);
    }
    // Some unknowns are free: express the others through them.
    let mut free_cols: Vec<usize> = Vec::new();
    let mut c: usize = 0;
    let mut t: usize = 0;
    while c < n
        invariant
            c <= n,
            n == vars@.len(),
            t <= pivots@.len(),
            free_cols@.len() + t == c,
            forall|k: int| 0 <= k < free_cols@.len() ==> #[trigger] free_cols@[k] < c,
            forall|k: int| 0 <= k < t ==> #[trigger] pivots@[k] < c,
            forall|k: int| t <= k < pivots@.len() ==> #[trigger] pivots@[k] >= c,
            forall|k: int| 0 <= k < pivots@.len() ==> #[trigger] pivots@[k] < n,
            forall|a: int, b: int| 0 <= a < b < pivots@.len() ==> pivots@[a] < pivots@[b],
            forall|a: int, b: int| 0 <= a < b < free_cols@.len() ==> free_cols@[a] < free_cols@[b],
            forall|a: int, k: int| 0 <= a < free_cols@.len() && 0 <= k < pivots@.len() ==> free_cols@[a] != pivots@[k],
            forall|c2: int| 0 <= c2 < c ==> #[trigger] col_covered(pivots@, t as int, free_cols@, c2),
        decreases n - c,
    {
        let ghost before = free_cols@;
        if t < pivots.len() && pivots[t] == c {
            t = t + 1;
            proof {
                assert forall|k: int| t <= k < pivots@.len() implies #[trigger] pivots@[k] >= c + 1 by {
                    assert(pivots@[t - 1] < pivots@[k]);
                }
                assert forall|c2: int| 0 <= c2 < c + 1 implies #[trigger] col_covered(pivots@, t as int, free_cols@, c2) by {
                    if c2 == c {
                        assert(pivots@[t - 1] == c2);
                    } else {
                        assert(col_covered(pivots@, t - 1, free_cols@, c2));
                    }
                }
            }
        } else {
            proof {
                assert forall|k: int| 0 <= k < pivots@.len() implies #[trigger] pivots@[k] != c by {
                    if k >= t {
                        if k > t {
                            assert(pivots@[t as int] < pivots@[k]);
                        }
                    }
                }
            }
            free_cols.push(c);
            proof {
                assert forall|c2: int| 0 <= c2 < c + 1 implies #[trigger] col_covered(pivots@, t as int, free_cols@, c2) by {
                    if c2 == c {
                        assert(free_cols@[before.len() as int] == c2);
                    } else {
                        assert(col_covered(pivots@, t as int, before, c2));
                        if !(exists|k: int| 0 <= k < t && #[trigger] pivots@[k] == c2) {
                            let a = choose|a: int| 0 <= a < before.len() && #[trigger] before[a] == c2;
                            assert(free_cols@[a] == c2);
                        }
                    }
                }
            }
        }
        c = c + 1;
    }
    proof {
        if t < pivots@.len() {
            assert(pivots@[t as int] >= n);
        }
    }
    let mut dependent: Vec<(String, LinearExpr)> = Vec::new();
    let mut k: usize = 0;
    while k < pivots.len()
        invariant
            k <= pivots@.len(),
            pivots@.len() <= m,
            m == rows@.len(),
            n == vars@.len(),
            matrix_ok(mat(rows@), n as nat),
            forall|a: int| 0 <= a < pivots@.len() ==> #[trigger] pivots@[a] < n,
            forall|a: int| 0 <= a < free_cols@.len() ==> #[trigger] free_cols@[a] < n,
            free_cols@.len() + pivots@.len() == n,
            dependent@.len() == k,
            forall|a: int| 0 <= a < k ==> (#[trigger] dependent@[a]).1.wf(),
            forall|a: int| 0 <= a < k ==> (#[trigger] dependent@[a]).0@ == vars@[pivots@[a] as int]@
                && dependent@[a].1.terms@.len() == free_cols@.len()
                && dependent@[a].1.constant.cval() == mat(rows@)[a][n as int].cval(),
            forall|a: int, j: int| 0 <= a < k && 0 <= j < free_cols@.len() ==>
                (#[trigger] dependent@[a].1.terms@[j]).0@ == vars@[free_cols@[j] as int]@
                && ceq(dependent@[a].1.terms@[j].1.cval(), crate::complex::cneg(mat(rows@)[a][free_cols@[j] as int].cval())),
        decreases pivots@.len() - k,
    {
        assert(mat(rows@)[k as int] == rows@[k as int]@);
        let mut terms: Vec<(String, Value)> = Vec::new();
        let mut j: usize = 0;
        while j < free_cols.len()
            invariant
                j <= free_cols@.len(),
                k < m,
                m == rows@.len(),
                n == vars@.len(),
                matrix_ok(mat(rows@), n as nat),
                mat(rows@)[k as int] == rows@[k as int]@,
                forall|a: int| 0 <= a < free_cols@.len() ==> #[trigger] free_cols@[a] < n,
                forall|a: int| 0 <= a < terms@.len() ==> (#[trigger] terms@[a]).1.wf(),
                terms@.len() == j,
                forall|a: int| 0 <= a < j ==> (#[trigger] terms@[a]).0@ == vars@[free_cols@[a] as int]@
                    && ceq(terms@[a].1.cval(), crate::complex::cneg(mat(rows@)[k as int][free_cols@[a] as int].cval())),
            decreases free_cols@.len() - j,
        {
            let fc = free_cols[j];
            assert(row_wf(mat(rows@)[k as int]));
            let name = vars[fc].clone();
            let v = rows[k][fc].neg();
            proof {
                let w = mat(rows@)[k as int][fc as int].cval();
                assert(v.cval() == crate::complex::cneg(w) || ceq(v.cval(), crate::complex::cneg(w)));
                crate::rational::lemma_qeq_refl(v.cval().0);
                crate::rational::lemma_qeq_refl(v.cval().1);
            }
            terms.push((name, v));
            j = j + 1;
        }
        assert(row_wf(mat(rows@)[k as int]));
        let constant = rows[k][n].copy();
        let name = vars[pivots[k]].clone();
        let ghost tv = terms@;
        dependent.push((name, LinearExpr { terms, constant }));
        proof {
            assert(dependent@[k as int].1.terms@ == tv);
        }
        k = k + 1;
    }
    let mut free: Vec<String> = Vec::new();
    let mut j: usize = 0;
    while j < free_cols.len()
        invariant
            j <= free_cols@.len(),
            free@.len() == j,
            n == vars@.len(),
            forall|a: int| 0 <= a < free_cols@.len() ==> #[trigger] free_cols@[a] < n,
            free_cols@.len() + pivots@.len() == n,
            pivots@.len() < n,
            dependent@.len() == pivots@.len(),
            forall|a: int| 0 <= a < dependent@.len() ==> (#[trigger] dependent@[a]).1.wf(),
            forall|a: int| 0 <= a < j ==> (#[trigger] free@[a])@ == vars@[free_cols@[a] as int]@,
        decreases free_cols@.len() - j,
    {
        free.push(vars[free_cols[j]].clone());
        j = j + 1;
    }
    proof {
        let cur = mat(rows@);
        let piv = pivots@.map_values(|v: usize| v as int);
        let fcs = free_cols@.map_values(|v: usize| v as int);
        let dv = dependent@;
        let r0 = pivots@.len() as int;
        assert(col == n || r0 == m);
        // the rows below the pivots read 0 = 0
        assert forall|x: Seq<CFrac>, i2: int| assignment(x, n as nat) && r0 <= i2 < m implies
            tzero(#[trigger] residual(cur[i2], x)) by {
            assert forall|j: int| 0 <= j < n implies czero(#[trigger] cur[i2][j].cval()) by {
                assert(col == n);
            }
            assert(row_wf(cur[i2]));
            lemma_zero_row(cur[i2], x, n as nat);
            if !czero(cur[i2][n as int].cval()) {
                let w = choose|j: int| 0 <= j < n && !czero(#[trigger] cur[i2][j].cval());
                assert(czero(cur[i2][w].cval()));
            }
        }
        // each pivot row gives its dependent unknown
        assert forall|x: Seq<CFrac>, k: int| assignment(x, n as nat) && 0 <= k < r0 implies
            tzero(#[trigger] residual(cur[k], x)) == teq(tri(x[piv[k]]), dep_value(dv[k].1, fcs, x)) by {
            let pk = piv[k];
            assert(pk == pivots@[k] as int);
            assert forall|j: int| 0 <= j < fcs.len() implies 0 <= #[trigger] fcs[j] < n && fcs[j] != pk by {
                assert(fcs[j] == free_cols@[j] as int);
            }
            assert forall|a: int, b: int| 0 <= a < b < fcs.len() implies fcs[a] < fcs[b] by {
                assert(free_cols@[a] < free_cols@[b]);
            }
            assert forall|cc: int| 0 <= cc < n && cc != pk && !fcs.contains(cc) implies czero(#[trigger] cur[k][cc].cval()) by {
                assert(col_covered(pivots@, r0, free_cols@, cc));
                if !(exists|k2: int| 0 <= k2 < r0 && #[trigger] pivots@[k2] == cc) {
                    let a = choose|a: int| 0 <= a < free_cols@.len() && #[trigger] free_cols@[a] == cc;
                    assert(fcs[a] == cc);
                } else {
                    let k2 = choose|k2: int| 0 <= k2 < r0 && #[trigger] pivots@[k2] == cc;
                    assert(k2 != k);
                    assert(czero(cur[k][pivots@[k2] as int].cval()));
                }
            }
            let e = dv[k].1;
            assert forall|j: int| 0 <= j < fcs.len() implies (#[trigger] e.terms@[j]).1.wf()
                && ceq(e.terms@[j].1.cval(), crate::complex::cneg(cur[k][fcs[j]].cval())) by {
                assert(dv[k].1.terms@[j] == e.terms@[j]);
                assert(fcs[j] == free_cols@[j] as int);
            }
            assert(e.wf());
            assert(row_wf(cur[k]));
            lemma_pivot_row(cur[k], x, n as nat, pk, fcs, e);
        }
        assert(param_ok(dv, free@, piv, fcs, orig, names(vars@))) by {
            assert forall|x: Seq<CFrac>| assignment(x, n as nat) implies (#[trigger] satisfies(orig, x) <==>
                forall|k: int| 0 <= k < dv.len() ==> teq(tri(x[piv[k]]), #[trigger] dep_value(dv[k].1, fcs, x))) by {
                assert(satisfies(cur, x) == satisfies(orig, x));
                if satisfies(cur, x) {
                    assert forall|k: int| 0 <= k < dv.len() implies teq(tri(x[piv[k]]), #[trigger] dep_value(dv[k].1, fcs, x)) by {
                        assert(tzero(residual(cur[k], x)));
                    }
                }
                if forall|k: int| 0 <= k < dv.len() ==> teq(tri(x[piv[k]]), #[trigger] dep_value(dv[k].1, fcs, x)) {
                    assert forall|i2: int| 0 <= i2 < cur.len() implies tzero(#[trigger] residual(cur[i2], x)) by {
                        if i2 < r0 {
                            assert(teq(tri(x[piv[i2]]), dep_value(dv[i2].1, fcs, x)));
                        }
                    }
                }
            }
            assert forall|k: int| 0 <= k < dv.len() implies (#[trigger] dv[k]).0@ == names(vars@)[piv[k]] by {}
            assert forall|j: int| 0 <= j < free@.len() implies (#[trigger] free@[j])@ == names(vars@)[fcs[j]] by {}
            assert forall|k: int, j: int| 0 <= k < dv.len() && 0 <= j < fcs.len() implies
                (#[trigger] dv[k].1.terms@[j]).0@ == names(vars@)[fcs[j]] by {}
            assert forall|a: int, b: int| 0 <= a < piv.len() && 0 <= b < fcs.len() implies piv[a] != fcs[b] by {
                assert(free_cols@[b] != pivots@[a]);
            }
            assert forall|a: int, b: int| 0 <= a < b < fcs.len() implies fcs[a] < fcs[b] by {
                assert(free_cols@[a] < free_cols@[b]);
            }
            assert forall|a: int, b: int| 0 <= a < b < piv.len() implies piv[a] < piv[b] by {
                assert(pivots@[a] < pivots@[b]);
            }
            assert forall|k: int, j: int| 0 <= k < dv.len() && 0 <= j < fcs.len() && fcs[j] < piv[k]
                implies czero((#[trigger] dv[k].1.terms@[j]).1.cval()) by {
                let w = cur[k][fcs[j]];
                assert(fcs[j] == free_cols@[j] as int);
                assert(czero(w.cval()));
                assert(row_wf(cur[k]));
                assert(w.wf());
                let t = dv[k].1.terms@[j].1;
                assert(dv[k].1.wf());
                assert(t.wf());
                assert(ceq(t.cval(), crate::complex::cneg(w.cval())));
                crate::complex::lemma_ceq_zero(t.cval(), crate::complex::cneg(w.cval()));
            }
        }
    }
    (Solution::Infinite { dependent, free }, steps)
}


/// Snapshot lines from `k` on, each indented and on a line of its own.
pub open spec fn lines_block(lines: Seq<String>, k: int) -> Seq<char>
    decreases lines.len() - k,
{
    if k < 0 || k >= lines.len() {
        seq![]
    } else {
        "       "@ + lines[k]@ + "\n"@ + lines_block(lines, k + 1)
    }
}

/// Numbered steps from `k` on, each followed by its snapshot.
pub open spec fn steps_block(steps: Seq<Step>, k: int) -> Seq<char>
    decreases steps.len() - k,
{
    if k < 0 || k >= steps.len() {
        seq![]
    } else {
        "  "@ + decimal_text((k + 1) as nat) + ". "@ + steps[k].description@ + "\n"@
            + lines_block(steps[k].snapshot@, 0) + steps_block(steps, k + 1)
    }
}

/// One variable's line from its value's result line: `x = 1/2 = 0.5`, or
/// `x ≈ 1.4142` for a result that is only an approximation.
pub open spec fn value_line(var: Seq<char>, r: Seq<char>) -> Seq<char> {
    if r.len() >= 2 && r[0] == '≈' && r[1] == ' ' {
        var + " ≈ "@ + r.subrange(2, r.len() as int)
    } else {
        var + " = "@ + r
    }
}

/// The lines of a unique solution from `k` on, separated by newlines.
pub open spec fn value_lines(vals: Seq<(String, Value)>, results: Seq<Seq<char>>, k: int) -> Seq<char>
    decreases vals.len() - k,
{
    if k < 0 || k >= vals.len() {
        seq![]
    } else {
        (if k == 0 { seq![] } else { "\n"@ }) + value_line(vals[k].0@, results[k]) + value_lines(vals, results, k + 1)
    }
}

/// Names from `k` on, separated by ", ".
pub open spec fn name_list(names: Seq<String>, k: int) -> Seq<char>
    decreases names.len() - k,
{
    if k < 0 || k >= names.len() {
        seq![]
    } else {
        (if k == 0 { seq![] } else { ", "@ }) + names[k]@ + name_list(names, k + 1)
    }
}

/// Each dependent variable from `k` on, on a line of its own.
pub open spec fn dependent_lines(dep: Seq<(String, LinearExpr)>, k: int) -> Seq<char>
    decreases dep.len() - k,
{
    if k < 0 || k >= dep.len() {
        seq![]
    } else {
        "\n  "@ + dep[k].0@ + " = "@ + dep[k].1.text() + dependent_lines(dep, k + 1)
    }
}

/// The full report: the steps, then the answer. `results` holds the result
/// line of each value of a unique solution.
pub open spec fn solution_text(sol: Solution, steps: Seq<Step>, results: Seq<Seq<char>>) -> Seq<char> {
    "Steps:\n"@ + steps_block(steps, 0) + match sol {
        Solution::Unique(vals) => if vals@.len() == 0 {
            "The equation is always true."@
        } else {
            value_lines(vals@, results, 0)
        },
        Solution::Infinite { dependent, free } => "Infinitely many solutions ("@ + name_list(free@, 0)
            + " can be anything):"@ + dependent_lines(dependent@, 0),
        Solution::NoSolution { reason } => "No solution: "@ + reason@ + "."@,
    }
}

/// The results `format_result` gives the values of a unique solution.
pub open spec fn exact_results(sol: Solution) -> Seq<Option<Seq<char>>> {
    match sol {
        Solution::Unique(vals) => vals@.map_values(|p: (String, Value)| result_text(p.1)),
        _ => seq![],
    }
}

pub open spec fn report_ready(sol: Solution) -> bool {
    match sol {
        Solution::Unique(vals) => forall|k: int| 0 <= k < vals@.len() ==> (#[trigger] vals@[k]).1.wf(),
        Solution::Infinite { dependent, .. } => forall|k: int| 0 <= k < dependent@.len() ==> (#[trigger] dependent@[k]).1.wf(),
        Solution::NoSolution { .. } => true,
    }
}

fn push_steps(out: &mut String, steps: &[Step])
    requires
        steps@.len() < usize::MAX,
    ensures
        final(out)@ == old(out)@ + steps_block(steps@, 0),
{
    let ghost start = old(out)@;
    let mut i: usize = 0;
    while i < steps.len()
        invariant
            i <= steps@.len(),
            steps@.len() < usize::MAX,
            out@ + steps_block(steps@, i as int) == start + steps_block(steps@, 0),
        decreases steps@.len() - i,
    {
        let ghost before = out@;
        out.append("  ");
        let num = usize_text(i + 1);
        out.append(num.as_str());
        out.append(". ");
        out.append(steps[i].description.as_str());
        out.append("\n");
        let lines = &steps[i].snapshot;
        let mut j: usize = 0;
        let ghost head = out@;
        while j < lines.len()
            invariant
                j <= lines@.len(),
                out@ + lines_block(lines@, j as int) == head + lines_block(lines@, 0),
            decreases lines@.len() - j,
        {
            out.append("       ");
            out.append(lines[j].as_str());
            out.append("\n");
            j = j + 1;
        }
        proof {
            assert(lines_block(lines@, j as int) == Seq::<char>::empty());
            assert(out@ == head + lines_block(lines@, 0));
            assert(out@ + steps_block(steps@, i + 1) == before + steps_block(steps@, i as int));
        }
        i = i + 1;
    }
    assert(steps_block(steps@, i as int) == Seq::<char>::empty());
}

fn push_dependent(out: &mut String, dependent: &Vec<(String, LinearExpr)>)
    requires
        forall|a: int| 0 <= a < dependent@.len() ==> (#[trigger] dependent@[a]).1.wf(),
    ensures
        final(out)@ == old(out)@ + dependent_lines(dependent@, 0),
{
    let ghost h3 = out@;
    let mut k: usize = 0;
    while k < dependent.len()
        invariant
            k <= dependent@.len(),
            forall|a: int| 0 <= a < dependent@.len() ==> (#[trigger] dependent@[a]).1.wf(),
            out@ + dependent_lines(dependent@, k as int) == h3 + dependent_lines(dependent@, 0),
        decreases dependent@.len() - k,
    {
        let (var, e) = &dependent[k];
        out.append("\n  ");
        out.append(var.as_str());
        out.append(" = ");
        let t = e.to_text();
        out.append(t.as_str());
        k = k + 1;
    }
    assert(dependent_lines(dependent@, k as int) == Seq::<char>::empty());
}

/// The report of a solution and its steps, given the result line of each
/// value of a unique solution (in order).
pub fn format_solution_with(solution: &Solution, steps: &[Step], results: &[String]) -> (r: String)
    requires
        steps@.len() < usize::MAX,
        solution matches Solution::Unique(vals) ==> results@.len() == vals@.len(),
        report_ready(*solution),
    ensures
        r@ == solution_text(*solution, steps@, results@.map_values(|s: String| s@)),
{
    let ghost rv = results@.map_values(|s: String| s@);
    let mut out = String::from_str("Steps:\n");
    push_steps(&mut out, steps);
    let ghost head = out@;
    match solution {
        Solution::Unique(values) => {
            if values.len() == 0 {
                out.append("The equation is always true.");
            } else {
                let mut k: usize = 0;
                while k < values.len()
                    invariant
                        k <= values@.len(),
                        results@.len() == values@.len(),
                        rv == results@.map_values(|s: String| s@),
                        out@ + value_lines(values@, rv, k as int) == head + value_lines(values@, rv, 0),
                    decreases values@.len() - k,
                {
                    let ghost before = out@;
                    if k > 0 {
                        out.append("\n");
                    }
                    let r = results[k].as_str();
                    let (var, _) = &values[k];
                    out.append(var.as_str());
                    if r.unicode_len() >= 2 && r.get_char(0) == '≈' && r.get_char(1) == ' ' {
                        out.append(" ≈ ");
                        let rest = r.substring_char(2, r.unicode_len());
                        out.append(rest);
                    } else {
                        out.append(" = ");
                        out.append(r);
                    }
                    proof {
                        assert(rv[k as int] == r@);
                        assert(out@ == before + (if k == 0 { Seq::<char>::empty() } else { "\n"@ })
                            + value_line(values@[k as int].0@, rv[k as int]));
                    }
                    k = k + 1;
                }
                assert(value_lines(values@, rv, k as int) == Seq::<char>::empty());
            }
        },
        Solution::Infinite { dependent, free } => {
            out.append("Infinitely many solutions (");
            let mut k: usize = 0;
            let ghost h2 = out@;
            while k < free.len()
                invariant
                    k <= free@.len(),
                    out@ + name_list(free@, k as int) == h2 + name_list(free@, 0),
                decreases free@.len() - k,
            {
                if k > 0 {
                    out.append(", ");
                }
                out.append(free[k].as_str());
                k = k + 1;
            }
            assert(name_list(free@, k as int) == Seq::<char>::empty());
            out.append(" can be anything):");
            push_dependent(&mut out, dependent);
        },
        Solution::NoSolution { reason } => {
            out.append("No solution: ");
            out.append(reason.as_str());
            out.append(".");
        },
    }
    out
}

/// The report of a solution and its steps, each value shown by its exact
/// result line; `None` when a value's line needs a floating-point
/// approximation.
pub fn format_solution(solution: &Solution, steps: &[Step]) -> (r: Option<String>)
    requires
        steps@.len() < usize::MAX,
        report_ready(*solution),
    ensures
        r is None <==> exists|k: int| 0 <= k < exact_results(*solution).len() && (#[trigger] exact_results(*solution)[k]) is None,
        r matches Some(s) ==> s@ == solution_text(*solution, steps@, exact_results(*solution).map_values(|o: Option<Seq<char>>| o->Some_0)),
{
    let mut results: Vec<String> = Vec::new();
    let ghost ex = exact_results(*solution);
    if let Solution::Unique(values) = solution {
        let mut k: usize = 0;
        while k < values.len()
            invariant
                k <= values@.len(),
                ex == values@.map_values(|p: (String, Value)| result_text(p.1)),
                ex == exact_results(*solution),
                forall|a: int| 0 <= a < values@.len() ==> (#[trigger] values@[a]).1.wf(),
                results@.len() == k,
                forall|a: int| 0 <= a < k ==> ex[a] == Some((#[trigger] results@[a])@),
            decreases values@.len() - k,
        {
            match format_result(&values[k].1) {
                Some(t) => results.push(t),
                None => {
                    assert(exact_results(*solution)[k as int] is None);
                    return None;
                },
            }
            k = k + 1;
        }
        assert(forall|a: int| 0 <= a < ex.len() ==> ex[a] == Some(results@[a]@));
    }
    assert(forall|a: int| 0 <= a < ex.len() ==> ex[a] is Some);
    let ghost rv = results@.map_values(|s: String| s@);
    assert(rv =~= ex.map_values(|o: Option<Seq<char>>| o->Some_0));
    Some(format_solution_with(solution, steps, results.as_slice()))
}

} // verus!
