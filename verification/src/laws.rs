//! Properties that hold across calls and for all inputs: of the edit
//! distance behind the suggestions, and of exact arithmetic.

use vstd::prelude::*;
use crate::suggest::{edit_distance, suggestion, lowercase, best_index, lemma_best_index};
use crate::eval::{BinOp, binop_ok, EvalResult};
use crate::value::Value;
use crate::error::EvalError;
use crate::complex::{CFrac, ceq, cadd, csub, cmul, cdiv, cnorm_sqr, czero, lemma_ceq_trans, lemma_ceq_zero};
use crate::rational::{qadd, qsub, qmul};
use crate::power::{Tri, tri, teq, tmul, tone, cone, lemma_tri_ceq, lemma_tri_cmul, lemma_tri_den, lemma_tri_recip,
    lemma_teq_trans, lemma_teq_sym, lemma_tmul_cong, lemma_tmul_assoc, lemma_tmul_one};
use crate::linalg::lemma_teq_refl;

verus! {

/// Edit distance is symmetric: turning `a` into `b` takes as many edits as
/// turning `b` into `a`.
pub proof fn law_edit_distance_symmetric(a: Seq<char>, b: Seq<char>)
    ensures
        edit_distance(a, b) == edit_distance(b, a),
    decreases a.len() + b.len(),
{
    if a.len() > 0 && b.len() > 0 {
        law_edit_distance_symmetric(a.drop_last(), b.drop_last());
        law_edit_distance_symmetric(a.drop_last(), b);
        law_edit_distance_symmetric(a, b.drop_last());
    }
}

/// Two strings are at edit distance zero exactly when they are equal.
pub proof fn law_edit_distance_zero_iff_equal(a: Seq<char>, b: Seq<char>)
    ensures
        (edit_distance(a, b) == 0) == (a == b),
    decreases a.len() + b.len(),
{
    crate::suggest::lemma_edit_distance_self(a);
    if a.len() > 0 && b.len() > 0 {
        law_edit_distance_zero_iff_equal(a.drop_last(), b.drop_last());
        if edit_distance(a, b) == 0 {
            assert(a.drop_last() == b.drop_last());
            assert(a.last() == b.last());
            assert(a =~= a.drop_last().push(a.last()));
            assert(b =~= b.drop_last().push(b.last()));
        }
    } else if a.len() == 0 && b.len() == 0 {
        assert(a =~= b);
    }
}

/// A suggestion is one of the candidates, no candidate is closer to the
/// lowercased name, and it is never as far away as the name is long.
pub proof fn law_suggestion_is_closest(name: Seq<char>, cands: Seq<Seq<char>>, s: Seq<char>)
    requires
        suggestion(name, cands) == Some(s),
    ensures
        cands.contains(s),
        forall|j: int| 0 <= j < cands.len() ==>
            edit_distance(lowercase(name), s) <= edit_distance(lowercase(name), #[trigger] cands[j]),
        edit_distance(lowercase(name), s) < name.len(),
{
    let low = lowercase(name);
    lemma_best_index(low, cands, cands.len() as int);
    let b = best_index(low, cands, cands.len() as int);
    assert(cands[b] == s);
}

/// Dividing by zero is an error, whatever the dividend.
pub proof fn law_division_by_zero(a: Value, b: Value, r: EvalResult)
    requires
        binop_ok(BinOp::Div, a, b, r),
        czero(b.cval()),
    ensures
        r == Err::<Option<Value>, EvalError>(EvalError::DivisionByZero),
{
}

proof fn lemma_wf_den(a: Value)
    requires
        a.wf(),
    ensures
        a.cval().0.1 > 0,
        a.cval().1.1 > 0,
{
}

/// A value minus itself is exactly zero.
pub proof fn law_sub_self_is_zero(a: Value, r: EvalResult)
    requires
        a.wf(),
        binop_ok(BinOp::Sub, a, a, r),
    ensures
        r matches Ok(Some(v)) && czero(v.cval()),
{
    lemma_wf_den(a);
    let x = a.cval();
    let d = csub(x, x);
    let v = r->Ok_0->Some_0;
    lemma_wf_den(v);
    assert(d.0.0 == 0 && d.1.0 == 0) by (nonlinear_arith)
        requires d == csub(x, x), {}
    assert(d.0.1 > 0 && d.1.1 > 0) by (nonlinear_arith)
        requires d == csub(x, x), x.0.1 > 0, x.1.1 > 0, {}
    lemma_ceq_zero(v.cval(), d);
}

proof fn lemma_comm(x: CFrac, y: CFrac)
    ensures
        cadd(x, y) == cadd(y, x),
        cmul(x, y) == cmul(y, x),
{
    assert(cadd(x, y) == cadd(y, x)) by (nonlinear_arith) {}
    assert(cmul(x, y) == cmul(y, x)) by (nonlinear_arith) {}
}

/// Exact addition and multiplication do not depend on the order of the operands.
pub proof fn law_add_mul_commute(a: Value, b: Value, op: BinOp, r1: EvalResult, r2: EvalResult)
    requires
        a.wf(),
        b.wf(),
        op is Add || op is Mul,
        binop_ok(op, a, b, r1),
        binop_ok(op, b, a, r2),
    ensures
        r1 matches Ok(Some(v1)) && r2 matches Ok(Some(v2)) && ceq(v1.cval(), v2.cval()),
{
    lemma_wf_den(a);
    lemma_wf_den(b);
    lemma_comm(a.cval(), b.cval());
    let v1 = r1->Ok_0->Some_0;
    let v2 = r2->Ok_0->Some_0;
    let x = a.cval();
    let y = b.cval();
    let m = if op is Add { cadd(x, y) } else { cmul(x, y) };
    assert(m.0.1 != 0 && m.1.1 != 0) by (nonlinear_arith)
        requires
            m == cadd(x, y) || m == cmul(x, y),
            x.0.1 > 0, x.1.1 > 0, y.0.1 > 0, y.1.1 > 0,
    {}
    assert(ceq(m, v2.cval())) by (nonlinear_arith)
        requires ceq(v2.cval(), m), {}
    lemma_ceq_trans(v1.cval(), m, v2.cval());
}


/// `a / b` is `a · (1/b)`, over common denominators.
proof fn lemma_tri_cdiv(a: CFrac, b: CFrac)
    requires
        a.0.1 > 0 && a.1.1 > 0,
        b.0.1 > 0 && b.1.1 > 0,
        !czero(b),
    ensures
        teq(tri(cdiv(a, b)), tmul(tri(a), tri(cdiv(cone(), b)))),
        tri(cdiv(cone(), b)).2 > 0,
{
    let (p, q, r, s) = (a.0.0, a.0.1, a.1.0, a.1.1);
    let (e, f, g, h) = (b.0.0, b.0.1, b.1.0, b.1.1);
    crate::complex::lemma_norm_sqr_nonzero(b);
    let m = (e * e) * (h * h) + (g * g) * (f * f);
    let ff = (f * f) * (h * h);
    assert(cnorm_sqr(b) == (m, ff));
    let d = cdiv(a, b);
    let x0 = qadd(qmul(a.0, b.0), qmul(a.1, b.1));
    assert(x0 == ((p * e) * (s * h) + (r * g) * (q * f), (q * f) * (s * h)));
    let x1 = qsub(qmul(a.1, b.0), qmul(a.0, b.1));
    assert(x1 == ((r * e) * (q * h) - (p * g) * (s * f), (s * f) * (q * h)));
    let k = (p * e) * (s * h) + (r * g) * (q * f);
    let l = (r * e) * (q * h) - (p * g) * (s * f);
    let d0d = ((q * f) * (s * h)) * m;
    let d1d = ((s * f) * (q * h)) * m;
    assert(d.0 == (k * ff, d0d));
    assert(d.1 == (l * ff, d1d));
    let t1 = tri(d);
    assert(t1 == ((k * ff) * d1d, (l * ff) * d0d, d0d * d1d));
    // 1/b, as in `lemma_tri_recip`
    let c = (f * h) * m;
    let aa = (e * h) * ff;
    let bb = (-(g * f)) * ff;
    let one = cdiv(cone(), b);
    assert(qmul((1, 1), (e, f)) == (e, f));
    assert(qmul((0, 1), (g, h)) == (0int, h));
    let pr = qadd((e, f), (0int, h));
    assert(pr == (e * h, f * h)) by (nonlinear_arith)
        requires pr == qadd((e, f), (0int, h)), {}
    assert(qmul((0, 1), (e, f)) == (0int, f));
    assert(qmul((1, 1), (g, h)) == (g, h));
    let pi = qsub((0int, f), (g, h));
    assert(pi == (-(g * f), f * h)) by (nonlinear_arith)
        requires pi == qsub((0int, f), (g, h)), {}
    assert(one.0 == (aa, c));
    assert(one.1 == (bb, c));
    let t2 = tmul(tri(a), tri(one));
    assert(tri(one) == (aa * c, bb * c, c * c));
    assert(c * c > 0) by (nonlinear_arith)
        requires c == (f * h) * m, f > 0, h > 0, m > 0, {}
    assert(tri(a) == (p * s, r * q, q * s));
    // numerators: k and l again, times c·ff
    assert(k == (p * s) * (e * h) + (r * q) * (g * f)) by (nonlinear_arith)
        requires k == (p * e) * (s * h) + (r * g) * (q * f), {}
    assert(l == (r * q) * (e * h) - (p * s) * (g * f)) by (nonlinear_arith)
        requires l == (r * e) * (q * h) - (p * g) * (s * f), {}
    let (pa, ea, ra, ga) = (p * s, e * h, r * q, g * f);
    let u = ff * c;
    assert(pa * (aa * c) == (pa * ea) * u) by (nonlinear_arith)
        requires aa == ea * ff, u == ff * c, {}
    assert(ra * (bb * c) == -((ra * ga) * u)) by (nonlinear_arith)
        requires bb == (-ga) * ff, u == ff * c, {}
    assert(pa * (bb * c) == -((pa * ga) * u)) by (nonlinear_arith)
        requires bb == (-ga) * ff, u == ff * c, {}
    assert(ra * (aa * c) == (ra * ea) * u) by (nonlinear_arith)
        requires aa == ea * ff, u == ff * c, {}
    assert((pa * ea) * u + (ra * ga) * u == k * u) by (nonlinear_arith)
        requires k == pa * ea + ra * ga, {}
    assert((ra * ea) * u - (pa * ga) * u == l * u) by (nonlinear_arith)
        requires l == ra * ea - pa * ga, {}
    assert(t2.0 == k * u);
    assert(t2.1 == l * u);
    assert(k * u == c * ff * k) by (nonlinear_arith) requires u == ff * c, {}
    assert(l * u == c * ff * l) by (nonlinear_arith) requires u == ff * c, {}
    assert(t2.2 == (q * s) * (c * c));
    // cross products
    assert((q * s) * c == d1d) by (nonlinear_arith)
        requires c == (f * h) * m, d1d == ((s * f) * (q * h)) * m, {}
    assert((q * s) * c == d0d) by (nonlinear_arith)
        requires c == (f * h) * m, d0d == ((q * f) * (s * h)) * m, {}
    assert(t1.0 * t2.2 == t2.0 * t1.2) by (nonlinear_arith)
        requires
            t1.0 == (k * ff) * d1d,
            t1.2 == d0d * d1d,
            t2.0 == c * ff * k,
            t2.2 == (q * s) * (c * c),
            (q * s) * c == d1d,
            (q * s) * c == d0d,
    {}
    assert(t1.1 * t2.2 == t2.1 * t1.2) by (nonlinear_arith)
        requires
            t1.1 == (l * ff) * d0d,
            t1.2 == d0d * d1d,
            t2.1 == c * ff * l,
            t2.2 == (q * s) * (c * c),
            (q * s) * c == d1d,
            (q * s) * c == d0d,
    {}
}

/// Dividing by a nonzero value and multiplying back by it returns the
/// dividend exactly.
pub proof fn law_div_then_mul(a: Value, b: Value, r1: EvalResult, r2: EvalResult)
    requires
        a.wf(),
        b.wf(),
        !czero(b.cval()),
        binop_ok(BinOp::Div, a, b, r1),
        r1 matches Ok(Some(q)) && binop_ok(BinOp::Mul, q, b, r2),
    ensures
        r2 matches Ok(Some(v)) && ceq(v.cval(), a.cval()),
{
    lemma_wf_den(a);
    lemma_wf_den(b);
    let q = r1->Ok_0->Some_0;
    let v = r2->Ok_0->Some_0;
    lemma_wf_den(q);
    lemma_wf_den(v);
    let x = a.cval();
    let y = b.cval();
    let one = cdiv(cone(), y);
    // tri(q) ~ tri(x / y) ~ tri(x) · tri(1/y)
    lemma_tri_ceq(q.cval(), cdiv(x, y));
    lemma_tri_cdiv(x, y);
    lemma_tri_den(q.cval());
    lemma_tri_den(x);
    lemma_tri_den(y);
    assert(tri(cdiv(x, y)).2 != 0) by {
        crate::complex::lemma_norm_sqr_nonzero(y);
        assert(tri(cdiv(x, y)).2 != 0) by (nonlinear_arith)
            requires
                cdiv(x, y).0.1 == qadd(qmul(x.0, y.0), qmul(x.1, y.1)).1 * cnorm_sqr(y).0,
                cdiv(x, y).1.1 == qsub(qmul(x.1, y.0), qmul(x.0, y.1)).1 * cnorm_sqr(y).0,
                tri(cdiv(x, y)).2 == cdiv(x, y).0.1 * cdiv(x, y).1.1,
                x.0.1 > 0, x.1.1 > 0, y.0.1 > 0, y.1.1 > 0, cnorm_sqr(y).0 > 0,
        {}
    }
    lemma_teq_trans(tri(q.cval()), tri(cdiv(x, y)), tmul(tri(x), tri(one)));
    // tri(v) ~ tri(q) · tri(y) ~ (tri(x) · tri(1/y)) · tri(y) = tri(x) · (tri(1/y) · tri(y)) ~ tri(x)
    lemma_tri_ceq(v.cval(), cmul(q.cval(), y));
    lemma_tri_cmul(q.cval(), y);
    crate::complex::lemma_cmul_den(q.cval(), y);
    lemma_tri_den(cmul(q.cval(), y));
    lemma_teq_trans(tri(v.cval()), tri(cmul(q.cval(), y)), tmul(tri(q.cval()), tri(y)));
    lemma_teq_refl(tri(y));
    lemma_tmul_cong(tri(q.cval()), tmul(tri(x), tri(one)), tri(y), tri(y));
    assert(tmul(tri(q.cval()), tri(y)).2 != 0) by (nonlinear_arith)
        requires tmul(tri(q.cval()), tri(y)).2 == tri(q.cval()).2 * tri(y).2, tri(q.cval()).2 > 0, tri(y).2 > 0, {}
    lemma_teq_trans(tri(v.cval()), tmul(tri(q.cval()), tri(y)), tmul(tmul(tri(x), tri(one)), tri(y)));
    lemma_tmul_assoc(tri(x), tri(one), tri(y));
    lemma_tri_recip(y);
    lemma_teq_refl(tri(x));
    lemma_tmul_cong(tri(x), tri(x), tmul(tri(one), tri(y)), tone());
    lemma_tmul_one(tri(x));
    let w = tmul(tmul(tri(x), tri(one)), tri(y));
    assert(w.2 != 0) by (nonlinear_arith)
        requires
            w == tmul(tmul(tri(x), tri(one)), tri(y)),
            tri(x).2 > 0, tri(y).2 > 0, tri(one).2 != 0,
    {
    }
    assert(tmul(tri(x), tmul(tri(one), tri(y))).2 != 0) by (nonlinear_arith)
        requires tri(x).2 > 0, tri(y).2 > 0, tri(one).2 != 0, {}
    lemma_teq_trans(tri(v.cval()), w, tmul(tri(x), tmul(tri(one), tri(y))));
    lemma_teq_trans(tri(v.cval()), tmul(tri(x), tmul(tri(one), tri(y))), tri(x));
    lemma_teq_sym(tri(v.cval()), tri(x));
    crate::linear::lemma_tri_ceq_rev(x, v.cval());
    crate::rational::lemma_qeq_sym(x.0, v.cval().0);
    crate::rational::lemma_qeq_sym(x.1, v.cval().1);
}


/// The edit distance is at least the difference of the lengths.
proof fn lemma_edit_distance_length_gap(a: Seq<char>, b: Seq<char>)
    ensures
        edit_distance(a, b) >= a.len() - b.len(),
        edit_distance(a, b) >= b.len() - a.len(),
    decreases a.len() + b.len(),
{
    if a.len() > 0 && b.len() > 0 {
        lemma_edit_distance_length_gap(a.drop_last(), b.drop_last());
        lemma_edit_distance_length_gap(a.drop_last(), b);
        lemma_edit_distance_length_gap(a, b.drop_last());
    }
}

/// Dropping the last character of either string changes the distance by at most one.
proof fn lemma_edit_distance_drop(a: Seq<char>, c: Seq<char>)
    ensures
        a.len() > 0 ==> edit_distance(a, c) <= edit_distance(a.drop_last(), c) + 1,
        c.len() > 0 ==> edit_distance(a, c) <= edit_distance(a, c.drop_last()) + 1,
{
}

/// The triangle inequality: going from `a` to `c` by way of `b` never takes
/// fewer edits than going directly.
pub proof fn law_edit_distance_triangle(a: Seq<char>, b: Seq<char>, c: Seq<char>)
    ensures
        edit_distance(a, c) <= edit_distance(a, b) + edit_distance(b, c),
    decreases a.len() + b.len() + c.len(),
{
    if b.len() == 0 {
        crate::suggest::lemma_edit_distance_bound(a, c);
    } else if a.len() == 0 {
        lemma_edit_distance_length_gap(b, c);
    } else if c.len() == 0 {
        lemma_edit_distance_length_gap(a, b);
    } else {
        let (a1, b1, c1) = (a.drop_last(), b.drop_last(), c.drop_last());
        law_edit_distance_triangle(a1, b, c);
        law_edit_distance_triangle(a, b, c1);
        law_edit_distance_triangle(a1, b1, c1);
        law_edit_distance_triangle(a1, b1, c);
        law_edit_distance_triangle(a, b1, c1);
        law_edit_distance_triangle(a, b1, c);
        lemma_edit_distance_drop(a, c);
    }
}

} // verus!
