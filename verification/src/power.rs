//! Integer powers of exact rationals by repeated squaring, and the algebra
//! of fractions that their correctness rests on.

use vstd::prelude::*;
use vstd::arithmetic::power::{pow, lemma_pow_adds, lemma_pow_multiplies, lemma_pow_distributes,
    lemma_pow_positive, lemma_square_is_pow2, lemma_pow0, lemma_pow1};
use crate::rational::{Frac, Rat, qeq, qmul, lemma_qmul_cong, lemma_qeq_trans, lemma_den_pos};
use crate::complex::{CFrac, Cplx, ceq, cmul, cdiv, czero};

verus! {

/// `x^n` for a fraction, componentwise.
pub open spec fn qpow(x: Frac, n: nat) -> Frac {
    (pow(x.0, n), pow(x.1, n))
}

/// The reciprocal, written with the denominator on top.
pub open spec fn qrecip(x: Frac) -> Frac {
    (x.1, x.0)
}

pub proof fn lemma_qpow_den_pos(x: Frac, n: nat)
    requires
        x.1 > 0,
    ensures
        qpow(x, n).1 > 0,
{
    lemma_pow_positive(x.1, n);
}

/// Equal fractions have equal powers.
pub proof fn lemma_qpow_cong(x: Frac, y: Frac, n: nat)
    requires
        qeq(x, y),
    ensures
        qeq(qpow(x, n), qpow(y, n)),
{
    lemma_pow_distributes(x.0, y.1, n);
    lemma_pow_distributes(y.0, x.1, n);
}

pub proof fn lemma_qmul_assoc(a: Frac, b: Frac, c: Frac)
    ensures
        qmul(qmul(a, b), c) == qmul(a, qmul(b, c)),
{
    vstd::arithmetic::mul::lemma_mul_is_associative(a.0, b.0, c.0);
    vstd::arithmetic::mul::lemma_mul_is_associative(a.1, b.1, c.1);
}

pub proof fn lemma_qmul_one(a: Frac)
    ensures
        qmul((1, 1), a) == a,
        qmul(a, (1, 1)) == a,
{
}

/// `x^(2k+o) = x^o * (x*x)^k`.
pub proof fn lemma_qpow_split(x: Frac, k: nat, o: nat)
    ensures
        qpow(x, 2 * k + o) == qmul(qpow(x, o), qpow(qmul(x, x), k)),
{
    lemma_pow_adds(x.0, o, 2 * k);
    lemma_pow_adds(x.1, o, 2 * k);
    lemma_pow_multiplies(x.0, 2, k);
    lemma_pow_multiplies(x.1, 2, k);
    lemma_square_is_pow2(x.0);
    lemma_square_is_pow2(x.1);
    assert(2 * k + o == o + 2 * k);
}

/// One round of repeated squaring keeps `result * b^e` unchanged.
pub proof fn lemma_ipow_step(r: Frac, r2: Frac, b: Frac, b2: Frac, e: nat, t: Frac)
    requires
        r.1 > 0,
        r2.1 > 0,
        b.1 > 0,
        b2.1 > 0,
        qeq(qmul(r, qpow(b, e)), t),
        e % 2 == 1 ==> qeq(r2, qmul(r, b)),
        e % 2 == 0 ==> r2 == r,
        e / 2 > 0 ==> qeq(b2, qmul(b, b)),
        e / 2 == 0 ==> b2 == b,
    ensures
        qeq(qmul(r2, qpow(b2, e / 2)), t),
{
    let k = e / 2;
    let o = e % 2;
    let bb = qmul(b, b);
    lemma_qpow_split(b, k, o);
    assert(e == 2 * k + o);
    lemma_den_pos(b.1, b.1);
    lemma_qpow_den_pos(bb, k);
    lemma_qpow_den_pos(b2, k);
    // qpow(b2, k) equals qpow(bb, k)
    if k > 0 {
        lemma_qpow_cong(b2, bb, k);
    } else {
        lemma_pow0(b2.0);
        lemma_pow0(b2.1);
        lemma_pow0(bb.0);
        lemma_pow0(bb.1);
    }
    let base = if o == 1 { qmul(r, b) } else { r };
    if o == 1 {
        lemma_pow1(b.0);
        lemma_pow1(b.1);
        lemma_qmul_assoc(r, b, qpow(bb, k));
        lemma_den_pos(r.1, b.1);
    } else {
        lemma_pow0(b.0);
        lemma_pow0(b.1);
        lemma_qmul_one(qpow(bb, k));
    }
    // r * b^e == base * bb^k exactly
    assert(qmul(r, qpow(b, e)) == qmul(base, qpow(bb, k)));
    lemma_qmul_cong(r2, base, qpow(b2, k), qpow(bb, k));
    lemma_den_pos(base.1, qpow(bb, k).1);
    lemma_qeq_trans(qmul(r2, qpow(b2, k)), qmul(base, qpow(bb, k)), t);
}

/// `base^e` by repeated squaring.
pub fn ipow_rat(base: &Rat, e: u64) -> (r: Rat)
    requires
        base.wf(),
    ensures
        r.wf(),
        qeq(r@, qpow(base@, e as nat)),
{
    let ghost e0 = e;
    let mut result = Rat::from_i64(1);
    let mut b = base.copy();
    let mut e = e;
    proof {
        lemma_qmul_one(qpow(base@, e0 as nat));
    }
    while e > 0
        invariant
            result.wf(),
            b.wf(),
            qeq(qmul(result@, qpow(b@, e as nat)), qpow(base@, e0 as nat)),
        decreases e,
    {
        let ghost (r0, b0, ee) = (result@, b@, e);
        let odd = e & 1 == 1;
        assert((e & 1 == 1) == (e % 2 == 1)) by (bit_vector);
        if odd {
            result = result.mul(&b);
        }
        e = e >> 1;
        assert(e == ee / 2) by (bit_vector) requires e == ee >> 1;
        if e > 0 {
            b = b.mul(&b);
        }
        proof {
            lemma_ipow_step(r0, result@, b0, b@, ee as nat, qpow(base@, e0 as nat));
        }
    }
    proof {
        lemma_pow0(b@.0);
        lemma_pow0(b@.1);
        lemma_qmul_one(result@);
    }
    result
}


/// A complex fraction over one common denominator: `(a + b·i) / d`.
pub type Tri = (int, int, int);

pub open spec fn tri(x: CFrac) -> Tri {
    (x.0.0 * x.1.1, x.1.0 * x.0.1, x.0.1 * x.1.1)
}

/// Two common-denominator forms denote the same complex number.
pub open spec fn teq(t: Tri, u: Tri) -> bool {
    t.0 * u.2 == u.0 * t.2 && t.1 * u.2 == u.1 * t.2
}

pub open spec fn tmul(t: Tri, u: Tri) -> Tri {
    (t.0 * u.0 - t.1 * u.1, t.0 * u.1 + t.1 * u.0, t.2 * u.2)
}

pub open spec fn tone() -> Tri {
    (1, 0, 1)
}

/// `t^n`, as repeated multiplication.
pub open spec fn tpow(t: Tri, n: nat) -> Tri
    decreases n,
{
    if n == 0 {
        tone()
    } else {
        tmul(tpow(t, (n - 1) as nat), t)
    }
}

pub proof fn lemma_teq_trans(t: Tri, u: Tri, v: Tri)
    requires
        teq(t, u),
        teq(u, v),
        u.2 != 0,
    ensures
        teq(t, v),
{
    lemma_qeq_trans((t.0, t.2), (u.0, u.2), (v.0, v.2));
    lemma_qeq_trans((t.1, t.2), (u.1, u.2), (v.1, v.2));
}

pub proof fn lemma_tri_den(x: CFrac)
    requires
        x.0.1 > 0,
        x.1.1 > 0,
    ensures
        tri(x).2 > 0,
{
    lemma_den_pos(x.0.1, x.1.1);
}

/// Equal complex fractions have equal common-denominator forms.
pub proof fn lemma_tri_ceq(x: CFrac, y: CFrac)
    requires
        ceq(x, y),
    ensures
        teq(tri(x), tri(y)),
{
    let (a, b, c, d) = (x.0.0, x.0.1, x.1.0, x.1.1);
    let (e, f, g, h) = (y.0.0, y.0.1, y.1.0, y.1.1);
    assert((a * d) * (f * h) == (e * h) * (b * d)) by (nonlinear_arith)
        requires a * f == e * b, {
        assert((a * d) * (f * h) == (a * f) * (d * h));
        assert((e * h) * (b * d) == (e * b) * (d * h));
    }
    assert((c * b) * (f * h) == (g * f) * (b * d)) by (nonlinear_arith)
        requires c * h == g * d, {
        assert((c * b) * (f * h) == (c * h) * (b * f));
        assert((g * f) * (b * d) == (g * d) * (b * f));
    }
}

/// The common-denominator form of a product is the product of the forms.
pub proof fn lemma_tri_cmul(x: CFrac, y: CFrac)
    ensures
        teq(tri(cmul(x, y)), tmul(tri(x), tri(y))),
{
    let (a, b, c, d) = (x.0.0, x.0.1, x.1.0, x.1.1);
    let (e, f, g, h) = (y.0.0, y.0.1, y.1.0, y.1.1);
    let m = cmul(x, y);
    let re0 = (a * e) * (d * h) - (c * g) * (b * f);
    let re1 = (b * f) * (d * h);
    let im0 = (a * g) * (d * f) + (c * e) * (b * h);
    let im1 = (b * h) * (d * f);
    assert(m == ((re0, re1), (im0, im1)));
    let t = tmul(tri(x), tri(y));
    let p = (b * d) * (f * h);
    assert(t == ((a * d) * (e * h) - (c * b) * (g * f), (a * d) * (g * f) + (c * b) * (e * h), (b * d) * (f * h)));
    let k = (b * f) * (d * h);
    assert(re1 == k);
    lemma_mul4(b, h, d, f);
    lemma_mul4(b, f, d, h);
    vstd::arithmetic::mul::lemma_mul_is_commutative(h, f);
    lemma_mul4(b, d, f, h);
    lemma_mul4(a, e, d, h);
    lemma_mul4(c, g, b, f);
    lemma_mul4(a, g, d, f);
    lemma_mul4(c, e, b, h);
    assert(im1 == k);
    assert(p == k);
    assert(re0 == t.0);
    assert(im0 == t.1);
    // tri(m) = (re0 * k, im0 * k, k * k), t = (re0, im0, k)
    assert(tri(m) == (re0 * im1, im0 * re1, re1 * im1));
    assert((re0 * k) * k == re0 * (k * k)) by (nonlinear_arith);
    assert((im0 * k) * k == im0 * (k * k)) by (nonlinear_arith);
}

/// `(x*y)*(z*w) == (x*z)*(y*w)`.
proof fn lemma_mul4(x: int, y: int, z: int, w: int)
    ensures
        (x * y) * (z * w) == (x * z) * (y * w),
{
    assert((x * y) * (z * w) == (x * z) * (y * w)) by (nonlinear_arith);
}

proof fn lemma_dist_sub(x: int, y: int, m: int)
    ensures
        (x - y) * m == x * m - y * m,
{
    vstd::arithmetic::mul::lemma_mul_is_distributive_sub_other_way(m, x, y);
}

proof fn lemma_dist_add(x: int, y: int, m: int)
    ensures
        (x + y) * m == x * m + y * m,
{
    vstd::arithmetic::mul::lemma_mul_is_distributive_add_other_way(m, x, y);
}

proof fn lemma_mul3(x: int, y: int, z: int)
    ensures
        (x * y) * z == x * (y * z),
        (x * y) * z == x * (z * y),
        (x * y) * z == y * (x * z),
        (x * y) * z == y * (z * x),
{
    assert((x * y) * z == x * (y * z)) by (nonlinear_arith);
    assert((x * y) * z == x * (z * y)) by (nonlinear_arith);
    assert((x * y) * z == y * (x * z)) by (nonlinear_arith);
    assert((x * y) * z == y * (z * x)) by (nonlinear_arith);
}

pub proof fn lemma_tmul_cong(t: Tri, t2: Tri, u: Tri, u2: Tri)
    requires
        teq(t, t2),
        teq(u, u2),
    ensures
        teq(tmul(t, u), tmul(t2, u2)),
{
    let (a, b, d) = (t.0, t.1, t.2);
    let (a2, b2, d2) = (t2.0, t2.1, t2.2);
    let (c, e, f) = (u.0, u.1, u.2);
    let (c2, e2, f2) = (u2.0, u2.1, u2.2);
    let p = d2 * f2;
    let q = d * f;
    lemma_dist_sub(a * c, b * e, p);
    lemma_dist_sub(a2 * c2, b2 * e2, q);
    lemma_dist_add(a * e, b * c, p);
    lemma_dist_add(a2 * e2, b2 * c2, q);
    lemma_mul4(a, c, d2, f2);
    lemma_mul4(a2, c2, d, f);
    lemma_mul4(b, e, d2, f2);
    lemma_mul4(b2, e2, d, f);
    lemma_mul4(a, e, d2, f2);
    lemma_mul4(a2, e2, d, f);
    lemma_mul4(b, c, d2, f2);
    lemma_mul4(b2, c2, d, f);
}

pub proof fn lemma_tmul_assoc(t: Tri, u: Tri, v: Tri)
    ensures
        tmul(tmul(t, u), v) == tmul(t, tmul(u, v)),
{
    let (a, b, d) = (t.0, t.1, t.2);
    let (c, e, f) = (u.0, u.1, u.2);
    let (g, h, k) = (v.0, v.1, v.2);
    lemma_dist_sub(a * c, b * e, g);
    lemma_dist_add(a * e, b * c, h);
    lemma_dist_sub(a * c, b * e, h);
    lemma_dist_add(a * e, b * c, g);
    vstd::arithmetic::mul::lemma_mul_is_distributive_sub(a, c * g, e * h);
    vstd::arithmetic::mul::lemma_mul_is_distributive_add(b, c * h, e * g);
    vstd::arithmetic::mul::lemma_mul_is_distributive_add(a, c * h, e * g);
    vstd::arithmetic::mul::lemma_mul_is_distributive_sub(b, c * g, e * h);
    lemma_mul3(a, c, g);
    lemma_mul3(b, e, g);
    lemma_mul3(a, e, h);
    lemma_mul3(b, c, h);
    lemma_mul3(a, c, h);
    lemma_mul3(b, e, h);
    lemma_mul3(a, e, g);
    lemma_mul3(b, c, g);
    lemma_mul3(d, f, k);
}

pub proof fn lemma_tmul_comm(t: Tri, u: Tri)
    ensures
        tmul(t, u) == tmul(u, t),
{
    assert(t.0 * u.0 == u.0 * t.0 && t.1 * u.1 == u.1 * t.1 && t.2 * u.2 == u.2 * t.2
        && t.0 * u.1 == u.1 * t.0 && t.1 * u.0 == u.0 * t.1) by (nonlinear_arith);
}

pub proof fn lemma_tmul_one(t: Tri)
    ensures
        tmul(tone(), t) == t,
        tmul(t, tone()) == t,
{
}

/// `t^(a+b) = t^a * t^b`.
pub proof fn lemma_tpow_adds(t: Tri, a: nat, b: nat)
    ensures
        tpow(t, a + b) == tmul(tpow(t, a), tpow(t, b)),
    decreases b,
{
    if b == 0 {
        lemma_tmul_one(tpow(t, a));
    } else {
        lemma_tpow_adds(t, a, (b - 1) as nat);
        assert((a + b - 1) as nat == a + (b - 1) as nat);
        lemma_tmul_assoc(tpow(t, a), tpow(t, (b - 1) as nat), t);
    }
}

/// `(t*t)^k = t^(2k)`.
pub proof fn lemma_tpow_square(t: Tri, k: nat)
    ensures
        tpow(tmul(t, t), k) == tpow(t, 2 * k),
    decreases k,
{
    if k > 0 {
        lemma_tpow_square(t, (k - 1) as nat);
        // (t*t)^k = (t*t)^(k-1) * (t*t) = t^(2k-2) * t^2 = t^(2k)
        lemma_tpow_adds(t, (2 * (k - 1)) as nat, 2);
        assert(tpow(t, 0) == tone());
        assert(tpow(t, 1) == tmul(tpow(t, 0), t));
        assert(tpow(t, 2) == tmul(tpow(t, 1), t));
        lemma_tmul_one(t);
        assert((2 * (k - 1) + 2) as nat == 2 * k);
    }
}

pub proof fn lemma_tpow_den(t: Tri, n: nat)
    requires
        t.2 > 0,
    ensures
        tpow(t, n).2 > 0,
    decreases n,
{
    if n > 0 {
        lemma_tpow_den(t, (n - 1) as nat);
        lemma_den_pos(tpow(t, (n - 1) as nat).2, t.2);
    }
}

pub proof fn lemma_tpow_cong(t: Tri, u: Tri, n: nat)
    requires
        teq(t, u),
    ensures
        teq(tpow(t, n), tpow(u, n)),
    decreases n,
{
    if n > 0 {
        lemma_tpow_cong(t, u, (n - 1) as nat);
        lemma_tmul_cong(tpow(t, (n - 1) as nat), tpow(u, (n - 1) as nat), t, u);
    }
}

/// One round of repeated squaring keeps `result * b^e` unchanged.
pub proof fn lemma_cipow_step(r: Tri, r2: Tri, b: Tri, b2: Tri, e: nat, goal: Tri)
    requires
        r.2 > 0,
        r2.2 > 0,
        b.2 > 0,
        b2.2 > 0,
        teq(tmul(r, tpow(b, e)), goal),
        e % 2 == 1 ==> teq(r2, tmul(r, b)),
        e % 2 == 0 ==> r2 == r,
        e / 2 > 0 ==> teq(b2, tmul(b, b)),
        e / 2 == 0 ==> b2 == b,
    ensures
        teq(tmul(r2, tpow(b2, e / 2)), goal),
{
    let k = e / 2;
    let o = e % 2;
    let bb = tmul(b, b);
    assert(e == o + 2 * k);
    lemma_tpow_adds(b, o, 2 * k);
    lemma_tpow_square(b, k);
    lemma_den_pos(b.2, b.2);
    lemma_tpow_den(bb, k);
    lemma_tpow_den(b2, k);
    if k > 0 {
        lemma_tpow_cong(b2, bb, k);
    }
    let base = if o == 1 { tmul(r, b) } else { r };
    if o == 1 {
        assert(tpow(b, 1) == tmul(tpow(b, 0), b));
        lemma_tmul_one(b);
        lemma_tmul_assoc(r, b, tpow(bb, k));
        lemma_den_pos(r.2, b.2);
    } else {
        lemma_tmul_one(tpow(bb, k));
    }
    assert(tmul(r, tpow(b, e)) == tmul(base, tpow(bb, k)));
    lemma_tmul_cong(r2, base, tpow(b2, k), tpow(bb, k));
    lemma_den_pos(base.2, tpow(bb, k).2);
    lemma_teq_trans(tmul(r2, tpow(b2, k)), tmul(base, tpow(bb, k)), goal);
}

/// Relates a computed product to the product of the forms.
proof fn lemma_cmul_tri(s: CFrac, x: CFrac, y: CFrac)
    requires
        ceq(s, cmul(x, y)),
        x.0.1 > 0 && x.1.1 > 0 && y.0.1 > 0 && y.1.1 > 0,
    ensures
        teq(tri(s), tmul(tri(x), tri(y))),
{
    lemma_tri_ceq(s, cmul(x, y));
    lemma_tri_cmul(x, y);
    crate::complex::lemma_cmul_den(x, y);
    lemma_tri_den(cmul(x, y));
    lemma_teq_trans(tri(s), tri(cmul(x, y)), tmul(tri(x), tri(y)));
}

/// `base^e` by repeated squaring, for exact complex numbers.
pub fn ipow_cplx(base: &Cplx, e: u64) -> (r: Cplx)
    requires
        base.wf(),
    ensures
        r.wf(),
        teq(tri(r@), tpow(tri(base@), e as nat)),
{
    let ghost e0 = e;
    let ghost goal = tpow(tri(base@), e0 as nat);
    let mut result = Cplx::new(Rat::from_i64(1), Rat::from_i64(0));
    let mut b = base.copy();
    let mut e = e;
    proof {
        assert(tri(result@) == tone());
        lemma_tmul_one(goal);
    }
    while e > 0
        invariant
            result.wf(),
            b.wf(),
            teq(tmul(tri(result@), tpow(tri(b@), e as nat)), goal),
        decreases e,
    {
        let ghost (r0, b0, ee) = (result@, b@, e);
        let odd = e & 1 == 1;
        assert((e & 1 == 1) == (e % 2 == 1)) by (bit_vector);
        if odd {
            result = result.mul(&b);
            proof { lemma_cmul_tri(result@, r0, b0); }
        }
        e = e >> 1;
        assert(e == ee / 2) by (bit_vector) requires e == ee >> 1;
        if e > 0 {
            b = b.mul(&b);
            proof { lemma_cmul_tri(b@, b0, b0); }
        }
        proof {
            lemma_tri_den(r0);
            lemma_tri_den(result@);
            lemma_tri_den(b0);
            lemma_tri_den(b@);
            lemma_cipow_step(tri(r0), tri(result@), tri(b0), tri(b@), ee as nat, goal);
        }
    }
    proof {
        lemma_tmul_one(tri(result@));
    }
    result
}


/// The complex number 1.
pub open spec fn cone() -> CFrac {
    ((1, 1), (0, 1))
}

/// `(1/p) * p == 1` for a nonzero `p`.
pub proof fn lemma_tri_recip(p: CFrac)
    requires
        p.0.1 > 0,
        p.1.1 > 0,
        !czero(p),
    ensures
        teq(tmul(tri(cdiv(cone(), p)), tri(p)), tone()),
{
    let (e, f, g, h) = (p.0.0, p.0.1, p.1.0, p.1.1);
    let d = cdiv(cone(), p);
    let fh = f * h;
    let m = (e * e) * (h * h) + (g * g) * (f * f);
    crate::complex::lemma_norm_sqr_nonzero(p);
    assert(crate::complex::cnorm_sqr(p) == (m, (f * f) * (h * h)));
    let pr = crate::rational::qadd(qmul((1, 1), (e, f)), qmul((0, 1), (g, h)));
    assert(qmul((1, 1), (e, f)) == (e, f));
    assert(qmul((0, 1), (g, h)) == (0int, h));
    assert(pr == (e * h, f * h)) by (nonlinear_arith)
        requires pr == crate::rational::qadd((e, f), (0int, h)), {}
    let pi = crate::rational::qsub(qmul((0, 1), (e, f)), qmul((1, 1), (g, h)));
    assert(qmul((0, 1), (e, f)) == (0int, f));
    assert(qmul((1, 1), (g, h)) == (g, h));
    assert(pi == (-(g * f), f * h)) by (nonlinear_arith)
        requires pi == crate::rational::qsub((0int, f), (g, h)), {}
    assert(d.0 == ((e * h) * ((f * f) * (h * h)), fh * m));
    assert(d.1 == ((-(g * f)) * ((f * f) * (h * h)), fh * m));
    let ff = (f * f) * (h * h);
    let a = (e * h) * ff;
    let b = (-(g * f)) * ff;
    let c = fh * m;
    // tri(d) = (a * c, b * c, c * c); tri(p) = (e * h, g * f, f * h)
    let t = tmul(tri(d), tri(p));
    assert(tri(d) == (a * c, b * c, c * c));
    assert(t == ((a * c) * (e * h) - (b * c) * (g * f), (a * c) * (g * f) + (b * c) * (e * h), (c * c) * (f * h)));
    let x = e * h;
    let y = g * f;
    assert((a * c) * x == (c * ff) * (x * x)) by (nonlinear_arith) requires a == x * ff, {}
    assert((b * c) * y == -((c * ff) * (y * y))) by (nonlinear_arith) requires b == (-y) * ff, {}
    assert(x * x == (e * e) * (h * h)) by (nonlinear_arith) requires x == e * h, {}
    assert(y * y == (g * g) * (f * f)) by (nonlinear_arith) requires y == g * f, {}
    vstd::arithmetic::mul::lemma_mul_is_distributive_add(c * ff, x * x, y * y);
    assert((a * c) * (e * h) - (b * c) * (g * f) == (c * ff) * m);
    assert(c * ff * m == (c * ff) * m) by (nonlinear_arith);
    assert((a * c) * y == (c * ff) * (x * y)) by (nonlinear_arith) requires a == x * ff, {}
    assert((b * c) * x == -((c * ff) * (x * y))) by (nonlinear_arith) requires b == (-y) * ff, {}
    assert(c * ff * m == (c * c) * (f * h)) by (nonlinear_arith)
        requires c == fh * m, fh == f * h, ff == (f * f) * (h * h), {}
    assert(t.0 == t.2);
    assert(t.1 == 0);
    assert(teq(t, tone())) by (nonlinear_arith) requires t.0 == t.2, t.1 == 0, {}
}

/// `(1/x)^n = 1/x^n`: the form is `x^(-n)`.
pub proof fn lemma_teq_sym(t: Tri, u: Tri)
    requires
        teq(t, u),
    ensures
        teq(u, t),
{
}


pub proof fn lemma_pow_nonzero(x: int, n: nat)
    requires
        x != 0,
    ensures
        pow(x, n) != 0,
    decreases n,
{
    reveal(pow);
    if n == 0 {
        lemma_pow0(x);
    } else {
        lemma_pow_nonzero(x, (n - 1) as nat);
        assert(pow(x, n) == x * pow(x, (n - 1) as nat));
        assert(x * pow(x, (n - 1) as nat) != 0) by (nonlinear_arith)
            requires x != 0, pow(x, (n - 1) as nat) != 0, {}
    }
}

/// A form is zero when its numerator parts both are.
pub open spec fn tzero(t: Tri) -> bool {
    t.0 == 0 && t.1 == 0
}

/// A product of nonzero complex numbers is nonzero.
pub proof fn lemma_tmul_nonzero(t: Tri, u: Tri)
    requires
        !tzero(t),
        !tzero(u),
    ensures
        !tzero(tmul(t, u)),
{
    let (a, b, c, e) = (t.0, t.1, u.0, u.1);
    let p = a * c - b * e;
    let q = a * e + b * c;
    let (ac, be, ae, bc) = (a * c, b * e, a * e, b * c);
    assert(p * p == ac * ac - 2 * (ac * be) + be * be) by (nonlinear_arith) requires p == ac - be, {}
    assert(q * q == ae * ae + 2 * (ae * bc) + bc * bc) by (nonlinear_arith) requires q == ae + bc, {}
    assert(ac * be == ae * bc) by (nonlinear_arith)
        requires ac == a * c, be == b * e, ae == a * e, bc == b * c, {}
    vstd::arithmetic::mul::lemma_mul_is_distributive_add(a * a + b * b, c * c, e * e);
    lemma_dist_add(a * a, b * b, c * c);
    lemma_dist_add(a * a, b * b, e * e);
    lemma_mul4(a, c, a, c);
    lemma_mul4(b, e, b, e);
    lemma_mul4(a, e, a, e);
    lemma_mul4(b, c, b, c);
    assert(ac * ac + be * be + ae * ae + bc * bc == (a * a + b * b) * (c * c + e * e));
    assert(a * a + b * b > 0) by (nonlinear_arith) requires a != 0 || b != 0, {}
    assert(c * c + e * e > 0) by (nonlinear_arith) requires c != 0 || e != 0, {}
    assert((a * a + b * b) * (c * c + e * e) > 0) by (nonlinear_arith)
        requires a * a + b * b > 0, c * c + e * e > 0, {}
    assert(p != 0 || q != 0) by (nonlinear_arith)
        requires p * p + q * q > 0, {}
}

pub proof fn lemma_tpow_nonzero(t: Tri, n: nat)
    requires
        !tzero(t),
    ensures
        !tzero(tpow(t, n)),
    decreases n,
{
    if n > 0 {
        lemma_tpow_nonzero(t, (n - 1) as nat);
        lemma_tmul_nonzero(tpow(t, (n - 1) as nat), t);
    }
}

/// Equal forms are zero together, and a complex fraction is zero with its form.
pub proof fn lemma_tzero(x: CFrac, t: Tri)
    requires
        x.0.1 > 0,
        x.1.1 > 0,
        teq(tri(x), t),
        t.2 > 0,
    ensures
        czero(x) == tzero(t),
{
    lemma_tri_den(x);
    let u = tri(x);
    assert((u.0 == 0) == (t.0 == 0)) by (nonlinear_arith)
        requires u.0 * t.2 == t.0 * u.2, u.2 > 0, t.2 > 0, {}
    assert((u.1 == 0) == (t.1 == 0)) by (nonlinear_arith)
        requires u.1 * t.2 == t.1 * u.2, u.2 > 0, t.2 > 0, {}
    assert((u.0 == 0) == (x.0.0 == 0)) by (nonlinear_arith)
        requires u.0 == x.0.0 * x.1.1, x.1.1 > 0, {}
    assert((u.1 == 0) == (x.1.0 == 0)) by (nonlinear_arith)
        requires u.1 == x.1.0 * x.0.1, x.0.1 > 0, {}
}

/// The magnitude of an `i64`, as `i64::unsigned_abs` gives it.
fn magnitude(n: i64) -> (r: u64)
    ensures
        r as int == abs_int(n as int),
{
    if n >= 0 {
        n as u64
    } else {
        (-(n as i128)) as u64
    }
}

pub open spec fn abs_int(n: int) -> nat {
    if n < 0 { (-n) as nat } else { n as nat }
}

/// `b^n`; `b` must be nonzero when `n` is negative.
pub fn rat_ipow(b: &Rat, n: i64) -> (r: Rat)
    requires
        b.wf(),
        n < 0 ==> b.num@ != 0,
    ensures
        r.wf(),
        n >= 0 ==> qeq(r@, qpow(b@, n as nat)),
        n < 0 ==> qeq(r@, qpow(qrecip(b@), abs_int(n as int))),
{
    let e = magnitude(n);
    let r = ipow_rat(b, e);
    if n < 0 {
        proof {
            lemma_pow_nonzero(b.num@, e as nat);
            let p = qpow(b@, e as nat);
            assert(r.num@ != 0) by (nonlinear_arith)
                requires r.num@ * p.1 == p.0 * r.den@, p.0 != 0, r.den@ > 0, {}
        }
        let q = r.recip();
        proof {
            let p = qpow(b@, e as nat);
            assert(qeq((r.den@, r.num@), qrecip(p))) by (nonlinear_arith)
                requires r.num@ * p.1 == p.0 * r.den@, {}
            lemma_qeq_trans(q@, (r.den@, r.num@), qrecip(p));
        }
        q
    } else {
        r
    }
}

/// `b^n` for an exact complex `b`; `b` must be nonzero when `n` is negative.
/// For negative `n` the result times `b^|n|` is one.
pub fn cplx_ipow(b: &Cplx, n: i64) -> (r: Cplx)
    requires
        b.wf(),
        n < 0 ==> !czero(b@),
    ensures
        r.wf(),
        n >= 0 ==> teq(tri(r@), tpow(tri(b@), n as nat)),
        n < 0 ==> teq(tmul(tri(r@), tpow(tri(b@), abs_int(n as int))), tone()),
{
    let e = magnitude(n);
    let r = ipow_cplx(b, e);
    if n < 0 {
        let one = Cplx::new(Rat::from_i64(1), Rat::from_i64(0));
        let ghost goal = tpow(tri(b@), e as nat);
        proof {
            lemma_tri_den(b@);
            lemma_tzero(b@, tri(b@));
            lemma_tpow_nonzero(tri(b@), e as nat);
            lemma_tpow_den(tri(b@), e as nat);
            lemma_tzero(r@, goal);
        }
        let q = one.div(&r);
        proof {
            assert(one@ == cone());
            lemma_tri_recip(r@);
            lemma_tri_ceq(q@, cdiv(cone(), r@));
            lemma_tri_den(r@);
            lemma_tri_den(q@);
            crate::complex::lemma_norm_sqr_nonzero(r@);
            let d = cdiv(cone(), r@);
            assert(d.0.1 != 0 && d.1.1 != 0) by {
                let n2 = crate::complex::cnorm_sqr(r@);
                lemma_den_pos(r@.0.1, r@.1.1);
                assert(d.0.1 == (1 * r@.0.1) * (1 * r@.1.1) * n2.0);
                assert((1 * r@.0.1) * (1 * r@.1.1) * n2.0 != 0) by (nonlinear_arith)
                    requires r@.0.1 > 0, r@.1.1 > 0, n2.0 > 0, {}
                assert(d.1.1 == (1 * r@.0.1) * (1 * r@.1.1) * n2.0);
            }
            lemma_tri_den_nz(d);
            assert(tri(d).2 * tri(r@).2 != 0) by (nonlinear_arith)
                requires tri(d).2 != 0, tri(r@).2 > 0, {}
            lemma_tmul_cong(tri(q@), tri(d), tri(r@), tri(r@));
            lemma_teq_trans(tmul(tri(q@), tri(r@)), tmul(tri(d), tri(r@)), tone());
            lemma_teq_sym(tri(r@), goal);
            lemma_tmul_cong(tri(q@), tri(q@), goal, tri(r@));
            lemma_den_pos(tri(q@).2, tri(r@).2);
            lemma_teq_trans(tmul(tri(q@), goal), tmul(tri(q@), tri(r@)), tone());
        }
        q
    } else {
        r
    }
}

pub proof fn lemma_tri_den_nz(x: CFrac)
    requires
        x.0.1 != 0,
        x.1.1 != 0,
    ensures
        tri(x).2 != 0,
{
    assert(x.0.1 * x.1.1 != 0) by (nonlinear_arith) requires x.0.1 != 0, x.1.1 != 0, {}
}

} // verus!
