//! Exact complex numbers with rational parts. The component formulas are
//! the ones `num-complex` uses for `Complex<T>`, over exact rationals.

use vstd::prelude::*;
use crate::rational::{
    Frac, Rat, qeq, qadd, qsub, qmul, qdiv, qneg, lemma_qadd_cong, lemma_qsub_cong, lemma_qdiv_cong,
    lemma_qeq_trans, lemma_den_pos, lemma_qmul_cong,
};

verus! {

/// A complex fraction: (real part, imaginary part).
pub type CFrac = (Frac, Frac);

pub open spec fn ceq(x: CFrac, y: CFrac) -> bool {
    qeq(x.0, y.0) && qeq(x.1, y.1)
}

pub open spec fn cadd(x: CFrac, y: CFrac) -> CFrac {
    (qadd(x.0, y.0), qadd(x.1, y.1))
}

pub open spec fn csub(x: CFrac, y: CFrac) -> CFrac {
    (qsub(x.0, y.0), qsub(x.1, y.1))
}

pub open spec fn cmul(x: CFrac, y: CFrac) -> CFrac {
    (qsub(qmul(x.0, y.0), qmul(x.1, y.1)), qadd(qmul(x.0, y.1), qmul(x.1, y.0)))
}

pub open spec fn cnorm_sqr(y: CFrac) -> Frac {
    qadd(qmul(y.0, y.0), qmul(y.1, y.1))
}

pub open spec fn cdiv(x: CFrac, y: CFrac) -> CFrac {
    (
        qdiv(qadd(qmul(x.0, y.0), qmul(x.1, y.1)), cnorm_sqr(y)),
        qdiv(qsub(qmul(x.1, y.0), qmul(x.0, y.1)), cnorm_sqr(y)),
    )
}

pub open spec fn cneg(x: CFrac) -> CFrac {
    (qneg(x.0), qneg(x.1))
}

pub open spec fn cconj(x: CFrac) -> CFrac {
    (x.0, qneg(x.1))
}

/// A complex number is zero when both parts are.
pub open spec fn czero(x: CFrac) -> bool {
    x.0.0 == 0 && x.1.0 == 0
}

#[derive(Debug, Clone, PartialEq, Eq, Hash)]
pub struct Cplx {
    pub re: Rat,
    pub im: Rat,
}

impl View for Cplx {
    type V = CFrac;

    open spec fn view(&self) -> CFrac {
        (self.re@, self.im@)
    }
}

/// The squared norm of a nonzero complex fraction is nonzero.
pub proof fn lemma_norm_sqr_nonzero(y: CFrac)
    requires
        y.0.1 > 0,
        y.1.1 > 0,
        !czero(y),
    ensures
        cnorm_sqr(y).0 > 0,
        cnorm_sqr(y).1 > 0,
{
    let (a, b) = (y.0.0 * y.0.0, y.0.1 * y.0.1);
    let (c, d) = (y.1.0 * y.1.0, y.1.1 * y.1.1);
    assert(a >= 0 && c >= 0 && b > 0 && d > 0 && (a > 0 || c > 0)) by (nonlinear_arith)
        requires
            y.0.1 > 0,
            y.1.1 > 0,
            y.0.0 != 0 || y.1.0 != 0,
            a == y.0.0 * y.0.0,
            b == y.0.1 * y.0.1,
            c == y.1.0 * y.1.0,
            d == y.1.1 * y.1.1,
    {}
    assert(a * d + c * b > 0 && b * d > 0) by (nonlinear_arith)
        requires
            a >= 0,
            c >= 0,
            b > 0,
            d > 0,
            a > 0 || c > 0,
    {}
}

/// Both denominators nonzero.
pub open spec fn cnz(x: CFrac) -> bool {
    x.0.1 != 0 && x.1.1 != 0
}

pub proof fn lemma_ceq_trans(x: CFrac, y: CFrac, z: CFrac)
    requires
        ceq(x, y),
        ceq(y, z),
        cnz(y),
    ensures
        ceq(x, z),
{
    lemma_qeq_trans(x.0, y.0, z.0);
    lemma_qeq_trans(x.1, y.1, z.1);
}

pub proof fn lemma_cmul_den(a: CFrac, b: CFrac)
    requires
        a.0.1 > 0,
        a.1.1 > 0,
        b.0.1 > 0,
        b.1.1 > 0,
    ensures
        cmul(a, b).0.1 > 0,
        cmul(a, b).1.1 > 0,
        cadd(a, b).0.1 > 0,
        cadd(a, b).1.1 > 0,
        csub(a, b).0.1 > 0,
        csub(a, b).1.1 > 0,
{
    lemma_den_pos(a.0.1, b.0.1);
    lemma_den_pos(a.1.1, b.1.1);
    lemma_den_pos(a.0.1, b.1.1);
    lemma_den_pos(a.1.1, b.0.1);
    lemma_den_pos(a.0.1 * b.0.1, a.1.1 * b.1.1);
    lemma_den_pos(a.0.1 * b.1.1, a.1.1 * b.0.1);
}

/// `s` equals `a + b`, and `a`, `b` equal `a2`, `b2`: then `s` equals `a2 + b2`.
pub proof fn lemma_cadd_cong(s: CFrac, a: CFrac, b: CFrac, a2: CFrac, b2: CFrac)
    requires
        ceq(s, cadd(a, b)),
        ceq(a, a2),
        ceq(b, b2),
        a.0.1 > 0 && a.1.1 > 0 && b.0.1 > 0 && b.1.1 > 0,
    ensures
        ceq(s, cadd(a2, b2)),
{
    lemma_qadd_cong(a.0, a2.0, b.0, b2.0);
    lemma_qadd_cong(a.1, a2.1, b.1, b2.1);
    lemma_cmul_den(a, b);
    lemma_ceq_trans(s, cadd(a, b), cadd(a2, b2));
}

pub proof fn lemma_csub_cong(s: CFrac, a: CFrac, b: CFrac, a2: CFrac, b2: CFrac)
    requires
        ceq(s, csub(a, b)),
        ceq(a, a2),
        ceq(b, b2),
        a.0.1 > 0 && a.1.1 > 0 && b.0.1 > 0 && b.1.1 > 0,
    ensures
        ceq(s, csub(a2, b2)),
{
    lemma_qsub_cong(a.0, a2.0, b.0, b2.0);
    lemma_qsub_cong(a.1, a2.1, b.1, b2.1);
    lemma_cmul_den(a, b);
    lemma_ceq_trans(s, csub(a, b), csub(a2, b2));
}

pub proof fn lemma_cmul_cong(s: CFrac, a: CFrac, b: CFrac, a2: CFrac, b2: CFrac)
    requires
        ceq(s, cmul(a, b)),
        ceq(a, a2),
        ceq(b, b2),
        a.0.1 > 0 && a.1.1 > 0 && b.0.1 > 0 && b.1.1 > 0,
    ensures
        ceq(s, cmul(a2, b2)),
{
    lemma_qmul_cong(a.0, a2.0, b.0, b2.0);
    lemma_qmul_cong(a.1, a2.1, b.1, b2.1);
    lemma_qmul_cong(a.0, a2.0, b.1, b2.1);
    lemma_qmul_cong(a.1, a2.1, b.0, b2.0);
    lemma_qsub_cong(qmul(a.0, b.0), qmul(a2.0, b2.0), qmul(a.1, b.1), qmul(a2.1, b2.1));
    lemma_qadd_cong(qmul(a.0, b.1), qmul(a2.0, b2.1), qmul(a.1, b.0), qmul(a2.1, b2.0));
    lemma_cmul_den(a, b);
    lemma_ceq_trans(s, cmul(a, b), cmul(a2, b2));
}

pub proof fn lemma_cdiv_cong(s: CFrac, a: CFrac, b: CFrac, a2: CFrac, b2: CFrac)
    requires
        ceq(s, cdiv(a, b)),
        ceq(a, a2),
        ceq(b, b2),
        a.0.1 > 0 && a.1.1 > 0 && b.0.1 > 0 && b.1.1 > 0,
        !czero(b),
    ensures
        ceq(s, cdiv(a2, b2)),
{
    lemma_qmul_cong(a.0, a2.0, b.0, b2.0);
    lemma_qmul_cong(a.1, a2.1, b.1, b2.1);
    lemma_qmul_cong(a.0, a2.0, b.1, b2.1);
    lemma_qmul_cong(a.1, a2.1, b.0, b2.0);
    lemma_qmul_cong(b.0, b2.0, b.0, b2.0);
    lemma_qmul_cong(b.1, b2.1, b.1, b2.1);
    lemma_qadd_cong(qmul(b.0, b.0), qmul(b2.0, b2.0), qmul(b.1, b.1), qmul(b2.1, b2.1));
    lemma_qadd_cong(qmul(a.0, b.0), qmul(a2.0, b2.0), qmul(a.1, b.1), qmul(a2.1, b2.1));
    lemma_qsub_cong(qmul(a.1, b.0), qmul(a2.1, b2.0), qmul(a.0, b.1), qmul(a2.0, b2.1));
    lemma_qdiv_cong(
        qadd(qmul(a.0, b.0), qmul(a.1, b.1)),
        qadd(qmul(a2.0, b2.0), qmul(a2.1, b2.1)),
        cnorm_sqr(b),
        cnorm_sqr(b2),
    );
    lemma_qdiv_cong(
        qsub(qmul(a.1, b.0), qmul(a.0, b.1)),
        qsub(qmul(a2.1, b2.0), qmul(a2.0, b2.1)),
        cnorm_sqr(b),
        cnorm_sqr(b2),
    );
    lemma_norm_sqr_nonzero(b);
    lemma_cmul_den(a, b);
    let n = cnorm_sqr(b);
    let p = qadd(qmul(a.0, b.0), qmul(a.1, b.1));
    let q = qsub(qmul(a.1, b.0), qmul(a.0, b.1));
    assert(p.1 * n.0 != 0) by (nonlinear_arith)
        requires p.1 > 0, n.0 > 0, {}
    lemma_den_pos(a.1.1, b.0.1);
    lemma_den_pos(a.0.1, b.1.1);
    lemma_den_pos(a.1.1 * b.0.1, a.0.1 * b.1.1);
    lemma_den_pos(a.0.1, b.0.1);
    lemma_den_pos(a.1.1, b.1.1);
    lemma_den_pos(a.0.1 * b.0.1, a.1.1 * b.1.1);
    assert(q.1 * n.0 != 0) by (nonlinear_arith)
        requires q.1 > 0, n.0 > 0, {}
    lemma_ceq_trans(s, cdiv(a, b), cdiv(a2, b2));
}

/// Equal complex fractions are zero together.
pub proof fn lemma_ceq_zero(x: CFrac, y: CFrac)
    requires
        ceq(x, y),
        x.0.1 > 0 && x.1.1 > 0 && y.0.1 > 0 && y.1.1 > 0,
    ensures
        czero(x) == czero(y),
{
    assert((x.0.0 == 0) == (y.0.0 == 0)) by (nonlinear_arith)
        requires x.0.0 * y.0.1 == y.0.0 * x.0.1, x.0.1 > 0, y.0.1 > 0, {}
    assert((x.1.0 == 0) == (y.1.0 == 0)) by (nonlinear_arith)
        requires x.1.0 * y.1.1 == y.1.0 * x.1.1, x.1.1 > 0, y.1.1 > 0, {}
}

/// Products of real numbers, seen as complex numbers, stay real.
pub proof fn lemma_real_mul(r: Frac, a: Frac, b: Frac)
    requires
        qeq(r, qmul(a, b)),
        a.1 > 0,
        b.1 > 0,
    ensures
        ceq((r, (0, 1)), cmul((a, (0, 1)), (b, (0, 1)))),
{
    let m = cmul((a, (0, 1)), (b, (0, 1)));
    assert(m.0 == (a.0 * b.0 * 1 - 0 * 0 * (a.1 * b.1), a.1 * b.1 * 1));
    assert(m.0 == (a.0 * b.0, a.1 * b.1)) by (nonlinear_arith)
        requires m.0 == (a.0 * b.0 * 1 - 0 * 0 * (a.1 * b.1), a.1 * b.1 * 1), {}
    assert(m.1.0 == 0) by (nonlinear_arith)
        requires m.1 == qadd(qmul(a, (0, 1)), qmul((0, 1), b)), {}
}

/// Quotients of real numbers, seen as complex numbers, stay real.
pub proof fn lemma_real_div(r: Frac, a: Frac, b: Frac)
    requires
        qeq(r, qdiv(a, b)),
        a.1 > 0,
        b.1 > 0,
        b.0 != 0,
    ensures
        ceq((r, (0, 1)), cdiv((a, (0, 1)), (b, (0, 1)))),
{
    let d = cdiv((a, (0, 1)), (b, (0, 1)));
    let n = cnorm_sqr((b, (0, 1)));
    assert(n == (b.0 * b.0 * 1 + 0 * 0 * (b.1 * b.1), b.1 * b.1 * 1));
    assert(n == (b.0 * b.0, b.1 * b.1)) by (nonlinear_arith)
        requires n == (b.0 * b.0 * 1 + 0 * 0 * (b.1 * b.1), b.1 * b.1 * 1), {}
    let p = qadd(qmul(a, b), qmul((0, 1), (0, 1)));
    assert(p == (a.0 * b.0 * 1 + 0 * 0 * (a.1 * b.1), a.1 * b.1 * 1));
    assert(p == (a.0 * b.0, a.1 * b.1)) by (nonlinear_arith)
        requires p == (a.0 * b.0 * 1 + 0 * 0 * (a.1 * b.1), a.1 * b.1 * 1), {}
    assert(d.0 == qdiv(p, n));
    assert(qeq(qdiv(a, b), d.0)) by (nonlinear_arith)
        requires
            d.0 == (a.0 * b.0 * (b.1 * b.1), a.1 * b.1 * (b.0 * b.0)),
    {
        assert(a.0 * b.1 * (a.1 * b.1 * (b.0 * b.0)) == (a.0 * b.0 * (b.1 * b.1)) * (a.1 * b.0));
    }
    lemma_den_pos(b.1, b.1);
    lemma_den_pos(a.1, b.1);
    assert(b.0 * b.0 > 0) by (nonlinear_arith) requires b.0 != 0, {}
    assert(qdiv(a, b).1 != 0) by (nonlinear_arith) requires a.1 > 0, b.0 != 0, {}
    lemma_qeq_trans(r, qdiv(a, b), d.0);
    let q = qsub(qmul((0, 1), b), qmul(a, (0, 1)));
    assert(q.0 == 0) by (nonlinear_arith)
        requires q == qsub(qmul((0, 1), b), qmul(a, (0, 1))), {}
    assert(d.1.0 == 0) by (nonlinear_arith) requires d.1 == qdiv(q, n), q.0 == 0, {}
}

impl Cplx {
    pub open spec fn wf(&self) -> bool {
        self.re.wf() && self.im.wf()
    }

    pub fn copy(&self) -> (r: Cplx)
        ensures
            r@ == self@,
    {
        Cplx { re: self.re.copy(), im: self.im.copy() }
    }

    pub fn new(re: Rat, im: Rat) -> (r: Cplx)
        ensures
            r.re == re,
            r.im == im,
    {
        Cplx { re, im }
    }

    pub fn add(&self, other: &Cplx) -> (r: Cplx)
        requires
            self.wf(),
            other.wf(),
        ensures
            r.wf(),
            ceq(r@, cadd(self@, other@)),
    {
        Cplx { re: self.re.add(&other.re), im: self.im.add(&other.im) }
    }

    pub fn sub(&self, other: &Cplx) -> (r: Cplx)
        requires
            self.wf(),
            other.wf(),
        ensures
            r.wf(),
            ceq(r@, csub(self@, other@)),
    {
        Cplx { re: self.re.sub(&other.re), im: self.im.sub(&other.im) }
    }

    pub fn neg(&self) -> (r: Cplx)
        requires
            self.wf(),
        ensures
            r.wf(),
            r@ == cneg(self@),
    {
        Cplx { re: self.re.neg(), im: self.im.neg() }
    }

    pub fn conj(&self) -> (r: Cplx)
        requires
            self.wf(),
        ensures
            r.wf(),
            r@ == cconj(self@),
    {
        Cplx { re: self.re.copy(), im: self.im.neg() }
    }

    pub fn mul(&self, other: &Cplx) -> (r: Cplx)
        requires
            self.wf(),
            other.wf(),
        ensures
            r.wf(),
            ceq(r@, cmul(self@, other@)),
    {
        let ac = self.re.mul(&other.re);
        let bd = self.im.mul(&other.im);
        let ad = self.re.mul(&other.im);
        let bc = self.im.mul(&other.re);
        let re = ac.sub(&bd);
        let im = ad.add(&bc);
        proof {
            lemma_den_pos(ac.den@, bd.den@);
            lemma_den_pos(ad.den@, bc.den@);
            lemma_qsub_cong(ac@, qmul(self.re@, other.re@), bd@, qmul(self.im@, other.im@));
            lemma_qeq_trans(re@, qsub(ac@, bd@), qsub(qmul(self.re@, other.re@), qmul(self.im@, other.im@)));
            lemma_qadd_cong(ad@, qmul(self.re@, other.im@), bc@, qmul(self.im@, other.re@));
            lemma_qeq_trans(im@, qadd(ad@, bc@), qadd(qmul(self.re@, other.im@), qmul(self.im@, other.re@)));
        }
        Cplx { re, im }
    }

    /// Division, which needs a nonzero divisor.
    pub fn div(&self, other: &Cplx) -> (r: Cplx)
        requires
            self.wf(),
            other.wf(),
            !czero(other@),
        ensures
            r.wf(),
            ceq(r@, cdiv(self@, other@)),
    {
        let cc = other.re.mul(&other.re);
        let dd = other.im.mul(&other.im);
        let norm = cc.add(&dd);
        let ac = self.re.mul(&other.re);
        let bd = self.im.mul(&other.im);
        let bc = self.im.mul(&other.re);
        let ad = self.re.mul(&other.im);
        let rn = ac.add(&bd);
        let inum = bc.sub(&ad);
        proof {
            lemma_den_pos(cc.den@, dd.den@);
            lemma_den_pos(ac.den@, bd.den@);
            lemma_den_pos(bc.den@, ad.den@);
            lemma_norm_sqr_nonzero(other@);
            lemma_qadd_cong(cc@, qmul(other.re@, other.re@), dd@, qmul(other.im@, other.im@));
            lemma_qeq_trans(norm@, qadd(cc@, dd@), cnorm_sqr(other@));
            let n = cnorm_sqr(other@);
            assert(norm.num@ != 0) by (nonlinear_arith)
                requires
                    norm.num@ * n.1 == n.0 * norm.den@,
                    n.0 > 0,
                    norm.den@ > 0,
            {}
            lemma_qadd_cong(ac@, qmul(self.re@, other.re@), bd@, qmul(self.im@, other.im@));
            lemma_qeq_trans(rn@, qadd(ac@, bd@), qadd(qmul(self.re@, other.re@), qmul(self.im@, other.im@)));
            lemma_qsub_cong(bc@, qmul(self.im@, other.re@), ad@, qmul(self.re@, other.im@));
            lemma_qeq_trans(inum@, qsub(bc@, ad@), qsub(qmul(self.im@, other.re@), qmul(self.re@, other.im@)));
        }
        let re = rn.div(&norm);
        let im = inum.div(&norm);
        proof {
            let n = cnorm_sqr(other@);
            assert(rn.den@ * norm.num@ != 0) by (nonlinear_arith)
                requires rn.den@ > 0, norm.num@ != 0, {}
            assert(inum.den@ * norm.num@ != 0) by (nonlinear_arith)
                requires inum.den@ > 0, norm.num@ != 0, {}
            lemma_qdiv_cong(rn@, qadd(qmul(self.re@, other.re@), qmul(self.im@, other.im@)), norm@, n);
            lemma_qeq_trans(re@, qdiv(rn@, norm@), cdiv(self@, other@).0);
            lemma_qdiv_cong(inum@, qsub(qmul(self.im@, other.re@), qmul(self.re@, other.im@)), norm@, n);
            lemma_qeq_trans(im@, qdiv(inum@, norm@), cdiv(self@, other@).1);
        }
        Cplx { re, im }
    }
}

} // verus!
