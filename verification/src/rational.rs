//! Exact rationals in lowest terms. The arithmetic is `num-rational`'s,
//! called through the wrappers below; a value is a pair of `Int`s.

use vstd::prelude::*;
use num_bigint::BigInt;
use num_rational::BigRational;
use num_traits::Signed;
use crate::number::{Int, int_text};

verus! {

/// Greatest common divisor (Euclid).
pub open spec fn gcd(a: nat, b: nat) -> nat
    decreases b,
{
    if b == 0 {
        a
    } else {
        gcd(b, a % b)
    }
}

pub open spec fn abs(x: int) -> nat {
    if x < 0 { (-x) as nat } else { x as nat }
}

/// A fraction written as (numerator, denominator).
pub type Frac = (int, int);

/// Two fractions denote the same number.
pub open spec fn qeq(x: Frac, y: Frac) -> bool {
    x.0 * y.1 == y.0 * x.1
}

pub open spec fn qadd(x: Frac, y: Frac) -> Frac {
    (x.0 * y.1 + y.0 * x.1, x.1 * y.1)
}

pub open spec fn qsub(x: Frac, y: Frac) -> Frac {
    (x.0 * y.1 - y.0 * x.1, x.1 * y.1)
}

pub open spec fn qmul(x: Frac, y: Frac) -> Frac {
    (x.0 * y.0, x.1 * y.1)
}

pub open spec fn qdiv(x: Frac, y: Frac) -> Frac {
    (x.0 * y.1, x.1 * y.0)
}

pub open spec fn qneg(x: Frac) -> Frac {
    (-x.0, x.1)
}

pub open spec fn qint(n: int) -> Frac {
    (n, 1)
}

/// Rational number `num/den`.
#[derive(Debug, Clone, PartialEq, Eq, Hash)]
pub struct Rat {
    pub num: Int,
    pub den: Int,
}

impl View for Rat {
    type V = Frac;

    open spec fn view(&self) -> Frac {
        (self.num@, self.den@)
    }
}

/// Text of a fraction in lowest terms: `n` for integers, `n/d` otherwise.
pub open spec fn rat_text(x: Frac) -> Seq<char> {
    if x.1 == 1 {
        int_text(x.0)
    } else {
        int_text(x.0) + seq!['/'] + int_text(x.1)
    }
}

/// Round half away from zero.
pub open spec fn round_half_away(x: Frac) -> int {
    if x.0 >= 0 {
        (2 * x.0 + x.1) / (2 * x.1)
    } else {
        -((-2 * x.0 + x.1) / (2 * x.1))
    }
}

pub proof fn lemma_qeq_refl(x: Frac)
    ensures
        qeq(x, x),
{
}

pub proof fn lemma_qeq_sym(x: Frac, y: Frac)
    requires
        qeq(x, y),
    ensures
        qeq(y, x),
{
}

pub proof fn lemma_qeq_trans(x: Frac, y: Frac, z: Frac)
    requires
        qeq(x, y),
        qeq(y, z),
        y.1 != 0,
    ensures
        qeq(x, z),
{
    assert(x.0 * z.1 * y.1 == z.0 * x.1 * y.1) by (nonlinear_arith)
        requires
            x.0 * y.1 == y.0 * x.1,
            y.0 * z.1 == z.0 * y.1,
    {
        assert(x.0 * z.1 * y.1 == (x.0 * y.1) * z.1);
        assert(z.0 * x.1 * y.1 == (z.0 * y.1) * x.1);
        assert((y.0 * x.1) * z.1 == (y.0 * z.1) * x.1);
    }
    assert(x.0 * z.1 == z.0 * x.1) by (nonlinear_arith)
        requires
            x.0 * z.1 * y.1 == z.0 * x.1 * y.1,
            y.1 != 0,
    {}
}

pub proof fn lemma_qadd_cong(x: Frac, x2: Frac, y: Frac, y2: Frac)
    requires
        qeq(x, x2),
        qeq(y, y2),
    ensures
        qeq(qadd(x, y), qadd(x2, y2)),
{
    let p = x2.1 * y2.1;
    let q = x.1 * y.1;
    assert((x.0 * y.1 + y.0 * x.1) * p == (x.0 * y.1) * p + (y.0 * x.1) * p) by (nonlinear_arith);
    assert((x2.0 * y2.1 + y2.0 * x2.1) * q == (x2.0 * y2.1) * q + (y2.0 * x2.1) * q)
        by (nonlinear_arith);
    assert((x.0 * y.1) * p == (x.0 * x2.1) * (y.1 * y2.1)) by (nonlinear_arith)
        requires p == x2.1 * y2.1, {}
    assert((x2.0 * y2.1) * q == (x2.0 * x.1) * (y.1 * y2.1)) by (nonlinear_arith)
        requires q == x.1 * y.1, {}
    assert((y.0 * x.1) * p == (y.0 * y2.1) * (x.1 * x2.1)) by (nonlinear_arith)
        requires p == x2.1 * y2.1, {}
    assert((y2.0 * x2.1) * q == (y2.0 * y.1) * (x.1 * x2.1)) by (nonlinear_arith)
        requires q == x.1 * y.1, {}
}

pub proof fn lemma_qsub_cong(x: Frac, x2: Frac, y: Frac, y2: Frac)
    requires
        qeq(x, x2),
        qeq(y, y2),
    ensures
        qeq(qsub(x, y), qsub(x2, y2)),
{
    let ny = qneg(y);
    let ny2 = qneg(y2);
    assert(qeq(ny, ny2)) by (nonlinear_arith)
        requires
            y.0 * y2.1 == y2.0 * y.1,
            ny == (-y.0, y.1),
            ny2 == (-y2.0, y2.1),
    {}
    lemma_qadd_cong(x, x2, ny, ny2);
    assert(qsub(x, y) == qadd(x, ny)) by (nonlinear_arith)
        requires
            ny == (-y.0, y.1),
    {}
    assert(qsub(x2, y2) == qadd(x2, ny2)) by (nonlinear_arith)
        requires
            ny2 == (-y2.0, y2.1),
    {}
}

/// Denominators built by the fraction operations stay positive.
pub proof fn lemma_den_pos(a: int, b: int)
    requires
        a > 0,
        b > 0,
    ensures
        a * b > 0,
{
    vstd::arithmetic::mul::lemma_mul_strictly_positive(a, b);
}

pub proof fn lemma_qmul_cong(x: Frac, x2: Frac, y: Frac, y2: Frac)
    requires
        qeq(x, x2),
        qeq(y, y2),
    ensures
        qeq(qmul(x, y), qmul(x2, y2)),
{
    assert((x.0 * y.0) * (x2.1 * y2.1) == (x2.0 * y2.0) * (x.1 * y.1)) by (nonlinear_arith)
        requires
            x.0 * x2.1 == x2.0 * x.1,
            y.0 * y2.1 == y2.0 * y.1,
    {
        assert((x.0 * y.0) * (x2.1 * y2.1) == (x.0 * x2.1) * (y.0 * y2.1));
        assert((x2.0 * y2.0) * (x.1 * y.1) == (x2.0 * x.1) * (y2.0 * y.1));
    }
}

pub proof fn lemma_qdiv_cong(x: Frac, x2: Frac, y: Frac, y2: Frac)
    requires
        qeq(x, x2),
        qeq(y, y2),
    ensures
        qeq(qdiv(x, y), qdiv(x2, y2)),
{
    assert((x.0 * y.1) * (x2.1 * y2.0) == (x2.0 * y2.1) * (x.1 * y.0)) by (nonlinear_arith)
        requires
            x.0 * x2.1 == x2.0 * x.1,
            y.0 * y2.1 == y2.0 * y.1,
    {
        assert((x.0 * y.1) * (x2.1 * y2.0) == (x.0 * x2.1) * (y.1 * y2.0));
        assert((x2.0 * y2.1) * (x.1 * y.0) == (x2.0 * x.1) * (y.0 * y2.1));
    }
}

pub proof fn lemma_gcd_one(a: nat)
    ensures
        gcd(a, 1) == 1,
{
    reveal_with_fuel(gcd, 2);
}

/// In lowest terms, a fraction is an integer exactly when its denominator is 1.
pub proof fn lemma_integer_iff_den_one(x: Frac)
    requires
        x.1 > 0,
        gcd(abs(x.0), x.1 as nat) == 1,
    ensures
        (x.1 == 1) <==> (x.0 % x.1 == 0),
{
    if x.0 % x.1 == 0 && x.1 != 1 {
        assert(abs(x.0) % (x.1 as nat) == 0) by {
            if x.0 < 0 {
                let q = x.0 / x.1;
                vstd::arithmetic::div_mod::lemma_fundamental_div_mod(x.0, x.1);
                vstd::arithmetic::mul::lemma_mul_is_commutative(x.1, q);
                vstd::arithmetic::mul::lemma_mul_unary_negation(q, x.1);
                vstd::arithmetic::div_mod::lemma_mod_multiples_basic(-q, x.1);
            }
        }
        reveal_with_fuel(gcd, 2);
        assert(gcd(abs(x.0), x.1 as nat) == gcd(x.1 as nat, 0));
    }
}

impl Rat {
    /// A copy with the same numerator and denominator.
    pub fn copy(&self) -> (r: Rat)
        ensures
            r@ == self@,
            r.num.bytes@ == self.num.bytes@,
            r.den.bytes@ == self.den.bytes@,
    {
        Rat { num: self.num.copy(), den: self.den.copy() }
    }

    /// Lowest terms with a positive denominator.
    pub open spec fn wf(&self) -> bool {
        self.den@ > 0 && gcd(abs(self.num@), self.den@ as nat) == 1
    }

    /// Same as `Ratio::from_integer`: `n/1`.
    pub fn from_int(n: Int) -> (r: Rat)
        ensures
            r.wf(),
            r@ == qint(n@),
    {
        proof { lemma_gcd_one(abs(n@)); }
        Rat { num: n, den: Int::from_i64(1) }
    }

    pub fn from_i64(n: i64) -> (r: Rat)
        ensures
            r.wf(),
            r@ == qint(n as int),
    {
        Rat::from_int(Int::from_i64(n))
    }

    /// Calls `BigRational::new`, which reduces to lowest terms.
    #[verifier::external_body]
    pub(crate) fn new(num: &Int, den: &Int) -> (r: Rat)
        requires
            den@ != 0,
        ensures
            r.wf(),
            qeq(r@, (num@, den@)),
    {
        let r = BigRational::new(BigInt::from_signed_bytes_le(&num.bytes), BigInt::from_signed_bytes_le(&den.bytes));
        Rat { num: Int { bytes: r.numer().to_signed_bytes_le() }, den: Int { bytes: r.denom().to_signed_bytes_le() } }
    }

    /// Calls `BigRational`'s `Add`.
    #[verifier::external_body]
    pub(crate) fn add(&self, other: &Rat) -> (r: Rat)
        requires
            self.wf(),
            other.wf(),
        ensures
            r.wf(),
            qeq(r@, qadd(self@, other@)),
    {
        let a = BigRational::new_raw(BigInt::from_signed_bytes_le(&self.num.bytes), BigInt::from_signed_bytes_le(&self.den.bytes));
        let b = BigRational::new_raw(BigInt::from_signed_bytes_le(&other.num.bytes), BigInt::from_signed_bytes_le(&other.den.bytes));
        let r = a + b;
        Rat { num: Int { bytes: r.numer().to_signed_bytes_le() }, den: Int { bytes: r.denom().to_signed_bytes_le() } }
    }

    /// Calls `BigRational`'s `Sub`.
    #[verifier::external_body]
    pub(crate) fn sub(&self, other: &Rat) -> (r: Rat)
        requires
            self.wf(),
            other.wf(),
        ensures
            r.wf(),
            qeq(r@, qsub(self@, other@)),
    {
        let a = BigRational::new_raw(BigInt::from_signed_bytes_le(&self.num.bytes), BigInt::from_signed_bytes_le(&self.den.bytes));
        let b = BigRational::new_raw(BigInt::from_signed_bytes_le(&other.num.bytes), BigInt::from_signed_bytes_le(&other.den.bytes));
        let r = a - b;
        Rat { num: Int { bytes: r.numer().to_signed_bytes_le() }, den: Int { bytes: r.denom().to_signed_bytes_le() } }
    }

    /// Calls `BigRational`'s `Mul`.
    #[verifier::external_body]
    pub(crate) fn mul(&self, other: &Rat) -> (r: Rat)
        requires
            self.wf(),
            other.wf(),
        ensures
            r.wf(),
            qeq(r@, qmul(self@, other@)),
    {
        let a = BigRational::new_raw(BigInt::from_signed_bytes_le(&self.num.bytes), BigInt::from_signed_bytes_le(&self.den.bytes));
        let b = BigRational::new_raw(BigInt::from_signed_bytes_le(&other.num.bytes), BigInt::from_signed_bytes_le(&other.den.bytes));
        let r = a * b;
        Rat { num: Int { bytes: r.numer().to_signed_bytes_le() }, den: Int { bytes: r.denom().to_signed_bytes_le() } }
    }

    /// Calls `BigRational`'s `Div`, which panics on a zero divisor.
    #[verifier::external_body]
    pub(crate) fn div(&self, other: &Rat) -> (r: Rat)
        requires
            self.wf(),
            other.wf(),
            other.num@ != 0,
        ensures
            r.wf(),
            qeq(r@, qdiv(self@, other@)),
    {
        let a = BigRational::new_raw(BigInt::from_signed_bytes_le(&self.num.bytes), BigInt::from_signed_bytes_le(&self.den.bytes));
        let b = BigRational::new_raw(BigInt::from_signed_bytes_le(&other.num.bytes), BigInt::from_signed_bytes_le(&other.den.bytes));
        let r = a / b;
        Rat { num: Int { bytes: r.numer().to_signed_bytes_le() }, den: Int { bytes: r.denom().to_signed_bytes_le() } }
    }

    /// Calls `BigRational`'s `Neg`.
    #[verifier::external_body]
    pub(crate) fn neg(&self) -> (r: Rat)
        requires
            self.wf(),
        ensures
            r.wf(),
            r@ == qneg(self@),
    {
        let a = BigRational::new_raw(BigInt::from_signed_bytes_le(&self.num.bytes), BigInt::from_signed_bytes_le(&self.den.bytes));
        let r = -a;
        Rat { num: Int { bytes: r.numer().to_signed_bytes_le() }, den: Int { bytes: r.denom().to_signed_bytes_le() } }
    }

    /// Calls `Ratio::recip`, which panics on zero.
    #[verifier::external_body]
    pub(crate) fn recip(&self) -> (r: Rat)
        requires
            self.wf(),
            self.num@ != 0,
        ensures
            r.wf(),
            qeq(r@, (self.den@, self.num@)),
    {
        let a = BigRational::new_raw(BigInt::from_signed_bytes_le(&self.num.bytes), BigInt::from_signed_bytes_le(&self.den.bytes));
        let r = a.recip();
        Rat { num: Int { bytes: r.numer().to_signed_bytes_le() }, den: Int { bytes: r.denom().to_signed_bytes_le() } }
    }

    /// Calls `Ratio::floor`: the greatest integer not above the value.
    #[verifier::external_body]
    pub(crate) fn floor(&self) -> (r: Rat)
        requires
            self.wf(),
        ensures
            r.wf(),
            r@ == qint(self.num@ / self.den@),
    {
        let a = BigRational::new_raw(BigInt::from_signed_bytes_le(&self.num.bytes), BigInt::from_signed_bytes_le(&self.den.bytes));
        let r = a.floor();
        Rat { num: Int { bytes: r.numer().to_signed_bytes_le() }, den: Int { bytes: r.denom().to_signed_bytes_le() } }
    }

    /// Calls `Ratio::ceil`: the least integer not below the value.
    #[verifier::external_body]
    pub(crate) fn ceil(&self) -> (r: Rat)
        requires
            self.wf(),
        ensures
            r.wf(),
            r@ == qint(-((-self.num@) / self.den@)),
    {
        let a = BigRational::new_raw(BigInt::from_signed_bytes_le(&self.num.bytes), BigInt::from_signed_bytes_le(&self.den.bytes));
        let r = a.ceil();
        Rat { num: Int { bytes: r.numer().to_signed_bytes_le() }, den: Int { bytes: r.denom().to_signed_bytes_le() } }
    }

    /// Calls `Ratio::round`: nearest integer, halves away from zero.
    #[verifier::external_body]
    pub(crate) fn round(&self) -> (r: Rat)
        requires
            self.wf(),
        ensures
            r.wf(),
            r@ == qint(round_half_away(self@)),
    {
        let a = BigRational::new_raw(BigInt::from_signed_bytes_le(&self.num.bytes), BigInt::from_signed_bytes_le(&self.den.bytes));
        let r = a.round();
        Rat { num: Int { bytes: r.numer().to_signed_bytes_le() }, den: Int { bytes: r.denom().to_signed_bytes_le() } }
    }

    /// Calls `BigRational`'s `PartialEq`, which compares values.
    #[verifier::external_body]
    pub(crate) fn eq(&self, other: &Rat) -> (r: bool)
        requires
            self.wf(),
            other.wf(),
        ensures
            r == qeq(self@, other@),
    {
        let a = BigRational::new_raw(BigInt::from_signed_bytes_le(&self.num.bytes), BigInt::from_signed_bytes_le(&self.den.bytes));
        let b = BigRational::new_raw(BigInt::from_signed_bytes_le(&other.num.bytes), BigInt::from_signed_bytes_le(&other.den.bytes));
        a == b
    }

    /// Calls `ToString::to_string` (`BigRational`'s `Display`).
    #[verifier::external_body]
    pub(crate) fn to_text(&self) -> (r: String)
        requires
            self.wf(),
        ensures
            r@ == rat_text(self@),
    {
        BigRational::new_raw(BigInt::from_signed_bytes_le(&self.num.bytes), BigInt::from_signed_bytes_le(&self.den.bytes)).to_string()
    }

    /// `Ratio::is_integer`: the denominator is 1.
    pub fn is_integer(&self) -> (r: bool)
        requires
            self.wf(),
        ensures
            r == (self.den@ == 1),
            r == (self.num@ % self.den@ == 0),
    {
        proof { lemma_integer_iff_den_one(self@); }
        self.den.is_one()
    }

    pub fn is_zero(&self) -> (r: bool)
        ensures
            r == (self.num@ == 0),
    {
        self.num.is_zero()
    }

    pub fn is_negative(&self) -> (r: bool)
        ensures
            r == (self.num@ < 0),
    {
        self.num.is_negative()
    }

    pub fn is_positive(&self) -> (r: bool)
        ensures
            r == (self.num@ > 0),
    {
        !self.num.is_negative() && !self.num.is_zero()
    }

    /// Same as `Signed::abs` on a ratio: negate when negative.
    pub fn abs(&self) -> (r: Rat)
        requires
            self.wf(),
        ensures
            r.wf(),
            r@ == (abs(self.num@) as int, self.den@),
    {
        if self.is_negative() {
            self.neg()
        } else {
            self.copy()
        }
    }
}

} // verus!
