//! Exact numeric values: rationals, and complex numbers with rational parts.
//! Results that leave the exact numbers (irrational roots and the like) are
//! reported as `None`, for an approximate fallback to compute.

use vstd::prelude::*;
use vstd::arithmetic::power::pow;
use crate::complex::{
    cnorm_sqr,
    CFrac, Cplx, ceq, cadd, csub, cmul, cdiv, cneg, czero, lemma_ceq_trans, lemma_cadd_cong,
    lemma_csub_cong, lemma_cmul_cong, lemma_cdiv_cong, lemma_ceq_zero, lemma_real_mul, lemma_real_div,
};
use crate::error::EvalError;
use crate::number::Int;
use crate::rational::{Frac, Rat, qeq, qint, qmul, qadd, lemma_qeq_trans, abs, gcd};
use crate::power::{qpow, qrecip, rat_ipow, cplx_ipow, tri, teq, tpow, tmul, tone, abs_int, lemma_qpow_cong};
use crate::text::usize_text;

verus! {

#[derive(Debug, Clone, PartialEq, Eq, Hash)]
pub enum Value {
    /// Exact rational.
    Rational(Rat),
    /// Exact complex with rational parts; imaginary part is never zero.
    ExactComplex(Cplx),
}

pub open spec fn czero_frac() -> Frac {
    (0, 1)
}

impl Value {
    /// The complex number this value denotes.
    pub open spec fn cval(&self) -> CFrac {
        match self {
            Value::Rational(r) => (r@, czero_frac()),
            Value::ExactComplex(c) => c@,
        }
    }

    /// Parts in lowest terms, and a complex value's imaginary part nonzero.
    pub open spec fn wf(&self) -> bool {
        match self {
            Value::Rational(r) => r.wf(),
            Value::ExactComplex(c) => c.wf() && c.im.num@ != 0,
        }
    }

    pub fn copy(&self) -> (r: Value)
        ensures
            r.cval() == self.cval(),
            r.wf() == self.wf(),
            (r is Rational) == (self is Rational),
    {
        match self {
            Value::Rational(q) => Value::Rational(q.copy()),
            Value::ExactComplex(c) => Value::ExactComplex(c.copy()),
        }
    }

    /// The integer `n`.
    pub fn integer(n: i64) -> (r: Value)
        ensures
            r.wf(),
            r is Rational,
            r.cval() == (qint(n as int), czero_frac()),
    {
        Value::Rational(Rat::from_i64(n))
    }

    /// The fraction `n/d` in lowest terms.
    pub fn rat(n: i64, d: i64) -> (r: Value)
        requires
            d != 0,
        ensures
            r.wf(),
            r is Rational,
            qeq(r.cval().0, (n as int, d as int)),
            r.cval().1 == czero_frac(),
    {
        Value::Rational(Rat::new(&Int::from_i64(n), &Int::from_i64(d)))
    }

    /// The imaginary unit.
    pub fn imaginary_unit() -> (r: Value)
        ensures
            r.wf(),
            r.cval() == (qint(0), qint(1)),
    {
        Value::ExactComplex(Cplx::new(Rat::from_i64(0), Rat::from_i64(1)))
    }

    /// Whether the value is a rational number (no imaginary part).
    pub fn is_rational(&self) -> (r: bool)
        ensures
            r == (self is Rational),
    {
        match self {
            Value::Rational(_) => true,
            Value::ExactComplex(_) => false,
        }
    }

    /// Whether the value is a negative rational number.
    pub fn is_negative_rational(&self) -> (r: bool)
        ensures
            r == (self is Rational && self.cval().0.0 < 0),
    {
        match self {
            Value::Rational(q) => q.is_negative(),
            Value::ExactComplex(_) => false,
        }
    }

    pub fn is_zero(&self) -> (r: bool)
        ensures
            r == czero(self.cval()),
    {
        match self {
            Value::Rational(q) => q.is_zero(),
            Value::ExactComplex(c) => c.re.is_zero() && c.im.is_zero(),
        }
    }

    /// As an exact complex number.
    pub fn to_exact_complex(&self) -> (r: Cplx)
        requires
            self.wf(),
        ensures
            r.wf(),
            ceq(r@, self.cval()),
    {
        match self {
            Value::Rational(q) => Cplx::new(q.copy(), Rat::from_i64(0)),
            Value::ExactComplex(c) => c.copy(),
        }
    }

    /// Collapse complex values with a zero imaginary part back to rationals.
    pub fn normalize(self) -> (r: Value)
        requires
            match self {
                Value::Rational(q) => q.wf(),
                Value::ExactComplex(c) => c.wf(),
            },
        ensures
            r.wf(),
            ceq(r.cval(), self.cval()),
            r.cval() == self.cval(),
            (self is Rational) ==> (r is Rational),
    {
        match self {
            Value::ExactComplex(c) => {
                if c.im.is_zero() {
                    proof {
                        reveal_with_fuel(gcd, 2);
                        assert(c.im.den@ == 1);
                        assert(0 * c.im.den@ == c.im.num@ * 1);
                        assert(qeq((0, 1), c.im@));
                    }
                    Value::Rational(c.re)
                } else {
                    Value::ExactComplex(c)
                }
            },
            v => v,
        }
    }

    pub fn neg(&self) -> (r: Value)
        requires
            self.wf(),
        ensures
            r.wf(),
            r.cval() == cneg(self.cval()) || ceq(r.cval(), cneg(self.cval())),
            (self is Rational) == (r is Rational),
    {
        match self {
            Value::Rational(q) => Value::Rational(q.neg()),
            Value::ExactComplex(c) => Value::ExactComplex(c.neg()),
        }
    }

    pub fn add(&self, other: &Value) -> (r: Value)
        requires
            self.wf(),
            other.wf(),
        ensures
            r.wf(),
            ceq(r.cval(), cadd(self.cval(), other.cval())),
            (self is Rational && other is Rational) ==> r is Rational,
    {
        match (self, other) {
            (Value::Rational(a), Value::Rational(b)) => Value::Rational(a.add(b)),
            _ => {
                let (a, b) = (self.to_exact_complex(), other.to_exact_complex());
                let s = a.add(&b);
                proof { lemma_cadd_cong(s@, a@, b@, self.cval(), other.cval()); }
                let r = Value::ExactComplex(s).normalize();
                proof { lemma_ceq_trans(r.cval(), s@, cadd(self.cval(), other.cval())); }
                r
            },
        }
    }

    pub fn sub(&self, other: &Value) -> (r: Value)
        requires
            self.wf(),
            other.wf(),
        ensures
            r.wf(),
            ceq(r.cval(), csub(self.cval(), other.cval())),
            (self is Rational && other is Rational) ==> r is Rational,
    {
        match (self, other) {
            (Value::Rational(a), Value::Rational(b)) => Value::Rational(a.sub(b)),
            _ => {
                let (a, b) = (self.to_exact_complex(), other.to_exact_complex());
                let s = a.sub(&b);
                proof { lemma_csub_cong(s@, a@, b@, self.cval(), other.cval()); }
                let r = Value::ExactComplex(s).normalize();
                proof { lemma_ceq_trans(r.cval(), s@, csub(self.cval(), other.cval())); }
                r
            },
        }
    }

    pub fn mul(&self, other: &Value) -> (r: Value)
        requires
            self.wf(),
            other.wf(),
        ensures
            r.wf(),
            ceq(r.cval(), cmul(self.cval(), other.cval())),
            (self is Rational && other is Rational) ==> r is Rational,
    {
        match (self, other) {
            (Value::Rational(a), Value::Rational(b)) => {
                let p = a.mul(b);
                proof { lemma_real_mul(p@, a@, b@); }
                Value::Rational(p)
            },
            _ => {
                let (a, b) = (self.to_exact_complex(), other.to_exact_complex());
                let s = a.mul(&b);
                proof { lemma_cmul_cong(s@, a@, b@, self.cval(), other.cval()); }
                let r = Value::ExactComplex(s).normalize();
                proof { lemma_ceq_trans(r.cval(), s@, cmul(self.cval(), other.cval())); }
                r
            },
        }
    }

    pub fn div(&self, other: &Value) -> (r: Result<Value, EvalError>)
        requires
            self.wf(),
            other.wf(),
        ensures
            r is Err <==> czero(other.cval()),
            r matches Err(e) ==> e == EvalError::DivisionByZero,
            r matches Ok(v) ==> v.wf() && ceq(v.cval(), cdiv(self.cval(), other.cval())),
            r matches Ok(v) ==> ((self is Rational && other is Rational) ==> v is Rational),
    {
        if other.is_zero() {
            return Err(EvalError::DivisionByZero);
        }
        match (self, other) {
            (Value::Rational(a), Value::Rational(b)) => {
                let p = a.div(b);
                proof { lemma_real_div(p@, a@, b@); }
                Ok(Value::Rational(p))
            },
            _ => {
                let (a, b) = (self.to_exact_complex(), other.to_exact_complex());
                proof { lemma_ceq_zero(b@, other.cval()); }
                let s = a.div(&b);
                proof { lemma_cdiv_cong(s@, a@, b@, self.cval(), other.cval()); }
                let r = Value::ExactComplex(s).normalize();
                proof { lemma_ceq_trans(r.cval(), s@, cdiv(self.cval(), other.cval())); }
                Ok(r)
            },
        }
    }
}


/// Largest integer exponent computed exactly; beyond this results are absurdly large.
pub const MAX_EXACT_EXPONENT: i64 = 100_000;

pub const MAX_FACTORIAL: u64 = 10_000;

pub const MAX_ROOT_INDEX: u32 = 64;

/// `n!`
pub open spec fn factorial(n: nat) -> nat
    decreases n,
{
    if n == 0 {
        1
    } else {
        n * factorial((n - 1) as nat)
    }
}

/// `(-1)^n` by parity.
pub proof fn lemma_pow_minus_one(n: nat)
    ensures
        pow(-1, n) == if n % 2 == 1 { -1int } else { 1int },
    decreases n,
{
    reveal(pow);
    if n > 0 {
        lemma_pow_minus_one((n - 1) as nat);
    }
}

pub proof fn lemma_pow_one(n: nat)
    ensures
        pow(1, n) == 1,
    decreases n,
{
    reveal(pow);
    if n > 0 {
        lemma_pow_one((n - 1) as nat);
    }
}

/// Text of the error for an exponent over the limit.
pub open spec fn exponent_too_large_text() -> Seq<char> {
    "exponent too large (max 100000)"@
}

pub open spec fn factorial_too_large_text() -> Seq<char> {
    "factorial argument too large (max 10000)"@
}

pub open spec fn factorial_domain_text() -> Seq<char> {
    "factorial is only defined for non-negative integers"@
}

pub open spec fn zero_power_text() -> Seq<char> {
    "0 raised to this power is undefined"@
}

/// The value `0^exp`, exact: `1` for a zero exponent, `0` when the real part
/// of the exponent is positive; otherwise division by zero for a real
/// exponent, and undefined for a complex one.
pub fn zero_pow(exp: &Value) -> (r: Result<Value, EvalError>)
    requires
        exp.wf(),
    ensures
        czero(exp.cval()) ==> (r matches Ok(v) && v.wf() && v is Rational && v.cval() == (qint(1), czero_frac())),
        !czero(exp.cval()) && exp.cval().0.0 > 0 ==> (r matches Ok(v) && v.wf() && v is Rational && v.cval() == (qint(0), czero_frac())),
        !czero(exp.cval()) && exp.cval().0.0 <= 0 && exp is Rational ==> r == Err::<Value, EvalError>(EvalError::DivisionByZero),
        !czero(exp.cval()) && exp.cval().0.0 <= 0 && exp is ExactComplex ==> (r matches Err(EvalError::Domain(m)) && m@ == zero_power_text()),
{
    if exp.is_zero() {
        return Ok(Value::integer(1));
    }
    let re_positive = match exp {
        Value::Rational(q) => q.is_positive(),
        Value::ExactComplex(c) => c.re.is_positive(),
    };
    if re_positive {
        Ok(Value::integer(0))
    } else {
        match exp {
            Value::Rational(_) => Err(EvalError::DivisionByZero),
            Value::ExactComplex(_) => Err(EvalError::Domain(String::from_str("0 raised to this power is undefined"))),
        }
    }
}

/// What `b!` gives: `n!` for an integer `0 <= n <= 10000`, too large above
/// that, and a domain error for anything else.
pub open spec fn factorial_ok(b: Value, r: Result<Value, EvalError>) -> bool {
    match b {
                Value::Rational(q) => {
                    if q.den@ == 1 && q.num@ >= 0 {
                        if q.num@ <= MAX_FACTORIAL {
                            r matches Ok(v) && v is Rational && v.wf()
                                && v.cval() == (qint(factorial(q.num@ as nat) as int), czero_frac())
                        } else {
                            r matches Err(EvalError::TooLarge(m)) && m@ == factorial_too_large_text()
                        }
                    } else {
                        r matches Err(EvalError::Domain(m)) && m@ == factorial_domain_text()
                    }
                },
                Value::ExactComplex(_) => r matches Err(EvalError::Domain(m)) && m@ == factorial_domain_text(),
    }
}

impl Value {
    /// `n!` for a non-negative integer `n` up to the limit.
    pub fn factorial(&self) -> (r: Result<Value, EvalError>)
        requires
            self.wf(),
        ensures
            factorial_ok(*self, r),
    {
        match self {
            Value::Rational(q) => {
                if q.is_integer() && !q.is_negative() {
                    let n = match q.num.to_u64() {
                        Some(n) if n <= MAX_FACTORIAL => n,
                        _ => {
                            return Err(EvalError::TooLarge(String::from_str("factorial argument too large (max 10000)")));
                        },
                    };
                    let mut acc = Int::from_i64(1);
                    let mut k: u64 = 2;
                    proof {
                        reveal_with_fuel(factorial, 2);
                    }
                    while k <= n
                        invariant
                            2 <= k <= n + 2,
                            n <= MAX_FACTORIAL,
                            k <= n + 1 || (n < 2 && k == 2),
                            acc@ == factorial((k - 1) as nat),
                        decreases n + 2 - k,
                    {
                        let ghost before = acc@;
                        acc = acc.mul(&Int::from_u64(k));
                        proof {
                            assert(factorial(k as nat) == k * factorial((k - 1) as nat));
                            vstd::arithmetic::mul::lemma_mul_is_commutative(before, k as int);
                            assert(acc@ == factorial(k as nat));
                        }
                        k = k + 1;
                    }
                    proof {
                        if n < 2 {
                            reveal_with_fuel(factorial, 2);
                            assert(factorial(n as nat) == 1);
                        }
                    }
                    Ok(Value::Rational(Rat::from_int(acc)))
                } else {
                    Err(EvalError::Domain(String::from_str("factorial is only defined for non-negative integers")))
                }
            },
            Value::ExactComplex(_) => {
                Err(EvalError::Domain(String::from_str("factorial is only defined for non-negative integers")))
            },
        }
    }
}


pub proof fn lemma_gcd_self(a: nat)
    ensures
        gcd(a, a) == a,
{
    reveal_with_fuel(gcd, 2);
}

/// Parity of `-m` is the parity of `m`.
pub proof fn lemma_neg_parity(m: int)
    ensures
        (-m) % 2 == m % 2,
{
    vstd::arithmetic::div_mod::lemma_fundamental_div_mod(m, 2);
    vstd::arithmetic::div_mod::lemma_fundamental_div_mod(-m, 2);
}

/// What `int_pow` gives for a base of ±1: `-1` for a negative base and an odd
/// exponent, `1` otherwise.
pub open spec fn unit_power(b: Frac, n: int) -> Frac {
    if b.0 < 0 && n % 2 == 1 { qint(-1) } else { qint(1) }
}

/// The exact power `b^n` for a rational `b` (with `1/b` for negative `n`).
pub open spec fn rat_power_ok(v: Frac, b: Frac, n: int) -> bool {
    if n >= 0 {
        qeq(v, qpow(b, n as nat))
    } else {
        qeq(v, qpow(qrecip(b), abs_int(n)))
    }
}

/// The exact power `c^n` for a complex `c`; for negative `n`, `v * c^|n| == 1`.
pub open spec fn cplx_power_ok(v: CFrac, c: CFrac, n: int) -> bool {
    if n >= 0 {
        teq(tri(v), tpow(tri(c), n as nat))
    } else {
        teq(tmul(tri(v), tpow(tri(c), abs_int(n))), tone())
    }
}

/// The value is `b^n`.
pub open spec fn power_ok(v: Value, b: Value, n: int) -> bool {
    match b {
        Value::Rational(q) => v is Rational && rat_power_ok(v.cval().0, q@, n),
        Value::ExactComplex(c) => cplx_power_ok(v.cval(), c@, n),
    }
}

/// The base is `1` or `-1`.
pub open spec fn is_unit(b: Value) -> bool {
    b is Rational && abs(b.cval().0.0) == 1 && b.cval().0.1 == 1
}

proof fn lemma_unit_power(b: Frac, n: int)
    requires
        abs(b.0) == 1,
        b.1 == 1,
    ensures
        rat_power_ok(unit_power(b, n), b, n),
{
    let m = abs_int(n);
    lemma_pow_one(m);
    if b.0 < 0 {
        lemma_pow_minus_one(m);
        lemma_neg_parity(n);
    } else {
        lemma_pow_one(m);
    }
}

impl Value {
    /// `self^n` for an integer exponent; exact.
    pub fn int_pow(&self, n: &Int) -> (r: Result<Value, EvalError>)
        requires
            self.wf(),
            !czero(self.cval()),
        ensures
            is_unit(*self) ==> (r matches Ok(v) && v.wf() && v is Rational && v.cval().0 == unit_power(self.cval().0, n@)),
            !is_unit(*self) && !(-MAX_EXACT_EXPONENT <= n@ <= MAX_EXACT_EXPONENT)
                ==> (r matches Err(EvalError::TooLarge(m)) && m@ == exponent_too_large_text()),
            !is_unit(*self) && -MAX_EXACT_EXPONENT <= n@ <= MAX_EXACT_EXPONENT
                ==> (r matches Ok(v) && v.wf()),
            r matches Ok(v) ==> power_ok(v, *self, n@),
    {
        if let Value::Rational(b) = self {
            let unit = b.num.is_one() || b.num.neg().is_one();
            let unit = unit && b.den.is_one();
            proof {
                if abs(b.num@) == 1 && !(b.den@ == 1) {
                    lemma_gcd_self(b.den@ as nat);
                }
            }
            if unit {
                let negative = b.is_negative() && n.is_odd();
                let v = Value::integer(if negative { -1 } else { 1 });
                proof { lemma_unit_power(b@, n@); }
                return Ok(v);
            }
        }
        let e = match n.to_i64() {
            Some(e) if -MAX_EXACT_EXPONENT <= e && e <= MAX_EXACT_EXPONENT => e,
            _ => {
                return Err(EvalError::TooLarge(String::from_str("exponent too large (max 100000)")));
            },
        };
        match self {
            Value::Rational(b) => Ok(Value::Rational(rat_ipow(b, e))),
            Value::ExactComplex(c) => {
                let p = cplx_ipow(c, e);
                let v = Value::ExactComplex(p).normalize();
                proof {
                    crate::power::lemma_tri_ceq(v.cval(), p@);
                    crate::power::lemma_tri_den(p@);
                    crate::power::lemma_tri_den(v.cval());
                    if e >= 0 {
                        crate::power::lemma_teq_trans(tri(v.cval()), tri(p@), tpow(tri(c@), e as nat));
                    } else {
                        let g = tpow(tri(c@), abs_int(e as int));
                        crate::power::lemma_tri_den(c@);
                        crate::power::lemma_tpow_den(tri(c@), abs_int(e as int));
                        crate::power::lemma_tmul_cong(tri(v.cval()), tri(p@), g, g);
                        crate::rational::lemma_den_pos(tri(p@).2, g.2);
                        crate::power::lemma_teq_trans(tmul(tri(v.cval()), g), tmul(tri(p@), g), tone());
                    }
                }
                Ok(v)
            },
        }
    }
}


/// `r` is the non-negative `q`-th root of `x`.
pub open spec fn is_root(r: int, x: int, q: nat) -> bool {
    r >= 0 && pow(r, q) == x
}

/// `x` is the `q`-th power of a non-negative integer.
pub open spec fn perfect_power(x: int, q: nat) -> bool {
    exists|r: int| is_root(r, x, q)
}

pub proof fn lemma_pow_nonneg(s: int, n: nat)
    requires
        s >= 0,
    ensures
        pow(s, n) >= 0,
    decreases n,
{
    reveal(pow);
    if n > 0 {
        lemma_pow_nonneg(s, (n - 1) as nat);
        assert(s * pow(s, (n - 1) as nat) >= 0) by (nonlinear_arith)
            requires s >= 0, pow(s, (n - 1) as nat) >= 0, {}
    }
}

/// Powers of non-negative integers grow strictly with the base.
pub proof fn lemma_pow_strict_mono(s: int, t: int, q: nat)
    requires
        0 <= s < t,
        q >= 1,
    ensures
        pow(s, q) < pow(t, q),
    decreases q,
{
    reveal(pow);
    if q == 1 {
        assert(pow(s, 0) == 1 && pow(t, 0) == 1);
        assert(pow(s, 1) == s * 1 && pow(t, 1) == t * 1);
    } else {
        lemma_pow_strict_mono(s, t, (q - 1) as nat);
        lemma_pow_nonneg(s, (q - 1) as nat);
        let (ps, pt) = (pow(s, (q - 1) as nat), pow(t, (q - 1) as nat));
        assert(s * ps < t * pt) by (nonlinear_arith)
            requires 0 <= s < t, 0 <= ps < pt, {}
    }
}

/// The exact `q`-th root of a non-negative integer, if it has one.
pub fn exact_nth_root(x: &Int, q: u32) -> (r: Option<Int>)
    requires
        x@ >= 0,
        q >= 1,
    ensures
        r matches Some(v) ==> is_root(v@, x@, q as nat),
        r is None ==> !perfect_power(x@, q as nat),
{
    let root = x.nth_root(q);
    let back = root.pow(q as usize);
    if back.eq(x) {
        Some(root)
    } else {
        proof {
            assert forall|s: int| !is_root(s, x@, q as nat) by {
                if is_root(s, x@, q as nat) {
                    if s < root@ {
                        lemma_pow_strict_mono(s, root@, q as nat);
                    } else if s > root@ {
                        lemma_pow_strict_mono(root@, s, q as nat);
                        if s > root@ + 1 {
                            lemma_pow_strict_mono(root@ + 1, s, q as nat);
                        }
                    }
                }
            }
        }
        None
    }
}

/// `b^(p/q)` has an exact answer computed below: the exponent is in lowest
/// terms `p/q` with `q` at most 64 and `|p|` at most the exponent limit, both
/// parts of `|b|` are perfect `q`-th powers, and `b` is non-negative, or `q` is
/// odd, or `q` is 2.
pub open spec fn has_exact_root(b: Frac, e: Frac) -> bool {
    &&& e.1 <= MAX_ROOT_INDEX
    &&& -MAX_EXACT_EXPONENT <= e.0 <= MAX_EXACT_EXPONENT
    &&& perfect_power(abs(b.0) as int, e.1 as nat)
    &&& perfect_power(b.1, e.1 as nat)
    &&& (b.0 >= 0 || e.1 % 2 == 1 || e.1 == 2)
}

/// The value `v` is `b^(p/q)`, by the exact roots `nr` and `dr` of the parts of `|b|`:
/// `(nr/dr)^p` for `b >= 0`, `(-nr/dr)^p` for odd `q`, `(i·nr/dr)^p` for `q == 2`.
pub open spec fn exact_root_power(v: Value, b: Frac, e: Frac, nr: int, dr: int) -> bool {
    &&& is_root(nr, abs(b.0) as int, e.1 as nat)
    &&& is_root(dr, b.1, e.1 as nat)
    &&& if b.0 >= 0 {
        v is Rational && rat_power_ok(v.cval().0, (nr, dr), e.0)
    } else if e.1 % 2 == 1 {
        v is Rational && rat_power_ok(v.cval().0, (-nr, dr), e.0)
    } else {
        cplx_power_ok(v.cval(), (qint(0), (nr, dr)), e.0)
    }
}

/// Rational powers transfer between equal bases.
proof fn lemma_rat_power_cong(v: Frac, x: Frac, y: Frac, n: int)
    requires
        rat_power_ok(v, x, n),
        qeq(x, y),
        x.1 > 0,
        y.1 > 0,
        x.0 != 0,
        y.0 != 0,
    ensures
        rat_power_ok(v, y, n),
{
    if n >= 0 {
        lemma_qpow_cong(x, y, n as nat);
        crate::power::lemma_qpow_den_pos(x, n as nat);
        lemma_qeq_trans(v, qpow(x, n as nat), qpow(y, n as nat));
    } else {
        let m = abs_int(n);
        assert(qeq(qrecip(x), qrecip(y))) by (nonlinear_arith)
            requires x.0 * y.1 == y.0 * x.1, {}
        lemma_qpow_cong(qrecip(x), qrecip(y), m);
        crate::power::lemma_pow_nonzero(x.0, m);
        lemma_qeq_trans(v, qpow(qrecip(x), m), qpow(qrecip(y), m));
    }
}

/// Complex powers transfer between equal bases.
proof fn lemma_cplx_power_cong(v: CFrac, x: CFrac, y: CFrac, n: int)
    requires
        cplx_power_ok(v, x, n),
        ceq(x, y),
        x.0.1 > 0 && x.1.1 > 0 && y.0.1 > 0 && y.1.1 > 0,
        v.0.1 > 0 && v.1.1 > 0,
    ensures
        cplx_power_ok(v, y, n),
{
    crate::power::lemma_tri_ceq(x, y);
    crate::power::lemma_tri_den(x);
    crate::power::lemma_tri_den(v);
    let m = if n >= 0 { n as nat } else { abs_int(n) };
    crate::power::lemma_tpow_cong(tri(x), tri(y), m);
    crate::power::lemma_tpow_den(tri(x), m);
    if n >= 0 {
        crate::power::lemma_teq_trans(tri(v), tpow(tri(x), m), tpow(tri(y), m));
    } else {
        crate::power::lemma_tmul_cong(tri(v), tri(v), tpow(tri(y), m), tpow(tri(x), m));
        crate::power::lemma_teq_sym(tpow(tri(x), m), tpow(tri(y), m));
        crate::power::lemma_tmul_cong(tri(v), tri(v), tpow(tri(y), m), tpow(tri(x), m));
        crate::rational::lemma_den_pos(tri(v).2, tpow(tri(x), m).2);
        crate::power::lemma_teq_trans(tmul(tri(v), tpow(tri(y), m)), tmul(tri(v), tpow(tri(x), m)), tone());
    }
}

/// `b^(p/q)` when it has an exact rational or exact complex answer
/// (e.g. `8^(2/3) = 4`, `(-8)^(1/3) = -2`, `(-4)^(1/2) = 2i`).
pub fn exact_rational_power(b: &Rat, e: &Rat) -> (r: Option<Value>)
    requires
        b.wf(),
        e.wf(),
        b.num@ != 0,
    ensures
        r is Some <==> has_exact_root(b@, e@),
        r matches Some(v) ==> v.wf() && exists|nr: int, dr: int| exact_root_power(v, b@, e@, nr, dr),
{
    let q = match e.den.to_u32() {
        Some(q) if q <= MAX_ROOT_INDEX => q,
        _ => {
            return None;
        },
    };
    let p = match e.num.to_i64() {
        Some(p) if -MAX_EXACT_EXPONENT <= p && p <= MAX_EXACT_EXPONENT => p,
        _ => {
            return None;
        },
    };
    let mag = b.abs();
    let nr = match exact_nth_root(&mag.num, q) {
        Some(v) => v,
        None => {
            return None;
        },
    };
    let dr = match exact_nth_root(&mag.den, q) {
        Some(v) => v,
        None => {
            return None;
        },
    };
    proof {
        assert(is_root(nr@, abs(b.num@) as int, q as nat));
        if nr@ == 0 {
            assert(pow(0, q as nat) == 0) by {
                reveal(pow);
                assert(pow(0, q as nat) == 0 * pow(0, (q - 1) as nat));
            }
        }
        if dr@ == 0 {
            assert(pow(0, q as nat) == 0) by {
                reveal(pow);
                assert(pow(0, q as nat) == 0 * pow(0, (q - 1) as nat));
            }
        }
    }
    let root = Rat::new(&nr, &dr);
    proof {
        assert(root.num@ != 0) by (nonlinear_arith)
            requires root.num@ * dr@ == nr@ * root.den@, nr@ > 0, dr@ > 0, root.den@ > 0, {}
    }
    if !b.is_negative() {
        let v = Value::Rational(rat_ipow(&root, p));
        proof {
            lemma_rat_power_cong(v.cval().0, root@, (nr@, dr@), p as int);
            assert(exact_root_power(v, b@, e@, nr@, dr@));
        }
        Some(v)
    } else if q % 2 == 1 {
        let neg_root = root.neg();
        let v = Value::Rational(rat_ipow(&neg_root, p));
        proof {
            assert(qeq(neg_root@, (-nr@, dr@))) by (nonlinear_arith)
                requires root.num@ * dr@ == nr@ * root.den@, neg_root@ == (-root.num@, root.den@), {}
            lemma_rat_power_cong(v.cval().0, neg_root@, (-nr@, dr@), p as int);
            assert(exact_root_power(v, b@, e@, nr@, dr@));
        }
        Some(v)
    } else if q == 2 {
        let base = Cplx::new(Rat::from_i64(0), root);
        proof {
            assert(!czero(base@));
        }
        let c = cplx_ipow(&base, p);
        let v = Value::ExactComplex(c).normalize();
        proof {
            crate::power::lemma_tri_ceq(v.cval(), c@);
            crate::power::lemma_tri_den(c@);
            crate::power::lemma_tri_den(v.cval());
            crate::power::lemma_tri_den(base@);
            let m = if p >= 0 { p as nat } else { abs_int(p as int) };
            crate::power::lemma_tpow_den(tri(base@), m);
            if p >= 0 {
                crate::power::lemma_teq_trans(tri(v.cval()), tri(c@), tpow(tri(base@), m));
            } else {
                crate::power::lemma_tmul_cong(tri(v.cval()), tri(c@), tpow(tri(base@), m), tpow(tri(base@), m));
                crate::rational::lemma_den_pos(tri(c@).2, tpow(tri(base@), m).2);
                crate::power::lemma_teq_trans(tmul(tri(v.cval()), tpow(tri(base@), m)), tmul(tri(c@), tpow(tri(base@), m)), tone());
            }
            assert(cplx_power_ok(v.cval(), base@, p as int));
            assert(ceq(base@, (qint(0), (nr@, dr@))));
            lemma_cplx_power_cong(v.cval(), base@, (qint(0), (nr@, dr@)), p as int);
            assert(exact_root_power(v, b@, e@, nr@, dr@));
        }
        Some(v)
    } else {
        None
    }
}


/// In lowest terms, a fraction equal to `1/q` is written `1/q`.
pub proof fn lemma_unit_fraction(r: Frac, q: int)
    requires
        q >= 1,
        r.1 > 0,
        gcd(abs(r.0), r.1 as nat) == 1,
        qeq(r, (1, q)),
    ensures
        r == (1int, q),
{
    assert(r.1 == r.0 * q);
    assert(r.0 > 0) by (nonlinear_arith) requires r.1 == r.0 * q, r.1 > 0, q >= 1, {}
    let a = r.0 as nat;
    if q == 1 {
        lemma_gcd_self(a);
        assert(a == 1);
        assert(r.1 == q) by (nonlinear_arith) requires r.0 == 1, r.1 == r.0 * q, {}
    } else {
        assert(a < r.1) by (nonlinear_arith) requires r.1 == r.0 * q, r.0 > 0, q >= 2, a == r.0, {}
        vstd::arithmetic::div_mod::lemma_small_mod(a, r.1 as nat);
        vstd::arithmetic::div_mod::lemma_mod_multiples_basic(q, r.0);
        vstd::arithmetic::mul::lemma_mul_is_commutative(q, r.0);
        assert((r.1 as nat) % a == 0);
        assert(gcd(a, r.1 as nat) == gcd(r.1 as nat, a % (r.1 as nat)));
        assert(gcd(r.1 as nat, a) == gcd(a, (r.1 as nat) % a));
        assert(gcd(a, 0) == a);
        assert(a == 1);
        assert(r.1 == q) by (nonlinear_arith) requires r.0 == 1, r.1 == r.0 * q, {}
    }
}

/// The fraction `1/q` in lowest terms.
pub fn unit_fraction(q: i64) -> (r: Value)
    requires
        q >= 1,
    ensures
        r.wf(),
        r is Rational,
        r.cval() == ((1int, q as int), czero_frac()),
{
    let v = Value::rat(1, q);
    proof {
        if let Value::Rational(x) = &v {
            lemma_unit_fraction(x@, q as int);
        }
    }
    v
}

/// What `b^e` gives, for a base and an exponent in lowest terms (the
/// exponent is real when its imaginary part is 0): `0^e` by the sign of `e`'s
/// real part, integer powers exactly up to the exponent limit, rational powers
/// of rationals exactly when the root is exact, and `None` (an approximation is
/// called for) otherwise.
pub open spec fn pow_ok(b: Value, e: CFrac, r: Result<Option<Value>, EvalError>) -> bool {
    &&& (czero(b.cval()) && czero(e)
                ==> (r matches Ok(Some(v)) && v.wf() && v.cval() == (qint(1), czero_frac())))
    &&& (czero(b.cval()) && !czero(e) && e.0.0 > 0
                ==> (r matches Ok(Some(v)) && v.wf() && v.cval() == (qint(0), czero_frac())))
    &&& (czero(b.cval()) && !czero(e) && e.0.0 <= 0 && e.1.0 == 0
                ==> r == Err::<Option<Value>, EvalError>(EvalError::DivisionByZero))
    &&& (czero(b.cval()) && !czero(e) && e.0.0 <= 0 && e.1.0 != 0
                ==> (r matches Err(EvalError::Domain(m)) && m@ == zero_power_text()))
    &&& (!czero(b.cval()) && e.1.0 == 0 && e.0.1 == 1 ==> (match r {
                Ok(Some(v)) => v.wf() && power_ok(v, b, e.0.0),
                Ok(None) => false,
                Err(x) => x is TooLarge && !is_unit(b)
                    && !(-MAX_EXACT_EXPONENT <= e.0.0 <= MAX_EXACT_EXPONENT),
            }))
    &&& (!czero(b.cval()) && e.1.0 == 0 && e.0.1 != 1 && b is Rational ==> (match r {
                Ok(Some(v)) => v.wf() && has_exact_root(b.cval().0, e.0)
                    && exists|nr: int, dr: int| exact_root_power(v, b.cval().0, e.0, nr, dr),
                Ok(None) => !has_exact_root(b.cval().0, e.0),
                Err(_) => false,
            }))
    &&& (!czero(b.cval()) && (e.1.0 != 0 || (e.0.1 != 1 && b is ExactComplex))
                ==> r == Ok::<Option<Value>, EvalError>(None))
}

/// What `|b|` gives: exact for a rational; for a complex number, the square
/// root of the sum of the squares of its parts when that root is exact.
pub open spec fn abs_ok(b: Value, r: Result<Option<Value>, EvalError>) -> bool {
    &&& b is Rational ==> (r matches Ok(Some(v)) && v.wf() && v is Rational
        && v.cval().0 == (abs(b.cval().0.0) as int, b.cval().0.1))
    &&& (b is ExactComplex) ==> (exists|sq: Frac| #![trigger qeq(sq, cnorm_sqr(b.cval()))] {
        &&& sq.1 > 0 && gcd(abs(sq.0), sq.1 as nat) == 1
        &&& qeq(sq, cnorm_sqr(b.cval()))
        &&& match r {
            Ok(Some(v)) => v.wf() && v is Rational && has_exact_root(sq, (1, 2))
                && exists|nr: int, dr: int| exact_root_power(v, sq, (1, 2), nr, dr),
            Ok(None) => !has_exact_root(sq, (1, 2)),
            Err(_) => false,
        }
    })
}

impl Value {
    /// `self^exp`, when it has an exact value. `Ok(None)` means no exact
    /// result exists and an approximation is called for.
    pub fn pow(&self, exp: &Value) -> (r: Result<Option<Value>, EvalError>)
        requires
            self.wf(),
            exp.wf(),
        ensures
            pow_ok(*self, exp.cval(), r),
    {
        if self.is_zero() {
            return match zero_pow(exp) {
                Ok(v) => Ok(Some(v)),
                Err(e) => Err(e),
            };
        }
        if let Value::Rational(e) = exp {
            if e.is_integer() {
                return match self.int_pow(&e.num) {
                    Ok(v) => Ok(Some(v)),
                    Err(err) => Err(err),
                };
            }
            if let Value::Rational(b) = self {
                if let Some(v) = exact_rational_power(b, e) {
                    return Ok(Some(v));
                }
            }
        }
        Ok(None)
    }

    /// `|self|`: exact for rationals; for a complex number, exact when the sum
    /// of the squares of its parts has an exact square root.
    pub fn abs(&self) -> (r: Result<Option<Value>, EvalError>)
        requires
            self.wf(),
        ensures
            abs_ok(*self, r),
    {
        match self {
            Value::Rational(q) => {
                let a = q.abs();
                let v = Value::Rational(a);
                assert(v.cval().0 == (abs(q.num@) as int, q.den@));
                assert(v.wf());
                Ok(Some(v))
            },
            Value::ExactComplex(c) => {
                // |a+bi| = sqrt(a²+b²), exact when that's a perfect square.
                let rr = c.re.mul(&c.re);
                let ii = c.im.mul(&c.im);
                let sq = rr.add(&ii);
                proof {
                    crate::rational::lemma_qadd_cong(rr@, qmul(c.re@, c.re@), ii@, qmul(c.im@, c.im@));
                    crate::rational::lemma_den_pos(rr.den@, ii.den@);
                    lemma_qeq_trans(sq@, qadd(rr@, ii@), cnorm_sqr(c@));
                    crate::complex::lemma_norm_sqr_nonzero(c@);
                    let n = cnorm_sqr(c@);
                    assert(sq.num@ > 0) by (nonlinear_arith)
                        requires sq.num@ * n.1 == n.0 * sq.den@, n.0 > 0, n.1 > 0, sq.den@ > 0, {}
                }
                let v = Value::Rational(sq);
                let half = unit_fraction(2);
                let r = v.pow(&half);
                proof {
                    assert(qeq(sq@, cnorm_sqr(self.cval())));
                    assert(sq@.1 > 0 && gcd(abs(sq@.0), sq@.1 as nat) == 1);
                    assert(half.cval().0 == (1int, 2int));
                    assert(!czero(v.cval()));
                    assert(v.cval().0 == sq@);
                    if let Ok(Some(w)) = &r {
                        let (nr, dr) = choose|nr: int, dr: int| exact_root_power(*w, sq@, (1, 2), nr, dr);
                        assert(exact_root_power(*w, sq@, (1, 2), nr, dr));
                        assert(w is Rational);
                    }
                    assert(match r {
                        Ok(Some(w)) => w.wf() && w is Rational && has_exact_root(sq@, (1, 2))
                            && exists|nr: int, dr: int| exact_root_power(w, sq@, (1, 2), nr, dr),
                        Ok(None) => !has_exact_root(sq@, (1, 2)),
                        Err(_) => false,
                    });
                }
                r
            },
        }
    }
}

} // verus!
