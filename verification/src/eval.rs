//! Exact evaluation of expressions.
//!
//! A result is `Ok(Some(v))` when the value is exact, and `Ok(None)` when an
//! irrational constant, a transcendental function or an inexact root makes an
//! approximation necessary: the approximate evaluator then takes over.

use vstd::prelude::*;
use vstd::string::*;
use crate::ast::{Expr, SExpr, model, models, lemma_models, swf};
use crate::builtins::{
    is_command, constants, functions, function_names, command_names, constant_names, names_view,
    lemma_names_short,
};
use crate::complex::{CFrac, ceq, cadd, csub, cmul, cdiv, cneg, cconj, czero};
use crate::error::{EvalError, NameKind};
use crate::rational::{Frac, Rat, qint, qeq, qmul, round_half_away, lemma_qeq_trans, lemma_qeq_sym, lemma_qmul_cong};
use crate::power::{qpow, qrecip, lemma_qpow_den_pos};
use crate::suggest::{suggest, suggestion};
use crate::text::{str_eq, usize_text, decimal_text};
use crate::value::{Value, czero_frac, pow_ok, abs_ok, factorial_ok, unit_fraction};

verus! {

pub type EvalResult = Result<Option<Value>, EvalError>;

/// The exact value `x`: well-formed and denoting exactly `c`.
pub open spec fn exact_is(r: EvalResult, c: CFrac) -> bool {
    r matches Ok(Some(v)) && v.wf() && v.cval() == c
}

pub open spec fn zero_c() -> CFrac {
    (qint(0), czero_frac())
}

pub open spec fn one_c() -> CFrac {
    (qint(1), czero_frac())
}

pub open spec fn domain_err(r: EvalResult, msg: Seq<char>) -> bool {
    r matches Err(EvalError::Domain(m)) && m@ == msg
}

/// An unknown name, with the suggestion that `suggest` makes among `cands`.
pub open spec fn unknown_name_is(r: EvalResult, name: Seq<char>, kind: NameKind, cands: Seq<Seq<char>>) -> bool {
    &&& r matches Err(EvalError::UnknownName { name: n, kind: k, suggestion: s })
    &&& n@ == name
    &&& k == kind
    &&& match s {
        Some(x) => suggestion(name, cands) == Some(x@),
        None => suggestion(name, cands) is None,
    }
}

/// A variable: `i` is exact, the other constants are irrational.
pub open spec fn constant_rel(name: Seq<char>, r: EvalResult) -> bool {
    if name == "i"@ {
        exact_is(r, (qint(0), qint(1)))
    } else if name == "pi"@ || name == "e"@ || name == "tau"@ || name == "phi"@ {
        r == Ok::<Option<Value>, EvalError>(None)
    } else {
        unknown_name_is(r, name, NameKind::Variable, constant_names() + function_names())
    }
}

fn variable(name: &str) -> (r: EvalResult)
    ensures
        constant_rel(name@, r),
{
    if str_eq(name, "i") {
        return Ok(Some(Value::imaginary_unit()));
    }
    if str_eq(name, "pi") || str_eq(name, "e") || str_eq(name, "tau") || str_eq(name, "phi") {
        return Ok(None);
    }
    let mut all = constants();
    let f = functions();
    let mut k: usize = 0;
    while k < f.len()
        invariant
            k <= f@.len(),
            names_view(f@) == function_names(),
            names_view(all@) == constant_names() + function_names().subrange(0, k as int),
        decreases f@.len() - k,
    {
        let ghost before = all@;
        all.push(f[k]);
        proof {
            assert(names_view(all@) =~= names_view(before).push(f@[k as int]@));
            assert(function_names().subrange(0, k + 1) =~= function_names().subrange(0, k as int).push(
                function_names()[k as int],
            ));
        }
        k = k + 1;
    }
    proof {
        assert(function_names().subrange(0, f@.len() as int) =~= function_names());
        lemma_names_short();
        assert forall|j: int| 0 <= j < all@.len() implies (#[trigger] all@[j])@.len() < usize::MAX by {
            assert(names_view(all@)[j] == all@[j]@);
            if j < constant_names().len() {
                assert(constant_names()[j].len() <= 10);
            } else {
                assert(function_names()[j - constant_names().len()].len() <= 10);
            }
        }
        assert(all@.map_values(|c: &str| c@) =~= names_view(all@));
    }
    let suggestion = suggest(name, all.as_slice());
    Err(EvalError::UnknownName { name: String::from_str(name), kind: NameKind::Variable, suggestion })
}

/// A binary operator.
#[derive(Debug, Clone, Copy)]
pub enum BinOp {
    Add,
    Sub,
    Mul,
    Div,
    Pow,
}

/// What an operator gives on two exact operands.
pub open spec fn binop_ok(op: BinOp, a: Value, b: Value, r: EvalResult) -> bool {
    match op {
        BinOp::Add => r matches Ok(Some(v)) && v.wf() && ceq(v.cval(), cadd(a.cval(), b.cval())),
        BinOp::Sub => r matches Ok(Some(v)) && v.wf() && ceq(v.cval(), csub(a.cval(), b.cval())),
        BinOp::Mul => r matches Ok(Some(v)) && v.wf() && ceq(v.cval(), cmul(a.cval(), b.cval())),
        BinOp::Div => if czero(b.cval()) {
            r == Err::<Option<Value>, EvalError>(EvalError::DivisionByZero)
        } else {
            r matches Ok(Some(v)) && v.wf() && ceq(v.cval(), cdiv(a.cval(), b.cval()))
        },
        BinOp::Pow => pow_ok(a, b.cval(), r),
    }
}

/// An operator on two exact operands.
pub fn apply_binary(op: BinOp, a: &Value, b: &Value) -> (r: EvalResult)
    requires
        a.wf(),
        b.wf(),
    ensures
        binop_ok(op, *a, *b, r),
        r matches Ok(Some(v)) ==> v.wf(),
{
    match op {
        BinOp::Add => Ok(Some(a.add(b))),
        BinOp::Sub => Ok(Some(a.sub(b))),
        BinOp::Mul => Ok(Some(a.mul(b))),
        BinOp::Div => match a.div(b) {
            Ok(v) => Ok(Some(v)),
            Err(e) => Err(e),
        },
        BinOp::Pow => a.pow(b),
    }
}

/// The text of allowed argument counts: `1`, `2`, `1 or 2`.
pub open spec fn arity_text(allowed: Seq<usize>) -> Seq<char>
    decreases allowed.len(),
{
    if allowed.len() == 0 {
        seq![]
    } else if allowed.len() == 1 {
        decimal_text(allowed[0] as nat)
    } else {
        arity_text(allowed.subrange(0, allowed.len() - 1)) + " or "@ + decimal_text(allowed.last() as nat)
    }
}

pub open spec fn arity_err(r: EvalResult, name: Seq<char>, allowed: Seq<usize>, got: nat) -> bool {
    &&& r matches Err(EvalError::Arity { name: n, expected: x, got: g })
    &&& n@ == name
    &&& x@ == arity_text(allowed)
    &&& g == got
}

pub fn arity(name: &str, got: usize, allowed: &[usize]) -> (r: Result<(), EvalError>)
    ensures
        r is Ok <==> allowed@.contains(got),
        r matches Err(e) ==> arity_err(Err(e), name@, allowed@, got as nat),
{
    let mut k: usize = 0;
    while k < allowed.len()
        invariant
            k <= allowed@.len(),
            forall|j: int| 0 <= j < k ==> allowed@[j] != got,
        decreases allowed@.len() - k,
    {
        if allowed[k] == got {
            return Ok(());
        }
        k = k + 1;
    }
    let mut expected = String::new();
    let mut j: usize = 0;
    while j < allowed.len()
        invariant
            j <= allowed@.len(),
            expected@ == arity_text(allowed@.subrange(0, j as int)),
        decreases allowed@.len() - j,
    {
        if j > 0 {
            expected.append(" or ");
        }
        let t = usize_text(allowed[j]);
        expected.append(t.as_str());
        proof {
            let s = allowed@.subrange(0, j + 1);
            assert(s.subrange(0, j as int) =~= allowed@.subrange(0, j as int));
            if j == 0 {
                assert(arity_text(allowed@.subrange(0, 0)) =~= seq![]);
            }
        }
        j = j + 1;
    }
    assert(allowed@.subrange(0, allowed@.len() as int) =~= allowed@);
    Err(EvalError::Arity { name: String::from_str(name), expected, got })
}

pub open spec fn is_transcendental(name: Seq<char>) -> bool {
    name == "sin"@ || name == "cos"@ || name == "tan"@ || name == "asin"@ || name == "acos"@
        || name == "atan"@ || name == "sinh"@ || name == "cosh"@ || name == "tanh"@ || name == "exp"@
}

/// Exact special values of the transcendental functions: `f(0)` where it is
/// 0 or 1, and `acos(1) = 0`; otherwise an approximation is called for.
pub open spec fn transcendental_rel(name: Seq<char>, x: Value, r: EvalResult) -> bool {
    if czero(x.cval()) && (name == "sin"@ || name == "tan"@ || name == "sinh"@ || name == "tanh"@
        || name == "asin"@ || name == "atan"@) {
        exact_is(r, zero_c())
    } else if czero(x.cval()) && (name == "cos"@ || name == "cosh"@ || name == "exp"@) {
        exact_is(r, one_c())
    } else if name == "acos"@ && x.cval() == one_c() {
        exact_is(r, zero_c())
    } else {
        r == Ok::<Option<Value>, EvalError>(None)
    }
}

/// Whether the value is exactly the integer `n`.
pub fn is_int(x: &Value, n: i64) -> (r: bool)
    requires
        x.wf(),
    ensures
        r == (x.cval() == (qint(n as int), czero_frac())),
{
    match x {
        Value::Rational(q) => {
            let k = crate::number::Int::from_i64(n);
            q.den.is_one() && q.num.eq(&k)
        },
        Value::ExactComplex(c) => false,
    }
}

fn transcendental(name: &str, x: &Value) -> (r: EvalResult)
    requires
        x.wf(),
    ensures
        transcendental_rel(name@, *x, r),
{
    if x.is_zero() {
        if str_eq(name, "sin") || str_eq(name, "tan") || str_eq(name, "sinh") || str_eq(name, "tanh")
            || str_eq(name, "asin") || str_eq(name, "atan") {
            return Ok(Some(Value::integer(0)));
        }
        if str_eq(name, "cos") || str_eq(name, "cosh") || str_eq(name, "exp") {
            return Ok(Some(Value::integer(1)));
        }
    }
    if str_eq(name, "acos") && is_int(x, 1) {
        return Ok(Some(Value::integer(0)));
    }
    Ok(None)
}

/// A transcendental function gives an exact value only where its true value
/// is a rational number: at 0, where sin, tan, sinh, tanh, asin and atan are 0
/// and cos, cosh and exp are 1, and acos at 1, where it is 0. (At any other
/// rational point the values of these functions are irrational.)
pub proof fn law_transcendental_exact_values(name: Seq<char>, x: Value, r: EvalResult)
    requires
        transcendental_rel(name, x, r),
        r is Ok,
        r->Ok_0 is Some,
    ensures
        name == "sin"@ || name == "tan"@ || name == "sinh"@ || name == "tanh"@ || name == "asin"@ || name == "atan"@
            ==> czero(x.cval()) && r->Ok_0->Some_0.cval() == ((0int, 1int), (0int, 1int)),
        name == "cos"@ || name == "cosh"@ || name == "exp"@
            ==> czero(x.cval()) && r->Ok_0->Some_0.cval() == ((1int, 1int), (0int, 1int)),
        name == "acos"@ ==> x.cval() == ((1int, 1int), (0int, 1int)) && r->Ok_0->Some_0.cval() == ((0int, 1int), (0int, 1int)),
{
    reveal_strlit("sin");
    reveal_strlit("tan");
    reveal_strlit("sinh");
    reveal_strlit("tanh");
    reveal_strlit("asin");
    reveal_strlit("atan");
    reveal_strlit("cos");
    reveal_strlit("cosh");
    reveal_strlit("exp");
    reveal_strlit("acos");
    assert("sin"@.len() == 3 && "sin"@[0] == 's' && "sin"@[1] == 'i' && "sin"@[2] == 'n');
    assert("tan"@.len() == 3 && "tan"@[0] == 't' && "tan"@[1] == 'a' && "tan"@[2] == 'n');
    assert("sinh"@.len() == 4 && "sinh"@[0] == 's' && "sinh"@[1] == 'i' && "sinh"@[2] == 'n' && "sinh"@[3] == 'h');
    assert("tanh"@.len() == 4 && "tanh"@[0] == 't' && "tanh"@[1] == 'a' && "tanh"@[2] == 'n' && "tanh"@[3] == 'h');
    assert("asin"@.len() == 4 && "asin"@[0] == 'a' && "asin"@[1] == 's' && "asin"@[2] == 'i' && "asin"@[3] == 'n');
    assert("atan"@.len() == 4 && "atan"@[0] == 'a' && "atan"@[1] == 't' && "atan"@[2] == 'a' && "atan"@[3] == 'n');
    assert("cos"@.len() == 3 && "cos"@[0] == 'c' && "cos"@[1] == 'o' && "cos"@[2] == 's');
    assert("cosh"@.len() == 4 && "cosh"@[0] == 'c' && "cosh"@[1] == 'o' && "cosh"@[2] == 's' && "cosh"@[3] == 'h');
    assert("exp"@.len() == 3 && "exp"@[0] == 'e' && "exp"@[1] == 'x' && "exp"@[2] == 'p');
    assert("acos"@.len() == 4 && "acos"@[0] == 'a' && "acos"@[1] == 'c' && "acos"@[2] == 'o' && "acos"@[3] == 's');
}

/// `b^k == x` for an integer `k` with `|k| <= 10000`.
pub open spec fn int_log(x: Frac, b: Frac, k: int) -> bool {
    &&& -10000 <= k <= 10000
    &&& if k >= 0 { qeq(x, qpow(b, k as nat)) } else { qeq(x, qpow(qrecip(b), (-k) as nat)) }
}

proof fn lemma_qpow_step(x: Frac, k: nat)
    ensures
        qpow(x, k + 1) == qmul(qpow(x, k), x),
{
    vstd::arithmetic::power::lemma_pow_adds(x.0, k, 1);
    vstd::arithmetic::power::lemma_pow_adds(x.1, k, 1);
    vstd::arithmetic::power::lemma_pow1(x.0);
    vstd::arithmetic::power::lemma_pow1(x.1);
}

/// The integer `k`, `|k| <= 10000`, with `b^k == x`, for positive fractions.
fn exact_log(x: &Rat, b: &Rat) -> (r: Option<i64>)
    requires
        x.wf(),
        b.wf(),
        x@.0 > 0,
        b@.0 > 0,
    ensures
        r matches Some(k) ==> int_log(x@, b@, k as int),
        r is None ==> forall|k: int| !#[trigger] int_log(x@, b@, k),
{
    let one = Rat::from_i64(1);
    proof {
        vstd::arithmetic::power::lemma_pow0(b@.0);
        vstd::arithmetic::power::lemma_pow0(b@.1);
    }
    if x.eq(&one) {
        assert(qpow(b@, 0) == (1int, 1int));
        return Some(0);
    }
    assert(!int_log(x@, b@, 0));
    let inv = b.recip();
    let mut p = b.copy();
    let mut q = inv.copy();
    proof {
        vstd::arithmetic::power::lemma_pow1(b@.0);
        vstd::arithmetic::power::lemma_pow1(b@.1);
        assert(qpow(b@, 1) == b@);
        assert(qpow(qrecip(b@), 1) == qrecip(b@));
        crate::rational::lemma_qeq_refl(b@);
    }
    let mut k: i64 = 1;
    while k <= 10000
        invariant
            1 <= k <= 10001,
            x.wf(),
            b.wf(),
            inv.wf(),
            p.wf(),
            q.wf(),
            x@.0 > 0,
            b@.0 > 0,
            qeq(inv@, qrecip(b@)),
            qeq(p@, qpow(b@, k as nat)),
            qeq(q@, qpow(qrecip(b@), k as nat)),
            forall|j: int| -k < j < k ==> !#[trigger] int_log(x@, b@, j),
        decreases 10001 - k,
    {
        proof {
            lemma_qpow_den_pos(b@, k as nat);
            lemma_qpow_den_pos(qrecip(b@), k as nat);
        }
        if p.eq(x) {
            proof {
                lemma_qeq_sym(p@, x@);
                lemma_qeq_trans(x@, p@, qpow(b@, k as nat));
            }
            return Some(k);
        }
        if q.eq(x) {
            proof {
                lemma_qeq_sym(q@, x@);
                lemma_qeq_trans(x@, q@, qpow(qrecip(b@), k as nat));
            }
            return Some(-k);
        }
        proof {
            if int_log(x@, b@, k as int) {
                lemma_qeq_sym(p@, qpow(b@, k as nat));
                lemma_qeq_trans(x@, qpow(b@, k as nat), p@);
                lemma_qeq_sym(x@, p@);
            }
            if int_log(x@, b@, -k) {
                lemma_qeq_sym(q@, qpow(qrecip(b@), k as nat));
                lemma_qeq_trans(x@, qpow(qrecip(b@), k as nat), q@);
                lemma_qeq_sym(x@, q@);
            }
        }
        let ghost (p0, q0) = (p@, q@);
        p = p.mul(b);
        q = q.mul(&inv);
        proof {
            lemma_qpow_step(b@, k as nat);
            lemma_qpow_step(qrecip(b@), k as nat);
            crate::rational::lemma_qeq_refl(b@);
            lemma_qmul_cong(p0, qpow(b@, k as nat), b@, b@);
            lemma_qmul_cong(q0, qpow(qrecip(b@), k as nat), inv@, qrecip(b@));
            crate::rational::lemma_den_pos(p0.1, b@.1);
            lemma_qeq_trans(p@, qmul(p0, b@), qpow(b@, (k + 1) as nat));
            crate::rational::lemma_den_pos(q0.1, inv@.1);
            lemma_qeq_trans(q@, qmul(q0, inv@), qpow(qrecip(b@), (k + 1) as nat));
        }
        k = k + 1;
    }
    None
}

/// Logarithms: of 0 undefined, to base 0 or 1 undefined, `ln(1) = 0`, and
/// to a positive rational base an exact integer where one exists
/// (`log(1000) = 3`); otherwise the approximate evaluator decides.
pub open spec fn log_rel(x: Value, base: Option<CFrac>, r: EvalResult) -> bool {
    if czero(x.cval()) {
        domain_err(r, "logarithm of 0 is undefined"@)
    } else {
        match base {
            Some(b) => if czero(b) || b == one_c() {
                domain_err(r, "logarithm base can't be 0 or 1"@)
            } else if x.cval().1.0 == 0 && b.1.0 == 0 && x.cval().0.0 > 0 && b.0.0 > 0
                && exists|k: int| #[trigger] int_log(x.cval().0, b.0, k) {
                r matches Ok(Some(v)) && v.wf() && exists|k: int| #[trigger] int_log(x.cval().0, b.0, k)
                    && v.cval() == (qint(k), czero_frac())
            } else {
                r == Ok::<Option<Value>, EvalError>(None)
            },
            None => if x.cval() == one_c() {
                exact_is(r, zero_c())
            } else {
                r == Ok::<Option<Value>, EvalError>(None)
            },
        }
    }
}

fn log_base(x: &Value, base: Option<&Value>) -> (r: EvalResult)
    requires
        x.wf(),
        base matches Some(b) ==> b.wf(),
    ensures
        log_rel(*x, match base { Some(b) => Some(b.cval()), None => None }, r),
{
    if x.is_zero() {
        return Err(EvalError::Domain(String::from_str("logarithm of 0 is undefined")));
    }
    match base {
        Some(b) => {
            if b.is_zero() || is_int(b, 1) {
                return Err(EvalError::Domain(String::from_str("logarithm base can't be 0 or 1")));
            }
            if let (Value::Rational(xr), Value::Rational(br)) = (x, b) {
                if xr.is_positive() && br.is_positive() {
                    match exact_log(xr, br) {
                        Some(k) => {
                            return Ok(Some(Value::integer(k)));
                        },
                        None => {
                            return Ok(None);
                        },
                    }
                }
            }
            Ok(None)
        },
        None => {
            if is_int(x, 1) {
                Ok(Some(Value::integer(0)))
            } else {
                Ok(None)
            }
        },
    }
}

/// `floor`, `ceil` and `round` (halves away from zero) of a rational; a
/// complex number has none.
pub open spec fn rounding_rel(name: Seq<char>, x: Value, r: EvalResult) -> bool {
    let q = x.cval().0;
    if x is ExactComplex {
        domain_err(r, name + "() needs a real number"@)
    } else if name == "floor"@ {
        exact_is(r, (qint(q.0 / q.1), czero_frac()))
    } else if name == "ceil"@ {
        exact_is(r, (qint(-((-q.0) / q.1)), czero_frac()))
    } else {
        exact_is(r, (qint(round_half_away(q)), czero_frac()))
    }
}

fn rounding(name: &str, x: &Value) -> (r: EvalResult)
    requires
        x.wf(),
    ensures
        rounding_rel(name@, *x, r),
{
    match x {
        Value::Rational(q) => {
            let v = if str_eq(name, "floor") {
                q.floor()
            } else if str_eq(name, "ceil") {
                q.ceil()
            } else {
                q.round()
            };
            Ok(Some(Value::Rational(v)))
        },
        Value::ExactComplex(_) => {
            let mut m = String::from_str(name);
            m.append("() needs a real number");
            Err(EvalError::Domain(m))
        },
    }
}

/// `re`, `im`, `conj` exactly; `arg` is 0 for a positive rational, undefined
/// at 0, and approximated otherwise.
pub open spec fn part_rel(name: Seq<char>, x: Value, r: EvalResult) -> bool {
    if name == "re"@ {
        exact_is(r, (x.cval().0, czero_frac()))
    } else if name == "im"@ {
        exact_is(r, (x.cval().1, czero_frac()))
    } else if name == "conj"@ {
        exact_is(r, cconj(x.cval()))
    } else if czero(x.cval()) {
        domain_err(r, "arg(0) is undefined"@)
    } else if x is Rational && x.cval().0.0 > 0 {
        exact_is(r, zero_c())
    } else {
        r == Ok::<Option<Value>, EvalError>(None)
    }
}

fn complex_part(name: &str, x: &Value) -> (r: EvalResult)
    requires
        x.wf(),
    ensures
        part_rel(name@, *x, r),
{
    if str_eq(name, "re") {
        return match x {
            Value::ExactComplex(c) => Ok(Some(Value::Rational(c.re.copy()))),
            Value::Rational(q) => Ok(Some(Value::Rational(q.copy()))),
        };
    }
    if str_eq(name, "im") {
        return match x {
            Value::ExactComplex(c) => Ok(Some(Value::Rational(c.im.copy()))),
            Value::Rational(q) => {
                proof { crate::rational::lemma_gcd_one(0); }
                Ok(Some(Value::integer(0)))
            },
        };
    }
    if str_eq(name, "conj") {
        return match x {
            Value::ExactComplex(c) => Ok(Some(Value::ExactComplex(c.conj()))),
            Value::Rational(q) => {
                proof { crate::rational::lemma_gcd_one(0); }
                Ok(Some(Value::Rational(q.copy())))
            },
        };
    }
    if x.is_zero() {
        return Err(EvalError::Domain(String::from_str("arg(0) is undefined")));
    }
    match x {
        Value::Rational(q) => {
            if q.is_positive() {
                Ok(Some(Value::integer(0)))
            } else {
                Ok(None)
            }
        },
        Value::ExactComplex(_) => Ok(None),
    }
}

pub open spec fn half_c() -> CFrac {
    ((1, 2), czero_frac())
}

pub open spec fn third_c() -> CFrac {
    ((1, 3), czero_frac())
}

/// What a built-in function gives on exact arguments: commands are refused,
/// then each function checks its argument count, then computes.
pub open spec fn call_rel(name: Seq<char>, args: Seq<Value>, r: EvalResult) -> bool {
    let n = args.len();
    if command_names().contains(name) {
        domain_err(r, name + "() must be used on its own, e.g. "@ + name + "(x^2, x)"@)
    } else if name == "sqrt"@ {
        if n != 1 { arity_err(r, name, seq![1usize], n) } else { pow_ok(args[0], half_c(), r) }
    } else if name == "cbrt"@ {
        if n != 1 { arity_err(r, name, seq![1usize], n) } else { pow_ok(args[0], third_c(), r) }
    } else if name == "root"@ {
        if n != 2 {
            arity_err(r, name, seq![2usize], n)
        } else if czero(args[1].cval()) {
            domain_err(r, "root index can't be 0"@)
        } else {
            exists|inv: Value| #![trigger pow_ok(args[0], inv.cval(), r)]
                inv.wf() && ceq(inv.cval(), cdiv(one_c(), args[1].cval())) && pow_ok(args[0], inv.cval(), r)
        }
    } else if name == "abs"@ {
        if n != 1 { arity_err(r, name, seq![1usize], n) } else { abs_ok(args[0], r) }
    } else if is_transcendental(name) {
        if n != 1 { arity_err(r, name, seq![1usize], n) } else { transcendental_rel(name, args[0], r) }
    } else if name == "ln"@ {
        if n != 1 { arity_err(r, name, seq![1usize], n) } else { log_rel(args[0], None, r) }
    } else if name == "log"@ {
        if n != 1 && n != 2 {
            arity_err(r, name, seq![1usize, 2usize], n)
        } else {
            log_rel(args[0], Some(if n == 2 { args[1].cval() } else { (qint(10), czero_frac()) }), r)
        }
    } else if name == "log2"@ {
        if n != 1 { arity_err(r, name, seq![1usize], n) } else { log_rel(args[0], Some((qint(2), czero_frac())), r) }
    } else if name == "floor"@ || name == "ceil"@ || name == "round"@ {
        if n != 1 { arity_err(r, name, seq![1usize], n) } else { rounding_rel(name, args[0], r) }
    } else if name == "re"@ || name == "im"@ || name == "conj"@ || name == "arg"@ {
        if n != 1 { arity_err(r, name, seq![1usize], n) } else { part_rel(name, args[0], r) }
    } else {
        unknown_name_is(r, name, NameKind::Function, function_names())
    }
}

/// A built-in function on exact arguments.
pub fn call(name: &str, args: &Vec<Value>) -> (r: EvalResult)
    requires
        forall|k: int| 0 <= k < args@.len() ==> (#[trigger] args@[k]).wf(),
    ensures
        call_rel(name@, args@, r),
        r matches Ok(Some(v)) ==> v.wf(),
{
    if is_command(name) {
        let mut m = String::from_str(name);
        m.append("() must be used on its own, e.g. ");
        m.append(name);
        m.append("(x^2, x)");
        return Err(EvalError::Domain(m));
    }
    let n = args.len();
    if str_eq(name, "sqrt") {
        if let Err(e) = arity(name, n, &[1]) {
            return Err(e);
        }
        let half = unit_fraction(2);
        return args[0].pow(&half);
    }
    if str_eq(name, "cbrt") {
        if let Err(e) = arity(name, n, &[1]) {
            return Err(e);
        }
        let third = unit_fraction(3);
        return args[0].pow(&third);
    }
    if str_eq(name, "root") {
        if let Err(e) = arity(name, n, &[2]) {
            return Err(e);
        }
        if args[1].is_zero() {
            return Err(EvalError::Domain(String::from_str("root index can't be 0")));
        }
        let inv = match Value::integer(1).div(&args[1]) {
            Ok(v) => v,
            Err(e) => {
                return Err(e);
            },
        };
        let r = args[0].pow(&inv);
        assert(pow_ok(args@[0], inv.cval(), r));
        return r;
    }
    if str_eq(name, "abs") {
        if let Err(e) = arity(name, n, &[1]) {
            return Err(e);
        }
        return args[0].abs();
    }
    if str_eq(name, "sin") || str_eq(name, "cos") || str_eq(name, "tan") || str_eq(name, "asin")
        || str_eq(name, "acos") || str_eq(name, "atan") || str_eq(name, "sinh") || str_eq(name, "cosh")
        || str_eq(name, "tanh") || str_eq(name, "exp") {
        if let Err(e) = arity(name, n, &[1]) {
            return Err(e);
        }
        return transcendental(name, &args[0]);
    }
    if str_eq(name, "ln") {
        if let Err(e) = arity(name, n, &[1]) {
            return Err(e);
        }
        return log_base(&args[0], None);
    }
    if str_eq(name, "log") {
        if let Err(e) = arity(name, n, &[1, 2]) {
            return Err(e);
        }
        if n == 2 {
            return log_base(&args[0], Some(&args[1]));
        }
        let ten = Value::integer(10);
        return log_base(&args[0], Some(&ten));
    }
    if str_eq(name, "log2") {
        if let Err(e) = arity(name, n, &[1]) {
            return Err(e);
        }
        let two = Value::integer(2);
        return log_base(&args[0], Some(&two));
    }
    if str_eq(name, "floor") || str_eq(name, "ceil") || str_eq(name, "round") {
        if let Err(e) = arity(name, n, &[1]) {
            return Err(e);
        }
        return rounding(name, &args[0]);
    }
    if str_eq(name, "re") || str_eq(name, "im") || str_eq(name, "conj") || str_eq(name, "arg") {
        if let Err(e) = arity(name, n, &[1]) {
            return Err(e);
        }
        return complex_part(name, &args[0]);
    }
    let f = functions();
    proof {
        lemma_names_short();
        assert forall|j: int| 0 <= j < f@.len() implies (#[trigger] f@[j])@.len() < usize::MAX by {
            assert(names_view(f@)[j] == f@[j]@);
        }
        assert(f@.map_values(|c: &str| c@) =~= names_view(f@));
    }
    let suggestion = suggest(name, f.as_slice());
    Err(EvalError::UnknownName { name: String::from_str(name), kind: NameKind::Function, suggestion })
}

/// A prefix operator.
#[derive(Debug, Clone, Copy)]
pub enum UnOp {
    Neg,
    Factorial,
}

/// What a prefix operator gives on an exact operand.
pub open spec fn unop_ok(op: UnOp, a: Value, r: EvalResult) -> bool {
    match op {
        UnOp::Neg => r matches Ok(Some(v)) && v.wf() && ceq(v.cval(), cneg(a.cval())),
        UnOp::Factorial => match r {
            Ok(Some(v)) => factorial_ok(a, Ok(v)),
            Ok(None) => false,
            Err(e) => factorial_ok(a, Err(e)),
        },
    }
}

/// A prefix operator on an exact operand.
pub fn apply_unary(op: UnOp, a: &Value) -> (r: EvalResult)
    requires
        a.wf(),
    ensures
        unop_ok(op, *a, r),
        r matches Ok(Some(v)) ==> v.wf(),
{
    match op {
        UnOp::Neg => Ok(Some(a.neg())),
        UnOp::Factorial => match a.factorial() {
            Ok(v) => Ok(Some(v)),
            Err(e) => Err(e),
        },
    }
}

/// A result that stops the evaluation: an error, or the need to approximate.
pub open spec fn stops(x: EvalResult, r: EvalResult) -> bool {
    match x {
        Err(e) => r == Err::<Option<Value>, EvalError>(e),
        Ok(None) => r == Ok::<Option<Value>, EvalError>(None),
        Ok(Some(_)) => false,
    }
}

/// The results of evaluating an expression and, in order, those of its
/// operands that were evaluated.
pub struct Trace {
    pub res: EvalResult,
    pub kids: Seq<Trace>,
}

/// `t` records an evaluation of `e`: operands left to right, the first one
/// that stops the evaluation decides, and exact operands are combined by the
/// operator's rule.
pub open spec fn eval_ok(e: SExpr, t: Trace) -> bool
    decreases e, 0int,
{
    let r = t.res;
    match e {
        SExpr::Num(c) => exact_is(r, c),
        SExpr::Var(n) => constant_rel(n, r),
        SExpr::Neg(a) => eval_ok(*a, t.kids[0]) && unary_step(UnOp::Neg, t.kids[0].res, r),
        SExpr::Factorial(a) => eval_ok(*a, t.kids[0]) && unary_step(UnOp::Factorial, t.kids[0].res, r),
        SExpr::Add(a, b) => eval_ok(*a, t.kids[0]) && (fails(t.kids[0].res, r) || (eval_ok(*b, t.kids[1])
            && binary_step(BinOp::Add, t.kids[0].res, t.kids[1].res, r))),
        SExpr::Sub(a, b) => eval_ok(*a, t.kids[0]) && (fails(t.kids[0].res, r) || (eval_ok(*b, t.kids[1])
            && binary_step(BinOp::Sub, t.kids[0].res, t.kids[1].res, r))),
        SExpr::Mul(a, b) => eval_ok(*a, t.kids[0]) && (fails(t.kids[0].res, r) || (eval_ok(*b, t.kids[1])
            && binary_step(BinOp::Mul, t.kids[0].res, t.kids[1].res, r))),
        SExpr::Div(a, b) => eval_ok(*a, t.kids[0]) && (fails(t.kids[0].res, r) || (eval_ok(*b, t.kids[1])
            && binary_step(BinOp::Div, t.kids[0].res, t.kids[1].res, r))),
        SExpr::Pow(a, b) => eval_ok(*a, t.kids[0]) && (fails(t.kids[0].res, r) || (eval_ok(*b, t.kids[1])
            && binary_step(BinOp::Pow, t.kids[0].res, t.kids[1].res, r))),
        SExpr::Call(n, args) => args_ok(n, args, 0, seq![], false, t.kids, r),
    }
}

/// A prefix operator after its operand.
pub open spec fn unary_step(op: UnOp, ra: EvalResult, r: EvalResult) -> bool {
    stops(ra, r) || (ra matches Ok(Some(va)) && unop_ok(op, va, r))
}

/// An error stops the evaluation with that error.
pub open spec fn fails(x: EvalResult, r: EvalResult) -> bool {
    x matches Err(e) && r == Err::<Option<Value>, EvalError>(e)
}

/// A binary operator after a left operand that did not fail, and its right
/// operand: the right operand's error, else the need to approximate if
/// either operand calls for it, else the operator's exact rule.
pub open spec fn binary_step(op: BinOp, ra: EvalResult, rb: EvalResult, r: EvalResult) -> bool {
    &&& ra is Ok
    &&& (fails(rb, r) || (rb is Ok && match (ra, rb) {
        (Ok(Some(va)), Ok(Some(vb))) => binop_ok(op, va, vb, r),
        _ => r == Ok::<Option<Value>, EvalError>(None),
    }))
}

/// Call arguments from `k` on, after the exact values `vals` of those
/// before (`approx` when one of them called for an approximation): the
/// first error, else the need to approximate, else the function itself.
pub open spec fn args_ok(n: Seq<char>, args: Seq<SExpr>, k: int, vals: Seq<Value>, approx: bool, kids: Seq<Trace>, r: EvalResult) -> bool
    decreases args, args.len() - k,
{
    if k < 0 || k >= args.len() {
        if approx { r == Ok::<Option<Value>, EvalError>(None) } else { call_rel(n, vals, r) }
    } else {
        eval_ok(args[k], kids[k]) && (fails(kids[k].res, r) || match kids[k].res {
            Ok(Some(v)) => args_ok(n, args, k + 1, vals.push(v), approx, kids, r),
            Ok(None) => args_ok(n, args, k + 1, vals, true, kids, r),
            Err(_) => false,
        })
    }
}

/// What evaluating `e` gives.
pub open spec fn evaluates(e: SExpr, r: EvalResult) -> bool {
    exists|t: Trace| #[trigger] eval_ok(e, t) && t.res == r
}

fn eval_traced(e: &Expr) -> (out: (EvalResult, Ghost<Trace>))
    requires
        swf(model(*e)),
    ensures
        eval_ok(model(*e), out.1@),
        out.1@.res == out.0,
        out.0 matches Ok(Some(v)) ==> v.wf(),
    decreases e,
{
    match e {
        Expr::Num(v) => {
            let w = v.copy();
            let r = w.normalize();
            let res = Ok(Some(r));
            (res, Ghost(Trace { res, kids: seq![] }))
        },
        Expr::Var(n) => {
            let res = variable(n.as_str());
            (res, Ghost(Trace { res, kids: seq![] }))
        },
        Expr::Neg(a) | Expr::Factorial(a) => {
            let op = match e {
                Expr::Neg(_) => UnOp::Neg,
                _ => UnOp::Factorial,
            };
            let (ra, ta) = eval_traced(a);
            let res = match ra {
                Ok(Some(va)) => apply_unary(op, &va),
                Ok(None) => Ok(None),
                Err(x) => Err(x),
            };
            (res, Ghost(Trace { res, kids: seq![ta@] }))
        },
        Expr::Add(a, b) | Expr::Sub(a, b) | Expr::Mul(a, b) | Expr::Div(a, b) | Expr::Pow(a, b) => {
            let op = match e {
                Expr::Add(..) => BinOp::Add,
                Expr::Sub(..) => BinOp::Sub,
                Expr::Mul(..) => BinOp::Mul,
                Expr::Div(..) => BinOp::Div,
                _ => BinOp::Pow,
            };
            let (ra, ta) = eval_traced(a);
            match ra {
                Err(x) => {
                    let res: EvalResult = Err(x);
                    (res, Ghost(Trace { res, kids: seq![ta@] }))
                },
                Ok(oa) => {
                    let (rb, tb) = eval_traced(b);
                    let res = match rb {
                        Err(y) => Err(y),
                        Ok(ob) => match (oa, ob) {
                            (Some(va), Some(vb)) => apply_binary(op, &va, &vb),
                            _ => Ok(None),
                        },
                    };
                    (res, Ghost(Trace { res, kids: seq![ta@, tb@] }))
                },
            }
        },
        Expr::Call(n, args) => {
            let ghost margs = models(args@);
            proof {
                lemma_models(args@);
                crate::ast::lemma_swf_from(margs, 0);
            }
            let mut vals: Vec<Value> = Vec::new();
            let mut approx = false;
            let ghost mut kids: Seq<Trace> = seq![];
            let mut k: usize = 0;
            while k < args.len()
                invariant
                    k <= args@.len(),
                    *e == Expr::Call(*n, *args),
                    margs == models(args@),
                    margs.len() == args@.len(),
                    forall|j: int| 0 <= j < args@.len() ==> #[trigger] margs[j] == model(args@[j]),
                    forall|j: int| 0 <= j < margs.len() ==> swf(#[trigger] margs[j]),
                    forall|j: int| 0 <= j < vals@.len() ==> (#[trigger] vals@[j]).wf(),
                    kids.len() == k,
                    forall|r: EvalResult, more: Seq<Trace>| #[trigger] args_ok(n@, margs, k as int, vals@, approx, kids + more, r)
                        ==> args_ok(n@, margs, 0, seq![], false, kids + more, r),
                decreases args@.len() - k,
            {
                assert(swf(margs[k as int]));
                proof {
                    assert(decreases_to!(*e => e->Call_1));
                    assert(decreases_to!(e->Call_1 => e->Call_1@));
                    assert(decreases_to!(e->Call_1@ => e->Call_1@[k as int]));
                }
                let (rk, tk) = eval_traced(&args[k]);
                match rk {
                    Ok(Some(v)) => {
                        let ghost before = vals@;
                        let ghost old_kids = kids;
                        let ghost gv = v;
                        vals.push(v);
                        proof {
                            kids = kids.push(tk@);
                            assert forall|r: EvalResult, more: Seq<Trace>| #[trigger] args_ok(n@, margs, k + 1, vals@, approx, kids + more, r)
                                implies args_ok(n@, margs, 0, seq![], false, kids + more, r) by {
                                let m2 = seq![tk@] + more;
                                assert(kids + more =~= old_kids + m2);
                                assert((old_kids + m2)[k as int] == tk@);
                                assert(before.push(gv) == vals@);
                                assert(args_ok(n@, margs, k as int, before, approx, old_kids + m2, r));
                            }
                        }
                        k = k + 1;
                    },
                    Ok(None) => {
                        let ghost old_kids = kids;
                        let ghost old_approx = approx;
                        approx = true;
                        proof {
                            kids = kids.push(tk@);
                            assert forall|r: EvalResult, more: Seq<Trace>| #[trigger] args_ok(n@, margs, k + 1, vals@, approx, kids + more, r)
                                implies args_ok(n@, margs, 0, seq![], false, kids + more, r) by {
                                let m2 = seq![tk@] + more;
                                assert(kids + more =~= old_kids + m2);
                                assert((old_kids + m2)[k as int] == tk@);
                                assert(args_ok(n@, margs, k as int, vals@, old_approx, old_kids + m2, r));
                            }
                        }
                        k = k + 1;
                    },
                    Err(x) => {
                        let res: EvalResult = Err(x);
                        proof {
                            let all = kids.push(tk@);
                            assert(all == kids + seq![tk@]);
                            assert(all[k as int] == tk@);
                            assert(args_ok(n@, margs, k as int, vals@, approx, kids + seq![tk@], res));
                        }
                        return (res, Ghost(Trace { res, kids: kids.push(tk@) }));
                    },
                }
            }
            let res = if approx { Ok(None) } else { call(n.as_str(), &vals) };
            proof {
                assert(kids + seq![] =~= kids);
                assert(args_ok(n@, margs, k as int, vals@, approx, kids + seq![], res));
            }
            (res, Ghost(Trace { res, kids }))
        },
    }
}

/// Evaluates an expression exactly, as far as exact values go.
pub fn eval_exact(e: &Expr) -> (r: EvalResult)
    requires
        swf(model(*e)),
    ensures
        evaluates(model(*e), r),
        r matches Ok(Some(v)) ==> v.wf(),
{
    let (r, t) = eval_traced(e);
    assert(eval_ok(model(*e), t@));
    r
}


/// Evaluation of an expression tree.
pub trait Evaluate {
    /// The tree is well formed for evaluation.
    spec fn ready(&self) -> bool;

    /// `r` is what evaluating the tree gives.
    spec fn gives(&self, r: EvalResult) -> bool;

    fn eval(&self) -> (r: EvalResult)
        requires
            self.ready(),
        ensures
            self.gives(r),
    ;
}

impl Evaluate for Expr {
    open spec fn ready(&self) -> bool {
        swf(model(*self))
    }

    open spec fn gives(&self, r: EvalResult) -> bool {
        &&& evaluates(model(*self), r)
        &&& r matches Ok(Some(v)) ==> v.wf()
    }

    fn eval(&self) -> (r: EvalResult) {
        eval_exact(self)
    }
}

} // verus!
