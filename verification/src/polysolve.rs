//! Polynomial equations in one unknown of degree two: the coefficients are
//! read off the values of the equation at 0, 1 and 2 and the roots come from
//! the quadratic formula. Exact roots are checked by substituting them back
//! before they are reported; irrational ones are given as `p ∓ sqrt(q)`.

use vstd::prelude::*;
use crate::ast::{Expr, SExpr, model, models, lemma_models, swf, frac_wf};
use crate::builtins::{is_constant, constant_names};
use crate::complex::{CFrac, czero, ceq, cadd, csub, cmul, cdiv, cneg};
use crate::rational::{Rat, Frac, qint};
use crate::number::Int;
use crate::value::{czero_frac, has_exact_root, exact_root_power, exact_rational_power};
use crate::error::{Error, EvalError};
use crate::eval::{eval_exact, evaluates, EvalResult};
use crate::format::{display, expr_text, format_value, value_text};
use crate::linear::{join, join_text, names};
use crate::parser::Equation;
use crate::solve::{SolveError, Step};
use crate::Outcome;
use crate::linearize::{has_vars, has_vars_exec};
use crate::text::str_eq;
use crate::value::Value;

verus! {

/// `e` with the number `c` put for the unknown `x` (function arguments are
/// left as they are).
pub open spec fn ssubst(e: SExpr, x: Seq<char>, c: CFrac) -> SExpr
    decreases e,
{
    match e {
        SExpr::Num(_) => e,
        SExpr::Var(n) => if n == x { SExpr::Num(c) } else { e },
        SExpr::Add(a, b) => SExpr::Add(Box::new(ssubst(*a, x, c)), Box::new(ssubst(*b, x, c))),
        SExpr::Sub(a, b) => SExpr::Sub(Box::new(ssubst(*a, x, c)), Box::new(ssubst(*b, x, c))),
        SExpr::Mul(a, b) => SExpr::Mul(Box::new(ssubst(*a, x, c)), Box::new(ssubst(*b, x, c))),
        SExpr::Div(a, b) => SExpr::Div(Box::new(ssubst(*a, x, c)), Box::new(ssubst(*b, x, c))),
        SExpr::Pow(a, b) => SExpr::Pow(Box::new(ssubst(*a, x, c)), Box::new(ssubst(*b, x, c))),
        SExpr::Neg(a) => SExpr::Neg(Box::new(ssubst(*a, x, c))),
        SExpr::Factorial(a) => SExpr::Factorial(Box::new(ssubst(*a, x, c))),
        SExpr::Call(_, _) => e,
    }
}

pub proof fn lemma_ssubst_wf(e: SExpr, x: Seq<char>, c: CFrac)
    requires
        swf(e),
        frac_wf(c.0),
        frac_wf(c.1),
    ensures
        swf(ssubst(e, x, c)),
    decreases e,
{
    match e {
        SExpr::Add(a, b) => { lemma_ssubst_wf(*a, x, c); lemma_ssubst_wf(*b, x, c); },
        SExpr::Sub(a, b) => { lemma_ssubst_wf(*a, x, c); lemma_ssubst_wf(*b, x, c); },
        SExpr::Mul(a, b) => { lemma_ssubst_wf(*a, x, c); lemma_ssubst_wf(*b, x, c); },
        SExpr::Div(a, b) => { lemma_ssubst_wf(*a, x, c); lemma_ssubst_wf(*b, x, c); },
        SExpr::Pow(a, b) => { lemma_ssubst_wf(*a, x, c); lemma_ssubst_wf(*b, x, c); },
        SExpr::Neg(a) => { lemma_ssubst_wf(*a, x, c); },
        SExpr::Factorial(a) => { lemma_ssubst_wf(*a, x, c); },
        _ => {},
    }
}

/// A copy of an expression tree.
pub fn copy_expr(e: &Expr) -> (r: Expr)
    ensures
        model(r) == model(*e),
    decreases e,
{
    match e {
        Expr::Num(v) => Expr::Num(v.copy()),
        Expr::Var(n) => Expr::Var(n.clone()),
        Expr::Add(a, b) => Expr::Add(Box::new(copy_expr(a)), Box::new(copy_expr(b))),
        Expr::Sub(a, b) => Expr::Sub(Box::new(copy_expr(a)), Box::new(copy_expr(b))),
        Expr::Mul(a, b) => Expr::Mul(Box::new(copy_expr(a)), Box::new(copy_expr(b))),
        Expr::Div(a, b) => Expr::Div(Box::new(copy_expr(a)), Box::new(copy_expr(b))),
        Expr::Pow(a, b) => Expr::Pow(Box::new(copy_expr(a)), Box::new(copy_expr(b))),
        Expr::Neg(a) => Expr::Neg(Box::new(copy_expr(a))),
        Expr::Factorial(a) => Expr::Factorial(Box::new(copy_expr(a))),
        Expr::Call(n, args) => {
            let mut out: Vec<Expr> = Vec::new();
            let mut k: usize = 0;
            while k < args.len()
                invariant
                    k <= args@.len(),
                    *e == Expr::Call(e->Call_0, *args),
                    out@.len() == k,
                    forall|j: int| 0 <= j < k ==> #[trigger] model(out@[j]) == model(args@[j]),
                decreases args@.len() - k,
            {
                proof {
                    assert(decreases_to!(*e => e->Call_1));
                    assert(decreases_to!(e->Call_1 => e->Call_1@));
                    assert(decreases_to!(e->Call_1@ => e->Call_1@[k as int]));
                }
                let c = copy_expr(&args[k]);
                out.push(c);
                k = k + 1;
            }
            proof {
                lemma_models(out@);
                lemma_models(args@);
                assert(models(out@) =~= models(args@));
            }
            Expr::Call(n.clone(), out)
        },
    }
}

/// `e` with the value `v` put for the unknown `x`.
pub fn subst(e: &Expr, x: &str, v: &Value) -> (r: Expr)
    ensures
        model(r) == ssubst(model(*e), x@, v.cval()),
    decreases e,
{
    match e {
        Expr::Num(w) => Expr::Num(w.copy()),
        Expr::Var(n) => if str_eq(n.as_str(), x) {
            Expr::Num(v.copy())
        } else {
            Expr::Var(n.clone())
        },
        Expr::Add(a, b) => Expr::Add(Box::new(subst(a, x, v)), Box::new(subst(b, x, v))),
        Expr::Sub(a, b) => Expr::Sub(Box::new(subst(a, x, v)), Box::new(subst(b, x, v))),
        Expr::Mul(a, b) => Expr::Mul(Box::new(subst(a, x, v)), Box::new(subst(b, x, v))),
        Expr::Div(a, b) => Expr::Div(Box::new(subst(a, x, v)), Box::new(subst(b, x, v))),
        Expr::Pow(a, b) => Expr::Pow(Box::new(subst(a, x, v)), Box::new(subst(b, x, v))),
        Expr::Neg(a) => Expr::Neg(Box::new(subst(a, x, v))),
        Expr::Factorial(a) => Expr::Factorial(Box::new(subst(a, x, v))),
        Expr::Call(_, _) => copy_expr(e),
    }
}

/// The first unknown of `e`, reading from the left.
pub open spec fn first_var(e: SExpr) -> Option<Seq<char>>
    decreases e, 0int,
{
    match e {
        SExpr::Num(_) => None,
        SExpr::Var(n) => if constant_names().contains(n) { None } else { Some(n) },
        SExpr::Add(a, b) => if first_var(*a) is Some { first_var(*a) } else { first_var(*b) },
        SExpr::Sub(a, b) => if first_var(*a) is Some { first_var(*a) } else { first_var(*b) },
        SExpr::Mul(a, b) => if first_var(*a) is Some { first_var(*a) } else { first_var(*b) },
        SExpr::Div(a, b) => if first_var(*a) is Some { first_var(*a) } else { first_var(*b) },
        SExpr::Pow(a, b) => if first_var(*a) is Some { first_var(*a) } else { first_var(*b) },
        SExpr::Neg(a) => first_var(*a),
        SExpr::Factorial(a) => first_var(*a),
        SExpr::Call(_, args) => first_var_from(args, 0),
    }
}

pub open spec fn first_var_from(args: Seq<SExpr>, k: int) -> Option<Seq<char>>
    decreases args, args.len() - k,
{
    if k < 0 || k >= args.len() {
        None
    } else if first_var(args[k]) is Some {
        first_var(args[k])
    } else {
        first_var_from(args, k + 1)
    }
}

fn first_var_exec(e: &Expr) -> (r: Option<String>)
    ensures
        r matches Some(s) ==> first_var(model(*e)) == Some(s@),
        r is None ==> first_var(model(*e)) is None,
    decreases e,
{
    match e {
        Expr::Num(_) => None,
        Expr::Var(n) => if is_constant(n.as_str()) { None } else { Some(n.clone()) },
        Expr::Add(a, b) | Expr::Sub(a, b) | Expr::Mul(a, b) | Expr::Div(a, b) | Expr::Pow(a, b) => {
            match first_var_exec(a) {
                Some(s) => Some(s),
                None => first_var_exec(b),
            }
        },
        Expr::Neg(a) | Expr::Factorial(a) => first_var_exec(a),
        Expr::Call(_, args) => {
            let ghost margs = models(args@);
            proof { lemma_models(args@); }
            let mut k: usize = args.len();
            let mut found: Option<String> = None;
            while k > 0
                invariant
                    k <= args@.len(),
                    *e == Expr::Call(e->Call_0, *args),
                    margs == models(args@),
                    margs.len() == args@.len(),
                    forall|j: int| 0 <= j < args@.len() ==> #[trigger] margs[j] == model(args@[j]),
                    match found {
                        Some(s) => first_var_from(margs, k as int) == Some(s@),
                        None => first_var_from(margs, k as int) is None,
                    },
                decreases k,
            {
                k = k - 1;
                proof {
                    assert(decreases_to!(*e => e->Call_1));
                    assert(decreases_to!(e->Call_1 => e->Call_1@));
                    assert(decreases_to!(e->Call_1@ => e->Call_1@[k as int]));
                }
                match first_var_exec(&args[k]) {
                    Some(s) => { found = Some(s); },
                    None => {},
                }
            }
            found
        },
    }
}

/// A whole number 0, 1, 2, ... (within 64 bits).
pub open spec fn whole(c: CFrac) -> bool {
    c.1.0 == 0 && c.0.1 == 1 && 0 <= c.0.0 <= i64::MAX
}

/// `e` is a polynomial in its unknowns: unknowns are combined by sums,
/// differences, products, quotients by expressions without unknowns, and
/// powers with whole-number exponents written as numbers.
pub open spec fn poly_ok(e: SExpr) -> bool
    decreases e,
{
    if !has_vars(e) {
        true
    } else {
        match e {
            SExpr::Var(_) => true,
            SExpr::Add(a, b) => poly_ok(*a) && poly_ok(*b),
            SExpr::Sub(a, b) => poly_ok(*a) && poly_ok(*b),
            SExpr::Mul(a, b) => poly_ok(*a) && poly_ok(*b),
            SExpr::Neg(a) => poly_ok(*a),
            SExpr::Div(a, b) => poly_ok(*a) && !has_vars(*b),
            SExpr::Pow(a, b) => poly_ok(*a) && (*b matches SExpr::Num(c) && whole(c)),
            _ => false,
        }
    }
}

/// The whole number that the rational `q` (with imaginary part `im`) is.
fn whole_value(q: &crate::rational::Rat, im_zero: bool) -> (r: Option<i64>)
    ensures
        r matches Some(k) ==> im_zero && q@.1 == 1 && q@.0 >= 0 && q@.0 == k,
        r is None ==> !(im_zero && q@.1 == 1 && q@.0 >= 0 && q@.0 <= i64::MAX),
{
    if im_zero && q.den.is_one() && !q.num.is_negative() {
        q.num.to_i64()
    } else {
        None
    }
}

fn num_whole(e: &Expr) -> (r: Option<i64>)
    ensures
        r matches Some(k) ==> (model(*e) matches SExpr::Num(c) && whole(c) && c.0.0 == k),
        r is None ==> !(model(*e) matches SExpr::Num(c) && whole(c)),
{
    match e {
        Expr::Num(Value::Rational(q)) => whole_value(q, true),
        Expr::Num(Value::ExactComplex(c)) => {
            let z = c.im.num.is_zero();
            whole_value(&c.re, z)
        },
        _ => None,
    }
}

fn is_whole(e: &Expr) -> (r: bool)
    ensures
        r == (model(*e) matches SExpr::Num(c) && whole(c)),
{
    num_whole(e).is_some()
}

fn poly_ok_exec(e: &Expr) -> (r: bool)
    ensures
        r == poly_ok(model(*e)),
    decreases e,
{
    if !has_vars_exec(e) {
        return true;
    }
    match e {
        Expr::Var(_) => true,
        Expr::Add(a, b) | Expr::Sub(a, b) | Expr::Mul(a, b) => poly_ok_exec(a) && poly_ok_exec(b),
        Expr::Neg(a) => poly_ok_exec(a),
        Expr::Div(a, b) => poly_ok_exec(a) && !has_vars_exec(b),
        Expr::Pow(a, b) => poly_ok_exec(a) && is_whole(b),
        _ => false,
    }
}

/// `d`, or 3 when it is larger: degrees from 3 on are told apart no further.
pub open spec fn cap3(d: nat) -> nat {
    if d > 3 { 3 } else { d }
}

/// The degree of `e` in the unknown `x`, 3 standing for any degree from 3
/// on, when `e` is a polynomial in `x` alone; else `None`.
pub open spec fn quad_deg(e: SExpr, x: Seq<char>) -> Option<nat>
    decreases e,
{
    if !has_vars(e) {
        Some(0)
    } else {
        match e {
            SExpr::Var(n) => if n == x { Some(1) } else { None },
            SExpr::Add(a, b) => match (quad_deg(*a, x), quad_deg(*b, x)) {
                (Some(da), Some(db)) => Some(if da >= db { da } else { db }),
                _ => None,
            },
            SExpr::Sub(a, b) => match (quad_deg(*a, x), quad_deg(*b, x)) {
                (Some(da), Some(db)) => Some(if da >= db { da } else { db }),
                _ => None,
            },
            SExpr::Mul(a, b) => match (quad_deg(*a, x), quad_deg(*b, x)) {
                (Some(da), Some(db)) => Some(cap3(da + db)),
                _ => None,
            },
            SExpr::Neg(a) => quad_deg(*a, x),
            SExpr::Div(a, b) => if has_vars(*b) { None } else { quad_deg(*a, x) },
            SExpr::Pow(a, b) => match (quad_deg(*a, x), *b) {
                (Some(da), SExpr::Num(c)) => if whole(c) {
                    Some(cap3((da * c.0.0) as nat))
                } else {
                    None
                },
                _ => None,
            },
            _ => None,
        }
    }
}

/// The degree of a power of a part of degree `da` by the expression `b`.
fn pow_deg(da: u64, b: &Expr) -> (r: Option<u64>)
    requires
        da <= 3,
    ensures
        r matches Some(d) ==> d <= 3 && (model(*b) matches SExpr::Num(c) && whole(c) && d == cap3((da * c.0.0) as nat)),
        r is None ==> !(model(*b) matches SExpr::Num(c) && whole(c)),
{
    let w = num_whole(b);
    match w {
        Some(k) => {
            let ghost c = model(*b)->Num_0;
            assert(model(*b) is Num && whole(c) && c.0.0 == k);
            if da == 0 || k == 0 {
                assert(da * c.0.0 == 0) by (nonlinear_arith) requires da == 0 || c.0.0 == 0, {}
                Some(0)
            } else if k >= 3 {
                assert(da * c.0.0 >= 3) by (nonlinear_arith) requires da >= 1, c.0.0 >= 3, {}
                Some(3)
            } else {
                let d = if k == 1 { da } else { da + da };
                assert(d == da * c.0.0) by (nonlinear_arith) requires d == if c.0.0 == 1 { da as int } else { da + da }, c.0.0 == 1 || c.0.0 == 2, {}
                if d > 3 { Some(3) } else { Some(d) }
            }
        },
        None => None,
    }
}

fn quad_deg_exec(e: &Expr, x: &str) -> (r: Option<u64>)
    ensures
        r matches Some(d) ==> d <= 3 && quad_deg(model(*e), x@) == Some(d as nat),
        r is None ==> quad_deg(model(*e), x@) is None,
    decreases e,
{
    if !has_vars_exec(e) {
        return Some(0);
    }
    match e {
        Expr::Var(n) => {
            let ns = n.as_str();
            let same = str_eq(ns, x);
            assert(ns@ == n@);
            let r: Option<u64> = if same { Some(1) } else { None };
            assert(model(*e) == SExpr::Var(n@) && has_vars(model(*e)));
            assert(r matches Some(d) ==> d <= 2 && quad_deg(model(*e), x@) == Some(d as nat));
            assert(r is None ==> quad_deg(model(*e), x@) is None);
            r
        },
        Expr::Add(a, b) | Expr::Sub(a, b) => match (quad_deg_exec(a, x), quad_deg_exec(b, x)) {
            (Some(da), Some(db)) => Some(if da >= db { da } else { db }),
            _ => None,
        },
        Expr::Mul(a, b) => match (quad_deg_exec(a, x), quad_deg_exec(b, x)) {
            (Some(da), Some(db)) => if da + db > 3 { Some(3) } else { Some(da + db) },
            _ => None,
        },
        Expr::Neg(a) => quad_deg_exec(a, x),
        Expr::Div(a, b) => if has_vars_exec(b) { None } else { quad_deg_exec(a, x) },
        Expr::Pow(a, b) => match quad_deg_exec(a, x) {
            Some(da) => pow_deg(da, b),
            None => None,
        },
        _ => None,
    }
}

/// `r` is the product `x·y`, exactly, in lowest terms.
pub open spec fn is_prod(r: Value, x: CFrac, y: CFrac) -> bool {
    r.wf() && ceq(r.cval(), cmul(x, y))
}

/// `d` is the discriminant `b·b − (4·a)·c`, each product exact.
pub open spec fn disc_is(d: Value, a: CFrac, b: CFrac, c: CFrac) -> bool {
    exists|bb: Value, fa: Value, fac: Value| #[trigger] is_prod(bb, b, b) && #[trigger] is_prod(fa, (qint(4), czero_frac()), a)
        && #[trigger] is_prod(fac, fa.cval(), c) && d.wf() && ceq(d.cval(), csub(bb.cval(), fac.cval()))
}

/// `r` is `x`, exactly, in lowest terms.
pub open spec fn is_val(r: Value, x: CFrac) -> bool {
    r.wf() && ceq(r.cval(), x)
}

/// `x + s` when `plus`, else `x − s`.
pub open spec fn plus_minus(x: CFrac, s: CFrac, plus: bool) -> CFrac {
    if plus { cadd(x, s) } else { csub(x, s) }
}

/// `v` is `(−b − s) / (2·a)` (or `(−b + s) / (2·a)` when `plus`), exactly.
pub open spec fn root_is(v: Value, a: CFrac, b: CFrac, s: CFrac, plus: bool) -> bool {
    exists|nb: Value, num: Value, den: Value| #[trigger] is_prod(den, (qint(2), czero_frac()), a)
        && #[trigger] is_val(nb, cneg(b))
        && #[trigger] is_val(num, plus_minus(nb.cval(), s, plus))
        && is_val(v, cdiv(num.cval(), den.cval()))
}

/// `s` is the exact square root of the rational `d` (`i` times that of `−d`
/// for a negative `d`).
pub open spec fn is_sqrt(s: Value, d: Frac) -> bool {
    exists|nr: int, dr: int| #[trigger] exact_root_power(s, d, (1, 2), nr, dr)
}

/// `x <= y` for real numbers in lowest terms.
pub open spec fn real_le(x: Value, y: Value) -> bool {
    x.cval().0.0 * y.cval().0.1 <= y.cval().0.0 * x.cval().0.1
}

/// The two simple roots `v0`, `v1` are those of the formula, `lo` with `−s`
/// and `hi` with `+s`: in increasing order when both are real, else `lo` first.
pub open spec fn pair_ok(v0: Value, v1: Value, a: CFrac, b: CFrac, s: CFrac) -> bool {
    if v0 is Rational && v1 is Rational {
        real_le(v0, v1) && ((root_is(v0, a, b, s, false) && root_is(v1, a, b, s, true))
            || (root_is(v0, a, b, s, true) && root_is(v1, a, b, s, false)))
    } else {
        root_is(v0, a, b, s, false) && root_is(v1, a, b, s, true)
    }
}

/// What `uni_roots` gives for `a·t² + b·t + c`.
pub open spec fn uni_ok(a: CFrac, b: CFrac, c: CFrac, out: (Value, Option<Vec<(Value, usize)>>)) -> bool {
    &&& disc_is(out.0, a, b, c)
    &&& czero(out.0.cval()) ==> (out.1 matches Some(v) && v@.len() == 1 && v@[0].1 == 2
        && root_is(v@[0].0, a, b, (qint(0), czero_frac()), false))
    &&& !czero(out.0.cval()) ==> (out.1 is Some <==> (out.0 is Rational && has_exact_root(out.0.cval().0, (1, 2))))
    &&& !czero(out.0.cval()) ==> (out.1 matches Some(v) ==> v@.len() == 2 && v@[0].1 == 1 && v@[1].1 == 1
        && exists|s: Value| #[trigger] is_sqrt(s, out.0.cval().0) && pair_ok(v@[0].0, v@[1].0, a, b, s.cval()))
}

/// The roots of `a·t² + b·t + c` for `a ≠ 0`, with multiplicities, by the
/// quadratic formula, and the discriminant `d = b² − 4ac`: for `d = 0` the
/// double root `−b / 2a`; otherwise the two simple roots `(−b ∓ s) / 2a`,
/// given exactly when `d` is a rational number with an exact square root
/// `s` (for `d < 0`, `s` is imaginary), and `None` otherwise.
#[verifier::rlimit(40)]
pub fn uni_roots(a: &Value, b: &Value, c: &Value) -> (out: (Value, Option<Vec<(Value, usize)>>))
    requires
        a.wf(),
        b.wf(),
        c.wf(),
        !czero(a.cval()),
    ensures
        uni_ok(a.cval(), b.cval(), c.cval(), out),
{
    let four = Value::integer(4);
    let two = Value::integer(2);
    let bb = b.mul(b);
    let fa = four.mul(a);
    let fac = fa.mul(c);
    let d = bb.sub(&fac);
    assert(is_prod(bb, b.cval(), b.cval()) && is_prod(fa, (qint(4), czero_frac()), a.cval()) && is_prod(fac, fa.cval(), c.cval()));
    assert(disc_is(d, a.cval(), b.cval(), c.cval()));
    let nb = b.neg();
    let den = two.mul(a);
    proof {
        assert(nb.cval() == cneg(b.cval()) || ceq(nb.cval(), cneg(b.cval())));
        assert(ceq(nb.cval(), cneg(b.cval()))) by {
            if nb.cval() == cneg(b.cval()) {
                crate::rational::lemma_qeq_refl(nb.cval().0);
                crate::rational::lemma_qeq_refl(nb.cval().1);
            }
        }
        assert(is_prod(den, (qint(2), czero_frac()), a.cval()));
        lemma_twice_nonzero(den.cval(), a.cval());
    }
    if d.is_zero() {
        let z = Value::integer(0);
        let num = nb.sub(&z);
        let r = match num.div(&den) {
            Ok(v) => v,
            Err(_) => Value::integer(0),
        };
        assert(is_val(num, plus_minus(nb.cval(), (qint(0), czero_frac()), false)));
        assert(is_val(nb, cneg(b.cval())));
        assert(root_is(r, a.cval(), b.cval(), (qint(0), czero_frac()), false));
        let mut v: Vec<(Value, usize)> = Vec::new();
        v.push((r, 2));
        return (d, Some(v));
    }
    let s = match &d {
        Value::Rational(q) => {
            let half = Rat { num: Int::from_i64(1), den: Int::from_i64(2) };
            proof {
                reveal_with_fuel(crate::rational::gcd, 3);
                assert(half@ == (1int, 2int));
            }
            match exact_rational_power(q, &half) {
                Some(s) => s,
                None => {
                    return (d, None);
                },
            }
        },
        Value::ExactComplex(_) => {
            return (d, None);
        },
    };
    let lo_num = nb.sub(&s);
    let hi_num = nb.add(&s);
    let lo = match lo_num.div(&den) {
        Ok(v) => v,
        Err(_) => Value::integer(0),
    };
    let hi = match hi_num.div(&den) {
        Ok(v) => v,
        Err(_) => Value::integer(0),
    };
    assert(is_val(nb, cneg(b.cval())));
    assert(is_val(lo_num, plus_minus(nb.cval(), s.cval(), false)));
    assert(is_val(hi_num, plus_minus(nb.cval(), s.cval(), true)));
    assert(root_is(lo, a.cval(), b.cval(), s.cval(), false));
    assert(root_is(hi, a.cval(), b.cval(), s.cval(), true));
    assert(is_sqrt(s, d.cval().0));
    let mut v: Vec<(Value, usize)> = Vec::new();
    match (&lo, &hi) {
        (Value::Rational(x), Value::Rational(y)) => {
            let gap = y.sub(x);
            if gap.is_negative() {
                proof { lemma_sign(y@, x@, gap@); }
                v.push((hi, 1));
                v.push((lo, 1));
            } else {
                proof { lemma_sign(y@, x@, gap@); }
                v.push((lo, 1));
                v.push((hi, 1));
            }
        },
        _ => {
            v.push((lo, 1));
            v.push((hi, 1));
        },
    }
    (d, Some(v))
}

/// `2·a` is zero only when `a` is.
proof fn lemma_twice_nonzero(t: CFrac, y: CFrac)
    requires
        ceq(t, cmul((qint(2), czero_frac()), y)),
        t.0.1 > 0,
        t.1.1 > 0,
        y.0.1 > 0,
        y.1.1 > 0,
        !czero(y),
    ensures
        !czero(t),
{
    let p = cmul((qint(2), czero_frac()), y);
    assert(p.0 == (2 * y.0.0 * y.1.1 - 0 * y.1.0 * y.0.1, y.0.1 * y.1.1)) by (nonlinear_arith)
        requires p == cmul((qint(2), czero_frac()), y), {}
    assert(p.1 == (2 * y.1.0 * y.0.1 + 0 * y.0.0 * y.1.1, y.1.1 * y.0.1)) by (nonlinear_arith)
        requires p == cmul((qint(2), czero_frac()), y), {}
    if czero(t) {
        assert(y.0.0 == 0) by (nonlinear_arith)
            requires t.0.0 == 0, t.0.0 * p.0.1 == p.0.0 * t.0.1, p.0.0 == 2 * y.0.0 * y.1.1 - 0 * y.1.0 * y.0.1, y.1.1 > 0, t.0.1 > 0, {}
        assert(y.1.0 == 0) by (nonlinear_arith)
            requires t.1.0 == 0, t.1.0 * p.1.1 == p.1.0 * t.1.1, p.1.0 == 2 * y.1.0 * y.0.1 + 0 * y.0.0 * y.1.1, y.0.1 > 0, t.1.1 > 0, {}
    }
}

/// The sign of a difference in lowest terms tells the order.
proof fn lemma_sign(y: Frac, x: Frac, g: Frac)
    requires
        y.1 > 0,
        x.1 > 0,
        g.1 > 0,
        crate::rational::qeq(g, crate::rational::qsub(y, x)),
    ensures
        g.0 < 0 ==> y.0 * x.1 <= x.0 * y.1,
        g.0 >= 0 ==> x.0 * y.1 <= y.0 * x.1,
{
    assert(g.0 * (y.1 * x.1) == (y.0 * x.1 - x.0 * y.1) * g.1) by (nonlinear_arith)
        requires crate::rational::qeq(g, crate::rational::qsub(y, x)), crate::rational::qsub(y, x) == (y.0 * x.1 - x.0 * y.1, y.1 * x.1), {}
    assert(y.1 * x.1 > 0) by (nonlinear_arith) requires y.1 > 0, x.1 > 0, {}
    if g.0 < 0 {
        assert(y.0 * x.1 - x.0 * y.1 < 0) by (nonlinear_arith)
            requires g.0 * (y.1 * x.1) == (y.0 * x.1 - x.0 * y.1) * g.1, g.0 < 0, y.1 * x.1 > 0, g.1 > 0, {}
    } else {
        assert(y.0 * x.1 - x.0 * y.1 >= 0) by (nonlinear_arith)
            requires g.0 * (y.1 * x.1) == (y.0 * x.1 - x.0 * y.1) * g.1, g.0 >= 0, y.1 * x.1 > 0, g.1 > 0, {}
    }
}

/// The integer `k` as a complex number.
pub open spec fn cint(k: int) -> CFrac {
    (qint(k), czero_frac())
}

/// `e` with `t` put for `x`, evaluated on both sides: the first error, or
/// approximate when a side is, else the difference of the two sides.
pub open spec fn diff_of(el: EvalResult, er: EvalResult, r: Result<Option<Value>, EvalError>) -> bool {
    match (el, er) {
        (Err(e), _) => r == Err::<Option<Value>, EvalError>(e),
        (_, Err(e)) => r == Err::<Option<Value>, EvalError>(e),
        (Ok(None), _) => r == Ok::<Option<Value>, EvalError>(None),
        (_, Ok(None)) => r == Ok::<Option<Value>, EvalError>(None),
        (Ok(Some(a)), Ok(Some(b))) => r matches Ok(Some(v)) && is_val(v, csub(a.cval(), b.cval())),
    }
}

/// `r` is the value of `l − rr` at `x = t`, as `diff_of` tells it.
pub open spec fn value_at_is(l: SExpr, rr: SExpr, x: Seq<char>, t: CFrac, r: Result<Option<Value>, EvalError>) -> bool {
    exists|el: EvalResult, er: EvalResult| #[trigger] evaluates(ssubst(l, x, t), el) && #[trigger] evaluates(ssubst(rr, x, t), er)
        && diff_of(el, er, r)
}

fn value_at(eq: &Equation, x: &str, t: &Value) -> (r: Result<Option<Value>, EvalError>)
    requires
        swf(model(eq.lhs)),
        swf(model(eq.rhs)),
        t.wf(),
    ensures
        value_at_is(model(eq.lhs), model(eq.rhs), x@, t.cval(), r),
{
    let l = subst(&eq.lhs, x, t);
    let rr = subst(&eq.rhs, x, t);
    proof {
        lemma_value_frac_wf(*t);
        lemma_ssubst_wf(model(eq.lhs), x@, t.cval());
        lemma_ssubst_wf(model(eq.rhs), x@, t.cval());
    }
    let el = eval_exact(&l);
    let er = eval_exact(&rr);
    let ghost (gl, gr) = (el, er);
    let r = match (el, er) {
        (Err(e), _) => Err(e),
        (_, Err(e)) => Err(e),
        (Ok(None), _) => Ok(None),
        (_, Ok(None)) => Ok(None),
        (Ok(Some(a)), Ok(Some(b))) => Ok(Some(a.sub(&b))),
    };
    assert(evaluates(ssubst(model(eq.lhs), x@, t.cval()), gl) && evaluates(ssubst(model(eq.rhs), x@, t.cval()), gr) && diff_of(gl, gr, r));
    r
}

/// The parts of a value are fractions in lowest terms.
pub proof fn lemma_value_frac_wf(v: Value)
    requires
        v.wf(),
    ensures
        frac_wf(v.cval().0),
        frac_wf(v.cval().1),
{
    reveal_with_fuel(crate::rational::gcd, 2);
}

/// `t` solves `l = rr` in `x`: both sides evaluate exactly there, to the same value.
pub open spec fn solves(l: SExpr, rr: SExpr, x: Seq<char>, t: CFrac) -> bool {
    exists|v: Value| #[trigger] value_at_is(l, rr, x, t, Ok(Some(v))) && czero(v.cval())
}

/// The coefficients of the quadratic `a·t² + b·t + c` through the values
/// `p0`, `p1`, `p2` at 0, 1, 2: `c = p0`, `a = (p2 − 2·p1 + p0) / 2`,
/// `b = p1 − p0 − a`, each step exact.
pub open spec fn coeffs_is(p0: CFrac, p1: CFrac, p2: CFrac, a: Value, b: Value, c: Value) -> bool {
    exists|u: Value, w: Value, h: Value, g: Value| #[trigger] is_val(u, csub(p2, p1)) && #[trigger] is_val(w, csub(u.cval(), p1))
        && #[trigger] is_val(h, cadd(w.cval(), p0)) && is_val(a, cdiv(h.cval(), cint(2)))
        && #[trigger] is_val(g, csub(p1, p0)) && is_val(b, csub(g.cval(), a.cval())) && is_val(c, p0)
}

pub open spec fn root_line(x: Seq<char>, v: Value) -> Seq<char> {
    x + " = "@ + value_text(v)
}

/// One line `x = v` per root, in order.
pub open spec fn root_lines(x: Seq<char>, roots: Seq<(Value, usize)>) -> Seq<Seq<char>> {
    roots.map_values(|p: (Value, usize)| root_line(x, p.0))
}

pub open spec fn nonpoly_text(e: SExpr) -> Seq<char> {
    "'"@ + expr_text(e) + " = 0' isn't a polynomial equation; only polynomial equations can be solved exactly"@
}

pub open spec fn degree_text(e: SExpr) -> Seq<char> {
    "'"@ + expr_text(e) + " = 0' is not of degree 2 in one unknown; other polynomial equations are not solved"@
}

pub open spec fn irrational_text(d: Value) -> Seq<char> {
    "the discriminant "@ + value_text(d) + " has no exact square root, so the roots are not exact numbers"@
}

pub open spec fn unconfirmed_text() -> Seq<char> {
    "a root did not check out when substituted back"@
}

pub open spec fn always_text() -> Seq<char> {
    "The equation is always true."@
}

pub open spec fn never_text() -> Seq<char> {
    "No solution: the equation reduces to a false statement."@
}

pub open spec fn unsupported(r: Result<Outcome, Error>, m: Seq<char>) -> bool {
    r matches Err(Error::Solve(SolveError::Unsupported(s))) && s@ == m
}

/// The step shown with a worked answer: everything moved to one side.
pub open spec fn steps_are(steps: Seq<Step>, e: SExpr) -> bool {
    &&& steps.len() == 1
    &&& steps[0].description@ == "Move everything to one side"@
    &&& steps[0].snapshot@.len() == 1
    &&& steps[0].snapshot@[0]@ == expr_text(e) + " = 0"@
}

pub open spec fn answer_is(r: Result<Outcome, Error>, e: SExpr, m: Seq<char>) -> bool {
    r matches Ok(Outcome::Text { steps, answer }) && answer@ == m && steps_are(steps@, e)
}

/// The check of a root: the value of the equation there is exactly zero.
pub open spec fn checks_out(c: Result<Option<Value>, EvalError>) -> bool {
    c matches Ok(Some(v)) && czero(v.cval())
}

/// The outcome once the roots are known: each root is substituted back
/// (`checks`), and the roots are the answer when every one checks out.
pub open spec fn roots_outcome(l: SExpr, rr: SExpr, x: Seq<char>, roots: Seq<(Value, usize)>, r: Result<Outcome, Error>) -> bool {
    exists|checks: Seq<Result<Option<Value>, EvalError>>| #[trigger] checks.len() == roots.len()
        && (forall|k: int| 0 <= k < roots.len() ==> #[trigger] value_at_is(l, rr, x, roots[k].0.cval(), checks[k]))
        && if forall|k: int| 0 <= k < roots.len() ==> #[trigger] checks_out(checks[k]) {
            answer_is(r, SExpr::Sub(Box::new(l), Box::new(rr)), join_text(root_lines(x, roots), "\n"@))
        } else {
            unsupported(r, unconfirmed_text())
        }
}

/// `|d|` for a real `d`.
pub open spec fn cabs_real(d: CFrac) -> CFrac {
    if d.0.0 < 0 { cneg(d) } else { d }
}

/// The parts of irrational roots `p ∓ sqrt(q)` (`p ∓ i·sqrt(q)` for a
/// negative discriminant `d`): `p = −b / 2a`, `q = (|d| / 2a) / 2a`, each
/// step exact.
pub open spec fn surd_parts(a: CFrac, b: CFrac, d: CFrac, p: Value, q: Value) -> bool {
    exists|nb: Value, den: Value, ad: Value, t: Value|
        #[trigger] is_val(nb, cneg(b)) && #[trigger] is_prod(den, cint(2), a) && is_val(p, cdiv(nb.cval(), den.cval()))
        && #[trigger] is_val(ad, cabs_real(d)) && #[trigger] is_val(t, cdiv(ad.cval(), den.cval()))
        && is_val(q, cdiv(t.cval(), den.cval()))
}

/// The line `x = p − sqrt(q)` (`+` when `plus`; `i·sqrt(q)` when
/// `imaginary`; `p` left out when it is zero).
pub open spec fn surd_line(x: Seq<char>, p: Value, q: Value, imaginary: bool, plus: bool) -> Seq<char> {
    let root = (if imaginary { "i·sqrt("@ } else { "sqrt("@ }) + value_text(q) + ")"@;
    let lead = if czero(p.cval()) {
        if plus { ""@ } else { "-"@ }
    } else {
        value_text(p) + if plus { " + "@ } else { " - "@ }
    };
    x + " = "@ + lead + root
}

/// The outcome from the coefficients of the quadratic.
pub open spec fn coeffs_outcome(l: SExpr, rr: SExpr, x: Seq<char>, a: Value, b: Value, c: Value, r: Result<Outcome, Error>) -> bool {
    if czero(a.cval()) {
        if czero(b.cval()) {
            answer_is(r, SExpr::Sub(Box::new(l), Box::new(rr)), if czero(c.cval()) { always_text() } else { never_text() })
        } else {
            exists|t: Value, nc: Value| #[trigger] is_val(nc, crate::complex::cneg(c.cval())) && #[trigger] is_val(t, cdiv(nc.cval(), b.cval()))
                && roots_outcome(l, rr, x, seq![(t, 1usize)], r)
        }
    } else {
        exists|out: (Value, Option<Vec<(Value, usize)>>)| #[trigger] uni_ok(a.cval(), b.cval(), c.cval(), out) && match out.1 {
            None => if a is Rational && b is Rational && out.0 is Rational {
                exists|p: Value, q: Value| #[trigger] surd_parts(a.cval(), b.cval(), out.0.cval(), p, q)
                    && answer_is(r, SExpr::Sub(Box::new(l), Box::new(rr)),
                        surd_line(x, p, q, out.0.cval().0.0 < 0, false) + "\n"@ + surd_line(x, p, q, out.0.cval().0.0 < 0, true))
            } else {
                unsupported(r, irrational_text(out.0))
            },
            Some(v) => roots_outcome(l, rr, x, v@, r),
        }
    }
}

/// The outcome from the values of the equation at 0, 1 and 2.
pub open spec fn samples_outcome(
    l: SExpr,
    rr: SExpr,
    x: Seq<char>,
    s0: Result<Option<Value>, EvalError>,
    s1: Result<Option<Value>, EvalError>,
    s2: Result<Option<Value>, EvalError>,
    r: Result<Outcome, Error>,
) -> bool {
    match (s0, s1, s2) {
        (Err(e), _, _) => r == Err::<Outcome, Error>(Error::Eval(e)),
        (_, Err(e), _) => r == Err::<Outcome, Error>(Error::Eval(e)),
        (_, _, Err(e)) => r == Err::<Outcome, Error>(Error::Eval(e)),
        (Ok(Some(p0)), Ok(Some(p1)), Ok(Some(p2))) => exists|a: Value, b: Value, c: Value|
            #[trigger] coeffs_is(p0.cval(), p1.cval(), p2.cval(), a, b, c) && coeffs_outcome(l, rr, x, a, b, c, r),
        _ => r matches Ok(Outcome::Approximate),
    }
}

/// The unknown of an equation: the first of its left side, else of its right side.
pub open spec fn unknown_of(l: SExpr, rr: SExpr) -> Option<Seq<char>> {
    if first_var(l) is Some { first_var(l) } else { first_var(rr) }
}

/// What solving the polynomial equation `l = rr` gives.
pub open spec fn poly_outcome(l: SExpr, rr: SExpr, r: Result<Outcome, Error>) -> bool {
    let e = SExpr::Sub(Box::new(l), Box::new(rr));
    if !poly_ok(l) || !poly_ok(rr) {
        unsupported(r, nonpoly_text(e))
    } else {
        match unknown_of(l, rr) {
            Some(x) if quad_deg(l, x) is Some && quad_deg(l, x)->Some_0 <= 2 && quad_deg(rr, x) is Some
                && quad_deg(rr, x)->Some_0 <= 2 => exists|s0: Result<Option<Value>, EvalError>,
                s1: Result<Option<Value>, EvalError>, s2: Result<Option<Value>, EvalError>|
                #[trigger] value_at_is(l, rr, x, cint(0), s0) && #[trigger] value_at_is(l, rr, x, cint(1), s1)
                && #[trigger] value_at_is(l, rr, x, cint(2), s2) && samples_outcome(l, rr, x, s0, s1, s2, r),
            _ => unsupported(r, degree_text(e)),
        }
    }
}

/// The step shown with a worked answer.
fn one_side_steps(diff: &Expr) -> (r: Vec<Step>)
    requires
        swf(model(*diff)),
    ensures
        steps_are(r@, model(*diff)),
{
    let mut line = display(diff);
    line.append(" = 0");
    let mut snap: Vec<String> = Vec::new();
    snap.push(line);
    let mut steps: Vec<Step> = Vec::new();
    steps.push(Step { description: String::from_str("Move everything to one side"), snapshot: snap });
    steps
}

/// Substitute each root back, and answer with the roots when all check out.
fn finish(eq: &Equation, diff: &Expr, x: &String, roots: Vec<(Value, usize)>) -> (r: Result<Outcome, Error>)
    requires
        swf(model(eq.lhs)),
        swf(model(eq.rhs)),
        model(*diff) == SExpr::Sub(Box::new(model(eq.lhs)), Box::new(model(eq.rhs))),
        forall|k: int| 0 <= k < roots@.len() ==> (#[trigger] roots@[k]).0.wf(),
    ensures
        roots_outcome(model(eq.lhs), model(eq.rhs), x@, roots@, r),
{
    let ghost (l, rr) = (model(eq.lhs), model(eq.rhs));
    let ghost mut checks: Seq<Result<Option<Value>, EvalError>> = Seq::empty();
    let mut ok = true;
    let mut lines: Vec<String> = Vec::new();
    let mut k: usize = 0;
    while k < roots.len()
        invariant
            k <= roots@.len(),
            swf(model(eq.lhs)),
            swf(model(eq.rhs)),
            l == model(eq.lhs),
            rr == model(eq.rhs),
            forall|j: int| 0 <= j < roots@.len() ==> (#[trigger] roots@[j]).0.wf(),
            checks.len() == k,
            forall|j: int| 0 <= j < k ==> #[trigger] value_at_is(l, rr, x@, roots@[j].0.cval(), checks[j]),
            ok == forall|j: int| 0 <= j < k ==> #[trigger] checks_out(checks[j]),
            names(lines@) == root_lines(x@, roots@.take(k as int)),
        decreases roots@.len() - k,
    {
        let t = &roots[k].0;
        let c = value_at(eq, x.as_str(), t);
        let good = match &c {
            Ok(Some(v)) => v.is_zero(),
            _ => false,
        };
        let ghost old = checks;
        proof {
            checks = checks.push(c);
            assert forall|j: int| 0 <= j < k + 1 implies #[trigger] value_at_is(l, rr, x@, roots@[j].0.cval(), checks[j]) by {
                if j < k {
                    assert(checks[j] == old[j]);
                }
            }
        }
        assert(good == checks_out(checks[k as int]));
        if !good {
            ok = false;
        }
        assert(ok == forall|j: int| 0 <= j < k + 1 ==> #[trigger] checks_out(checks[j])) by {
            assert forall|j: int| 0 <= j < k implies checks[j] == old[j] by {}
            if !good {
                assert(!checks_out(checks[k as int]));
            }
        }
        let mut line = x.clone();
        line.append(" = ");
        let vt = format_value(t);
        line.append(vt.as_str());
        let ghost before = lines@;
        lines.push(line);
        proof {
            assert(roots@.take(k + 1) =~= roots@.take(k as int).push(roots@[k as int]));
            assert(names(lines@) =~= names(before).push(root_line(x@, roots@[k as int].0)));
            assert(root_lines(x@, roots@.take(k + 1)) =~= root_lines(x@, roots@.take(k as int)).push(root_line(x@, roots@[k as int].0)));
        }
        k = k + 1;
    }
    proof {
        assert(roots@.take(k as int) =~= roots@);
        assert(checks.len() == roots@.len());
    }
    if ok {
        let answer = join(&lines, "\n");
        let steps = one_side_steps(diff);
        let r = Ok(Outcome::Text { steps, answer });
        assert(answer_is(r, SExpr::Sub(Box::new(l), Box::new(rr)), join_text(root_lines(x@, roots@), "\n"@)));
        r
    } else {
        Err(Error::Solve(SolveError::Unsupported(String::from_str("a root did not check out when substituted back"))))
    }
}

/// Solve one polynomial equation of degree 2 (or less) in one unknown: the
/// value of `lhs − rhs` at 0, 1 and 2 gives the coefficients `a`, `b`, `c`;
/// the quadratic formula (or, when `a = 0`, the linear one) gives the
/// roots, which are answered, one line `x = root` each, once each has been
/// substituted back and found to make both sides equal; irrational roots of
/// an equation with rational coefficients are answered as `x = p ∓ sqrt(q)`.
/// Equations that are
/// not polynomial, or not of degree at most 2 in one unknown, are refused;
/// an evaluation error is reported; an approximate side makes the answer
/// approximate.
pub fn solve_polynomial(eq: &Equation) -> (r: Result<Outcome, Error>)
    requires
        swf(model(eq.lhs)),
        swf(model(eq.rhs)),
    ensures
        poly_outcome(model(eq.lhs), model(eq.rhs), r),
{
    let ghost (l, rr) = (model(eq.lhs), model(eq.rhs));
    let diff = Expr::Sub(Box::new(copy_expr(&eq.lhs)), Box::new(copy_expr(&eq.rhs)));
    assert(model(diff) == SExpr::Sub(Box::new(l), Box::new(rr)));
    if !poly_ok_exec(&eq.lhs) || !poly_ok_exec(&eq.rhs) {
        let mut m = String::from_str("'");
        let d = display(&diff);
        m.append(d.as_str());
        m.append(" = 0' isn't a polynomial equation; only polynomial equations can be solved exactly");
        return Err(Error::Solve(SolveError::Unsupported(m)));
    }
    let found = match first_var_exec(&eq.lhs) {
        Some(s) => Some(s),
        None => first_var_exec(&eq.rhs),
    };
    let degree_ok = match &found {
        Some(x) => {
            let dl = quad_deg_exec(&eq.lhs, x.as_str());
            let dr = quad_deg_exec(&eq.rhs, x.as_str());
            match (dl, dr) {
                (Some(a), Some(b)) => a <= 2 && b <= 2,
                _ => false,
            }
        },
        None => false,
    };
    if !degree_ok {
        let mut m = String::from_str("'");
        let d = display(&diff);
        m.append(d.as_str());
        m.append(" = 0' is not of degree 2 in one unknown; other polynomial equations are not solved");
        return Err(Error::Solve(SolveError::Unsupported(m)));
    }
    let x = match found {
        Some(x) => x,
        None => String::new(),
    };
    assert(unknown_of(l, rr) == Some(x@));
    let z0 = Value::integer(0);
    let z1 = Value::integer(1);
    let z2 = Value::integer(2);
    let s0 = value_at(eq, x.as_str(), &z0);
    let s1 = value_at(eq, x.as_str(), &z1);
    let s2 = value_at(eq, x.as_str(), &z2);
    let ghost (g0, g1, g2) = (s0, s1, s2);
    assert(value_at_is(l, rr, x@, cint(0), g0) && value_at_is(l, rr, x@, cint(1), g1) && value_at_is(l, rr, x@, cint(2), g2));
    let r = match (s0, s1, s2) {
        (Err(e), _, _) => Err(Error::Eval(e)),
        (_, Err(e), _) => Err(Error::Eval(e)),
        (_, _, Err(e)) => Err(Error::Eval(e)),
        (Ok(Some(p0)), Ok(Some(p1)), Ok(Some(p2))) => {
            let u = p2.sub(&p1);
            let w = u.sub(&p1);
            let h = w.add(&p0);
            let a = match h.div(&z2) {
                Ok(v) => v,
                Err(_) => Value::integer(0),
            };
            let g = p1.sub(&p0);
            let b = g.sub(&a);
            let c = p0.copy();
            assert(is_val(u, csub(p2.cval(), p1.cval())) && is_val(w, csub(u.cval(), p1.cval())) && is_val(h, cadd(w.cval(), p0.cval()))
                && is_val(g, csub(p1.cval(), p0.cval())));
            assert(coeffs_is(p0.cval(), p1.cval(), p2.cval(), a, b, c));
            let r = from_coeffs(eq, &diff, &x, &a, &b, &c);
            r
        },
        _ => Ok(Outcome::Approximate),
    };
    r
}

/// The roots from the coefficients, checked.
fn from_coeffs(eq: &Equation, diff: &Expr, x: &String, a: &Value, b: &Value, c: &Value) -> (r: Result<Outcome, Error>)
    requires
        swf(model(eq.lhs)),
        swf(model(eq.rhs)),
        model(*diff) == SExpr::Sub(Box::new(model(eq.lhs)), Box::new(model(eq.rhs))),
        a.wf(),
        b.wf(),
        c.wf(),
    ensures
        coeffs_outcome(model(eq.lhs), model(eq.rhs), x@, *a, *b, *c, r),
{
    let ghost (l, rr) = (model(eq.lhs), model(eq.rhs));
    if a.is_zero() {
        if b.is_zero() {
            let answer = if c.is_zero() {
                String::from_str("The equation is always true.")
            } else {
                String::from_str("No solution: the equation reduces to a false statement.")
            };
            let steps = one_side_steps(diff);
            Ok(Outcome::Text { steps, answer })
        } else {
            let nc = c.neg();
            proof {
                if nc.cval() == crate::complex::cneg(c.cval()) {
                    assert(ceq(nc.cval(), crate::complex::cneg(c.cval())));
                }
            }
            let t = match nc.div(b) {
                Ok(v) => v,
                Err(_) => Value::integer(0),
            };
            assert(is_val(nc, crate::complex::cneg(c.cval())) && is_val(t, cdiv(nc.cval(), b.cval())));
            let mut roots: Vec<(Value, usize)> = Vec::new();
            roots.push((t, 1));
            assert(roots@ =~= seq![(t, 1usize)]);
            finish(eq, diff, x, roots)
        }
    } else {
        let out = uni_roots(a, b, c);
        let ghost gout = out;
        let (d, found) = out;
        match found {
            None => {
                if a.is_rational() && b.is_rational() && d.is_rational() {
                    surd_answer(diff, x, a, b, &d)
                } else {
                    let mut m = String::from_str("the discriminant ");
                    let dt = format_value(&d);
                    m.append(dt.as_str());
                    m.append(" has no exact square root, so the roots are not exact numbers");
                    Err(Error::Solve(SolveError::Unsupported(m)))
                }
            },
            Some(v) => {
                proof {
                    assert forall|k: int| 0 <= k < v@.len() implies (#[trigger] v@[k]).0.wf() by {
                        lemma_roots_wf(a.cval(), b.cval(), c.cval(), gout, k);
                    }
                }
                finish(eq, diff, x, v)
            },
        }
    }
}

fn surd_line_exec(x: &String, p: &Value, q: &Value, imaginary: bool, plus: bool) -> (r: String)
    requires
        p.wf(),
        q.wf(),
    ensures
        r@ == surd_line(x@, *p, *q, imaginary, plus),
{
    let lead = if p.is_zero() {
        if plus { String::new() } else { String::from_str("-") }
    } else {
        let mut l = format_value(p);
        if plus {
            l.append(" + ");
        } else {
            l.append(" - ");
        }
        l
    };
    let mut root = if imaginary { String::from_str("i·sqrt(") } else { String::from_str("sqrt(") };
    let qt = format_value(q);
    root.append(qt.as_str());
    root.append(")");
    let mut line = x.clone();
    line.append(" = ");
    line.append(lead.as_str());
    line.append(root.as_str());
    proof {
        reveal_strlit("");
    }
    line
}

/// The irrational roots `p ∓ sqrt(q)` of a quadratic with rational coefficients.
fn surd_answer(diff: &Expr, x: &String, a: &Value, b: &Value, d: &Value) -> (r: Result<Outcome, Error>)
    requires
        swf(model(*diff)),
        a.wf(),
        b.wf(),
        d.wf(),
        a is Rational,
        b is Rational,
        d is Rational,
        !czero(a.cval()),
    ensures
        exists|p: Value, q: Value| #[trigger] surd_parts(a.cval(), b.cval(), d.cval(), p, q)
            && answer_is(r, model(*diff),
                surd_line(x@, p, q, d.cval().0.0 < 0, false) + "\n"@ + surd_line(x@, p, q, d.cval().0.0 < 0, true)),
{
    let two = Value::integer(2);
    let nb = b.neg();
    proof {
        if nb.cval() == cneg(b.cval()) {
            assert(ceq(nb.cval(), cneg(b.cval())));
        }
    }
    let den = two.mul(a);
    proof { lemma_twice_nonzero(den.cval(), a.cval()); }
    let p = match nb.div(&den) {
        Ok(v) => v,
        Err(_) => Value::integer(0),
    };
    let neg = d.is_negative_rational();
    let ad = if neg { d.neg() } else { d.copy() };
    proof {
        if ad.cval() == cneg(d.cval()) || ad.cval() == d.cval() {
            assert(ceq(ad.cval(), cabs_real(d.cval())));
        }
    }
    let t = match ad.div(&den) {
        Ok(v) => v,
        Err(_) => Value::integer(0),
    };
    let q = match t.div(&den) {
        Ok(v) => v,
        Err(_) => Value::integer(0),
    };
    assert(is_val(nb, cneg(b.cval())) && is_prod(den, cint(2), a.cval()));
    assert(is_val(p, cdiv(nb.cval(), den.cval())));
    assert(is_val(ad, cabs_real(d.cval())) && is_val(t, cdiv(ad.cval(), den.cval())));
    assert(is_val(q, cdiv(t.cval(), den.cval())));
    assert(surd_parts(a.cval(), b.cval(), d.cval(), p, q));
    let mut answer = surd_line_exec(x, &p, &q, neg, false);
    answer.append("\n");
    let second = surd_line_exec(x, &p, &q, neg, true);
    answer.append(second.as_str());
    let steps = one_side_steps(diff);
    Ok(Outcome::Text { steps, answer })
}

proof fn lemma_roots_wf(a: CFrac, b: CFrac, c: CFrac, out: (Value, Option<Vec<(Value, usize)>>), k: int)
    requires
        uni_ok(a, b, c, out),
        out.1 is Some,
        0 <= k < out.1->Some_0@.len(),
    ensures
        out.1->Some_0@[k].0.wf(),
{
    let v = out.1->Some_0@;
    if czero(out.0.cval()) {
        let (nb, num, den) = choose|nb: Value, num: Value, den: Value| #[trigger] is_prod(den, (qint(2), czero_frac()), a)
            && #[trigger] is_val(nb, cneg(b)) && #[trigger] is_val(num, plus_minus(nb.cval(), (qint(0), czero_frac()), false))
            && is_val(v[0].0, cdiv(num.cval(), den.cval()));
    } else {
        let s = choose|s: Value| #[trigger] is_sqrt(s, out.0.cval().0) && pair_ok(v[0].0, v[1].0, a, b, s.cval());
        let x = if k == 0 { v[0].0 } else { v[1].0 };
        assert(root_is(x, a, b, s.cval(), false) || root_is(x, a, b, s.cval(), true));
        let plus = root_is(x, a, b, s.cval(), true);
        let (nb, num, den) = choose|nb: Value, num: Value, den: Value| #[trigger] is_prod(den, (qint(2), czero_frac()), a)
            && #[trigger] is_val(nb, cneg(b)) && #[trigger] is_val(num, plus_minus(nb.cval(), s.cval(), plus))
            && is_val(x, cdiv(num.cval(), den.cval()));
    }
}

/// Every root in a worked polynomial answer solves the equation: put for
/// the unknown, it makes both sides evaluate exactly to the same value.
pub proof fn law_reported_roots_solve(
    l: SExpr,
    rr: SExpr,
    x: Seq<char>,
    roots: Seq<(Value, usize)>,
    r: Result<Outcome, Error>,
)
    requires
        roots_outcome(l, rr, x, roots, r),
        r is Ok,
    ensures
        forall|k: int| 0 <= k < roots.len() ==> #[trigger] solves(l, rr, x, roots[k].0.cval()),
{
    let checks = choose|checks: Seq<Result<Option<Value>, EvalError>>| #[trigger] checks.len() == roots.len()
        && (forall|k: int| 0 <= k < roots.len() ==> #[trigger] value_at_is(l, rr, x, roots[k].0.cval(), checks[k]))
        && if forall|k: int| 0 <= k < roots.len() ==> #[trigger] checks_out(checks[k]) {
            answer_is(r, SExpr::Sub(Box::new(l), Box::new(rr)), join_text(root_lines(x, roots), "\n"@))
        } else {
            unsupported(r, unconfirmed_text())
        };
    assert forall|k: int| 0 <= k < roots.len() implies #[trigger] solves(l, rr, x, roots[k].0.cval()) by {
        assert(checks_out(checks[k]));
        let v = checks[k]->Ok_0->Some_0;
        assert(value_at_is(l, rr, x, roots[k].0.cval(), Ok(Some(v))));
    }
}

/// The degree of `e` as a polynomial in the unknown `x` alone, by the usual
/// rules: a constant has degree 0 and `x` degree 1; a sum or difference has
/// at most the larger degree of its terms; a product the sum of its factors'
/// degrees; a quotient by a constant the degree of the dividend; a power
/// `p^k` with a whole number `k` the degree of `p` times `k`. `None` when `e`
/// is not such a polynomial (another unknown, a function of `x`, ...).
pub open spec fn degree_in(e: SExpr, x: Seq<char>) -> Option<nat>
    decreases e,
{
    if !has_vars(e) {
        Some(0)
    } else {
        match e {
            SExpr::Var(n) => if n == x { Some(1) } else { None },
            SExpr::Add(a, b) => match (degree_in(*a, x), degree_in(*b, x)) {
                (Some(da), Some(db)) => Some(if da >= db { da } else { db }),
                _ => None,
            },
            SExpr::Sub(a, b) => match (degree_in(*a, x), degree_in(*b, x)) {
                (Some(da), Some(db)) => Some(if da >= db { da } else { db }),
                _ => None,
            },
            SExpr::Mul(a, b) => match (degree_in(*a, x), degree_in(*b, x)) {
                (Some(da), Some(db)) => Some(da + db),
                _ => None,
            },
            SExpr::Neg(a) => degree_in(*a, x),
            SExpr::Div(a, b) => if has_vars(*b) { None } else { degree_in(*a, x) },
            SExpr::Pow(a, b) => match (degree_in(*a, x), *b) {
                (Some(da), SExpr::Num(c)) => if whole(c) { Some((da * c.0.0) as nat) } else { None },
                _ => None,
            },
            _ => None,
        }
    }
}

/// The solver's degree is the degree of the polynomial, told apart up to 3.
proof fn lemma_degree_in(e: SExpr, x: Seq<char>)
    requires
        degree_in(e, x) is Some,
    ensures
        quad_deg(e, x) == Some(cap3(degree_in(e, x)->Some_0)),
        poly_ok(e),
    decreases e,
{
    if has_vars(e) {
        match e {
            SExpr::Add(a, b) => { lemma_degree_in(*a, x); lemma_degree_in(*b, x); },
            SExpr::Sub(a, b) => { lemma_degree_in(*a, x); lemma_degree_in(*b, x); },
            SExpr::Mul(a, b) => { lemma_degree_in(*a, x); lemma_degree_in(*b, x); },
            SExpr::Neg(a) => { lemma_degree_in(*a, x); },
            SExpr::Div(a, b) => { lemma_degree_in(*a, x); },
            SExpr::Pow(a, b) => {
                lemma_degree_in(*a, x);
                let da = degree_in(*a, x)->Some_0;
                let c = b->Num_0;
                let k = c.0.0;
                assert(cap3((cap3(da) * k) as nat) == cap3((da * k) as nat)) by (nonlinear_arith)
                    requires k >= 0, cap3(da) == (if da > 3 { 3 } else { da }),
                        cap3((cap3(da) * k) as nat) == (if cap3(da) * k > 3 { 3 } else { cap3(da) * k }),
                        cap3((da * k) as nat) == (if da * k > 3 { 3 } else { da * k }), {}
            },
            _ => {},
        }
    }
}

/// An equation in one unknown whose sides are polynomials of degree at most 2
/// (by the usual rules: `x·(x − 3)` has degree 2) is always taken to the
/// quadratic solver, never refused for its degree: its values at 0, 1 and 2
/// are worked out and the answer follows from them.
pub proof fn law_low_degree_is_solved(l: SExpr, rr: SExpr, r: Result<Outcome, Error>)
    requires
        poly_outcome(l, rr, r),
        unknown_of(l, rr) is Some,
        degree_in(l, unknown_of(l, rr)->Some_0) matches Some(dl) && dl <= 2,
        degree_in(rr, unknown_of(l, rr)->Some_0) matches Some(dr) && dr <= 2,
    ensures
        exists|s0: Result<Option<Value>, EvalError>, s1: Result<Option<Value>, EvalError>, s2: Result<Option<Value>, EvalError>|
            #[trigger] value_at_is(l, rr, unknown_of(l, rr)->Some_0, cint(0), s0)
            && #[trigger] value_at_is(l, rr, unknown_of(l, rr)->Some_0, cint(1), s1)
            && #[trigger] value_at_is(l, rr, unknown_of(l, rr)->Some_0, cint(2), s2)
            && samples_outcome(l, rr, unknown_of(l, rr)->Some_0, s0, s1, s2, r),
{
    let x = unknown_of(l, rr)->Some_0;
    lemma_degree_in(l, x);
    lemma_degree_in(rr, x);
}

} // verus!
