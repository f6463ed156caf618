//! Linear forms of expressions: coefficients of the unknowns, in order of
//! first appearance, and a constant.

use vstd::prelude::*;
use vstd::string::*;
use crate::ast::{Expr, SExpr, model, models, lemma_models, swf, swf_from, lemma_swf_from, name_count, names_from};
use crate::builtins::{is_constant, constant_names};
use crate::complex::{CFrac, ceq, cadd, cmul, cdiv, czero};
use crate::error::EvalError;
use crate::eval::{EvalResult, evaluates, eval_exact, is_int};
use crate::format::{display, expr_text};
use crate::power::cone;
use crate::rational::qint;
use crate::solve::{SolveError, Solve, Step};
use crate::parser::{Equation, equation_model};
use crate::linear::{Solution, eliminate, solution_ok, mat, matrix_ok, snapshot_is, step_shows, trace_ok, fmt_combo, combo_text, const_start};
use crate::text::str_eq;
use crate::value::{Value, czero_frac};

verus! {

/// Whether an expression mentions an unknown (a name that is not a constant).
pub open spec fn has_vars(e: SExpr) -> bool
    decreases e, 0int,
{
    match e {
        SExpr::Num(_) => false,
        SExpr::Var(n) => !constant_names().contains(n),
        SExpr::Add(a, b) => has_vars(*a) || has_vars(*b),
        SExpr::Sub(a, b) => has_vars(*a) || has_vars(*b),
        SExpr::Mul(a, b) => has_vars(*a) || has_vars(*b),
        SExpr::Div(a, b) => has_vars(*a) || has_vars(*b),
        SExpr::Pow(a, b) => has_vars(*a) || has_vars(*b),
        SExpr::Neg(a) => has_vars(*a),
        SExpr::Factorial(a) => has_vars(*a),
        SExpr::Call(_, args) => has_vars_from(args, 0),
    }
}

pub open spec fn has_vars_from(args: Seq<SExpr>, k: int) -> bool
    decreases args, args.len() - k,
{
    if k < 0 || k >= args.len() {
        false
    } else {
        has_vars(args[k]) || has_vars_from(args, k + 1)
    }
}

pub(crate) fn has_vars_exec(e: &Expr) -> (r: bool)
    ensures
        r == has_vars(model(*e)),
    decreases e,
{
    match e {
        Expr::Num(_) => false,
        Expr::Var(n) => !is_constant(n.as_str()),
        Expr::Add(a, b) | Expr::Sub(a, b) | Expr::Mul(a, b) | Expr::Div(a, b) | Expr::Pow(a, b) => {
            has_vars_exec(a) || has_vars_exec(b)
        },
        Expr::Neg(a) | Expr::Factorial(a) => has_vars_exec(a),
        Expr::Call(_, args) => {
            let ghost margs = models(args@);
            proof { lemma_models(args@); }
            let mut k: usize = args.len();
            let mut found = false;
            while k > 0
                invariant
                    k <= args@.len(),
                    *e == Expr::Call(e->Call_0, *args),
                    margs == models(args@),
                    margs.len() == args@.len(),
                    forall|j: int| 0 <= j < args@.len() ==> #[trigger] margs[j] == model(args@[j]),
                    found == has_vars_from(margs, k as int),
                decreases k,
            {
                k = k - 1;
                proof {
                    assert(decreases_to!(*e => e->Call_1));
                    assert(decreases_to!(e->Call_1 => e->Call_1@));
                    assert(decreases_to!(e->Call_1@ => e->Call_1@[k as int]));
                }
                let h = has_vars_exec(&args[k]);
                found = h || found;
            }
            found
        },
    }
}

/// A linear form: coefficients of the unknowns (in order) and a constant.
pub type LForm = (Seq<Value>, Value);

pub type LRes = Result<Option<LForm>, SolveError>;

/// Coefficient `j` of a form; 0 beyond its end.
pub open spec fn coef(cs: Seq<Value>, j: int) -> CFrac {
    if 0 <= j < cs.len() { cs[j].cval() } else { (qint(0), czero_frac()) }
}

pub open spec fn form_wf(l: LForm) -> bool {
    (forall|j: int| 0 <= j < l.0.len() ==> (#[trigger] l.0[j]).wf()) && l.1.wf()
}

/// All coefficients are zero.
pub open spec fn is_const_form(l: LForm) -> bool {
    forall|j: int| 0 <= j < l.0.len() ==> czero(#[trigger] l.0[j].cval())
}

pub open spec fn add_ok(a: LForm, b: LForm, r: LForm) -> bool {
    &&& form_wf(r)
    &&& r.0.len() == if a.0.len() >= b.0.len() { a.0.len() } else { b.0.len() }
    &&& forall|j: int| 0 <= j < r.0.len() ==> ceq(#[trigger] r.0[j].cval(), cadd(coef(a.0, j), coef(b.0, j)))
    &&& ceq(r.1.cval(), cadd(a.1.cval(), b.1.cval()))
}

pub open spec fn scale_ok(a: LForm, k: CFrac, r: LForm) -> bool {
    &&& form_wf(r)
    &&& r.0.len() == a.0.len()
    &&& forall|j: int| 0 <= j < r.0.len() ==> ceq(#[trigger] r.0[j].cval(), cmul(a.0[j].cval(), k))
    &&& ceq(r.1.cval(), cmul(a.1.cval(), k))
}

pub open spec fn minus_one_c() -> CFrac {
    (qint(-1), czero_frac())
}

/// The order of unknowns with `n` added at the end if it is new.
pub open spec fn with_name(ord: Seq<Seq<char>>, n: Seq<char>) -> Seq<Seq<char>> {
    if ord.contains(n) { ord } else { ord.push(n) }
}

/// The form of the unknown at index `i` among `len`.
pub open spec fn unit_form(r: LRes, i: int, len: nat) -> bool {
    &&& r matches Ok(Some(l))
    &&& form_wf(l)
    &&& l.0.len() == len
    &&& 0 <= i < len
    &&& l.0[i].cval() == cone()
    &&& forall|j: int| 0 <= j < len && j != i ==> czero(#[trigger] l.0[j].cval())
    &&& l.1.cval() == (qint(0), czero_frac())
}

/// A result that stops the extraction: an error, or an approximate constant.
pub open spec fn lstops(x: LRes, r: LRes) -> bool {
    match x {
        Err(e) => r == Err::<Option<LForm>, SolveError>(e),
        Ok(None) => r == Ok::<Option<LForm>, SolveError>(None),
        Ok(Some(_)) => false,
    }
}

pub open spec fn lift(ev: EvalResult) -> LRes {
    match ev {
        Err(x) => Err(SolveError::Eval(x)),
        Ok(None) => Ok(None),
        Ok(Some(v)) => Ok(Some((seq![], v))),
    }
}

pub open spec fn nonlinear_text(e: SExpr) -> Seq<char> {
    "'"@ + expr_text(e) + "' is not linear; only linear equations can be solved so far"@
}

pub open spec fn nonlinear_err(r: LRes, e: SExpr) -> bool {
    r matches Err(SolveError::Unsupported(m)) && m@ == nonlinear_text(e)
}

/// What extracting a linear form records: the result, the order of unknowns
/// after it, the value of an evaluated constant part, the records of the
/// operands, and an intermediate form or value.
pub struct LTrace {
    pub res: LRes,
    pub ord: Seq<Seq<char>>,
    pub ev: EvalResult,
    pub kids: Seq<LTrace>,
    pub mid: Option<LForm>,
    pub aux: Option<Value>,
}

/// `t` records extracting the linear form of `e` with the unknowns `ord0`
/// seen before: constant parts are evaluated, sums and differences combine
/// coefficients, products and quotients need a constant side, powers need
/// an exponent of 0 or 1; anything else is not linear.
pub open spec fn lin_ok(e: SExpr, ord0: Seq<Seq<char>>, t: LTrace) -> bool
    decreases e, 0int,
{
    let r = t.res;
    if !has_vars(e) {
        evaluates(e, t.ev) && t.ord == ord0 && r == lift(t.ev)
    } else {
        match e {
            SExpr::Var(n) => t.ord == with_name(ord0, n) && unit_form(r, t.ord.index_of(n), t.ord.len()),
            SExpr::Neg(a) => {
                let k0 = t.kids[0];
                &&& lin_ok(*a, ord0, k0)
                &&& (lstops(k0.res, r) || (k0.res matches Ok(Some(la)) && (t.ord == k0.ord
                    && (r matches Ok(Some(lr)) && scale_ok(la, minus_one_c(), lr)))))
            },
            SExpr::Add(a, b) => {
                let (k0, k1) = (t.kids[0], t.kids[1]);
                &&& lin_ok(*a, ord0, k0)
                &&& (lstops(k0.res, r) || (k0.res matches Ok(Some(la)) && lin_ok(*b, k0.ord, k1) && (lstops(k1.res, r)
                    || (k1.res matches Ok(Some(lb)) && (t.ord == k1.ord && (r matches Ok(Some(lr)) && add_ok(la, lb, lr)))))))
            },
            SExpr::Sub(a, b) => {
                let (k0, k1) = (t.kids[0], t.kids[1]);
                &&& lin_ok(*a, ord0, k0)
                &&& (lstops(k0.res, r) || (k0.res matches Ok(Some(la)) && lin_ok(*b, k0.ord, k1) && (lstops(k1.res, r)
                    || (k1.res matches Ok(Some(lb)) && (t.ord == k1.ord && (t.mid matches Some(mb)
                        && (scale_ok(lb, minus_one_c(), mb) && (r matches Ok(Some(lr)) && add_ok(la, mb, lr)))))))))
            },
            SExpr::Mul(a, b) => {
                let (k0, k1) = (t.kids[0], t.kids[1]);
                &&& lin_ok(*a, ord0, k0)
                &&& (lstops(k0.res, r) || (k0.res matches Ok(Some(la)) && lin_ok(*b, k0.ord, k1) && (lstops(k1.res, r)
                    || (k1.res matches Ok(Some(lb)) && t.ord == k1.ord && (if is_const_form(la) {
                        r matches Ok(Some(lr)) && scale_ok(lb, la.1.cval(), lr)
                    } else if is_const_form(lb) {
                        r matches Ok(Some(lr)) && scale_ok(la, lb.1.cval(), lr)
                    } else {
                        nonlinear_err(r, e)
                    })))))
            },
            SExpr::Div(a, b) => {
                let (k0, k1) = (t.kids[0], t.kids[1]);
                &&& lin_ok(*b, ord0, k0)
                &&& (lstops(k0.res, r) || (k0.res matches Ok(Some(lb)) && (if !is_const_form(lb) {
                    nonlinear_err(r, e)
                } else if czero(lb.1.cval()) {
                    r == Err::<Option<LForm>, SolveError>(SolveError::Eval(EvalError::DivisionByZero))
                } else {
                    t.aux matches Some(inv) && inv.wf() && ceq(inv.cval(), cdiv(cone(), lb.1.cval()))
                        && lin_ok(*a, k0.ord, k1) && (lstops(k1.res, r) || (k1.res matches Ok(Some(la))
                        && (t.ord == k1.ord && (r matches Ok(Some(lr)) && scale_ok(la, inv.cval(), lr)))))
                })))
            },
            SExpr::Pow(base, ex) => if has_vars(*ex) {
                nonlinear_err(r, e)
            } else {
                &&& evaluates(*ex, t.ev)
                &&& match t.ev {
                    Err(x) => r == Err::<Option<LForm>, SolveError>(SolveError::Eval(x)),
                    Ok(None) => r == Ok::<Option<LForm>, SolveError>(None),
                    Ok(Some(nv)) => if nv.cval() == cone() {
                        lin_ok(*base, ord0, t.kids[0]) && r == t.kids[0].res && t.ord == t.kids[0].ord
                    } else if czero(nv.cval()) {
                        r matches Ok(Some(lr)) && form_wf(lr) && lr.0.len() == 0 && lr.1.cval() == cone() && t.ord == ord0
                    } else {
                        nonlinear_err(r, e)
                    },
                }
            },
            _ => nonlinear_err(r, e),
        }
    }
}

/// Coefficients of a linear expression while it's being extracted.
pub struct Lin {
    pub coeffs: Vec<Value>,
    pub constant: Value,
}

pub open spec fn form(l: Lin) -> LForm {
    (l.coeffs@, l.constant)
}

pub open spec fn res_form(r: Result<Option<Lin>, SolveError>) -> LRes {
    match r {
        Err(e) => Err(e),
        Ok(None) => Ok(None),
        Ok(Some(l)) => Ok(Some(form(l))),
    }
}

pub open spec fn names(v: Seq<String>) -> Seq<Seq<char>> {
    v.map_values(|s: String| s@)
}

fn lin_constant(v: Value) -> (r: Lin)
    ensures
        form(r) == (Seq::<Value>::empty(), v),
{
    Lin { coeffs: Vec::new(), constant: v }
}

fn lin_is_constant(l: &Lin) -> (r: bool)
    ensures
        r == is_const_form(form(*l)),
{
    let mut j: usize = 0;
    while j < l.coeffs.len()
        invariant
            j <= l.coeffs@.len(),
            forall|k: int| 0 <= k < j ==> czero(#[trigger] l.coeffs@[k].cval()),
        decreases l.coeffs@.len() - j,
    {
        if !l.coeffs[j].is_zero() {
            assert(form(*l).0[j as int] == l.coeffs@[j as int]);
            return false;
        }
        j = j + 1;
    }
    true
}

fn lin_scale(a: Lin, k: &Value) -> (r: Lin)
    requires
        form_wf(form(a)),
        k.wf(),
    ensures
        scale_ok(form(a), k.cval(), form(r)),
{
    let mut cs: Vec<Value> = Vec::new();
    let mut j: usize = 0;
    while j < a.coeffs.len()
        invariant
            j <= a.coeffs@.len(),
            cs@.len() == j,
            form_wf(form(a)),
            k.wf(),
            forall|i: int| 0 <= i < j ==> (#[trigger] cs@[i]).wf() && ceq(cs@[i].cval(), cmul(a.coeffs@[i].cval(), k.cval())),
        decreases a.coeffs@.len() - j,
    {
        assert(form(a).0[j as int] == a.coeffs@[j as int]);
        cs.push(a.coeffs[j].mul(k));
        j = j + 1;
    }
    Lin { coeffs: cs, constant: a.constant.mul(k) }
}

fn lin_add(a: Lin, b: Lin) -> (r: Lin)
    requires
        form_wf(form(a)),
        form_wf(form(b)),
    ensures
        add_ok(form(a), form(b), form(r)),
{
    let n = if a.coeffs.len() >= b.coeffs.len() { a.coeffs.len() } else { b.coeffs.len() };
    let mut cs: Vec<Value> = Vec::new();
    let mut j: usize = 0;
    while j < n
        invariant
            j <= n,
            n == if a.coeffs@.len() >= b.coeffs@.len() { a.coeffs@.len() } else { b.coeffs@.len() },
            cs@.len() == j,
            form_wf(form(a)),
            form_wf(form(b)),
            forall|i: int| 0 <= i < j ==> (#[trigger] cs@[i]).wf()
                && ceq(cs@[i].cval(), cadd(coef(a.coeffs@, i), coef(b.coeffs@, i))),
        decreases n - j,
    {
        proof {
            if j < a.coeffs@.len() {
                assert(form(a).0[j as int] == a.coeffs@[j as int]);
            }
            if j < b.coeffs@.len() {
                assert(form(b).0[j as int] == b.coeffs@[j as int]);
            }
        }
        let v = if j < a.coeffs.len() && j < b.coeffs.len() {
            a.coeffs[j].add(&b.coeffs[j])
        } else if j < a.coeffs.len() {
            let c = a.coeffs[j].copy();
            proof {
                let x = a.coeffs@[j as int].cval();
                let y = cadd(x, (qint(0), czero_frac()));
                assert(ceq(x, y)) by (nonlinear_arith)
                    requires y == cadd(x, (qint(0), czero_frac())), {}
            }
            c
        } else {
            Value::integer(0).add(&b.coeffs[j])
        };
        cs.push(v);
        j = j + 1;
    }
    Lin { coeffs: cs, constant: a.constant.add(&b.constant) }
}

/// The error for an expression that is not linear.
fn nonlinear(e: &Expr) -> (r: SolveError)
    requires
        swf(model(*e)),
    ensures
        nonlinear_err(Err(r), model(*e)),
{
    let mut m = String::from_str("'");
    let t = display(e);
    m.append(t.as_str());
    m.append("' is not linear; only linear equations can be solved so far");
    SolveError::Unsupported(m)
}

/// Where `n` stands in `order`, adding it at the end when it is new.
fn position(order: &mut Vec<String>, n: &String) -> (r: usize)
    requires
        names(old(order)@).no_duplicates(),
    ensures
        names(final(order)@) == with_name(names(old(order)@), n@),
        names(final(order)@).no_duplicates(),
        final(order)@.len() >= old(order)@.len(),
        final(order)@.len() <= old(order)@.len() + 1,
        r == names(final(order)@).index_of(n@),
        r < final(order)@.len(),
{
    let ghost before = names(order@);
    let mut i: usize = 0;
    while i < order.len()
        invariant
            i <= order@.len(),
            names(order@) == before,
            before.no_duplicates(),
            forall|k: int| 0 <= k < i ==> (#[trigger] order@[k])@ != n@,
        decreases order@.len() - i,
    {
        if str_eq(order[i].as_str(), n.as_str()) {
            proof {
                assert(before[i as int] == n@);
                assert(before.contains(n@));
                let c = before.index_of(n@);
                assert(0 <= c < before.len() && before[c] == n@);
                assert(before.no_duplicates());
            }
            return i;
        }
        i = i + 1;
    }
    proof {
        assert forall|k: int| 0 <= k < before.len() implies before[k] != n@ by {
            assert(order@[k]@ != n@);
        }
        assert(!before.contains(n@));
    }
    order.push(n.clone());
    proof {
        assert(names(order@) =~= before.push(n@));
        let nw = names(order@);
        assert forall|a: int, b: int| 0 <= a < nw.len() && 0 <= b < nw.len() && a != b implies nw[a] != nw[b] by {
            if a < before.len() && b < before.len() {
            } else if a == before.len() {
                assert(nw[b] == before[b]);
            } else {
                assert(nw[a] == before[a]);
            }
        }
        let c = nw.index_of(n@);
        assert(nw[i as int] == n@);
        assert(0 <= c < nw.len() && nw[c] == n@);
    }
    i
}

fn unit(len: usize, idx: usize) -> (r: Lin)
    requires
        idx < len,
    ensures
        unit_form(Ok(Some(form(r))), idx as int, len as nat),
{
    let mut cs: Vec<Value> = Vec::new();
    let mut j: usize = 0;
    while j < len
        invariant
            j <= len,
            idx < len,
            cs@.len() == j,
            forall|i: int| 0 <= i < j ==> (#[trigger] cs@[i]).wf(),
            forall|i: int| 0 <= i < j && i != idx ==> czero(#[trigger] cs@[i].cval()),
            j > idx ==> cs@[idx as int].cval() == cone(),
        decreases len - j,
    {
        if j == idx {
            cs.push(Value::integer(1));
        } else {
            cs.push(Value::integer(0));
        }
        j = j + 1;
    }
    Lin { coeffs: cs, constant: Value::integer(0) }
}

/// Extract the linear form of `e`, recording unknowns in order of first
/// appearance; `Ok(None)` when a constant part is only approximately known.
fn linearize(e: &Expr, order: &mut Vec<String>) -> (out: (Result<Option<Lin>, SolveError>, Ghost<LTrace>))
    requires
        swf(model(*e)),
        names(old(order)@).no_duplicates(),
    ensures
        lin_ok(model(*e), names(old(order)@), out.1@),
        out.1@.res == res_form(out.0),
        names(final(order)@).no_duplicates(),
        final(order)@.len() <= old(order)@.len() + name_count(model(*e)),
        final(order)@.len() >= old(order)@.len(),
        out.0 matches Ok(Some(l)) ==> names(final(order)@) == out.1@.ord,
        out.0 matches Ok(Some(l)) ==> form_wf(form(l)),
        out.0 matches Ok(Some(l)) ==> l.coeffs@.len() <= final(order)@.len(),
    decreases e,
{
    let ghost ord0 = names(order@);
    if !has_vars_exec(e) {
        let ev = eval_exact(e);
        let ghost gev = ev;
        let res = match ev {
            Err(x) => Err(SolveError::Eval(x)),
            Ok(None) => Ok(None),
            Ok(Some(v)) => Ok(Some(lin_constant(v))),
        };
        let ghost t = LTrace { res: lift(gev), ord: ord0, ev: gev, kids: seq![], mid: None, aux: None };
        return (res, Ghost(t));
    }
    let ghost em = model(*e);
    match e {
        Expr::Var(n) => {
            let idx = position(order, n);
            let l = unit(order.len(), idx);
            let ghost t = LTrace { res: Ok(Some(form(l))), ord: names(order@), ev: Ok(None), kids: seq![], mid: None, aux: None };
            (Ok(Some(l)), Ghost(t))
        },
        Expr::Neg(a) => {
            let (ra, ta) = linearize(a, order);
            match ra {
                Ok(Some(la)) => {
                    let l = lin_scale(la, &Value::integer(-1));
                    let ghost t = LTrace { res: Ok(Some(form(l))), ord: names(order@), ev: Ok(None), kids: seq![ta@], mid: None, aux: None };
                    (Ok(Some(l)), Ghost(t))
                },
                other => {
                    let ghost t = LTrace { res: res_form(other), ord: names(order@), ev: Ok(None), kids: seq![ta@], mid: None, aux: None };
                    (other, Ghost(t))
                },
            }
        },
        Expr::Add(a, b) | Expr::Sub(a, b) | Expr::Mul(a, b) => {
            let (ra, ta) = linearize(a, order);
            let la = match ra {
                Ok(Some(la)) => la,
                other => {
                    let ghost t = LTrace { res: res_form(other), ord: names(order@), ev: Ok(None), kids: seq![ta@], mid: None, aux: None };
                    return (other, Ghost(t));
                },
            };
            let (rb, tb) = linearize(b, order);
            let lb = match rb {
                Ok(Some(lb)) => lb,
                other => {
                    let ghost t = LTrace { res: res_form(other), ord: names(order@), ev: Ok(None), kids: seq![ta@, tb@], mid: None, aux: None };
                    return (other, Ghost(t));
                },
            };
            let ghost (fa, fb) = (form(la), form(lb));
            match e {
                Expr::Add(..) => {
                    let l = lin_add(la, lb);
                    let ghost t = LTrace { res: Ok(Some(form(l))), ord: names(order@), ev: Ok(None), kids: seq![ta@, tb@], mid: None, aux: None };
                    (Ok(Some(l)), Ghost(t))
                },
                Expr::Sub(..) => {
                    let mb = lin_scale(lb, &Value::integer(-1));
                    let ghost gm = form(mb);
                    let l = lin_add(la, mb);
                    let ghost t = LTrace { res: Ok(Some(form(l))), ord: names(order@), ev: Ok(None), kids: seq![ta@, tb@], mid: Some(gm), aux: None };
                    (Ok(Some(l)), Ghost(t))
                },
                _ => {
                    let res = if lin_is_constant(&la) {
                        let k = la.constant.copy();
                        Ok(Some(lin_scale(lb, &k)))
                    } else if lin_is_constant(&lb) {
                        let k = lb.constant.copy();
                        Ok(Some(lin_scale(la, &k)))
                    } else {
                        Err(nonlinear(e))
                    };
                    let ghost t = LTrace { res: res_form(res), ord: names(order@), ev: Ok(None), kids: seq![ta@, tb@], mid: None, aux: None };
                    (res, Ghost(t))
                },
            }
        },
        Expr::Div(a, b) => {
            let (rb, tb) = linearize(b, order);
            let lb = match rb {
                Ok(Some(lb)) => lb,
                other => {
                    let ghost t = LTrace { res: res_form(other), ord: names(order@), ev: Ok(None), kids: seq![tb@], mid: None, aux: None };
                    return (other, Ghost(t));
                },
            };
            if !lin_is_constant(&lb) {
                let err = nonlinear(e);
                let ghost t = LTrace { res: Err(err), ord: names(order@), ev: Ok(None), kids: seq![tb@], mid: None, aux: None };
                return (Err(err), Ghost(t));
            }
            let inv = match Value::integer(1).div(&lb.constant) {
                Ok(v) => v,
                Err(x) => {
                    let ghost t = LTrace { res: Err(SolveError::Eval(x)), ord: names(order@), ev: Ok(None), kids: seq![tb@], mid: None, aux: None };
                    return (Err(SolveError::Eval(x)), Ghost(t));
                },
            };
            let (ra, ta) = linearize(a, order);
            match ra {
                Ok(Some(la)) => {
                    let ghost ginv = inv;
                    let l = lin_scale(la, &inv);
                    let ghost t = LTrace { res: Ok(Some(form(l))), ord: names(order@), ev: Ok(None), kids: seq![tb@, ta@], mid: None, aux: Some(ginv) };
                    (Ok(Some(l)), Ghost(t))
                },
                other => {
                    let ghost t = LTrace { res: res_form(other), ord: names(order@), ev: Ok(None), kids: seq![tb@, ta@], mid: None, aux: Some(inv) };
                    (other, Ghost(t))
                },
            }
        },
        Expr::Pow(base, ex) => {
            if has_vars_exec(ex) {
                let err = nonlinear(e);
                let ghost t = LTrace { res: Err(err), ord: names(order@), ev: Ok(None), kids: seq![], mid: None, aux: None };
                return (Err(err), Ghost(t));
            }
            let nv = eval_exact(ex);
            let ghost gev = nv;
            match nv {
                Err(x) => {
                    let ghost t = LTrace { res: Err(SolveError::Eval(x)), ord: names(order@), ev: gev, kids: seq![], mid: None, aux: None };
                    (Err(SolveError::Eval(x)), Ghost(t))
                },
                Ok(None) => {
                    let ghost t = LTrace { res: Ok(None), ord: names(order@), ev: gev, kids: seq![], mid: None, aux: None };
                    (Ok(None), Ghost(t))
                },
                Ok(Some(n)) => {
                    if is_int(&n, 1) {
                        let (rb, tb) = linearize(base, order);
                        let ghost t = LTrace { res: tb@.res, ord: tb@.ord, ev: gev, kids: seq![tb@], mid: None, aux: None };
                        (rb, Ghost(t))
                    } else if n.is_zero() {
                        let l = lin_constant(Value::integer(1));
                        let ghost t = LTrace { res: Ok(Some(form(l))), ord: names(order@), ev: gev, kids: seq![], mid: None, aux: None };
                        (Ok(Some(l)), Ghost(t))
                    } else {
                        let err = nonlinear(e);
                        let ghost t = LTrace { res: Err(err), ord: names(order@), ev: gev, kids: seq![], mid: None, aux: None };
                        (Err(err), Ghost(t))
                    }
                },
            }
        },
        _ => {
            let err = nonlinear(e);
            let ghost t = LTrace { res: Err(err), ord: names(order@), ev: Ok(None), kids: seq![], mid: None, aux: None };
            (Err(err), Ghost(t))
        },
    }
}

pub struct LinearSystem {
    pub equations: Vec<Equation>,
}

/// What extracting the standard forms `lhs - rhs` of the equations records:
/// the result (the unknowns in order), and per equation the records of both
/// sides, `-rhs`, and the form.
pub struct SysTrace {
    pub res: Result<Option<Seq<Seq<char>>>, SolveError>,
    pub lhs: Seq<LTrace>,
    pub rhs: Seq<LTrace>,
    pub neg: Seq<LForm>,
    pub forms: Seq<LForm>,
}

pub open spec fn sys_stops(x: LRes, r: Result<Option<Seq<Seq<char>>>, SolveError>) -> bool {
    match x {
        Err(e) => r == Err::<Option<Seq<Seq<char>>>, SolveError>(e),
        Ok(None) => r == Ok::<Option<Seq<Seq<char>>>, SolveError>(None),
        Ok(Some(_)) => false,
    }
}

/// The result a stopping side gives the whole system.
pub open spec fn stop_of(x: LRes) -> Result<Option<Seq<Seq<char>>>, SolveError> {
    match x {
        Err(e) => Err(e),
        _ => Ok(None),
    }
}

/// The unknowns seen before equation `k`.
pub open spec fn ord_after(st: SysTrace, k: int) -> Seq<Seq<char>> {
    if k <= 0 { seq![] } else { st.rhs[k - 1].ord }
}

/// Equation `k` becomes the form `lhs + (-1)·rhs`.
pub open spec fn step_ok(eqs: Seq<(SExpr, SExpr)>, k: int, st: SysTrace) -> bool {
    let (l, r) = (st.lhs[k], st.rhs[k]);
    &&& lin_ok(eqs[k].0, ord_after(st, k), l)
    &&& l.res matches Ok(Some(lf))
    &&& lin_ok(eqs[k].1, l.ord, r)
    &&& r.res matches Ok(Some(rf))
    &&& scale_ok(rf, minus_one_c(), st.neg[k])
    &&& add_ok(lf, st.neg[k], st.forms[k])
}

/// A side of equation `k` stops the extraction with the recorded result.
pub open spec fn stopped_at(eqs: Seq<(SExpr, SExpr)>, k: int, st: SysTrace) -> bool {
    let l = st.lhs[k];
    &&& lin_ok(eqs[k].0, ord_after(st, k), l)
    &&& (sys_stops(l.res, st.res) || (l.res matches Ok(Some(_)) && lin_ok(eqs[k].1, l.ord, st.rhs[k])
        && sys_stops(st.rhs[k].res, st.res)))
}

/// Every equation in turn yields its form, or the first side that stops
/// decides the result.
pub open spec fn sys_ok(eqs: Seq<(SExpr, SExpr)>, st: SysTrace) -> bool {
    match st.res {
        Ok(Some(ord)) => (forall|k: int| 0 <= k < eqs.len() ==> #[trigger] step_ok(eqs, k, st))
            && ord == ord_after(st, eqs.len() as int) && st.forms.len() == eqs.len(),
        _ => exists|k: int| 0 <= k < eqs.len() && (forall|j: int| 0 <= j < k ==> #[trigger] step_ok(eqs, j, st))
            && #[trigger] stopped_at(eqs, k, st),
    }
}

/// The first step shows the standard forms, every step shows a system with
/// the same solutions, and each later step's row operations turn the matrix
/// shown before it into the one it shows.
pub open spec fn steps_ok(steps: Seq<Step>, rows: Seq<Seq<Value>>, vars: Seq<Seq<char>>) -> bool {
    &&& steps.len() >= 1
    &&& steps[0].description@ == "Write each equation in standard form"@
    &&& snapshot_is(steps[0].snapshot@, rows, vars)
    &&& forall|k: int| 0 <= k < steps.len() ==> #[trigger] step_shows(steps[k], rows, vars)
    &&& trace_ok(steps, rows, vars)
}

/// The augmented rows of the standard forms: coefficients of the `n`
/// unknowns (0 where a form has none), then the negated constant.
pub open spec fn rows_ok(rows: Seq<Seq<Value>>, forms: Seq<LForm>, n: nat) -> bool {
    &&& rows.len() == forms.len()
    &&& forall|i: int| 0 <= i < rows.len() ==> #[trigger] rows[i].len() == n + 1
        && (forall|j: int| 0 <= j < rows[i].len() ==> (#[trigger] rows[i][j]).wf())
        && (forall|j: int| 0 <= j < n ==> (#[trigger] rows[i][j]).cval() == coef(forms[i].0, j))
        && ceq(rows[i][n as int].cval(), crate::complex::cneg(forms[i].1.cval()))
}

pub open spec fn eqs_model(eqs: Seq<Equation>) -> Seq<(SExpr, SExpr)> {
    eqs.map_values(|q: Equation| equation_model(q))
}

fn row_of(l: &Lin, n: usize) -> (r: Vec<Value>)
    requires
        form_wf(form(*l)),
        n < usize::MAX,
    ensures
        r@.len() == n + 1,
        forall|j: int| 0 <= j < r@.len() ==> (#[trigger] r@[j]).wf(),
        forall|j: int| 0 <= j < n ==> (#[trigger] r@[j]).cval() == coef(l.coeffs@, j),
        ceq(r@[n as int].cval(), crate::complex::cneg(l.constant.cval())),
{
    let mut row: Vec<Value> = Vec::new();
    let mut j: usize = 0;
    while j < n
        invariant
            j <= n,
            row@.len() == j,
            form_wf(form(*l)),
            forall|i: int| 0 <= i < j ==> (#[trigger] row@[i]).wf() && row@[i].cval() == coef(l.coeffs@, i),
        decreases n - j,
    {
        if j < l.coeffs.len() {
            assert(form(*l).0[j as int] == l.coeffs@[j as int]);
            row.push(l.coeffs[j].copy());
        } else {
            row.push(Value::integer(0));
        }
        j = j + 1;
    }
    let c = l.constant.neg();
    proof {
        let x = l.constant.cval();
        if c.cval() == crate::complex::cneg(x) {
            crate::rational::lemma_qeq_refl(c.cval().0);
            crate::rational::lemma_qeq_refl(c.cval().1);
        }
    }
    row.push(c);
    row
}

impl Solve for LinearSystem {
    type Output = Option<Solution>;

    /// Every number is in lowest terms, and counts stay within `usize`.
    open spec fn ready(&self) -> bool {
        &&& forall|k: int| 0 <= k < self.equations@.len() ==> swf(#[trigger] model(self.equations@[k].lhs))
            && swf(model(self.equations@[k].rhs))
        &&& names_from(eqs_model(self.equations@), 0) + 1 < usize::MAX
        &&& self.equations@.len() < usize::MAX
    }

    /// Gauss-Jordan elimination on the standard forms. `None` when a
    /// constant in the equations is only approximately known: the caller
    /// then solves numerically.
    fn solve(&self) -> (out: Result<(Option<Solution>, Vec<Step>), SolveError>)
        ensures
            exists|st: SysTrace| #[trigger] sys_ok(eqs_model(self.equations@), st) && match out {
                Err(e) => st.res == Err::<Option<Seq<Seq<char>>>, SolveError>(e),
                Ok((None, steps)) => st.res == Ok::<Option<Seq<Seq<char>>>, SolveError>(None) && steps@.len() == 0,
                Ok((Some(sol), steps)) => st.res matches Ok(Some(ord)) && exists|rows: Seq<Seq<Value>>|
                    #[trigger] rows_ok(rows, st.forms, ord.len()) && solution_ok(sol, rows, ord) && steps_ok(steps@, rows, ord),
            },
    {
        let ghost eqs = eqs_model(self.equations@);
        let mut vars: Vec<String> = Vec::new();
        let mut forms: Vec<Lin> = Vec::new();
        let ghost mut st = SysTrace { res: Ok(None), lhs: seq![], rhs: seq![], neg: seq![], forms: seq![] };
        let mut k: usize = 0;
        while k < self.equations.len()
            invariant
                k <= self.equations@.len(),
                self.ready(),
                eqs == eqs_model(self.equations@),
                eqs.len() == self.equations@.len(),
                names(vars@).no_duplicates(),
                vars@.len() + names_from(eqs, k as int) <= names_from(eqs, 0),
                forms@.len() == k,
                st.lhs.len() == k && st.rhs.len() == k && st.neg.len() == k && st.forms.len() == k,
                names(vars@) == ord_after(st, k as int),
                forall|i: int| 0 <= i < k ==> form(#[trigger] forms@[i]) == st.forms[i]
                    && form_wf(form(forms@[i])) && forms@[i].coeffs@.len() <= vars@.len(),
                forall|j: int| 0 <= j < k ==> #[trigger] step_ok(eqs, j, st),
            decreases self.equations@.len() - k,
        {
            let eq = &self.equations[k];
            assert(eqs[k as int] == equation_model(self.equations@[k as int]));
            assert(swf(model(self.equations@[k as int].lhs)) && swf(model(self.equations@[k as int].rhs)));
            let (rl, tl) = linearize(&eq.lhs, &mut vars);
            let lf = match rl {
                Ok(Some(l)) => l,
                other => {
                    let ghost res = stop_of(res_form(other));
                    let ghost s = SysTrace { res, lhs: st.lhs.push(tl@), rhs: st.rhs.push(tl@), neg: st.neg, forms: st.forms };
                    proof {
                        assert forall|j: int| 0 <= j < k implies #[trigger] step_ok(eqs, j, s) by {
                            assert(step_ok(eqs, j, st));
                            assert(s.lhs[j] == st.lhs[j] && s.rhs[j] == st.rhs[j]);
                            assert(ord_after(s, j) == ord_after(st, j));
                        }
                        assert(ord_after(s, k as int) == ord_after(st, k as int));
                        assert(stopped_at(eqs, k as int, s));
                        assert(sys_ok(eqs, s));
                    }
                    return match other {
                        Err(e) => Err(e),
                        _ => Ok((None, Vec::new())),
                    };
                },
            };
            let (rr, tr) = linearize(&eq.rhs, &mut vars);
            let rf = match rr {
                Ok(Some(l)) => l,
                other => {
                    let ghost res = stop_of(res_form(other));
                    let ghost s = SysTrace { res, lhs: st.lhs.push(tl@), rhs: st.rhs.push(tr@), neg: st.neg, forms: st.forms };
                    proof {
                        assert forall|j: int| 0 <= j < k implies #[trigger] step_ok(eqs, j, s) by {
                            assert(step_ok(eqs, j, st));
                            assert(s.lhs[j] == st.lhs[j] && s.rhs[j] == st.rhs[j]);
                            assert(ord_after(s, j) == ord_after(st, j));
                        }
                        assert(ord_after(s, k as int) == ord_after(st, k as int));
                        assert(stopped_at(eqs, k as int, s));
                        assert(sys_ok(eqs, s));
                    }
                    return match other {
                        Err(e) => Err(e),
                        _ => Ok((None, Vec::new())),
                    };
                },
            };
            let neg = lin_scale(rf, &Value::integer(-1));
            let ghost gneg = form(neg);
            let f = lin_add(lf, neg);
            let ghost s = SysTrace { res: Ok(None), lhs: st.lhs.push(tl@), rhs: st.rhs.push(tr@), neg: st.neg.push(gneg), forms: st.forms.push(form(f)) };
            proof {
                assert forall|j: int| 0 <= j < k implies #[trigger] step_ok(eqs, j, s) by {
                    assert(step_ok(eqs, j, st));
                    assert(s.lhs[j] == st.lhs[j] && s.rhs[j] == st.rhs[j] && s.neg[j] == st.neg[j] && s.forms[j] == st.forms[j]);
                    assert(ord_after(s, j) == ord_after(st, j));
                }
                assert(ord_after(s, k as int) == ord_after(st, k as int));
                assert(step_ok(eqs, k as int, s));
                st = s;
            }
            forms.push(f);
            k = k + 1;
        }
        let n = vars.len();
        let mut rows: Vec<Vec<Value>> = Vec::new();
        let mut i: usize = 0;
        while i < forms.len()
            invariant
                i <= forms@.len(),
                rows@.len() == i,
                n == vars@.len(),
                n < usize::MAX,
                forall|j: int| 0 <= j < forms@.len() ==> form_wf(form(#[trigger] forms@[j])),
                forall|j: int| 0 <= j < i ==> (#[trigger] rows@[j])@.len() == n + 1
                    && (forall|c: int| 0 <= c < rows@[j]@.len() ==> (#[trigger] rows@[j]@[c]).wf())
                    && (forall|c: int| 0 <= c < n ==> (#[trigger] rows@[j]@[c]).cval() == coef(forms@[j].coeffs@, c))
                    && ceq(rows@[j]@[n as int].cval(), crate::complex::cneg(forms@[j].constant.cval())),
            decreases forms@.len() - i,
        {
            rows.push(row_of(&forms[i], n));
            i = i + 1;
        }
        let ghost m = mat(rows@);
        let ghost ord = names(vars@);
        proof {
            assert forall|j: int| 0 <= j < m.len() implies #[trigger] m[j].len() == n + 1
                && forall|c: int| 0 <= c < m[j].len() ==> (#[trigger] m[j][c]).wf() by {
                assert(m[j] == rows@[j]@);
            }
            assert(matrix_ok(m, n as nat));
            assert forall|j: int| 0 <= j < m.len() implies #[trigger] m[j].len() == n + 1
                && (forall|c: int| 0 <= c < m[j].len() ==> (#[trigger] m[j][c]).wf())
                && (forall|c: int| 0 <= c < n ==> (#[trigger] m[j][c]).cval() == coef(st.forms[j].0, c))
                && ceq(m[j][n as int].cval(), crate::complex::cneg(st.forms[j].1.cval())) by {
                assert(m[j] == rows@[j]@);
                assert(form(forms@[j]) == st.forms[j]);
            }
            assert(rows_ok(m, st.forms, n as nat));
        }
        let (sol, steps) = eliminate(rows, &vars);
        let ghost fin = SysTrace { res: Ok(Some(ord)), lhs: st.lhs, rhs: st.rhs, neg: st.neg, forms: st.forms };
        proof {
            assert forall|j: int| 0 <= j < eqs.len() implies #[trigger] step_ok(eqs, j, fin) by {
                assert(step_ok(eqs, j, st));
                assert(ord_after(fin, j) == ord_after(st, j));
            }
            assert(ord_after(fin, eqs.len() as int) == ord_after(st, eqs.len() as int));
            assert(sys_ok(eqs, fin));
            assert(names(vars@) == ord);
        }
        Ok((Some(sol), steps))
    }
}
/// An expression in unknowns, linear in them, with like terms collected:
/// the text of its linear form (`2x + 3x` is `5x`), or `None` when it is not
/// linear or its constants are only approximately known.
pub fn collect_terms(e: &Expr) -> (r: Option<String>)
    requires
        swf(model(*e)),
    ensures
        exists|t: LTrace| #[trigger] lin_ok(model(*e), seq![], t) && match t.res {
            Ok(Some(f)) => r matches Some(s) && s@ == combo_text(t.ord.take(f.0.len() as int), f.0, const_start(f.1)),
            _ => r is None,
        },
{
    let mut order: Vec<String> = Vec::new();
    proof {
        assert(names(order@) =~= Seq::<Seq<char>>::empty());
    }
    let (res, t) = linearize(e, &mut order);
    let ghost gt = t@;
    assert(names(Seq::<String>::empty()) =~= seq![]);
    match res {
        Ok(Some(l)) => {
            let mut nm: Vec<String> = Vec::new();
            let mut k: usize = 0;
            while k < l.coeffs.len()
                invariant
                    k <= l.coeffs@.len(),
                    l.coeffs@.len() <= order@.len(),
                    nm@.len() == k,
                    forall|j: int| 0 <= j < k ==> #[trigger] nm@[j]@ == order@[j]@,
                decreases l.coeffs@.len() - k,
            {
                nm.push(order[k].clone());
                k = k + 1;
            }
            proof {
                assert forall|j: int| 0 <= j < l.coeffs@.len() implies (#[trigger] l.coeffs@[j]).wf() by {
                    assert(form(l).0[j] == l.coeffs@[j]);
                }
                assert(nm@.map_values(|s: String| s@) =~= gt.ord.take(l.coeffs@.len() as int)) by {
                    assert(names(order@) == gt.ord);
                    assert forall|j: int| 0 <= j < l.coeffs@.len() implies nm@.map_values(|s: String| s@)[j] == gt.ord[j] by {
                        assert(names(order@)[j] == order@[j]@);
                    }
                }
            }
            let text = fmt_combo(nm.as_slice(), l.coeffs.as_slice(), &l.constant);
            Some(text)
        },
        _ => None,
    }
}

} // verus!
