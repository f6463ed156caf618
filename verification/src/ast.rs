//! Expression trees, and their mathematical model.

use vstd::prelude::*;
use crate::value::Value;
use crate::complex::CFrac;
use crate::rational::{Frac, Rat, gcd, abs};

verus! {

#[derive(Debug)]
pub enum Expr {
    Num(Value),
    Var(String),
    Add(Box<Expr>, Box<Expr>),
    Sub(Box<Expr>, Box<Expr>),
    Mul(Box<Expr>, Box<Expr>),
    Div(Box<Expr>, Box<Expr>),
    Pow(Box<Expr>, Box<Expr>),
    Neg(Box<Expr>),
    Factorial(Box<Expr>),
    Call(String, Vec<Expr>),
}

/// An expression tree with names as character sequences and arguments as
/// sequences: what an `Expr` denotes.
pub enum SExpr {
    Num(CFrac),
    Var(Seq<char>),
    Add(Box<SExpr>, Box<SExpr>),
    Sub(Box<SExpr>, Box<SExpr>),
    Mul(Box<SExpr>, Box<SExpr>),
    Div(Box<SExpr>, Box<SExpr>),
    Pow(Box<SExpr>, Box<SExpr>),
    Neg(Box<SExpr>),
    Factorial(Box<SExpr>),
    Call(Seq<char>, Seq<SExpr>),
}

/// The model of an expression.
pub open spec fn model(e: Expr) -> SExpr
    decreases e,
{
    match e {
        Expr::Num(v) => SExpr::Num(v.cval()),
        Expr::Var(n) => SExpr::Var(n@),
        Expr::Add(a, b) => SExpr::Add(Box::new(model(*a)), Box::new(model(*b))),
        Expr::Sub(a, b) => SExpr::Sub(Box::new(model(*a)), Box::new(model(*b))),
        Expr::Mul(a, b) => SExpr::Mul(Box::new(model(*a)), Box::new(model(*b))),
        Expr::Div(a, b) => SExpr::Div(Box::new(model(*a)), Box::new(model(*b))),
        Expr::Pow(a, b) => SExpr::Pow(Box::new(model(*a)), Box::new(model(*b))),
        Expr::Neg(a) => SExpr::Neg(Box::new(model(*a))),
        Expr::Factorial(a) => SExpr::Factorial(Box::new(model(*a))),
        Expr::Call(n, args) => SExpr::Call(n@, models(args@)),
    }
}

/// The models of a list of expressions.
pub open spec fn models(s: Seq<Expr>) -> Seq<SExpr>
    decreases s,
{
    if s.len() == 0 {
        seq![]
    } else {
        models(s.subrange(0, s.len() - 1)).push(model(s[s.len() - 1]))
    }
}

pub proof fn lemma_models(s: Seq<Expr>)
    ensures
        models(s).len() == s.len(),
        forall|k: int| 0 <= k < s.len() ==> #[trigger] models(s)[k] == model(s[k]),
    decreases s.len(),
{
    if s.len() > 0 {
        lemma_models(s.subrange(0, s.len() - 1));
    }
}

/// A fraction in lowest terms with a positive denominator.
pub open spec fn frac_wf(q: Frac) -> bool {
    q.1 > 0 && gcd(abs(q.0), q.1 as nat) == 1
}

/// Every number in the tree has both parts in lowest terms.
pub open spec fn swf(e: SExpr) -> bool
    decreases e, 0int,
{
    match e {
        SExpr::Num(c) => frac_wf(c.0) && frac_wf(c.1),
        SExpr::Var(_) => true,
        SExpr::Add(a, b) => swf(*a) && swf(*b),
        SExpr::Sub(a, b) => swf(*a) && swf(*b),
        SExpr::Mul(a, b) => swf(*a) && swf(*b),
        SExpr::Div(a, b) => swf(*a) && swf(*b),
        SExpr::Pow(a, b) => swf(*a) && swf(*b),
        SExpr::Neg(a) => swf(*a),
        SExpr::Factorial(a) => swf(*a),
        SExpr::Call(_, args) => swf_from(args, 0),
    }
}

/// Every expression of `s` from index `k` on satisfies `swf`.
pub open spec fn swf_from(s: Seq<SExpr>, k: int) -> bool
    decreases s, s.len() - k,
{
    if k < 0 || k >= s.len() {
        true
    } else {
        swf(s[k]) && swf_from(s, k + 1)
    }
}

pub proof fn lemma_swf_from(s: Seq<SExpr>, k: int)
    requires
        0 <= k <= s.len(),
    ensures
        swf_from(s, k) <==> forall|j: int| k <= j < s.len() ==> swf(#[trigger] s[j]),
    decreases s.len() - k,
{
    if k < s.len() {
        lemma_swf_from(s, k + 1);
    }
}


/// Whether the fraction is in lowest terms with a positive denominator:
/// reduced again, it stays the same.
fn rat_lowest(q: &Rat) -> (r: bool)
    ensures
        r ==> frac_wf(q@),
{
    if q.den.is_zero() {
        return false;
    }
    let n = Rat::new(&q.num, &q.den);
    n.num.eq(&q.num) && n.den.eq(&q.den)
}

/// Whether every number of the expression is in lowest terms, as the
/// parser leaves them (checked; `false` can also mean a number the check
/// could not confirm).
pub fn well_formed(e: &Expr) -> (r: bool)
    ensures
        r ==> swf(model(*e)),
    decreases e,
{
    match e {
        Expr::Num(Value::Rational(q)) => {
            let ok = rat_lowest(q);
            proof {
                reveal_with_fuel(gcd, 2);
            }
            ok
        },
        Expr::Num(Value::ExactComplex(c)) => rat_lowest(&c.re) && rat_lowest(&c.im),
        Expr::Var(_) => true,
        Expr::Add(a, b) | Expr::Sub(a, b) | Expr::Mul(a, b) | Expr::Div(a, b) | Expr::Pow(a, b) => {
            well_formed(a) && well_formed(b)
        },
        Expr::Neg(a) | Expr::Factorial(a) => well_formed(a),
        Expr::Call(_, args) => {
            let mut k: usize = 0;
            let mut ok = true;
            proof { lemma_models(args@); }
            while k < args.len()
                invariant
                    k <= args@.len(),
                    *e == Expr::Call(e->Call_0, *args),
                    models(args@).len() == args@.len(),
                    forall|j: int| 0 <= j < args@.len() ==> #[trigger] models(args@)[j] == model(args@[j]),
                    ok ==> forall|j: int| 0 <= j < k ==> swf(#[trigger] model(args@[j])),
                decreases args@.len() - k,
            {
                proof {
                    assert(decreases_to!(*e => e->Call_1));
                    assert(decreases_to!(e->Call_1 => e->Call_1@));
                    assert(decreases_to!(e->Call_1@ => e->Call_1@[k as int]));
                }
                if !well_formed(&args[k]) {
                    ok = false;
                }
                k = k + 1;
            }
            proof {
                lemma_swf_from(models(args@), 0);
                if ok {
                    assert forall|j: int| 0 <= j < models(args@).len() implies swf(#[trigger] models(args@)[j]) by {
                        assert(models(args@)[j] == model(args@[j]));
                    }
                }
            }
            ok
        },
    }
}

/// Number of names in an expression: a bound on the unknowns it adds.
pub open spec fn name_count(e: SExpr) -> nat
    decreases e, 0int,
{
    match e {
        SExpr::Num(_) => 0,
        SExpr::Var(_) => 1,
        SExpr::Add(a, b) => name_count(*a) + name_count(*b),
        SExpr::Sub(a, b) => name_count(*a) + name_count(*b),
        SExpr::Mul(a, b) => name_count(*a) + name_count(*b),
        SExpr::Div(a, b) => name_count(*a) + name_count(*b),
        SExpr::Pow(a, b) => name_count(*a) + name_count(*b),
        SExpr::Neg(a) => name_count(*a),
        SExpr::Factorial(a) => name_count(*a),
        SExpr::Call(_, args) => 0,
    }
}

/// Names in all the equations from `k` on.
pub open spec fn names_from(eqs: Seq<(SExpr, SExpr)>, k: int) -> nat
    decreases eqs.len() - k,
{
    if k < 0 || k >= eqs.len() {
        0
    } else {
        name_count(eqs[k].0) + name_count(eqs[k].1) + names_from(eqs, k + 1)
    }
}

pub proof fn lemma_names_from_push(s: Seq<(SExpr, SExpr)>, q: (SExpr, SExpr), k: int)
    requires
        0 <= k <= s.len(),
    ensures
        names_from(s.push(q), k) == names_from(s, k) + name_count(q.0) + name_count(q.1),
    decreases s.len() - k,
{
    if k < s.len() {
        lemma_names_from_push(s, q, k + 1);
        assert(s.push(q)[k] == s[k]);
    } else {
        assert(s.push(q)[k] == q);
        assert(names_from(s.push(q), k + 1) == 0);
        assert(names_from(s, k) == 0);
    }
}

} // verus!
