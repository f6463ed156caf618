//! Omniculator: a deterministic math engine. Exact arithmetic, parsing,
//! evaluation and linear solving, each with a machine-checked contract.

pub mod ast;
pub mod builtins;
pub mod complex;
pub mod error;
pub mod eval;
pub mod format;
pub mod laws;
pub mod linalg;
pub mod linear;
pub mod linearize;
pub mod number;
pub mod parser;
pub mod polysolve;
pub mod power;
pub mod rational;
pub mod solve;
pub mod suggest;
pub mod text;
pub mod token;
pub mod value;

use vstd::prelude::*;
use crate::ast::{model, SExpr};
pub use crate::error::Error;
use crate::error::{EvalError, NameKind};
use crate::eval::{eval_exact, evaluates, EvalResult};
use crate::linear::Solution;
use crate::linearize::{LinearSystem, SysTrace, sys_ok, rows_ok, steps_ok, eqs_model, LTrace, lin_ok, collect_terms};
use crate::linear::{combo_text, const_start};
use crate::linear::solution_ok;
use crate::parser::{parse, parse_input, Input, input_fits, lex_error_is, lexes_to, parse_spec, err_is, input_spec, SInput, input_model};
use crate::solve::{Solve, SolveError, Step};
use crate::polysolve::{poly_outcome, solve_polynomial};
use crate::token::{byte_offset, lex, Token};
pub use crate::value::Value;

verus! {

#[derive(Debug)]
pub enum Outcome {
    Value(Value),
    Linear(Solution, Vec<Step>),
    /// An answer in words: an expression in unknowns with like terms
    /// collected, or the roots of a polynomial equation with its step.
    Text { steps: Vec<Step>, answer: String },
    /// The answer needs approximate arithmetic (an irrational constant, a
    /// transcendental function, an inexact root): the caller computes it.
    Approximate,
}

/// An evaluation result as the whole computation reports it.
pub open spec fn as_error(r: EvalResult) -> Result<Option<Value>, Error> {
    match r {
        Ok(v) => Ok(v),
        Err(e) => Err(Error::Eval(e)),
    }
}

/// Parse and evaluate a plain expression (the fast path, no step tracking).
/// `Ok(None)` when the value can only be approximated.
pub fn calculate(input: &str) -> (r: Result<Option<Value>, Error>)
    requires
        input_fits(input@),
    ensures
        lex(input@, 0) is Err ==> (r matches Err(Error::Parse(e)) && lex_error_is(input@, e)),
        lex(input@, 0) is Ok ==> exists|t: Seq<Token>| #[trigger] lexes_to(input@, t) && match parse_spec(t, byte_offset(input@, input@.len() as int) as int) {
            Err(se) => r matches Err(Error::Parse(e)) && err_is(e, se),
            Ok(se) => exists|ev: EvalResult| #[trigger] evaluates(se, ev) && r == as_error(ev),
        },
        r matches Ok(Some(v)) ==> v.wf(),
{
    let expr = match parse(input) {
        Ok(e) => e,
        Err(e) => {
            return Err(Error::Parse(e));
        },
    };
    let ev = eval_exact(&expr);
    let ghost gev = ev;
    let r = match ev {
        Ok(v) => Ok(v),
        Err(e) => Err(Error::Eval(e)),
    };
    assert(evaluates(model(expr), gev) && r == as_error(gev));
    r
}

/// What an expression's evaluation makes of the outcome.
pub open spec fn value_outcome(ev: EvalResult, r: Result<Outcome, Error>) -> bool {
    match ev {
        Err(e) => r == Err::<Outcome, Error>(Error::Eval(e)),
        Ok(None) => r matches Ok(Outcome::Approximate),
        Ok(Some(v)) => r matches Ok(Outcome::Value(w)) && w == v,
    }
}

/// What an expression makes of the outcome: its value; or, when it mentions
/// an unknown (a name that is no typo of a known one), its linear form with
/// like terms collected, if it has one.
pub open spec fn expr_outcome(se: SExpr, ev: EvalResult, r: Result<Outcome, Error>) -> bool {
    if ev matches Err(EvalError::UnknownName { kind: NameKind::Variable, suggestion: None, .. }) {
        exists|t: LTrace| #[trigger] lin_ok(se, seq![], t) && match t.res {
            Ok(Some(f)) => r matches Ok(Outcome::Text { steps, answer }) && steps@.len() == 0
                && answer@ == combo_text(t.ord.take(f.0.len() as int), f.0, const_start(f.1)),
            _ => value_outcome(ev, r),
        }
    } else {
        value_outcome(ev, r)
    }
}

/// What solving a system makes of the outcome.
pub open spec fn linear_outcome(st: SysTrace, r: Result<Outcome, Error>) -> bool {
    match st.res {
        Err(e) => r == Err::<Outcome, Error>(Error::Solve(e)),
        Ok(None) => r matches Ok(Outcome::Approximate),
        Ok(Some(ord)) => r matches Ok(Outcome::Linear(sol, steps)) && exists|rows: Seq<Seq<Value>>|
            #[trigger] rows_ok(rows, st.forms, ord.len()) && solution_ok(sol, rows, ord) && steps_ok(steps@, rows, ord),
    }
}

/// What solving equations makes of the outcome: one equation that is not
/// linear goes to the polynomial solver, everything else is the linear one's.
pub open spec fn equations_outcome(eqs: Seq<(SExpr, SExpr)>, st: SysTrace, r: Result<Outcome, Error>) -> bool {
    if eqs.len() == 1 && st.res matches Err(SolveError::Unsupported(_)) {
        poly_outcome(eqs[0].0, eqs[0].1, r)
    } else {
        linear_outcome(st, r)
    }
}

/// Evaluate an expression, or solve a system of equations with steps.
pub fn run(input: &str) -> (r: Result<Outcome, Error>)
    requires
        input_fits(input@),
    ensures
        lex(input@, 0) is Err ==> (r matches Err(Error::Parse(e)) && lex_error_is(input@, e)),
        lex(input@, 0) is Ok ==> exists|t: Seq<Token>| #[trigger] lexes_to(input@, t) && match input_spec(t, byte_offset(input@, input@.len() as int) as int) {
            Err(se) => r matches Err(Error::Parse(e)) && err_is(e, se),
            Ok(SInput::Expr(se)) => exists|ev: EvalResult| #[trigger] evaluates(se, ev) && expr_outcome(se, ev, r),
            Ok(SInput::Equations(eqs)) => exists|st: SysTrace| #[trigger] sys_ok(eqs, st) && equations_outcome(eqs, st, r),
        },
{
    let parsed = parse_input(input);
    let ghost gp = parsed;
    let ghost len = byte_offset(input@, input@.len() as int) as int;
    let ghost t = choose|t: Seq<Token>| #[trigger] lexes_to(input@, t) && match (gp, input_spec(t, len)) {
        (Ok(i), Ok(si)) => input_model(i) == si,
        (Err(e), Err(se)) => err_is(e, se),
        _ => false,
    };
    match parsed {
        Err(e) => {
            proof {
                if lex(input@, 0) is Ok {
                    assert(lexes_to(input@, t));
                    assert(input_spec(t, len) is Err);
                    assert(err_is(e, input_spec(t, len)->Err_0));
                }
            }
            let r: Result<Outcome, Error> = Err(Error::Parse(e));
            proof {
                if lex(input@, 0) is Ok {
                    assert(match input_spec(t, len) {
                        Err(se) => r matches Err(Error::Parse(e2)) && err_is(e2, se),
                        Ok(SInput::Expr(se)) => exists|ev: EvalResult| #[trigger] evaluates(se, ev) && expr_outcome(se, ev, r),
                        Ok(SInput::Equations(eqs)) => exists|st: SysTrace| #[trigger] sys_ok(eqs, st) && equations_outcome(eqs, st, r),
                    });
                }
            }
            r
        },
        Ok(Input::Expr(e)) => {
            let ev = eval_exact(&e);
            let ghost gev = ev;
            let fresh = match &ev {
                Err(EvalError::UnknownName { kind: NameKind::Variable, suggestion: None, .. }) => true,
                _ => false,
            };
            let collected = if fresh { collect_terms(&e) } else { None };
            let r = match collected {
                Some(answer) => Ok(Outcome::Text { steps: Vec::new(), answer }),
                None => match ev {
                    Ok(Some(v)) => Ok(Outcome::Value(v)),
                    Ok(None) => Ok(Outcome::Approximate),
                    Err(x) => Err(Error::Eval(x)),
                },
            };
            proof {
                assert(evaluates(model(e), gev) && expr_outcome(model(e), gev, r));
                if lex(input@, 0) is Ok {
                    assert(lexes_to(input@, t));
                    assert(input_spec(t, len) == Ok::<SInput, crate::token::SpecErr>(SInput::Expr(model(e))));
                    assert(match input_spec(t, len) {
                        Err(se) => r matches Err(Error::Parse(e2)) && err_is(e2, se),
                        Ok(SInput::Expr(se)) => exists|ev: EvalResult| #[trigger] evaluates(se, ev) && expr_outcome(se, ev, r),
                        Ok(SInput::Equations(eqs)) => exists|st: SysTrace| #[trigger] sys_ok(eqs, st) && equations_outcome(eqs, st, r),
                    });
                }
            }
            r
        },
        Ok(Input::Equations(equations)) => {
            let ghost qs = equations@;
            let sys = LinearSystem { equations };
            proof {
                assert(eqs_model(qs) =~= qs.map_values(|q: crate::parser::Equation| crate::parser::equation_model(q)));
                assert(sys.ready());
            }
            let out = sys.solve();
            let single = sys.equations.len() == 1;
            let r = match out {
                Err(SolveError::Unsupported(m)) => if single {
                    solve_polynomial(&sys.equations[0])
                } else {
                    Err(Error::Solve(SolveError::Unsupported(m)))
                },
                Err(e) => Err(Error::Solve(e)),
                Ok((None, _)) => Ok(Outcome::Approximate),
                Ok((Some(sol), steps)) => Ok(Outcome::Linear(sol, steps)),
            };
            proof {
                let st = choose|st: SysTrace| #[trigger] sys_ok(eqs_model(sys.equations@), st) && match out {
                    Err(e) => st.res == Err::<Option<Seq<Seq<char>>>, crate::solve::SolveError>(e),
                    Ok((None, steps)) => st.res == Ok::<Option<Seq<Seq<char>>>, crate::solve::SolveError>(None) && steps@.len() == 0,
                    Ok((Some(sol), steps)) => st.res matches Ok(Some(ord)) && exists|rows: Seq<Seq<Value>>|
                        #[trigger] rows_ok(rows, st.forms, ord.len()) && solution_ok(sol, rows, ord) && steps_ok(steps@, rows, ord),
                };
                assert(eqs_model(qs).len() == qs.len());
                if qs.len() == 1 {
                    assert(eqs_model(qs)[0] == crate::parser::equation_model(qs[0]));
                }
                assert(sys_ok(eqs_model(qs), st) && equations_outcome(eqs_model(qs), st, r));
                if lex(input@, 0) is Ok {
                    assert(lexes_to(input@, t));
                    assert(input_spec(t, len) == Ok::<SInput, crate::token::SpecErr>(SInput::Equations(eqs_model(qs))));
                    assert(sys_ok(input_spec(t, len)->Ok_0->Equations_0, st));
                    assert(match input_spec(t, len) {
                        Err(se) => r matches Err(Error::Parse(e2)) && err_is(e2, se),
                        Ok(SInput::Expr(se)) => exists|ev: EvalResult| #[trigger] evaluates(se, ev) && expr_outcome(se, ev, r),
                        Ok(SInput::Equations(eqs)) => exists|st: SysTrace| #[trigger] sys_ok(eqs, st) && equations_outcome(eqs, st, r),
                    });
                }
            }
            r
        },
    }
}

} // verus!
