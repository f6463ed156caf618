//! Slow path for "hard problems": solving with a step trace.

use vstd::prelude::*;
use crate::error::EvalError;

verus! {

#[derive(Debug, Clone, PartialEq)]
pub struct Step {
    pub description: String,
    /// The state after this step, one line per equation/row.
    pub snapshot: Vec<String>,
}

#[derive(Debug, Clone, PartialEq)]
pub enum SolveError {
    /// Outside what the solver can handle; reported honestly, never guessed.
    Unsupported(String),
    Eval(EvalError),
}

impl From<EvalError> for SolveError {
    fn from(e: EvalError) -> (r: Self) {
        SolveError::Eval(e)
    }
}

impl vstd::std_specs::convert::FromSpecImpl<EvalError> for SolveError {
    open spec fn obeys_from_spec() -> bool {
        true
    }

    open spec fn from_spec(v: EvalError) -> SolveError {
        SolveError::Eval(v)
    }
}

impl SolveError {
    /// The message shown to the user.
    pub fn message(&self) -> (r: String)
        ensures
            r@ == self.text(),
    {
        match self {
            SolveError::Unsupported(m) => m.clone(),
            SolveError::Eval(e) => e.message(),
        }
    }

    pub open spec fn text(&self) -> Seq<char> {
        match self {
            SolveError::Unsupported(m) => m@,
            SolveError::Eval(e) => e.text(),
        }
    }
}

pub trait Solve {
    type Output;

    /// The problem is in a form the solver accepts.
    spec fn ready(&self) -> bool;

    fn solve(&self) -> Result<(Self::Output, Vec<Step>), SolveError>
        requires
            self.ready(),
    ;
}

} // verus!
