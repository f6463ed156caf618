//! Error types for parsing, evaluation and solving, with their messages.

use vstd::prelude::*;
use vstd::string::*;
use crate::solve::SolveError;
use crate::text::{decimal_text, usize_text};

verus! {

#[derive(Debug, Clone, PartialEq)]
pub struct ParseError {
    pub message: String,
    /// Byte span in the input, for pointing at the problem.
    pub start: usize,
    pub end: usize,
}

impl ParseError {
    pub fn new(message: String, start: usize, end: usize) -> (r: Self)
        ensures
            r.message == message,
            r.start == start,
            r.end == end,
    {
        ParseError { message, start, end }
    }

    /// The message shown to the user.
    pub fn message(&self) -> (r: String)
        ensures
            r@ == self.message@,
    {
        self.message.clone()
    }
}

#[derive(Debug, Clone, Copy, PartialEq, Eq, Structural)]
pub enum NameKind {
    Function,
    Variable,
}

#[derive(Debug, Clone, PartialEq)]
pub enum EvalError {
    DivisionByZero,
    Domain(String),
    UnknownName { name: String, kind: NameKind, suggestion: Option<String> },
    Arity { name: String, expected: String, got: usize },
    TooLarge(String),
}

#[derive(Debug, Clone, PartialEq)]
pub enum Error {
    Parse(ParseError),
    Eval(EvalError),
    Solve(SolveError),
}

impl From<SolveError> for Error {
    fn from(e: SolveError) -> (r: Self) {
        Error::Solve(e)
    }
}

impl vstd::std_specs::convert::FromSpecImpl<SolveError> for Error {
    open spec fn obeys_from_spec() -> bool {
        true
    }

    open spec fn from_spec(v: SolveError) -> Error {
        Error::Solve(v)
    }
}

impl From<ParseError> for Error {
    fn from(e: ParseError) -> (r: Self) {
        Error::Parse(e)
    }
}

impl vstd::std_specs::convert::FromSpecImpl<ParseError> for Error {
    open spec fn obeys_from_spec() -> bool {
        true
    }

    open spec fn from_spec(v: ParseError) -> Error {
        Error::Parse(v)
    }
}

impl From<EvalError> for Error {
    fn from(e: EvalError) -> (r: Self) {
        Error::Eval(e)
    }
}

impl vstd::std_specs::convert::FromSpecImpl<EvalError> for Error {
    open spec fn obeys_from_spec() -> bool {
        true
    }

    open spec fn from_spec(v: EvalError) -> Error {
        Error::Eval(v)
    }
}

impl EvalError {
    /// The message of each error, as the user sees it.
    pub open spec fn text(&self) -> Seq<char> {
        match self {
            EvalError::DivisionByZero => "division by zero"@,
            EvalError::Domain(m) => m@,
            EvalError::TooLarge(m) => m@,
            EvalError::UnknownName { name, kind, suggestion } => {
                let what = match kind {
                    NameKind::Function => "function"@,
                    NameKind::Variable => "name"@,
                };
                let head = "unknown "@ + what + " '"@ + name@ + "'"@;
                match suggestion {
                    Some(s) => head + " (did you mean '"@ + s@ + "'?)"@,
                    None => head,
                }
            },
            EvalError::Arity { name, expected, got } => name@ + "() takes "@ + expected@
                + " argument(s), got "@ + decimal_text(*got as nat),
        }
    }

    pub fn message(&self) -> (r: String)
        ensures
            r@ == self.text(),
    {
        match self {
            EvalError::DivisionByZero => String::from_str("division by zero"),
            EvalError::Domain(m) => m.clone(),
            EvalError::TooLarge(m) => m.clone(),
            EvalError::UnknownName { name, kind, suggestion } => {
                let mut out = String::from_str("unknown ");
                match kind {
                    NameKind::Function => out.append("function"),
                    NameKind::Variable => out.append("name"),
                }
                out.append(" '");
                out.append(name.as_str());
                out.append("'");
                match suggestion {
                    Some(s) => {
                        out.append(" (did you mean '");
                        out.append(s.as_str());
                        out.append("'?)");
                    },
                    None => {},
                }
                out
            },
            EvalError::Arity { name, expected, got } => {
                let mut out = name.clone();
                out.append("() takes ");
                out.append(expected.as_str());
                out.append(" argument(s), got ");
                let g = usize_text(*got);
                out.append(g.as_str());
                out
            },
        }
    }
}

impl Error {
    pub open spec fn text(&self) -> Seq<char> {
        match self {
            Error::Parse(e) => e.message@,
            Error::Eval(e) => e.text(),
            Error::Solve(e) => e.text(),
        }
    }

    /// The message shown to the user.
    pub fn message(&self) -> (r: String)
        ensures
            r@ == self.text(),
    {
        match self {
            Error::Parse(e) => e.message(),
            Error::Eval(e) => e.message(),
            Error::Solve(e) => e.message(),
        }
    }
}

} // verus!
