//! Pratt parser.
//!
//! Precedence (loosest to tightest): `+ -`, `* /` and implicit multiplication,
//! unary `-`, `^` (right-assoc), postfix `!`. So `-2^2 = -4`, `2^3^2 = 512`.
//!
//! The grammar is stated as spec functions over the token sequence, with a
//! fuel argument that bounds the depth of the recursion; the executable
//! parser is proved to give exactly their result, with fuel to spare.

use vstd::prelude::*;
use vstd::string::*;
use crate::ast::{Expr, SExpr, model, models, lemma_models, swf, name_count, names_from, lemma_names_from_push};
use crate::builtins::{is_constant, is_function, function_names, command_names, constant_names};
use crate::error::ParseError;
use crate::token::{
    describe, describe_text, kind_wf, Token, TokenKind, SpecErr, lex, tokens_match, kind_matches, byte_offset,
    error_matches, tokenize, byte_len, MAX_SCI_EXPONENT, lemma_lex_len,
};
use crate::value::{Value, czero_frac};

verus! {

pub const ADD_BP: (u8, u8) = (10, 11);
pub const MUL_BP: (u8, u8) = (20, 21);
pub const PREFIX_BP: u8 = 25;
pub const POW_BP: (u8, u8) = (31, 30);
pub const POSTFIX_BP: u8 = 40;

/// Every number token is in lowest terms.
pub open spec fn tokens_wf(t: Seq<Token>) -> bool {
    forall|k: int| 0 <= k < t.len() ==> kind_wf(#[trigger] t[k].kind)
}

/// A parse result: the tree and the position after it, or an error.
pub type PRes = Result<(SExpr, int), SpecErr>;

pub open spec fn out_of_fuel() -> SpecErr {
    ("nesting too deep"@, 0, 0)
}

/// The error for a token that cannot stand where it is.
pub open spec fn unexpected_err(t: Token) -> SpecErr {
    (
        if t.kind is RParen { "unmatched ')'"@ } else { "unexpected "@ + describe_text(t.kind) },
        t.start as int,
        t.end as int,
    )
}

pub open spec fn end_of_input_err(end: int) -> SpecErr {
    ("expected an expression, found end of input"@, end, end)
}

pub open spec fn unclosed_err(open: Token) -> SpecErr {
    ("unclosed '('"@, open.start as int, open.end as int)
}

pub open spec fn needs_parens_text(name: Seq<char>) -> Seq<char> {
    "function '"@ + name + "' needs parentheses, e.g. "@ + name + "(x)"@
}

pub open spec fn is_function_name(name: Seq<char>) -> bool {
    function_names().contains(name) || command_names().contains(name)
}

/// Binding powers of a binary operator token.
pub open spec fn infix_bp(k: TokenKind) -> (int, int) {
    match k {
        TokenKind::Plus | TokenKind::Minus => (10, 11),
        TokenKind::Star | TokenKind::Slash => (20, 21),
        _ => (31, 30),
    }
}

pub open spec fn is_infix(k: TokenKind) -> bool {
    k is Plus || k is Minus || k is Star || k is Slash || k is Caret
}

pub open spec fn combine(k: TokenKind, a: SExpr, b: SExpr) -> SExpr {
    match k {
        TokenKind::Plus => SExpr::Add(Box::new(a), Box::new(b)),
        TokenKind::Minus => SExpr::Sub(Box::new(a), Box::new(b)),
        TokenKind::Star => SExpr::Mul(Box::new(a), Box::new(b)),
        TokenKind::Slash => SExpr::Div(Box::new(a), Box::new(b)),
        _ => SExpr::Pow(Box::new(a), Box::new(b)),
    }
}

/// An expression whose operators bind at least as tightly as `min_bp`.
pub open spec fn p_expr(t: Seq<Token>, pos: int, min_bp: int, end: int, f: nat) -> PRes
    decreases f, 1int,
{
    if f == 0 {
        Err(out_of_fuel())
    } else {
        match p_prefix(t, pos, end, (f - 1) as nat) {
            Err(e) => Err(e),
            Ok((lhs, p)) => p_loop(t, lhs, p, min_bp, end, (f - 1) as nat),
        }
    }
}

/// Operators after a complete left operand.
pub open spec fn p_loop(t: Seq<Token>, lhs: SExpr, pos: int, min_bp: int, end: int, f: nat) -> PRes
    decreases f, 0int,
{
    if f == 0 {
        Err(out_of_fuel())
    } else if pos < 0 || pos >= t.len() {
        Ok((lhs, pos))
    } else {
        let k = t[pos].kind;
        if k is Bang {
            if POSTFIX_BP < min_bp {
                Ok((lhs, pos))
            } else {
                p_loop(t, SExpr::Factorial(Box::new(lhs)), pos + 1, min_bp, end, (f - 1) as nat)
            }
        } else if is_infix(k) {
            if infix_bp(k).0 < min_bp {
                Ok((lhs, pos))
            } else {
                match p_expr(t, pos + 1, infix_bp(k).1, end, (f - 1) as nat) {
                    Err(e) => Err(e),
                    Ok((rhs, p)) => p_loop(t, combine(k, lhs, rhs), p, min_bp, end, (f - 1) as nat),
                }
            }
        } else if k is Num || k is Ident || k is LParen {
            if MUL_BP.0 < min_bp {
                Ok((lhs, pos))
            } else if k is Num {
                Err(("missing operator before "@ + describe_text(k), t[pos].start as int, t[pos].end as int))
            } else {
                match p_expr(t, pos, MUL_BP.1 as int, end, (f - 1) as nat) {
                    Err(e) => Err(e),
                    Ok((rhs, p)) => p_loop(
                        t,
                        SExpr::Mul(Box::new(lhs), Box::new(rhs)),
                        p,
                        min_bp,
                        end,
                        (f - 1) as nat,
                    ),
                }
            }
        } else {
            Ok((lhs, pos))
        }
    }
}

/// A number, a signed operand, a parenthesized expression, or a name.
pub open spec fn p_prefix(t: Seq<Token>, pos: int, end: int, f: nat) -> PRes
    decreases f, 2int,
{
    if f == 0 {
        Err(out_of_fuel())
    } else if pos < 0 || pos >= t.len() {
        Err(end_of_input_err(end))
    } else {
        match t[pos].kind {
            TokenKind::Num(v) => Ok((SExpr::Num((v@, czero_frac())), pos + 1)),
            TokenKind::Minus => match p_expr(t, pos + 1, PREFIX_BP as int, end, (f - 1) as nat) {
                Err(e) => Err(e),
                Ok((e, p)) => Ok((SExpr::Neg(Box::new(e)), p)),
            },
            TokenKind::Plus => p_expr(t, pos + 1, PREFIX_BP as int, end, (f - 1) as nat),
            TokenKind::LParen => match p_expr(t, pos + 1, 0, end, (f - 1) as nat) {
                Err(e) => Err(e),
                Ok((e, p)) => if p < t.len() && t[p].kind is RParen {
                    Ok((e, p + 1))
                } else if p < t.len() {
                    Err(unexpected_err(t[p]))
                } else {
                    Err(unclosed_err(t[pos]))
                },
            },
            TokenKind::Ident(name) => p_ident(t, pos, end, (f - 1) as nat),
            _ => Err(unexpected_err(t[pos])),
        }
    }
}

/// A name: a call when a '(' follows and the name is a function, or an
/// unknown name of several letters; otherwise a variable.
pub open spec fn p_ident(t: Seq<Token>, pos: int, end: int, f: nat) -> PRes
    decreases f, 2int,
{
    let name = t[pos].kind->Ident_0@;
    let paren = pos + 1 < t.len() && t[pos + 1].kind is LParen;
    if f == 0 {
        Err(out_of_fuel())
    } else if is_function_name(name) && !paren {
        Err((needs_parens_text(name), t[pos].start as int, t[pos].end as int))
    } else if !(paren && (is_function_name(name) || !(constant_names().contains(name) || name.len() == 1))) {
        Ok((SExpr::Var(name), pos + 1))
    } else if pos + 2 < t.len() && t[pos + 2].kind is RParen {
        Ok((SExpr::Call(name, seq![]), pos + 3))
    } else {
        p_args(t, name, t[pos + 1], seq![], pos + 2, end, (f - 1) as nat)
    }
}

/// Call arguments after the first `acc`, up to the closing ')'.
pub open spec fn p_args(
    t: Seq<Token>,
    name: Seq<char>,
    open: Token,
    acc: Seq<SExpr>,
    pos: int,
    end: int,
    f: nat,
) -> PRes
    decreases f, 2int,
{
    if f == 0 {
        Err(out_of_fuel())
    } else {
        match p_expr(t, pos, 0, end, (f - 1) as nat) {
            Err(e) => Err(e),
            Ok((a, p)) => if p < 0 || p >= t.len() {
                Err(unclosed_err(open))
            } else if t[p].kind is Comma {
                p_args(t, name, open, acc.push(a), p + 1, end, (f - 1) as nat)
            } else if t[p].kind is RParen {
                Ok((SExpr::Call(name, acc.push(a)), p + 1))
            } else {
                Err(unexpected_err(t[p]))
            },
        }
    }
}

/// Fuel that the parser never exhausts on `n` tokens.
pub open spec fn full_fuel(n: int) -> nat {
    (2 * n + 3) as nat
}

/// The tokens as one expression; `end` is where "end of input" points.
pub open spec fn parse_spec(t: Seq<Token>, end: int) -> Result<SExpr, SpecErr> {
    if t.len() == 0 {
        Err(("empty input"@, 0, 0))
    } else {
        match p_expr(t, 0, 0, end, full_fuel(t.len() as int)) {
            Err(e) => Err(e),
            Ok((e, p)) => if p < t.len() { Err(unexpected_err(t[p])) } else { Ok(e) },
        }
    }
}

/// The number token `t` as an expression.
pub open spec fn num_of(t: Token) -> SExpr {
    SExpr::Num((t.kind->Num_0@, czero_frac()))
}

/// How tightly an operator binds: `+ -` least, then `* /`, then `^`.
pub open spec fn level(k: TokenKind) -> int {
    if k is Plus || k is Minus { 1 } else if k is Star || k is Slash { 2 } else { 3 }
}

/// The tighter operator applies first; of two on one level the left one,
/// except for `^`, which groups to the right: `8 / 4 / 2` is `(8 / 4) / 2`,
/// `6 / 2 * 3` is `(6 / 2) * 3`, `10 - 4 - 3` is `(10 - 4) - 3`,
/// `1 + 2 * 3` is `1 + (2 * 3)`, `2 ^ 3 ^ 2` is `2 ^ (3 ^ 2)`.
pub proof fn law_operator_grouping(t: Seq<Token>, end: int)
    requires
        t.len() == 5,
        t[0].kind is Num,
        t[2].kind is Num,
        t[4].kind is Num,
        is_infix(t[1].kind),
        is_infix(t[3].kind),
    ensures
        level(t[3].kind) > level(t[1].kind) || (t[1].kind is Caret && t[3].kind is Caret) ==> parse_spec(t, end)
            == Ok::<SExpr, SpecErr>(combine(t[1].kind, num_of(t[0]), combine(t[3].kind, num_of(t[2]), num_of(t[4])))),
        !(level(t[3].kind) > level(t[1].kind) || (t[1].kind is Caret && t[3].kind is Caret)) ==> parse_spec(t, end)
            == Ok::<SExpr, SpecErr>(combine(t[3].kind, combine(t[1].kind, num_of(t[0]), num_of(t[2])), num_of(t[4]))),
        t[1].kind is Slash && t[3].kind is Slash ==> parse_spec(t, end) == Ok::<SExpr, SpecErr>(SExpr::Div(
            Box::new(SExpr::Div(Box::new(num_of(t[0])), Box::new(num_of(t[2])))), Box::new(num_of(t[4])))),
        t[1].kind is Slash && t[3].kind is Star ==> parse_spec(t, end) == Ok::<SExpr, SpecErr>(SExpr::Mul(
            Box::new(SExpr::Div(Box::new(num_of(t[0])), Box::new(num_of(t[2])))), Box::new(num_of(t[4])))),
        t[1].kind is Star && t[3].kind is Slash ==> parse_spec(t, end) == Ok::<SExpr, SpecErr>(SExpr::Div(
            Box::new(SExpr::Mul(Box::new(num_of(t[0])), Box::new(num_of(t[2])))), Box::new(num_of(t[4])))),
{
    let (a, b, c) = (num_of(t[0]), num_of(t[2]), num_of(t[4]));
    let (o1, o2) = (t[1].kind, t[3].kind);
    assert(p_prefix(t, 0, end, 12) == Ok::<(SExpr, int), SpecErr>((a, 1)));
    assert(p_prefix(t, 2, end, 10) == Ok::<(SExpr, int), SpecErr>((b, 3)));
    assert(full_fuel(5) == 13);
    if level(o2) > level(o1) || (o1 is Caret && o2 is Caret) {
        let bc = combine(o2, b, c);
        assert(infix_bp(o2).0 >= infix_bp(o1).1);
        assert(p_prefix(t, 4, end, 8) == Ok::<(SExpr, int), SpecErr>((c, 5)));
        assert(p_loop(t, c, 5, infix_bp(o2).1, end, 8) == Ok::<(SExpr, int), SpecErr>((c, 5)));
        assert(p_expr(t, 4, infix_bp(o2).1, end, 9) == Ok::<(SExpr, int), SpecErr>((c, 5)));
        assert(p_loop(t, bc, 5, infix_bp(o1).1, end, 9) == Ok::<(SExpr, int), SpecErr>((bc, 5)));
        assert(p_loop(t, b, 3, infix_bp(o1).1, end, 10) == Ok::<(SExpr, int), SpecErr>((bc, 5)));
        assert(p_expr(t, 2, infix_bp(o1).1, end, 11) == Ok::<(SExpr, int), SpecErr>((bc, 5)));
        assert(p_loop(t, combine(o1, a, bc), 5, 0, end, 11) == Ok::<(SExpr, int), SpecErr>((combine(o1, a, bc), 5)));
        assert(p_loop(t, a, 1, 0, end, 12) == Ok::<(SExpr, int), SpecErr>((combine(o1, a, bc), 5)));
        assert(p_expr(t, 0, 0, end, 13) == Ok::<(SExpr, int), SpecErr>((combine(o1, a, bc), 5)));
    } else {
        let ab = combine(o1, a, b);
        assert(infix_bp(o2).0 < infix_bp(o1).1);
        assert(p_prefix(t, 4, end, 9) == Ok::<(SExpr, int), SpecErr>((c, 5)));
        assert(p_loop(t, b, 3, infix_bp(o1).1, end, 10) == Ok::<(SExpr, int), SpecErr>((b, 3)));
        assert(p_expr(t, 2, infix_bp(o1).1, end, 11) == Ok::<(SExpr, int), SpecErr>((b, 3)));
        assert(p_loop(t, c, 5, infix_bp(o2).1, end, 9) == Ok::<(SExpr, int), SpecErr>((c, 5)));
        assert(p_expr(t, 4, infix_bp(o2).1, end, 10) == Ok::<(SExpr, int), SpecErr>((c, 5)));
        assert(p_loop(t, combine(o2, ab, c), 5, 0, end, 10) == Ok::<(SExpr, int), SpecErr>((combine(o2, ab, c), 5)));
        assert(p_loop(t, ab, 3, 0, end, 11) == Ok::<(SExpr, int), SpecErr>((combine(o2, ab, c), 5)));
        assert(p_loop(t, a, 1, 0, end, 12) == Ok::<(SExpr, int), SpecErr>((combine(o2, ab, c), 5)));
        assert(p_expr(t, 0, 0, end, 13) == Ok::<(SExpr, int), SpecErr>((combine(o2, ab, c), 5)));
    }
}

/// A leading minus binds more loosely than `^` and more tightly than the
/// other operators: `-2 ^ 2` is `-(2 ^ 2)`, `-2 * 3` is `(-2) * 3`,
/// `-2 - 3` is `(-2) - 3`.
pub proof fn law_leading_minus(t: Seq<Token>, end: int)
    requires
        t.len() == 4,
        t[0].kind is Minus,
        t[1].kind is Num,
        t[3].kind is Num,
        is_infix(t[2].kind),
    ensures
        t[2].kind is Caret ==> parse_spec(t, end) == Ok::<SExpr, SpecErr>(
            SExpr::Neg(Box::new(SExpr::Pow(Box::new(num_of(t[1])), Box::new(num_of(t[3])))))),
        !(t[2].kind is Caret) ==> parse_spec(t, end) == Ok::<SExpr, SpecErr>(
            combine(t[2].kind, SExpr::Neg(Box::new(num_of(t[1]))), num_of(t[3]))),
{
    let (a, b) = (num_of(t[1]), num_of(t[3]));
    let o = t[2].kind;
    assert(full_fuel(4) == 11);
    assert(p_prefix(t, 1, end, 8) == Ok::<(SExpr, int), SpecErr>((a, 2)));
    if o is Caret {
        let ab = combine(o, a, b);
        assert(p_prefix(t, 3, end, 6) == Ok::<(SExpr, int), SpecErr>((b, 4)));
        assert(p_loop(t, b, 4, 30, end, 6) == Ok::<(SExpr, int), SpecErr>((b, 4)));
        assert(p_expr(t, 3, 30, end, 7) == Ok::<(SExpr, int), SpecErr>((b, 4)));
        assert(p_loop(t, ab, 4, 25, end, 7) == Ok::<(SExpr, int), SpecErr>((ab, 4)));
        assert(p_loop(t, a, 2, 25, end, 8) == Ok::<(SExpr, int), SpecErr>((ab, 4)));
        assert(p_expr(t, 1, 25, end, 9) == Ok::<(SExpr, int), SpecErr>((ab, 4)));
        let n = SExpr::Neg(Box::new(ab));
        assert(p_prefix(t, 0, end, 10) == Ok::<(SExpr, int), SpecErr>((n, 4)));
        assert(p_loop(t, n, 4, 0, end, 10) == Ok::<(SExpr, int), SpecErr>((n, 4)));
        assert(p_expr(t, 0, 0, end, 11) == Ok::<(SExpr, int), SpecErr>((n, 4)));
    } else {
        let n = SExpr::Neg(Box::new(a));
        let nb = combine(o, n, b);
        assert(p_loop(t, a, 2, 25, end, 8) == Ok::<(SExpr, int), SpecErr>((a, 2)));
        assert(p_expr(t, 1, 25, end, 9) == Ok::<(SExpr, int), SpecErr>((a, 2)));
        assert(p_prefix(t, 0, end, 10) == Ok::<(SExpr, int), SpecErr>((n, 2)));
        assert(p_prefix(t, 3, end, 8) == Ok::<(SExpr, int), SpecErr>((b, 4)));
        assert(p_loop(t, b, 4, infix_bp(o).1, end, 8) == Ok::<(SExpr, int), SpecErr>((b, 4)));
        assert(p_expr(t, 3, infix_bp(o).1, end, 9) == Ok::<(SExpr, int), SpecErr>((b, 4)));
        assert(p_loop(t, nb, 4, 0, end, 9) == Ok::<(SExpr, int), SpecErr>((nb, 4)));
        assert(p_loop(t, n, 2, 0, end, 10) == Ok::<(SExpr, int), SpecErr>((nb, 4)));
        assert(p_expr(t, 0, 0, end, 11) == Ok::<(SExpr, int), SpecErr>((nb, 4)));
    }
}

/// An executable error is the specification's.
pub open spec fn err_is(e: ParseError, s: SpecErr) -> bool {
    e.message@ == s.0 && e.start == s.1 && e.end == s.2
}

/// An executable parse result is the specification's.
pub open spec fn res_is(r: Result<(Expr, usize), ParseError>, s: PRes) -> bool {
    match (r, s) {
        (Ok((e, p)), Ok((se, sp))) => model(e) == se && p == sp,
        (Err(e), Err(se)) => err_is(e, se),
        _ => false,
    }
}

fn unexpected(t: &Token) -> (r: ParseError)
    requires
        kind_wf(t.kind),
    ensures
        err_is(r, unexpected_err(*t)),
{
    let message = match &t.kind {
        TokenKind::RParen => String::from_str("unmatched ')'"),
        k => {
            let mut m = String::from_str("unexpected ");
            let d = describe(k);
            m.append(d.as_str());
            m
        },
    };
    ParseError::new(message, t.start, t.end)
}

fn expr(t: &[Token], pos: usize, min_bp: u8, end: usize, Ghost(f): Ghost<nat>) -> (r: Result<(Expr, usize), ParseError>)
    requires
        pos <= t@.len(),
        tokens_wf(t@),
        f >= 2 * (t@.len() - pos) + 3,
    ensures
        res_is(r, p_expr(t@, pos as int, min_bp as int, end as int, f)),
        r matches Ok((_, p)) ==> pos < p <= t@.len(),
        r matches Ok((e, _)) ==> swf(model(e)),
        r matches Ok((e, p)) ==> name_count(model(e)) <= p - pos,
    decreases f, 1int,
{
    match prefix(t, pos, end, Ghost((f - 1) as nat)) {
        Err(e) => Err(e),
        Ok((lhs, p)) => expr_loop(t, lhs, p, min_bp, end, Ghost(pos as int), Ghost((f - 1) as nat)),
    }
}

fn expr_loop(t: &[Token], first: Expr, start: usize, min_bp: u8, end: usize, Ghost(before): Ghost<int>, Ghost(f): Ghost<nat>) -> (r: Result<(Expr, usize), ParseError>)
    requires
        start <= t@.len(),
        tokens_wf(t@),
        f >= 2 * (t@.len() - start) + 4,
        swf(model(first)),
        name_count(model(first)) <= start - before,
        before <= start,
    ensures
        res_is(r, p_loop(t@, model(first), start as int, min_bp as int, end as int, f)),
        r matches Ok((_, p)) ==> start <= p <= t@.len(),
        r matches Ok((e, _)) ==> swf(model(e)),
        r matches Ok((e, p)) ==> name_count(model(e)) <= p - before,
    decreases f, 0int,
{
    let n = t.len();
    let ghost m0 = model(first);
    let ghost target = p_loop(t@, m0, start as int, min_bp as int, end as int, f);
    let mut lhs = first;
    let mut pos = start;
    let ghost mut g: nat = f;
    while pos < n
        invariant
            n == t@.len(),
            tokens_wf(t@),
            start <= pos <= n,
            m0 == model(first),
            swf(model(lhs)),
            name_count(model(lhs)) <= pos - before,
            target == p_loop(t@, m0, start as int, min_bp as int, end as int, f),
            g <= f,
            g >= 2 * (n - pos) + 4,
            target == p_loop(t@, model(lhs), pos as int, min_bp as int, end as int, g),
        decreases n - pos,
    {
        let tk = &t[pos];
        match &tk.kind {
            TokenKind::Bang => {
                if POSTFIX_BP < min_bp {
                    return Ok((lhs, pos));
                }
                lhs = Expr::Factorial(Box::new(lhs));
                pos = pos + 1;
                proof { g = (g - 1) as nat; }
            },
            TokenKind::Plus | TokenKind::Minus | TokenKind::Star | TokenKind::Slash | TokenKind::Caret => {
                let (l, rb) = match &tk.kind {
                    TokenKind::Plus | TokenKind::Minus => ADD_BP,
                    TokenKind::Star | TokenKind::Slash => MUL_BP,
                    _ => POW_BP,
                };
                assert(l as int == infix_bp(tk.kind).0 && rb as int == infix_bp(tk.kind).1);
                if l < min_bp {
                    return Ok((lhs, pos));
                }
                let rhs = match expr(t, pos + 1, rb, end, Ghost((g - 1) as nat)) {
                    Err(e) => {
                        return Err(e);
                    },
                    Ok(p) => p,
                };
                let (b, p2) = rhs;
                let a = Box::new(lhs);
                let b = Box::new(b);
                lhs = match &tk.kind {
                    TokenKind::Plus => Expr::Add(a, b),
                    TokenKind::Minus => Expr::Sub(a, b),
                    TokenKind::Star => Expr::Mul(a, b),
                    TokenKind::Slash => Expr::Div(a, b),
                    _ => Expr::Pow(a, b),
                };
                pos = p2;
                proof { g = (g - 1) as nat; }
            },
            TokenKind::Num(_) | TokenKind::Ident(_) | TokenKind::LParen => {
                if MUL_BP.0 < min_bp {
                    return Ok((lhs, pos));
                }
                if let TokenKind::Num(_) = &tk.kind {
                    let mut m = String::from_str("missing operator before ");
                    let d = describe(&tk.kind);
                    m.append(d.as_str());
                    return Err(ParseError::new(m, tk.start, tk.end));
                }
                let rhs = match expr(t, pos, MUL_BP.1, end, Ghost((g - 1) as nat)) {
                    Err(e) => {
                        return Err(e);
                    },
                    Ok(p) => p,
                };
                let (b, p2) = rhs;
                lhs = Expr::Mul(Box::new(lhs), Box::new(b));
                pos = p2;
                proof { g = (g - 1) as nat; }
            },
            _ => {
                return Ok((lhs, pos));
            },
        }
    }
    Ok((lhs, pos))
}

fn prefix(t: &[Token], pos: usize, end: usize, Ghost(f): Ghost<nat>) -> (r: Result<(Expr, usize), ParseError>)
    requires
        pos <= t@.len(),
        tokens_wf(t@),
        f >= 2 * (t@.len() - pos) + 2,
    ensures
        res_is(r, p_prefix(t@, pos as int, end as int, f)),
        r matches Ok((_, p)) ==> pos < p <= t@.len(),
        r matches Ok((e, _)) ==> swf(model(e)),
        r matches Ok((e, p)) ==> name_count(model(e)) <= p - pos,
    decreases f, 2int,
{
    if pos >= t.len() {
        return Err(ParseError::new(String::from_str("expected an expression, found end of input"), end, end));
    }
    let tk = &t[pos];
    match &tk.kind {
        TokenKind::Num(v) => {
            proof { crate::rational::lemma_gcd_one(0); }
            Ok((Expr::Num(Value::Rational(v.copy())), pos + 1))
        },
        TokenKind::Minus => match expr(t, pos + 1, PREFIX_BP, end, Ghost((f - 1) as nat)) {
            Err(e) => Err(e),
            Ok((e, p)) => Ok((Expr::Neg(Box::new(e)), p)),
        },
        TokenKind::Plus => expr(t, pos + 1, PREFIX_BP, end, Ghost((f - 1) as nat)),
        TokenKind::LParen => match expr(t, pos + 1, 0, end, Ghost((f - 1) as nat)) {
            Err(e) => Err(e),
            Ok((e, p)) => {
                if p < t.len() {
                    if let TokenKind::RParen = &t[p].kind {
                        Ok((e, p + 1))
                    } else {
                        Err(unexpected(&t[p]))
                    }
                } else {
                    Err(ParseError::new(String::from_str("unclosed '('"), tk.start, tk.end))
                }
            },
        },
        TokenKind::Ident(name) => ident(t, pos, name, end, Ghost((f - 1) as nat)),
        _ => Err(unexpected(tk)),
    }
}

fn ident(t: &[Token], pos: usize, name: &String, end: usize, Ghost(f): Ghost<nat>) -> (r: Result<(Expr, usize), ParseError>)
    requires
        pos < t@.len(),
        t@[pos as int].kind == TokenKind::Ident(*name),
        tokens_wf(t@),
        f >= 2 * (t@.len() - pos) + 1,
    ensures
        res_is(r, p_ident(t@, pos as int, end as int, f)),
        r matches Ok((_, p)) ==> pos < p <= t@.len(),
        r matches Ok((e, _)) ==> swf(model(e)),
        r matches Ok((e, p)) ==> name_count(model(e)) <= p - pos,
    decreases f, 2int,
{
    let tk = &t[pos];
    let paren = pos + 1 < t.len() && matches!(t[pos + 1].kind, TokenKind::LParen);
    let function = is_function(name.as_str());
    if function && !paren {
        let mut m = String::from_str("function '");
        m.append(name.as_str());
        m.append("' needs parentheses, e.g. ");
        m.append(name.as_str());
        m.append("(x)");
        return Err(ParseError::new(m, tk.start, tk.end));
    }
    let is_call = paren && (function || !(is_constant(name.as_str()) || name.as_str().unicode_len() == 1));
    if !is_call {
        return Ok((Expr::Var(name.clone()), pos + 1));
    }
    if pos + 2 < t.len() && matches!(t[pos + 2].kind, TokenKind::RParen) {
        let args: Vec<Expr> = Vec::new();
        proof {
            assert(models(args@) =~= seq![]);
            crate::ast::lemma_swf_from(models(args@), 0);
        }
        return Ok((Expr::Call(name.clone(), args), pos + 3));
    }
    let open = &t[pos + 1];
    let mut args: Vec<Expr> = Vec::new();
    let mut p = pos + 2;
    let ghost mut g: nat = (f - 1) as nat;
    let ghost target = p_args(t@, name@, *open, seq![], p as int, end as int, g);
    proof { assert(models(args@) =~= seq![]); }
    assert(target == p_ident(t@, pos as int, end as int, f));
    loop
        invariant
            target == p_ident(t@, pos as int, end as int, f),
            pos + 2 <= p <= t@.len(),
            tokens_wf(t@),
            g >= 2 * (t@.len() - p) + 4,
            g < f,
            *open == t@[pos + 1],
            forall|k: int| 0 <= k < args@.len() ==> swf(#[trigger] model(args@[k])),
            target == p_args(t@, name@, *open, models(args@), p as int, end as int, g),
        decreases t@.len() - p,
    {
        let ghost before = args@;
        let (a, q) = match expr(t, p, 0, end, Ghost((g - 1) as nat)) {
            Err(e) => {
                return Err(e);
            },
            Ok(x) => x,
        };
        let ghost am = model(a);
        args.push(a);
        proof {
            assert(args@.subrange(0, args@.len() - 1) =~= before);
            assert(models(args@) == models(before).push(am));
        }
        if q >= t.len() {
            return Err(ParseError::new(String::from_str("unclosed '('"), open.start, open.end));
        }
        match &t[q].kind {
            TokenKind::Comma => {
                p = q + 1;
                proof { g = (g - 1) as nat; }
            },
            TokenKind::RParen => {
                proof {
                    lemma_models(args@);
                    assert forall|k: int| 0 <= k < models(args@).len() implies swf(#[trigger] models(args@)[k]) by {
                        assert(swf(model(args@[k])));
                    }
                    crate::ast::lemma_swf_from(models(args@), 0);
                }
                return Ok((Expr::Call(name.clone(), args), q + 1));
            },
            _ => {
                return Err(unexpected(&t[q]));
            },
        }
    }
}

/// Parse a whole token slice as one expression; `end` is the byte offset
/// reported for "unexpected end" errors.
pub fn parse_tokens(tokens: &[Token], end: usize) -> (r: Result<Expr, ParseError>)
    requires
        tokens_wf(tokens@),
        tokens@.len() < 0x1000_0000_0000_0000,
    ensures
        match (r, parse_spec(tokens@, end as int)) {
            (Ok(e), Ok(se)) => model(e) == se,
            (Err(e), Err(se)) => err_is(e, se),
            _ => false,
        },
        r matches Ok(e) ==> swf(model(e)),
        r matches Ok(e) ==> name_count(model(e)) <= tokens@.len(),
{
    if tokens.len() == 0 {
        return Err(ParseError::new(String::from_str("empty input"), 0, 0));
    }
    let (e, p) = match expr(tokens, 0, 0, end, Ghost(full_fuel(tokens@.len() as int))) {
        Err(e) => {
            return Err(e);
        },
        Ok(x) => x,
    };
    if p < tokens.len() {
        return Err(unexpected(&tokens[p]));
    }
    Ok(e)
}


#[derive(Debug)]
pub struct Equation {
    pub lhs: Expr,
    pub rhs: Expr,
}

#[derive(Debug)]
pub enum Input {
    Expr(Expr),
    /// `;`-separated equations, e.g. `x+y=60; x-y=30;`
    Equations(Vec<Equation>),
}

/// What an `Input` denotes.
pub enum SInput {
    Expr(SExpr),
    Equations(Seq<(SExpr, SExpr)>),
}

pub open spec fn equation_model(q: Equation) -> (SExpr, SExpr) {
    (model(q.lhs), model(q.rhs))
}

pub open spec fn input_model(i: Input) -> SInput {
    match i {
        Input::Expr(e) => SInput::Expr(model(e)),
        Input::Equations(qs) => SInput::Equations(qs@.map_values(|q: Equation| equation_model(q))),
    }
}

/// Every number is in lowest terms, and there are at most `len` equations.
pub open spec fn input_wf(i: Input, len: nat) -> bool {
    match i {
        Input::Expr(e) => swf(model(e)),
        Input::Equations(qs) => qs@.len() <= len
            && names_from(qs@.map_values(|q: Equation| equation_model(q)), 0) <= len
            && forall|k: int| 0 <= k < qs@.len() ==> swf(model(#[trigger] qs@[k].lhs)) && swf(model(qs@[k].rhs)),
    }
}

/// Index of the first '=' at or after `i`, or the length if there is none.
pub open spec fn eq_from(c: Seq<Token>, i: int) -> int
    decreases c.len() - i,
{
    if i < 0 || i >= c.len() {
        c.len() as int
    } else if c[i].kind is Eq {
        i
    } else {
        eq_from(c, i + 1)
    }
}

pub proof fn lemma_eq_from(c: Seq<Token>, i: int)
    requires
        0 <= i <= c.len(),
    ensures
        i <= eq_from(c, i) <= c.len(),
        eq_from(c, i) < c.len() ==> c[eq_from(c, i)].kind is Eq,
        forall|k: int| i <= k < eq_from(c, i) ==> !(#[trigger] c[k].kind is Eq),
    decreases c.len() - i,
{
    if i < c.len() && !(c[i].kind is Eq) {
        lemma_eq_from(c, i + 1);
    }
}

/// One equation: exactly one '=', with a side on each part of it.
pub open spec fn equation_spec(c: Seq<Token>) -> Result<(SExpr, SExpr), SpecErr> {
    let start = c[0].start as int;
    let end = c[c.len() - 1].end as int;
    let at = eq_from(c, 0);
    if at >= c.len() {
        Err(("expected '=' in equation"@, start, end))
    } else if eq_from(c, at + 1) < c.len() {
        let i = eq_from(c, at + 1);
        Err(("an equation can only have one '='"@, c[i].start as int, c[i].end as int))
    } else if at == 0 {
        Err(("missing left-hand side before '='"@, c[at].start as int, c[at].end as int))
    } else if at == c.len() - 1 {
        Err(("missing right-hand side after '='"@, c[at].start as int, c[at].end as int))
    } else {
        match parse_spec(c.subrange(0, at), c[at].start as int) {
            Err(e) => Err(e),
            Ok(l) => match parse_spec(c.subrange(at + 1, c.len() as int), end) {
                Err(e) => Err(e),
                Ok(r) => Ok((l, r)),
            },
        }
    }
}

/// End of the run of tokens other than ';' from `i`.
pub open spec fn run_end(t: Seq<Token>, i: int) -> int
    decreases t.len() - i,
{
    if 0 <= i < t.len() && !(t[i].kind is Semi) {
        run_end(t, i + 1)
    } else {
        i
    }
}

pub proof fn lemma_run_end(t: Seq<Token>, i: int)
    requires
        0 <= i <= t.len(),
    ensures
        i <= run_end(t, i) <= t.len(),
        run_end(t, i) < t.len() ==> t[run_end(t, i)].kind is Semi,
    decreases t.len() - i,
{
    if i < t.len() && !(t[i].kind is Semi) {
        lemma_run_end(t, i + 1);
    }
}

/// The equations of the non-empty ';'-separated pieces from `i` on, in
/// order; the first error wins.
pub open spec fn equations_from(t: Seq<Token>, i: int) -> Result<Seq<(SExpr, SExpr)>, SpecErr>
    decreases t.len() - i,
{
    if i < 0 || i >= t.len() {
        Ok(seq![])
    } else if t[i].kind is Semi {
        equations_from(t, i + 1)
    } else {
        let j = run_end(t, i);
        proof {
            lemma_run_end(t, i + 1);
        }
        match equation_spec(t.subrange(i, j)) {
            Err(e) => Err(e),
            Ok(q) => match equations_from(t, j) {
                Err(e) => Err(e),
                Ok(rest) => Ok(seq![q] + rest),
            },
        }
    }
}

pub open spec fn has_eq_or_semi(t: Seq<Token>) -> bool {
    exists|k: int| 0 <= k < t.len() && (#[trigger] t[k].kind is Eq || t[k].kind is Semi)
}

/// A plain expression, or a system of equations when an '=' or ';' occurs.
pub open spec fn input_spec(t: Seq<Token>, end: int) -> Result<SInput, SpecErr> {
    if !has_eq_or_semi(t) {
        match parse_spec(t, end) {
            Err(e) => Err(e),
            Ok(e) => Ok(SInput::Expr(e)),
        }
    } else {
        match equations_from(t, 0) {
            Err(e) => Err(e),
            Ok(qs) => if qs.len() == 0 { Err(("no equations given"@, 0, end)) } else { Ok(SInput::Equations(qs)) },
        }
    }
}

/// The tokens of `input` are what the lexer specification gives.
pub open spec fn lexes_to(input: Seq<char>, t: Seq<Token>) -> bool {
    &&& lex(input, 0) matches Ok(s)
    &&& tokens_match(t, s, input)
    &&& tokens_wf(t)
}

/// Limits that keep positions and lengths within `usize`.
pub open spec fn input_fits(input: Seq<char>) -> bool {
    &&& input.len() < 0x1000_0000_0000_0000
    &&& input.len() + MAX_SCI_EXPONENT < usize::MAX
    &&& byte_offset(input, input.len() as int) <= usize::MAX
}

pub open spec fn lex_error_is(input: Seq<char>, e: ParseError) -> bool {
    lex(input, 0) matches Err(se) && error_matches(e, se, input)
}

fn lexed(input: &str) -> (r: Result<Vec<Token>, ParseError>)
    requires
        input_fits(input@),
    ensures
        lex(input@, 0) is Err <==> r is Err,
        r matches Err(e) ==> lex_error_is(input@, e),
        r matches Ok(t) ==> lexes_to(input@, t@) && t@.len() <= input@.len(),
{
    let r = tokenize(input);
    proof {
        if let Ok(t) = &r {
            let s = lex(input@, 0)->Ok_0;
            assert forall|k: int| 0 <= k < t@.len() implies kind_wf(#[trigger] t@[k].kind) by {
                assert(kind_matches(t@[k].kind, s[k].0));
            }
            lemma_lex_len(input@, 0);
        }
    }
    r
}

/// Parse a plain expression (no `=` or `;`).
pub fn parse(input: &str) -> (r: Result<Expr, ParseError>)
    requires
        input_fits(input@),
    ensures
        lex(input@, 0) is Err ==> (r matches Err(e) && lex_error_is(input@, e)),
        lex(input@, 0) is Ok ==> exists|t: Seq<Token>| #[trigger] lexes_to(input@, t) && match (r, parse_spec(t, byte_offset(input@, input@.len() as int) as int)) {
            (Ok(e), Ok(se)) => model(e) == se,
            (Err(e), Err(se)) => err_is(e, se),
            _ => false,
        },
        r matches Ok(e) ==> swf(model(e)),
{
    let tokens = match lexed(input) {
        Err(e) => {
            return Err(e);
        },
        Ok(t) => t,
    };
    let n = byte_len(input);
    let r = parse_tokens(tokens.as_slice(), n);
    assert(lexes_to(input@, tokens@));
    r
}

fn parse_equation(chunk: &[Token]) -> (r: Result<Equation, ParseError>)
    requires
        chunk@.len() > 0,
        chunk@.len() < 0x1000_0000_0000_0000,
        tokens_wf(chunk@),
    ensures
        match (r, equation_spec(chunk@)) {
            (Ok(q), Ok(sq)) => equation_model(q) == sq,
            (Err(e), Err(se)) => err_is(e, se),
            _ => false,
        },
        r matches Ok(q) ==> swf(model(q.lhs)) && swf(model(q.rhs)),
        r matches Ok(q) ==> name_count(model(q.lhs)) + name_count(model(q.rhs)) <= chunk@.len(),
{
    let n = chunk.len();
    let start = chunk[0].start;
    let end = chunk[n - 1].end;
    let mut at: usize = 0;
    while at < n && !matches!(chunk[at].kind, TokenKind::Eq)
        invariant
            at <= n == chunk@.len(),
            eq_from(chunk@, 0) == eq_from(chunk@, at as int),
        decreases n - at,
    {
        at = at + 1;
    }
    if at >= n {
        return Err(ParseError::new(String::from_str("expected '=' in equation"), start, end));
    }
    let mut second: usize = at + 1;
    while second < n && !matches!(chunk[second].kind, TokenKind::Eq)
        invariant
            at < second <= n == chunk@.len(),
            eq_from(chunk@, at + 1) == eq_from(chunk@, second as int),
        decreases n - second,
    {
        second = second + 1;
    }
    if second < n {
        return Err(ParseError::new(
            String::from_str("an equation can only have one '='"),
            chunk[second].start,
            chunk[second].end,
        ));
    }
    let eq = &chunk[at];
    if at == 0 {
        return Err(ParseError::new(String::from_str("missing left-hand side before '='"), eq.start, eq.end));
    }
    if at == n - 1 {
        return Err(ParseError::new(String::from_str("missing right-hand side after '='"), eq.start, eq.end));
    }
    let lhs_tokens = vstd::slice::slice_subrange(chunk, 0, at);
    let rhs_tokens = vstd::slice::slice_subrange(chunk, at + 1, n);
    let lhs = match parse_tokens(lhs_tokens, eq.start) {
        Err(e) => {
            return Err(e);
        },
        Ok(e) => e,
    };
    let rhs = match parse_tokens(rhs_tokens, end) {
        Err(e) => {
            return Err(e);
        },
        Ok(e) => e,
    };
    Ok(Equation { lhs, rhs })
}

/// Parse either a plain expression or a system of equations.
pub fn parse_input(input: &str) -> (r: Result<Input, ParseError>)
    requires
        input_fits(input@),
    ensures
        lex(input@, 0) is Err ==> (r matches Err(e) && lex_error_is(input@, e)),
        lex(input@, 0) is Ok ==> exists|t: Seq<Token>| #[trigger] lexes_to(input@, t) && match (r, input_spec(t, byte_offset(input@, input@.len() as int) as int)) {
            (Ok(i), Ok(si)) => input_model(i) == si,
            (Err(e), Err(se)) => err_is(e, se),
            _ => false,
        },
        r matches Ok(i) ==> input_wf(i, input@.len()),
{
    let tokens = match lexed(input) {
        Err(e) => {
            return Err(e);
        },
        Ok(t) => t,
    };
    let len = byte_len(input);
    let n = tokens.len();
    let mut k: usize = 0;
    let mut found = false;
    while k < n
        invariant
            k <= n == tokens@.len(),
            found == exists|j: int| 0 <= j < k && (#[trigger] tokens@[j].kind is Eq || tokens@[j].kind is Semi),
        decreases n - k,
    {
        if matches!(tokens[k].kind, TokenKind::Eq) || matches!(tokens[k].kind, TokenKind::Semi) {
            found = true;
        }
        k = k + 1;
    }
    assert(lexes_to(input@, tokens@));
    if !found {
        return match parse_tokens(tokens.as_slice(), len) {
            Err(e) => Err(e),
            Ok(e) => Ok(Input::Expr(e)),
        };
    }
    let ts = tokens.as_slice();
    assert(has_eq_or_semi(ts@));
    let mut equations: Vec<Equation> = Vec::new();
    let mut i: usize = 0;
    let ghost target = equations_from(ts@, 0);
    let ghost mut done: Seq<(SExpr, SExpr)> = seq![];
    while i < n
        invariant
            n == ts@.len(),
            ts@ == tokens@,
            lexes_to(input@, ts@),
            has_eq_or_semi(ts@),
            len == byte_offset(input@, input@.len() as int),
            ts@.len() < 0x1000_0000_0000_0000,
            tokens_wf(ts@),
            i <= n,
            target == equations_from(ts@, 0),
            target == match equations_from(ts@, i as int) {
                Err(e) => Err(e),
                Ok(rest) => Ok::<Seq<(SExpr, SExpr)>, SpecErr>(done + rest),
            },
            equations@.map_values(|q: Equation| equation_model(q)) == done,
            equations@.len() <= i,
            names_from(done, 0) <= i,
            n <= input@.len(),
            forall|k: int| 0 <= k < equations@.len() ==> swf(model(#[trigger] equations@[k].lhs)) && swf(model(equations@[k].rhs)),
        decreases n - i,
    {
        if matches!(ts[i].kind, TokenKind::Semi) {
            i = i + 1;
        } else {
            let mut j = i;
            proof { lemma_run_end(ts@, i as int); }
            while j < n && !matches!(ts[j].kind, TokenKind::Semi)
                invariant
                    i <= j <= n == ts@.len(),
                    run_end(ts@, i as int) == run_end(ts@, j as int),
                decreases n - j,
            {
                j = j + 1;
            }
            let chunk = vstd::slice::slice_subrange(ts, i, j);
            proof {
                assert forall|k: int| 0 <= k < chunk@.len() implies kind_wf(#[trigger] chunk@[k].kind) by {
                    assert(chunk@[k] == ts@[i + k]);
                }
            }
            let q = match parse_equation(chunk) {
                Err(e) => {
                    return Err(e);
                },
                Ok(q) => q,
            };
            let ghost sq = equation_model(q);
            let ghost before = equations@;
            equations.push(q);
            proof {
                lemma_names_from_push(done, sq, 0);
                assert(equations@.map_values(|q: Equation| equation_model(q)) =~= before.map_values(|q: Equation| equation_model(q)).push(sq));
                assert(done.push(sq) + equations_from(ts@, j as int)->Ok_0 =~= done + (seq![sq] + equations_from(ts@, j as int)->Ok_0));
                done = done.push(sq);
            }
            i = j;
        }
    }
    assert(done + seq![] =~= done);
    if equations.len() == 0 {
        return Err(ParseError::new(String::from_str("no equations given"), 0, len));
    }
    Ok(Input::Equations(equations))
}

} // verus!
