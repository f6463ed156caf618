//! Text of exact values: `3/4`, `-2`, `1 + 2i`, `(1/2)i`, and the decimal
//! expansion shown beside a fraction.

use vstd::prelude::*;
use vstd::string::*;
use crate::complex::{CFrac, Cplx};
use crate::rational::{Frac, Rat, abs, rat_text, qeq, qmul, round_half_away};
use crate::text::decimal_text;
use crate::value::Value;
use crate::ast::{Expr, SExpr, model, models, lemma_models, swf, swf_from, lemma_swf_from};

verus! {

/// A complex number's text from the text of its real part (absent when 0),
/// the sign of its imaginary part, and the text of that part (absent when 0).
pub open spec fn join_text(re: Option<Seq<char>>, im_negative: bool, im: Option<Seq<char>>) -> Seq<char> {
    match (re, im) {
        (Some(r), Some(i)) => r + (if im_negative { " - "@ } else { " + "@ }) + i,
        (None, Some(i)) => if im_negative { "-"@ + i } else { i },
        (Some(r), None) => r,
        (None, None) => "0"@,
    }
}

pub fn join_complex(re: Option<String>, im_negative: bool, im: Option<String>) -> (r: String)
    ensures
        r@ == join_text(
            match re { Some(s) => Some(s@), None => None },
            im_negative,
            match im { Some(s) => Some(s@), None => None },
        ),
{
    match (re, im) {
        (Some(r), Some(i)) => {
            let mut s = r;
            s.append(if im_negative { " - " } else { " + " });
            s.append(i.as_str());
            s
        },
        (None, Some(i)) => {
            if im_negative {
                let mut s = String::from_str("-");
                s.append(i.as_str());
                s
            } else {
                i
            }
        },
        (Some(r), None) => r,
        (None, None) => String::from_str("0"),
    }
}

/// The imaginary term `i`, `3i` or `(1/2)i` for a magnitude in lowest terms.
pub open spec fn imag_term(mag: Frac) -> Seq<char> {
    if mag == (1int, 1int) {
        "i"@
    } else if mag.1 == 1 {
        rat_text(mag) + "i"@
    } else {
        "("@ + rat_text(mag) + ")i"@
    }
}

/// Text of a complex number with parts in lowest terms.
pub open spec fn complex_text(c: CFrac) -> Seq<char> {
    join_text(
        if c.0.0 != 0 { Some(rat_text(c.0)) } else { None },
        c.1.0 < 0,
        if c.1.0 != 0 { Some(imag_term((abs(c.1.0) as int, c.1.1))) } else { None },
    )
}

/// The sign written before the imaginary term is the sign of the imaginary
/// part: `re - |im|i` when it is negative and `re + |im|i` when it is
/// positive (`-|im|i` and `|im|i` without a real part). So a number and its
/// conjugate are never written alike. A fractional imaginary part stands in
/// parentheses before the `i` (`(1/2)i`, never `1/2i`, which reads `1/(2i)`).
pub proof fn law_complex_text_sign(c: CFrac)
    requires
        c.1.0 != 0,
    ensures
        c.0.0 != 0 ==> complex_text(c) == rat_text(c.0) + (if c.1.0 < 0 { seq!['-'] } else { seq!['+'] }).insert(0, ' ').push(' ')
            + imag_term((abs(c.1.0) as int, c.1.1)),
        c.0.0 == 0 ==> complex_text(c) == (if c.1.0 < 0 { seq!['-'] } else { seq![] }) + imag_term((abs(c.1.0) as int, c.1.1)),
        complex_text(c) != complex_text((c.0, (-c.1.0, c.1.1))),
        c.1.1 != 1 ==> complex_text(c).len() >= 2 && complex_text(c).last() == 'i'
            && complex_text(c)[complex_text(c).len() - 2] == ')',
{
    reveal_strlit(")i");
    reveal_strlit(" - ");
    reveal_strlit(" + ");
    reveal_strlit("-");
    let d = (c.0, (-c.1.0, c.1.1));
    let i = imag_term((abs(c.1.0) as int, c.1.1));
    assert(imag_term((abs(d.1.0) as int, d.1.1)) == i);
    assert(seq!['-'].insert(0, ' ').push(' ') =~= " - "@);
    assert(seq!['+'].insert(0, ' ').push(' ') =~= " + "@);
    assert("-"@ =~= seq!['-']);
    if c.0.0 != 0 {
        let p = rat_text(c.0);
        let (a, b) = (complex_text(c), complex_text(d));
        assert(a[p.len() as int + 1] != b[p.len() as int + 1]);
    } else {
        assert(complex_text(c).len() != complex_text(d).len());
    }
}

/// Text of an exact value.
pub open spec fn value_text(v: Value) -> Seq<char> {
    match v {
        Value::Rational(r) => rat_text(r@),
        Value::ExactComplex(c) => complex_text(c@),
    }
}

fn fmt_exact_complex(c: &Cplx) -> (r: String)
    requires
        c.wf(),
    ensures
        r@ == complex_text(c@),
{
    let mag = c.im.abs();
    let im_term = if mag.num.is_one() && mag.den.is_one() {
        String::from_str("i")
    } else if mag.den.is_one() {
        let mut s = mag.to_text();
        s.append("i");
        s
    } else {
        let mut s = String::from_str("(");
        let t = mag.to_text();
        s.append(t.as_str());
        s.append(")i");
        s
    };
    let re = if !c.re.is_zero() { Some(c.re.to_text()) } else { None };
    let im = if !c.im.is_zero() { Some(im_term) } else { None };
    join_complex(re, c.im.is_negative(), im)
}

/// Compact text of an exact value, as it appears inside expressions.
pub fn format_value(v: &Value) -> (r: String)
    requires
        v.wf(),
    ensures
        r@ == value_text(*v),
{
    match v {
        Value::Rational(q) => q.to_text(),
        Value::ExactComplex(c) => fmt_exact_complex(c),
    }
}

/// Display precedence: higher binds tighter.
pub open spec fn prec(e: SExpr) -> int {
    match e {
        SExpr::Add(..) | SExpr::Sub(..) => 1,
        SExpr::Mul(..) | SExpr::Div(..) => 2,
        SExpr::Neg(_) => 3,
        SExpr::Pow(..) => 4,
        SExpr::Factorial(_) => 5,
        SExpr::Num(c) => if c.1.0 != 0 { 1 } else if c.0.0 < 0 { 3 } else if c.0.1 != 1 { 2 } else { 6 },
        SExpr::Var(_) | SExpr::Call(..) => 6,
    }
}

/// The text of a number in a tree: its value in lowest terms.
pub open spec fn num_text(c: CFrac) -> Seq<char> {
    if c.1.0 == 0 { rat_text(c.0) } else { complex_text(c) }
}

/// Text of an expression, with parentheses only where precedence needs them.
pub open spec fn expr_text(e: SExpr) -> Seq<char>
    decreases e, 0int,
{
    match e {
        SExpr::Num(c) => num_text(c),
        SExpr::Var(n) => n,
        SExpr::Add(a, b) => child_text(*a, 1) + " + "@ + child_text(*b, 2),
        SExpr::Sub(a, b) => child_text(*a, 1) + " - "@ + child_text(*b, 2),
        SExpr::Mul(a, b) => child_text(*a, 2) + " * "@ + child_text(*b, 3),
        SExpr::Div(a, b) => child_text(*a, 2) + " / "@ + child_text(*b, 3),
        SExpr::Pow(a, b) => child_text(*a, 5) + "^"@ + child_text(*b, 4),
        SExpr::Neg(a) => "-"@ + child_text(*a, 4),
        SExpr::Factorial(a) => child_text(*a, 6) + "!"@,
        SExpr::Call(n, args) => n + "("@ + args_text(args, 0) + ")"@,
    }
}

/// An operand, in parentheses when it binds more loosely than `min`.
pub open spec fn child_text(e: SExpr, min: int) -> Seq<char>
    decreases e, 1int,
{
    if prec(e) < min { "("@ + expr_text(e) + ")"@ } else { expr_text(e) }
}

/// Call arguments from `k` on, separated by ", ".
pub open spec fn args_text(args: Seq<SExpr>, k: int) -> Seq<char>
    decreases args, args.len() - k,
{
    if k < 0 || k >= args.len() {
        seq![]
    } else if k == 0 {
        expr_text(args[0]) + args_text(args, 1)
    } else {
        ", "@ + expr_text(args[k]) + args_text(args, k + 1)
    }
}

fn prec_of(e: &Expr) -> (r: u8)
    requires
        swf(model(*e)),
    ensures
        r as int == prec(model(*e)),
{
    match e {
        Expr::Add(..) | Expr::Sub(..) => 1,
        Expr::Mul(..) | Expr::Div(..) => 2,
        Expr::Neg(_) => 3,
        Expr::Pow(..) => 4,
        Expr::Factorial(_) => 5,
        Expr::Num(v) => {
            let w = v.copy().normalize();
            match &w {
                Value::ExactComplex(_) => 1,
                Value::Rational(q) => if q.is_negative() { 3 } else if !q.is_integer() { 2 } else { 6 },
            }
        },
        Expr::Var(_) | Expr::Call(..) => 6,
    }
}

fn child(e: &Expr, min: u8) -> (r: String)
    requires
        swf(model(*e)),
    ensures
        r@ == child_text(model(*e), min as int),
    decreases e, 1int,
{
    let t = display(e);
    if prec_of(e) < min {
        let mut s = String::from_str("(");
        s.append(t.as_str());
        s.append(")");
        s
    } else {
        t
    }
}

/// The text of an expression, numbers shown by their value in lowest terms.
pub fn display(e: &Expr) -> (r: String)
    requires
        swf(model(*e)),
    ensures
        r@ == expr_text(model(*e)),
    decreases e, 0int,
{
    let (a, op, b, l, rb) = match e {
        Expr::Num(v) => {
            let w = v.copy().normalize();
            return format_value(&w);
        },
        Expr::Var(n) => {
            return n.clone();
        },
        Expr::Neg(a) => {
            let mut s = String::from_str("-");
            let t = child(a, 4);
            s.append(t.as_str());
            return s;
        },
        Expr::Factorial(a) => {
            let mut s = child(a, 6);
            s.append("!");
            return s;
        },
        Expr::Call(name, args) => {
            let ghost margs = models(args@);
            proof {
                lemma_models(args@);
                lemma_swf_from(margs, 0);
            }
            let mut s = name.clone();
            s.append("(");
            let mut k: usize = 0;
            while k < args.len()
                invariant
                    k <= args@.len(),
                    *e == Expr::Call(*name, *args),
                    margs == models(args@),
                    margs.len() == args@.len(),
                    forall|j: int| 0 <= j < args@.len() ==> #[trigger] margs[j] == model(args@[j]),
                    forall|j: int| 0 <= j < margs.len() ==> swf(#[trigger] margs[j]),
                    s@ + args_text(margs, k as int) == name@ + "("@ + args_text(margs, 0),
                decreases args@.len() - k,
            {
                proof {
                    assert(decreases_to!(*e => e->Call_1));
                    assert(decreases_to!(e->Call_1 => e->Call_1@));
                    assert(decreases_to!(e->Call_1@ => e->Call_1@[k as int]));
                }
                assert(swf(margs[k as int]));
                let ghost before = s@;
                if k > 0 {
                    s.append(", ");
                }
                let t = display(&args[k]);
                s.append(t.as_str());
                proof {
                    if k == 0 {
                        assert(s@ + args_text(margs, 1) =~= before + (expr_text(margs[0]) + args_text(margs, 1)));
                    } else {
                        assert(s@ + args_text(margs, k + 1) =~= before + (", "@ + expr_text(margs[k as int]) + args_text(margs, k + 1)));
                    }
                }
                k = k + 1;
            }
            s.append(")");
            proof {
                assert(args_text(margs, k as int) =~= seq![]);
                assert(s@ =~= name@ + "("@ + args_text(margs, 0) + ")"@);
            }
            return s;
        },
        Expr::Add(a, b) => (a, " + ", b, 1u8, 2u8),
        Expr::Sub(a, b) => (a, " - ", b, 1, 2),
        Expr::Mul(a, b) => (a, " * ", b, 2, 3),
        Expr::Div(a, b) => (a, " / ", b, 2, 3),
        Expr::Pow(a, b) => (a, "^", b, 5, 4),
    };
    let mut s = child(a, l);
    s.append(op);
    let t = child(b, rb);
    s.append(t.as_str());
    s
}


/// Decimal places shown beside a fraction.
pub open spec fn decimal_scale() -> int {
    1_000_000_000_000
}

/// `|x| · 10¹²` rounded to the nearest integer, halves away from zero.
pub open spec fn scaled_digits(x: Frac) -> int {
    round_half_away((abs(x.0) * decimal_scale(), x.1))
}

/// Whether `|x| · 10¹²` is an integer: the expansion ends within the shown places.
pub open spec fn decimal_is_exact(x: Frac) -> bool {
    (abs(x.0) * decimal_scale()) % x.1 == 0
}

pub open spec fn zeros(n: nat) -> Seq<char> {
    Seq::new(n, |i: int| '0')
}

/// `s` without its trailing zeros.
pub open spec fn trim_zeros(s: Seq<char>) -> Seq<char>
    decreases s.len(),
{
    if s.len() > 0 && s.last() == '0' {
        trim_zeros(s.drop_last())
    } else {
        s
    }
}

/// `d / 10¹²` in decimal notation, trailing zeros (and a bare point) dropped.
pub open spec fn point_text(d: nat) -> Seq<char> {
    let t = decimal_text(d);
    let p = if t.len() >= 13 { t } else { zeros((13 - t.len()) as nat) + t };
    let whole = p.subrange(0, p.len() - 12);
    let frac = trim_zeros(p.subrange(p.len() - 12, p.len() as int));
    if frac.len() == 0 { whole } else { whole + "."@ + frac }
}

/// The decimal expansion of `x` rounded to 12 places, with whether it is
/// exact; `None` when it rounds to zero at that precision.
pub open spec fn decimal_of(x: Frac) -> Option<(Seq<char>, bool)> {
    let d = scaled_digits(x);
    if d == 0 {
        None
    } else {
        let body = point_text(d as nat);
        Some((if x.0 < 0 { seq!['-'] + body } else { body }, decimal_is_exact(x)))
    }
}

/// Rounding half away from zero gives the same integer for equal fractions.
proof fn lemma_round_qeq(x: Frac, y: Frac)
    requires
        x.0 >= 0,
        x.1 > 0,
        y.1 > 0,
        qeq(x, y),
    ensures
        round_half_away(x) == round_half_away(y),
{
    let (a, b) = x;
    let (c, d) = y;
    assert(c >= 0) by (nonlinear_arith)
        requires a >= 0, b > 0, d > 0, a * d == c * b;
    let q = (2 * a + b) / (2 * b);
    let r = (2 * a + b) % (2 * b);
    vstd::arithmetic::div_mod::lemma_fundamental_div_mod(2 * a + b, 2 * b);
    assert(0 <= r < 2 * b);
    assert(2 * a + b == 2 * b * q + r);
    // Scale by d and divide by b.
    assert(b * (2 * c + d) == (2 * b * q + r) * d) by (nonlinear_arith)
        requires a * d == c * b, 2 * a + b == 2 * b * q + r;
    let r2 = 2 * c + d - 2 * d * q;
    assert(b * r2 == r * d) by (nonlinear_arith)
        requires b * (2 * c + d) == (2 * b * q + r) * d, r2 == 2 * c + d - 2 * d * q;
    assert(0 <= r2 < 2 * d) by (nonlinear_arith)
        requires b * r2 == r * d, 0 <= r < 2 * b, b > 0, d > 0;
    vstd::arithmetic::div_mod::lemma_fundamental_div_mod_converse(2 * c + d, 2 * d, q, r2);
}

/// Equal fractions are integers together.
proof fn lemma_integer_qeq(x: Frac, y: Frac)
    requires
        x.1 > 0,
        y.1 > 0,
        qeq(x, y),
    ensures
        (x.0 % x.1 == 0) == (y.0 % y.1 == 0),
{
    lemma_integer_qeq_one(x, y);
    lemma_integer_qeq_one(y, x);
}

proof fn lemma_integer_qeq_one(x: Frac, y: Frac)
    requires
        x.1 > 0,
        y.1 > 0,
        qeq(x, y),
    ensures
        x.0 % x.1 == 0 ==> y.0 % y.1 == 0,
{
    let (a, b) = x;
    let (c, d) = y;
    if a % b == 0 {
        let k = a / b;
        vstd::arithmetic::div_mod::lemma_fundamental_div_mod(a, b);
        assert(a == b * k);
        assert(c == k * d) by (nonlinear_arith)
            requires a == b * k, a * d == c * b, b > 0;
        vstd::arithmetic::div_mod::lemma_fundamental_div_mod_converse(c, d, k, 0);
    }
}

/// `trim_zeros` of a prefix that ends in a zero is that of the prefix one shorter.
proof fn lemma_trim_step(s: Seq<char>, e: int)
    requires
        0 < e <= s.len(),
        s[e - 1] == '0',
    ensures
        trim_zeros(s.subrange(0, e)) == trim_zeros(s.subrange(0, e - 1)),
{
    assert(s.subrange(0, e).drop_last() =~= s.subrange(0, e - 1));
}

/// The decimal expansion of a fraction in lowest terms, to 12 places.
fn decimal(r: &Rat) -> (out: Option<(String, bool)>)
    requires
        r.wf(),
    ensures
        match decimal_of(r@) {
            None => out is None,
            Some((s, e)) => out matches Some((t, f)) && t@ == s && f == e,
        },
{
    let scale = Rat::from_i64(1_000_000_000_000);
    let a = r.abs();
    let scaled = a.mul(&scale);
    proof {
        assert(qmul(a@, scale@) == (abs(r.num@) * decimal_scale(), r.den@ * 1));
        lemma_round_qeq((abs(r.num@) * decimal_scale(), r.den@), scaled@);
        lemma_integer_qeq((abs(r.num@) * decimal_scale(), r.den@), scaled@);
    }
    let exact = scaled.is_integer();
    let digits = scaled.round();
    if digits.num.is_zero() {
        return None;
    }
    let ghost d = scaled_digits(r@);
    assert(d > 0) by {
        assert(digits.num@ == d);
        assert(d >= 0) by (nonlinear_arith)
            requires d == (2 * (abs(r.num@) * decimal_scale()) + r.den@) / (2 * r.den@), r.den@ > 0;
    }
    let t = digits.num.to_text();
    assert(t@ == decimal_text(d as nat));
    let n = t.unicode_len();
    let mut p = String::new();
    let mut k: usize = n;
    proof { reveal_strlit("0"); }
    while k < 13
        invariant
            n == t@.len(),
            n <= k,
            k <= 13 || k == n,
            p@ == zeros((k - n) as nat),
        decreases 13 - k,
    {
        p.append("0");
        proof { reveal_strlit("0"); }
        assert(p@ =~= zeros((k + 1 - n) as nat));
        k = k + 1;
    }
    p.append(t.as_str());
    let ghost pt = if t@.len() >= 13 { t@ } else { zeros((13 - t@.len()) as nat) + t@ };
    assert(p@ =~= pt);
    let m = p.unicode_len();
    let whole = p.as_str().substring_char(0, m - 12);
    let frac = p.as_str().substring_char(m - 12, m);
    let mut e: usize = 12;
    assert(frac@ =~= frac@.subrange(0, 12));
    while e > 0 && frac.get_char(e - 1) == '0'
        invariant
            e <= 12,
            frac@.len() == 12,
            trim_zeros(frac@) == trim_zeros(frac@.subrange(0, e as int)),
        decreases e,
    {
        proof { lemma_trim_step(frac@, e as int); }
        e = e - 1;
    }
    proof {
        assert(frac@ =~= frac@.subrange(0, 12));
        if e == 0 {
            assert(frac@.subrange(0, 0).len() == 0);
        }
        assert(trim_zeros(frac@) == frac@.subrange(0, e as int));
    }
    let mut s = if r.is_negative() { String::from_str("-") } else { String::new() };
    proof { reveal_strlit("-"); reveal_strlit("."); }
    s.append(whole);
    if e > 0 {
        s.append(".");
        let tail = frac.substring_char(0, e);
        s.append(tail);
    }
    assert(s@ =~= (if r@.0 < 0 { seq!['-'] + point_text(d as nat) } else { point_text(d as nat) }));
    Some((s, exact))
}


/// The result line of an exact value: `14`, `1/2 = 0.5`,
/// `1/3 ≈ 0.333333333333`, `5 + 5i`. `None` where the line needs a
/// floating-point approximation: a fraction that rounds to zero in 12
/// places, or a complex value whose parts are not both integers.
pub open spec fn result_text(v: Value) -> Option<Seq<char>> {
    match v {
        Value::Rational(q) => if q@.1 == 1 {
            Some(rat_text(q@))
        } else {
            match decimal_of(q@) {
                Some((s, true)) => Some(rat_text(q@) + " = "@ + s),
                Some((s, false)) => Some(rat_text(q@) + " ≈ "@ + s),
                None => None,
            }
        },
        Value::ExactComplex(c) => if c@.0.1 == 1 && c@.1.1 == 1 {
            Some(complex_text(c@))
        } else {
            None
        },
    }
}

/// Full result line of an exact value: the fraction, and beside it the
/// decimal marked `=` when exact and `≈` when rounded.
pub fn format_result(v: &Value) -> (r: Option<String>)
    requires
        v.wf(),
    ensures
        r matches Some(s) ==> result_text(*v) == Some(s@),
        r is None ==> result_text(*v) is None,
{
    match v {
        Value::Rational(q) => {
            if q.is_integer() {
                return Some(q.to_text());
            }
            match decimal(q) {
                Some((s, exact)) => {
                    let mut out = q.to_text();
                    if exact {
                        out.append(" = ");
                    } else {
                        out.append(" ≈ ");
                    }
                    out.append(s.as_str());
                    Some(out)
                },
                None => None,
            }
        },
        Value::ExactComplex(c) => {
            if c.re.is_integer() && c.im.is_integer() {
                Some(fmt_exact_complex(c))
            } else {
                None
            }
        },
    }
}

} // verus!
