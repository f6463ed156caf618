//! The lexer: input text to tokens. Numeric literals are read exactly
//! (`0.1` is 1/10, not a float).

use vstd::prelude::*;
use vstd::string::*;
use vstd::arithmetic::power::pow;
use crate::error::ParseError;
use crate::number::{Int, digits_value, is_digit, all_digits};
use crate::rational::{Frac, Rat, qeq, rat_text};
use crate::text::{chars_of, str_eq};
use crate::builtins::{function_names, command_names, constant_names, names_view, callables, is_constant};

verus! {

pub const MAX_SCI_EXPONENT: i64 = 10_000;

/// Unicode `White_Space`, the 25 characters for which std documents
/// `char::is_whitespace` to hold.
#[verifier::opaque]
pub open spec fn unicode_whitespace(c: char) -> bool {
    let u = c as u32;
    ||| 0x09 <= u <= 0x0D
    ||| u == 0x20 || u == 0x85 || u == 0xA0 || u == 0x1680
    ||| 0x2000 <= u <= 0x200A
    ||| u == 0x2028 || u == 0x2029 || u == 0x202F || u == 0x205F || u == 0x3000
}

/// Unicode `Alphabetic`, as `char::is_alphabetic` decides it.
pub uninterp spec fn unicode_alphabetic(c: char) -> bool;

/// Unicode numeric categories, as `char::is_numeric` decides them.
pub uninterp spec fn unicode_numeric(c: char) -> bool;

/// A letter: among ASCII characters exactly `a..z` and `A..Z`.
#[verifier::opaque]
pub open spec fn is_letter(c: char) -> bool {
    if (c as u32) < 128 {
        ('a' <= c && c <= 'z') || ('A' <= c && c <= 'Z')
    } else {
        unicode_alphabetic(c)
    }
}

/// A numeric character: among ASCII characters exactly the digits.
#[verifier::opaque]
pub open spec fn is_num_char(c: char) -> bool {
    if (c as u32) < 128 {
        '0' <= c && c <= '9'
    } else {
        unicode_numeric(c)
    }
}

/// `char::is_whitespace`: Unicode `White_Space`.
fn char_is_whitespace(c: char) -> (r: bool)
    ensures
        r == unicode_whitespace(c),
{
    proof { reveal(unicode_whitespace); }
    let u = c as u32;
    (0x09 <= u && u <= 0x0D) || u == 0x20 || u == 0x85 || u == 0xA0 || u == 0x1680
        || (0x2000 <= u && u <= 0x200A) || u == 0x2028 || u == 0x2029 || u == 0x202F
        || u == 0x205F || u == 0x3000
}

/// Calls `char::is_alphabetic`; std documents it as Unicode `Alphabetic`,
/// which among ASCII characters holds exactly for the letters.
#[verifier::external_body]
fn char_is_alphabetic(c: char) -> (r: bool)
    ensures
        r == is_letter(c),
        (c as u32) >= 128 ==> r == unicode_alphabetic(c),
{
    c.is_alphabetic()
}

/// Calls `char::is_alphanumeric`, which std documents as alphabetic or
/// numeric (among ASCII characters: letters and digits).
#[verifier::external_body]
fn char_is_alphanumeric(c: char) -> (r: bool)
    ensures
        r == (is_letter(c) || is_num_char(c)),
        (c as u32) >= 128 ==> r == (unicode_alphabetic(c) || unicode_numeric(c)),
{
    c.is_alphanumeric()
}

/// Calls `ToString::to_string` on a `char`: the one-character string.
#[verifier::external_body]
pub(crate) fn char_text(c: char) -> (r: String)
    ensures
        r@ == seq![c],
{
    c.to_string()
}

/// Longer digit strings are worth at least as much.
proof fn lemma_digits_mono(s: Seq<char>, k: int, j: int)
    requires
        0 <= k <= j <= s.len(),
        all_digits(s),
    ensures
        digits_value(s.subrange(0, k)) <= digits_value(s.subrange(0, j)),
    decreases j - k,
{
    if k < j {
        lemma_digits_mono(s, k, j - 1);
        assert(s.subrange(0, j).drop_last() =~= s.subrange(0, j - 1));
        assert(is_digit(s[j - 1]));
        assert(s.subrange(0, j).last() == s[j - 1]);
    }
}

/// The value of a string of ASCII digits, `None` when it does not fit in an `i64`.
fn parse_i64(s: &str) -> (r: Option<i64>)
    requires
        s@.len() > 0,
        all_digits(s@),
    ensures
        r matches Some(v) ==> v as int == digits_value(s@),
        r is None <==> digits_value(s@) > i64::MAX,
{
    let n = s.unicode_len();
    let mut acc: i64 = 0;
    let mut k: usize = 0;
    assert(digits_value(s@.subrange(0, 0)) == 0);
    while k < n
        invariant
            n == s@.len(),
            k <= n,
            all_digits(s@),
            acc as int == digits_value(s@.subrange(0, k as int)),
        decreases n - k,
    {
        let c = s.get_char(k);
        assert(is_digit(s@[k as int]));
        let d: i64 = (c as u32 - '0' as u32) as i64;
        assert(s@.subrange(0, k + 1).drop_last() =~= s@.subrange(0, k as int));
        assert(s@.subrange(0, k + 1).last() == c);
        if acc > (i64::MAX - d) / 10 {
            proof {
                lemma_digits_mono(s@, k + 1, n as int);
                assert(s@.subrange(0, n as int) =~= s@);
            }
            return None;
        }
        acc = acc * 10 + d;
        k = k + 1;
    }
    assert(s@.subrange(0, n as int) =~= s@);
    Some(acc)
}

/// Bytes of `c` in UTF-8.
pub open spec fn utf8_width(c: char) -> nat {
    if (c as u32) < 0x80 { 1 } else if (c as u32) < 0x800 { 2 } else if (c as u32) < 0x10000 { 3 } else { 4 }
}

/// Byte offset of character `j` of `cs` in its UTF-8 encoding.
pub open spec fn byte_offset(cs: Seq<char>, j: int) -> nat
    decreases j,
{
    if j <= 0 || cs.len() == 0 {
        0
    } else if j > cs.len() {
        byte_offset(cs, cs.len() as int)
    } else {
        byte_offset(cs, j - 1) + utf8_width(cs[j - 1])
    }
}

/// Same as `char::len_utf8`.
fn char_width(c: char) -> (r: usize)
    ensures
        r == utf8_width(c),
{
    let u = c as u32;
    if u < 0x80 { 1 } else if u < 0x800 { 2 } else if u < 0x10000 { 3 } else { 4 }
}

/// What a token is, with a number's exact value.
pub enum SpecKind {
    Num(Frac),
    Ident(Seq<char>),
    Plus,
    Minus,
    Star,
    Slash,
    Caret,
    Bang,
    LParen,
    RParen,
    Comma,
    Eq,
    Semi,
}

/// A token with its span in characters.
pub type SpecTok = (SpecKind, int, int);

/// An error message with its span in characters.
pub type SpecErr = (Seq<char>, int, int);

pub open spec fn prepend(t: SpecTok, r: Result<Seq<SpecTok>, SpecErr>) -> Result<Seq<SpecTok>, SpecErr> {
    match r {
        Ok(s) => Ok(seq![t] + s),
        Err(e) => Err(e),
    }
}

pub open spec fn prepend_all(p: Seq<SpecTok>, r: Result<Seq<SpecTok>, SpecErr>) -> Result<Seq<SpecTok>, SpecErr> {
    match r {
        Ok(s) => Ok(p + s),
        Err(e) => Err(e),
    }
}

/// End of the run of ASCII digits starting at `j`.
pub open spec fn digit_run(cs: Seq<char>, j: int) -> int
    decreases cs.len() - j,
{
    if 0 <= j < cs.len() && is_digit(cs[j]) {
        digit_run(cs, j + 1)
    } else {
        j
    }
}

pub open spec fn is_ident_char(c: char) -> bool {
    is_letter(c) || is_num_char(c) || c == '_'
}

/// End of the run of identifier characters starting at `j`.
pub open spec fn ident_run(cs: Seq<char>, j: int) -> int
    decreases cs.len() - j,
{
    if 0 <= j < cs.len() && is_ident_char(cs[j]) {
        ident_run(cs, j + 1)
    } else {
        j
    }
}

pub proof fn lemma_digit_run(cs: Seq<char>, j: int)
    requires
        0 <= j <= cs.len(),
    ensures
        j <= digit_run(cs, j) <= cs.len(),
        forall|k: int| j <= k < digit_run(cs, j) ==> is_digit(#[trigger] cs[k]),
        digit_run(cs, j) < cs.len() ==> !is_digit(cs[digit_run(cs, j)]),
    decreases cs.len() - j,
{
    if j < cs.len() && is_digit(cs[j]) {
        lemma_digit_run(cs, j + 1);
    }
}

pub proof fn lemma_ident_run(cs: Seq<char>, j: int)
    requires
        0 <= j <= cs.len(),
    ensures
        j <= ident_run(cs, j) <= cs.len(),
    decreases cs.len() - j,
{
    if j < cs.len() && is_ident_char(cs[j]) {
        lemma_ident_run(cs, j + 1);
    }
}

/// Whether a number starts at `i`: a digit, or a '.' before a digit.
pub open spec fn starts_number(cs: Seq<char>, i: int) -> bool {
    is_digit(cs[i]) || (cs[i] == '.' && i + 1 < cs.len() && is_digit(cs[i + 1]))
}

/// Index after the integer part.
pub open spec fn int_end(cs: Seq<char>, i: int) -> int {
    digit_run(cs, i)
}

pub open spec fn has_point(cs: Seq<char>, i: int) -> bool {
    int_end(cs, i) < cs.len() && cs[int_end(cs, i)] == '.'
}

/// Index after the digits of the mantissa (integer part, point, fraction).
pub open spec fn mantissa_end(cs: Seq<char>, i: int) -> int {
    if has_point(cs, i) { digit_run(cs, int_end(cs, i) + 1) } else { int_end(cs, i) }
}

/// Number of digits after the point.
pub open spec fn frac_len(cs: Seq<char>, i: int) -> int {
    if has_point(cs, i) { mantissa_end(cs, i) - (int_end(cs, i) + 1) } else { 0 }
}

/// All mantissa digits, without the point.
pub open spec fn mantissa_digits(cs: Seq<char>, i: int) -> Seq<char> {
    if has_point(cs, i) {
        cs.subrange(i, int_end(cs, i)) + cs.subrange(int_end(cs, i) + 1, mantissa_end(cs, i))
    } else {
        cs.subrange(i, int_end(cs, i))
    }
}

/// Where the exponent's digits start, after `e` and an optional sign.
pub open spec fn exp_digits_start(cs: Seq<char>, m: int) -> int {
    if m + 1 < cs.len() && (cs[m + 1] == '+' || cs[m + 1] == '-') { m + 2 } else { m + 1 }
}

/// Scientific notation only when a digit follows the `e`, so `2e` stays 2·e.
pub open spec fn has_exponent(cs: Seq<char>, m: int) -> bool {
    &&& m < cs.len()
    &&& (cs[m] == 'e' || cs[m] == 'E')
    &&& exp_digits_start(cs, m) < cs.len()
    &&& is_digit(cs[exp_digits_start(cs, m)])
}

pub open spec fn exp_end(cs: Seq<char>, m: int) -> int {
    digit_run(cs, exp_digits_start(cs, m))
}

pub open spec fn exp_magnitude(cs: Seq<char>, m: int) -> nat {
    digits_value(cs.subrange(exp_digits_start(cs, m), exp_end(cs, m)))
}

pub open spec fn exp_negative(cs: Seq<char>, m: int) -> bool {
    m + 1 < cs.len() && cs[m + 1] == '-'
}

/// `m * 10^scale` as a fraction.
pub open spec fn decimal_frac(m: nat, scale: int) -> Frac {
    if scale >= 0 {
        (m * pow(10, scale as nat), 1)
    } else {
        (m as int, pow(10, (-scale) as nat))
    }
}

/// A number starting at `i`: its value and where it ends, or an error.
pub open spec fn scan_number(cs: Seq<char>, i: int) -> Result<(Frac, int), SpecErr> {
    let m = mantissa_end(cs, i);
    if has_exponent(cs, m) && exp_magnitude(cs, m) > MAX_SCI_EXPONENT {
        Err(("exponent too large"@, i, exp_end(cs, m)))
    } else {
        let e: int = if has_exponent(cs, m) {
            if exp_negative(cs, m) { -(exp_magnitude(cs, m) as int) } else { exp_magnitude(cs, m) as int }
        } else {
            0
        };
        let end = if has_exponent(cs, m) { exp_end(cs, m) } else { m };
        if end < cs.len() && cs[end] == '.' {
            Err(("unexpected '.' in number"@, end, end + 1))
        } else {
            Ok((decimal_frac(digits_value(mantissa_digits(cs, i)), e - frac_len(cs, i)), end))
        }
    }
}

/// The token of a single-character operator.
pub open spec fn symbol_kind(c: char) -> Option<SpecKind> {
    if c == '+' {
        Some(SpecKind::Plus)
    } else if c == '-' || c == '−' {
        Some(SpecKind::Minus)
    } else if c == '*' || c == '×' || c == '·' {
        Some(SpecKind::Star)
    } else if c == '/' || c == '÷' {
        Some(SpecKind::Slash)
    } else if c == '^' {
        Some(SpecKind::Caret)
    } else if c == '!' {
        Some(SpecKind::Bang)
    } else if c == '(' {
        Some(SpecKind::LParen)
    } else if c == ')' {
        Some(SpecKind::RParen)
    } else if c == ',' {
        Some(SpecKind::Comma)
    } else if c == '=' {
        Some(SpecKind::Eq)
    } else if c == ';' {
        Some(SpecKind::Semi)
    } else {
        None
    }
}

pub proof fn lemma_scan_number_advances(cs: Seq<char>, i: int)
    requires
        0 <= i < cs.len(),
        starts_number(cs, i),
    ensures
        scan_number(cs, i) matches Ok((_, end)) ==> i < end <= cs.len(),
{
    lemma_digit_run(cs, i);
    if has_point(cs, i) {
        lemma_digit_run(cs, int_end(cs, i) + 1);
    }
    let m = mantissa_end(cs, i);
    if has_exponent(cs, m) {
        lemma_digit_run(cs, exp_digits_start(cs, m));
    }
}

/// `p` begins `s`.
pub open spec fn has_prefix(s: Seq<char>, p: Seq<char>) -> bool {
    p.len() <= s.len() && s.subrange(0, p.len() as int) == p
}

/// The name begins with the name of a function or command (`sinx`, `sqrtt`):
/// kept whole, so that a typo gets a suggestion.
pub open spec fn starts_callable(name: Seq<char>) -> bool {
    let calls = function_names() + command_names();
    exists|k: int| 0 <= k < calls.len() && has_prefix(name, #[trigger] calls[k])
}

/// Every character of `cs[i..j]` is a letter.
pub open spec fn all_letters(cs: Seq<char>, i: int, j: int) -> bool {
    forall|k: int| i <= k < j ==> is_letter(#[trigger] cs[k])
}

/// After any whitespace from `j`, an opening parenthesis follows.
pub open spec fn paren_after(cs: Seq<char>, j: int) -> bool
    decreases cs.len() - j,
{
    if 0 <= j < cs.len() {
        if unicode_whitespace(cs[j]) { paren_after(cs, j + 1) } else { cs[j] == '(' }
    } else {
        false
    }
}

/// A run of identifier characters `cs[i..j]` is one name when it is a single
/// character, holds a digit or `_` (`x1`, `rate_1`), is a constant, begins
/// with a function or command name, or is called (`sqr(4)`). Otherwise it is
/// a product of letters (`xy` is `x*y`, `pix` is `pi*x`).
pub open spec fn keep_whole(cs: Seq<char>, i: int, j: int) -> bool {
    ||| j - i <= 1
    ||| !all_letters(cs, i, j)
    ||| constant_names().contains(cs.subrange(i, j))
    ||| starts_callable(cs.subrange(i, j))
    ||| paren_after(cs, j)
}

/// Length of the name at `k` in a split run ending at `j`: `tau` and `phi`
/// take three letters, `pi` two, anything else one.
pub open spec fn piece_len(cs: Seq<char>, k: int, j: int) -> int {
    if k + 3 <= j && ((cs[k] == 't' && cs[k + 1] == 'a' && cs[k + 2] == 'u')
        || (cs[k] == 'p' && cs[k + 1] == 'h' && cs[k + 2] == 'i')) {
        3
    } else if k + 2 <= j && cs[k] == 'p' && cs[k + 1] == 'i' {
        2
    } else {
        1
    }
}

/// The names of a split run `cs[k..j]`, left to right.
pub open spec fn pieces(cs: Seq<char>, k: int, j: int) -> Seq<SpecTok>
    decreases j - k,
{
    if k >= j {
        seq![]
    } else {
        let w = piece_len(cs, k, j);
        seq![(SpecKind::Ident(cs.subrange(k, k + w)), k, k + w)] + pieces(cs, k + w, j)
    }
}

pub proof fn lemma_pieces_len(cs: Seq<char>, k: int, j: int)
    requires
        k <= j,
    ensures
        pieces(cs, k, j).len() <= j - k,
    decreases j - k,
{
    if k < j {
        lemma_pieces_len(cs, k + piece_len(cs, k, j), j);
    }
}

/// The tokens of the identifier run `cs[i..j]`.
pub open spec fn ident_spec(cs: Seq<char>, i: int, j: int) -> Seq<SpecTok> {
    let name = cs.subrange(i, j);
    let name = if name == "π"@ { "pi"@ } else { name };
    if keep_whole(cs, i, j) { seq![(SpecKind::Ident(name), i, j)] } else { pieces(cs, i, j) }
}

/// Tokens of `cs` from character `i` on.
pub open spec fn lex(cs: Seq<char>, i: int) -> Result<Seq<SpecTok>, SpecErr>
    decreases cs.len() - i,
{
    if i < 0 || i >= cs.len() {
        Ok(seq![])
    } else {
        let c = cs[i];
        if unicode_whitespace(c) {
            lex(cs, i + 1)
        } else if starts_number(cs, i) {
            match scan_number(cs, i) {
                Err(e) => Err(e),
                Ok((v, end)) => {
                    proof {
                        lemma_scan_number_advances(cs, i);
                    }
                    prepend((SpecKind::Num(v), i, end), lex(cs, end))
                },
            }
        } else if is_letter(c) || c == '_' {
            let j = ident_run(cs, i);
            proof {
                lemma_ident_run(cs, i + 1);
            }
            prepend_all(ident_spec(cs, i, j), lex(cs, j))
        } else if c == '*' && i + 1 < cs.len() && cs[i + 1] == '*' {
            prepend((SpecKind::Caret, i, i + 2), lex(cs, i + 2))
        } else {
            match symbol_kind(c) {
                Some(k) => prepend((k, i, i + 1), lex(cs, i + 1)),
                None => Err(("unexpected character '"@ + seq![c] + "'"@, i, i + 1)),
            }
        }
    }
}


/// Each token takes at least one character.
pub proof fn lemma_lex_len(cs: Seq<char>, i: int)
    requires
        0 <= i <= cs.len(),
    ensures
        lex(cs, i) matches Ok(s) ==> s.len() <= cs.len() - i,
    decreases cs.len() - i,
{
    if i < cs.len() {
        let c = cs[i];
        if unicode_whitespace(c) {
            lemma_lex_len(cs, i + 1);
        } else if starts_number(cs, i) {
            lemma_scan_number_advances(cs, i);
            if let Ok((v, end)) = scan_number(cs, i) {
                lemma_lex_len(cs, end);
            }
        } else if is_letter(c) || c == '_' {
            lemma_ident_run(cs, i + 1);
            lemma_lex_len(cs, ident_run(cs, i));
            lemma_pieces_len(cs, i, ident_run(cs, i));
            assert(ident_spec(cs, i, ident_run(cs, i)).len() <= ident_run(cs, i) - i);
        } else if c == '*' && i + 1 < cs.len() && cs[i + 1] == '*' {
            lemma_lex_len(cs, i + 2);
        } else {
            lemma_lex_len(cs, i + 1);
        }
    }
}

#[derive(Debug, Clone, PartialEq)]
pub enum TokenKind {
    /// Numeric literal, parsed exactly.
    Num(Rat),
    Ident(String),
    Plus,
    Minus,
    Star,
    Slash,
    Caret,
    Bang,
    LParen,
    RParen,
    Comma,
    Eq,
    Semi,
}

#[derive(Debug, Clone, PartialEq)]
pub struct Token {
    pub kind: TokenKind,
    pub start: usize,
    pub end: usize,
}

/// How a token is named in error messages.
pub open spec fn describe_text(k: TokenKind) -> Seq<char> {
    match k {
        TokenKind::Num(v) => "number "@ + rat_text(v@),
        TokenKind::Ident(n) => "'"@ + n@ + "'"@,
        TokenKind::Plus => "'+'"@,
        TokenKind::Minus => "'-'"@,
        TokenKind::Star => "'*'"@,
        TokenKind::Slash => "'/'"@,
        TokenKind::Caret => "'^'"@,
        TokenKind::Bang => "'!'"@,
        TokenKind::LParen => "'('"@,
        TokenKind::RParen => "')'"@,
        TokenKind::Comma => "','"@,
        TokenKind::Eq => "'='"@,
        TokenKind::Semi => "';'"@,
    }
}

/// A number token's value is in lowest terms.
pub open spec fn kind_wf(k: TokenKind) -> bool {
    k matches TokenKind::Num(v) ==> v.wf()
}

/// How a token is named in error messages: `number 3/4`, `'x'`, `'+'`.
pub fn describe(kind: &TokenKind) -> (r: String)
    requires
        kind_wf(*kind),
    ensures
        r@ == describe_text(*kind),
{
    match kind {
        TokenKind::Num(v) => {
            let mut s = String::from_str("number ");
            let t = v.to_text();
            s.append(t.as_str());
            s
        },
        TokenKind::Ident(n) => {
            let mut s = String::from_str("'");
            s.append(n.as_str());
            s.append("'");
            s
        },
        TokenKind::Plus => String::from_str("'+'"),
        TokenKind::Minus => String::from_str("'-'"),
        TokenKind::Star => String::from_str("'*'"),
        TokenKind::Slash => String::from_str("'/'"),
        TokenKind::Caret => String::from_str("'^'"),
        TokenKind::Bang => String::from_str("'!'"),
        TokenKind::LParen => String::from_str("'('"),
        TokenKind::RParen => String::from_str("')'"),
        TokenKind::Comma => String::from_str("','"),
        TokenKind::Eq => String::from_str("'='"),
        TokenKind::Semi => String::from_str("';'"),
    }
}

/// A token kind is the kind the lexer specification gives, with a number's
/// value in lowest terms.
pub open spec fn kind_matches(k: TokenKind, s: SpecKind) -> bool {
    match k {
        TokenKind::Num(r) => s matches SpecKind::Num(f) && r.wf() && qeq(r@, f),
        TokenKind::Ident(n) => s matches SpecKind::Ident(m) && n@ == m,
        TokenKind::Plus => s is Plus,
        TokenKind::Minus => s is Minus,
        TokenKind::Star => s is Star,
        TokenKind::Slash => s is Slash,
        TokenKind::Caret => s is Caret,
        TokenKind::Bang => s is Bang,
        TokenKind::LParen => s is LParen,
        TokenKind::RParen => s is RParen,
        TokenKind::Comma => s is Comma,
        TokenKind::Eq => s is Eq,
        TokenKind::Semi => s is Semi,
    }
}

/// Tokens agree with the specification's, with spans in bytes.
pub open spec fn tokens_match(toks: Seq<Token>, spec: Seq<SpecTok>, cs: Seq<char>) -> bool {
    &&& toks.len() == spec.len()
    &&& forall|k: int| 0 <= k < toks.len() ==> {
        &&& kind_matches(#[trigger] toks[k].kind, spec[k].0)
        &&& toks[k].start == byte_offset(cs, spec[k].1)
        &&& toks[k].end == byte_offset(cs, spec[k].2)
    }
}

/// An error agrees with the specification's, with its span in bytes.
pub open spec fn error_matches(e: ParseError, se: SpecErr, cs: Seq<char>) -> bool {
    &&& e.message@ == se.0
    &&& e.start == byte_offset(cs, se.1)
    &&& e.end == byte_offset(cs, se.2)
}

pub proof fn lemma_byte_offset_mono(cs: Seq<char>, j: int, k: int)
    requires
        0 <= j <= k <= cs.len(),
    ensures
        byte_offset(cs, j) <= byte_offset(cs, k),
    decreases k - j,
{
    if j < k {
        lemma_byte_offset_mono(cs, j, k - 1);
    }
}

/// Byte offsets of every character, and of the end.
fn offsets(cs: &Vec<char>) -> (r: Vec<usize>)
    requires
        byte_offset(cs@, cs@.len() as int) <= usize::MAX,
    ensures
        r@.len() == cs@.len() + 1,
        forall|j: int| 0 <= j <= cs@.len() ==> r@[j] == byte_offset(cs@, j),
{
    let n = cs.len();
    let mut r: Vec<usize> = Vec::new();
    let mut acc: usize = 0;
    let mut j: usize = 0;
    r.push(0);
    while j < n
        invariant
            n == cs@.len(),
            j <= n,
            byte_offset(cs@, n as int) <= usize::MAX,
            r@.len() == j + 1,
            acc == byte_offset(cs@, j as int),
            forall|k: int| 0 <= k <= j ==> r@[k] == byte_offset(cs@, k),
        decreases n - j,
    {
        proof {
            lemma_byte_offset_mono(cs@, j + 1, n as int);
        }
        acc = acc + char_width(cs[j]);
        j = j + 1;
        r.push(acc);
    }
    r
}

/// Length of `input` in UTF-8 bytes.
pub fn byte_len(input: &str) -> (r: usize)
    requires
        byte_offset(input@, input@.len() as int) <= usize::MAX,
    ensures
        r == byte_offset(input@, input@.len() as int),
{
    let cs = chars_of(input);
    let offs = offsets(&cs);
    offs[cs.len()]
}

fn digit_run_exec(cs: &Vec<char>, j: usize) -> (r: usize)
    requires
        j <= cs@.len(),
    ensures
        r == digit_run(cs@, j as int),
{
    let mut k = j;
    proof { lemma_digit_run(cs@, j as int); }
    while k < cs.len() && '0' <= cs[k] && cs[k] <= '9'
        invariant
            j <= k <= cs@.len(),
            digit_run(cs@, k as int) == digit_run(cs@, j as int),
        decreases cs@.len() - k,
    {
        k = k + 1;
    }
    k
}

fn ident_run_exec(cs: &Vec<char>, j: usize) -> (r: usize)
    requires
        j <= cs@.len(),
    ensures
        r == ident_run(cs@, j as int),
{
    let mut k = j;
    while k < cs.len() && (char_is_alphanumeric(cs[k]) || cs[k] == '_')
        invariant
            j <= k <= cs@.len(),
            ident_run(cs@, k as int) == ident_run(cs@, j as int),
        decreases cs@.len() - k,
    {
        k = k + 1;
    }
    k
}

/// Appends characters `a..b` of `cs` to `out`.
fn append_range(out: &mut String, cs: &Vec<char>, a: usize, b: usize)
    requires
        a <= b <= cs@.len(),
    ensures
        final(out)@ == old(out)@ + cs@.subrange(a as int, b as int),
{
    let mut k = a;
    while k < b
        invariant
            a <= k <= b <= cs@.len(),
            out@ == old(out)@ + cs@.subrange(a as int, k as int),
        decreases b - k,
    {
        let t = char_text(cs[k]);
        out.append(t.as_str());
        assert(cs@.subrange(a as int, k + 1) =~= cs@.subrange(a as int, k as int).push(cs@[k as int]));
        k = k + 1;
    }
}

/// The mantissa's digits (without the point), the number of digits after
/// the point, and where the mantissa ends.
fn scan_mantissa(cs: &Vec<char>, i: usize) -> (r: (String, i64, usize))
    requires
        i < cs@.len(),
        cs@.len() < 0x4000_0000_0000_0000,
        starts_number(cs@, i as int),
    ensures
        r.0@ == mantissa_digits(cs@, i as int),
        r.0@.len() > 0,
        all_digits(r.0@),
        r.1 as int == frac_len(cs@, i as int),
        r.2 as int == mantissa_end(cs@, i as int),
        i < r.2 <= cs@.len(),
{
    let n = cs.len();
    let ghost c = cs@;
    proof { lemma_digit_run(c, i as int); }
    let j1 = digit_run_exec(cs, i);
    let mut digits = String::new();
    append_range(&mut digits, cs, i, j1);
    let mut frac: i64 = 0;
    let mut m = j1;
    if j1 < n && cs[j1] == '.' {
        proof { lemma_digit_run(c, j1 + 1); }
        let j = digit_run_exec(cs, j1 + 1);
        append_range(&mut digits, cs, j1 + 1, j);
        frac = (j - j1 - 1) as i64;
        m = j;
    }
    proof {
        assert forall|k: int| 0 <= k < digits@.len() implies is_digit(#[trigger] digits@[k]) by {
            if has_point(c, i as int) {
                lemma_digit_run(c, int_end(c, i as int) + 1);
                if k >= int_end(c, i as int) - i {
                    assert(digits@[k] == c[k + 1 + i]);
                } else {
                    assert(digits@[k] == c[k + i]);
                }
            } else {
                assert(digits@[k] == c[k + i]);
            }
        }
        if has_point(c, i as int) && int_end(c, i as int) == i {
            lemma_digit_run(c, i + 1);
            assert(is_digit(c[i + 1]));
        }
    }
    (digits, frac, m)
}

/// The exponent after mantissa end `m`: its signed value and where it
/// ends, or the error for an exponent over the limit.
fn scan_exponent(cs: &Vec<char>, i: usize, m: usize, offs: &Vec<usize>) -> (r: Result<(i64, usize), ParseError>)
    requires
        i < m <= cs@.len(),
        offs@.len() == cs@.len() + 1,
        forall|j: int| 0 <= j <= cs@.len() ==> offs@[j] == byte_offset(cs@, j),
    ensures
        has_exponent(cs@, m as int) && exp_magnitude(cs@, m as int) > MAX_SCI_EXPONENT
            ==> (r matches Err(pe) && error_matches(pe, ("exponent too large"@, i as int, exp_end(cs@, m as int)), cs@)),
        has_exponent(cs@, m as int) && exp_magnitude(cs@, m as int) <= MAX_SCI_EXPONENT
            ==> (r matches Ok((e, end)) && end as int == exp_end(cs@, m as int) && e as int == (if exp_negative(cs@, m as int) {
                -(exp_magnitude(cs@, m as int) as int) } else { exp_magnitude(cs@, m as int) as int })),
        !has_exponent(cs@, m as int) ==> r == Ok::<(i64, usize), ParseError>((0, m)),
        r matches Ok((_, end)) ==> m <= end <= cs@.len(),
{
    let n = cs.len();
    let ghost c = cs@;
    if m < n && (cs[m] == 'e' || cs[m] == 'E') {
        let mut j = m + 1;
        let negative = j < n && cs[j] == '-';
        if j < n && (cs[j] == '+' || cs[j] == '-') {
            j = j + 1;
        }
        assert(j == exp_digits_start(c, m as int));
        if j < n && '0' <= cs[j] && cs[j] <= '9' {
            proof { lemma_digit_run(c, j as int); }
            let k2 = digit_run_exec(cs, j);
            let mut ds = String::new();
            append_range(&mut ds, cs, j, k2);
            assert(ds@ == c.subrange(j as int, k2 as int));
            let e = match parse_i64(ds.as_str()) {
                Some(e) if e <= MAX_SCI_EXPONENT => e,
                _ => {
                    return Err(ParseError::new(String::from_str("exponent too large"), offs[i], offs[k2]));
                },
            };
            return Ok((if negative { -e } else { e }, k2));
        }
    }
    Ok((0, m))
}

/// `m * 10^scale`, exactly.
fn decimal_value(digits: &String, scale: i64) -> (r: Rat)
    requires
        digits@.len() > 0,
        all_digits(digits@),
        i64::MIN < scale,
        -(usize::MAX as int) <= scale <= usize::MAX,
    ensures
        r.wf(),
        qeq(r@, decimal_frac(digits_value(digits@), scale as int)),
{
    let mantissa = Int::parse_digits(digits.as_str());
    let ten = Int::from_i64(10);
    if scale >= 0 {
        let p = ten.pow(scale as usize);
        Rat::from_int(mantissa.mul(&p))
    } else {
        let d = ten.pow((-scale) as usize);
        proof {
            crate::power::lemma_pow_nonzero(10, (-scale) as nat);
            assert(d@ == pow(10, (-scale) as nat));
        }
        Rat::new(&mantissa, &d)
    }
}

fn scan_number_exec(cs: &Vec<char>, i: usize, offs: &Vec<usize>) -> (r: Result<(Rat, usize), ParseError>)
    requires
        i < cs@.len(),
        cs@.len() < 0x4000_0000_0000_0000,
        cs@.len() + MAX_SCI_EXPONENT < usize::MAX,
        starts_number(cs@, i as int),
        offs@.len() == cs@.len() + 1,
        forall|j: int| 0 <= j <= cs@.len() ==> offs@[j] == byte_offset(cs@, j),
    ensures
        match scan_number(cs@, i as int) {
            Ok((v, end)) => r matches Ok((q, e)) && q.wf() && qeq(q@, v) && e == end,
            Err(se) => r matches Err(pe) && error_matches(pe, se, cs@),
        },
{
    let n = cs.len();
    let (digits, frac, m) = scan_mantissa(cs, i);
    let (exp, end) = match scan_exponent(cs, i, m, offs) {
        Ok(p) => p,
        Err(e) => {
            return Err(e);
        },
    };
    if end < n && cs[end] == '.' {
        return Err(ParseError::new(String::from_str("unexpected '.' in number"), offs[end], offs[end + 1]));
    }
    let value = decimal_value(&digits, exp - frac);
    Ok((value, end))
}

/// Splits `input` into tokens.

/// Whether `p` begins `cs[i..j]`.
fn run_has_prefix(cs: &Vec<char>, i: usize, j: usize, p: &str) -> (r: bool)
    requires
        i <= j <= cs@.len(),
    ensures
        r == has_prefix(cs@.subrange(i as int, j as int), p@),
{
    let n = p.unicode_len();
    if n > j - i {
        return false;
    }
    let mut k: usize = 0;
    while k < n
        invariant
            n == p@.len(),
            i + n <= j <= cs@.len(),
            k <= n,
            forall|a: int| 0 <= a < k ==> cs@[i + a] == p@[a],
        decreases n - k,
    {
        if cs[i + k] != p.get_char(k) {
            assert(cs@.subrange(i as int, j as int).subrange(0, n as int)[k as int] != p@[k as int]);
            return false;
        }
        k = k + 1;
    }
    assert(cs@.subrange(i as int, j as int).subrange(0, n as int) =~= p@);
    true
}

/// Whether `keep_whole` holds for the run `cs[i..j]`, whose text is `name`.
fn whole_name(cs: &Vec<char>, i: usize, j: usize, name: &String) -> (r: bool)
    requires
        i < j <= cs@.len(),
        name@ == cs@.subrange(i as int, j as int),
    ensures
        r == keep_whole(cs@, i as int, j as int),
{
    if j - i <= 1 {
        return true;
    }
    let mut k = i;
    while k < j
        invariant
            i <= k <= j <= cs@.len(),
            forall|a: int| i <= a < k ==> is_letter(#[trigger] cs@[a]),
        decreases j - k,
    {
        if !char_is_alphabetic(cs[k]) {
            assert(!is_letter(cs@[k as int]));
            return true;
        }
        k = k + 1;
    }
    if is_constant(name.as_str()) {
        return true;
    }
    let calls = callables();
    let ghost cv = function_names() + command_names();
    let mut c: usize = 0;
    while c < calls.len()
        invariant
            c <= calls@.len(),
            names_view(calls@) == cv,
            cv == function_names() + command_names(),
            i < j <= cs@.len(),
            forall|a: int| 0 <= a < c ==> !has_prefix(cs@.subrange(i as int, j as int), #[trigger] cv[a]),
        decreases calls@.len() - c,
    {
        assert(cv[c as int] == calls@[c as int]@);
        if run_has_prefix(cs, i, j, calls[c]) {
            assert(has_prefix(cs@.subrange(i as int, j as int), cv[c as int]));
            assert(starts_callable(cs@.subrange(i as int, j as int)));
            return true;
        }
        c = c + 1;
    }
    let mut m = j;
    while m < cs.len() && char_is_whitespace(cs[m])
        invariant
            j <= m <= cs@.len(),
            paren_after(cs@, m as int) == paren_after(cs@, j as int),
        decreases cs@.len() - m,
    {
        m = m + 1;
    }
    m < cs.len() && cs[m] == '('
}

/// `piece_len` of a split run.
fn piece_width(cs: &Vec<char>, k: usize, j: usize) -> (r: usize)
    requires
        k < j <= cs@.len(),
    ensures
        r == piece_len(cs@, k as int, j as int),
{
    if j - k >= 3 && ((cs[k] == 't' && cs[k + 1] == 'a' && cs[k + 2] == 'u') || (cs[k] == 'p' && cs[k + 1] == 'h' && cs[k + 2] == 'i')) {
        3
    } else if j - k >= 2 && cs[k] == 'p' && cs[k + 1] == 'i' {
        2
    } else {
        1
    }
}

/// The tokens of the identifier run `cs[i..j]`.
fn ident_tokens(cs: &Vec<char>, offs: &Vec<usize>, i: usize, j: usize) -> (r: Vec<Token>)
    requires
        i < j <= cs@.len(),
        offs@.len() == cs@.len() + 1,
        forall|a: int| 0 <= a <= cs@.len() ==> offs@[a] == byte_offset(cs@, a),
    ensures
        tokens_match(r@, ident_spec(cs@, i as int, j as int), cs@),
{
    let mut name = String::new();
    append_range(&mut name, cs, i, j);
    let whole = whole_name(cs, i, j, &name);
    let mut out: Vec<Token> = Vec::new();
    if whole {
        if str_eq(name.as_str(), "π") {
            name = String::from_str("pi");
        }
        out.push(Token { kind: TokenKind::Ident(name), start: offs[i], end: offs[j] });
        return out;
    }
    let mut k = i;
    let ghost mut done: Seq<SpecTok> = seq![];
    while k < j
        invariant
            i <= k <= j <= cs@.len(),
            offs@.len() == cs@.len() + 1,
            forall|a: int| 0 <= a <= cs@.len() ==> offs@[a] == byte_offset(cs@, a),
            pieces(cs@, i as int, j as int) == done + pieces(cs@, k as int, j as int),
            tokens_match(out@, done, cs@),
        decreases j - k,
    {
        let w = piece_width(cs, k, j);
        let mut nm = String::new();
        append_range(&mut nm, cs, k, k + w);
        let ghost t: SpecTok = (SpecKind::Ident(cs@.subrange(k as int, k + w)), k as int, k + w);
        out.push(Token { kind: TokenKind::Ident(nm), start: offs[k], end: offs[k + w] });
        proof {
            assert(pieces(cs@, k as int, j as int) == seq![t] + pieces(cs@, k + w, j as int));
            assert(done + (seq![t] + pieces(cs@, k + w, j as int)) =~= done.push(t) + pieces(cs@, k + w, j as int));
            done = done.push(t);
        }
        k = k + w;
    }
    assert(done + seq![] =~= done);
    out
}

#[verifier::rlimit(40)]
#[verifier::spinoff_prover]
pub fn tokenize(input: &str) -> (r: Result<Vec<Token>, ParseError>)
    requires
        input@.len() < 0x4000_0000_0000_0000,
        input@.len() + MAX_SCI_EXPONENT < usize::MAX,
        byte_offset(input@, input@.len() as int) <= usize::MAX,
    ensures
        match (r, lex(input@, 0)) {
            (Ok(t), Ok(s)) => tokens_match(t@, s, input@),
            (Err(e), Err(se)) => error_matches(e, se, input@),
            _ => false,
        },
{
    let cs = chars_of(input);
    let offs = offsets(&cs);
    let n = cs.len();
    let mut tokens: Vec<Token> = Vec::new();
    let mut i: usize = 0;
    let ghost mut prefix: Seq<SpecTok> = seq![];
    while i < n
        invariant
            cs@ == input@,
            n == cs@.len(),
            n < 0x4000_0000_0000_0000,
            n + MAX_SCI_EXPONENT < usize::MAX,
            i <= n,
            offs@.len() == n + 1,
            forall|j: int| 0 <= j <= n ==> offs@[j] == byte_offset(cs@, j),
            lex(cs@, 0) == prepend_all(prefix, lex(cs@, i as int)),
            tokens_match(tokens@, prefix, cs@),
        decreases n - i,
    {
        let c = cs[i];
        let ghost rest = lex(cs@, i as int);
        if char_is_whitespace(c) {
            i = i + 1;
        } else if ('0' <= c && c <= '9') || (c == '.' && i + 1 < n && '0' <= cs[i + 1] && cs[i + 1] <= '9') {
            match scan_number_exec(&cs, i, &offs) {
                Err(e) => {
                    return Err(e);
                },
                Ok((v, end)) => {
                    proof { lemma_scan_number_advances(cs@, i as int); }
                    let ghost t: SpecTok = (SpecKind::Num(scan_number(cs@, i as int)->Ok_0.0), i as int, end as int);
                    tokens.push(Token { kind: TokenKind::Num(v), start: offs[i], end: offs[end] });
                    proof {
                        assert(prepend_all(prefix, rest) == prepend_all(prefix.push(t), lex(cs@, end as int)))
                            by {
                            assert(prefix + (seq![t] + lex(cs@, end as int)->Ok_0) =~= prefix.push(t) + lex(cs@, end as int)->Ok_0);
                        }
                        prefix = prefix.push(t);
                    }
                    i = end;
                },
            }
        } else if char_is_alphabetic(c) || c == '_' {
            proof { lemma_ident_run(cs@, i + 1); }
            let j = ident_run_exec(&cs, i);
            let mut more = ident_tokens(&cs, &offs, i, j);
            let ghost ts = ident_spec(cs@, i as int, j as int);
            let ghost before = tokens@;
            let ghost mv = more@;
            tokens.append(&mut more);
            proof {
                assert(prepend_all(prefix, rest) == prepend_all(prefix + ts, lex(cs@, j as int))) by {
                    assert(prefix + (ts + lex(cs@, j as int)->Ok_0) =~= (prefix + ts) + lex(cs@, j as int)->Ok_0);
                }
                assert forall|k: int| 0 <= k < tokens@.len() implies {
                    &&& kind_matches(#[trigger] tokens@[k].kind, (prefix + ts)[k].0)
                    &&& tokens@[k].start == byte_offset(cs@, (prefix + ts)[k].1)
                    &&& tokens@[k].end == byte_offset(cs@, (prefix + ts)[k].2)
                } by {
                    if k < before.len() {
                        assert(tokens@[k] == before[k]);
                    } else {
                        assert(tokens@[k] == mv[k - before.len()]);
                        assert((prefix + ts)[k] == ts[k - before.len()]);
                    }
                }
                prefix = prefix + ts;
            }
            i = j;
        } else {
            let (kind, len) = if c == '*' && i + 1 < n && cs[i + 1] == '*' {
                (TokenKind::Caret, 2usize)
            } else if c == '+' {
                (TokenKind::Plus, 1)
            } else if c == '-' || c == '−' {
                (TokenKind::Minus, 1)
            } else if c == '*' || c == '×' || c == '·' {
                (TokenKind::Star, 1)
            } else if c == '/' || c == '÷' {
                (TokenKind::Slash, 1)
            } else if c == '^' {
                (TokenKind::Caret, 1)
            } else if c == '!' {
                (TokenKind::Bang, 1)
            } else if c == '(' {
                (TokenKind::LParen, 1)
            } else if c == ')' {
                (TokenKind::RParen, 1)
            } else if c == ',' {
                (TokenKind::Comma, 1)
            } else if c == '=' {
                (TokenKind::Eq, 1)
            } else if c == ';' {
                (TokenKind::Semi, 1)
            } else {
                let mut msg = String::from_str("unexpected character '");
                let ct = char_text(c);
                msg.append(ct.as_str());
                msg.append("'");
                return Err(ParseError::new(msg, offs[i], offs[i + 1]));
            };
            let ghost sk = if len == 2 { SpecKind::Caret } else { symbol_kind(c)->Some_0 };
            let ghost t: SpecTok = (sk, i as int, i + len);
            tokens.push(Token { kind, start: offs[i], end: offs[i + len] });
            proof {
                assert(prepend_all(prefix, rest) == prepend_all(prefix.push(t), lex(cs@, i + len))) by {
                    assert(prefix + (seq![t] + lex(cs@, i + len)->Ok_0) =~= prefix.push(t) + lex(cs@, i + len)->Ok_0);
                }
                prefix = prefix.push(t);
            }
            i = i + len;
        }
    }
    assert(prefix + seq![] =~= prefix);
    Ok(tokens)
}

} // verus!
