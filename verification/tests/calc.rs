use omniculator::calculate;
use omniculator::eval::Evaluate;
use omniculator::format::display;
use omniculator::parser::parse;
use omniculator::format::{format_result, format_value};
use omniculator::suggest::{levenshtein, suggest};
use omniculator::Value;

/// The result line of an exact answer, or the error line.
fn show(input: &str) -> String {
    match calculate(input) {
        Ok(Some(v)) => format_result(&v).expect("an exact result line"),
        Ok(None) => panic!("{input}: needs an approximation"),
        Err(e) => format!("error: {}", e.message()),
    }
}

/// The library leaves this answer to approximate arithmetic.
fn approximate(input: &str) -> bool {
    matches!(calculate(input), Ok(None))
}

fn exact(input: &str) -> Value {
    calculate(input).unwrap().expect("an exact value")
}

#[test]
fn arithmetic_is_exact() {
    assert_eq!(show("2+3*4"), "14");
    assert_eq!(show("1/3+1/6"), "1/2 = 0.5");
    assert_eq!(show("0.1+0.2"), "3/10 = 0.3");
    assert_eq!(show("1/3"), "1/3 ≈ 0.333333333333");
    assert_eq!(show("2/3"), "2/3 ≈ 0.666666666667");
    assert_eq!(show("-7/2"), "-7/2 = -3.5");
    assert_eq!(show("10!/8!"), "90");
    assert_eq!(show("1e3"), "1000");
    assert_eq!(show("2.5e-1"), "1/4 = 0.25");
}

#[test]
fn precedence() {
    assert_eq!(show("-2^2"), "-4");
    assert_eq!(show("(-2)^2"), "4");
    assert_eq!(show("2^3^2"), "512");
    assert_eq!(show("2^-1"), "1/2 = 0.5");
    assert_eq!(show("5!"), "120");
    assert_eq!(show("3!^2"), "36");
    assert_eq!(show("-3!"), "-6");
    assert_eq!(show("10-4-3"), "3");
    assert_eq!(show("2**3"), "8");
}

#[test]
fn implicit_multiplication() {
    assert_eq!(show("2(3+4)"), "14");
    assert_eq!(show("(1+2)(3+4)"), "21");
    // 2π and 2e are irrational: the approximate evaluator computes them.
    assert!(approximate("2pi"));
    assert!(approximate("2e"));
}

#[test]
fn roots_and_powers() {
    assert_eq!(show("sqrt(16)"), "4");
    assert_eq!(show("sqrt(4/9)"), "2/3 ≈ 0.666666666667");
    assert_eq!(show("8^(2/3)"), "4");
    assert_eq!(show("(-8)^(1/3)"), "-2");
    assert_eq!(show("root(81, 4)"), "3");
    assert_eq!(show("0^0"), "1");
    assert!(approximate("sqrt(2)^2"));
}

#[test]
fn complex_numbers() {
    assert_eq!(show("sqrt(-4)"), "2i");
    assert_eq!(show("i^2"), "-1");
    assert_eq!(show("(1+2i)(3-i)"), "5 + 5i");
    assert_eq!(show("1/i"), "-i");
    assert_eq!(show("abs(3+4i)"), "5");
    assert_eq!(show("conj(1+i)"), "1 - i");
    // The exact part of `(1/2)i ≈ 0.5i`; the decimal beside it is a float.
    let half_i = exact("i/2");
    assert_eq!(format_value(&half_i), "(1/2)i");
    assert_eq!(format_result(&half_i), None);
    assert!(approximate("sqrt(-2)"));
    assert!(approximate("ln(-1)"));
}

#[test]
fn functions() {
    assert_eq!(show("log(1000)"), "3");
    assert_eq!(show("log(8, 2)"), "3");
    assert_eq!(show("log2(1/8)"), "-3");
    assert_eq!(show("sin(0)"), "0");
    assert_eq!(show("floor(7/2)"), "3");
    assert!(approximate("cos(pi)"));
    assert!(approximate("ln(e)"));
}

#[test]
fn errors() {
    assert_eq!(show("1/0"), "error: division by zero");
    assert!(show("sqr(4)").contains("did you mean 'sqrt'"));
    assert!(show("sqrtt(4)").contains("did you mean 'sqrt'"));
    assert!(show("sinx").contains("did you mean 'sin'"));
    assert_eq!(show("x"), "error: unknown name 'x'");
    assert!(show("2 3").contains("missing operator"));
    assert!(show("2+").contains("end of input"));
    assert!(show("(2").contains("unclosed"));
    assert!(show("2)").contains("unmatched"));
    assert!(show("sin 3").contains("parentheses"));
    assert!(show("x+1=2").contains("unexpected '='"));
    assert!(show("(-1)!").contains("non-negative integers"));
    assert!(show("sqrt(1,2)").contains("takes 1 argument"));
    assert!(show("log(0)").contains("undefined"));
}

#[test]
fn edit_distance() {
    assert_eq!(levenshtein("kitten", "sitting"), 3);
    assert_eq!(levenshtein("", "abc"), 3);
    assert_eq!(levenshtein("sqrt", "sqrt"), 0);
}

#[test]
fn edit_distance_is_symmetric_on_examples() {
    assert_eq!(levenshtein("sitting", "kitten"), 3);
    assert_eq!(levenshtein("abc", ""), 3);
    assert_eq!(levenshtein("flaw", "lawn"), levenshtein("lawn", "flaw"));
    // Triangle inequality on an example: kitten -> sitten -> sitting.
    assert!(levenshtein("kitten", "sitting") <= levenshtein("kitten", "sitten") + levenshtein("sitten", "sitting"));
    assert_eq!(levenshtein("kitten", "sitten"), 1);
    assert_eq!(levenshtein("sitten", "sitting"), 2);
}

#[test]
fn suggestions() {
    let names = ["sqrt", "sin", "cos", "e"];
    assert_eq!(suggest("sqr", &names), Some("sqrt".to_string()));
    assert_eq!(suggest("SIN", &names), Some("sin".to_string()));
    // A one-letter name is never "corrected" into another one.
    assert_eq!(suggest("x", &names), None);
    assert_eq!(suggest("zzzzzz", &names), None);
    assert_eq!(suggest("sqrt", &[]), None);
}

#[test]
fn decimals_beside_fractions() {
    assert_eq!(show("1/8"), "1/8 = 0.125");
    assert_eq!(show("-1/3"), "-1/3 ≈ -0.333333333333");
    assert_eq!(show("1/7"), "1/7 ≈ 0.142857142857");
    assert_eq!(show("123/10"), "123/10 = 12.3");
    assert_eq!(show("1/2000000000000"), "1/2000000000000 ≈ 0.000000000001");
    assert_eq!(show("1/8000"), "1/8000 = 0.000125");
    // Too small to show in 12 places: the approximate formatter takes over.
    assert_eq!(format_result(&exact("1/3000000000000")), None);
}

#[test]
fn exact_value_arithmetic() {
    let a = Value::rat(1, 3);
    let b = Value::rat(1, 6);
    assert_eq!(format_value(&a.add(&b)), "1/2");
    assert_eq!(format_value(&a.sub(&a)), "0");
    assert_eq!(format_value(&a.mul(&b)), "1/18");
    assert!(a.div(&Value::integer(0)).is_err());
    assert_eq!(format_value(&a.div(&b).unwrap()), "2");
    let i = Value::imaginary_unit();
    assert_eq!(format_value(&i.mul(&i)), "-1");
}

#[test]
fn scientific_notation_and_names() {
    assert_eq!(show("2e3"), "2000");
    assert!(approximate("2e"));
    assert_eq!(show("x1"), "error: unknown name 'x1'");
    assert_eq!(show("2(3)(4)"), "24");
}

#[test]
fn dividing_then_multiplying_returns_the_dividend() {
    let a = exact("2+3i");
    let b = exact("1-i");
    let q = a.div(&b).unwrap();
    assert_eq!(format_value(&q), "-1/2 + (5/2)i");
    assert_eq!(q.mul(&b), a);
    let c = Value::rat(7, 3);
    let d = Value::rat(-2, 5);
    assert_eq!(c.div(&d).unwrap().mul(&d), c);
}

#[test]
fn subtracting_a_value_from_itself_gives_zero() {
    for s in ["1/3", "2+3i", "-7", "(1/2)i"] {
        let v = exact(s);
        assert!(v.sub(&v).is_zero(), "{s}");
    }
}

#[test]
fn rounding_signs_and_messages() {
    assert_eq!(show("ceil(7/2)"), "4");
    assert_eq!(show("round(5/2)"), "3");
    assert_eq!(show("round(-5/2)"), "-3");
    assert_eq!(show("floor(-7/2)"), "-4");
    assert_eq!(show("(-1)^3"), "-1");
    assert_eq!(show("(-1)^4"), "1");
    assert_eq!(show("2^10"), "1024");
    assert!(show("sqrt(1,2)").ends_with("got 2"));
    assert_eq!(show("2$"), "error: unexpected character '$'");
    assert_eq!(show("25!/24!"), "25");
}

#[test]
fn evaluating_a_parsed_tree() {
    let e = parse("1/2 + 1/3").unwrap();
    assert_eq!(display(&e), "1 / 2 + 1 / 3");
    let v = e.eval().unwrap().unwrap();
    assert_eq!(format_value(&v), "5/6");
    let e = parse("-2^2 + 3!").unwrap();
    assert_eq!(display(&e), "-2^2 + 3!");
    assert_eq!(format_value(&e.eval().unwrap().unwrap()), "2");
    assert!(parse("pi").unwrap().eval().unwrap().is_none());
}

#[test]
fn adjacent_letters_multiply() {
    let same = |a: &str, b: &str| display(&parse(a).unwrap()) == display(&parse(b).unwrap());
    assert!(same("xy", "x*y"));
    assert!(same("2pix", "2*pi*x"));
    assert!(same("x^2y^2", "x^2*y^2"));
    assert!(same("2xy", "2*x*y"));
    assert_eq!(display(&parse("x1").unwrap()), "x1");
    assert_eq!(display(&parse("rate_1").unwrap()), "rate_1");
    assert_eq!(display(&parse("xy").unwrap()), "x * y");
    // A run that begins with a function name stays whole, for the suggestion.
    assert!(show("sinx").contains("did you mean 'sin'"));
    assert!(approximate("tau"));
    assert_eq!(show("pix"), "error: unknown name 'x'");
}

#[test]
fn errors_win_over_approximation() {
    assert_eq!(show("pi + 1/0"), "error: division by zero");
    assert_eq!(show("sqrt(2, 1/0)"), "error: division by zero");
    assert!(approximate("pi + 1"));
    assert_eq!(show("log(10^50, 10)"), "50");
    assert!(approximate("log(3, 2)"));
}

#[test]
fn whitespace_and_unicode_input() {
    assert_eq!(show("2\t+\n3"), "5");
    assert_eq!(show("2\u{3000}*\u{00A0}4"), "8");
    assert_eq!(show("6 ÷ 4"), "3/2 = 1.5");
    assert_eq!(show("2 × 3 − 1"), "5");
    assert_eq!(show("123456789012345678901234567890 + 1"), "123456789012345678901234567891");
    assert_eq!(show("1e18 * 10"), "10000000000000000000");
}
