use omniculator::linear::{format_solution, Solution};
use omniculator::{calculate, run, Error, Outcome, Value};
use omniculator::ast::{well_formed, Expr};
use omniculator::parser::parse;
use omniculator::polysolve::uni_roots;

fn solve(input: &str) -> Solution {
    match run(input).unwrap() {
        Outcome::Linear(s, _) => s,
        o => panic!("{input}: expected a system, got {o:?}"),
    }
}

fn unique(pairs: &[(&str, Value)]) -> Solution {
    Solution::Unique(pairs.iter().map(|(n, v)| (n.to_string(), v.clone())).collect())
}

fn error(input: &str) -> String {
    match run(input) {
        Err(e) => e.message(),
        Ok(o) => panic!("{input}: expected an error, got {o:?}"),
    }
}

#[test]
fn two_by_two() {
    assert_eq!(solve("x+y=60;x-y=30;"), unique(&[("x", Value::integer(45)), ("y", Value::integer(15))]));
}

#[test]
fn single_equation() {
    assert_eq!(solve("2x+3=7"), unique(&[("x", Value::integer(2))]));
    assert_eq!(solve("3(x-1) = x + 5"), unique(&[("x", Value::integer(4))]));
}

#[test]
fn exact_fractions() {
    assert_eq!(
        solve("x/3 + y/4 = 1; x - y = 1/2"),
        unique(&[("x", Value::rat(27, 14)), ("y", Value::rat(10, 7))])
    );
}

#[test]
fn three_by_three() {
    assert_eq!(
        solve("x+y+z=6; 2y+5z=-4; 2x+5y-z=27"),
        unique(&[("x", Value::integer(5)), ("y", Value::integer(3)), ("z", Value::integer(-2))])
    );
}

#[test]
fn needs_row_swap() {
    assert_eq!(solve("x - x + y = 1; x + y = 3"), unique(&[("x", Value::integer(2)), ("y", Value::integer(1))]));
}

#[test]
fn no_solution() {
    assert!(matches!(solve("x+y=1; x+y=2"), Solution::NoSolution { .. }));
    assert!(matches!(solve("2=3"), Solution::NoSolution { .. }));
}

#[test]
fn infinitely_many() {
    match solve("x+y=3; 2x+2y=6") {
        Solution::Infinite { dependent, free } => {
            assert_eq!(free, vec!["y".to_string()]);
            assert_eq!(dependent[0].0, "x");
            assert_eq!(dependent[0].1.to_text(), "3 - y");
        }
        s => panic!("expected infinitely many, got {s:?}"),
    }
}

#[test]
fn identity() {
    assert_eq!(solve("2=2"), Solution::Unique(vec![]));
}

fn solve_i() -> Value {
    calculate("i").unwrap().unwrap()
}

#[test]
fn complex_and_float_coefficients() {
    assert_eq!(solve("i*x = 2"), unique(&[("x", Value::rat(-2, 1).mul(&solve_i()))]));
    // A coefficient of π makes the system approximate: floats take over.
    assert!(matches!(run("pi*x = pi"), Ok(Outcome::Approximate)));
    // Constant subexpressions are evaluated exactly.
    assert_eq!(solve("sin(0)*x + x = 4"), unique(&[("x", Value::integer(4))]));
}

#[test]
fn equation_parse_errors() {
    assert!(matches!(run("x+y"), Ok(Outcome::Text { .. })));
    assert!(error("1/0 = x").contains("division by zero"));
    let _ = Error::Eval;
    assert!(error("x=1=2").contains("only have one '='"));
    assert!(error("x+1; y=2").contains("expected '='"));
    assert!(error("=5").contains("left-hand side"));
    assert!(error("x=").contains("right-hand side"));
}

fn text(input: &str) -> String {
    match run(input) {
        Ok(Outcome::Text { answer, .. }) => answer,
        o => panic!("{input}: expected a text answer, got {o:?}"),
    }
}

#[test]
fn quadratic_equations_are_solved_exactly() {
    assert_eq!(text("x^2=4"), "x = -2\nx = 2");
    assert_eq!(text("x^2 - 5x + 6 = 0"), "x = 2\nx = 3");
    assert_eq!(text("x^2 = -4"), "x = -2i\nx = 2i");
    assert_eq!(text("x^2 - 2x + 1 = 0"), "x = 1");
    assert_eq!(text("2x^2 = x"), "x = 0\nx = 1/2");
    assert_eq!(text("x^2 - x^2 + x = 1"), "x = 1");
    assert_eq!(text("x^2 = 2"), "x = -sqrt(2)\nx = sqrt(2)");
    assert_eq!(text("2x^2 - 4x + 1 = 0"), "x = 1 - sqrt(1/2)\nx = 1 + sqrt(1/2)");
    assert_eq!(text("x^2 + x + 1 = 0"), "x = -1/2 - i·sqrt(3/4)\nx = -1/2 + i·sqrt(3/4)");
    assert_eq!(text("x^2 - x^2 = 0"), "The equation is always true.");
    assert_eq!(text("x^2 - x^2 = 1"), "No solution: the equation reduces to a false statement.");
    match run("x^2=4") {
        Ok(Outcome::Text { steps, .. }) => {
            assert_eq!(steps.len(), 1);
            assert_eq!(steps[0].description, "Move everything to one side");
            assert_eq!(steps[0].snapshot, vec!["x^2 - 4 = 0".to_string()]);
        }
        o => panic!("{o:?}"),
    }
}

#[test]
fn like_terms_are_collected() {
    assert_eq!(text("x+y"), "x + y");
    assert_eq!(text("2x+3x"), "5x");
    assert_eq!(text("x"), "x");
    assert_eq!(text("2(x + 1) - x"), "2 + x");
    assert_eq!(text("x - x"), "0");
    assert!(error("sinx").contains("did you mean 'sin'"));
    assert!(error("x*y").contains("unknown name 'x'"));
    assert!(error("pix").contains("unknown name 'x'"));
}

#[test]
fn quadratic_formula() {
    let (d, roots) = uni_roots(&Value::integer(1), &Value::integer(0), &Value::integer(-4));
    assert_eq!(d, Value::integer(16));
    assert_eq!(roots, Some(vec![(Value::integer(-2), 1), (Value::integer(2), 1)]));
    let (d, roots) = uni_roots(&Value::integer(1), &Value::integer(-2), &Value::integer(1));
    assert_eq!(d, Value::integer(0));
    assert_eq!(roots, Some(vec![(Value::integer(1), 2)]));
    let (d, roots) = uni_roots(&Value::integer(-1), &Value::integer(0), &Value::integer(1));
    assert_eq!(d, Value::integer(4));
    assert_eq!(roots, Some(vec![(Value::integer(-1), 1), (Value::integer(1), 1)]));
    let (d, roots) = uni_roots(&Value::integer(1), &Value::integer(0), &Value::integer(-2));
    assert_eq!(d, Value::integer(8));
    assert_eq!(roots, None);
}

#[test]
fn parsed_expressions_are_well_formed() {
    assert!(well_formed(&parse("1/2 + 3x - sqrt(4/6)").unwrap()));
    assert!(well_formed(&Expr::Num(Value::rat(2, 4))));
}

#[test]
fn polynomial_equations_refused() {
    assert!(error("sin(x)=y").contains("isn't a polynomial equation"));
    assert!(error("1/x = 2").contains("isn't a polynomial equation"));
    assert!(error("x^3 = 8").contains("not of degree 2 in one unknown"));
    assert!(error("x*y = 6").contains("not of degree 2 in one unknown"));
    assert!(error("i*x^2 = 1").contains("the discriminant 4i has no exact square root"));
    assert!(error("x^2 = 1/0").contains("division by zero"));
    assert!(matches!(run("x^2 = pi"), Ok(Outcome::Approximate)));
    // Two equations that are not linear stay with the linear solver.
    assert!(error("x^2 = 1; y = 2").contains("is not linear"));
}

#[test]
fn step_trace() {
    let Outcome::Linear(s, steps) = run("x+y=60; x-y=30").unwrap() else { panic!() };
    let text = format_solution(&s, &steps).unwrap();
    assert!(text.contains("R2 ← R2 - R1"), "{text}");
    assert!(text.contains("R2 ← R2 ÷ (-2)"), "{text}");
    assert!(text.ends_with("x = 45\ny = 15"), "{text}");
}

#[test]
fn reports() {
    let Outcome::Linear(s, steps) = run("x+y=3; 2x+2y=6").unwrap() else { panic!() };
    let text = format_solution(&s, &steps).unwrap();
    assert!(text.starts_with("Steps:\n  1. Write each equation in standard form\n       x + y = 3\n"), "{text}");
    assert!(text.ends_with("Infinitely many solutions (y can be anything):\n  x = 3 - y"), "{text}");
    let Outcome::Linear(s, steps) = run("x+y=1; x+y=2").unwrap() else { panic!() };
    let text = format_solution(&s, &steps).unwrap();
    assert!(text.ends_with("No solution: the equations contradict each other (they reduce to 0 = 1)."), "{text}");
    let Outcome::Linear(s, steps) = run("2=2").unwrap() else { panic!() };
    assert!(format_solution(&s, &steps).unwrap().ends_with("The equation is always true."));
    let Outcome::Linear(s, steps) = run("3x=1").unwrap() else { panic!() };
    assert!(format_solution(&s, &steps).unwrap().ends_with("x = 1/3 ≈ 0.333333333333"));
}

#[test]
fn parametric_solutions_solve_the_system() {
    match solve("x + y + z = 6; x - y = 0") {
        Solution::Infinite { dependent, free } => {
            assert_eq!(free, vec!["z".to_string()]);
            assert_eq!(dependent[0].0, "x");
            assert_eq!(dependent[1].0, "y");
            assert_eq!(dependent[0].1.to_text(), "3 - (1/2)z");
            // Any value of z gives a solution: z = 4 gives x = y = 1.
            let z = Value::integer(4);
            let at = |k: usize| {
                let e = &dependent[k].1;
                let mut v = e.constant.clone();
                for (_, c) in &e.terms {
                    v = v.add(&c.mul(&z));
                }
                v
            };
            assert_eq!(omniculator::format::format_value(&at(0)), "1");
            assert_eq!(omniculator::format::format_value(&at(1)), "1");
        }
        s => panic!("expected infinitely many, got {s:?}"),
    }
}
