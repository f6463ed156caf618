//! Names of built-in functions, commands and constants. Shared by the parser
//! (to decide call vs. implicit multiplication) and by typo suggestions.

use vstd::prelude::*;
use crate::text::str_eq;

verus! {

/// Functions the evaluator knows.
pub open spec fn function_names() -> Seq<Seq<char>> {
    seq![
        "sqrt"@, "cbrt"@, "root"@, "abs"@, "sin"@, "cos"@, "tan"@, "asin"@, "acos"@, "atan"@,
        "sinh"@, "cosh"@, "tanh"@, "ln"@, "log"@, "log2"@, "exp"@, "floor"@, "ceil"@, "round"@,
        "re"@, "im"@, "conj"@, "arg"@,
    ]
}

/// Symbolic commands; only valid as the whole input, e.g. `diff(x^2, x)`.
pub open spec fn command_names() -> Seq<Seq<char>> {
    seq![
        "simplify"@, "expand"@, "factor"@, "diff"@, "derivative"@, "integrate"@, "int"@,
        "grad"@, "gradient"@, "jacobian"@, "hessian"@,
    ]
}

/// Named constants.
pub open spec fn constant_names() -> Seq<Seq<char>> {
    seq!["pi"@, "e"@, "i"@, "tau"@, "phi"@]
}

/// The views of a list of names.
pub open spec fn names_view(v: Seq<&str>) -> Seq<Seq<char>> {
    v.map_values(|s: &str| s@)
}

pub fn functions() -> (r: Vec<&'static str>)
    ensures
        names_view(r@) == function_names(),
{
    let r = vec![
        "sqrt", "cbrt", "root", "abs", "sin", "cos", "tan", "asin", "acos", "atan", "sinh",
        "cosh", "tanh", "ln", "log", "log2", "exp", "floor", "ceil", "round", "re", "im",
        "conj", "arg",
    ];
    assert(names_view(r@) =~= function_names());
    r
}

pub fn commands() -> (r: Vec<&'static str>)
    ensures
        names_view(r@) == command_names(),
{
    let r = vec![
        "simplify", "expand", "factor", "diff", "derivative", "integrate", "int", "grad",
        "gradient", "jacobian", "hessian",
    ];
    assert(names_view(r@) =~= command_names());
    r
}

pub fn constants() -> (r: Vec<&'static str>)
    ensures
        names_view(r@) == constant_names(),
{
    let r = vec!["pi", "e", "i", "tau", "phi"];
    assert(names_view(r@) =~= constant_names());
    r
}

/// Whether `name` occurs in `list`.
pub fn contains_name(list: &Vec<&str>, name: &str) -> (r: bool)
    ensures
        r == names_view(list@).contains(name@),
{
    let mut i: usize = 0;
    while i < list.len()
        invariant
            i <= list.len(),
            forall|k: int| 0 <= k < i ==> list@[k]@ != name@,
        decreases list.len() - i,
    {
        if str_eq(list[i], name) {
            assert(names_view(list@)[i as int] == name@);
            return true;
        }
        i = i + 1;
    }
    proof {
        if names_view(list@).contains(name@) {
            let k = choose|k: int| 0 <= k < names_view(list@).len() && names_view(list@)[k] == name@;
            assert(list@[k]@ == name@);
        }
    }
    false
}

pub fn is_function(name: &str) -> (r: bool)
    ensures
        r == (function_names().contains(name@) || command_names().contains(name@)),
{
    contains_name(&functions(), name) || contains_name(&commands(), name)
}

pub fn is_command(name: &str) -> (r: bool)
    ensures
        r == command_names().contains(name@),
{
    contains_name(&commands(), name)
}

pub fn is_constant(name: &str) -> (r: bool)
    ensures
        r == constant_names().contains(name@),
{
    contains_name(&constants(), name)
}

/// Everything callable, for typo suggestions.
pub fn callables() -> (r: Vec<&'static str>)
    ensures
        names_view(r@) == function_names() + command_names(),
{
    let mut r = functions();
    let c = commands();
    let mut i: usize = 0;
    while i < c.len()
        invariant
            i <= c.len(),
            names_view(c@) == command_names(),
            names_view(r@) == function_names() + command_names().subrange(0, i as int),
        decreases c.len() - i,
    {
        let ghost before = r@;
        assert(names_view(c@)[i as int] == c@[i as int]@);
        r.push(c[i]);
        assert(names_view(r@) =~= names_view(before).push(c@[i as int]@));
        i = i + 1;
        assert(names_view(r@) =~= function_names() + command_names().subrange(0, i as int));
    }
    assert(command_names().subrange(0, c.len() as int) =~= command_names());
    r
}

/// Every built-in name is short.
pub proof fn lemma_names_short()
    ensures
        forall|k: int| 0 <= k < function_names().len() ==> (#[trigger] function_names()[k]).len() <= 10,
        forall|k: int| 0 <= k < command_names().len() ==> (#[trigger] command_names()[k]).len() <= 10,
        forall|k: int| 0 <= k < constant_names().len() ==> (#[trigger] constant_names()[k]).len() <= 10,
{
    reveal_strlit("sqrt");
    reveal_strlit("cbrt");
    reveal_strlit("root");
    reveal_strlit("abs");
    reveal_strlit("sin");
    reveal_strlit("cos");
    reveal_strlit("tan");
    reveal_strlit("asin");
    reveal_strlit("acos");
    reveal_strlit("atan");
    reveal_strlit("sinh");
    reveal_strlit("cosh");
    reveal_strlit("tanh");
    reveal_strlit("ln");
    reveal_strlit("log");
    reveal_strlit("log2");
    reveal_strlit("exp");
    reveal_strlit("floor");
    reveal_strlit("ceil");
    reveal_strlit("round");
    reveal_strlit("re");
    reveal_strlit("im");
    reveal_strlit("conj");
    reveal_strlit("arg");
    reveal_strlit("simplify");
    reveal_strlit("expand");
    reveal_strlit("factor");
    reveal_strlit("diff");
    reveal_strlit("derivative");
    reveal_strlit("integrate");
    reveal_strlit("int");
    reveal_strlit("grad");
    reveal_strlit("gradient");
    reveal_strlit("jacobian");
    reveal_strlit("hessian");
    reveal_strlit("pi");
    reveal_strlit("e");
    reveal_strlit("i");
    reveal_strlit("tau");
    reveal_strlit("phi");
}

} // verus!
