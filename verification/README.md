# Omniculator

A command-line calculator for exact arithmetic and equations: fractions and
complex numbers with rational parts stay exact (big integers throughout),
systems of linear equations are solved by Gauss-Jordan elimination with the
steps shown, and a single polynomial equation of degree two in one unknown
is solved with the quadratic formula. An expression in unknowns that is
linear in them is shown with like terms collected (`2x + 3x` is `5x`).

The library in `src/` is verified with Verus:

- `token`, `parser`: the lexer and the Pratt parser, each proved against a
  grammar written as spec functions (precedence, implicit multiplication,
  error positions and messages). Letters next to each other multiply (`xy`
  is `x*y`, `2pix` is `2*pi*x`); digits and `_` keep a name whole (`x1`,
  `rate_1`), and so does a name that begins with a function's (`sinx`, for
  the suggestion) or that is called (`sqr(4)`).
- `number`, `rational`, `complex`, `power`, `value`: exact values and their
  arithmetic, proved against fraction arithmetic; big-integer work is done by
  `num-bigint` and `num-rational`.
- `eval`, `builtins`, `suggest`: exact evaluation of expressions, built-in
  functions, and typo suggestions by edit distance.
- `linearize`, `linalg`, `linear`: extraction of linear coefficients and the
  elimination itself, proved to report the solution set exactly: a unique
  solution, none, or a parametric family in the free unknowns; the steps are
  the row operations of pivoting in column order, each named exactly.
- `polysolve`: one polynomial equation of degree at most two in one unknown:
  coefficients from the values at 0, 1 and 2, roots by the quadratic formula,
  exact roots substituted back before they are reported, irrational ones
  given as `p ∓ sqrt(q)`.
- `format`: the text of values, expressions, result lines and reports.
- `laws`: properties across calls (edit distance, exact arithmetic).

Not in this crate: symbolic algebra (simplify, expand, factor) beyond
collecting the terms of linear expressions, calculus (derivatives,
gradients, Jacobians, Hessians, integrals), polynomial equations of higher
degree or in several unknowns, systems of polynomial equations (Gröbner
bases) and numeric root finding. Such inputs are refused with a message
that says so.

`app/main.rs` is the command-line front end. It also carries the
floating-point side of the calculator (irrational constants, transcendental
functions, inexact roots, numeric linear solving), which the library marks as
needing an approximation.
