// Behaviour of the library's parts on concrete values: numbers, lexing and
// parsing errors, the rewrite engines, logic, matrices and the environment.

use nat_calc::ast::{BinaryOp, Expr, Func, LogicOp};

use nat_calc::engine::{MAX_REDUCE_DEPTH, reduce};
use nat_calc::expand::expand;
use nat_calc::lambda::reduce_lambda;
use nat_calc::lexer::{Token, lex};
use nat_calc::logic::{
    adder_preset, bool_digit, circuit_diagram, equivalence, eval_logic, kmap, logic_vars, simplify_logic,
    truth_table,
};
use nat_calc::numeric::{Decimal, as_integer_exponent, bounded_div, from_int, pow_int};
use nat_calc::simplify::simplify;
use nat_calc::{Environment, EvalError, EvalResult, eval, parse, try_eval, try_parse};

fn v(name: &str) -> Expr {
    Expr::var(name.to_string())
}

fn n(k: i64) -> Expr {
    Expr::num(from_int(k))
}

fn text(src: &str) -> String {
    let mut env = Environment::new();
    match eval(src, &mut env) {
        Ok(r) => r.to_text(),
        Err(e) => format!("error: {}", e.message()),
    }
}

// --- Numbers ----------------------------------------------------------------

#[test]
fn integers_convert_to_normalized_decimals() {
    assert_eq!(from_int(0).to_text(), "0");
    assert_eq!(from_int(-42).to_text(), "-42");
    assert_eq!(from_int(1200).to_text(), "1200");
    assert_eq!(from_int(1200).scale(), -2);
    assert_eq!(from_int(i64::MIN).to_text(), "-9223372036854775808");
    assert_eq!(from_int(7), Decimal::parse("7.000").unwrap());
}

#[test]
fn decimal_arithmetic_is_exact() {
    let a = Decimal::parse("0.1").unwrap();
    let b = Decimal::parse("0.2").unwrap();
    assert_eq!(a.add(&b).unwrap().to_text(), "0.3");
    assert_eq!(a.sub(&b).unwrap().to_text(), "-0.1");
    assert_eq!(a.mul(&b).unwrap().to_text(), "0.02");
    assert!(from_int(3).neg().equals(&from_int(-3)));
    assert!(Decimal::zero().neg().is_zero());
}

#[test]
fn bounded_division_rounds_to_precision() {
    let third = bounded_div(&from_int(1), &from_int(3)).unwrap();
    assert_eq!(third.to_text(), "0.3333333333333333333333333333333333");
    assert_eq!(bounded_div(&from_int(10), &from_int(4)).unwrap().to_text(), "2.5");
}

#[test]
fn integer_exponents_and_powers() {
    assert_eq!(as_integer_exponent(&from_int(12)), Some(12));
    assert_eq!(as_integer_exponent(&Decimal::parse("2.5").unwrap()), None);
    assert_eq!(as_integer_exponent(&Decimal::parse("1e3").unwrap()), Some(1000));
    assert_eq!(pow_int(&from_int(2), 10).unwrap().to_text(), "1024");
    assert_eq!(pow_int(&from_int(2), -2).unwrap().to_text(), "0.25");
    assert_eq!(pow_int(&from_int(0), -1).unwrap().to_text(), "0");
    assert_eq!(pow_int(&from_int(5), 0).unwrap().to_text(), "1");
}

// --- Lexing and parsing -------------------------------------------------------

#[test]
fn lexer_tokens_and_errors() {
    let toks = lex("x1 = 2.5e3 * (y)").unwrap();
    assert_eq!(toks.len(), 8);
    assert!(matches!(&toks[0], Token::Ident(s) if s == "x1"));
    assert!(matches!(toks[7], Token::Eof));
    assert_eq!(lex("2 $ 3"), Err(EvalError::Lex("unexpected character '$'".to_string())));
}

#[test]
fn parse_errors_are_reported() {
    assert!(matches!(parse("(1 + 2"), Err(EvalError::Parse(_))));
    assert!(matches!(parse("[1, 2; 3]"), Err(EvalError::Parse(_))));
    assert!(matches!(parse("1 2"), Err(EvalError::Parse(_))));
    assert!(try_parse("   ").is_none());
    assert!(matches!(try_parse("1 + 1"), Some(Ok(_))));
}

#[test]
fn blank_source_is_not_evaluated() {
    let mut env = Environment::new();
    assert!(try_eval("", &mut env).is_none());
    assert!(try_eval("  \t ", &mut env).is_none());
    assert_eq!(try_eval("1 + 1", &mut env).unwrap().unwrap().to_text(), "2");
}

// --- Rendering -------------------------------------------------------------------

#[test]
fn expressions_render_fully_parenthesized() {
    let e = Expr::binary(BinaryOp::Add, v("x"), Expr::negate(Expr::call(Func::Sin, n(2))));
    assert_eq!(e.to_text(), "(x + -(sin(2)))");
    let l = Expr::logic(LogicOp::Nand, Expr::Bool(true), Expr::not(v("p")));
    assert_eq!(l.to_text(), "(true nand not(p))");
    assert_eq!(BinaryOp::Pow.symbol(), '^');
    assert_eq!(Func::Ln.name(), "ln");
    assert_eq!(LogicOp::Xor.name(), "xor");
    assert_eq!(text("[1.50, 2; 3, 4]"), "[1.5, 2; 3, 4]");
}

// --- Simplification, expansion, differentiation -----------------------------------

#[test]
fn simplification_rules() {
    let s = |e: Expr| simplify(e).unwrap().to_text();
    assert_eq!(s(Expr::binary(BinaryOp::Div, v("x"), v("x"))), "1");
    assert_eq!(s(Expr::binary(BinaryOp::Pow, v("x"), n(1))), "x");
    assert_eq!(s(Expr::binary(BinaryOp::Pow, v("x"), n(0))), "1");
    assert_eq!(s(Expr::binary(BinaryOp::Mul, v("x"), v("x"))), "(x ^ 2)");
    assert_eq!(s(Expr::call(Func::Cos, n(0))), "1");
    assert_eq!(s(Expr::call(Func::Ln, n(1))), "0");
    assert_eq!(s(Expr::negate(Expr::negate(v("x")))), "x");
    assert_eq!(
        s(Expr::binary(BinaryOp::Pow, Expr::binary(BinaryOp::Pow, v("x"), n(2)), n(3))),
        "(x ^ 6)"
    );
    assert_eq!(
        simplify(Expr::binary(BinaryOp::Div, n(1), n(0))),
        Err(EvalError::DivisionByZero)
    );
}

#[test]
fn simplified_result_is_a_fixpoint() {
    let e = Expr::binary(
        BinaryOp::Add,
        Expr::binary(BinaryOp::Mul, n(2), v("x")),
        Expr::binary(BinaryOp::Sub, v("x"), n(4)),
    );
    let once = simplify(e).unwrap();
    assert_eq!(once.to_text(), "((3 * x) + -4)");
    let twice = simplify(once.copy()).unwrap();
    assert!(twice.equals(&once));
}

#[test]
fn expansion_distributes_and_unrolls() {
    let e = Expr::binary(
        BinaryOp::Mul,
        Expr::binary(BinaryOp::Add, v("a"), v("b")),
        Expr::binary(BinaryOp::Sub, v("c"), v("d")),
    );
    assert_eq!(expand(&e).unwrap().to_text(), "(((a * c) + (a * -(d))) + ((b * c) + (b * -(d))))");
    let p = Expr::binary(BinaryOp::Pow, v("x"), n(0));
    assert_eq!(expand(&p).unwrap().to_text(), "1");
    assert_eq!(text("expand((x + 1) * (x - 1))"), "((x ^ 2) + -1)");
}

#[test]
fn derivative_rules_and_errors() {
    let q = Expr::binary(BinaryOp::Div, n(1), v("x"));
    assert_eq!(nat_calc::derive::derive("x", &q).unwrap().to_text(), "(((0 * x) - (1 * 1)) / (x ^ 2))");
    assert_eq!(text("derive(x, tan(x))"), "((tan(x) ^ 2) + 1)");
    assert_eq!(text("derive(x, 2 ^ x)"), "((2 ^ x) * ln(2))");
    assert_eq!(text("derive(y, x * x)"), "0");
    assert_eq!(
        nat_calc::derive::derive("x", &Expr::Matrix(vec![vec![n(1)]])),
        Err(EvalError::TypeMismatch("cannot differentiate a matrix".to_string()))
    );
    assert_eq!(
        text("derive(x, derive(x, x))"),
        "error: type mismatch: higher-order derivatives are not supported"
    );
}

// --- Engine outcomes ---------------------------------------------------------------

#[test]
fn error_variants_and_messages() {
    assert_eq!(text("1 / 0"), "error: division by zero");
    assert_eq!(text("@"), "error: lex error: unexpected character '@'");
    assert_eq!(text("[1, 2] * [1, 2]"), "error: type mismatch: matrix dimension mismatch for *");
    assert_eq!(text("[1] ^ [1]"), "error: type mismatch: unsupported matrix-matrix operation");
    assert_eq!(text("2 - [1]"), "error: type mismatch: only scalar * / matrix is supported");
    assert_eq!(text("sin([1])"), "error: type mismatch: function applied to a matrix");
    assert_eq!(text("[1] + x"), "error: type mismatch: a matrix cannot appear inside a symbolic expression");
    assert_eq!(text("[x]"), "error: type mismatch: matrix elements must be numeric");
    assert_eq!(
        text("expand((x + y) ^ 14)"),
        "error: expression too large (exceeded MAX_NODES)"
    );
    assert_eq!(text("(\\x. x(x))(\\x. x(x))"), "error: rewrite limit exceeded (MAX_REWRITE_DEPTH)");
}

#[test]
fn numeric_edge_cases() {
    assert_eq!(text("2 ^ -1"), "0.5");
    assert_eq!(text("0 ^ -1"), "0");
    assert_eq!(text("4 ^ 0.5"), "(4 ^ 0.5)");
    assert_eq!(text("1 / 3"), "0.3333333333333333333333333333333333");
    assert_eq!(text("[2, 4] / 2"), "[1, 2]");
    assert_eq!(text("-[1, -2]"), "[-1, 2]");
    assert_eq!(text("[]"), "[]");
}

#[test]
fn assignment_binds_and_clears_the_cache() {
    let mut env = Environment::new();
    assert_eq!(eval("a = 1", &mut env).unwrap().to_text(), "1");
    assert_eq!(eval("b = a + 1", &mut env).unwrap().to_text(), "2");
    assert_eq!(env.get("b").unwrap().to_text(), "2");
    assert_eq!(eval("c = q", &mut env).unwrap().to_text(), "q");
    assert_eq!(eval("c", &mut env).unwrap().to_text(), "q");
    eval("q = 7", &mut env).unwrap();
    assert_eq!(eval("c", &mut env).unwrap().to_text(), "7");
    let names: Vec<String> = env.bindings().into_iter().map(|(k, _)| k).collect();
    assert_eq!(names, vec!["a", "b", "c", "q"]);
    assert!(env.get("missing").is_none());
}

#[test]
fn reduce_entry_point_and_depth_bound() {
    let mut env = Environment::new();
    let e = Expr::binary(BinaryOp::Mul, n(6), n(7));
    assert_eq!(reduce(&e, &mut env), Ok(EvalResult::Numeric(from_int(42))));
    assert_eq!(MAX_REDUCE_DEPTH, usize::MAX);
}

#[test]
fn long_binding_chains_reduce() {
    let mut env = Environment::new();
    // Bound before the names they use, so each read resolves the whole chain.
    for k in (1..1100).rev() {
        eval(&format!("a{} = a{} + 1", k, k - 1), &mut env).unwrap();
    }
    eval("a0 = 1", &mut env).unwrap();
    assert_eq!(eval("a1099", &mut env).unwrap().to_text(), "1100");
}

#[test]
fn lambda_parameters_are_not_expanded_from_bindings() {
    let mut env = Environment::new();
    eval("x = 5", &mut env).unwrap();
    let id = Expr::Lambda("x".to_string(), Box::new(v("x")));
    assert_eq!(reduce_lambda(id, &env).unwrap().to_text(), "(\\x. x)");
    let k = Expr::Lambda("y".to_string(), Box::new(v("x")));
    assert_eq!(reduce_lambda(k, &env).unwrap().to_text(), "(\\y. 5)");
    assert_eq!(eval("\\x. x", &mut env).unwrap().to_text(), "(\\x. x)");
}

#[test]
fn tiny_and_huge_scales_are_numbers() {
    assert_eq!(Decimal::parse("1e-2000000000000").unwrap().scale(), 2_000_000_000_000);
    assert_eq!(Decimal::parse("1e2000000000000").unwrap().scale(), -2_000_000_000_000);
}

#[test]
fn logic_values_are_booleans() {
    let mut env = Environment::new();
    let e = Expr::logic(LogicOp::Xor, Expr::Bool(true), Expr::not(Expr::Bool(true)));
    assert_eq!(reduce(&e, &mut env), Ok(EvalResult::Bool(true)));
    assert_eq!(EvalResult::Bool(false).to_text(), "false");
}

// --- Logic ------------------------------------------------------------------------

#[test]
fn logic_evaluation_against_bindings() {
    let e = Expr::logic(LogicOp::Nor, v("a"), v("b"));
    let env = vec![("a".to_string(), false), ("b".to_string(), false), ("a".to_string(), true)];
    assert_eq!(eval_logic(&e, &env), Ok(false));
    assert_eq!(
        eval_logic(&v("z"), &env),
        Err(EvalError::TypeMismatch("unbound logic variable 'z'".to_string()))
    );
    assert_eq!(
        eval_logic(&n(1), &env),
        Err(EvalError::TypeMismatch("expected logic expression, found 1".to_string()))
    );
}

#[test]
fn logic_variables_are_sorted_and_unique() {
    let e = Expr::logic(LogicOp::And, v("b"), Expr::logic(LogicOp::Or, v("a"), v("b")));
    assert_eq!(logic_vars(&e), vec!["a", "b"]);
}

#[test]
fn truth_table_rows() {
    let e = Expr::logic(LogicOp::And, v("p"), v("q"));
    let t = truth_table(&e).unwrap();
    assert_eq!(t.vars, vec!["p", "q"]);
    assert_eq!(
        t.rows,
        vec![
            (vec![false, false], false),
            (vec![false, true], false),
            (vec![true, false], false),
            (vec![true, true], true),
        ]
    );
    let many = (0..9).fold(Expr::Bool(true), |acc, i| Expr::logic(LogicOp::And, acc, v(&format!("v{i}"))));
    assert_eq!(truth_table(&many), Err(EvalError::ExpressionTooLarge));
}

#[test]
fn equivalence_finds_counterexamples() {
    let l = Expr::not(Expr::logic(LogicOp::And, v("a"), v("b")));
    let r = Expr::logic(LogicOp::Or, Expr::not(v("a")), Expr::not(v("b")));
    let same = equivalence(&l, &r).unwrap();
    assert!(same.equivalent);
    assert_eq!(same.counterexample, None);
    let diff = equivalence(&v("a"), &v("b")).unwrap();
    assert!(!diff.equivalent);
    assert_eq!(diff.vars, vec!["a", "b"]);
    assert_eq!(diff.counterexample, Some(vec![false, true]));
    assert!(matches!(equivalence(&n(1), &v("a")), Err(EvalError::TypeMismatch(_))));
}

#[test]
fn karnaugh_map_layout() {
    let e = Expr::logic(LogicOp::Xor, v("a"), v("b"));
    let m = kmap(&[], &e).unwrap();
    assert_eq!(m.row_vars, vec!["a"]);
    assert_eq!(m.col_vars, vec!["b"]);
    assert_eq!(
        m.rows,
        vec![
            ("0".to_string(), vec![("0".to_string(), false), ("1".to_string(), true)]),
            ("1".to_string(), vec![("0".to_string(), true), ("1".to_string(), false)]),
        ]
    );
    let four = vec!["a".to_string(), "b".to_string(), "c".to_string(), "d".to_string()];
    let m4 = kmap(&four, &v("c")).unwrap();
    assert_eq!(m4.rows.len(), 4);
    assert_eq!(m4.rows[2].0, "11");
    assert_eq!(m4.rows[0].1[3], ("10".to_string(), true));
    assert_eq!(
        kmap(&[], &Expr::Bool(true)),
        Err(EvalError::TypeMismatch("kmap expects one to four variables".to_string()))
    );
}

#[test]
fn circuit_diagram_lines() {
    let e = Expr::logic(LogicOp::Or, Expr::not(v("a")), v("b"));
    let d = circuit_diagram(&e).unwrap();
    assert_eq!(d.lines, vec!["OUT", "`- OR", "   |- NOT", "   |  `- a", "   `- b"]);
}

#[test]
fn logic_simplification_preserves_values() {
    let e = Expr::logic(
        LogicOp::And,
        Expr::logic(LogicOp::Or, v("p"), Expr::Bool(false)),
        Expr::not(Expr::not(v("p"))),
    );
    assert_eq!(simplify_logic(&e).unwrap().to_text(), "p");
    let nand = Expr::logic(LogicOp::Nand, v("p"), v("q"));
    let s = simplify_logic(&nand).unwrap();
    assert_eq!(s.to_text(), "(not(p) or not(q))");
    for (p, q) in [(false, false), (false, true), (true, false), (true, true)] {
        let env = vec![("p".to_string(), p), ("q".to_string(), q)];
        assert_eq!(eval_logic(&s, &env), eval_logic(&nand, &env));
    }
    let x = Expr::logic(LogicOp::Xor, v("p"), v("p"));
    assert_eq!(simplify_logic(&x).unwrap().to_text(), "false");
}

#[test]
fn adder_outputs_are_simplified() {
    let outs = vec![
        ("sum".to_string(), Expr::logic(LogicOp::Xor, v("a"), Expr::Bool(false))),
        ("carry".to_string(), Expr::logic(LogicOp::And, v("a"), Expr::Bool(false))),
    ];
    let r = adder_preset("half_adder", outs).unwrap();
    assert_eq!(r.name, "half_adder");
    assert_eq!(r.outputs[0].1.to_text(), "a");
    assert_eq!(r.outputs[1].1.to_text(), "false");
    assert_eq!(bool_digit(true), 1);
    assert_eq!(bool_digit(false), 0);
}

#[test]
fn expansion_keeps_the_value() {
    let expanded = text("expand((x + 2) * (x - 3) + x ^ 2)");
    let mut env = Environment::new();
    eval("x = 4", &mut env).unwrap();
    let original = eval("(x + 2) * (x - 3) + x ^ 2", &mut env).unwrap().to_text();
    assert_eq!(original, "22");
    assert_eq!(eval(&expanded, &mut env).unwrap().to_text(), original);
}

#[test]
fn unicode_spaces_separate_tokens() {
    assert_eq!(text("1\u{3000}+\u{2003}2\t*\u{a0}3"), "7");
    assert_eq!(text("\u{85}x\u{2029}"), "x");
}

#[test]
fn simplify_can_drop_a_name() {
    assert_eq!(text("simplify(x - x)"), "0");
    assert_eq!(text("simplify(x * 0 + y)"), "y");
}

#[test]
fn bounded_division_by_zero_is_zero() {
    assert_eq!(bounded_div(&from_int(5), &from_int(0)).unwrap().to_text(), "0");
    assert_eq!(bounded_div(&from_int(0), &from_int(0)).unwrap().to_text(), "0");
}

#[test]
fn scales_across_the_i64_range_parse() {
    assert_eq!(Decimal::parse("1e-1000000000000000001").unwrap().scale(), 1_000_000_000_000_000_001);
    assert_eq!(Decimal::parse("1e-9000000000000000000").unwrap().scale(), 9_000_000_000_000_000_000);
    let mut env = Environment::new();
    assert!(eval("1e-1000000000000000001", &mut env).is_ok());
    assert!(eval("1e-9000000000000000000 * 2", &mut env).is_ok());
    assert_eq!(
        eval("1e-9000000000000000000 * 1e-9000000000000000000", &mut env),
        Err(EvalError::ExpressionTooLarge)
    );
}

#[test]
fn simplify_folds_with_rounding_and_merges_exponents() {
    // A constant quotient is folded to bigdecimal's rounded quotient.
    assert!(text("simplify(1 / 3)").starts_with("0.3333333333"));
    // Nested numeric exponents multiply, even where the real power differs
    // (at x = -1 the left side is 1).
    assert_eq!(text("simplify((x ^ 2) ^ 0.5)"), "x");
}
