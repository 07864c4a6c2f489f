// Settings text, result texts, graph names and result modes.

use nat_calc::ast::{BinaryOp, Expr, Func, LogicOp};
use nat_calc::config::{Config, expand_tilde, parse_bool};
use nat_calc::graph::graph_vars;
use nat_calc::logic::{adder_preset, circuit_diagram, equivalence, kmap, truth_table};
use nat_calc::mode::{Mode, mode_of};
use nat_calc::numeric::from_int;
use nat_calc::{Environment, eval};

fn v(name: &str) -> Expr {
    Expr::var(name.to_string())
}

#[test]
fn booleans_in_settings() {
    assert!(parse_bool("TRUE", false));
    assert!(parse_bool("On", false));
    assert!(parse_bool("1", false));
    assert!(!parse_bool("no", true));
    assert!(!parse_bool("OFF", true));
    assert!(parse_bool("maybe", true));
    assert!(!parse_bool("maybe", false));
}

#[test]
fn tilde_expands_to_home() {
    assert_eq!(expand_tilde("~/h.txt", Some("/home/u")), "/home/u/h.txt");
    assert_eq!(expand_tilde("~/h.txt", None), "~/h.txt");
    assert_eq!(expand_tilde("/tmp/h", Some("/home/u")), "/tmp/h");
    assert_eq!(expand_tilde("~h", Some("/home/u")), "~h");
}

#[test]
fn settings_text_is_applied_line_by_line() {
    let d = Config::defaults(Some("/home/u"));
    assert!(d.history);
    assert_eq!(d.history_file, "/home/u/.nat_calc_history");
    assert_eq!(Config::defaults(None).history_file, "./.nat_calc_history");
    let text = "# settings\n  history = OFF \r\nunknown = 3\nno equals sign\n\nhistory_file = ~/hist\n";
    let c = Config::defaults(Some("/home/u")).apply_text(text, Some("/home/u"));
    assert!(!c.history);
    assert_eq!(c.history_file, "/home/u/hist");
    let c2 = Config::defaults(Some("/h")).apply_text("history=yes\nhistory = bogus", Some("/h"));
    assert!(c2.history);
}

#[test]
fn lines_without_a_known_key_change_nothing() {
    let d = Config::defaults(Some("/home/u"));
    let text = "colour = red\n# history = off\nhistory off\n\n  histories = no\n";
    let c = Config::defaults(Some("/home/u")).apply_text(text, Some("/home/u"));
    assert_eq!(c.history, d.history);
    assert_eq!(c.history_file, d.history_file);
}

#[test]
fn graph_names_are_sorted() {
    let e = Expr::binary(
        BinaryOp::Add,
        Expr::call(Func::Sin, v("t")),
        Expr::binary(BinaryOp::Mul, v("a"), Expr::negate(v("t"))),
    );
    assert_eq!(graph_vars(&e), vec!["a", "t"]);
    assert!(graph_vars(&Expr::num(from_int(3))).is_empty());
}

#[test]
fn result_modes() {
    let mut env = Environment::new();
    let m = |src: &str, env: &mut Environment| mode_of(&eval(src, env).unwrap());
    assert_eq!(m("1 + 1", &mut env), Mode::Eager);
    assert_eq!(m("x + 1", &mut env), Mode::Lazy);
    assert_eq!(m("[1, 2]", &mut env), Mode::Matrix);
    assert_eq!(m("\\x. x", &mut env), Mode::Lambda);
    assert_eq!(Mode::Logic.label(), "LOGIC");
    assert_eq!(Mode::Error.label(), "ERROR");
}

#[test]
fn logic_result_texts() {
    let e = Expr::logic(LogicOp::And, v("p"), v("q"));
    assert_eq!(
        truth_table(&e).unwrap().to_text(),
        "p q | out\n0 0 | 0\n0 1 | 0\n1 0 | 0\n1 1 | 1\n"
    );
    assert_eq!(
        circuit_diagram(&e).unwrap().to_text(),
        "OUT\n`- AND\n   |- p\n   `- q\n"
    );
    assert_eq!(equivalence(&e, &e).unwrap().to_text(), "true");
    assert_eq!(
        equivalence(&v("p"), &Expr::not(v("q"))).unwrap().to_text(),
        "false counterexample: p=0 q=0"
    );
    let k = kmap(&[], &Expr::logic(LogicOp::Or, v("a"), v("b"))).unwrap();
    assert_eq!(k.to_text(), "KMAP a b\na\\b 0 1\n0 0 1\n1 1 1\n");
    let add = adder_preset(
        "half_adder",
        vec![
            ("sum".to_string(), Expr::logic(LogicOp::Xor, v("a"), v("b"))),
            ("carry".to_string(), Expr::logic(LogicOp::And, v("a"), v("b"))),
        ],
    )
    .unwrap();
    assert_eq!(add.to_text(), "half_adder\nsum = (a xor b)\ncarry = (a and b)\n");
}
