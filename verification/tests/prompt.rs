// What the prompt does with a line, and what it shows for an evaluation.

use nat_calc::prompt::{LineAction, Response, line_action, response};
use nat_calc::{Environment, EvalError, eval};

#[test]
fn lines_are_trimmed_before_evaluation() {
    assert_eq!(line_action("  1 + 2  \n"), LineAction::Evaluate("1 + 2".to_string()));
    assert_eq!(line_action("x = 3"), LineAction::Evaluate("x = 3".to_string()));
}

#[test]
fn blank_lines_are_skipped() {
    assert_eq!(line_action(""), LineAction::Skip);
    assert_eq!(line_action(" \t \n"), LineAction::Skip);
}

#[test]
fn quit_and_exit_leave() {
    assert_eq!(line_action("quit"), LineAction::Quit);
    assert_eq!(line_action("  exit\n"), LineAction::Quit);
    assert_eq!(line_action("quitter"), LineAction::Evaluate("quitter".to_string()));
    assert_eq!(line_action("Quit"), LineAction::Evaluate("Quit".to_string()));
}

#[test]
fn results_and_errors_are_shown() {
    let mut env = Environment::new();
    assert_eq!(response(&eval("1 + 2", &mut env)), Response::Output("3".to_string()));
    assert_eq!(response(&eval("x + 1", &mut env)), Response::Output("(x + 1)".to_string()));
    assert_eq!(
        response(&Err(EvalError::DivisionByZero)),
        Response::Error("error: division by zero".to_string())
    );
    assert_eq!(response(&eval("1 / 0", &mut env)), Response::Error("error: division by zero".to_string()));
}
