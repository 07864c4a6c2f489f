// A worksheet session: cells evaluated in order, rebinding, the bindings
// panel, history recall and the draft.

use nat_calc::mode::Mode;
use nat_calc::session::CalcApp;

fn submit(app: &mut CalcApp, src: &str) {
    app.set_draft(src.to_string());
    app.submit();
}

fn outputs(app: &CalcApp) -> Vec<(String, Mode)> {
    app.cells().iter().map(|c| (c.output.clone(), c.mode)).collect()
}

#[test]
fn new_session_is_empty_and_focused() {
    let app = CalcApp::new();
    assert!(app.cells().is_empty());
    assert!(app.history().is_empty());
    assert!(app.bindings().is_empty());
    assert_eq!(app.draft(), "");
    assert!(app.focus_input());
}

#[test]
fn submitted_cells_evaluate_in_order() {
    let mut app = CalcApp::new();
    submit(&mut app, "a = 2");
    submit(&mut app, "a + 3");
    assert_eq!(
        outputs(&app),
        vec![("2".to_string(), Mode::Eager), ("5".to_string(), Mode::Eager)]
    );
    assert_eq!(app.draft(), "");
    assert_eq!(app.cells()[1].src, "a + 3");
}

#[test]
fn cells_see_the_bindings_made_before_them() {
    let mut app = CalcApp::new();
    submit(&mut app, "y = x + 1");
    submit(&mut app, "y");
    assert_eq!(app.cells()[1].mode, Mode::Lazy);
    assert_eq!(app.cells()[1].output, "(x + 1)");
    submit(&mut app, "x = 2");
    submit(&mut app, "y");
    assert_eq!(app.cells()[1].mode, Mode::Lazy);
    assert_eq!(app.cells()[3].mode, Mode::Eager);
    assert_eq!(app.cells()[3].output, "3");
    submit(&mut app, "x = 10");
    submit(&mut app, "y");
    assert_eq!(app.cells()[3].output, "3");
    assert_eq!(app.cells()[5].output, "11");
}

#[test]
fn bindings_panel_lists_names_with_modes() {
    let mut app = CalcApp::new();
    submit(&mut app, "x = 2");
    submit(&mut app, "y = x + z");
    let rows = app.bindings();
    assert_eq!(rows.len(), 2);
    assert_eq!(rows[0], ("x".to_string(), "2".to_string(), Mode::Eager));
    assert_eq!(rows[1], ("y".to_string(), "(z + 2)".to_string(), Mode::Lazy));
}

#[test]
fn errors_show_in_their_cell() {
    let mut app = CalcApp::new();
    submit(&mut app, "1 / 0");
    assert_eq!(app.cells()[0].mode, Mode::Error);
    assert_eq!(app.cells()[0].output, "division by zero");
    assert!(app.cells()[0].result.is_none());
}

#[test]
fn blank_submit_changes_nothing() {
    let mut app = CalcApp::new();
    submit(&mut app, "   ");
    assert!(app.cells().is_empty());
    assert!(app.history().is_empty());
    assert_eq!(app.draft(), "   ");
}

#[test]
fn submit_trims_the_draft() {
    let mut app = CalcApp::new();
    submit(&mut app, "  1 + 1  ");
    assert_eq!(app.history(), &vec!["1 + 1".to_string()]);
    assert_eq!(app.cells()[0].src, "1 + 1");
    assert_eq!(app.cells()[0].output, "2");
}

#[test]
fn history_up_and_down_walk_the_entries() {
    let mut app = CalcApp::new();
    submit(&mut app, "1");
    submit(&mut app, "2");
    submit(&mut app, "3");
    app.set_draft("partial".to_string());
    app.history_up();
    assert_eq!(app.draft(), "3");
    app.history_up();
    assert_eq!(app.draft(), "2");
    app.history_up();
    assert_eq!(app.draft(), "1");
    app.history_up();
    assert_eq!(app.draft(), "1");
    app.history_down();
    assert_eq!(app.draft(), "2");
    app.history_down();
    assert_eq!(app.draft(), "3");
    app.history_down();
    assert_eq!(app.draft(), "partial");
    app.history_down();
    assert_eq!(app.draft(), "partial");
}

#[test]
fn history_up_on_empty_history_keeps_the_draft() {
    let mut app = CalcApp::new();
    app.set_draft("abc".to_string());
    app.history_up();
    assert_eq!(app.draft(), "abc");
}

#[test]
fn submit_then_recall_gives_the_submitted_text() {
    let mut app = CalcApp::new();
    submit(&mut app, " 7 * 6 ");
    app.history_up();
    assert_eq!(app.draft(), "7 * 6");
    app.history_down();
    assert_eq!(app.draft(), "");
}

#[test]
fn insert_appends_and_requests_focus() {
    let mut app = CalcApp::new();
    app.clear_focus_request();
    assert!(!app.focus_input());
    app.set_draft("1 + ".to_string());
    app.insert("simplify()");
    assert_eq!(app.draft(), "1 + simplify()");
    assert!(app.focus_input());
}

#[test]
fn clear_removes_cells_and_bindings_only() {
    let mut app = CalcApp::new();
    submit(&mut app, "x = 1");
    app.clear();
    assert!(app.cells().is_empty());
    assert!(app.bindings().is_empty());
    assert_eq!(app.history().len(), 1);
}

#[test]
fn recompute_twice_changes_nothing() {
    let mut app = CalcApp::new();
    submit(&mut app, "x + y");
    submit(&mut app, "y = 4");
    let before = outputs(&app);
    app.recompute();
    assert_eq!(outputs(&app), before);
    app.recompute();
    assert_eq!(outputs(&app), before);
}

#[test]
fn numeric_cells_have_no_logic_output() {
    let mut app = CalcApp::new();
    submit(&mut app, "2 + 2");
    assert_eq!(app.logic_output(0), None);
    assert!(app.cells()[0].logic_inputs.is_empty());
}

#[test]
fn mode_labels() {
    assert_eq!(Mode::Eager.label(), "EAGER");
    assert_eq!(Mode::Lazy.label(), "LAZY");
    assert_eq!(Mode::Error.label(), "ERROR");
}
