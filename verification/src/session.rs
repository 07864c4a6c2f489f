//! A notebook session: submitted cells re-evaluated in order against a
//! fresh environment, the live bindings, and input history navigation.

use vstd::prelude::*;
use crate::ast::{Expr, Term, render};
use crate::config::{trim, trimmed};
use crate::engine::{try_eval, try_eval_spec, outcome_text, opt_res_model};
use crate::env::{Environment, EnvModel, EvalResult, Outcome, binding_view, names_view};
use crate::error::{Fault, fault_message, error_message_spec};
use crate::logic::{env_lookup, bool_env_view, logic_vars, logic_var_set, name_listing, lookup_bool, eval_logic, logic_value};
use crate::mode::{Mode, mode_of, mode_spec};
use crate::parser::{parse_spec, is_blank, try_parse};
use crate::text::{chars_of, string_of_chars};

verus! {

/// One submitted entry and what it evaluated to.
#[derive(Debug)]
pub struct Cell {
    pub src: String,
    pub mode: Mode,
    pub output: String,
    pub result: Option<EvalResult>,
    /// The logic expression of the cell, when it is one.
    pub logic_expr: Option<Expr>,
    /// A value for each name of the logic expression.
    pub logic_inputs: Vec<(String, bool)>,
}

pub struct CellModel {
    pub src: Seq<char>,
    pub mode: Mode,
    pub output: Seq<char>,
    pub result: Option<Outcome>,
    pub logic_expr: Option<Term>,
    pub logic_inputs: Seq<(Seq<char>, bool)>,
}

impl View for Cell {
    type V = CellModel;

    open spec fn view(&self) -> CellModel {
        CellModel {
            src: self.src@,
            mode: self.mode,
            output: self.output@,
            result: match self.result {
                Some(r) => Some(r@),
                None => None,
            },
            logic_expr: match self.logic_expr {
                Some(e) => Some(e@),
                None => None,
            },
            logic_inputs: bool_env_view(self.logic_inputs@),
        }
    }
}

/// The logic expression a parsed cell shows inputs for.
pub open spec fn logic_target_spec(t: Term) -> Option<Term> {
    match t {
        Term::Bool(_) | Term::Not(_) | Term::Logic(_, _, _) => Some(t),
        _ => None,
    }
}

/// The names with their earlier values (false for a new name).
pub open spec fn sync_inputs(old: Seq<(Seq<char>, bool)>, names: Seq<Seq<char>>) -> Seq<(Seq<char>, bool)> {
    Seq::new(
        names.len(),
        |i: int|
            (
                names[i],
                match env_lookup(old, names[i]) {
                    Some(b) => b,
                    None => false,
                },
            ),
    )
}

/// The logic expression of a cell's source, when it parses to one.
pub open spec fn cell_logic(src: Seq<char>) -> Option<Term> {
    if is_blank(src) {
        None
    } else {
        match parse_spec(src) {
            Ok(t) => logic_target_spec(t),
            Err(_) => None,
        }
    }
}

/// A cell evaluated against the environment: its mode, text and result,
/// and its logic inputs kept where the names stay.
pub open spec fn cell_after(c: CellModel, e: EnvModel) -> (CellModel, EnvModel) {
    let (r, e2) = try_eval_spec(c.src, e);
    match r {
        Some(Ok(o)) => {
            let logic = cell_logic(c.src);
            (
                CellModel {
                    src: c.src,
                    mode: mode_spec(o),
                    output: outcome_text(o),
                    result: Some(o),
                    logic_expr: logic,
                    logic_inputs: match logic {
                        Some(t) => sync_inputs(c.logic_inputs, name_listing(logic_var_set(t))),
                        None => Seq::empty(),
                    },
                },
                e2,
            )
        },
        Some(Err(f)) => (
            CellModel {
                src: c.src,
                mode: Mode::Error,
                output: fault_message(f),
                result: None,
                logic_expr: None,
                logic_inputs: Seq::empty(),
            },
            e2,
        ),
        None => (c, e2),
    }
}

/// The cells evaluated in order, each against the environment the ones
/// before left.
pub open spec fn recompute_cells(cells: Seq<CellModel>, e: EnvModel) -> (Seq<CellModel>, EnvModel)
    decreases cells.len(),
{
    if cells.len() == 0 {
        (Seq::empty(), e)
    } else {
        let (prev, e1) = recompute_cells(cells.drop_last(), e);
        let (c, e2) = cell_after(cells.last(), e1);
        (prev.push(c), e2)
    }
}

/// The mode of a name evaluated on its own against the environment.
pub open spec fn probe_mode(name: Seq<char>, e: EnvModel) -> Mode {
    match try_eval_spec(name, e).0 {
        Some(Ok(o)) => mode_spec(o),
        _ => Mode::Error,
    }
}

/// Each binding's name, the text of its expression and its mode.
pub open spec fn binding_rows(e: EnvModel) -> Seq<(Seq<char>, Seq<char>, Mode)> {
    Seq::new(e.vars.len(), |i: int| (e.vars[i].0, render(e.vars[i].1), probe_mode(e.vars[i].0, e)))
}

pub open spec fn rows_view(v: Seq<(String, String, Mode)>) -> Seq<(Seq<char>, Seq<char>, Mode)> {
    v.map_values(|r: (String, String, Mode)| (r.0@, r.1@, r.2))
}

pub open spec fn cells_view(v: Seq<Cell>) -> Seq<CellModel> {
    v.map_values(|c: Cell| c@)
}

/// The state of a session.
pub struct CalcApp {
    cells: Vec<Cell>,
    draft: String,
    history: Vec<String>,
    history_cursor: Option<usize>,
    history_stash: String,
    bindings: Vec<(String, String, Mode)>,
    focus_input: bool,
}

pub struct SessionModel {
    pub cells: Seq<CellModel>,
    pub draft: Seq<char>,
    pub history: Seq<Seq<char>>,
    pub history_cursor: Option<nat>,
    pub history_stash: Seq<char>,
    pub bindings: Seq<(Seq<char>, Seq<char>, Mode)>,
    pub focus_input: bool,
}

impl View for CalcApp {
    type V = SessionModel;

    closed spec fn view(&self) -> SessionModel {
        SessionModel {
            cells: cells_view(self.cells@),
            draft: self.draft@,
            history: names_view(self.history@),
            history_cursor: match self.history_cursor {
                Some(i) => Some(i as nat),
                None => None,
            },
            history_stash: self.history_stash@,
            bindings: rows_view(self.bindings@),
            focus_input: self.focus_input,
        }
    }
}

/// A recalled history entry is always one of the entries.
pub open spec fn session_wf(m: SessionModel) -> bool {
    m.history_cursor matches Some(i) ==> i < m.history.len()
}

/// Moving up through the history: from the draft to the newest entry, then
/// to older ones, stopping at the oldest; the draft is kept aside.
pub open spec fn history_up_spec(m: SessionModel) -> SessionModel {
    if m.history.len() == 0 {
        m
    } else {
        let (index, stash) = match m.history_cursor {
            Some(i) => if i == 0 { (0nat, m.history_stash) } else { ((i - 1) as nat, m.history_stash) },
            None => ((m.history.len() - 1) as nat, m.draft),
        };
        SessionModel {
            history_cursor: Some(index),
            draft: m.history[index as int],
            history_stash: stash,
            focus_input: true,
            ..m
        }
    }
}

/// Moving down through the history: to newer entries, then back to the
/// draft that was kept aside.
pub open spec fn history_down_spec(m: SessionModel) -> SessionModel {
    match m.history_cursor {
        None => m,
        Some(i) => if i + 1 < m.history.len() {
            SessionModel {
                history_cursor: Some(i + 1),
                draft: m.history[i + 1int],
                focus_input: true,
                ..m
            }
        } else {
            SessionModel {
                history_cursor: None,
                draft: m.history_stash,
                history_stash: Seq::empty(),
                focus_input: true,
                ..m
            }
        },
    }
}

pub open spec fn new_cell(src: Seq<char>) -> CellModel {
    CellModel {
        src,
        mode: Mode::Eager,
        output: Seq::empty(),
        result: None,
        logic_expr: None,
        logic_inputs: Seq::empty(),
    }
}

/// Every cell evaluated again against a fresh environment, then the
/// bindings it leaves.
pub open spec fn recompute_spec(m: SessionModel) -> SessionModel {
    let (cells, e) = recompute_cells(m.cells, EnvModel { vars: Seq::empty(), cache: Seq::empty(), resolving: Seq::empty() });
    SessionModel { cells, bindings: binding_rows(e), ..m }
}

/// Submitting the trimmed draft: nothing when it is empty; otherwise it is
/// remembered, becomes a new cell, the draft is cleared and every cell is
/// evaluated again.
pub open spec fn submit_spec(m: SessionModel) -> SessionModel {
    let src = trim(m.draft);
    if src.len() == 0 {
        m
    } else {
        recompute_spec(
            SessionModel {
                history: m.history.push(src),
                history_cursor: None,
                history_stash: Seq::empty(),
                cells: m.cells.push(new_cell(src)),
                draft: Seq::empty(),
                focus_input: true,
                ..m
            },
        )
    }
}

/// The draft with text appended, and the input asking for the focus.
pub open spec fn insert_spec(m: SessionModel, text: Seq<char>) -> SessionModel {
    SessionModel { draft: m.draft + text, focus_input: true, ..m }
}

/// No cells and no bindings; the history and the draft stay.
pub open spec fn clear_spec(m: SessionModel) -> SessionModel {
    SessionModel { cells: Seq::empty(), bindings: Seq::empty(), ..m }
}

/// One logic input of one cell set to a value.
pub open spec fn set_logic_input_spec(m: SessionModel, cell: int, input: int, value: bool) -> SessionModel {
    let c = m.cells[cell];
    let inputs = c.logic_inputs.update(input, (c.logic_inputs[input].0, value));
    SessionModel { cells: m.cells.update(cell, CellModel { logic_inputs: inputs, ..c }), ..m }
}

/// The value of a cell's logic expression under its inputs, when it has
/// inputs and the value is defined.
pub open spec fn logic_output_spec(c: CellModel) -> Option<bool> {
    match c.logic_expr {
        Some(t) => if c.logic_inputs.len() == 0 {
            None
        } else {
            match logic_value(t, c.logic_inputs) {
                Ok(b) => Some(b),
                Err(_) => None,
            }
        },
        None => None,
    }
}


/// The history cursor stays on an entry through every operation.
pub proof fn lemma_operations_keep_wf(m: SessionModel, text: Seq<char>, cell: int, input: int, value: bool)
    requires
        session_wf(m),
    ensures
        session_wf(submit_spec(m)),
        session_wf(recompute_spec(m)),
        session_wf(history_up_spec(m)),
        session_wf(history_down_spec(m)),
        session_wf(insert_spec(m, text)),
        session_wf(clear_spec(m)),
        session_wf(set_logic_input_spec(m, cell, input, value)),
{
}

/// Inputs synced to names read back, for each name, its earlier value.
proof fn lemma_sync_lookup(old: Seq<(Seq<char>, bool)>, names: Seq<Seq<char>>, k: int)
    requires
        0 <= k < names.len(),
    ensures
        env_lookup(sync_inputs(old, names), names[k]) == Some(
            match env_lookup(old, names[k]) {
                Some(b) => b,
                None => false,
            },
        ),
    decreases names.len(),
{
    let s = sync_inputs(old, names);
    if s.last().0 != names[k] {
        assert(s.drop_last() =~= sync_inputs(old, names.drop_last()));
        lemma_sync_lookup(old, names.drop_last(), k);
    }
}

proof fn lemma_sync_idempotent(old: Seq<(Seq<char>, bool)>, names: Seq<Seq<char>>)
    ensures
        sync_inputs(sync_inputs(old, names), names) == sync_inputs(old, names),
{
    let s = sync_inputs(old, names);
    assert forall|k: int| 0 <= k < names.len() implies #[trigger] sync_inputs(s, names)[k] == s[k] by {
        lemma_sync_lookup(old, names, k);
    }
    assert(sync_inputs(s, names) =~= s);
}

proof fn lemma_cell_after_idempotent(c: CellModel, e: EnvModel)
    ensures
        cell_after(cell_after(c, e).0, e) == cell_after(c, e),
{
    let (r, e2) = try_eval_spec(c.src, e);
    match r {
        Some(Ok(o)) => {
            match cell_logic(c.src) {
                Some(t) => lemma_sync_idempotent(c.logic_inputs, name_listing(logic_var_set(t))),
                None => {},
            }
        },
        _ => {},
    }
}

proof fn lemma_recompute_cells_idempotent(cells: Seq<CellModel>, e: EnvModel)
    ensures
        recompute_cells(recompute_cells(cells, e).0, e) == recompute_cells(cells, e),
        recompute_cells(cells, e).0.len() == cells.len(),
    decreases cells.len(),
{
    if cells.len() > 0 {
        let (prev, e1) = recompute_cells(cells.drop_last(), e);
        let (c, e2) = cell_after(cells.last(), e1);
        lemma_recompute_cells_idempotent(cells.drop_last(), e);
        lemma_cell_after_idempotent(cells.last(), e1);
        let out = prev.push(c);
        assert(out.drop_last() =~= prev);
        assert(out.last() == c);
    }
}

/// Evaluating the cells a second time changes nothing.
pub proof fn lemma_recompute_idempotent(m: SessionModel)
    ensures
        recompute_spec(recompute_spec(m)) == recompute_spec(m),
{
    lemma_recompute_cells_idempotent(
        m.cells,
        EnvModel { vars: Seq::empty(), cache: Seq::empty(), resolving: Seq::empty() },
    );
}

/// Right after a submit, moving up recalls the submitted text, and moving
/// down again brings back an empty draft.
pub proof fn lemma_submit_then_recall(m: SessionModel)
    requires
        trim(m.draft).len() > 0,
    ensures
        history_up_spec(submit_spec(m)).draft == trim(m.draft),
        history_down_spec(history_up_spec(submit_spec(m))).draft == Seq::<char>::empty(),
        history_down_spec(history_up_spec(submit_spec(m))).history_cursor is None,
{
}

fn sync_inputs_exec(old: &Vec<(String, bool)>, names: &Vec<String>) -> (r: Vec<(String, bool)>)
    ensures
        bool_env_view(r@) == sync_inputs(bool_env_view(old@), names_view(names@)),
{
    let ghost target = sync_inputs(bool_env_view(old@), names_view(names@));
    let mut out: Vec<(String, bool)> = Vec::new();
    let mut i: usize = 0;
    while i < names.len()
        invariant
            target == sync_inputs(bool_env_view(old@), names_view(names@)),
            i <= names.len(),
            bool_env_view(out@) == target.take(i as int),
        decreases names.len() - i,
    {
        let value = match lookup_bool(old, names[i].as_str()) {
            Some(b) => b,
            None => false,
        };
        let ghost o0 = bool_env_view(out@);
        out.push((names[i].clone(), value));
        proof {
            assert(bool_env_view(out@) =~= o0.push((names@[i as int]@, value)));
            assert(target.take(i + 1) =~= target.take(i as int).push(target[i as int]));
        }
        i += 1;
    }
    proof {
        assert(target.take(names.len() as int) =~= target);
    }
    out
}

fn logic_target(e: Expr) -> (r: Option<Expr>)
    ensures
        match r {
            Some(x) => logic_target_spec(e@) == Some(x@),
            None => logic_target_spec(e@) is None,
        },
{
    match e {
        Expr::Bool(b) => Some(Expr::Bool(b)),
        Expr::Not(x) => Some(Expr::Not(x)),
        Expr::Logic(op, l, r) => Some(Expr::Logic(op, l, r)),
        _ => None,
    }
}

/// A cell evaluated again against the environment.
fn refresh_cell(c: &Cell, env: &mut Environment) -> (r: Cell)
    ensures
        (r@, final(env)@) == cell_after(c@, old(env)@),
{
    let logic = match try_parse(c.src.as_str()) {
        Some(Ok(e)) => logic_target(e),
        _ => None,
    };
    assert(logic is Some ==> cell_logic(c.src@) == Some(logic->0@));
    assert(logic is None ==> cell_logic(c.src@) is None);
    match try_eval(c.src.as_str(), env) {
        Some(Ok(res)) => {
            let mode = mode_of(&res);
            let output = res.to_text();
            let inputs = match &logic {
                Some(x) => {
                    let names = logic_vars(x);
                    sync_inputs_exec(&c.logic_inputs, &names)
                },
                None => {
                    let v: Vec<(String, bool)> = Vec::new();
                    proof {
                        assert(bool_env_view(v@) =~= Seq::<(Seq<char>, bool)>::empty());
                    }
                    v
                },
            };
            Cell { src: c.src.clone(), mode, output, result: Some(res), logic_expr: logic, logic_inputs: inputs }
        },
        Some(Err(e)) => {
            let v: Vec<(String, bool)> = Vec::new();
            proof {
                assert(bool_env_view(v@) =~= Seq::<(Seq<char>, bool)>::empty());
            }
            Cell { src: c.src.clone(), mode: Mode::Error, output: e.message(), result: None, logic_expr: None, logic_inputs: v }
        },
        None => copy_cell(c),
    }
}

fn copy_cell(c: &Cell) -> (r: Cell)
    ensures
        r@ == c@,
{
    let mut inputs: Vec<(String, bool)> = Vec::new();
    let mut i: usize = 0;
    while i < c.logic_inputs.len()
        invariant
            i <= c.logic_inputs.len(),
            bool_env_view(inputs@) == bool_env_view(c.logic_inputs@).take(i as int),
        decreases c.logic_inputs.len() - i,
    {
        let ghost o0 = bool_env_view(inputs@);
        let k = c.logic_inputs[i].0.clone();
        let b = c.logic_inputs[i].1;
        inputs.push((k, b));
        proof {
            assert(bool_env_view(inputs@) =~= o0.push(bool_env_view(c.logic_inputs@)[i as int]));
            assert(bool_env_view(c.logic_inputs@).take(i + 1) =~= bool_env_view(c.logic_inputs@).take(i as int).push(
                bool_env_view(c.logic_inputs@)[i as int],
            ));
        }
        i += 1;
    }
    proof {
        assert(bool_env_view(c.logic_inputs@).take(c.logic_inputs.len() as int) =~= bool_env_view(c.logic_inputs@));
    }
    Cell {
        src: c.src.clone(),
        mode: c.mode,
        output: c.output.clone(),
        result: match &c.result {
            Some(r) => Some(r.copy()),
            None => None,
        },
        logic_expr: match &c.logic_expr {
            Some(e) => Some(e.copy()),
            None => None,
        },
        logic_inputs: inputs,
    }
}

fn binding_rows_exec(env: &Environment) -> (r: Vec<(String, String, Mode)>)
    ensures
        rows_view(r@) == binding_rows(env@),
{
    let bs = env.bindings();
    let ghost target = binding_rows(env@);
    let mut out: Vec<(String, String, Mode)> = Vec::new();
    let mut i: usize = 0;
    while i < bs.len()
        invariant
            target == binding_rows(env@),
            binding_view(bs@) == env@.vars,
            i <= bs.len(),
            rows_view(out@) == target.take(i as int),
        decreases bs.len() - i,
    {
        let mut probe = env.copy();
        let mode = match try_eval(bs[i].0.as_str(), &mut probe) {
            Some(Ok(r)) => mode_of(&r),
            _ => Mode::Error,
        };
        let name = bs[i].0.clone();
        let text = bs[i].1.to_text();
        let ghost item = (name@, text@, mode);
        proof {
            assert(env@.vars[i as int] == (bs@[i as int].0@, bs@[i as int].1@));
            assert(item == target[i as int]);
        }
        let ghost o0 = rows_view(out@);
        out.push((name, text, mode));
        proof {
            assert(rows_view(out@) =~= o0.push(item));
            assert(target.take(i + 1) =~= target.take(i as int).push(item));
        }
        i += 1;
    }
    proof {
        assert(target.take(bs.len() as int) =~= target);
    }
    out
}

impl CalcApp {
    /// A recalled history entry is always one of the entries.
    #[verifier::type_invariant]
    closed spec fn inv(self) -> bool {
        session_wf(self@)
    }

    /// An empty session with the input focused.
    pub fn new() -> (r: CalcApp)
        ensures
            r@.cells == Seq::<CellModel>::empty(),
            r@.draft == Seq::<char>::empty(),
            r@.history == Seq::<Seq<char>>::empty(),
            r@.history_cursor is None,
            r@.history_stash == Seq::<char>::empty(),
            r@.bindings == Seq::<(Seq<char>, Seq<char>, Mode)>::empty(),
            r@.focus_input,
    {
        let r = CalcApp {
            cells: Vec::new(),
            draft: String::new(),
            history: Vec::new(),
            history_cursor: None,
            history_stash: String::new(),
            bindings: Vec::new(),
            focus_input: true,
        };
        proof {
            assert(cells_view(r.cells@) =~= Seq::<CellModel>::empty());
            assert(names_view(r.history@) =~= Seq::<Seq<char>>::empty());
            assert(rows_view(r.bindings@) =~= Seq::<(Seq<char>, Seq<char>, Mode)>::empty());
        }
        r
    }

    /// The cells, oldest first.
    pub fn cells(&self) -> (r: &Vec<Cell>)
        ensures
            cells_view(r@) == self@.cells,
    {
        &self.cells
    }

    /// The text being edited.
    pub fn draft(&self) -> (r: &str)
        ensures
            r@ == self@.draft,
    {
        self.draft.as_str()
    }

    /// Replaces the text being edited.
    pub fn set_draft(&mut self, text: String)
        ensures
            final(self)@ == (SessionModel { draft: text@, ..old(self)@ }),
    {
        proof {
            use_type_invariant(&*self);
        }
        self.draft = text;
    }

    /// The submitted entries, oldest first.
    pub fn history(&self) -> (r: &Vec<String>)
        ensures
            names_view(r@) == self@.history,
    {
        &self.history
    }

    /// Each binding's name, expression text and mode.
    pub fn bindings(&self) -> (r: &Vec<(String, String, Mode)>)
        ensures
            rows_view(r@) == self@.bindings,
    {
        &self.bindings
    }

    /// Whether the input asks for the focus.
    pub fn focus_input(&self) -> (r: bool)
        ensures
            r == self@.focus_input,
    {
        self.focus_input
    }

    /// Records that the input has taken the focus.
    pub fn clear_focus_request(&mut self)
        ensures
            final(self)@ == (SessionModel { focus_input: false, ..old(self)@ }),
    {
        proof {
            use_type_invariant(&*self);
        }
        self.focus_input = false;
    }

    /// Evaluates every cell again, in order, against a fresh environment:
    /// rebinding a name recomputes every cell that depends on it.
    pub fn recompute(&mut self)
        ensures
            final(self)@ == recompute_spec(old(self)@),
    {
        proof {
            use_type_invariant(&*self);
        }
        let mut env = Environment::new();
        let ghost e0 = env@;
        let ghost cv = cells_view(self.cells@);
        let mut out: Vec<Cell> = Vec::new();
        let mut i: usize = 0;
        proof {
            assert(cv.take(0) =~= Seq::<CellModel>::empty());
            assert(cells_view(out@) =~= Seq::<CellModel>::empty());
            assert(e0 == EnvModel { vars: Seq::empty(), cache: Seq::empty(), resolving: Seq::empty() });
        }
        while i < self.cells.len()
            invariant
                cv == cells_view(self.cells@),
                i <= self.cells.len(),
                recompute_cells(cv.take(i as int), e0) == (cells_view(out@), env@),
            decreases self.cells.len() - i,
        {
            proof {
                assert(cv.take(i + 1).drop_last() =~= cv.take(i as int));
                assert(cv.take(i + 1).last() == self.cells@[i as int]@);
            }
            let c = refresh_cell(&self.cells[i], &mut env);
            let ghost o0 = cells_view(out@);
            let ghost cm = c@;
            out.push(c);
            proof {
                assert(cells_view(out@) =~= o0.push(cm));
            }
            i += 1;
        }
        proof {
            assert(cv.take(self.cells.len() as int) =~= cv);
        }
        let rows = binding_rows_exec(&env);
        self.cells = out;
        self.bindings = rows;
    }

    /// Submits the trimmed draft as a new cell (nothing for an empty one).
    pub fn submit(&mut self)
        ensures
            final(self)@ == submit_spec(old(self)@),
    {
        proof {
            use_type_invariant(&*self);
        }
        let cs = chars_of(self.draft.as_str());
        let t = trimmed(&cs, 0, cs.len());
        proof {
            assert(cs@.subrange(0, cs.len() as int) =~= self.draft@);
        }
        if t.len() == 0 {
            return;
        }
        let src = string_of_chars(&t, 0, t.len());
        proof {
            assert(t@.subrange(0, t.len() as int) =~= t@);
        }
        let ghost m0 = self@;
        let ghost mid = SessionModel {
            history: m0.history.push(src@),
            history_cursor: None,
            history_stash: Seq::empty(),
            cells: m0.cells.push(new_cell(src@)),
            draft: Seq::empty(),
            focus_input: true,
            ..m0
        };
        self.history_cursor = None;
        let mut history: Vec<String> = Vec::new();
        std::mem::swap(&mut history, &mut self.history);
        history.push(src.clone());
        self.history = history;
        self.history_stash = String::new();
        let v: Vec<(String, bool)> = Vec::new();
        let cell = Cell {
            src,
            mode: Mode::Eager,
            output: String::new(),
            result: None,
            logic_expr: None,
            logic_inputs: v,
        };
        proof {
            assert(bool_env_view(cell.logic_inputs@) =~= Seq::<(Seq<char>, bool)>::empty());
            assert(cell@ == new_cell(mid.cells.last().src));
        }
        let mut cells: Vec<Cell> = Vec::new();
        std::mem::swap(&mut cells, &mut self.cells);
        cells.push(cell);
        self.cells = cells;
        self.draft = String::new();
        self.focus_input = true;
        proof {
            assert(cells_view(self.cells@) =~= mid.cells);
            assert(names_view(self.history@) =~= mid.history);
            assert(self@ == mid);
        }
        self.recompute();
    }

    /// Recalls the previous history entry into the draft.
    pub fn history_up(&mut self)
        ensures
            final(self)@ == history_up_spec(old(self)@),
    {
        proof {
            use_type_invariant(&*self);
        }
        if self.history.len() == 0 {
            return;
        }
        let index = match self.history_cursor {
            Some(i) => if i == 0 { 0 } else { i - 1 },
            None => {
                self.history_stash = self.draft.clone();
                self.history.len() - 1
            },
        };
        self.history_cursor = Some(index);
        self.draft = self.history[index].clone();
        self.focus_input = true;
    }

    /// Recalls the next history entry, or the kept-aside draft after the
    /// newest one.
    pub fn history_down(&mut self)
        ensures
            final(self)@ == history_down_spec(old(self)@),
    {
        proof {
            use_type_invariant(&*self);
        }
        let i = match self.history_cursor {
            Some(i) => i,
            None => return,
        };
        assert(i < self.history.len());
        if i + 1 < self.history.len() {
            self.history_cursor = Some(i + 1);
            self.draft = self.history[i + 1].clone();
        } else {
            self.history_cursor = None;
            self.draft = self.history_stash.clone();
            self.history_stash = String::new();
        }
        self.focus_input = true;
    }

    /// Appends text to the draft (a snippet, or a bound name) and asks for
    /// the focus.
    pub fn insert(&mut self, text: &str)
        ensures
            final(self)@ == insert_spec(old(self)@, text@),
    {
        proof {
            use_type_invariant(&*self);
        }
        let mut cs = chars_of(self.draft.as_str());
        let more = chars_of(text);
        let ghost c0 = cs@;
        let mut i: usize = 0;
        while i < more.len()
            invariant
                i <= more.len(),
                cs@ == c0 + more@.take(i as int),
            decreases more.len() - i,
        {
            proof {
                assert(more@.take(i + 1) =~= more@.take(i as int).push(more@[i as int]));
            }
            cs.push(more[i]);
            i += 1;
        }
        proof {
            assert(more@.take(more.len() as int) =~= more@);
            assert(cs@.subrange(0, cs.len() as int) =~= cs@);
        }
        self.draft = string_of_chars(&cs, 0, cs.len());
        self.focus_input = true;
    }

    /// Removes every cell and binding.
    pub fn clear(&mut self)
        ensures
            final(self)@ == clear_spec(old(self)@),
    {
        proof {
            use_type_invariant(&*self);
        }
        self.cells = Vec::new();
        self.bindings = Vec::new();
        proof {
            assert(cells_view(self.cells@) =~= Seq::<CellModel>::empty());
            assert(rows_view(self.bindings@) =~= Seq::<(Seq<char>, Seq<char>, Mode)>::empty());
        }
    }

    /// Sets one logic input of one cell.
    pub fn set_logic_input(&mut self, cell: usize, input: usize, value: bool)
        requires
            cell < old(self)@.cells.len(),
            input < old(self)@.cells[cell as int].logic_inputs.len(),
        ensures
            final(self)@ == set_logic_input_spec(old(self)@, cell as int, input as int, value),
    {
        proof {
            use_type_invariant(&*self);
        }
        let ghost m0 = self@;
        let mut c = copy_cell(&self.cells[cell]);
        let name = c.logic_inputs[input].0.clone();
        c.logic_inputs.set(input, (name, value));
        proof {
            assert(bool_env_view(c.logic_inputs@) =~= m0.cells[cell as int].logic_inputs.update(
                input as int,
                (m0.cells[cell as int].logic_inputs[input as int].0, value),
            ));
        }
        let ghost cm = c@;
        let mut cells: Vec<Cell> = Vec::new();
        std::mem::swap(&mut cells, &mut self.cells);
        cells.set(cell, c);
        self.cells = cells;
        proof {
            assert(cells_view(self.cells@) =~= m0.cells.update(cell as int, cm));
        }
    }

    /// The value of a cell's logic expression under its inputs.
    pub fn logic_output(&self, cell: usize) -> (r: Option<bool>)
        requires
            cell < self@.cells.len(),
        ensures
            r == logic_output_spec(self@.cells[cell as int]),
    {
        let c = &self.cells[cell];
        match &c.logic_expr {
            Some(e) => {
                if c.logic_inputs.len() == 0 {
                    None
                } else {
                    match eval_logic(e, &c.logic_inputs) {
                        Ok(b) => Some(b),
                        Err(_) => None,
                    }
                }
            },
            None => None,
        }
    }
}

} // verus!
