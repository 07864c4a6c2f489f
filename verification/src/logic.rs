//! Boolean logic: evaluation against boolean rows, truth tables,
//! equivalence checks, Karnaugh maps, circuit diagrams and simplification.

use vstd::prelude::*;
use crate::ast::{Expr, LogicOp, Term, render};
use crate::env::{
    name_lt, name_less, names_view, lemma_name_lt_trichotomy, lemma_name_lt_transitive, lemma_name_lt_irreflexive,
    lemma_name_lt_asymmetric,
};
use crate::error::{EvalError, EvalResultT, Fault, same_outcome};
use crate::text::str_equal;

verus! {

/// The value of a connective on two booleans.
pub open spec fn apply_logic(op: LogicOp, a: bool, b: bool) -> bool {
    match op {
        LogicOp::And => a && b,
        LogicOp::Or => a || b,
        LogicOp::Xor => a != b,
        LogicOp::Nand => !(a && b),
        LogicOp::Nor => !(a || b),
    }
}

/// The value the environment gives a name: the last entry for it wins, as
/// repeated insertion into a map would leave it.
pub open spec fn env_lookup(env: Seq<(Seq<char>, bool)>, name: Seq<char>) -> Option<bool>
    decreases env.len(),
{
    if env.len() == 0 {
        None
    } else if env.last().0 == name {
        Some(env.last().1)
    } else {
        env_lookup(env.drop_last(), name)
    }
}

pub open spec fn bool_env_view(v: Seq<(String, bool)>) -> Seq<(Seq<char>, bool)> {
    v.map_values(|p: (String, bool)| (p.0@, p.1))
}

pub open spec fn not_logic_message(t: Term) -> Seq<char> {
    "expected logic expression, found "@ + render(t)
}

pub open spec fn unbound_message(name: Seq<char>) -> Seq<char> {
    "unbound logic variable '"@ + name + "'"@
}

/// The value of a logic term under an environment; other terms and
/// unbound names are errors, the left operand's first.
pub open spec fn logic_value(t: Term, env: Seq<(Seq<char>, bool)>) -> Result<bool, Fault>
    decreases t,
{
    match t {
        Term::Bool(b) => Ok(b),
        Term::Variable(name) => match env_lookup(env, name) {
            Some(v) => Ok(v),
            None => Err(Fault::TypeMismatch(unbound_message(name))),
        },
        Term::Not(e) => match logic_value(*e, env) {
            Ok(v) => Ok(!v),
            Err(f) => Err(f),
        },
        Term::Logic(op, l, r) => match logic_value(*l, env) {
            Ok(a) => match logic_value(*r, env) {
                Ok(b) => Ok(apply_logic(op, a, b)),
                Err(f) => Err(f),
            },
            Err(f) => Err(f),
        },
        _ => Err(Fault::TypeMismatch(not_logic_message(t))),
    }
}

/// The first node, left to right, that is not a logic node.
pub open spec fn validate_spec(t: Term) -> Result<(), Fault>
    decreases t,
{
    match t {
        Term::Bool(_) | Term::Variable(_) => Ok(()),
        Term::Not(e) => validate_spec(*e),
        Term::Logic(_, l, r) => match validate_spec(*l) {
            Ok(_) => validate_spec(*r),
            Err(f) => Err(f),
        },
        _ => Err(Fault::TypeMismatch(not_logic_message(t))),
    }
}

/// A term built from booleans, names, negations and connectives only.
pub open spec fn is_logic(t: Term) -> bool {
    validate_spec(t) is Ok
}

/// The names that occur in a logic term.
pub open spec fn logic_var_set(t: Term) -> Set<Seq<char>>
    decreases t,
{
    match t {
        Term::Variable(name) => set![name],
        Term::Not(e) => logic_var_set(*e),
        Term::Logic(_, l, r) => logic_var_set(*l) + logic_var_set(*r),
        _ => Set::empty(),
    }
}

/// Strictly increasing in code-point order (so also free of repeats).
pub open spec fn names_sorted(s: Seq<Seq<char>>) -> bool {
    forall|i: int, j: int| 0 <= i < j < s.len() ==> name_lt(#[trigger] s[i], #[trigger] s[j])
}

/// `s` lists the names of `set` in increasing order.
pub open spec fn is_name_listing(s: Seq<Seq<char>>, set: Set<Seq<char>>) -> bool {
    names_sorted(s) && forall|x: Seq<char>| #[trigger] s.contains(x) <==> set.contains(x)
}

/// The names of a set in increasing order.
pub open spec fn name_listing(set: Set<Seq<char>>) -> Seq<Seq<char>> {
    choose|s: Seq<Seq<char>>| is_name_listing(s, set)
}

/// Two increasing listings of the same names are the same.
pub proof fn lemma_listings_equal(s1: Seq<Seq<char>>, s2: Seq<Seq<char>>)
    requires
        names_sorted(s1),
        names_sorted(s2),
        forall|x: Seq<char>| #![trigger s1.contains(x)] #![trigger s2.contains(x)] s1.contains(x) <==> s2.contains(x),
    ensures
        s1 == s2,
    decreases s1.len(),
{
    if s1.len() == 0 {
        if s2.len() > 0 {
            assert(s2.contains(s2[0]));
        }
        assert(s1 =~= s2);
    } else {
        assert(s1.contains(s1[0]));
        let k = choose|k: int| 0 <= k < s2.len() && s2[k] == s1[0];
        assert(s2.contains(s2[0]));
        let m = choose|m: int| 0 <= m < s1.len() && s1[m] == s2[0];
        if k > 0 {
            if m > 0 {
                lemma_name_lt_asymmetric(s1[0], s1[m]);
            } else {
                lemma_name_lt_irreflexive(s1[0]);
            }
        }
        assert(s1[0] == s2[0]);
        let t1 = s1.skip(1);
        let t2 = s2.skip(1);
        assert forall|x: Seq<char>| #![trigger t1.contains(x)] #![trigger t2.contains(x)] t1.contains(x) <==> t2.contains(x) by {
            if t1.contains(x) {
                let a = choose|a: int| 0 <= a < t1.len() && t1[a] == x;
                assert(s1[a + 1] == x);
                assert(s1.contains(x));
                let b = choose|b: int| 0 <= b < s2.len() && s2[b] == x;
                if b == 0 {
                    lemma_name_lt_irreflexive(x);
                }
                assert(t2[b - 1] == x);
            }
            if t2.contains(x) {
                let a = choose|a: int| 0 <= a < t2.len() && t2[a] == x;
                assert(s2[a + 1] == x);
                assert(s2.contains(x));
                let b = choose|b: int| 0 <= b < s1.len() && s1[b] == x;
                if b == 0 {
                    lemma_name_lt_irreflexive(x);
                }
                assert(t1[b - 1] == x);
            }
        }
        assert forall|i: int, j: int| 0 <= i < j < t1.len() implies name_lt(#[trigger] t1[i], #[trigger] t1[j]) by {
            assert(t1[i] == s1[i + 1] && t1[j] == s1[j + 1]);
        }
        assert forall|i: int, j: int| 0 <= i < j < t2.len() implies name_lt(#[trigger] t2[i], #[trigger] t2[j]) by {
            assert(t2[i] == s2[i + 1] && t2[j] == s2[j + 1]);
        }
        lemma_listings_equal(t1, t2);
        assert(s1 =~= seq![s1[0]] + t1);
        assert(s2 =~= seq![s2[0]] + t2);
    }
}

/// A listing of a set is the listing.
pub proof fn lemma_listing_is_unique(s: Seq<Seq<char>>, set: Set<Seq<char>>)
    requires
        is_name_listing(s, set),
    ensures
        name_listing(set) == s,
{
    let c = name_listing(set);
    assert(is_name_listing(c, set));
    assert forall|x: Seq<char>| #![trigger s.contains(x)] #![trigger c.contains(x)] s.contains(x) <==> c.contains(x) by {
        assert(s.contains(x) <==> set.contains(x));
        assert(c.contains(x) <==> set.contains(x));
    }
    lemma_listings_equal(s, c);
}

pub(crate) fn lookup_bool(env: &Vec<(String, bool)>, name: &str) -> (r: Option<bool>)
    ensures
        r == env_lookup(bool_env_view(env@), name@),
{
    let ghost ev = bool_env_view(env@);
    let mut i: usize = env.len();
    proof {
        assert(ev.take(i as int) =~= ev);
    }
    while i > 0
        invariant
            ev == bool_env_view(env@),
            i <= env.len(),
            env_lookup(ev, name@) == env_lookup(ev.take(i as int), name@),
        decreases i,
    {
        proof {
            assert(ev.take(i as int).drop_last() =~= ev.take(i - 1));
            assert(ev.take(i as int).last() == ev[i - 1]);
        }
        if str_equal(env[i - 1].0.as_str(), name) {
            return Some(env[i - 1].1);
        }
        i -= 1;
    }
    None
}

fn not_logic_error(e: &Expr) -> (r: EvalError)
    ensures
        r@ == Fault::TypeMismatch(not_logic_message(e@)),
{
    let mut m = String::from_str("expected logic expression, found ");
    e.write_to(&mut m);
    EvalError::TypeMismatch(m)
}

/// Evaluates a logic expression against boolean bindings.
pub fn eval_logic(expr: &Expr, env: &Vec<(String, bool)>) -> (r: EvalResultT<bool>)
    ensures
        same_outcome(r, logic_value(expr@, bool_env_view(env@))),
    decreases expr,
{
    match expr {
        Expr::Bool(b) => Ok(*b),
        Expr::Variable(name) => match lookup_bool(env, name.as_str()) {
            Some(v) => Ok(v),
            None => {
                let mut m = String::from_str("unbound logic variable '");
                m.append(name.as_str());
                m.append("'");
                Err(EvalError::TypeMismatch(m))
            },
        },
        Expr::Not(e) => match eval_logic(e, env) {
            Ok(v) => Ok(!v),
            Err(f) => Err(f),
        },
        Expr::Logic(op, l, r) => {
            let a = match eval_logic(l, env) {
                Ok(v) => v,
                Err(f) => return Err(f),
            };
            let b = match eval_logic(r, env) {
                Ok(v) => v,
                Err(f) => return Err(f),
            };
            Ok(
                match op {
                    LogicOp::And => a && b,
                    LogicOp::Or => a || b,
                    LogicOp::Xor => a != b,
                    LogicOp::Nand => !(a && b),
                    LogicOp::Nor => !(a || b),
                },
            )
        },
        _ => Err(not_logic_error(expr)),
    }
}

/// Checks that only logic nodes occur, reporting the first other one.
fn validate_logic_expr(expr: &Expr) -> (r: EvalResultT<()>)
    ensures
        match validate_spec(expr@) {
            Ok(_) => r is Ok,
            Err(f) => r matches Err(e) && e@ == f,
        },
    decreases expr,
{
    match expr {
        Expr::Bool(_) | Expr::Variable(_) => Ok(()),
        Expr::Not(e) => validate_logic_expr(e),
        Expr::Logic(_, l, r) => match validate_logic_expr(l) {
            Ok(_) => validate_logic_expr(r),
            Err(f) => Err(f),
        },
        _ => Err(not_logic_error(expr)),
    }
}

/// Adds a name to a strictly sorted list of names unless it is there.
pub(crate) fn insert_name(v: &mut Vec<String>, name: &String)
    requires
        names_sorted(names_view(old(v)@)),
    ensures
        names_sorted(names_view(final(v)@)),
        forall|s: Seq<char>| #[trigger] names_view(final(v)@).contains(s) <==> (names_view(old(v)@).contains(s) || s == name@),
{
    let ghost nv = names_view(v@);
    let mut i: usize = 0;
    while i < v.len() && name_less(v[i].as_str(), name.as_str())
        invariant
            nv == names_view(v@),
            i <= v.len(),
            forall|k: int| 0 <= k < i ==> name_lt(#[trigger] nv[k], name@),
        decreases v.len() - i,
    {
        i += 1;
    }
    if i < v.len() && str_equal(v[i].as_str(), name.as_str()) {
        proof {
            assert(nv[i as int] == name@);
        }
        return;
    }
    proof {
        if i < v.len() {
            lemma_name_lt_trichotomy(nv[i as int], name@);
        }
    }
    v.insert(i, name.clone());
    proof {
        let w = names_view(v@);
        assert(w =~= nv.insert(i as int, name@));
        assert forall|a: int, b: int| 0 <= a < b < w.len() implies name_lt(#[trigger] w[a], #[trigger] w[b]) by {
            if b < i {
            } else if b == i {
            } else if a < i {
                assert(w[b] == nv[b - 1]);
                lemma_name_lt_transitive(nv[a], name@, nv[i as int]);
                if b - 1 > i {
                    lemma_name_lt_transitive(nv[a], nv[i as int], nv[b - 1]);
                }
            } else if a == i {
                assert(w[b] == nv[b - 1]);
                if b - 1 > i {
                    lemma_name_lt_transitive(name@, nv[i as int], nv[b - 1]);
                }
            } else {
                assert(w[a] == nv[a - 1] && w[b] == nv[b - 1]);
            }
        }
        assert forall|s: Seq<char>| #[trigger] w.contains(s) <==> (nv.contains(s) || s == name@) by {
            if w.contains(s) {
                let k = choose|k: int| 0 <= k < w.len() && w[k] == s;
                if k < i {
                    assert(nv[k] == s);
                } else if k > i {
                    assert(nv[k - 1] == s);
                }
            }
            if nv.contains(s) {
                let k = choose|k: int| 0 <= k < nv.len() && nv[k] == s;
                if k < i {
                    assert(w[k] == s);
                } else {
                    assert(w[k + 1] == s);
                }
            }
            if s == name@ {
                assert(w[i as int] == s);
            }
        }
    }
}

fn collect_logic_vars(expr: &Expr, vars: &mut Vec<String>)
    requires
        names_sorted(names_view(old(vars)@)),
    ensures
        names_sorted(names_view(final(vars)@)),
        forall|s: Seq<char>| #[trigger] names_view(final(vars)@).contains(s) <==> (names_view(old(vars)@).contains(s)
            || logic_var_set(expr@).contains(s)),
    decreases expr,
{
    match expr {
        Expr::Variable(name) => {
            insert_name(vars, name);
        },
        Expr::Not(e) => {
            collect_logic_vars(e, vars);
        },
        Expr::Logic(_, l, r) => {
            collect_logic_vars(l, vars);
            collect_logic_vars(r, vars);
        },
        _ => {},
    }
}

/// The names of a logic expression, sorted and without repeats.
pub fn logic_vars(expr: &Expr) -> (r: Vec<String>)
    ensures
        names_view(r@) == name_listing(logic_var_set(expr@)),
        names_sorted(names_view(r@)),
        forall|s: Seq<char>| #[trigger] names_view(r@).contains(s) <==> logic_var_set(expr@).contains(s),
{
    let mut vars: Vec<String> = Vec::new();
    proof {
        assert(names_view(vars@) =~= Seq::<Seq<char>>::empty());
    }
    collect_logic_vars(expr, &mut vars);
    proof {
        lemma_listing_is_unique(names_view(vars@), logic_var_set(expr@));
    }
    vars
}

/// The names of two logic expressions together, sorted and without repeats.
fn merged_vars(left: &Expr, right: &Expr) -> (r: Vec<String>)
    ensures
        names_view(r@) == name_listing(logic_var_set(left@) + logic_var_set(right@)),
        names_sorted(names_view(r@)),
        forall|s: Seq<char>| #[trigger] names_view(r@).contains(s) <==> (logic_var_set(left@).contains(s)
            || logic_var_set(right@).contains(s)),
{
    let mut vars: Vec<String> = Vec::new();
    proof {
        assert(names_view(vars@) =~= Seq::<Seq<char>>::empty());
    }
    collect_logic_vars(left, &mut vars);
    collect_logic_vars(right, &mut vars);
    proof {
        lemma_listing_is_unique(names_view(vars@), logic_var_set(left@) + logic_var_set(right@));
    }
    vars
}

/// A truth table: the variables and, per assignment, the values and the
/// output.
#[derive(Debug, Clone, PartialEq, Eq)]
pub struct TruthTable {
    pub vars: Vec<String>,
    pub rows: Vec<(Vec<bool>, bool)>,
}

pub struct TableModel {
    pub vars: Seq<Seq<char>>,
    pub rows: Seq<(Seq<bool>, bool)>,
}

impl View for TruthTable {
    type V = TableModel;

    open spec fn view(&self) -> TableModel {
        TableModel {
            vars: names_view(self.vars@),
            rows: self.rows@.map_values(|r: (Vec<bool>, bool)| (r.0@, r.1)),
        }
    }
}

/// The outcome of an equivalence check, with a distinguishing assignment
/// when the expressions differ.
#[derive(Debug, Clone, PartialEq, Eq)]
pub struct EquivResult {
    pub equivalent: bool,
    pub vars: Vec<String>,
    pub counterexample: Option<Vec<bool>>,
}

pub struct EquivModel {
    pub equivalent: bool,
    pub vars: Seq<Seq<char>>,
    pub counterexample: Option<Seq<bool>>,
}

impl View for EquivResult {
    type V = EquivModel;

    open spec fn view(&self) -> EquivModel {
        EquivModel {
            equivalent: self.equivalent,
            vars: names_view(self.vars@),
            counterexample: match self.counterexample {
                Some(v) => Some(v@),
                None => None,
            },
        }
    }
}

/// Bit `shift` of `mask`.
pub open spec fn mask_bit(mask: usize, shift: usize) -> bool {
    (mask >> shift) & 1usize == 1usize
}

/// The values of row `mask` of an `n`-variable table: the first variable
/// takes the highest bit.
pub open spec fn row_values(mask: usize, n: nat) -> Seq<bool> {
    Seq::new(n, |i: int| mask_bit(mask, (n - i - 1) as usize))
}

/// Each variable bound to the value at its position.
pub open spec fn assignment(vars: Seq<Seq<char>>, values: Seq<bool>) -> Seq<(Seq<char>, bool)> {
    Seq::new(vars.len(), |i: int| (vars[i], values[i]))
}

/// The number of rows of an `n`-variable table, `2^n`.
pub open spec fn row_count(n: nat) -> nat {
    (1usize << (n as usize)) as nat
}

/// The first `count` rows of the table of `t` over `vars`.
pub open spec fn truth_rows(t: Term, vars: Seq<Seq<char>>, count: nat) -> Result<Seq<(Seq<bool>, bool)>, Fault>
    decreases count,
{
    if count == 0 {
        Ok(Seq::empty())
    } else {
        match truth_rows(t, vars, (count - 1) as nat) {
            Ok(rows) => {
                let values = row_values((count - 1) as usize, vars.len());
                match logic_value(t, assignment(vars, values)) {
                    Ok(out) => Ok(rows.push((values, out))),
                    Err(f) => Err(f),
                }
            },
            Err(f) => Err(f),
        }
    }
}

/// The truth table over the sorted names of `t`, at most eight of them.
pub open spec fn truth_table_spec(t: Term) -> Result<TableModel, Fault> {
    let vars = name_listing(logic_var_set(t));
    if vars.len() > 8 {
        Err(Fault::ExpressionTooLarge)
    } else {
        match truth_rows(t, vars, row_count(vars.len())) {
            Ok(rows) => Ok(TableModel { vars, rows }),
            Err(f) => Err(f),
        }
    }
}

/// The first row from `mask` on where the two terms differ.
pub open spec fn equiv_search(l: Term, r: Term, vars: Seq<Seq<char>>, mask: nat, count: nat) -> Result<Option<Seq<bool>>, Fault>
    decreases count - mask,
{
    if mask >= count {
        Ok(None)
    } else {
        let values = row_values(mask as usize, vars.len());
        let env = assignment(vars, values);
        match logic_value(l, env) {
            Err(f) => Err(f),
            Ok(a) => match logic_value(r, env) {
                Err(f) => Err(f),
                Ok(b) => if a != b {
                    Ok(Some(values))
                } else {
                    equiv_search(l, r, vars, mask + 1, count)
                },
            },
        }
    }
}

/// Equivalence of two logic terms over their joint sorted names.
pub open spec fn equivalence_spec(l: Term, r: Term) -> Result<EquivModel, Fault> {
    match validate_spec(l) {
        Err(f) => Err(f),
        Ok(_) => match validate_spec(r) {
            Err(f) => Err(f),
            Ok(_) => {
                let vars = name_listing(logic_var_set(l) + logic_var_set(r));
                if vars.len() > 8 {
                    Err(Fault::ExpressionTooLarge)
                } else {
                    match equiv_search(l, r, vars, 0, row_count(vars.len())) {
                        Ok(None) => Ok(EquivModel { equivalent: true, vars, counterexample: None }),
                        Ok(Some(v)) => Ok(EquivModel { equivalent: false, vars, counterexample: Some(v) }),
                        Err(f) => Err(f),
                    }
                }
            },
        },
    }
}

/// The bindings and values of row `mask`.
fn assignment_row(vars: &Vec<String>, mask: usize) -> (r: (Vec<(String, bool)>, Vec<bool>))
    requires
        vars.len() <= 8,
    ensures
        r.1@ == row_values(mask, vars.len() as nat),
        bool_env_view(r.0@) == assignment(names_view(vars@), row_values(mask, vars.len() as nat)),
{
    let n = vars.len();
    let ghost rv = row_values(mask, n as nat);
    let ghost vv = names_view(vars@);
    let mut env: Vec<(String, bool)> = Vec::new();
    let mut values: Vec<bool> = Vec::new();
    let mut i: usize = 0;
    while i < n
        invariant
            n == vars.len(),
            n <= 8,
            rv == row_values(mask, n as nat),
            vv == names_view(vars@),
            i <= n,
            values@ == rv.take(i as int),
            bool_env_view(env@) == assignment(vv, rv).take(i as int),
        decreases n - i,
    {
        let value = ((mask >> (n - i - 1)) & 1) == 1;
        let ghost e0 = bool_env_view(env@);
        env.push((vars[i].clone(), value));
        values.push(value);
        proof {
            assert(values@ =~= rv.take(i + 1));
            assert(bool_env_view(env@) =~= e0.push((vv[i as int], value)));
            assert(assignment(vv, rv).take(i + 1) =~= assignment(vv, rv).take(i as int).push((vv[i as int], value)));
        }
        i += 1;
    }
    proof {
        assert(values@ =~= rv);
        assert(assignment(vv, rv).take(n as int) =~= assignment(vv, rv));
    }
    (env, values)
}

proof fn lemma_truth_rows_err(t: Term, vars: Seq<Seq<char>>, k: nat, count: nat)
    requires
        k <= count,
        truth_rows(t, vars, k) is Err,
    ensures
        truth_rows(t, vars, count) == truth_rows(t, vars, k),
    decreases count - k,
{
    if k < count {
        lemma_truth_rows_err(t, vars, k + 1, count);
    }
}

/// The truth table of a logic expression over its sorted names (at most
/// eight).
pub fn truth_table(expr: &Expr) -> (r: EvalResultT<TruthTable>)
    ensures
        same_outcome(r, truth_table_spec(expr@)),
{
    let vars = logic_vars(expr);
    if vars.len() > 8 {
        return Err(EvalError::ExpressionTooLarge);
    }
    let n = vars.len();
    let count: usize = 1usize << n;
    let ghost vv = names_view(vars@);
    let mut rows: Vec<(Vec<bool>, bool)> = Vec::new();
    let mut mask: usize = 0;
    proof {
        assert(rows@.map_values(|r: (Vec<bool>, bool)| (r.0@, r.1)) =~= Seq::<(Seq<bool>, bool)>::empty());
    }
    while mask < count
        invariant
            n == vars.len(),
            n <= 8,
            vv == names_view(vars@),
            vv == name_listing(logic_var_set(expr@)),
            count as nat == row_count(n as nat),
            mask <= count,
            truth_rows(expr@, vv, mask as nat) == Ok::<Seq<(Seq<bool>, bool)>, Fault>(
                rows@.map_values(|r: (Vec<bool>, bool)| (r.0@, r.1)),
            ),
        decreases count - mask,
    {
        let (env, values) = assignment_row(&vars, mask);
        let out = match eval_logic(expr, &env) {
            Ok(v) => v,
            Err(f) => {
                proof {
                    lemma_truth_rows_err(expr@, vv, (mask + 1) as nat, count as nat);
                }
                return Err(f);
            },
        };
        let ghost prev = rows@;
        let ghost vals = values@;
        rows.push((values, out));
        proof {
            assert(rows@.map_values(|r: (Vec<bool>, bool)| (r.0@, r.1)) =~= prev.map_values(
                |r: (Vec<bool>, bool)| (r.0@, r.1),
            ).push((vals, out)));
        }
        mask += 1;
    }
    Ok(TruthTable { vars, rows })
}

/// Whether two logic expressions agree on every row of their joint truth
/// table; the first disagreeing row is the counterexample.
pub fn equivalence(left: &Expr, right: &Expr) -> (r: EvalResultT<EquivResult>)
    ensures
        same_outcome(r, equivalence_spec(left@, right@)),
{
    match validate_logic_expr(left) {
        Err(f) => return Err(f),
        Ok(_) => {},
    }
    match validate_logic_expr(right) {
        Err(f) => return Err(f),
        Ok(_) => {},
    }
    let vars = merged_vars(left, right);
    if vars.len() > 8 {
        return Err(EvalError::ExpressionTooLarge);
    }
    let n = vars.len();
    let count: usize = 1usize << n;
    let ghost vv = names_view(vars@);
    let mut mask: usize = 0;
    while mask < count
        invariant
            n == vars.len(),
            n <= 8,
            vv == names_view(vars@),
            count as nat == row_count(n as nat),
            mask <= count,
            equiv_search(left@, right@, vv, 0, count as nat) == equiv_search(left@, right@, vv, mask as nat, count as nat),
            validate_spec(left@) is Ok,
            validate_spec(right@) is Ok,
            vv == name_listing(logic_var_set(left@) + logic_var_set(right@)),
        decreases count - mask,
    {
        let (env, values) = assignment_row(&vars, mask);
        let a = match eval_logic(left, &env) {
            Ok(v) => v,
            Err(f) => return Err(f),
        };
        let b = match eval_logic(right, &env) {
            Ok(v) => v,
            Err(f) => return Err(f),
        };
        if a != b {
            return Ok(EquivResult { equivalent: false, vars, counterexample: Some(values) });
        }
        mask += 1;
    }
    Ok(EquivResult { equivalent: true, vars, counterexample: None })
}

/// A Karnaugh map: rows and columns labelled in Gray-code order.
#[derive(Debug, Clone, PartialEq, Eq)]
pub struct KMap {
    pub vars: Vec<String>,
    pub row_vars: Vec<String>,
    pub col_vars: Vec<String>,
    pub rows: Vec<(String, Vec<(String, bool)>)>,
}

pub struct KMapModel {
    pub vars: Seq<Seq<char>>,
    pub row_vars: Seq<Seq<char>>,
    pub col_vars: Seq<Seq<char>>,
    pub rows: Seq<(Seq<char>, Seq<(Seq<char>, bool)>)>,
}

pub open spec fn cells_view(c: Seq<(String, bool)>) -> Seq<(Seq<char>, bool)> {
    c.map_values(|p: (String, bool)| (p.0@, p.1))
}

pub open spec fn kmap_rows_view(r: Seq<(String, Vec<(String, bool)>)>) -> Seq<(Seq<char>, Seq<(Seq<char>, bool)>)> {
    r.map_values(|p: (String, Vec<(String, bool)>)| (p.0@, cells_view(p.1@)))
}

impl View for KMap {
    type V = KMapModel;

    open spec fn view(&self) -> KMapModel {
        KMapModel {
            vars: names_view(self.vars@),
            row_vars: names_view(self.row_vars@),
            col_vars: names_view(self.col_vars@),
            rows: kmap_rows_view(self.rows@),
        }
    }
}

/// Gray-code labels of the given width (up to two bits).
pub open spec fn gray_spec(width: nat) -> Seq<Seq<char>> {
    if width == 0 {
        seq![Seq::empty()]
    } else if width == 1 {
        seq![seq!['0'], seq!['1']]
    } else if width == 2 {
        seq![seq!['0', '0'], seq!['0', '1'], seq!['1', '1'], seq!['1', '0']]
    } else {
        Seq::empty()
    }
}

/// Each variable bound to whether its bit of the label is `1`.
pub open spec fn kmap_env(vars: Seq<Seq<char>>, bits: Seq<char>) -> Seq<(Seq<char>, bool)> {
    let n = if vars.len() <= bits.len() { vars.len() } else { bits.len() };
    Seq::new(n, |i: int| (vars[i], bits[i] == '1'))
}

/// The cells of the row labelled `rl`.
pub open spec fn kmap_cells(t: Term, vars: Seq<Seq<char>>, rl: Seq<char>, cls: Seq<Seq<char>>) -> Result<Seq<(Seq<char>, bool)>, Fault>
    decreases cls.len(),
{
    if cls.len() == 0 {
        Ok(Seq::empty())
    } else {
        match kmap_cells(t, vars, rl, cls.drop_last()) {
            Ok(cells) => match logic_value(t, kmap_env(vars, rl + cls.last())) {
                Ok(v) => Ok(cells.push((cls.last(), v))),
                Err(f) => Err(f),
            },
            Err(f) => Err(f),
        }
    }
}

pub open spec fn kmap_rows(t: Term, vars: Seq<Seq<char>>, rls: Seq<Seq<char>>, cls: Seq<Seq<char>>) -> Result<Seq<(Seq<char>, Seq<(Seq<char>, bool)>)>, Fault>
    decreases rls.len(),
{
    if rls.len() == 0 {
        Ok(Seq::empty())
    } else {
        match kmap_rows(t, vars, rls.drop_last(), cls) {
            Ok(rows) => match kmap_cells(t, vars, rls.last(), cls) {
                Ok(cells) => Ok(rows.push((rls.last(), cells))),
                Err(f) => Err(f),
            },
            Err(f) => Err(f),
        }
    }
}

/// The Karnaugh map of `t` over the given names (its own sorted names when
/// none are given): the first half of the names label the rows.
pub open spec fn kmap_spec(explicit: Seq<Seq<char>>, t: Term) -> Result<KMapModel, Fault> {
    match validate_spec(t) {
        Err(f) => Err(f),
        Ok(_) => {
            let vars = if explicit.len() == 0 { name_listing(logic_var_set(t)) } else { explicit };
            if vars.len() == 0 || vars.len() > 4 {
                Err(Fault::TypeMismatch("kmap expects one to four variables"@))
            } else {
                let rc = vars.len() / 2;
                match kmap_rows(t, vars, gray_spec(rc), gray_spec((vars.len() - rc) as nat)) {
                    Ok(rows) => Ok(
                        KMapModel {
                            vars,
                            row_vars: vars.subrange(0, rc as int),
                            col_vars: vars.subrange(rc as int, vars.len() as int),
                            rows,
                        },
                    ),
                    Err(f) => Err(f),
                }
            }
        },
    }
}

/// Gray-code labels of the given width.
fn gray_labels(width: usize) -> (r: Vec<String>)
    ensures
        names_view(r@) == gray_spec(width as nat),
{
    let mut v: Vec<String> = Vec::new();
    if width == 0 {
        v.push(String::new());
    } else if width == 1 {
        proof {
            reveal_strlit("0");
            reveal_strlit("1");
        }
        v.push(String::from_str("0"));
        v.push(String::from_str("1"));
    } else if width == 2 {
        proof {
            reveal_strlit("00");
            reveal_strlit("01");
            reveal_strlit("11");
            reveal_strlit("10");
        }
        v.push(String::from_str("00"));
        v.push(String::from_str("01"));
        v.push(String::from_str("11"));
        v.push(String::from_str("10"));
    }
    proof {
        if width == 1 {
            assert(v@[0]@ =~= seq!['0']);
            assert(v@[1]@ =~= seq!['1']);
        } else if width == 2 {
            assert(v@[0]@ =~= seq!['0', '0']);
            assert(v@[1]@ =~= seq!['0', '1']);
            assert(v@[2]@ =~= seq!['1', '1']);
            assert(v@[3]@ =~= seq!['1', '0']);
        }
        assert(names_view(v@) =~= gray_spec(width as nat));
    }
    v
}

/// The digit shown for a boolean.
pub fn bool_digit(value: bool) -> (r: u8)
    ensures
        r == (if value { 1u8 } else { 0u8 }),
{
    if value {
        1
    } else {
        0
    }
}

fn kmap_env_exec(vars: &Vec<String>, row: &String, col: &String) -> (r: Vec<(String, bool)>)
    ensures
        bool_env_view(r@) == kmap_env(names_view(vars@), row@ + col@),
{
    let rc = crate::text::chars_of(row.as_str());
    let cc = crate::text::chars_of(col.as_str());
    let ghost bits = row@ + col@;
    let ghost vv = names_view(vars@);
    let total = if vars.len() <= rc.len() {
        vars.len()
    } else if vars.len() - rc.len() <= cc.len() {
        vars.len()
    } else {
        rc.len() + cc.len()
    };
    let mut env: Vec<(String, bool)> = Vec::new();
    let mut i: usize = 0;
    while i < total
        invariant
            rc@ == row@,
            cc@ == col@,
            bits == row@ + col@,
            vv == names_view(vars@),
            total == (if vars.len() <= bits.len() { vars.len() } else { bits.len() as usize }),
            i <= total,
            bool_env_view(env@) == kmap_env(vv, bits).take(i as int),
        decreases total - i,
    {
        let c = if i < rc.len() { rc[i] } else { cc[i - rc.len()] };
        let ghost e0 = bool_env_view(env@);
        env.push((vars[i].clone(), c == '1'));
        proof {
            assert(c == bits[i as int]);
            assert(bool_env_view(env@) =~= e0.push((vv[i as int], c == '1')));
            assert(kmap_env(vv, bits).take(i + 1) =~= kmap_env(vv, bits).take(i as int).push((vv[i as int], c == '1')));
        }
        i += 1;
    }
    proof {
        assert(kmap_env(vv, bits).take(total as int) =~= kmap_env(vv, bits));
    }
    env
}

proof fn lemma_kmap_cells_err(t: Term, vars: Seq<Seq<char>>, rl: Seq<char>, cls: Seq<Seq<char>>, k: int)
    requires
        0 <= k <= cls.len(),
        kmap_cells(t, vars, rl, cls.take(k)) is Err,
    ensures
        kmap_cells(t, vars, rl, cls) == kmap_cells(t, vars, rl, cls.take(k)),
    decreases cls.len() - k,
{
    if k < cls.len() {
        assert(cls.take(k + 1).drop_last() =~= cls.take(k));
        lemma_kmap_cells_err(t, vars, rl, cls, k + 1);
    } else {
        assert(cls.take(k) =~= cls);
    }
}

proof fn lemma_kmap_rows_err(t: Term, vars: Seq<Seq<char>>, rls: Seq<Seq<char>>, cls: Seq<Seq<char>>, k: int)
    requires
        0 <= k <= rls.len(),
        kmap_rows(t, vars, rls.take(k), cls) is Err,
    ensures
        kmap_rows(t, vars, rls, cls) == kmap_rows(t, vars, rls.take(k), cls),
    decreases rls.len() - k,
{
    if k < rls.len() {
        assert(rls.take(k + 1).drop_last() =~= rls.take(k));
        lemma_kmap_rows_err(t, vars, rls, cls, k + 1);
    } else {
        assert(rls.take(k) =~= rls);
    }
}

fn kmap_row(expr: &Expr, vars: &Vec<String>, row: &String, cols: &Vec<String>) -> (r: EvalResultT<Vec<(String, bool)>>)
    ensures
        match kmap_cells(expr@, names_view(vars@), row@, names_view(cols@)) {
            Ok(c) => r matches Ok(x) && cells_view(x@) == c,
            Err(f) => r matches Err(e) && e@ == f,
        },
{
    let ghost cv = names_view(cols@);
    let ghost vv = names_view(vars@);
    let mut cells: Vec<(String, bool)> = Vec::new();
    let mut j: usize = 0;
    proof {
        assert(cv.take(0) =~= Seq::<Seq<char>>::empty());
        assert(cells_view(cells@) =~= Seq::<(Seq<char>, bool)>::empty());
    }
    while j < cols.len()
        invariant
            cv == names_view(cols@),
            vv == names_view(vars@),
            j <= cols.len(),
            kmap_cells(expr@, vv, row@, cv.take(j as int)) == Ok::<Seq<(Seq<char>, bool)>, Fault>(cells_view(cells@)),
        decreases cols.len() - j,
    {
        proof {
            assert(cv.take(j + 1).drop_last() =~= cv.take(j as int));
            assert(cv.take(j + 1).last() == cv[j as int]);
        }
        let env = kmap_env_exec(vars, row, &cols[j]);
        let v = match eval_logic(expr, &env) {
            Ok(v) => v,
            Err(f) => {
                proof {
                    lemma_kmap_cells_err(expr@, vv, row@, cv, j + 1);
                }
                return Err(f);
            },
        };
        let ghost c0 = cells_view(cells@);
        cells.push((cols[j].clone(), v));
        proof {
            assert(cells_view(cells@) =~= c0.push((cv[j as int], v)));
        }
        j += 1;
    }
    proof {
        assert(cv.take(cols.len() as int) =~= cv);
    }
    Ok(cells)
}

/// The names `v[lo..hi]`.
fn names_slice(v: &Vec<String>, lo: usize, hi: usize) -> (r: Vec<String>)
    requires
        lo <= hi <= v.len(),
    ensures
        names_view(r@) == names_view(v@).subrange(lo as int, hi as int),
{
    let mut out: Vec<String> = Vec::new();
    let mut i: usize = lo;
    while i < hi
        invariant
            lo <= i <= hi,
            hi <= v.len(),
            names_view(out@) == names_view(v@).subrange(lo as int, i as int),
        decreases hi - i,
    {
        let ghost o0 = names_view(out@);
        out.push(v[i].clone());
        proof {
            assert(names_view(out@) =~= o0.push(v@[i as int]@));
            assert(names_view(v@).subrange(lo as int, i + 1) =~= names_view(v@).subrange(lo as int, i as int).push(v@[i as int]@));
        }
        i += 1;
    }
    out
}

/// The Karnaugh map of a logic expression over one to four names.
pub fn kmap(explicit_vars: &[String], expr: &Expr) -> (r: EvalResultT<KMap>)
    ensures
        same_outcome(r, kmap_spec(names_view(explicit_vars@), expr@)),
{
    match validate_logic_expr(expr) {
        Err(f) => return Err(f),
        Ok(_) => {},
    }
    let vars = if explicit_vars.len() == 0 {
        logic_vars(expr)
    } else {
        let mut v: Vec<String> = Vec::new();
        let mut i: usize = 0;
        while i < explicit_vars.len()
            invariant
                i <= explicit_vars.len(),
                names_view(v@) == names_view(explicit_vars@).take(i as int),
            decreases explicit_vars.len() - i,
        {
            let ghost v0 = names_view(v@);
            v.push(explicit_vars[i].clone());
            proof {
                assert(names_view(v@) =~= v0.push(explicit_vars@[i as int]@));
                assert(names_view(explicit_vars@).take(i + 1) =~= names_view(explicit_vars@).take(i as int).push(explicit_vars@[i as int]@));
            }
            i += 1;
        }
        proof {
            assert(names_view(explicit_vars@).take(explicit_vars.len() as int) =~= names_view(explicit_vars@));
        }
        v
    };
    let n = vars.len();
    if n == 0 || n > 4 {
        return Err(EvalError::TypeMismatch(String::from_str("kmap expects one to four variables")));
    }
    let rc = n / 2;
    let row_vars = names_slice(&vars, 0, rc);
    let col_vars = names_slice(&vars, rc, n);
    let row_labels = gray_labels(row_vars.len());
    let col_labels = gray_labels(col_vars.len());
    let ghost vv = names_view(vars@);
    let ghost rls = names_view(row_labels@);
    let ghost cls = names_view(col_labels@);
    let ghost ev = names_view(explicit_vars@);
    proof {
        assert(names_view(row_vars@).len() == row_vars@.len());
        assert(names_view(col_vars@).len() == col_vars@.len());
        assert(row_vars.len() == rc);
        assert(col_vars.len() == n - rc);
        assert(vv.len() == n);
        assert(vv == (if ev.len() == 0 { name_listing(logic_var_set(expr@)) } else { ev }));
        assert(rls == gray_spec((vv.len() / 2) as nat));
        assert(cls == gray_spec((vv.len() - vv.len() / 2) as nat));
    }
    let mut rows: Vec<(String, Vec<(String, bool)>)> = Vec::new();
    let mut i: usize = 0;
    proof {
        assert(rls.take(0) =~= Seq::<Seq<char>>::empty());
        assert(kmap_rows_view(rows@) =~= Seq::<(Seq<char>, Seq<(Seq<char>, bool)>)>::empty());
    }
    while i < row_labels.len()
        invariant
            vv == names_view(vars@),
            rls == names_view(row_labels@),
            cls == names_view(col_labels@),
            ev == names_view(explicit_vars@),
            validate_spec(expr@) is Ok,
            vv == (if ev.len() == 0 { name_listing(logic_var_set(expr@)) } else { ev }),
            0 < vv.len() <= 4,
            rls == gray_spec((vv.len() / 2) as nat),
            cls == gray_spec((vv.len() - vv.len() / 2) as nat),
            names_view(row_vars@) == vv.subrange(0, (vv.len() / 2) as int),
            names_view(col_vars@) == vv.subrange((vv.len() / 2) as int, vv.len() as int),
            i <= row_labels.len(),
            kmap_rows(expr@, vv, rls.take(i as int), cls) == Ok::<Seq<(Seq<char>, Seq<(Seq<char>, bool)>)>, Fault>(
                kmap_rows_view(rows@),
            ),
        decreases row_labels.len() - i,
    {
        proof {
            assert(rls.take(i + 1).drop_last() =~= rls.take(i as int));
            assert(rls.take(i + 1).last() == rls[i as int]);
        }
        let cells = match kmap_row(expr, &vars, &row_labels[i], &col_labels) {
            Ok(c) => c,
            Err(f) => {
                proof {
                    lemma_kmap_rows_err(expr@, vv, rls, cls, i + 1);
                }
                return Err(f);
            },
        };
        let ghost r0 = kmap_rows_view(rows@);
        let ghost cv = cells_view(cells@);
        rows.push((row_labels[i].clone(), cells));
        proof {
            assert(kmap_rows_view(rows@) =~= r0.push((rls[i as int], cv)));
        }
        i += 1;
    }
    proof {
        assert(rls.take(row_labels.len() as int) =~= rls);
    }
    Ok(KMap { vars, row_vars, col_vars, rows })
}

/// A circuit diagram: one line per gate, drawn as a tree.
#[derive(Debug, Clone, PartialEq, Eq)]
pub struct CircuitDiagram {
    pub lines: Vec<String>,
}

impl View for CircuitDiagram {
    type V = Seq<Seq<char>>;

    open spec fn view(&self) -> Seq<Seq<char>> {
        names_view(self.lines@)
    }
}

pub open spec fn upper_name(op: LogicOp) -> Seq<char> {
    match op {
        LogicOp::And => "AND"@,
        LogicOp::Or => "OR"@,
        LogicOp::Xor => "XOR"@,
        LogicOp::Nand => "NAND"@,
        LogicOp::Nor => "NOR"@,
    }
}

/// The label of a gate.
pub open spec fn gate_label_spec(t: Term) -> Seq<char> {
    match t {
        Term::Bool(b) => if b { "TRUE"@ } else { "FALSE"@ },
        Term::Variable(n) => n,
        Term::Not(_) => "NOT"@,
        Term::Logic(op, _, _) => upper_name(op),
        _ => render(t),
    }
}

/// The lines of the subtree at `t`, each under `prefix`.
pub open spec fn circuit_lines_spec(t: Term, prefix: Seq<char>, last: bool) -> Seq<Seq<char>>
    decreases t,
{
    let line = prefix + (if last { "`- "@ } else { "|- "@ }) + gate_label_spec(t);
    let cp = prefix + (if last { "   "@ } else { "|  "@ });
    seq![line] + match t {
        Term::Not(e) => circuit_lines_spec(*e, cp, true),
        Term::Logic(_, l, r) => circuit_lines_spec(*l, cp, false) + circuit_lines_spec(*r, cp, true),
        _ => Seq::empty(),
    }
}

pub open spec fn circuit_spec(t: Term) -> Result<Seq<Seq<char>>, Fault> {
    match validate_spec(t) {
        Ok(_) => Ok(seq!["OUT"@] + circuit_lines_spec(t, Seq::empty(), true)),
        Err(f) => Err(f),
    }
}

fn upper(op: LogicOp) -> (r: &'static str)
    ensures
        r@ == upper_name(op),
{
    match op {
        LogicOp::And => "AND",
        LogicOp::Or => "OR",
        LogicOp::Xor => "XOR",
        LogicOp::Nand => "NAND",
        LogicOp::Nor => "NOR",
    }
}

fn gate_label(expr: &Expr) -> (r: String)
    ensures
        r@ == gate_label_spec(expr@),
{
    match expr {
        Expr::Bool(b) => if *b {
            String::from_str("TRUE")
        } else {
            String::from_str("FALSE")
        },
        Expr::Variable(name) => name.clone(),
        Expr::Not(_) => String::from_str("NOT"),
        Expr::Logic(op, _, _) => String::from_str(upper(*op)),
        _ => expr.to_text(),
    }
}

fn circuit_lines(expr: &Expr, prefix: &str, last: bool, lines: &mut Vec<String>)
    ensures
        names_view(final(lines)@) == names_view(old(lines)@) + circuit_lines_spec(expr@, prefix@, last),
    decreases expr,
{
    let ghost l0 = names_view(lines@);
    let mut line = String::from_str(prefix);
    if last {
        line.append("`- ");
    } else {
        line.append("|- ");
    }
    let label = gate_label(expr);
    line.append(label.as_str());
    let ghost lv = line@;
    lines.push(line);
    let mut child_prefix = String::from_str(prefix);
    if last {
        child_prefix.append("   ");
    } else {
        child_prefix.append("|  ");
    }
    let ghost l1 = names_view(lines@);
    proof {
        assert(l1 =~= l0.push(lv));
    }
    match expr {
        Expr::Not(e) => {
            circuit_lines(e, child_prefix.as_str(), true, lines);
            proof {
                assert(names_view(lines@) =~= l0 + (seq![lv] + circuit_lines_spec(e@, child_prefix@, true)));
            }
        },
        Expr::Logic(_, l, r) => {
            circuit_lines(l, child_prefix.as_str(), false, lines);
            circuit_lines(r, child_prefix.as_str(), true, lines);
            proof {
                let a = circuit_lines_spec(l@, child_prefix@, false);
                let b = circuit_lines_spec(r@, child_prefix@, true);
                assert(names_view(lines@) =~= l0 + (seq![lv] + (a + b)));
            }
        },
        _ => {
            proof {
                assert(names_view(lines@) =~= l0 + (seq![lv] + Seq::<Seq<char>>::empty()));
            }
        },
    }
}

/// Draws a logic expression as a tree of gates.
pub fn circuit_diagram(expr: &Expr) -> (r: EvalResultT<CircuitDiagram>)
    ensures
        same_outcome(r, circuit_spec(expr@)),
{
    match validate_logic_expr(expr) {
        Err(f) => return Err(f),
        Ok(_) => {},
    }
    let mut lines: Vec<String> = Vec::new();
    lines.push(String::from_str("OUT"));
    proof {
        assert(names_view(lines@) =~= seq!["OUT"@]);
    }
    circuit_lines(expr, "", true, &mut lines);
    proof {
        reveal_strlit("");
        assert(""@ =~= Seq::<char>::empty());
    }
    Ok(CircuitDiagram { lines })
}

// ---------------------------------------------------------------------------
// Logic simplification.
// ---------------------------------------------------------------------------

/// One `and`/`or` node over simplified operands: constants, identities,
/// annihilators and idempotence.
pub open spec fn and_or_node(op: LogicOp, l: Term, r: Term) -> Term {
    if l is Bool && r is Bool {
        Term::Bool(apply_logic(op, l->Bool_0, r->Bool_0))
    } else if op == LogicOp::And {
        if l == Term::Bool(false) || r == Term::Bool(false) {
            Term::Bool(false)
        } else if l == Term::Bool(true) {
            r
        } else if r == Term::Bool(true) {
            l
        } else if l == r {
            l
        } else {
            Term::Logic(op, Box::new(l), Box::new(r))
        }
    } else {
        if l == Term::Bool(true) || r == Term::Bool(true) {
            Term::Bool(true)
        } else if l == Term::Bool(false) {
            r
        } else if r == Term::Bool(false) {
            l
        } else if l == r {
            l
        } else {
            Term::Logic(op, Box::new(l), Box::new(r))
        }
    }
}

/// The negation of a simplified term, pushed inward by De Morgan's laws.
pub open spec fn not_spec(t: Term) -> Term
    decreases t,
{
    match t {
        Term::Bool(b) => Term::Bool(!b),
        Term::Not(inner) => *inner,
        Term::Logic(LogicOp::And, l, r) => and_or_node(LogicOp::Or, not_spec(*l), not_spec(*r)),
        Term::Logic(LogicOp::Or, l, r) => and_or_node(LogicOp::And, not_spec(*l), not_spec(*r)),
        _ => Term::Not(Box::new(t)),
    }
}

/// One connective over simplified operands.
pub open spec fn logic_node(op: LogicOp, l: Term, r: Term) -> Term {
    if l is Bool && r is Bool {
        Term::Bool(apply_logic(op, l->Bool_0, r->Bool_0))
    } else {
        match op {
            LogicOp::And | LogicOp::Or => and_or_node(op, l, r),
            LogicOp::Xor => if l == Term::Bool(false) {
                r
            } else if r == Term::Bool(false) {
                l
            } else if l == Term::Bool(true) {
                not_spec(r)
            } else if r == Term::Bool(true) {
                not_spec(l)
            } else if l == r {
                Term::Bool(false)
            } else {
                Term::Logic(op, Box::new(l), Box::new(r))
            },
            LogicOp::Nand => not_spec(and_or_node(LogicOp::And, l, r)),
            LogicOp::Nor => not_spec(and_or_node(LogicOp::Or, l, r)),
        }
    }
}

/// Bottom-up simplification of a logic term.
pub open spec fn simplify_logic_inner_spec(t: Term) -> Term
    decreases t,
{
    match t {
        Term::Not(e) => not_spec(simplify_logic_inner_spec(*e)),
        Term::Logic(op, l, r) => logic_node(op, simplify_logic_inner_spec(*l), simplify_logic_inner_spec(*r)),
        _ => t,
    }
}

pub open spec fn simplify_logic_spec(t: Term) -> Result<Term, Fault> {
    match validate_spec(t) {
        Ok(_) => Ok(simplify_logic_inner_spec(t)),
        Err(f) => Err(f),
    }
}

fn is_bool(e: &Expr, b: bool) -> (r: bool)
    ensures
        r == (e@ == Term::Bool(b)),
{
    match e {
        Expr::Bool(x) => *x == b,
        _ => false,
    }
}

fn and_or_node_exec(op: LogicOp, l: Expr, r: Expr) -> (res: Expr)
    ensures
        res@ == and_or_node(op, l@, r@),
{
    if let Expr::Bool(a) = &l {
        if let Expr::Bool(b) = &r {
            let v = match op {
                LogicOp::And => *a && *b,
                LogicOp::Or => *a || *b,
                LogicOp::Xor => *a != *b,
                LogicOp::Nand => !(*a && *b),
                LogicOp::Nor => !(*a || *b),
            };
            return Expr::Bool(v);
        }
    }
    if op == LogicOp::And {
        if is_bool(&l, false) || is_bool(&r, false) {
            Expr::Bool(false)
        } else if is_bool(&l, true) {
            r
        } else if is_bool(&r, true) {
            l
        } else if l.equals(&r) {
            l
        } else {
            Expr::logic(op, l, r)
        }
    } else {
        if is_bool(&l, true) || is_bool(&r, true) {
            Expr::Bool(true)
        } else if is_bool(&l, false) {
            r
        } else if is_bool(&r, false) {
            l
        } else if l.equals(&r) {
            l
        } else {
            Expr::logic(op, l, r)
        }
    }
}

fn simplify_not(e: Expr) -> (r: Expr)
    ensures
        r@ == not_spec(e@),
    decreases e,
{
    match e {
        Expr::Bool(b) => Expr::Bool(!b),
        Expr::Not(inner) => *inner,
        Expr::Logic(op, l, r) => {
            proof {
                assert(e@ == Term::Logic(op, Box::new(l@), Box::new(r@)));
            }
            if op == LogicOp::And {
                and_or_node_exec(LogicOp::Or, simplify_not(*l), simplify_not(*r))
            } else if op == LogicOp::Or {
                and_or_node_exec(LogicOp::And, simplify_not(*l), simplify_not(*r))
            } else {
                Expr::not(Expr::Logic(op, l, r))
            }
        },
        other => Expr::not(other),
    }
}

fn logic_node_exec(op: LogicOp, l: Expr, r: Expr) -> (res: Expr)
    ensures
        res@ == logic_node(op, l@, r@),
{
    if let Expr::Bool(a) = &l {
        if let Expr::Bool(b) = &r {
            let v = match op {
                LogicOp::And => *a && *b,
                LogicOp::Or => *a || *b,
                LogicOp::Xor => *a != *b,
                LogicOp::Nand => !(*a && *b),
                LogicOp::Nor => !(*a || *b),
            };
            return Expr::Bool(v);
        }
    }
    match op {
        LogicOp::And | LogicOp::Or => and_or_node_exec(op, l, r),
        LogicOp::Xor => {
            if is_bool(&l, false) {
                r
            } else if is_bool(&r, false) {
                l
            } else if is_bool(&l, true) {
                simplify_not(r)
            } else if is_bool(&r, true) {
                simplify_not(l)
            } else if l.equals(&r) {
                Expr::Bool(false)
            } else {
                Expr::logic(op, l, r)
            }
        },
        LogicOp::Nand => simplify_not(and_or_node_exec(LogicOp::And, l, r)),
        LogicOp::Nor => simplify_not(and_or_node_exec(LogicOp::Or, l, r)),
    }
}

fn simplify_logic_inner(expr: &Expr) -> (r: Expr)
    ensures
        r@ == simplify_logic_inner_spec(expr@),
    decreases expr,
{
    match expr {
        Expr::Not(e) => simplify_not(simplify_logic_inner(e)),
        Expr::Logic(op, l, r) => {
            let left = simplify_logic_inner(l);
            let right = simplify_logic_inner(r);
            logic_node_exec(*op, left, right)
        },
        _ => expr.copy(),
    }
}

/// Simplifies a logic expression: constants fold, identities and
/// annihilators apply, negations are pushed inward.
pub fn simplify_logic(expr: &Expr) -> (r: EvalResultT<Expr>)
    ensures
        same_outcome(r, simplify_logic_spec(expr@)),
{
    match validate_logic_expr(expr) {
        Err(f) => Err(f),
        Ok(_) => Ok(simplify_logic_inner(expr)),
    }
}

/// A named set of simplified logic outputs (a half or full adder).
#[derive(Debug, PartialEq)]
pub struct AdderResult {
    pub name: String,
    pub outputs: Vec<(String, Expr)>,
}

pub struct AdderModel {
    pub name: Seq<char>,
    pub outputs: Seq<(Seq<char>, Term)>,
}

pub open spec fn outputs_view(v: Seq<(String, Expr)>) -> Seq<(Seq<char>, Term)> {
    v.map_values(|p: (String, Expr)| (p.0@, p.1@))
}

impl View for AdderResult {
    type V = AdderModel;

    open spec fn view(&self) -> AdderModel {
        AdderModel { name: self.name@, outputs: outputs_view(self.outputs@) }
    }
}

/// Every output simplified, the first failure reported.
pub open spec fn simplify_outputs(outs: Seq<(Seq<char>, Term)>) -> Result<Seq<(Seq<char>, Term)>, Fault>
    decreases outs.len(),
{
    if outs.len() == 0 {
        Ok(Seq::empty())
    } else {
        match simplify_outputs(outs.drop_last()) {
            Ok(done) => match simplify_logic_spec(outs.last().1) {
                Ok(e) => Ok(done.push((outs.last().0, e))),
                Err(f) => Err(f),
            },
            Err(f) => Err(f),
        }
    }
}

proof fn lemma_simplify_outputs_err(s: Seq<(Seq<char>, Term)>, k: int)
    requires
        0 <= k <= s.len(),
        simplify_outputs(s.take(k)) is Err,
    ensures
        simplify_outputs(s) == simplify_outputs(s.take(k)),
    decreases s.len() - k,
{
    if k < s.len() {
        assert(s.take(k + 1).drop_last() =~= s.take(k));
        lemma_simplify_outputs_err(s, k + 1);
    } else {
        assert(s.take(k) =~= s);
    }
}

/// Names a set of logic outputs, each simplified.
pub fn adder_preset(name: &str, outputs: Vec<(String, Expr)>) -> (r: EvalResultT<AdderResult>)
    ensures
        match simplify_outputs(outputs_view(outputs@)) {
            Ok(outs) => r matches Ok(x) && x@.name == name@ && x@.outputs == outs,
            Err(f) => r matches Err(e) && e@ == f,
        },
{
    let ghost ov = outputs_view(outputs@);
    let mut done: Vec<(String, Expr)> = Vec::new();
    let mut i: usize = 0;
    proof {
        assert(ov.take(0) =~= Seq::<(Seq<char>, Term)>::empty());
        assert(outputs_view(done@) =~= Seq::<(Seq<char>, Term)>::empty());
    }
    while i < outputs.len()
        invariant
            ov == outputs_view(outputs@),
            i <= outputs.len(),
            simplify_outputs(ov.take(i as int)) == Ok::<Seq<(Seq<char>, Term)>, Fault>(outputs_view(done@)),
        decreases outputs.len() - i,
    {
        proof {
            assert(ov.take(i + 1).drop_last() =~= ov.take(i as int));
            assert(ov.take(i + 1).last() == ov[i as int]);
        }
        let e = match simplify_logic(&outputs[i].1) {
            Ok(e) => e,
            Err(f) => {
                proof {
                    lemma_simplify_outputs_err(ov, i + 1);
                }
                return Err(f);
            },
        };
        let ghost d0 = outputs_view(done@);
        let ghost ev = e@;
        done.push((outputs[i].0.clone(), e));
        proof {
            assert(outputs_view(done@) =~= d0.push((ov[i as int].0, ev)));
        }
        i += 1;
    }
    proof {
        assert(ov.take(outputs.len() as int) =~= ov);
    }
    Ok(AdderResult { name: String::from_str(name), outputs: done })
}

// ---------------------------------------------------------------------------
// Laws.
// ---------------------------------------------------------------------------

/// A logic term all of whose names the environment binds.
pub open spec fn bound_in(t: Term, env: Seq<(Seq<char>, bool)>) -> bool {
    is_logic(t) && forall|v: Seq<char>| #[trigger] logic_var_set(t).contains(v) ==> env_lookup(env, v) is Some
}

proof fn lemma_bound_parts(t: Term, env: Seq<(Seq<char>, bool)>)
    requires
        bound_in(t, env),
    ensures
        t matches Term::Not(e) ==> bound_in(*e, env),
        t matches Term::Logic(_, l, r) ==> bound_in(*l, env) && bound_in(*r, env),
{
    match t {
        Term::Not(e) => {
            assert forall|v: Seq<char>| #[trigger] logic_var_set(*e).contains(v) implies env_lookup(env, v) is Some by {
                assert(logic_var_set(t).contains(v));
            }
        },
        Term::Logic(_, l, r) => {
            assert forall|v: Seq<char>| #[trigger] logic_var_set(*l).contains(v) implies env_lookup(env, v) is Some by {
                assert(logic_var_set(t).contains(v));
            }
            assert forall|v: Seq<char>| #[trigger] logic_var_set(*r).contains(v) implies env_lookup(env, v) is Some by {
                assert(logic_var_set(t).contains(v));
            }
        },
        _ => {},
    }
}

proof fn lemma_bound_logic(op: LogicOp, l: Term, r: Term, env: Seq<(Seq<char>, bool)>)
    requires
        bound_in(l, env),
        bound_in(r, env),
    ensures
        bound_in(Term::Logic(op, Box::new(l), Box::new(r)), env),
{
    let n = Term::Logic(op, Box::new(l), Box::new(r));
    assert forall|v: Seq<char>| #[trigger] logic_var_set(n).contains(v) implies env_lookup(env, v) is Some by {
        if logic_var_set(l).contains(v) {
        } else {
            assert(logic_var_set(r).contains(v));
        }
    }
}

proof fn lemma_bound_not(t: Term, env: Seq<(Seq<char>, bool)>)
    requires
        bound_in(t, env),
    ensures
        bound_in(Term::Not(Box::new(t)), env),
{
    let n = Term::Not(Box::new(t));
    assert forall|v: Seq<char>| #[trigger] logic_var_set(n).contains(v) implies env_lookup(env, v) is Some by {
        assert(logic_var_set(t).contains(v));
    }
}

/// A logic term whose names are all bound has a value.
pub proof fn lemma_bound_has_value(t: Term, env: Seq<(Seq<char>, bool)>)
    requires
        bound_in(t, env),
    ensures
        logic_value(t, env) is Ok,
    decreases t,
{
    match t {
        Term::Variable(n) => {
            assert(logic_var_set(t).contains(n));
        },
        Term::Not(e) => {
            lemma_bound_parts(t, env);
            lemma_bound_has_value(*e, env);
        },
        Term::Logic(_, l, r) => {
            lemma_bound_parts(t, env);
            lemma_bound_has_value(*l, env);
            lemma_bound_has_value(*r, env);
        },
        _ => {},
    }
}

proof fn lemma_and_or_node(op: LogicOp, l: Term, r: Term, env: Seq<(Seq<char>, bool)>)
    requires
        op == LogicOp::And || op == LogicOp::Or,
        bound_in(l, env),
        bound_in(r, env),
    ensures
        bound_in(and_or_node(op, l, r), env),
        logic_value(and_or_node(op, l, r), env) == Ok::<bool, Fault>(
            apply_logic(op, logic_value(l, env)->Ok_0, logic_value(r, env)->Ok_0),
        ),
{
    lemma_bound_has_value(l, env);
    lemma_bound_has_value(r, env);
    lemma_bound_logic(op, l, r, env);
}

proof fn lemma_not_node(t: Term, env: Seq<(Seq<char>, bool)>)
    requires
        bound_in(t, env),
    ensures
        bound_in(not_spec(t), env),
        logic_value(not_spec(t), env) == Ok::<bool, Fault>(!logic_value(t, env)->Ok_0),
    decreases t,
{
    lemma_bound_has_value(t, env);
    match t {
        Term::Not(inner) => {
            lemma_bound_parts(t, env);
        },
        Term::Logic(op, l, r) => {
            lemma_bound_parts(t, env);
            if op == LogicOp::And {
                lemma_not_node(*l, env);
                lemma_not_node(*r, env);
                lemma_and_or_node(LogicOp::Or, not_spec(*l), not_spec(*r), env);
            } else if op == LogicOp::Or {
                lemma_not_node(*l, env);
                lemma_not_node(*r, env);
                lemma_and_or_node(LogicOp::And, not_spec(*l), not_spec(*r), env);
            } else {
                lemma_bound_not(t, env);
            }
        },
        Term::Bool(_) => {},
        _ => {
            lemma_bound_not(t, env);
        },
    }
}

proof fn lemma_logic_node(op: LogicOp, l: Term, r: Term, env: Seq<(Seq<char>, bool)>)
    requires
        bound_in(l, env),
        bound_in(r, env),
    ensures
        bound_in(logic_node(op, l, r), env),
        logic_value(logic_node(op, l, r), env) == Ok::<bool, Fault>(
            apply_logic(op, logic_value(l, env)->Ok_0, logic_value(r, env)->Ok_0),
        ),
{
    lemma_bound_has_value(l, env);
    lemma_bound_has_value(r, env);
    if l is Bool && r is Bool {
    } else {
        match op {
            LogicOp::And | LogicOp::Or => {
                lemma_and_or_node(op, l, r, env);
            },
            LogicOp::Xor => {
                lemma_not_node(l, env);
                lemma_not_node(r, env);
                lemma_bound_logic(op, l, r, env);
            },
            LogicOp::Nand => {
                lemma_and_or_node(LogicOp::And, l, r, env);
                lemma_not_node(and_or_node(LogicOp::And, l, r), env);
            },
            LogicOp::Nor => {
                lemma_and_or_node(LogicOp::Or, l, r, env);
                lemma_not_node(and_or_node(LogicOp::Or, l, r), env);
            },
        }
    }
}

proof fn lemma_simplify_inner(t: Term, env: Seq<(Seq<char>, bool)>)
    requires
        bound_in(t, env),
    ensures
        bound_in(simplify_logic_inner_spec(t), env),
        logic_value(simplify_logic_inner_spec(t), env) == logic_value(t, env),
    decreases t,
{
    lemma_bound_has_value(t, env);
    match t {
        Term::Not(e) => {
            lemma_bound_parts(t, env);
            lemma_simplify_inner(*e, env);
            lemma_not_node(simplify_logic_inner_spec(*e), env);
        },
        Term::Logic(op, l, r) => {
            lemma_bound_parts(t, env);
            lemma_simplify_inner(*l, env);
            lemma_simplify_inner(*r, env);
            lemma_logic_node(op, simplify_logic_inner_spec(*l), simplify_logic_inner_spec(*r), env);
        },
        _ => {},
    }
}

/// Simplifying a logic expression keeps its value under every environment
/// that binds all of its names, and the simplified form names nothing the
/// environment leaves unbound.
pub proof fn lemma_simplify_logic_preserves_value(t: Term, env: Seq<(Seq<char>, bool)>)
    requires
        validate_spec(t) is Ok,
        forall|v: Seq<char>| #[trigger] logic_var_set(t).contains(v) ==> env_lookup(env, v) is Some,
    ensures
        simplify_logic_spec(t) is Ok,
        logic_value(t, env) is Ok,
        logic_value(simplify_logic_spec(t)->Ok_0, env) == logic_value(t, env),
        bound_in(simplify_logic_spec(t)->Ok_0, env),
{
    lemma_bound_has_value(t, env);
    lemma_simplify_inner(t, env);
}

/// The environment of row `k` of a table over `vars`.
pub open spec fn row_env(vars: Seq<Seq<char>>, k: nat) -> Seq<(Seq<char>, bool)> {
    assignment(vars, row_values(k as usize, vars.len()))
}

proof fn lemma_truth_rows_shape(t: Term, vars: Seq<Seq<char>>, count: nat)
    ensures
        truth_rows(t, vars, count) matches Ok(rows) ==> {
            &&& rows.len() == count
            &&& forall|k: int| 0 <= k < count ==> #[trigger] rows[k] == (
                row_values(k as usize, vars.len()),
                logic_value(t, row_env(vars, k as nat))->Ok_0,
            ) && logic_value(t, row_env(vars, k as nat)) is Ok
        },
    decreases count,
{
    if count > 0 {
        lemma_truth_rows_shape(t, vars, (count - 1) as nat);
    }
}

/// A truth table has one row per row number below `2^n` for its `n`
/// names, in order; a row holds the values of the names (the first name
/// on the highest bit of the row number) and the expression's value under
/// them.
pub proof fn lemma_truth_table_rows(t: Term)
    ensures
        truth_table_spec(t) matches Ok(m) ==> {
            &&& m.vars == name_listing(logic_var_set(t))
            &&& m.rows.len() == row_count(m.vars.len())
            &&& forall|k: int| 0 <= k < m.rows.len() ==> #[trigger] m.rows[k] == (
                row_values(k as usize, m.vars.len()),
                logic_value(t, row_env(m.vars, k as nat))->Ok_0,
            ) && logic_value(t, row_env(m.vars, k as nat)) is Ok
        },
{
    let vars = name_listing(logic_var_set(t));
    lemma_truth_rows_shape(t, vars, row_count(vars.len()));
}

/// The two terms have the same value on every row from `lo` up to `hi`.
pub open spec fn rows_agree(l: Term, r: Term, vars: Seq<Seq<char>>, lo: nat, hi: nat) -> bool {
    forall|k: nat| lo <= k < hi ==> #[trigger] logic_value(l, row_env(vars, k)) == logic_value(r, row_env(vars, k))
}

proof fn lemma_equiv_search(l: Term, r: Term, vars: Seq<Seq<char>>, mask: nat, count: nat)
    ensures
        equiv_search(l, r, vars, mask, count) matches Ok(None) ==> rows_agree(l, r, vars, mask, count),
        equiv_search(l, r, vars, mask, count) matches Ok(Some(v)) ==> exists|k: nat| #![trigger row_env(vars, k)]
            mask <= k < count && v == row_values(k as usize, vars.len()) && logic_value(l, row_env(vars, k))
                != logic_value(r, row_env(vars, k)),
    decreases count - mask,
{
    if mask < count {
        lemma_equiv_search(l, r, vars, mask + 1, count);
        let env = row_env(vars, mask);
        if let Ok(a) = logic_value(l, env) {
            if let Ok(b) = logic_value(r, env) {
                if a == b {
                    if let Ok(None) = equiv_search(l, r, vars, mask, count) {
                        assert forall|k: nat| mask <= k < count implies #[trigger] logic_value(l, row_env(vars, k))
                            == logic_value(r, row_env(vars, k)) by {
                            if k > mask {
                                assert(rows_agree(l, r, vars, mask + 1, count));
                            }
                        }
                    }
                    if let Ok(Some(v)) = equiv_search(l, r, vars, mask, count) {
                        let k = choose|k: nat| #![trigger row_env(vars, k)]
                            mask + 1 <= k < count && v == row_values(k as usize, vars.len()) && logic_value(
                                l,
                                row_env(vars, k),
                            ) != logic_value(r, row_env(vars, k));
                        assert(mask <= k < count);
                    }
                } else {
                    assert(logic_value(l, row_env(vars, mask)) != logic_value(r, row_env(vars, mask)));
                }
            }
        }
    }
}

/// An equivalence check that succeeds says `equivalent` exactly when the
/// two expressions agree on every row of their joint truth table, and
/// then gives no counterexample; otherwise the counterexample is the
/// values of a row on which they differ.
pub proof fn lemma_equivalence_sound(l: Term, r: Term)
    ensures
        equivalence_spec(l, r) matches Ok(m) ==> {
            &&& m.vars == name_listing(logic_var_set(l) + logic_var_set(r))
            &&& (m.equivalent <==> rows_agree(l, r, m.vars, 0, row_count(m.vars.len())))
            &&& (m.equivalent <==> m.counterexample is None)
            &&& (m.counterexample matches Some(v) ==> exists|k: nat| #![trigger row_env(m.vars, k)]
                k < row_count(m.vars.len()) && v == row_values(k as usize, m.vars.len())
                    && logic_value(l, row_env(m.vars, k)) != logic_value(r, row_env(m.vars, k)))
        },
{
    let vars = name_listing(logic_var_set(l) + logic_var_set(r));
    let count = row_count(vars.len());
    lemma_equiv_search(l, r, vars, 0, count);
    if let Ok(Some(v)) = equiv_search(l, r, vars, 0, count) {
        let k = choose|k: nat| #![trigger row_env(vars, k)]
            0 <= k < count && v == row_values(k as usize, vars.len()) && logic_value(l, row_env(vars, k))
                != logic_value(r, row_env(vars, k));
        assert(!rows_agree(l, r, vars, 0, count));
    }
}

// ---------------------------------------------------------------------------
// Text of logic results.
// ---------------------------------------------------------------------------

pub open spec fn digit_text(b: bool) -> Seq<char> {
    if b { "1"@ } else { "0"@ }
}

/// Each item followed by one space.
pub open spec fn names_spaced(v: Seq<Seq<char>>) -> Seq<char>
    decreases v.len(),
{
    if v.len() == 0 {
        Seq::empty()
    } else {
        names_spaced(v.drop_last()) + v.last() + " "@
    }
}

/// Each value's digit followed by one space.
pub open spec fn digits_spaced(v: Seq<bool>) -> Seq<char>
    decreases v.len(),
{
    if v.len() == 0 {
        Seq::empty()
    } else {
        digits_spaced(v.drop_last()) + digit_text(v.last()) + " "@
    }
}

/// The names joined with a separator.
pub open spec fn joined(v: Seq<Seq<char>>, sep: Seq<char>) -> Seq<char>
    decreases v.len(),
{
    if v.len() == 0 {
        Seq::empty()
    } else if v.len() == 1 {
        v[0]
    } else {
        joined(v.drop_last(), sep) + sep + v.last()
    }
}

/// Each line followed by a line break.
pub open spec fn lines_text(v: Seq<Seq<char>>) -> Seq<char>
    decreases v.len(),
{
    if v.len() == 0 {
        Seq::empty()
    } else {
        lines_text(v.drop_last()) + v.last() + "\n"@
    }
}

pub open spec fn table_rows_text(rows: Seq<(Seq<bool>, bool)>) -> Seq<char>
    decreases rows.len(),
{
    if rows.len() == 0 {
        Seq::empty()
    } else {
        table_rows_text(rows.drop_last()) + digits_spaced(rows.last().0) + "| "@ + digit_text(rows.last().1)
            + "\n"@
    }
}

/// A header of the names and `| out`, then one line per row.
pub open spec fn table_text(m: TableModel) -> Seq<char> {
    names_spaced(m.vars) + "| out\n"@ + table_rows_text(m.rows)
}

/// ` name=digit` for each name paired with a value.
pub open spec fn assignment_text(vars: Seq<Seq<char>>, values: Seq<bool>, k: nat) -> Seq<char>
    decreases k,
{
    if k == 0 {
        Seq::empty()
    } else {
        assignment_text(vars, values, (k - 1) as nat) + " "@ + vars[k - 1] + "="@ + digit_text(values[k - 1])
    }
}

/// `true`, or `false counterexample:` and the counterexample's values.
pub open spec fn equiv_text(m: EquivModel) -> Seq<char> {
    if m.equivalent {
        "true"@
    } else {
        "false counterexample:"@ + match m.counterexample {
            Some(v) => assignment_text(m.vars, v, if m.vars.len() <= v.len() { m.vars.len() } else { v.len() }),
            None => Seq::empty(),
        }
    }
}

/// ` label` for each cell.
pub open spec fn cell_labels_text(cells: Seq<(Seq<char>, bool)>) -> Seq<char>
    decreases cells.len(),
{
    if cells.len() == 0 {
        Seq::empty()
    } else {
        cell_labels_text(cells.drop_last()) + " "@ + cells.last().0
    }
}

/// ` digit` for each cell.
pub open spec fn cell_values_text(cells: Seq<(Seq<char>, bool)>) -> Seq<char>
    decreases cells.len(),
{
    if cells.len() == 0 {
        Seq::empty()
    } else {
        cell_values_text(cells.drop_last()) + " "@ + digit_text(cells.last().1)
    }
}

pub open spec fn kmap_rows_text(rows: Seq<(Seq<char>, Seq<(Seq<char>, bool)>)>) -> Seq<char>
    decreases rows.len(),
{
    if rows.len() == 0 {
        Seq::empty()
    } else {
        kmap_rows_text(rows.drop_last()) + rows.last().0 + cell_values_text(rows.last().1) + "\n"@
    }
}

/// `KMAP` and the names; the row and column names around a backslash with
/// the column labels; then each row label with its cells' digits.
pub open spec fn kmap_text(m: KMapModel) -> Seq<char> {
    "KMAP "@ + joined(m.vars, " "@) + "\n"@ + joined(m.row_vars, Seq::empty()) + "\\"@ + joined(
        m.col_vars,
        Seq::empty(),
    ) + (if m.rows.len() == 0 { Seq::empty() } else { cell_labels_text(m.rows[0].1) }) + "\n"@ + kmap_rows_text(
        m.rows,
    )
}

pub open spec fn outputs_text(outs: Seq<(Seq<char>, Term)>) -> Seq<char>
    decreases outs.len(),
{
    if outs.len() == 0 {
        Seq::empty()
    } else {
        outputs_text(outs.drop_last()) + outs.last().0 + " = "@ + render(outs.last().1) + "\n"@
    }
}

/// The name, then `name = expression` for each output, one per line.
pub open spec fn adder_text(m: AdderModel) -> Seq<char> {
    m.name + "\n"@ + outputs_text(m.outputs)
}

fn digit_str(b: bool) -> (r: &'static str)
    ensures
        r@ == digit_text(b),
{
    if b {
        "1"
    } else {
        "0"
    }
}

fn append_joined(out: &mut String, v: &Vec<String>, sep: &str)
    ensures
        final(out)@ == old(out)@ + joined(names_view(v@), sep@),
{
    let ghost o0 = out@;
    let ghost nv = names_view(v@);
    let mut i: usize = 0;
    proof {
        assert(nv.take(0) =~= Seq::<Seq<char>>::empty());
        assert(o0 =~= o0 + joined(nv.take(0), sep@));
    }
    while i < v.len()
        invariant
            nv == names_view(v@),
            i <= v.len(),
            out@ == o0 + joined(nv.take(i as int), sep@),
        decreases v.len() - i,
    {
        proof {
            assert(nv.take(i + 1).drop_last() =~= nv.take(i as int));
            assert(nv.take(i + 1).last() == v@[i as int]@);
            if i == 0 {
                assert(nv.take(1) =~= seq![v@[0]@]);
            }
        }
        if i > 0 {
            out.append(sep);
        }
        out.append(v[i].as_str());
        i += 1;
    }
    proof {
        assert(nv.take(v.len() as int) =~= nv);
    }
}

impl TruthTable {
    /// The table as text: a header line, then one line per row.
    pub fn to_text(&self) -> (r: String)
        ensures
            r@ == table_text(self@),
    {
        let mut out = String::new();
        let ghost nv = names_view(self.vars@);
        let mut i: usize = 0;
        proof {
            assert(nv.take(0) =~= Seq::<Seq<char>>::empty());
        }
        while i < self.vars.len()
            invariant
                nv == names_view(self.vars@),
                i <= self.vars.len(),
                out@ == names_spaced(nv.take(i as int)),
            decreases self.vars.len() - i,
        {
            proof {
                assert(nv.take(i + 1).drop_last() =~= nv.take(i as int));
            }
            out.append(self.vars[i].as_str());
            out.append(" ");
            i += 1;
        }
        proof {
            assert(nv.take(self.vars.len() as int) =~= nv);
        }
        out.append("| out\n");
        let ghost o1 = out@;
        let ghost rv = self@.rows;
        let mut k: usize = 0;
        proof {
            assert(rv.take(0) =~= Seq::<(Seq<bool>, bool)>::empty());
            assert(o1 =~= o1 + table_rows_text(rv.take(0)));
        }
        while k < self.rows.len()
            invariant
                rv == self@.rows,
                k <= self.rows.len(),
                out@ == o1 + table_rows_text(rv.take(k as int)),
            decreases self.rows.len() - k,
        {
            let values = &self.rows[k].0;
            let ghost vv = values@;
            let ghost o2 = out@;
            proof {
                assert(rv.take(k + 1).drop_last() =~= rv.take(k as int));
                assert(rv.take(k + 1).last() == (vv, self.rows@[k as int].1));
                assert(vv.take(0) =~= Seq::<bool>::empty());
                assert(o2 =~= o2 + digits_spaced(vv.take(0)));
            }
            let mut j: usize = 0;
            while j < values.len()
                invariant
                    vv == values@,
                    j <= values.len(),
                    out@ == o2 + digits_spaced(vv.take(j as int)),
                decreases values.len() - j,
            {
                proof {
                    assert(vv.take(j + 1).drop_last() =~= vv.take(j as int));
                }
                out.append(digit_str(values[j]));
                out.append(" ");
                j += 1;
            }
            proof {
                assert(vv.take(values.len() as int) =~= vv);
            }
            out.append("| ");
            out.append(digit_str(self.rows[k].1));
            out.append("\n");
            k += 1;
        }
        proof {
            assert(rv.take(self.rows.len() as int) =~= rv);
        }
        out
    }
}

impl CircuitDiagram {
    /// The diagram as text, one gate per line.
    pub fn to_text(&self) -> (r: String)
        ensures
            r@ == lines_text(self@),
    {
        let mut out = String::new();
        let ghost nv = names_view(self.lines@);
        let mut i: usize = 0;
        proof {
            assert(nv.take(0) =~= Seq::<Seq<char>>::empty());
        }
        while i < self.lines.len()
            invariant
                nv == names_view(self.lines@),
                i <= self.lines.len(),
                out@ == lines_text(nv.take(i as int)),
            decreases self.lines.len() - i,
        {
            proof {
                assert(nv.take(i + 1).drop_last() =~= nv.take(i as int));
            }
            out.append(self.lines[i].as_str());
            out.append("\n");
            i += 1;
        }
        proof {
            assert(nv.take(self.lines.len() as int) =~= nv);
        }
        out
    }
}

impl EquivResult {
    /// `true`, or `false counterexample:` with ` name=digit` per name.
    pub fn to_text(&self) -> (r: String)
        ensures
            r@ == equiv_text(self@),
    {
        if self.equivalent {
            return String::from_str("true");
        }
        let mut out = String::from_str("false counterexample:");
        match &self.counterexample {
            Some(values) => {
                let ghost o1 = out@;
                let ghost nv = names_view(self.vars@);
                let n = if self.vars.len() <= values.len() { self.vars.len() } else { values.len() };
                let mut i: usize = 0;
                while i < n
                    invariant
                        nv == names_view(self.vars@),
                        n <= self.vars.len(),
                        n <= values.len(),
                        i <= n,
                        out@ == o1 + assignment_text(nv, values@, i as nat),
                    decreases n - i,
                {
                    out.append(" ");
                    out.append(self.vars[i].as_str());
                    out.append("=");
                    out.append(digit_str(values[i]));
                    i += 1;
                }
            },
            None => {
                proof {
                    assert(out@ =~= out@ + Seq::<char>::empty());
                }
            },
        }
        out
    }
}

impl KMap {
    /// The map as text: a `KMAP` line, a column-label line, then the rows.
    pub fn to_text(&self) -> (r: String)
        ensures
            r@ == kmap_text(self@),
    {
        let mut out = String::from_str("KMAP ");
        append_joined(&mut out, &self.vars, " ");
        out.append("\n");
        proof {
            reveal_strlit("");
            assert(""@ =~= Seq::<char>::empty());
        }
        let ghost o0 = out@;
        append_joined(&mut out, &self.row_vars, "");
        out.append("\\");
        append_joined(&mut out, &self.col_vars, "");
        let ghost rows = self@.rows;
        let ghost o1 = out@;
        if self.rows.len() > 0 {
            let cols = &self.rows[0].1;
            let ghost cv = cells_view(cols@);
            proof {
                assert(rows[0].1 == cv);
                assert(cv.take(0) =~= Seq::<(Seq<char>, bool)>::empty());
                assert(o1 =~= o1 + cell_labels_text(cv.take(0)));
            }
            let mut j: usize = 0;
            while j < cols.len()
                invariant
                    cv == cells_view(cols@),
                    j <= cols.len(),
                    out@ == o1 + cell_labels_text(cv.take(j as int)),
                decreases cols.len() - j,
            {
                proof {
                    assert(cv.take(j + 1).drop_last() =~= cv.take(j as int));
                }
                out.append(" ");
                out.append(cols[j].0.as_str());
                j += 1;
            }
            proof {
                assert(cv.take(cols.len() as int) =~= cv);
            }
        } else {
            proof {
                assert(o1 =~= o1 + Seq::<char>::empty());
            }
        }
        out.append("\n");
        let ghost o2 = out@;
        let mut i: usize = 0;
        proof {
            assert(rows.take(0) =~= Seq::<(Seq<char>, Seq<(Seq<char>, bool)>)>::empty());
            assert(o2 =~= o2 + kmap_rows_text(rows.take(0)));
        }
        while i < self.rows.len()
            invariant
                rows == self@.rows,
                i <= self.rows.len(),
                out@ == o2 + kmap_rows_text(rows.take(i as int)),
            decreases self.rows.len() - i,
        {
            let cols = &self.rows[i].1;
            let ghost cv = cells_view(cols@);
            proof {
                assert(rows.take(i + 1).drop_last() =~= rows.take(i as int));
                assert(rows.take(i + 1).last() == (self.rows@[i as int].0@, cv));
            }
            out.append(self.rows[i].0.as_str());
            let ghost o3 = out@;
            let mut j: usize = 0;
            proof {
                assert(cv.take(0) =~= Seq::<(Seq<char>, bool)>::empty());
                assert(o3 =~= o3 + cell_values_text(cv.take(0)));
            }
            while j < cols.len()
                invariant
                    cv == cells_view(cols@),
                    j <= cols.len(),
                    out@ == o3 + cell_values_text(cv.take(j as int)),
                decreases cols.len() - j,
            {
                proof {
                    assert(cv.take(j + 1).drop_last() =~= cv.take(j as int));
                }
                out.append(" ");
                out.append(digit_str(cols[j].1));
                j += 1;
            }
            proof {
                assert(cv.take(cols.len() as int) =~= cv);
            }
            out.append("\n");
            i += 1;
        }
        proof {
            assert(rows.take(self.rows.len() as int) =~= rows);
            let head = if rows.len() == 0 { Seq::<char>::empty() } else { cell_labels_text(rows[0].1) };
            assert(o1 == o0 + joined(self@.row_vars, Seq::empty()) + "\\"@ + joined(self@.col_vars, Seq::empty()));
            assert(o2 == o1 + head + "\n"@);
            assert(out@ =~= kmap_text(self@));
        }
        out
    }
}

impl AdderResult {
    /// The name, then `name = expression` for each output.
    pub fn to_text(&self) -> (r: String)
        ensures
            r@ == adder_text(self@),
    {
        let mut out = self.name.clone();
        out.append("\n");
        let ghost o1 = out@;
        let ghost ov = self@.outputs;
        let mut i: usize = 0;
        proof {
            assert(ov.take(0) =~= Seq::<(Seq<char>, Term)>::empty());
            assert(o1 =~= o1 + outputs_text(ov.take(0)));
        }
        while i < self.outputs.len()
            invariant
                ov == self@.outputs,
                i <= self.outputs.len(),
                out@ == o1 + outputs_text(ov.take(i as int)),
            decreases self.outputs.len() - i,
        {
            proof {
                assert(ov.take(i + 1).drop_last() =~= ov.take(i as int));
            }
            out.append(self.outputs[i].0.as_str());
            out.append(" = ");
            self.outputs[i].1.write_to(&mut out);
            out.append("\n");
            i += 1;
        }
        proof {
            assert(ov.take(self.outputs.len() as int) =~= ov);
        }
        out
    }
}

} // verus!
