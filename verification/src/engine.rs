//! The unified reduction engine: eager numeric path, lazy symbolic
//! fallback, delayed binding, and a memoizing environment.

use vstd::prelude::*;
use crate::ast::{BinaryOp, Expr, Func, LogicOp, Term, rows_view, row_view, lemma_rows_view, lemma_row_view};
use crate::derive::derive_spec;
pub use crate::env::{Environment, EvalResult};
use crate::env::{EnvModel, Outcome, lookup, insert_sorted, remove_name, dec_rows_view, dec_row_view};
use crate::error::{EvalError, EvalResultT, Fault, same_outcome};
use crate::expand::{expand, expand_spec};
use crate::lambda::{reduce_lambda, reduce_lambda_spec};
use crate::logic::apply_logic;
use crate::matrix::{
    EntryMap, EntryMapExec, map_matrix, map_matrix_spec, matrix_matrix, matrix_matrix_spec, scalar_matrix,
    scalar_matrix_spec,
};
use crate::numeric::{
    Decimal, DecModel, add_model, sub_model, mul_model, bounded_div_model, neg_model, is_zero_model,
    integer_exponent_model, pow_int_model, as_integer_exponent, pow_int, bounded_div,
};
use crate::simplify::{simplify, simplify_spec};
use crate::parser::{parse, try_parse, parse_spec, is_blank};
use crate::lexer::lex_spec;
use crate::ast::render;
use crate::numeric::{bigdecimal_text, canonical, is_sum, is_difference, is_product, lemma_add_exact, lemma_sub_exact, lemma_mul_exact};

verus! {

/// Bound on nested reductions (a binding resolving through bindings, a
/// lambda's normal form reduced again, a matrix entry): the largest
/// `usize`, so no reduction that fits in memory reaches it. Passing it
/// would be `RewriteLimitExceeded`.
pub const MAX_REDUCE_DEPTH: usize = usize::MAX;

/// The model of an executable outcome.
pub open spec fn res_model(r: EvalResultT<EvalResult>) -> Result<Outcome, Fault> {
    match r {
        Ok(o) => Ok(o@),
        Err(e) => Err(e@),
    }
}

/// An outcome back as a term; a numeric matrix has no term.
pub open spec fn result_to_expr_spec(o: Outcome) -> Result<Term, Fault> {
    match o {
        Outcome::Numeric(n) => Ok(Term::Number(n)),
        Outcome::Bool(b) => Ok(Term::Bool(b)),
        Outcome::Symbolic(t) => Ok(t),
        Outcome::Lambda(t) => Ok(t),
        Outcome::Matrix(_) => Err(Fault::TypeMismatch("a matrix cannot appear inside a symbolic expression"@)),
    }
}

/// Every entry of the rows is a number.
pub open spec fn all_numbers(rows: Seq<Seq<Term>>) -> bool {
    forall|i: int, j: int| 0 <= i < rows.len() && 0 <= j < rows[i].len() ==> #[trigger] rows[i][j] is Number
}

pub open spec fn numbers_of(rows: Seq<Seq<Term>>) -> Seq<Seq<DecModel>> {
    rows.map_values(|r: Seq<Term>| r.map_values(|t: Term| t->Number_0))
}

/// Whether a reduced term is terminal (a number, a boolean, a numeric
/// matrix), a lambda, or symbolic.
pub open spec fn classify_spec(t: Term) -> Outcome {
    match t {
        Term::Number(n) => Outcome::Numeric(n),
        Term::Bool(b) => Outcome::Bool(b),
        Term::Matrix(rows) => if all_numbers(rows) {
            Outcome::Matrix(numbers_of(rows))
        } else {
            Outcome::Symbolic(t)
        },
        Term::Lambda(_, _) => Outcome::Lambda(t),
        _ => Outcome::Symbolic(t),
    }
}

/// Simplified, then classified.
pub open spec fn symbolic_spec(t: Term) -> Result<Outcome, Fault> {
    match simplify_spec(t) {
        Ok(s) => Ok(classify_spec(s)),
        Err(f) => Err(f),
    }
}

pub open spec fn num_out(o: Option<DecModel>) -> Result<Outcome, Fault> {
    match o {
        Some(v) => Ok(Outcome::Numeric(v)),
        None => Err(Fault::ExpressionTooLarge),
    }
}

pub open spec fn mat_out(r: Result<Seq<Seq<DecModel>>, Fault>) -> Result<Outcome, Fault> {
    match r {
        Ok(m) => Ok(Outcome::Matrix(m)),
        Err(f) => Err(f),
    }
}

/// Arithmetic on two numbers; a power with an exponent that is not an
/// integer (or zero to a negative power) stays symbolic.
pub open spec fn numeric_op_spec(op: BinaryOp, a: DecModel, b: DecModel) -> Result<Outcome, Fault> {
    match op {
        BinaryOp::Add => num_out(add_model(a, b)),
        BinaryOp::Sub => num_out(sub_model(a, b)),
        BinaryOp::Mul => num_out(mul_model(a, b)),
        BinaryOp::Div => if is_zero_model(b) {
            Err(Fault::DivisionByZero)
        } else {
            num_out(bounded_div_model(a, b))
        },
        BinaryOp::Pow => match integer_exponent_model(b) {
            Some(e) => if !(is_zero_model(a) && e < 0) {
                num_out(pow_int_model(a, e))
            } else {
                symbolic_spec(Term::Binary(BinaryOp::Pow, Box::new(Term::Number(a)), Box::new(Term::Number(b))))
            },
            None => symbolic_spec(Term::Binary(BinaryOp::Pow, Box::new(Term::Number(a)), Box::new(Term::Number(b)))),
        },
    }
}

/// Two reduced operands of an arithmetic operator.
pub open spec fn reduce_binary_spec(op: BinaryOp, lv: Outcome, rv: Outcome) -> Result<Outcome, Fault> {
    match (lv, rv) {
        (Outcome::Numeric(a), Outcome::Numeric(b)) => numeric_op_spec(op, a, b),
        (Outcome::Matrix(a), Outcome::Matrix(b)) => mat_out(matrix_matrix_spec(op, a, b)),
        (Outcome::Numeric(s), Outcome::Matrix(m)) => mat_out(scalar_matrix_spec(op, s, m)),
        (Outcome::Matrix(m), Outcome::Numeric(s)) => mat_out(scalar_matrix_spec(op, s, m)),
        (a, b) => match result_to_expr_spec(a) {
            Err(f) => Err(f),
            Ok(le) => match result_to_expr_spec(b) {
                Err(f) => Err(f),
                Ok(re) => symbolic_spec(Term::Binary(op, Box::new(le), Box::new(re))),
            },
        },
    }
}

/// Unary minus on a reduced operand.
pub open spec fn negate_outcome(o: Outcome) -> Result<Outcome, Fault> {
    match o {
        Outcome::Numeric(n) => Ok(Outcome::Numeric(neg_model(n))),
        Outcome::Matrix(m) => mat_out(map_matrix_spec(EntryMap::Negate, m)),
        Outcome::Bool(_) => Err(Fault::TypeMismatch("unary minus cannot be applied to a boolean"@)),
        Outcome::Symbolic(t) => symbolic_spec(Term::Neg(Box::new(t))),
        Outcome::Lambda(t) => symbolic_spec(Term::Neg(Box::new(t))),
    }
}

/// Logical negation of a reduced operand.
pub open spec fn invert_outcome(o: Outcome) -> Result<Outcome, Fault> {
    match o {
        Outcome::Bool(b) => Ok(Outcome::Bool(!b)),
        _ => match result_to_expr_spec(o) {
            Ok(t) => Ok(classify_spec(Term::Not(Box::new(t)))),
            Err(f) => Err(f),
        },
    }
}

/// A connective on two reduced operands.
pub open spec fn reduce_logic_spec(op: LogicOp, lv: Outcome, rv: Outcome) -> Result<Outcome, Fault> {
    match (lv, rv) {
        (Outcome::Bool(a), Outcome::Bool(b)) => Ok(Outcome::Bool(apply_logic(op, a, b))),
        (a, b) => match result_to_expr_spec(a) {
            Err(f) => Err(f),
            Ok(le) => match result_to_expr_spec(b) {
                Err(f) => Err(f),
                Ok(re) => Ok(classify_spec(Term::Logic(op, Box::new(le), Box::new(re)))),
            },
        },
    }
}

/// A function applied to a reduced argument.
pub open spec fn call_outcome(f: Func, o: Outcome) -> Result<Outcome, Fault> {
    match o {
        Outcome::Matrix(_) => Err(Fault::TypeMismatch("function applied to a matrix"@)),
        _ => match result_to_expr_spec(o) {
            Ok(t) => symbolic_spec(Term::Call(f, Box::new(t))),
            Err(x) => Err(x),
        },
    }
}

pub open spec fn with_resolving(e: EnvModel, r: Seq<Seq<char>>) -> EnvModel {
    EnvModel { vars: e.vars, cache: e.cache, resolving: r }
}

pub open spec fn remember_model(e: EnvModel, name: Seq<char>, o: Outcome) -> EnvModel {
    EnvModel { vars: e.vars, cache: seq![(name, o)] + e.cache, resolving: e.resolving }
}

pub open spec fn store_model(e: EnvModel, name: Seq<char>, v: Term) -> EnvModel {
    EnvModel { vars: insert_sorted(e.vars, name, v), cache: Seq::empty(), resolving: e.resolving }
}

pub open spec fn then_outcome(r: Result<Outcome, Fault>, k: spec_fn(Outcome) -> Result<Outcome, Fault>) -> Result<Outcome, Fault> {
    match r {
        Ok(o) => k(o),
        Err(f) => Err(f),
    }
}

/// Reduction of a term against the environment, at most `fuel` levels
/// deep: the outcome and the environment afterwards.
pub open spec fn reduce_spec(t: Term, e: EnvModel, fuel: nat) -> (Result<Outcome, Fault>, EnvModel)
    decreases fuel, 0nat, 0nat,
{
    if fuel == 0 {
        (Err(Fault::RewriteLimitExceeded), e)
    } else {
        let f = (fuel - 1) as nat;
        match t {
            Term::Number(n) => (Ok(Outcome::Numeric(n)), e),
            Term::Bool(b) => (Ok(Outcome::Bool(b)), e),
            Term::Variable(name) => match lookup(e.cache, name) {
                Some(o) => (Ok(o), e),
                None => if e.resolving.contains(name) {
                    (Ok(Outcome::Symbolic(t)), e)
                } else {
                    match lookup(e.vars, name) {
                        Some(b) => {
                            let (r, e2) = reduce_spec(b, with_resolving(e, e.resolving.push(name)), f);
                            let e3 = with_resolving(e2, remove_name(e2.resolving, name));
                            match r {
                                Ok(o) => (Ok(o), remember_model(e3, name, o)),
                                Err(x) => (Err(x), e3),
                            }
                        },
                        None => (Ok(Outcome::Symbolic(t)), e),
                    }
                },
            },
            Term::Matrix(rows) => {
                let (r, e2) = reduce_rows_spec(rows, e, f);
                (mat_out(r), e2)
            },
            Term::Neg(x) => {
                let (r, e2) = reduce_spec(*x, e, f);
                (then_outcome(r, |o: Outcome| negate_outcome(o)), e2)
            },
            Term::Not(x) => {
                let (r, e2) = reduce_spec(*x, e, f);
                (then_outcome(r, |o: Outcome| invert_outcome(o)), e2)
            },
            Term::Call(g, a) => {
                let (r, e2) = reduce_spec(*a, e, f);
                (then_outcome(r, |o: Outcome| call_outcome(g, o)), e2)
            },
            Term::Binary(op, l, r) => {
                let (a, e1) = reduce_spec(*l, e, f);
                match a {
                    Err(x) => (Err(x), e1),
                    Ok(lv) => {
                        let (b, e2) = reduce_spec(*r, e1, f);
                        (then_outcome(b, |rv: Outcome| reduce_binary_spec(op, lv, rv)), e2)
                    },
                }
            },
            Term::Logic(op, l, r) => {
                let (a, e1) = reduce_spec(*l, e, f);
                match a {
                    Err(x) => (Err(x), e1),
                    Ok(lv) => {
                        let (b, e2) = reduce_spec(*r, e1, f);
                        (then_outcome(b, |rv: Outcome| reduce_logic_spec(op, lv, rv)), e2)
                    },
                }
            },
            Term::Lambda(_, _) | Term::Apply(_, _) => match reduce_lambda_spec(t, e.vars) {
                Err(()) => (Err(Fault::RewriteLimitExceeded), e),
                Ok(nf) => match nf {
                    Term::Lambda(_, _) => (
                        match simplify_spec(nf) {
                            Ok(s) => Ok(Outcome::Lambda(s)),
                            Err(x) => Err(x),
                        },
                        e,
                    ),
                    Term::Apply(_, _) => (symbolic_spec(nf), e),
                    _ => reduce_spec(nf, e, f),
                },
            },
            Term::Assign(name, rhs) => {
                let (r, e1) = reduce_spec(*rhs, e, f);
                match r {
                    Err(x) => (Err(x), e1),
                    Ok(v) => match result_to_expr_spec(v) {
                        Err(x) => (Err(x), e1),
                        Ok(te) => (Ok(v), store_model(e1, name, te)),
                    },
                }
            },
            Term::Simplify(x) => (symbolic_spec(*x), e),
            Term::Expand(x) => (
                match expand_spec(*x) {
                    Ok(y) => symbolic_spec(y),
                    Err(x) => Err(x),
                },
                e,
            ),
            Term::Derive(v, x) => (
                match derive_spec(v, *x) {
                    Ok(d) => symbolic_spec(d),
                    Err(x) => Err(x),
                },
                e,
            ),
        }
    }
}

/// One entry of a matrix literal, which must come out a number.
pub open spec fn reduce_entry_spec(t: Term, e: EnvModel, fuel: nat) -> (Result<DecModel, Fault>, EnvModel)
    decreases fuel, 1nat, 0nat,
{
    let (r, e2) = reduce_spec(t, e, fuel);
    (
        match r {
            Ok(Outcome::Numeric(n)) => Ok(n),
            Ok(_) => Err(Fault::TypeMismatch("matrix elements must be numeric"@)),
            Err(x) => Err(x),
        },
        e2,
    )
}

/// The entries of a matrix literal reduced left to right.
pub open spec fn reduce_row_spec(row: Seq<Term>, e: EnvModel, fuel: nat) -> (Result<Seq<DecModel>, Fault>, EnvModel)
    decreases fuel, 2nat, row.len(),
{
    if row.len() == 0 {
        (Ok(Seq::empty()), e)
    } else {
        let (p, e1) = reduce_row_spec(row.drop_last(), e, fuel);
        match p {
            Err(x) => (Err(x), e1),
            Ok(vals) => {
                let (r, e2) = reduce_entry_spec(row.last(), e1, fuel);
                match r {
                    Ok(n) => (Ok(vals.push(n)), e2),
                    Err(x) => (Err(x), e2),
                }
            },
        }
    }
}

pub open spec fn reduce_rows_spec(rows: Seq<Seq<Term>>, e: EnvModel, fuel: nat) -> (Result<Seq<Seq<DecModel>>, Fault>, EnvModel)
    decreases fuel, 3nat, rows.len(),
{
    if rows.len() == 0 {
        (Ok(Seq::empty()), e)
    } else {
        let (p, e1) = reduce_rows_spec(rows.drop_last(), e, fuel);
        match p {
            Err(x) => (Err(x), e1),
            Ok(done) => {
                let (r, e2) = reduce_row_spec(rows.last(), e1, fuel);
                match r {
                    Ok(vals) => (Ok(done.push(vals)), e2),
                    Err(x) => (Err(x), e2),
                }
            },
        }
    }
}

// ---------------------------------------------------------------------------
// Bridging between outcomes and expressions.
// ---------------------------------------------------------------------------

fn mismatch<T>(msg: &str) -> (r: EvalResultT<T>)
    ensures
        r matches Err(e) && e@ == Fault::TypeMismatch(msg@),
{
    Err(EvalError::TypeMismatch(String::from_str(msg)))
}

fn result_to_expr(o: EvalResult) -> (r: EvalResultT<Expr>)
    ensures
        same_outcome(r, result_to_expr_spec(o@)),
{
    match o {
        EvalResult::Numeric(n) => Ok(Expr::num(n)),
        EvalResult::Bool(b) => Ok(Expr::Bool(b)),
        EvalResult::Symbolic(e) => Ok(*e),
        EvalResult::Lambda(e) => Ok(*e),
        EvalResult::Matrix(_) => mismatch("a matrix cannot appear inside a symbolic expression"),
    }
}

fn all_number_entries(rows: &Vec<Vec<Expr>>) -> (r: bool)
    ensures
        r == all_numbers(rows_view(rows@)),
{
    let ghost rv = rows_view(rows@);
    proof {
        lemma_rows_view(rows@);
    }
    let mut i: usize = 0;
    while i < rows.len()
        invariant
            rv == rows_view(rows@),
            rv.len() == rows.len(),
            forall|k: int| 0 <= k < rows.len() ==> #[trigger] rv[k] == row_view(rows@[k]@),
            i <= rows.len(),
            forall|a: int, b: int| 0 <= a < i && 0 <= b < rv[a].len() ==> #[trigger] rv[a][b] is Number,
        decreases rows.len() - i,
    {
        let row = &rows[i];
        proof {
            lemma_row_view(row@);
        }
        let mut j: usize = 0;
        while j < row.len()
            invariant
                rv == rows_view(rows@),
                rv.len() == rows.len(),
                i < rows.len(),
                *row == rows@[i as int],
                rv[i as int] == row_view(row@),
                row_view(row@).len() == row.len(),
                forall|k: int| 0 <= k < row.len() ==> #[trigger] row_view(row@)[k] == crate::ast::expr_view(row@[k]),
                j <= row.len(),
                forall|a: int, b: int| 0 <= a < i && 0 <= b < rv[a].len() ==> #[trigger] rv[a][b] is Number,
                forall|b: int| 0 <= b < j ==> #[trigger] rv[i as int][b] is Number,
            decreases row.len() - j,
        {
            match &row[j] {
                Expr::Number(_) => {},
                _ => {
                    proof {
                        assert(!(rv[i as int][j as int] is Number));
                    }
                    return false;
                },
            }
            j += 1;
        }
        i += 1;
    }
    true
}

fn numbers_in(rows: &Vec<Vec<Expr>>) -> (r: Vec<Vec<Decimal>>)
    requires
        all_numbers(rows_view(rows@)),
    ensures
        dec_rows_view(r@) == numbers_of(rows_view(rows@)),
{
    let ghost rv = rows_view(rows@);
    proof {
        lemma_rows_view(rows@);
    }
    let mut out: Vec<Vec<Decimal>> = Vec::new();
    let mut i: usize = 0;
    while i < rows.len()
        invariant
            rv == rows_view(rows@),
            all_numbers(rv),
            rv.len() == rows.len(),
            forall|k: int| 0 <= k < rows.len() ==> #[trigger] rv[k] == row_view(rows@[k]@),
            i <= rows.len(),
            dec_rows_view(out@) == numbers_of(rv).take(i as int),
        decreases rows.len() - i,
    {
        let row = &rows[i];
        proof {
            lemma_row_view(row@);
        }
        let mut nr: Vec<Decimal> = Vec::new();
        let mut j: usize = 0;
        while j < row.len()
            invariant
                rv == rows_view(rows@),
                all_numbers(rv),
                rv.len() == rows.len(),
                i < rows.len(),
                *row == rows@[i as int],
                rv[i as int] == row_view(row@),
                row_view(row@).len() == row.len(),
                forall|k: int| 0 <= k < row.len() ==> #[trigger] row_view(row@)[k] == crate::ast::expr_view(row@[k]),
                j <= row.len(),
                dec_row_view(nr@) == numbers_of(rv)[i as int].take(j as int),
                dec_rows_view(out@) == numbers_of(rv).take(i as int),
            decreases row.len() - j,
        {
            proof {
                assert(rv[i as int][j as int] is Number);
            }
            match &row[j] {
                Expr::Number(n) => {
                    let ghost n0 = dec_row_view(nr@);
                    nr.push(n.copy());
                    proof {
                        assert(row_view(row@)[j as int] == Term::Number(n@));
                        assert(numbers_of(rv)[i as int] == rv[i as int].map_values(|t: Term| t->Number_0));
                        assert(numbers_of(rv)[i as int][j as int] == n@);
                        assert(dec_row_view(nr@) =~= n0.push(n@));
                        assert(numbers_of(rv)[i as int].take(j + 1) =~= numbers_of(rv)[i as int].take(j as int).push(n@));
                    }
                },
                _ => {},
            }
            j += 1;
        }
        let ghost o0 = dec_rows_view(out@);
        let ghost nv = dec_row_view(nr@);
        out.push(nr);
        proof {
            assert(numbers_of(rv)[i as int] == rv[i as int].map_values(|t: Term| t->Number_0));
            assert(numbers_of(rv)[i as int].take(row.len() as int) =~= numbers_of(rv)[i as int]);
            assert(nv =~= numbers_of(rv)[i as int]);
            assert(dec_rows_view(out@) =~= o0.push(nv));
            assert(numbers_of(rv).take(i + 1) =~= numbers_of(rv).take(i as int).push(numbers_of(rv)[i as int]));
        }
        i += 1;
    }
    proof {
        assert(numbers_of(rv).take(rows.len() as int) =~= numbers_of(rv));
    }
    out
}

/// Decides whether a reduced expression is terminal or symbolic.
fn classify(e: Expr) -> (r: EvalResult)
    ensures
        r@ == classify_spec(e@),
{
    match e {
        Expr::Number(n) => EvalResult::Numeric(n),
        Expr::Bool(b) => EvalResult::Bool(b),
        Expr::Matrix(rows) => {
            if all_number_entries(&rows) {
                EvalResult::Matrix(numbers_in(&rows))
            } else {
                EvalResult::Symbolic(Box::new(Expr::Matrix(rows)))
            }
        },
        Expr::Lambda(p, b) => EvalResult::Lambda(Box::new(Expr::Lambda(p, b))),
        other => EvalResult::Symbolic(Box::new(other)),
    }
}

/// Simplifies, then classifies.
fn symbolic(e: Expr) -> (r: EvalResultT<EvalResult>)
    ensures
        res_model(r) == symbolic_spec(e@),
{
    match simplify(e) {
        Ok(s) => Ok(classify(s)),
        Err(x) => Err(x),
    }
}

fn num_result(o: Option<Decimal>) -> (r: EvalResultT<EvalResult>)
    ensures
        res_model(r) == num_out(crate::numeric::opt_model(o)),
{
    match o {
        Some(v) => Ok(EvalResult::Numeric(v)),
        None => Err(EvalError::ExpressionTooLarge),
    }
}

fn mat_result(r: EvalResultT<Vec<Vec<Decimal>>>) -> (res: EvalResultT<EvalResult>)
    ensures
        r matches Ok(m) ==> res_model(res) == Ok::<Outcome, Fault>(Outcome::Matrix(dec_rows_view(m@))),
        r matches Err(e) ==> res_model(res) == Err::<Outcome, Fault>(e@),
{
    match r {
        Ok(m) => Ok(EvalResult::Matrix(m)),
        Err(x) => Err(x),
    }
}

fn numeric_op(op: BinaryOp, a: Decimal, b: Decimal) -> (r: EvalResultT<EvalResult>)
    ensures
        res_model(r) == numeric_op_spec(op, a@, b@),
{
    match op {
        BinaryOp::Add => num_result(a.add(&b)),
        BinaryOp::Sub => num_result(a.sub(&b)),
        BinaryOp::Mul => num_result(a.mul(&b)),
        BinaryOp::Div => {
            if b.is_zero() {
                return Err(EvalError::DivisionByZero);
            }
            num_result(bounded_div(&a, &b))
        },
        BinaryOp::Pow => {
            match as_integer_exponent(&b) {
                Some(e) => {
                    if !(a.is_zero() && e < 0) {
                        return num_result(pow_int(&a, e));
                    }
                },
                None => {},
            }
            symbolic(Expr::binary(BinaryOp::Pow, Expr::num(a), Expr::num(b)))
        },
    }
}

fn reduce_binary(op: BinaryOp, lv: EvalResult, rv: EvalResult) -> (r: EvalResultT<EvalResult>)
    ensures
        res_model(r) == reduce_binary_spec(op, lv@, rv@),
{
    match (lv, rv) {
        (EvalResult::Numeric(a), EvalResult::Numeric(b)) => numeric_op(op, a, b),
        (EvalResult::Matrix(a), EvalResult::Matrix(b)) => mat_result(matrix_matrix(op, &a, &b)),
        (EvalResult::Numeric(s), EvalResult::Matrix(m)) => mat_result(scalar_matrix(op, &s, &m)),
        (EvalResult::Matrix(m), EvalResult::Numeric(s)) => mat_result(scalar_matrix(op, &s, &m)),
        (a, b) => {
            let le = match result_to_expr(a) {
                Ok(x) => x,
                Err(x) => return Err(x),
            };
            let re = match result_to_expr(b) {
                Ok(x) => x,
                Err(x) => return Err(x),
            };
            symbolic(Expr::binary(op, le, re))
        },
    }
}

fn negate_result(o: EvalResult) -> (r: EvalResultT<EvalResult>)
    ensures
        res_model(r) == negate_outcome(o@),
{
    match o {
        EvalResult::Numeric(n) => Ok(EvalResult::Numeric(n.neg())),
        EvalResult::Matrix(m) => mat_result(map_matrix(&m, &EntryMapExec::Negate)),
        EvalResult::Bool(_) => mismatch("unary minus cannot be applied to a boolean"),
        EvalResult::Symbolic(t) => symbolic(Expr::negate(*t)),
        EvalResult::Lambda(t) => symbolic(Expr::negate(*t)),
    }
}

fn invert_result(o: EvalResult) -> (r: EvalResultT<EvalResult>)
    ensures
        res_model(r) == invert_outcome(o@),
{
    match o {
        EvalResult::Bool(b) => Ok(EvalResult::Bool(!b)),
        other => match result_to_expr(other) {
            Ok(t) => Ok(classify(Expr::not(t))),
            Err(x) => Err(x),
        },
    }
}

fn reduce_logic(op: LogicOp, lv: EvalResult, rv: EvalResult) -> (r: EvalResultT<EvalResult>)
    ensures
        res_model(r) == reduce_logic_spec(op, lv@, rv@),
{
    match (lv, rv) {
        (EvalResult::Bool(a), EvalResult::Bool(b)) => {
            let v = match op {
                LogicOp::And => a && b,
                LogicOp::Or => a || b,
                LogicOp::Xor => a != b,
                LogicOp::Nand => !(a && b),
                LogicOp::Nor => !(a || b),
            };
            Ok(EvalResult::Bool(v))
        },
        (a, b) => {
            let le = match result_to_expr(a) {
                Ok(x) => x,
                Err(x) => return Err(x),
            };
            let re = match result_to_expr(b) {
                Ok(x) => x,
                Err(x) => return Err(x),
            };
            Ok(classify(Expr::logic(op, le, re)))
        },
    }
}

fn call_result(f: Func, o: EvalResult) -> (r: EvalResultT<EvalResult>)
    ensures
        res_model(r) == call_outcome(f, o@),
{
    match o {
        EvalResult::Matrix(_) => mismatch("function applied to a matrix"),
        other => match result_to_expr(other) {
            Ok(t) => symbolic(Expr::call(f, t)),
            Err(x) => Err(x),
        },
    }
}

// ---------------------------------------------------------------------------
// Reduction.
// ---------------------------------------------------------------------------

pub open spec fn mat_res_model(r: EvalResultT<Vec<Vec<Decimal>>>) -> Result<Seq<Seq<DecModel>>, Fault> {
    match r {
        Ok(m) => Ok(dec_rows_view(m@)),
        Err(e) => Err(e@),
    }
}

/// One entry of a matrix literal.
fn reduce_entry(el: &Expr, env: &mut Environment, fuel: usize) -> (r: EvalResultT<Decimal>)
    ensures
        reduce_entry_spec(el@, old(env)@, fuel as nat) == (
            match r {
                Ok(d) => Ok::<DecModel, Fault>(d@),
                Err(x) => Err::<DecModel, Fault>(x@),
            },
            final(env)@,
        ),
    decreases fuel, 2nat,
{
    match reduce_with(el, env, fuel) {
        Ok(EvalResult::Numeric(n)) => Ok(n),
        Ok(_) => mismatch("matrix elements must be numeric"),
        Err(x) => Err(x),
    }
}

/// Reduces the first `k` entries of one row of a matrix literal.
fn reduce_row(row: &Vec<Expr>, k: usize, env: &mut Environment, fuel: usize) -> (r: EvalResultT<Vec<Decimal>>)
    requires
        k <= row.len(),
    ensures
        reduce_row_spec(row_view(row@).take(k as int), old(env)@, fuel as nat) == (
            match r {
                Ok(v) => Ok::<Seq<DecModel>, Fault>(dec_row_view(v@)),
                Err(x) => Err::<Seq<DecModel>, Fault>(x@),
            },
            final(env)@,
        ),
    decreases fuel, 3nat, k,
{
    let ghost tv = row_view(row@);
    proof {
        lemma_row_view(row@);
    }
    if k == 0 {
        proof {
            assert(tv.take(0) =~= Seq::<Term>::empty());
        }
        let v: Vec<Decimal> = Vec::new();
        proof {
            assert(dec_row_view(v@) =~= Seq::<DecModel>::empty());
        }
        return Ok(v);
    }
    let ghost tk = tv.take(k as int);
    proof {
        assert(tk.drop_last() =~= tv.take(k - 1));
        assert(tk.last() == row@[k - 1]@);
    }
    let mut p = match reduce_row(row, k - 1, env, fuel) {
        Ok(p) => p,
        Err(x) => return Err(x),
    };
    let n = match reduce_entry(&row[k - 1], env, fuel) {
        Ok(n) => n,
        Err(x) => return Err(x),
    };
    let ghost p0 = dec_row_view(p@);
    let ghost nv = n@;
    p.push(n);
    proof {
        assert(dec_row_view(p@) =~= p0.push(nv));
    }
    Ok(p)
}

/// Reduces the entries of the first `k` rows of a matrix literal.
fn reduce_rows(rows: &Vec<Vec<Expr>>, k: usize, env: &mut Environment, fuel: usize) -> (r: EvalResultT<Vec<Vec<Decimal>>>)
    requires
        k <= rows.len(),
    ensures
        reduce_rows_spec(rows_view(rows@).take(k as int), old(env)@, fuel as nat) == (mat_res_model(r), final(env)@),
    decreases fuel, 4nat, k,
{
    let ghost rv = rows_view(rows@);
    proof {
        lemma_rows_view(rows@);
    }
    if k == 0 {
        proof {
            assert(rv.take(0) =~= Seq::<Seq<Term>>::empty());
        }
        let v: Vec<Vec<Decimal>> = Vec::new();
        proof {
            assert(dec_rows_view(v@) =~= Seq::<Seq<DecModel>>::empty());
        }
        return Ok(v);
    }
    let ghost rk = rv.take(k as int);
    proof {
        assert(rk.drop_last() =~= rv.take(k - 1));
        assert(rk.last() == row_view(rows@[k - 1]@));
        lemma_row_view(rows@[k - 1]@);
        assert(row_view(rows@[k - 1]@).take(rows@[k - 1]@.len() as int) =~= row_view(rows@[k - 1]@));
    }
    let mut p = match reduce_rows(rows, k - 1, env, fuel) {
        Ok(p) => p,
        Err(x) => return Err(x),
    };
    let nr = match reduce_row(&rows[k - 1], rows[k - 1].len(), env, fuel) {
        Ok(n) => n,
        Err(x) => return Err(x),
    };
    let ghost p0 = dec_rows_view(p@);
    let ghost nv = dec_row_view(nr@);
    p.push(nr);
    proof {
        assert(dec_rows_view(p@) =~= p0.push(nv));
    }
    Ok(p)
}

fn reduce_with(expr: &Expr, env: &mut Environment, fuel: usize) -> (r: EvalResultT<EvalResult>)
    ensures
        (res_model(r), final(env)@) == reduce_spec(expr@, old(env)@, fuel as nat),
    decreases fuel, 1nat,
{
    if fuel == 0 {
        return Err(EvalError::RewriteLimitExceeded);
    }
    let f = fuel - 1;
    match expr {
        Expr::Number(n) => Ok(EvalResult::Numeric(n.copy())),
        Expr::Bool(b) => Ok(EvalResult::Bool(*b)),
        Expr::Variable(name) => {
            if let Some(c) = env.cached(name.as_str()) {
                return Ok(c);
            }
            if env.is_resolving(name.as_str()) {
                return Ok(EvalResult::Symbolic(Box::new(Expr::Variable(name.clone()))));
            }
            let bound = match env.get(name.as_str()) {
                Some(b) => b.copy(),
                None => {
                    return Ok(EvalResult::Symbolic(Box::new(Expr::Variable(name.clone()))));
                },
            };
            env.begin_resolving(name.clone());
            let res = reduce_with(&bound, env, f);
            env.end_resolving(name.as_str());
            match res {
                Ok(o) => {
                    env.remember(name.clone(), o.copy());
                    Ok(o)
                },
                Err(x) => Err(x),
            }
        },
        Expr::Matrix(rows) => {
            proof {
                lemma_rows_view(rows@);
                assert(rows_view(rows@).take(rows.len() as int) =~= rows_view(rows@));
            }
            mat_result(reduce_rows(rows, rows.len(), env, f))
        },
        Expr::Neg(x) => match reduce_with(x, env, f) {
            Ok(o) => negate_result(o),
            Err(x) => Err(x),
        },
        Expr::Not(x) => match reduce_with(x, env, f) {
            Ok(o) => invert_result(o),
            Err(x) => Err(x),
        },
        Expr::Call(g, a) => match reduce_with(a, env, f) {
            Ok(o) => call_result(*g, o),
            Err(x) => Err(x),
        },
        Expr::Binary(op, l, r) => {
            let lv = match reduce_with(l, env, f) {
                Ok(o) => o,
                Err(x) => return Err(x),
            };
            match reduce_with(r, env, f) {
                Ok(rv) => reduce_binary(*op, lv, rv),
                Err(x) => Err(x),
            }
        },
        Expr::Logic(op, l, r) => {
            let lv = match reduce_with(l, env, f) {
                Ok(o) => o,
                Err(x) => return Err(x),
            };
            match reduce_with(r, env, f) {
                Ok(rv) => reduce_logic(*op, lv, rv),
                Err(x) => Err(x),
            }
        },
        Expr::Lambda(_, _) | Expr::Apply(_, _) => {
            let nf = match reduce_lambda(expr.copy(), env) {
                Ok(n) => n,
                Err(x) => return Err(x),
            };
            match nf {
                Expr::Lambda(p, b) => match simplify(Expr::Lambda(p, b)) {
                    Ok(s) => Ok(EvalResult::Lambda(Box::new(s))),
                    Err(x) => Err(x),
                },
                Expr::Apply(g, a) => symbolic(Expr::Apply(g, a)),
                other => reduce_with(&other, env, f),
            }
        },
        Expr::Assign(name, rhs) => {
            let v = match reduce_with(rhs, env, f) {
                Ok(o) => o,
                Err(x) => return Err(x),
            };
            let te = match result_to_expr(v.copy()) {
                Ok(t) => t,
                Err(x) => return Err(x),
            };
            env.store(name.clone(), te);
            Ok(v)
        },
        Expr::Simplify(x) => symbolic(x.copy()),
        Expr::Expand(x) => match expand(x) {
            Ok(y) => symbolic(y),
            Err(e) => Err(e),
        },
        Expr::Derive(v, x) => match crate::derive::derive(v.as_str(), x) {
            Ok(d) => symbolic(d),
            Err(e) => Err(e),
        },
    }
}

/// Reduces `expr` against `env`: the single entry point of the engine.
pub fn reduce(expr: &Expr, env: &mut Environment) -> (r: EvalResultT<EvalResult>)
    ensures
        (res_model(r), final(env)@) == reduce_spec(expr@, old(env)@, MAX_REDUCE_DEPTH as nat),
{
    reduce_with(expr, env, MAX_REDUCE_DEPTH)
}

/// Parses one line of source and reduces it against `env`. Source text
/// with no token is not accepted (use [`try_eval`]).
pub fn eval(src: &str, env: &mut Environment) -> (r: EvalResultT<EvalResult>)
    requires
        lex_spec(src@) matches Ok(ts) ==> ts.len() > 1,
    ensures
        match parse_spec(src@) {
            Ok(t) => (res_model(r), final(env)@) == reduce_spec(t, old(env)@, MAX_REDUCE_DEPTH as nat),
            Err(f) => res_model(r) == Err::<Outcome, Fault>(f) && final(env)@ == old(env)@,
        },
{
    let expr = match parse(src) {
        Ok(e) => e,
        Err(x) => return Err(x),
    };
    reduce(&expr, env)
}

/// Evaluation of source text: nothing for text with no token, else the
/// parse error or the reduction's outcome, and the environment after it.
pub open spec fn try_eval_spec(src: Seq<char>, e: EnvModel) -> (Option<Result<Outcome, Fault>>, EnvModel) {
    if is_blank(src) {
        (None, e)
    } else {
        match parse_spec(src) {
            Ok(t) => {
                let (r, e2) = reduce_spec(t, e, MAX_REDUCE_DEPTH as nat);
                (Some(r), e2)
            },
            Err(f) => (Some(Err(f)), e),
        }
    }
}

pub open spec fn opt_res_model(r: Option<EvalResultT<EvalResult>>) -> Option<Result<Outcome, Fault>> {
    match r {
        Some(x) => Some(res_model(x)),
        None => None,
    }
}

/// Like [`eval`], or `None` (the environment untouched) for source text
/// with no token.
pub fn try_eval(src: &str, env: &mut Environment) -> (r: Option<EvalResultT<EvalResult>>)
    ensures
        (opt_res_model(r), final(env)@) == try_eval_spec(src@, old(env)@),
{
    match try_parse(src) {
        None => None,
        Some(Err(x)) => Some(Err(x)),
        Some(Ok(expr)) => Some(reduce(&expr, env)),
    }
}

// ---------------------------------------------------------------------------
// Text of outcomes.
// ---------------------------------------------------------------------------

/// The entries of a numeric row, separated by `", "`.
pub open spec fn numbers_text(row: Seq<DecModel>) -> Seq<char>
    decreases row.len(),
{
    if row.len() == 0 {
        Seq::empty()
    } else if row.len() == 1 {
        bigdecimal_text(row[0])
    } else {
        numbers_text(row.drop_last()) + ", "@ + bigdecimal_text(row.last())
    }
}

/// The rows of a numeric matrix, separated by `"; "`.
pub open spec fn matrix_text(rows: Seq<Seq<DecModel>>) -> Seq<char>
    decreases rows.len(),
{
    if rows.len() == 0 {
        Seq::empty()
    } else if rows.len() == 1 {
        numbers_text(rows[0])
    } else {
        matrix_text(rows.drop_last()) + "; "@ + numbers_text(rows.last())
    }
}

/// The text of an outcome.
pub open spec fn outcome_text(o: Outcome) -> Seq<char> {
    match o {
        Outcome::Numeric(n) => bigdecimal_text(n),
        Outcome::Bool(b) => if b { "true"@ } else { "false"@ },
        Outcome::Matrix(rows) => "["@ + matrix_text(rows) + "]"@,
        Outcome::Symbolic(t) => render(t),
        Outcome::Lambda(t) => render(t),
    }
}

impl EvalResult {
    /// The text of the result: numbers normalized, matrices as
    /// `[a, b; c, d]`, expressions fully parenthesized.
    pub fn to_text(&self) -> (r: String)
        ensures
            r@ == outcome_text(self@),
    {
        match self {
            EvalResult::Numeric(n) => n.to_text(),
            EvalResult::Bool(b) => if *b {
                String::from_str("true")
            } else {
                String::from_str("false")
            },
            EvalResult::Matrix(rows) => {
                let mut out = String::from_str("[");
                let ghost o1 = out@;
                let ghost mv = dec_rows_view(rows@);
                let mut i: usize = 0;
                proof {
                    assert(mv.take(0) =~= Seq::<Seq<DecModel>>::empty());
                    assert(o1 =~= o1 + matrix_text(mv.take(0)));
                }
                while i < rows.len()
                    invariant
                        mv == dec_rows_view(rows@),
                        i <= rows.len(),
                        out@ == o1 + matrix_text(mv.take(i as int)),
                    decreases rows.len() - i,
                {
                    let row = &rows[i];
                    let ghost rv = dec_row_view(row@);
                    proof {
                        assert(mv[i as int] == rv);
                        assert(mv.take(i + 1).drop_last() =~= mv.take(i as int));
                        assert(mv.take(i + 1).last() == rv);
                    }
                    if i > 0 {
                        out.append("; ");
                    }
                    let ghost o2 = out@;
                    proof {
                        assert(rv.take(0) =~= Seq::<DecModel>::empty());
                        assert(o2 =~= o2 + numbers_text(rv.take(0)));
                    }
                    let mut j: usize = 0;
                    while j < row.len()
                        invariant
                            rv == dec_row_view(row@),
                            j <= row.len(),
                            out@ == o2 + numbers_text(rv.take(j as int)),
                        decreases row.len() - j,
                    {
                        proof {
                            assert(rv.take(j + 1).drop_last() =~= rv.take(j as int));
                            assert(rv.take(j + 1).last() == row@[j as int]@);
                            if j == 0 {
                                assert(rv.take(1) =~= seq![row@[0]@]);
                            }
                        }
                        if j > 0 {
                            out.append(", ");
                        }
                        let t = row[j].to_text();
                        out.append(t.as_str());
                        j += 1;
                    }
                    proof {
                        assert(rv.take(row.len() as int) =~= rv);
                        if i == 0 {
                            assert(mv.take(1) =~= seq![rv]);
                        }
                    }
                    i += 1;
                }
                proof {
                    assert(mv.take(rows.len() as int) =~= mv);
                }
                out.append("]");
                out
            },
            EvalResult::Symbolic(e) => e.to_text(),
            EvalResult::Lambda(e) => e.to_text(),
        }
    }
}

// ---------------------------------------------------------------------------
// Laws.
// ---------------------------------------------------------------------------

/// Reduction keeps the bindings sorted by name.
pub proof fn lemma_reduce_keeps_sorted(t: Term, e: EnvModel, fuel: nat)
    requires
        crate::env::keys_sorted(e.vars),
    ensures
        crate::env::keys_sorted(reduce_spec(t, e, fuel).1.vars),
    decreases fuel, 0nat, 0nat,
{
    if fuel > 0 {
        let f = (fuel - 1) as nat;
        match t {
            Term::Variable(name) => {
                if lookup(e.cache, name) is None && !e.resolving.contains(name) {
                    if let Some(b) = lookup(e.vars, name) {
                        lemma_reduce_keeps_sorted(b, with_resolving(e, e.resolving.push(name)), f);
                    }
                }
            },
            Term::Matrix(rows) => {
                lemma_rows_keep_sorted(rows, e, f);
            },
            Term::Neg(x) => {
                lemma_reduce_keeps_sorted(*x, e, f);
            },
            Term::Not(x) => {
                lemma_reduce_keeps_sorted(*x, e, f);
            },
            Term::Call(_, a) => {
                lemma_reduce_keeps_sorted(*a, e, f);
            },
            Term::Binary(_, l, r) => {
                lemma_reduce_keeps_sorted(*l, e, f);
                lemma_reduce_keeps_sorted(*r, reduce_spec(*l, e, f).1, f);
            },
            Term::Logic(_, l, r) => {
                lemma_reduce_keeps_sorted(*l, e, f);
                lemma_reduce_keeps_sorted(*r, reduce_spec(*l, e, f).1, f);
            },
            Term::Lambda(_, _) | Term::Apply(_, _) => {
                if let Ok(nf) = reduce_lambda_spec(t, e.vars) {
                    lemma_reduce_keeps_sorted(nf, e, f);
                }
            },
            Term::Assign(name, rhs) => {
                lemma_reduce_keeps_sorted(*rhs, e, f);
                let (r, e1) = reduce_spec(*rhs, e, f);
                if let Ok(v) = r {
                    if let Ok(te) = result_to_expr_spec(v) {
                        crate::env::lemma_insert_sorted_sorted(e1.vars, name, te);
                    }
                }
            },
            _ => {},
        }
    }
}

proof fn lemma_entry_keeps_sorted(t: Term, e: EnvModel, fuel: nat)
    requires
        crate::env::keys_sorted(e.vars),
    ensures
        crate::env::keys_sorted(reduce_entry_spec(t, e, fuel).1.vars),
    decreases fuel, 1nat, 0nat,
{
    lemma_reduce_keeps_sorted(t, e, fuel);
}

proof fn lemma_row_keeps_sorted(row: Seq<Term>, e: EnvModel, fuel: nat)
    requires
        crate::env::keys_sorted(e.vars),
    ensures
        crate::env::keys_sorted(reduce_row_spec(row, e, fuel).1.vars),
    decreases fuel, 2nat, row.len(),
{
    if row.len() > 0 {
        lemma_row_keeps_sorted(row.drop_last(), e, fuel);
        let (p, e1) = reduce_row_spec(row.drop_last(), e, fuel);
        if p is Ok {
            lemma_entry_keeps_sorted(row.last(), e1, fuel);
        }
    }
}

proof fn lemma_rows_keep_sorted(rows: Seq<Seq<Term>>, e: EnvModel, fuel: nat)
    requires
        crate::env::keys_sorted(e.vars),
    ensures
        crate::env::keys_sorted(reduce_rows_spec(rows, e, fuel).1.vars),
    decreases fuel, 3nat, rows.len(),
{
    if rows.len() > 0 {
        lemma_rows_keep_sorted(rows.drop_last(), e, fuel);
        let (p, e1) = reduce_rows_spec(rows.drop_last(), e, fuel);
        if p is Ok {
            lemma_row_keeps_sorted(rows.last(), e1, fuel);
        }
    }
}

/// A successful assignment binds the name to the value's expression (a
/// later read gives it back; every other name keeps its binding) and
/// clears the result cache.
pub proof fn lemma_assignment_binds(name: Seq<char>, rhs: Term, e: EnvModel, fuel: nat, other: Seq<char>)
    requires
        crate::env::keys_sorted(e.vars),
    ensures
        reduce_spec(Term::Assign(name, Box::new(rhs)), e, fuel) matches (Ok(v), e2) ==> {
            &&& result_to_expr_spec(v) is Ok
            &&& lookup(e2.vars, name) == Some(result_to_expr_spec(v)->Ok_0)
            &&& e2.cache == Seq::<(Seq<char>, Outcome)>::empty()
            &&& (other != name ==> lookup(e2.vars, other) == lookup(reduce_spec(rhs, e, (fuel - 1) as nat).1.vars, other))
        },
{
    if fuel > 0 {
        let (r, e1) = reduce_spec(rhs, e, (fuel - 1) as nat);
        if let Ok(v) = r {
            if let Ok(te) = result_to_expr_spec(v) {
                lemma_reduce_keeps_sorted(rhs, e, (fuel - 1) as nat);
                crate::env::lemma_lookup_insert_sorted(e1.vars, name, te, name);
                crate::env::lemma_lookup_insert_sorted(e1.vars, name, te, other);
            }
        }
    }
}

/// An unbound name is not an error: it reduces to itself, symbolically,
/// and leaves the environment as it was.
pub proof fn lemma_unbound_name_is_symbolic(name: Seq<char>, e: EnvModel, fuel: nat)
    requires
        fuel > 0,
        lookup(e.cache, name) is None,
        lookup(e.vars, name) is None,
    ensures
        reduce_spec(Term::Variable(name), e, fuel) == (
            Ok::<Outcome, Fault>(Outcome::Symbolic(Term::Variable(name))),
            e,
        ),
{
}

/// A name met again while its own binding is being reduced (a self- or
/// mutually referential binding) stands for itself.
pub proof fn lemma_cyclic_name_is_symbolic(name: Seq<char>, e: EnvModel, fuel: nat)
    requires
        fuel > 0,
        lookup(e.cache, name) is None,
        e.resolving.contains(name),
    ensures
        reduce_spec(Term::Variable(name), e, fuel) == (
            Ok::<Outcome, Fault>(Outcome::Symbolic(Term::Variable(name))),
            e,
        ),
{
}

/// The explicit commands work on the expression alone: their outcome does
/// not depend on the bindings, and they change nothing.
pub proof fn lemma_commands_ignore_bindings(t: Term, e1: EnvModel, e2: EnvModel, fuel: nat)
    requires
        fuel > 0,
        t is Simplify || t is Expand || t is Derive,
    ensures
        reduce_spec(t, e1, fuel).0 == reduce_spec(t, e2, fuel).0,
        reduce_spec(t, e1, fuel).1 == e1,
{
}

/// Numbers reduce exactly: a sum, difference or product of two numbers is
/// a number with the value of the sum, difference or product.
pub proof fn lemma_numeric_ops_exact(op: BinaryOp, a: DecModel, b: DecModel)
    requires
        canonical(a),
        canonical(b),
    ensures
        numeric_op_spec(op, a, b) matches Ok(Outcome::Numeric(x)) ==> {
            &&& op == BinaryOp::Add ==> is_sum(x, a, b)
            &&& op == BinaryOp::Sub ==> is_difference(x, a, b)
            &&& op == BinaryOp::Mul ==> is_product(x, a, b)
        },
{
    lemma_add_exact(a, b);
    lemma_sub_exact(a, b);
    lemma_mul_exact(a, b);
}

} // verus!
