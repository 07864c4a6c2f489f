//! The algebraic rewrite engine: pure, bounded, monotonically simplifying
//! term rewriting from an AST to an AST.

use vstd::prelude::*;
use crate::ast::{
    BinaryOp, Expr, Func, Term, row_view, rows_view, lemma_row_view, lemma_rows_view, term_size, row_size,
    rows_size, lemma_row_size_elem, lemma_rows_size_elem,
};
use crate::error::{EvalError, EvalResultT, Fault, same_outcome};
use crate::numeric::{
    Decimal, DecModel, add_model, mul_model, div_model, neg_model, one_model, zero_model,
    is_zero_model, integer_exponent_model, pow_int_model, pow_int, as_integer_exponent, opt_model,
};

verus! {

/// AST node-count ceiling enforced per pass.
pub const MAX_NODES: usize = 10_000;

/// Hard cap on rewrite iterations.
pub const MAX_REWRITE_DEPTH: usize = 50;

/// A number operation's outcome, with leaving the limits as an error.
pub open spec fn checked(o: Option<DecModel>) -> Result<DecModel, Fault> {
    match o {
        Some(d) => Ok(d),
        None => Err(Fault::ExpressionTooLarge),
    }
}

pub open spec fn is_zero_term(t: Term) -> bool {
    t matches Term::Number(n) && is_zero_model(n)
}

pub open spec fn is_one_term(t: Term) -> bool {
    t matches Term::Number(n) && n == one_model()
}

/// A single additive term split into a numeric coefficient and a base.
pub open spec fn split_coefficient_spec(t: Term) -> Result<(DecModel, Option<Term>), Fault>
    decreases t,
{
    match t {
        Term::Number(n) => Ok((n, None)),
        Term::Neg(inner) => match split_coefficient_spec(*inner) {
            Ok((c, b)) => Ok((neg_model(c), b)),
            Err(e) => Err(e),
        },
        Term::Binary(BinaryOp::Mul, l, r) => match (*l, *r) {
            (Term::Number(a), Term::Number(b)) => match checked(mul_model(a, b)) {
                Ok(p) => Ok((p, None)),
                Err(e) => Err(e),
            },
            (Term::Number(a), other) => Ok((a, Some(other))),
            (other, Term::Number(b)) => Ok((b, Some(other))),
            _ => Ok((one_model(), Some(t))),
        },
        _ => Ok((one_model(), Some(t))),
    }
}

/// The `(coefficient, base)` terms of an Add/Sub tree, signs carried down.
pub open spec fn flatten_sum_spec(t: Term, sign: DecModel) -> Result<Seq<(DecModel, Option<Term>)>, Fault>
    decreases t,
{
    match t {
        Term::Binary(BinaryOp::Add, l, r) => match flatten_sum_spec(*l, sign) {
            Ok(a) => match flatten_sum_spec(*r, sign) {
                Ok(b) => Ok(a + b),
                Err(e) => Err(e),
            },
            Err(e) => Err(e),
        },
        Term::Binary(BinaryOp::Sub, l, r) => match flatten_sum_spec(*l, sign) {
            Ok(a) => match flatten_sum_spec(*r, neg_model(sign)) {
                Ok(b) => Ok(a + b),
                Err(e) => Err(e),
            },
            Err(e) => Err(e),
        },
        Term::Neg(inner) => flatten_sum_spec(*inner, neg_model(sign)),
        _ => match split_coefficient_spec(t) {
            Ok((c, b)) => match checked(mul_model(sign, c)) {
                Ok(p) => Ok(seq![(p, b)]),
                Err(e) => Err(e),
            },
            Err(e) => Err(e),
        },
    }
}

/// The first group with base `b`.
pub open spec fn find_group(g: Seq<(Term, DecModel)>, b: Term) -> Option<int>
    decreases g.len(),
{
    if g.len() == 0 {
        None
    } else if g[0].0 == b {
        Some(0)
    } else {
        match find_group(g.skip(1), b) {
            Some(j) => Some(j + 1),
            None => None,
        }
    }
}

/// Adds `c` to the group of `b`, or starts a new group at the end.
pub open spec fn add_to_group(g: Seq<(Term, DecModel)>, b: Term, c: DecModel) -> Result<Seq<(Term, DecModel)>, Fault> {
    match find_group(g, b) {
        Some(j) => match checked(add_model(g[j].1, c)) {
            Ok(s) => Ok(g.update(j, (g[j].0, s))),
            Err(e) => Err(e),
        },
        None => Ok(g.push((b, c))),
    }
}

/// The constant and the insertion-ordered groups of like terms.
pub open spec fn sum_fold(terms: Seq<(DecModel, Option<Term>)>) -> Result<(DecModel, Seq<(Term, DecModel)>), Fault>
    decreases terms.len(),
{
    if terms.len() == 0 {
        Ok((zero_model(), Seq::empty()))
    } else {
        match sum_fold(terms.drop_last()) {
            Ok((c, g)) => {
                let (coeff, base) = terms[terms.len() - 1];
                match base {
                    None => match checked(add_model(c, coeff)) {
                        Ok(c2) => Ok((c2, g)),
                        Err(e) => Err(e),
                    },
                    Some(b) => match add_to_group(g, b, coeff) {
                        Ok(g2) => Ok((c, g2)),
                        Err(e) => Err(e),
                    },
                }
            },
            Err(e) => Err(e),
        }
    }
}

/// The term of one group: `base`, `-base` or `coeff * base`.
pub open spec fn group_term(base: Term, coeff: DecModel) -> Term {
    if coeff == one_model() {
        base
    } else if neg_model(coeff) == one_model() {
        Term::Neg(Box::new(base))
    } else {
        Term::Binary(BinaryOp::Mul, Box::new(Term::Number(coeff)), Box::new(base))
    }
}

/// The left-nested sum of the groups with nonzero coefficients.
pub open spec fn sum_result(g: Seq<(Term, DecModel)>) -> Option<Term>
    decreases g.len(),
{
    if g.len() == 0 {
        None
    } else {
        let acc = sum_result(g.drop_last());
        let (base, coeff) = g[g.len() - 1];
        if is_zero_model(coeff) {
            acc
        } else {
            let term = group_term(base, coeff);
            match acc {
                None => Some(term),
                Some(a) => Some(Term::Binary(BinaryOp::Add, Box::new(a), Box::new(term))),
            }
        }
    }
}

/// Flatten an Add/Sub tree, combine like terms, fold constants.
pub open spec fn collect_sum_spec(t: Term) -> Result<Term, Fault> {
    match flatten_sum_spec(t, one_model()) {
        Ok(terms) => match sum_fold(terms) {
            Ok((c, g)) => {
                let res = sum_result(g);
                if !is_zero_model(c) || res is None {
                    let cn = Term::Number(c);
                    Ok(
                        match res {
                            None => cn,
                            Some(a) => Term::Binary(BinaryOp::Add, Box::new(a), Box::new(cn)),
                        },
                    )
                } else {
                    Ok(res->0)
                }
            },
            Err(e) => Err(e),
        },
        Err(e) => Err(e),
    }
}

/// Walks a Mul tree: numeric factors multiply into the constant, signs of
/// negations too; every other factor is a `(base, exponent)` pair.
pub open spec fn flatten_product_spec(t: Term, c: DecModel) -> Result<(DecModel, Seq<(Term, DecModel)>), Fault>
    decreases t,
{
    match t {
        Term::Binary(BinaryOp::Mul, l, r) => match flatten_product_spec(*l, c) {
            Ok((c1, f1)) => match flatten_product_spec(*r, c1) {
                Ok((c2, f2)) => Ok((c2, f1 + f2)),
                Err(e) => Err(e),
            },
            Err(e) => Err(e),
        },
        Term::Neg(inner) => flatten_product_spec(*inner, neg_model(c)),
        Term::Number(n) => match checked(mul_model(c, n)) {
            Ok(c2) => Ok((c2, Seq::empty())),
            Err(e) => Err(e),
        },
        Term::Binary(BinaryOp::Pow, b, e) => match *e {
            Term::Number(exp) => Ok((c, seq![(*b, exp)])),
            _ => Ok((c, seq![(t, one_model())])),
        },
        _ => Ok((c, seq![(t, one_model())])),
    }
}

/// Groups equal bases, adding their exponents, in order of first occurrence.
pub open spec fn product_fold(factors: Seq<(Term, DecModel)>) -> Result<Seq<(Term, DecModel)>, Fault>
    decreases factors.len(),
{
    if factors.len() == 0 {
        Ok(Seq::empty())
    } else {
        match product_fold(factors.drop_last()) {
            Ok(g) => {
                let (b, e) = factors[factors.len() - 1];
                add_to_group(g, b, e)
            },
            Err(e) => Err(e),
        }
    }
}

/// The left-nested product of the groups with nonzero exponents, after
/// `start`.
pub open spec fn product_result(g: Seq<(Term, DecModel)>, start: Option<Term>) -> Option<Term>
    decreases g.len(),
{
    if g.len() == 0 {
        start
    } else {
        let acc = product_result(g.drop_last(), start);
        let (base, exp) = g[g.len() - 1];
        if is_zero_model(exp) {
            acc
        } else {
            let factor = if exp == one_model() {
                base
            } else {
                Term::Binary(BinaryOp::Pow, Box::new(base), Box::new(Term::Number(exp)))
            };
            match acc {
                None => Some(factor),
                Some(a) => Some(Term::Binary(BinaryOp::Mul, Box::new(a), Box::new(factor))),
            }
        }
    }
}

pub open spec fn any_nonzero_exponent(g: Seq<(Term, DecModel)>) -> bool {
    exists|j: int| 0 <= j < g.len() && !is_zero_model(#[trigger] g[j].1)
}

/// Flatten a Mul tree, combine equal bases into powers; a `-1` constant
/// beside other factors becomes a negation.
pub open spec fn collect_product_spec(t: Term) -> Result<Term, Fault> {
    match flatten_product_spec(t, one_model()) {
        Ok((c, factors)) => if is_zero_model(c) {
            Ok(Term::Number(zero_model()))
        } else {
            match product_fold(factors) {
                Ok(g) => {
                    let negate = neg_model(c) == one_model() && any_nonzero_exponent(g);
                    let start = if c != one_model() && !negate {
                        Some(Term::Number(c))
                    } else {
                        None
                    };
                    Ok(
                        match product_result(g, start) {
                            Some(e) => if negate {
                                Term::Neg(Box::new(e))
                            } else {
                                e
                            },
                            None => Term::Number(c),
                        },
                    )
                },
                Err(e) => Err(e),
            }
        },
        Err(e) => Err(e),
    }
}

/// Division rules: constant folding (error on a zero divisor), `x / 1`,
/// `0 / n`, and `x / x = 1` (assuming `x != 0`).
pub open spec fn rewrite_div_spec(l: Term, r: Term) -> Result<Term, Fault> {
    if l is Number && r is Number {
        if is_zero_model(r->Number_0) {
            Err(Fault::DivisionByZero)
        } else {
            match checked(div_model(l->Number_0, r->Number_0)) {
                Ok(q) => Ok(Term::Number(q)),
                Err(e) => Err(e),
            }
        }
    } else if is_one_term(r) {
        Ok(l)
    } else if is_zero_term(l) && r is Number && !is_zero_model(r->Number_0) {
        Ok(Term::Number(zero_model()))
    } else if l == r {
        Ok(Term::Number(one_model()))
    } else {
        Ok(Term::Binary(BinaryOp::Div, Box::new(l), Box::new(r)))
    }
}

/// Power rules: exact integer powers of numbers, `x^1`, `x^0`, `1^x`,
/// `0^x`, and `(b^e1)^e2 = b^(e1*e2)` for numeric exponents.
pub open spec fn rewrite_pow_spec(base: Term, exp: Term) -> Result<Term, Fault> {
    if base is Number && exp is Number && integer_exponent_model(exp->Number_0) is Some
        && !(is_zero_model(base->Number_0) && integer_exponent_model(exp->Number_0)->0 < 0) {
        match checked(pow_int_model(base->Number_0, integer_exponent_model(exp->Number_0)->0)) {
            Ok(p) => Ok(Term::Number(p)),
            Err(e) => Err(e),
        }
    } else if is_one_term(exp) {
        Ok(base)
    } else if is_zero_term(exp) {
        Ok(Term::Number(one_model()))
    } else if is_one_term(base) {
        Ok(Term::Number(one_model()))
    } else if is_zero_term(base) {
        Ok(Term::Number(zero_model()))
    } else if base matches Term::Binary(BinaryOp::Pow, ib, ie) && *ie is Number && exp is Number {
        match checked(mul_model(base->Binary_2->Number_0, exp->Number_0)) {
            Ok(p) => Ok(Term::Binary(BinaryOp::Pow, base->Binary_1, Box::new(Term::Number(p)))),
            Err(e) => Err(e),
        }
    } else {
        Ok(Term::Binary(BinaryOp::Pow, Box::new(base), Box::new(exp)))
    }
}

/// Exact values of the functions at 0 (and `ln 1 = 0`).
pub open spec fn fold_call_spec(f: Func, arg: Term) -> Term {
    if arg is Number && ((f == Func::Sin || f == Func::Tan) && is_zero_model(arg->Number_0)) {
        Term::Number(zero_model())
    } else if arg is Number && ((f == Func::Cos || f == Func::Exp) && is_zero_model(arg->Number_0)) {
        Term::Number(one_model())
    } else if arg is Number && f == Func::Ln && arg->Number_0 == one_model() {
        Term::Number(zero_model())
    } else {
        Term::Call(f, Box::new(arg))
    }
}

/// One rewrite of a node whose children are already rewritten.
pub open spec fn rewrite_node_spec(t: Term) -> Result<Term, Fault> {
    match t {
        Term::Neg(e) => match *e {
            Term::Number(n) => Ok(Term::Number(neg_model(n))),
            Term::Neg(inner) => Ok(*inner),
            other => Ok(Term::Neg(Box::new(other))),
        },
        Term::Call(f, arg) => Ok(fold_call_spec(f, *arg)),
        Term::Binary(BinaryOp::Add, _, _) | Term::Binary(BinaryOp::Sub, _, _) => collect_sum_spec(t),
        Term::Binary(BinaryOp::Mul, _, _) => collect_product_spec(t),
        Term::Binary(BinaryOp::Div, l, r) => rewrite_div_spec(*l, *r),
        Term::Binary(BinaryOp::Pow, l, r) => rewrite_pow_spec(*l, *r),
        other => Ok(other),
    }
}

/// One bottom-up rewrite pass: children first, then the node itself.
/// Command wrappers and logic nodes are left intact.
pub open spec fn pass_spec(t: Term) -> Result<Term, Fault>
    decreases t,
{
    let with_children: Result<Term, Fault> = match t {
        Term::Matrix(rows) => match rows_pass(rows) {
            Ok(r) => Ok(Term::Matrix(r)),
            Err(e) => Err(e),
        },
        Term::Neg(e) => match pass_spec(*e) {
            Ok(x) => Ok(Term::Neg(Box::new(x))),
            Err(e) => Err(e),
        },
        Term::Call(f, e) => match pass_spec(*e) {
            Ok(x) => Ok(Term::Call(f, Box::new(x))),
            Err(e) => Err(e),
        },
        Term::Binary(op, l, r) => match pass_spec(*l) {
            Ok(a) => match pass_spec(*r) {
                Ok(b) => Ok(Term::Binary(op, Box::new(a), Box::new(b))),
                Err(e) => Err(e),
            },
            Err(e) => Err(e),
        },
        Term::Lambda(p, b) => match pass_spec(*b) {
            Ok(x) => Ok(Term::Lambda(p, Box::new(x))),
            Err(e) => Err(e),
        },
        Term::Apply(g, a) => match pass_spec(*g) {
            Ok(x) => match pass_spec(*a) {
                Ok(y) => Ok(Term::Apply(Box::new(x), Box::new(y))),
                Err(e) => Err(e),
            },
            Err(e) => Err(e),
        },
        other => Ok(other),
    };
    match with_children {
        Ok(w) => rewrite_node_spec(w),
        Err(e) => Err(e),
    }
}

pub open spec fn rows_pass(rows: Seq<Seq<Term>>) -> Result<Seq<Seq<Term>>, Fault>
    decreases rows,
{
    if rows.len() == 0 {
        Ok(Seq::empty())
    } else {
        proof {
            assert(decreases_to!(rows => rows[rows.len() - 1]));
        }
        match rows_pass(rows.drop_last()) {
            Ok(a) => match row_pass(rows[rows.len() - 1]) {
                Ok(b) => Ok(a.push(b)),
                Err(e) => Err(e),
            },
            Err(e) => Err(e),
        }
    }
}

pub open spec fn row_pass(row: Seq<Term>) -> Result<Seq<Term>, Fault>
    decreases row,
{
    if row.len() == 0 {
        Ok(Seq::empty())
    } else {
        proof {
            assert(decreases_to!(row => row[row.len() - 1]));
        }
        match row_pass(row.drop_last()) {
            Ok(a) => match pass_spec(row[row.len() - 1]) {
                Ok(b) => Ok(a.push(b)),
                Err(e) => Err(e),
            },
            Err(e) => Err(e),
        }
    }
}

/// Repeated passes until a fixpoint, at most `fuel` of them; each pass
/// first checks the node-count ceiling.
pub open spec fn simplify_iter(t: Term, fuel: nat) -> Result<Term, Fault>
    decreases fuel,
{
    if fuel == 0 {
        Err(Fault::RewriteLimitExceeded)
    } else if term_size(t) > MAX_NODES {
        Err(Fault::ExpressionTooLarge)
    } else {
        match pass_spec(t) {
            Ok(n) => if n == t {
                Ok(n)
            } else {
                simplify_iter(n, (fuel - 1) as nat)
            },
            Err(e) => Err(e),
        }
    }
}

/// Simplification to a fixpoint of [`pass_spec`] within
/// `MAX_REWRITE_DEPTH` passes.
pub open spec fn simplify_spec(t: Term) -> Result<Term, Fault> {
    simplify_iter(t, MAX_REWRITE_DEPTH as nat)
}


// ---------------------------------------------------------------------------
// Executable rewriting.
// ---------------------------------------------------------------------------

pub open spec fn opt_view(o: Option<Expr>) -> Option<Term> {
    match o {
        Some(e) => Some(e@),
        None => None,
    }
}

/// The model of a list of `(coefficient, base)` terms.
pub open spec fn coeff_terms_view(s: Seq<(Decimal, Option<Expr>)>) -> Seq<(DecModel, Option<Term>)> {
    Seq::new(s.len(), |i: int| (s[i].0@, opt_view(s[i].1)))
}

/// The model of a list of `(base, number)` groups.
pub open spec fn groups_view(s: Seq<(Expr, Decimal)>) -> Seq<(Term, DecModel)> {
    Seq::new(s.len(), |i: int| (s[i].0@, s[i].1@))
}

fn too_large<T>() -> (r: EvalResultT<T>)
    ensures
        r matches Err(e) && e@ == Fault::ExpressionTooLarge,
{
    Err(EvalError::ExpressionTooLarge)
}

fn is_zero_expr(e: &Expr) -> (r: bool)
    ensures
        r == is_zero_term(e@),
{
    match e {
        Expr::Number(n) => n.is_zero(),
        _ => false,
    }
}

fn is_one_expr(e: &Expr) -> (r: bool)
    ensures
        r == is_one_term(e@),
{
    match e {
        Expr::Number(n) => n.is_one(),
        _ => false,
    }
}

fn split_coefficient(e: &Expr) -> (r: EvalResultT<(Decimal, Option<Expr>)>)
    ensures
        match split_coefficient_spec(e@) {
            Ok(p) => r matches Ok(x) && (x.0@, opt_view(x.1)) == p,
            Err(f) => r matches Err(x) && x@ == f,
        },
    decreases e,
{
    match e {
        Expr::Number(n) => Ok((n.copy(), None)),
        Expr::Neg(inner) => match split_coefficient(inner) {
            Ok((c, b)) => Ok((c.neg(), b)),
            Err(x) => Err(x),
        },
        Expr::Binary(BinaryOp::Mul, l, r) => {
            proof {
                assert(e@ == Term::Binary(BinaryOp::Mul, Box::new(l@), Box::new(r@)));
            }
            match &**l {
                Expr::Number(a) => match &**r {
                    Expr::Number(b) => match a.mul(b) {
                        Some(p) => Ok((p, None)),
                        None => too_large(),
                    },
                    other => Ok((a.copy(), Some(other.copy()))),
                },
                other => match &**r {
                    Expr::Number(b) => Ok((b.copy(), Some(other.copy()))),
                    _ => Ok((Decimal::one(), Some(e.copy()))),
                },
            }
        },
        _ => Ok((Decimal::one(), Some(e.copy()))),
    }
}

fn flatten_sum(e: &Expr, sign: &Decimal, out: &mut Vec<(Decimal, Option<Expr>)>) -> (r: EvalResultT<()>)
    ensures
        match flatten_sum_spec(e@, sign@) {
            Ok(s) => r is Ok && coeff_terms_view(final(out)@) == coeff_terms_view(old(out)@) + s,
            Err(f) => r matches Err(x) && x@ == f,
        },
    decreases e,
{
    let ghost o0 = coeff_terms_view(out@);
    match e {
        Expr::Binary(BinaryOp::Add, l, r) => {
            match flatten_sum(l, sign, out) {
                Err(x) => return Err(x),
                Ok(_) => {},
            }
            let ghost o1 = coeff_terms_view(out@);
            let res = flatten_sum(r, sign, out);
            proof {
                if let Ok(a) = flatten_sum_spec(l@, sign@) {
                    if let Ok(b) = flatten_sum_spec(r@, sign@) {
                        assert(o0 + a + b =~= o0 + (a + b));
                    }
                }
            }
            res
        },
        Expr::Binary(BinaryOp::Sub, l, r) => {
            match flatten_sum(l, sign, out) {
                Err(x) => return Err(x),
                Ok(_) => {},
            }
            let ns = sign.neg();
            let res = flatten_sum(r, &ns, out);
            proof {
                if let Ok(a) = flatten_sum_spec(l@, sign@) {
                    if let Ok(b) = flatten_sum_spec(r@, ns@) {
                        assert(o0 + a + b =~= o0 + (a + b));
                    }
                }
            }
            res
        },
        Expr::Neg(inner) => {
            let ns = sign.neg();
            flatten_sum(inner, &ns, out)
        },
        _ => {
            match split_coefficient(e) {
                Err(x) => Err(x),
                Ok((c, b)) => match sign.mul(&c) {
                    Some(p) => {
                        let ghost item = (p@, opt_view(b));
                        let ghost prev = out@;
                        out.push((p, b));
                        proof {
                            assert(coeff_terms_view(out@) =~= coeff_terms_view(prev) + seq![item]);
                        }
                        Ok(())
                    },
                    None => too_large(),
                },
            }
        },
    }
}

proof fn lemma_find_group(g: Seq<(Term, DecModel)>, b: Term)
    ensures
        match find_group(g, b) {
            Some(j) => 0 <= j < g.len() && g[j].0 == b && forall|k: int| 0 <= k < j ==> g[k].0 != b,
            None => forall|k: int| 0 <= k < g.len() ==> g[k].0 != b,
        },
    decreases g.len(),
{
    if g.len() > 0 {
        let t = g.skip(1);
        lemma_find_group(t, b);
        assert forall|k: int| 0 < k < g.len() implies g[k] == #[trigger] t[k - 1] by {}
        if g[0].0 != b {
            match find_group(t, b) {
                Some(j) => {
                    assert forall|k: int| 0 <= k < j + 1 implies g[k].0 != b by {
                        if k > 0 {
                            assert(g[k] == t[k - 1]);
                        }
                    }
                },
                None => {
                    assert forall|k: int| 0 <= k < g.len() implies g[k].0 != b by {
                        if k > 0 {
                            assert(g[k] == t[k - 1]);
                        }
                    }
                },
            }
        }
    }
}

fn find_group_index(groups: &Vec<(Expr, Decimal)>, b: &Expr) -> (r: Option<usize>)
    ensures
        r matches Some(j) ==> find_group(groups_view(groups@), b@) == Some(j as int) && j < groups.len(),
        r is None ==> find_group(groups_view(groups@), b@) is None,
{
    let ghost gv = groups_view(groups@);
    proof {
        lemma_find_group(gv, b@);
    }
    let mut i: usize = 0;
    while i < groups.len()
        invariant
            gv == groups_view(groups@),
            i <= groups.len(),
            forall|k: int| 0 <= k < i ==> gv[k].0 != b@,
        decreases groups.len() - i,
    {
        if groups[i].0.equals(b) {
            proof {
                assert(gv[i as int].0 == b@);
                lemma_find_group(gv, b@);
                match find_group(gv, b@) {
                    Some(j) => {
                        assert(!(j < i));
                        if j > i {
                            assert(gv[i as int].0 != b@);
                        }
                    },
                    None => {
                        assert(gv[i as int].0 != b@);
                    },
                }
            }
            return Some(i);
        }
        i += 1;
    }
    proof {
        lemma_find_group(gv, b@);
    }
    None
}

fn add_to_group_exec(groups: &mut Vec<(Expr, Decimal)>, b: Expr, c: Decimal) -> (r: EvalResultT<()>)
    ensures
        match add_to_group(groups_view(old(groups)@), b@, c@) {
            Ok(g) => r is Ok && groups_view(final(groups)@) == g,
            Err(f) => r matches Err(x) && x@ == f,
        },
{
    let ghost g0 = groups_view(groups@);
    proof {
        lemma_find_group(g0, b@);
    }
    match find_group_index(groups, &b) {
        Some(j) => match groups[j].1.add(&c) {
            Some(sum) => {
                let base = groups[j].0.copy();
                let ghost item = (base@, sum@);
                proof {
                    assert(g0[j as int] == (groups@[j as int].0@, groups@[j as int].1@));
                    assert(find_group(g0, b@) == Some(j as int));
                    assert(add_model(g0[j as int].1, c@) == Some(sum@));
                    assert(checked(add_model(g0[j as int].1, c@)) == Ok::<DecModel, Fault>(sum@));
                    assert(add_to_group(g0, b@, c@) == Ok::<Seq<(Term, DecModel)>, Fault>(g0.update(j as int, item)));
                }
                groups.set(j, (base, sum));
                proof {
                    assert(groups_view(groups@) =~= g0.update(j as int, item));
                }
                Ok(())
            },
            None => too_large(),
        },
        None => {
            let ghost item = (b@, c@);
            groups.push((b, c));
            proof {
                assert(groups_view(groups@) =~= g0.push(item));
            }
            Ok(())
        },
    }
}

proof fn lemma_sum_fold_err(s: Seq<(DecModel, Option<Term>)>, k: int)
    requires
        0 <= k <= s.len(),
        sum_fold(s.take(k)) is Err,
    ensures
        sum_fold(s) == sum_fold(s.take(k)),
    decreases s.len() - k,
{
    if k < s.len() {
        assert(s.take(k + 1).drop_last() =~= s.take(k));
        lemma_sum_fold_err(s, k + 1);
    } else {
        assert(s.take(k) =~= s);
    }
}

/// Folds the terms into a constant and insertion-ordered groups.
fn fold_terms(terms: &Vec<(Decimal, Option<Expr>)>) -> (r: EvalResultT<(Decimal, Vec<(Expr, Decimal)>)>)
    ensures
        match sum_fold(coeff_terms_view(terms@)) {
            Ok((c, g)) => r matches Ok(x) && x.0@ == c && groups_view(x.1@) == g,
            Err(f) => r matches Err(x) && x@ == f,
        },
{
    let ghost tv = coeff_terms_view(terms@);
    let mut constant = Decimal::zero();
    let mut groups: Vec<(Expr, Decimal)> = Vec::new();
    let mut i: usize = 0;
    proof {
        assert(tv.take(0) =~= Seq::<(DecModel, Option<Term>)>::empty());
        assert(groups_view(groups@) =~= Seq::<(Term, DecModel)>::empty());
    }
    while i < terms.len()
        invariant
            tv == coeff_terms_view(terms@),
            i <= terms.len(),
            sum_fold(tv.take(i as int)) == Ok::<(DecModel, Seq<(Term, DecModel)>), Fault>((constant@, groups_view(groups@))),
        decreases terms.len() - i,
    {
        proof {
            assert(tv.take(i + 1).drop_last() =~= tv.take(i as int));
            assert(tv[i as int] == (terms@[i as int].0@, opt_view(terms@[i as int].1)));
        }
        let coeff = &terms[i].0;
        match &terms[i].1 {
            None => match constant.add(coeff) {
                Some(c2) => {
                    constant = c2;
                },
                None => {
                    proof {
                        lemma_sum_fold_err(tv, i + 1);
                    }
                    return too_large();
                },
            },
            Some(b) => {
                let res = add_to_group_exec(&mut groups, b.copy(), coeff.copy());
                match res {
                    Ok(_) => {},
                    Err(x) => {
                        proof {
                            lemma_sum_fold_err(tv, i + 1);
                        }
                        return Err(x);
                    },
                }
            },
        }
        i += 1;
    }
    proof {
        assert(tv.take(terms.len() as int) =~= tv);
    }
    Ok((constant, groups))
}

/// The left-nested sum of the groups with nonzero coefficients.
fn sum_of_groups(groups: &Vec<(Expr, Decimal)>) -> (r: Option<Expr>)
    ensures
        opt_view(r) == sum_result(groups_view(groups@)),
{
    let ghost gv = groups_view(groups@);
    let mut result: Option<Expr> = None;
    let mut k: usize = 0;
    proof {
        assert(gv.take(0) =~= Seq::<(Term, DecModel)>::empty());
    }
    while k < groups.len()
        invariant
            gv == groups_view(groups@),
            k <= groups.len(),
            opt_view(result) == sum_result(gv.take(k as int)),
        decreases groups.len() - k,
    {
        proof {
            assert(gv.take(k + 1).drop_last() =~= gv.take(k as int));
            assert(gv[k as int] == (groups@[k as int].0@, groups@[k as int].1@));
        }
        let base = &groups[k].0;
        let coeff = &groups[k].1;
        if !coeff.is_zero() {
            let term = if coeff.is_one() {
                base.copy()
            } else if coeff.neg().is_one() {
                Expr::negate(base.copy())
            } else {
                Expr::binary(BinaryOp::Mul, Expr::num(coeff.copy()), base.copy())
            };
            result = match result {
                None => Some(term),
                Some(acc) => Some(Expr::binary(BinaryOp::Add, acc, term)),
            };
        }
        k += 1;
    }
    proof {
        assert(gv.take(groups.len() as int) =~= gv);
    }
    result
}

fn collect_sum(e: &Expr) -> (r: EvalResultT<Expr>)
    ensures
        same_outcome(r, collect_sum_spec(e@)),
{
    let mut terms: Vec<(Decimal, Option<Expr>)> = Vec::new();
    let one = Decimal::one();
    proof {
        assert(coeff_terms_view(terms@) =~= Seq::<(DecModel, Option<Term>)>::empty());
    }
    match flatten_sum(e, &one, &mut terms) {
        Err(x) => return Err(x),
        Ok(_) => {},
    }
    proof {
        if let Ok(s) = flatten_sum_spec(e@, one_model()) {
            assert(coeff_terms_view(terms@) =~= s);
        }
    }
    let (constant, groups) = match fold_terms(&terms) {
        Err(x) => return Err(x),
        Ok(p) => p,
    };
    let result = sum_of_groups(&groups);
    if !constant.is_zero() || result.is_none() {
        let cn = Expr::num(constant);
        Ok(
            match result {
                None => cn,
                Some(a) => Expr::binary(BinaryOp::Add, a, cn),
            },
        )
    } else {
        match result {
            Some(a) => Ok(a),
            None => Ok(cn_zero()),
        }
    }
}

fn cn_zero() -> (r: Expr)
    ensures
        r@ == Term::Number(zero_model()),
{
    Expr::Number(Decimal::zero())
}

fn flatten_product(e: &Expr, c: Decimal, out: &mut Vec<(Expr, Decimal)>) -> (r: EvalResultT<Decimal>)
    ensures
        match flatten_product_spec(e@, c@) {
            Ok((c2, f)) => r matches Ok(x) && x@ == c2 && groups_view(final(out)@) == groups_view(old(out)@) + f,
            Err(f) => r matches Err(x) && x@ == f,
        },
    decreases e,
{
    let ghost o0 = groups_view(out@);
    match e {
        Expr::Binary(BinaryOp::Mul, l, r) => {
            proof {
                assert(e@ == Term::Binary(BinaryOp::Mul, Box::new(l@), Box::new(r@)));
            }
            let c1 = match flatten_product(l, c, out) {
                Err(x) => return Err(x),
                Ok(c1) => c1,
            };
            let ghost o1 = groups_view(out@);
            let res = flatten_product(r, c1, out);
            proof {
                if let Ok((_, a)) = flatten_product_spec(l@, c@) {
                    if let Ok((_, b)) = flatten_product_spec(r@, c1@) {
                        assert(o0 + a + b =~= o0 + (a + b));
                    }
                }
            }
            res
        },
        Expr::Neg(inner) => flatten_product(inner, c.neg(), out),
        Expr::Number(n) => match c.mul(n) {
            Some(c2) => {
                proof {
                    assert(groups_view(out@) =~= o0 + Seq::<(Term, DecModel)>::empty());
                }
                Ok(c2)
            },
            None => too_large(),
        },
        Expr::Binary(BinaryOp::Pow, b, x) => {
            proof {
                assert(e@ == Term::Binary(BinaryOp::Pow, Box::new(b@), Box::new(x@)));
            }
            let ghost item: (Term, DecModel);
            match &**x {
                Expr::Number(exp) => {
                    proof {
                        item = (b@, exp@);
                    }
                    out.push((b.copy(), exp.copy()));
                },
                _ => {
                    proof {
                        item = (e@, one_model());
                    }
                    out.push((e.copy(), Decimal::one()));
                },
            }
            proof {
                assert(groups_view(out@) =~= o0 + seq![item]);
            }
            Ok(c)
        },
        _ => {
            let ghost item = (e@, one_model());
            out.push((e.copy(), Decimal::one()));
            proof {
                assert(groups_view(out@) =~= o0 + seq![item]);
            }
            Ok(c)
        },
    }
}

proof fn lemma_product_fold_err(s: Seq<(Term, DecModel)>, k: int)
    requires
        0 <= k <= s.len(),
        product_fold(s.take(k)) is Err,
    ensures
        product_fold(s) == product_fold(s.take(k)),
    decreases s.len() - k,
{
    if k < s.len() {
        assert(s.take(k + 1).drop_last() =~= s.take(k));
        lemma_product_fold_err(s, k + 1);
    } else {
        assert(s.take(k) =~= s);
    }
}

/// Groups equal bases of the factors, adding their exponents.
fn fold_factors(factors: &Vec<(Expr, Decimal)>) -> (r: EvalResultT<Vec<(Expr, Decimal)>>)
    ensures
        match product_fold(groups_view(factors@)) {
            Ok(g) => r matches Ok(x) && groups_view(x@) == g,
            Err(f) => r matches Err(x) && x@ == f,
        },
{
    let ghost fv = groups_view(factors@);
    let mut groups: Vec<(Expr, Decimal)> = Vec::new();
    let mut i: usize = 0;
    proof {
        assert(fv.take(0) =~= Seq::<(Term, DecModel)>::empty());
        assert(groups_view(groups@) =~= Seq::<(Term, DecModel)>::empty());
    }
    while i < factors.len()
        invariant
            fv == groups_view(factors@),
            i <= factors.len(),
            product_fold(fv.take(i as int)) == Ok::<Seq<(Term, DecModel)>, Fault>(groups_view(groups@)),
        decreases factors.len() - i,
    {
        proof {
            assert(fv.take(i + 1).drop_last() =~= fv.take(i as int));
            assert(fv[i as int] == (factors@[i as int].0@, factors@[i as int].1@));
        }
        let res = add_to_group_exec(&mut groups, factors[i].0.copy(), factors[i].1.copy());
        match res {
            Ok(_) => {},
            Err(x) => {
                proof {
                    lemma_product_fold_err(fv, i + 1);
                }
                return Err(x);
            },
        }
        i += 1;
    }
    proof {
        assert(fv.take(factors.len() as int) =~= fv);
    }
    Ok(groups)
}

fn has_nonzero_exponent(groups: &Vec<(Expr, Decimal)>) -> (r: bool)
    ensures
        r == any_nonzero_exponent(groups_view(groups@)),
{
    let ghost gv = groups_view(groups@);
    let mut i: usize = 0;
    while i < groups.len()
        invariant
            gv == groups_view(groups@),
            i <= groups.len(),
            forall|k: int| 0 <= k < i ==> is_zero_model(#[trigger] gv[k].1),
        decreases groups.len() - i,
    {
        if !groups[i].1.is_zero() {
            proof {
                assert(!is_zero_model(gv[i as int].1));
            }
            return true;
        }
        i += 1;
    }
    false
}

/// The left-nested product of the groups with nonzero exponents, after
/// `start`.
fn product_of_groups(groups: &Vec<(Expr, Decimal)>, start: Option<Expr>) -> (r: Option<Expr>)
    ensures
        opt_view(r) == product_result(groups_view(groups@), opt_view(start)),
{
    let ghost gv = groups_view(groups@);
    let ghost st = opt_view(start);
    let mut result = start;
    let mut k: usize = 0;
    proof {
        assert(gv.take(0) =~= Seq::<(Term, DecModel)>::empty());
    }
    while k < groups.len()
        invariant
            gv == groups_view(groups@),
            k <= groups.len(),
            opt_view(result) == product_result(gv.take(k as int), st),
        decreases groups.len() - k,
    {
        proof {
            assert(gv.take(k + 1).drop_last() =~= gv.take(k as int));
            assert(gv[k as int] == (groups@[k as int].0@, groups@[k as int].1@));
        }
        let base = &groups[k].0;
        let exp = &groups[k].1;
        if !exp.is_zero() {
            let factor = if exp.is_one() {
                base.copy()
            } else {
                Expr::binary(BinaryOp::Pow, base.copy(), Expr::num(exp.copy()))
            };
            result = match result {
                None => Some(factor),
                Some(acc) => Some(Expr::binary(BinaryOp::Mul, acc, factor)),
            };
        }
        k += 1;
    }
    proof {
        assert(gv.take(groups.len() as int) =~= gv);
    }
    result
}

fn collect_product(e: &Expr) -> (r: EvalResultT<Expr>)
    ensures
        same_outcome(r, collect_product_spec(e@)),
{
    let mut factors: Vec<(Expr, Decimal)> = Vec::new();
    proof {
        assert(groups_view(factors@) =~= Seq::<(Term, DecModel)>::empty());
    }
    let constant = match flatten_product(e, Decimal::one(), &mut factors) {
        Err(x) => return Err(x),
        Ok(c) => c,
    };
    proof {
        if let Ok((_, f)) = flatten_product_spec(e@, one_model()) {
            assert(groups_view(factors@) =~= f);
        }
    }
    if constant.is_zero() {
        return Ok(cn_zero());
    }
    let groups = match fold_factors(&factors) {
        Err(x) => return Err(x),
        Ok(g) => g,
    };
    let negate = constant.neg().is_one() && has_nonzero_exponent(&groups);
    let start = if !constant.is_one() && !negate {
        Some(Expr::num(constant.copy()))
    } else {
        None
    };
    match product_of_groups(&groups, start) {
        Some(x) => if negate {
            Ok(Expr::negate(x))
        } else {
            Ok(x)
        },
        None => Ok(Expr::num(constant)),
    }
}

fn rewrite_div(l: Expr, r: Expr) -> (res: EvalResultT<Expr>)
    ensures
        same_outcome(res, rewrite_div_spec(l@, r@)),
{
    if let Expr::Number(a) = &l {
        if let Expr::Number(b) = &r {
            if b.is_zero() {
                return Err(EvalError::DivisionByZero);
            }
            return match a.div(b) {
                Some(q) => Ok(Expr::num(q)),
                None => too_large(),
            };
        }
    }
    if is_one_expr(&r) {
        return Ok(l);
    }
    if is_zero_expr(&l) {
        if let Expr::Number(n) = &r {
            if !n.is_zero() {
                return Ok(cn_zero());
            }
        }
    }
    if l.equals(&r) {
        return Ok(Expr::num(Decimal::one()));
    }
    Ok(Expr::binary(BinaryOp::Div, l, r))
}

fn rewrite_pow(base: Expr, exp: Expr) -> (res: EvalResultT<Expr>)
    ensures
        same_outcome(res, rewrite_pow_spec(base@, exp@)),
{
    if let Expr::Number(b) = &base {
        if let Expr::Number(e) = &exp {
            if let Some(ei) = as_integer_exponent(e) {
                if !(b.is_zero() && ei < 0) {
                    return match pow_int(b, ei) {
                        Some(p) => Ok(Expr::num(p)),
                        None => too_large(),
                    };
                }
            }
        }
    }
    if is_one_expr(&exp) {
        return Ok(base);
    }
    if is_zero_expr(&exp) {
        return Ok(Expr::num(Decimal::one()));
    }
    if is_one_expr(&base) {
        return Ok(Expr::num(Decimal::one()));
    }
    if is_zero_expr(&base) {
        return Ok(cn_zero());
    }
    if let Expr::Binary(BinaryOp::Pow, ib, ie) = &base {
        if let Expr::Number(e1) = &**ie {
            if let Expr::Number(e2) = &exp {
                proof {
                    assert(base@ == Term::Binary(BinaryOp::Pow, Box::new(ib@), Box::new(ie@)));
                }
                return match e1.mul(e2) {
                    Some(p) => Ok(Expr::binary(BinaryOp::Pow, ib.copy(), Expr::num(p))),
                    None => too_large(),
                };
            }
        }
    }
    Ok(Expr::binary(BinaryOp::Pow, base, exp))
}

fn fold_call(f: Func, arg: Expr) -> (r: Expr)
    ensures
        r@ == fold_call_spec(f, arg@),
{
    if let Expr::Number(n) = &arg {
        if (f == Func::Sin || f == Func::Tan) && n.is_zero() {
            return cn_zero();
        }
        if (f == Func::Cos || f == Func::Exp) && n.is_zero() {
            return Expr::num(Decimal::one());
        }
        if f == Func::Ln && n.is_one() {
            return cn_zero();
        }
    }
    Expr::call(f, arg)
}

fn rewrite_node(w: Expr) -> (r: EvalResultT<Expr>)
    ensures
        same_outcome(r, rewrite_node_spec(w@)),
{
    if let Expr::Binary(op, _, _) = &w {
        if *op == BinaryOp::Add || *op == BinaryOp::Sub {
            return collect_sum(&w);
        }
        if *op == BinaryOp::Mul {
            return collect_product(&w);
        }
    }
    match w {
        Expr::Neg(e) => {
            proof {
                assert(w@ == Term::Neg(Box::new(e@)));
            }
            match *e {
                Expr::Number(n) => Ok(Expr::num(n.neg())),
                Expr::Neg(inner) => Ok(*inner),
                other => Ok(Expr::negate(other)),
            }
        },
        Expr::Call(f, arg) => Ok(fold_call(f, *arg)),
        Expr::Binary(BinaryOp::Div, l, r) => rewrite_div(*l, *r),
        Expr::Binary(BinaryOp::Pow, l, r) => rewrite_pow(*l, *r),
        other => Ok(other),
    }
}

proof fn lemma_row_pass_err(s: Seq<Term>, k: int)
    requires
        0 <= k <= s.len(),
        row_pass(s.take(k)) is Err,
    ensures
        row_pass(s) == row_pass(s.take(k)),
    decreases s.len() - k,
{
    if k < s.len() {
        assert(s.take(k + 1).drop_last() =~= s.take(k));
        lemma_row_pass_err(s, k + 1);
    } else {
        assert(s.take(k) =~= s);
    }
}

proof fn lemma_rows_pass_err(s: Seq<Seq<Term>>, k: int)
    requires
        0 <= k <= s.len(),
        rows_pass(s.take(k)) is Err,
    ensures
        rows_pass(s) == rows_pass(s.take(k)),
    decreases s.len() - k,
{
    if k < s.len() {
        assert(s.take(k + 1).drop_last() =~= s.take(k));
        lemma_rows_pass_err(s, k + 1);
    } else {
        assert(s.take(k) =~= s);
    }
}

fn pass_row(row: &Vec<Expr>) -> (r: EvalResultT<Vec<Expr>>)
    ensures
        match row_pass(row_view(row@)) {
            Ok(v) => r matches Ok(x) && row_view(x@) == v,
            Err(f) => r matches Err(x) && x@ == f,
        },
    decreases row_size(row_view(row@)) + 1, 0int,
{
    let ghost tv = row_view(row@);
    proof {
        lemma_row_view(row@);
        assert(tv.take(0) =~= Seq::<Term>::empty());
    }
    let mut out: Vec<Expr> = Vec::new();
    let mut j: usize = 0;
    while j < row.len()
        invariant
            tv == row_view(row@),
            tv.len() == row.len(),
            forall|k: int| 0 <= k < row.len() ==> #[trigger] tv[k] == crate::ast::expr_view(row@[k]),
            j <= row.len(),
            row_pass(tv.take(j as int)) == Ok::<Seq<Term>, Fault>(row_view(out@)),
        decreases row.len() - j,
    {
        proof {
            lemma_row_size_elem(tv, j as int);
            assert(tv.take(j + 1).drop_last() =~= tv.take(j as int));
            lemma_row_view(out@);
        }
        let el = row[j].copy();
        match pass(el) {
            Ok(x) => {
                let ghost prev = out@;
                let ghost xv = x@;
                out.push(x);
                proof {
                    assert(out@.drop_last() =~= prev);
                    assert(row_view(out@) == row_view(prev).push(xv));
                }
            },
            Err(x) => {
                proof {
                    lemma_row_pass_err(tv, j + 1);
                }
                return Err(x);
            },
        }
        j += 1;
    }
    proof {
        assert(tv.take(row.len() as int) =~= tv);
    }
    Ok(out)
}

fn pass_matrix(rows: &Vec<Vec<Expr>>) -> (r: EvalResultT<Vec<Vec<Expr>>>)
    ensures
        match rows_pass(rows_view(rows@)) {
            Ok(v) => r matches Ok(x) && rows_view(x@) == v,
            Err(f) => r matches Err(x) && x@ == f,
        },
    decreases rows_size(rows_view(rows@)) + 1, 1int,
{
    let ghost rv = rows_view(rows@);
    proof {
        lemma_rows_view(rows@);
        assert(rv.take(0) =~= Seq::<Seq<Term>>::empty());
    }
    let mut out: Vec<Vec<Expr>> = Vec::new();
    let mut i: usize = 0;
    while i < rows.len()
        invariant
            rv == rows_view(rows@),
            rv.len() == rows.len(),
            forall|k: int| 0 <= k < rows.len() ==> #[trigger] rv[k] == row_view(rows@[k]@),
            i <= rows.len(),
            rows_pass(rv.take(i as int)) == Ok::<Seq<Seq<Term>>, Fault>(rows_view(out@)),
        decreases rows.len() - i,
    {
        proof {
            lemma_rows_size_elem(rv, i as int);
            assert(rv.take(i + 1).drop_last() =~= rv.take(i as int));
        }
        match pass_row(&rows[i]) {
            Ok(x) => {
                let ghost prev = out@;
                let ghost xv = x@;
                out.push(x);
                proof {
                    assert(out@.drop_last() =~= prev);
                    assert(rows_view(out@) == rows_view(prev).push(row_view(xv)));
                }
            },
            Err(x) => {
                proof {
                    lemma_rows_pass_err(rv, i + 1);
                }
                return Err(x);
            },
        }
        i += 1;
    }
    proof {
        assert(rv.take(rows.len() as int) =~= rv);
    }
    Ok(out)
}

/// One bottom-up rewrite pass.
fn pass(expr: Expr) -> (r: EvalResultT<Expr>)
    ensures
        same_outcome(r, pass_spec(expr@)),
    decreases term_size(expr@), 2int,
{
    let ghost t = expr@;
    let w = match expr {
        Expr::Matrix(rows) => match pass_matrix(&rows) {
            Ok(nr) => Expr::Matrix(nr),
            Err(x) => return Err(x),
        },
        Expr::Neg(e) => match pass(*e) {
            Ok(x) => Expr::negate(x),
            Err(x) => return Err(x),
        },
        Expr::Call(f, e) => match pass(*e) {
            Ok(x) => Expr::call(f, x),
            Err(x) => return Err(x),
        },
        Expr::Binary(op, l, r) => {
            let a = match pass(*l) {
                Ok(x) => x,
                Err(x) => return Err(x),
            };
            match pass(*r) {
                Ok(b) => Expr::binary(op, a, b),
                Err(x) => return Err(x),
            }
        },
        Expr::Lambda(p, b) => match pass(*b) {
            Ok(x) => Expr::Lambda(p, Box::new(x)),
            Err(x) => return Err(x),
        },
        Expr::Apply(g, a) => {
            let x = match pass(*g) {
                Ok(x) => x,
                Err(x) => return Err(x),
            };
            match pass(*a) {
                Ok(y) => Expr::Apply(Box::new(x), Box::new(y)),
                Err(x) => return Err(x),
            }
        },
        other => other,
    };
    rewrite_node(w)
}

/// Simplify to a fixpoint. Pure: ignores any environment bindings, so it is
/// safe for the explicit `simplify(...)` command even when variables are
/// bound.
pub fn simplify(expr: Expr) -> (r: EvalResultT<Expr>)
    ensures
        same_outcome(r, simplify_spec(expr@)),
{
    let mut current = expr;
    let mut k: usize = 0;
    while k < MAX_REWRITE_DEPTH
        invariant
            k <= MAX_REWRITE_DEPTH,
            simplify_spec(expr@) == simplify_iter(current@, (MAX_REWRITE_DEPTH - k) as nat),
        decreases MAX_REWRITE_DEPTH - k,
    {
        if current.node_count() > MAX_NODES {
            return too_large();
        }
        let next = match pass(current.copy()) {
            Ok(n) => n,
            Err(x) => return Err(x),
        };
        if next.equals(&current) {
            return Ok(next);
        }
        current = next;
        k += 1;
    }
    Err(EvalError::RewriteLimitExceeded)
}

// ---------------------------------------------------------------------------
// Laws.
// ---------------------------------------------------------------------------

proof fn lemma_simplify_iter_fixpoint(t: Term, fuel: nat)
    ensures
        simplify_iter(t, fuel) matches Ok(s) ==> pass_spec(s) == Ok::<Term, Fault>(s) && term_size(s) <= MAX_NODES,
    decreases fuel,
{
    if fuel > 0 && term_size(t) <= MAX_NODES {
        if let Ok(n) = pass_spec(t) {
            if n != t {
                lemma_simplify_iter_fixpoint(n, (fuel - 1) as nat);
            }
        }
    }
}

/// A simplified expression is a fixpoint of the rewrite pass: one more
/// pass leaves it as it is, and it is within the node ceiling.
pub proof fn lemma_simplify_reaches_fixpoint(t: Term)
    ensures
        simplify_spec(t) matches Ok(s) ==> pass_spec(s) == Ok::<Term, Fault>(s) && term_size(s) <= MAX_NODES,
{
    lemma_simplify_iter_fixpoint(t, MAX_REWRITE_DEPTH as nat);
}

/// Simplifying twice gives what simplifying once gave.
pub proof fn lemma_simplify_idempotent(t: Term)
    ensures
        simplify_spec(t) matches Ok(s) ==> simplify_spec(s) == Ok::<Term, Fault>(s),
{
    lemma_simplify_reaches_fixpoint(t);
}

/// The names of the `Variable` nodes of a term.
pub open spec fn term_vars(t: Term) -> Set<Seq<char>>
    decreases t,
{
    match t {
        Term::Variable(v) => set![v],
        Term::Matrix(rows) => rows_vars(rows),
        Term::Neg(x) | Term::Call(_, x) | Term::Not(x) | Term::Simplify(x) | Term::Expand(x) | Term::Derive(_, x)
        | Term::Assign(_, x) | Term::Lambda(_, x) => term_vars(*x),
        Term::Binary(_, l, r) | Term::Logic(_, l, r) | Term::Apply(l, r) => term_vars(*l) + term_vars(*r),
        Term::Number(_) | Term::Bool(_) => Set::empty(),
    }
}

pub open spec fn rows_vars(rows: Seq<Seq<Term>>) -> Set<Seq<char>>
    decreases rows,
{
    if rows.len() == 0 {
        Set::empty()
    } else {
        proof {
            assert(decreases_to!(rows => rows[rows.len() - 1]));
        }
        rows_vars(rows.drop_last()) + row_vars(rows[rows.len() - 1])
    }
}

pub open spec fn row_vars(row: Seq<Term>) -> Set<Seq<char>>
    decreases row,
{
    if row.len() == 0 {
        Set::empty()
    } else {
        proof {
            assert(decreases_to!(row => row[row.len() - 1]));
        }
        row_vars(row.drop_last()) + term_vars(row[row.len() - 1])
    }
}

/// Every base of the `(coefficient, base)` terms names only names of `s`.
pub open spec fn bases_within(ts: Seq<(DecModel, Option<Term>)>, s: Set<Seq<char>>) -> bool {
    forall|k: int| 0 <= k < ts.len() ==> ((#[trigger] ts[k]).1 matches Some(b) ==> term_vars(b).subset_of(s))
}

/// Every group's base names only names of `s`.
pub open spec fn groups_within(g: Seq<(Term, DecModel)>, s: Set<Seq<char>>) -> bool {
    forall|k: int| 0 <= k < g.len() ==> term_vars((#[trigger] g[k]).0).subset_of(s)
}

proof fn lemma_split_vars(t: Term)
    ensures
        split_coefficient_spec(t) matches Ok((_, Some(b))) ==> term_vars(b).subset_of(term_vars(t)),
    decreases t,
{
    if let Term::Neg(inner) = t {
        lemma_split_vars(*inner);
    }
}

proof fn lemma_flatten_sum_vars(t: Term, sign: DecModel)
    ensures
        flatten_sum_spec(t, sign) matches Ok(ts) ==> bases_within(ts, term_vars(t)),
    decreases t,
{
    match t {
        Term::Binary(BinaryOp::Add, l, r) => {
            lemma_flatten_sum_vars(*l, sign);
            lemma_flatten_sum_vars(*r, sign);
            if let Ok(a) = flatten_sum_spec(*l, sign) {
                if let Ok(b) = flatten_sum_spec(*r, sign) {
                    assert forall|k: int| 0 <= k < (a + b).len() implies ((#[trigger] (a + b)[k]).1 matches Some(x)
                        ==> term_vars(x).subset_of(term_vars(t))) by {
                        if k < a.len() {
                            assert((a + b)[k] == a[k]);
                        } else {
                            assert((a + b)[k] == b[k - a.len()]);
                        }
                    }
                }
            }
        },
        Term::Binary(BinaryOp::Sub, l, r) => {
            lemma_flatten_sum_vars(*l, sign);
            lemma_flatten_sum_vars(*r, neg_model(sign));
            if let Ok(a) = flatten_sum_spec(*l, sign) {
                if let Ok(b) = flatten_sum_spec(*r, neg_model(sign)) {
                    assert forall|k: int| 0 <= k < (a + b).len() implies ((#[trigger] (a + b)[k]).1 matches Some(x)
                        ==> term_vars(x).subset_of(term_vars(t))) by {
                        if k < a.len() {
                            assert((a + b)[k] == a[k]);
                        } else {
                            assert((a + b)[k] == b[k - a.len()]);
                        }
                    }
                }
            }
        },
        Term::Neg(inner) => {
            lemma_flatten_sum_vars(*inner, neg_model(sign));
        },
        _ => {
            lemma_split_vars(t);
        },
    }
}

proof fn lemma_find_group_in(g: Seq<(Term, DecModel)>, b: Term)
    ensures
        find_group(g, b) matches Some(j) ==> 0 <= j < g.len() && g[j].0 == b,
    decreases g.len(),
{
    if g.len() > 0 && g[0].0 != b {
        lemma_find_group_in(g.skip(1), b);
    }
}

proof fn lemma_add_to_group_vars(g: Seq<(Term, DecModel)>, b: Term, c: DecModel, s: Set<Seq<char>>)
    requires
        groups_within(g, s),
        term_vars(b).subset_of(s),
    ensures
        add_to_group(g, b, c) matches Ok(g2) ==> groups_within(g2, s),
{
    lemma_find_group_in(g, b);
    if let Ok(g2) = add_to_group(g, b, c) {
        assert forall|k: int| 0 <= k < g2.len() implies term_vars((#[trigger] g2[k]).0).subset_of(s) by {
            if k < g.len() {
                assert(g2[k].0 == g[k].0);
            }
        }
    }
}

proof fn lemma_sum_fold_vars(terms: Seq<(DecModel, Option<Term>)>, s: Set<Seq<char>>)
    requires
        bases_within(terms, s),
    ensures
        sum_fold(terms) matches Ok((_, g)) ==> groups_within(g, s),
    decreases terms.len(),
{
    if terms.len() > 0 {
        let init = terms.drop_last();
        assert forall|k: int| 0 <= k < init.len() implies ((#[trigger] init[k]).1 matches Some(b)
            ==> term_vars(b).subset_of(s)) by {
            assert(init[k] == terms[k]);
        }
        lemma_sum_fold_vars(init, s);
        if let Ok((c, g)) = sum_fold(init) {
            let (coeff, base) = terms[terms.len() - 1];
            if let Some(b) = base {
                lemma_add_to_group_vars(g, b, coeff, s);
            }
        }
    }
}

proof fn lemma_sum_result_vars(g: Seq<(Term, DecModel)>, s: Set<Seq<char>>)
    requires
        groups_within(g, s),
    ensures
        sum_result(g) matches Some(t) ==> term_vars(t).subset_of(s),
    decreases g.len(),
{
    if g.len() > 0 {
        let init = g.drop_last();
        assert forall|k: int| 0 <= k < init.len() implies term_vars((#[trigger] init[k]).0).subset_of(s) by {
            assert(init[k] == g[k]);
        }
        lemma_sum_result_vars(init, s);
        let (base, coeff) = g[g.len() - 1];
        assert(term_vars(base).subset_of(s));
        let term = group_term(base, coeff);
        if coeff != one_model() && neg_model(coeff) != one_model() {
            assert(term_vars(Term::Number(coeff)) =~= Set::<Seq<char>>::empty());
            assert(term_vars(term) =~= term_vars(base));
        }
        assert(term_vars(term).subset_of(s));
        if let Some(a) = sum_result(init) {
            assert(term_vars(Term::Binary(BinaryOp::Add, Box::new(a), Box::new(term))) =~= term_vars(a) + term_vars(term));
        }
    }
}

proof fn lemma_collect_sum_vars(t: Term)
    ensures
        collect_sum_spec(t) matches Ok(r) ==> term_vars(r).subset_of(term_vars(t)),
{
    lemma_flatten_sum_vars(t, one_model());
    if let Ok(terms) = flatten_sum_spec(t, one_model()) {
        lemma_sum_fold_vars(terms, term_vars(t));
        if let Ok((c, g)) = sum_fold(terms) {
            lemma_sum_result_vars(g, term_vars(t));
            assert(term_vars(Term::Number(c)) =~= Set::<Seq<char>>::empty());
            if let Some(a) = sum_result(g) {
                assert(term_vars(Term::Binary(BinaryOp::Add, Box::new(a), Box::new(Term::Number(c)))) =~= term_vars(a));
            }
        }
    }
}

proof fn lemma_flatten_product_vars(t: Term, c: DecModel)
    ensures
        flatten_product_spec(t, c) matches Ok((_, f)) ==> groups_within(f, term_vars(t)),
    decreases t,
{
    match t {
        Term::Binary(BinaryOp::Mul, l, r) => {
            lemma_flatten_product_vars(*l, c);
            if let Ok((c1, f1)) = flatten_product_spec(*l, c) {
                lemma_flatten_product_vars(*r, c1);
                if let Ok((c2, f2)) = flatten_product_spec(*r, c1) {
                    assert forall|k: int| 0 <= k < (f1 + f2).len() implies term_vars((#[trigger] (f1 + f2)[k]).0).subset_of(
                        term_vars(t),
                    ) by {
                        if k < f1.len() {
                            assert((f1 + f2)[k] == f1[k]);
                        } else {
                            assert((f1 + f2)[k] == f2[k - f1.len()]);
                        }
                    }
                }
            }
        },
        Term::Neg(inner) => {
            lemma_flatten_product_vars(*inner, neg_model(c));
        },
        _ => {},
    }
}

proof fn lemma_product_fold_vars(f: Seq<(Term, DecModel)>, s: Set<Seq<char>>)
    requires
        groups_within(f, s),
    ensures
        product_fold(f) matches Ok(g) ==> groups_within(g, s),
    decreases f.len(),
{
    if f.len() > 0 {
        let init = f.drop_last();
        assert forall|k: int| 0 <= k < init.len() implies term_vars((#[trigger] init[k]).0).subset_of(s) by {
            assert(init[k] == f[k]);
        }
        lemma_product_fold_vars(init, s);
        if let Ok(g) = product_fold(init) {
            let (b, e) = f[f.len() - 1];
            lemma_add_to_group_vars(g, b, e, s);
        }
    }
}

proof fn lemma_product_result_vars(g: Seq<(Term, DecModel)>, start: Option<Term>, s: Set<Seq<char>>)
    requires
        groups_within(g, s),
        start matches Some(x) ==> term_vars(x).subset_of(s),
    ensures
        product_result(g, start) matches Some(t) ==> term_vars(t).subset_of(s),
    decreases g.len(),
{
    if g.len() > 0 {
        let init = g.drop_last();
        assert forall|k: int| 0 <= k < init.len() implies term_vars((#[trigger] init[k]).0).subset_of(s) by {
            assert(init[k] == g[k]);
        }
        lemma_product_result_vars(init, start, s);
        let (base, exp) = g[g.len() - 1];
        assert(term_vars(base).subset_of(s));
        let factor = if exp == one_model() {
            base
        } else {
            Term::Binary(BinaryOp::Pow, Box::new(base), Box::new(Term::Number(exp)))
        };
        assert(term_vars(Term::Number(exp)) =~= Set::<Seq<char>>::empty());
        assert(term_vars(Term::Binary(BinaryOp::Pow, Box::new(base), Box::new(Term::Number(exp)))) =~= term_vars(base));
        assert(term_vars(factor).subset_of(s));
        if let Some(a) = product_result(init, start) {
            assert(term_vars(Term::Binary(BinaryOp::Mul, Box::new(a), Box::new(factor))) =~= term_vars(a) + term_vars(factor));
        }
    }
}

proof fn lemma_collect_product_vars(t: Term)
    ensures
        collect_product_spec(t) matches Ok(r) ==> term_vars(r).subset_of(term_vars(t)),
{
    lemma_flatten_product_vars(t, one_model());
    if let Ok((c, factors)) = flatten_product_spec(t, one_model()) {
        lemma_product_fold_vars(factors, term_vars(t));
        if let Ok(g) = product_fold(factors) {
            let negate = neg_model(c) == one_model() && any_nonzero_exponent(g);
            let start = if c != one_model() && !negate {
                Some(Term::Number(c))
            } else {
                None
            };
            assert(term_vars(Term::Number(c)) =~= Set::<Seq<char>>::empty());
            lemma_product_result_vars(g, start, term_vars(t));
        }
    }
}

proof fn lemma_rewrite_node_vars(t: Term)
    ensures
        rewrite_node_spec(t) matches Ok(r) ==> term_vars(r).subset_of(term_vars(t)),
{
    assert forall|n: DecModel| #[trigger] term_vars(Term::Number(n)) =~= Set::<Seq<char>>::empty() by {}
    match t {
        Term::Neg(e) => {
            match *e {
                Term::Number(n) => {
                    assert(term_vars(Term::Number(neg_model(n))) =~= Set::<Seq<char>>::empty());
                },
                Term::Neg(inner) => {
                    assert(term_vars(*e) == term_vars(*inner));
                },
                _ => {},
            }
        },
        Term::Binary(BinaryOp::Add, _, _) | Term::Binary(BinaryOp::Sub, _, _) => lemma_collect_sum_vars(t),
        Term::Binary(BinaryOp::Mul, _, _) => lemma_collect_product_vars(t),
        Term::Binary(BinaryOp::Pow, l, r) => {
            if let Term::Binary(BinaryOp::Pow, ib, ie) = *l {
                assert(term_vars(*ib).subset_of(term_vars(*l)));
            }
            if let Ok(x) = rewrite_pow_spec(*l, *r) {
                if let Term::Binary(BinaryOp::Pow, xb, xe) = x {
                    if let Term::Number(pp) = *xe {
                        assert(term_vars(Term::Number(pp)) =~= Set::<Seq<char>>::empty());
                        assert(term_vars(*xe) =~= Set::<Seq<char>>::empty());
                        assert(term_vars(x) =~= term_vars(*xb));
                    }
                }
                assert(term_vars(x).subset_of(term_vars(t)));
            }
        },
        Term::Call(f, arg) => {
            assert(term_vars(fold_call_spec(f, *arg)).subset_of(term_vars(t)));
        },
        Term::Binary(BinaryOp::Div, l, r) => {
            if let Ok(x) = rewrite_div_spec(*l, *r) {
                assert(term_vars(x).subset_of(term_vars(t)));
            }
        },
        _ => {},
    }
}

proof fn lemma_pass_vars(t: Term)
    ensures
        pass_spec(t) matches Ok(r) ==> term_vars(r).subset_of(term_vars(t)),
    decreases t,
{
    let with_children: Result<Term, Fault> = match t {
        Term::Matrix(rows) => match rows_pass(rows) {
            Ok(r) => Ok(Term::Matrix(r)),
            Err(e) => Err(e),
        },
        Term::Neg(e) => match pass_spec(*e) {
            Ok(x) => Ok(Term::Neg(Box::new(x))),
            Err(e) => Err(e),
        },
        Term::Call(f, e) => match pass_spec(*e) {
            Ok(x) => Ok(Term::Call(f, Box::new(x))),
            Err(e) => Err(e),
        },
        Term::Binary(op, l, r) => match pass_spec(*l) {
            Ok(a) => match pass_spec(*r) {
                Ok(b) => Ok(Term::Binary(op, Box::new(a), Box::new(b))),
                Err(e) => Err(e),
            },
            Err(e) => Err(e),
        },
        Term::Lambda(p, b) => match pass_spec(*b) {
            Ok(x) => Ok(Term::Lambda(p, Box::new(x))),
            Err(e) => Err(e),
        },
        Term::Apply(g, a) => match pass_spec(*g) {
            Ok(x) => match pass_spec(*a) {
                Ok(y) => Ok(Term::Apply(Box::new(x), Box::new(y))),
                Err(e) => Err(e),
            },
            Err(e) => Err(e),
        },
        other => Ok(other),
    };
    match t {
        Term::Matrix(rows) => lemma_rows_pass_vars(rows),
        Term::Neg(e) | Term::Call(_, e) | Term::Lambda(_, e) => lemma_pass_vars(*e),
        Term::Binary(_, l, r) | Term::Apply(l, r) => {
            lemma_pass_vars(*l);
            lemma_pass_vars(*r);
        },
        _ => {},
    }
    if let Ok(w) = with_children {
        assert(term_vars(w).subset_of(term_vars(t)));
        lemma_rewrite_node_vars(w);
        assert(pass_spec(t) == rewrite_node_spec(w));
    }
}

proof fn lemma_rows_pass_vars(rows: Seq<Seq<Term>>)
    ensures
        rows_pass(rows) matches Ok(r) ==> rows_vars(r).subset_of(rows_vars(rows)),
    decreases rows,
{
    if rows.len() > 0 {
        assert(decreases_to!(rows => rows[rows.len() - 1]));
        lemma_rows_pass_vars(rows.drop_last());
        lemma_row_pass_vars(rows[rows.len() - 1]);
        if let Ok(a) = rows_pass(rows.drop_last()) {
            if let Ok(b) = row_pass(rows[rows.len() - 1]) {
                let r = a.push(b);
                assert(r.drop_last() =~= a);
            }
        }
    }
}

proof fn lemma_row_pass_vars(row: Seq<Term>)
    ensures
        row_pass(row) matches Ok(r) ==> row_vars(r).subset_of(row_vars(row)),
    decreases row,
{
    if row.len() > 0 {
        assert(decreases_to!(row => row[row.len() - 1]));
        lemma_row_pass_vars(row.drop_last());
        lemma_pass_vars(row[row.len() - 1]);
        if let Ok(a) = row_pass(row.drop_last()) {
            if let Ok(b) = pass_spec(row[row.len() - 1]) {
                let r = a.push(b);
                assert(r.drop_last() =~= a);
            }
        }
    }
}

proof fn lemma_simplify_iter_vars(t: Term, fuel: nat)
    ensures
        simplify_iter(t, fuel) matches Ok(r) ==> term_vars(r).subset_of(term_vars(t)),
    decreases fuel,
{
    if fuel > 0 && term_size(t) <= MAX_NODES {
        lemma_pass_vars(t);
        if let Ok(n) = pass_spec(t) {
            if n != t {
                lemma_simplify_iter_vars(n, (fuel - 1) as nat);
            }
        }
    }
}

/// Simplification brings in no new name: every `Variable` of the result
/// already occurs in the input (it reads no binding, and may drop names,
/// as `x - x` becomes `0`).
pub proof fn lemma_simplify_keeps_names(t: Term)
    ensures
        simplify_spec(t) matches Ok(r) ==> term_vars(r).subset_of(term_vars(t)),
{
    lemma_simplify_iter_vars(t, MAX_REWRITE_DEPTH as nat);
}

} // verus!
