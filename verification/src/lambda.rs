//! Untyped lambda calculus: capture-avoiding substitution and normal-order
//! beta reduction, environment-aware and step-capped.

use vstd::prelude::*;
use crate::env::{Environment, lookup};
use crate::error::{EvalError, EvalResultT};
use crate::ast::{Expr, Term, row_view, rows_view, lemma_row_view, lemma_rows_view, term_size, row_size, rows_size, lemma_row_size_elem, lemma_rows_size_elem};

verus! {

/// Free variables of a term.
pub open spec fn free_vars_spec(t: Term) -> Set<Seq<char>>
    decreases t,
{
    match t {
        Term::Variable(v) => set![v],
        Term::Lambda(p, b) => free_vars_spec(*b).remove(p),
        Term::Apply(l, r) | Term::Binary(_, l, r) | Term::Logic(_, l, r) => free_vars_spec(*l)
            + free_vars_spec(*r),
        Term::Neg(x) | Term::Call(_, x) | Term::Not(x) | Term::Simplify(x) | Term::Expand(x)
        | Term::Assign(_, x) | Term::Derive(_, x) => free_vars_spec(*x),
        Term::Matrix(rows) => rows_free_vars(rows),
        Term::Number(_) | Term::Bool(_) => Set::empty(),
    }
}

pub open spec fn rows_free_vars(rows: Seq<Seq<Term>>) -> Set<Seq<char>>
    decreases rows,
{
    if rows.len() == 0 {
        Set::empty()
    } else {
        proof {
            assert(decreases_to!(rows => rows[rows.len() - 1]));
        }
        rows_free_vars(rows.drop_last()) + row_free_vars(rows[rows.len() - 1])
    }
}

pub open spec fn row_free_vars(row: Seq<Term>) -> Set<Seq<char>>
    decreases row,
{
    if row.len() == 0 {
        Set::empty()
    } else {
        proof {
            assert(decreases_to!(row => row[row.len() - 1]));
        }
        row_free_vars(row.drop_last()) + free_vars_spec(row[row.len() - 1])
    }
}

/// The views of a list of names, as a set.
pub open spec fn name_set(v: Seq<String>) -> Set<Seq<char>> {
    v.map_values(|s: String| s@).to_set()
}

proof fn lemma_name_set_push(v: Seq<String>, s: String)
    ensures
        name_set(v.push(s)) == name_set(v).insert(s@),
{
    let m = v.map_values(|x: String| x@);
    let m2 = m.push(s@);
    assert(v.push(s).map_values(|x: String| x@) =~= m2);
    assert forall|a: Seq<char>| m2.contains(a) <==> (m.contains(a) || a == s@) by {
        if m2.contains(a) {
            let i = choose|i: int| 0 <= i < m2.len() && m2[i] == a;
            if i < m.len() {
                assert(m[i] == a);
            }
        }
        if m.contains(a) {
            let i = choose|i: int| 0 <= i < m.len() && m[i] == a;
            assert(m2[i] == a);
        }
        if a == s@ {
            assert(m2[m.len() as int] == a);
        }
    }
    assert(m2.to_set() =~= m.to_set().insert(s@));
}

proof fn lemma_name_set_contains(v: Seq<String>, s: Seq<char>)
    ensures
        name_set(v).contains(s) <==> exists|i: int| 0 <= i < v.len() && #[trigger] v[i]@ == s,
{
    let m = v.map_values(|x: String| x@);
    if name_set(v).contains(s) {
        assert(m.contains(s));
        let i = choose|i: int| 0 <= i < m.len() && m[i] == s;
        assert(v[i]@ == s);
    }
    if exists|i: int| 0 <= i < v.len() && #[trigger] v[i]@ == s {
        let i = choose|i: int| 0 <= i < v.len() && #[trigger] v[i]@ == s;
        assert(m[i] == s);
        assert(m.contains(s));
    }
}

fn contains_name(v: &Vec<String>, s: &String) -> (r: bool)
    ensures
        r == name_set(v@).contains(s@),
{
    proof {
        lemma_name_set_contains(v@, s@);
    }
    let mut i: usize = 0;
    while i < v.len()
        invariant
            i <= v.len(),
            forall|k: int| 0 <= k < i ==> #[trigger] v@[k]@ != s@,
        decreases v.len() - i,
    {
        if v[i] == *s {
            proof {
                assert(v@[i as int]@ == s@);
                lemma_name_set_contains(v@, s@);
            }
            return true;
        }
        i += 1;
    }
    false
}

fn push_name(acc: &mut Vec<String>, s: String)
    ensures
        name_set(final(acc)@) == name_set(old(acc)@).insert(s@),
        final(acc)@ == old(acc)@.push(s),
{
    proof {
        lemma_name_set_push(old(acc)@, s);
    }
    acc.push(s);
}

/// Collects the free variable names of `e` into `acc`.
fn free_vars(e: &Expr, acc: &mut Vec<String>)
    ensures
        name_set(final(acc)@) == name_set(old(acc)@) + free_vars_spec(e@),
    decreases e,
{
    match e {
        Expr::Variable(v) => {
            push_name(acc, v.clone());
            proof {
                assert(name_set(old(acc)@).insert(v@) =~= name_set(old(acc)@) + set![v@]);
            }
        },
        Expr::Lambda(p, b) => {
            let mut inner: Vec<String> = Vec::new();
            free_vars(b, &mut inner);
            proof {
                assert(name_set(Seq::<String>::empty()) =~= Set::<Seq<char>>::empty());
                assert(name_set(inner@) =~= free_vars_spec(b@));
            }
            let ghost before = name_set(acc@);
            let mut i: usize = 0;
            while i < inner.len()
                invariant
                    i <= inner.len(),
                    name_set(inner@) == free_vars_spec(b@),
                    name_set(acc@) == before + name_set(inner@.take(i as int)).remove(p@),
                decreases inner.len() - i,
            {
                let ghost prev = name_set(acc@);
                proof {
                    assert(inner@.take(i + 1) =~= inner@.take(i as int).push(inner@[i as int]));
                    lemma_name_set_push(inner@.take(i as int), inner@[i as int]);
                }
                if inner[i] != *p {
                    push_name(acc, inner[i].clone());
                    proof {
                        assert(name_set(acc@) =~= before + name_set(inner@.take(i + 1)).remove(p@));
                    }
                } else {
                    proof {
                        assert(name_set(acc@) =~= before + name_set(inner@.take(i + 1)).remove(p@));
                    }
                }
                i += 1;
            }
            proof {
                assert(inner@.take(inner.len() as int) =~= inner@);
                assert(name_set(acc@) =~= name_set(old(acc)@) + free_vars_spec(e@));
            }
        },
        Expr::Apply(l, r) | Expr::Binary(_, l, r) | Expr::Logic(_, l, r) => {
            free_vars(l, acc);
            free_vars(r, acc);
            proof {
                assert(name_set(acc@) =~= name_set(old(acc)@) + free_vars_spec(e@));
            }
        },
        Expr::Neg(x) | Expr::Call(_, x) | Expr::Not(x) | Expr::Simplify(x) | Expr::Expand(x)
        | Expr::Assign(_, x) | Expr::Derive(_, x) => {
            free_vars(x, acc);
        },
        Expr::Matrix(rows) => {
            let ghost rv = rows_view(rows@);
            proof {
                lemma_rows_view(rows@);
                assert(rv.take(0) =~= Seq::<Seq<Term>>::empty());
                assert(name_set(old(acc)@) + rows_free_vars(rv.take(0)) =~= name_set(old(acc)@));
            }
            let mut i: usize = 0;
            while i < rows.len()
                invariant
                    *e == Expr::Matrix(*rows),
                    i <= rows.len(),
                    rv == rows_view(rows@),
                    rv.len() == rows.len(),
                    forall|k: int| 0 <= k < rows.len() ==> #[trigger] rv[k] == row_view(rows@[k]@),
                    name_set(acc@) == name_set(old(acc)@) + rows_free_vars(rv.take(i as int)),
                decreases rows.len() - i,
            {
                let row = &rows[i];
                let ghost tv = row_view(row@);
                let ghost acc_row = name_set(acc@);
                proof {
                    lemma_row_view(row@);
                    assert(tv.take(0) =~= Seq::<Term>::empty());
                    assert(acc_row + row_free_vars(tv.take(0)) =~= acc_row);
                }
                let mut j: usize = 0;
                while j < row.len()
                    invariant
                        *e == Expr::Matrix(*rows),
                        i < rows.len(),
                        *row == rows@[i as int],
                        j <= row.len(),
                        tv == row_view(row@),
                        tv.len() == row.len(),
                        forall|k: int| 0 <= k < row.len() ==> #[trigger] tv[k] == crate::ast::expr_view(row@[k]),
                        name_set(acc@) == acc_row + row_free_vars(tv.take(j as int)),
                    decreases row.len() - j,
                {
                    proof {
                        assert(decreases_to!(*e => (*e)->Matrix_0));
                        assert(decreases_to!(*rows => rows@));
                        assert(decreases_to!(rows@ => rows@[i as int]));
                        assert(decreases_to!(rows@[i as int] => rows@[i as int]@));
                        assert(decreases_to!(rows@[i as int]@ => rows@[i as int]@[j as int]));
                        assert(tv.take(j + 1).drop_last() =~= tv.take(j as int));
                    }
                    free_vars(&row[j], acc);
                    proof {
                        assert(name_set(acc@) =~= acc_row + row_free_vars(tv.take(j + 1)));
                    }
                    j += 1;
                }
                proof {
                    assert(tv.take(row.len() as int) =~= tv);
                    assert(rv.take(i + 1).drop_last() =~= rv.take(i as int));
                    assert(name_set(acc@) =~= name_set(old(acc)@) + rows_free_vars(rv.take(i + 1)));
                }
                i += 1;
            }
            proof {
                assert(rv.take(rows.len() as int) =~= rv);
            }
        },
        Expr::Number(_) | Expr::Bool(_) => {
            proof {
                assert(name_set(old(acc)@) + Set::empty() =~= name_set(old(acc)@));
            }
        },
    }
}

/// The candidate names `name`, `name'`, `name''`, ... up to a budget, and
/// the first one outside `forbidden`.
pub open spec fn fresh_search(name: Seq<char>, forbidden: Set<Seq<char>>, budget: nat) -> Seq<char>
    decreases budget,
{
    if budget == 0 || !forbidden.contains(name) {
        name
    } else {
        fresh_search(name.push('\''), forbidden, (budget - 1) as nat)
    }
}

/// A length no name in `f` exceeds (when `f` is finite).
pub open spec fn bounds_lengths(f: Set<Seq<char>>, m: nat) -> bool {
    forall|s: Seq<char>| f.contains(s) ==> s.len() <= m
}

pub open spec fn length_bound(f: Set<Seq<char>>) -> nat {
    choose|m: nat| #[trigger] bounds_lengths(f, m)
}

/// `base` followed by the fewest primes (at least one) that make a name
/// outside `forbidden`.
pub open spec fn fresh_spec(base: Seq<char>, forbidden: Set<Seq<char>>) -> Seq<char> {
    fresh_search(base.push('\''), forbidden, length_bound(forbidden) + 1)
}

/// Every name of a finite set is no longer than its length bound.
pub proof fn lemma_length_bound(f: Set<Seq<char>>)
    requires
        f.finite(),
    ensures
        forall|s: Seq<char>| f.contains(s) ==> s.len() <= length_bound(f),
    decreases f.len(),
{
    lemma_exists_length_bound(f);
}

proof fn lemma_exists_length_bound(f: Set<Seq<char>>)
    requires
        f.finite(),
    ensures
        exists|m: nat| #[trigger] bounds_lengths(f, m),
    decreases f.len(),
{
    if f.len() == 0 {
        f.lemma_len0_is_empty();
        assert(bounds_lengths(f, 0nat));
    } else {
        let x = f.choose();
        assert(f.contains(x));
        let g = f.remove(x);
        lemma_exists_length_bound(g);
        let m = choose|m: nat| #[trigger] bounds_lengths(g, m);
        let m2: nat = if m >= x.len() { m } else { x.len() };
        assert forall|s: Seq<char>| f.contains(s) implies s.len() <= m2 by {
            if s != x {
                assert(g.contains(s));
            }
        }
        assert(bounds_lengths(f, m2));
    }
}

/// `base'` with as many primes as needed to avoid every forbidden name.
fn fresh_name(base: &String, forbidden: &Vec<String>) -> (r: String)
    ensures
        r@ == fresh_spec(base@, name_set(forbidden@)),
        !name_set(forbidden@).contains(r@),
{
    let ghost f = name_set(forbidden@);
    proof {
        vstd::seq_lib::seq_to_set_is_finite(forbidden@.map_values(|x: String| x@));
        lemma_length_bound(f);
        reveal_strlit("'");
    }
    let ghost m = length_bound(f);
    let mut name = base.clone();
    name.append("'");
    proof {
        assert(name@ =~= base@.push('\''));
    }
    while contains_name(forbidden, &name)
        invariant
            f == name_set(forbidden@),
            m == length_bound(f),
            forall|s: Seq<char>| f.contains(s) ==> s.len() <= m,
            name@.len() >= base@.len() + 1,
            name@.len() - base@.len() <= m + 1,
            fresh_spec(base@, f) == fresh_search(name@, f, (m + 2 - (name@.len() - base@.len())) as nat),
        decreases m + 1 - (name@.len() - base@.len()),
    {
        proof {
            reveal_strlit("'");
        }
        let ghost old_name = name@;
        name.append("'");
        proof {
            assert(name@ =~= old_name.push('\''));
        }
    }
    name
}

pub open spec fn rows_subst(rows: Seq<Seq<Term>>, var: Seq<char>, value: Term) -> Seq<Seq<Term>>
    decreases rows_size(rows), 2int, rows.len(),
{
    if rows.len() == 0 {
        Seq::empty()
    } else {
        rows_subst(rows.drop_last(), var, value).push(row_subst(rows[rows.len() - 1], var, value))
    }
}

pub open spec fn row_subst(row: Seq<Term>, var: Seq<char>, value: Term) -> Seq<Term>
    decreases row_size(row), 1int, row.len(),
{
    if row.len() == 0 {
        Seq::empty()
    } else {
        row_subst(row.drop_last(), var, value).push(subst_spec(row[row.len() - 1], var, value))
    }
}

/// Capture-avoiding substitution of `value` for the free occurrences of
/// `var`. A binder that would capture a free variable of `value` is first
/// renamed to a fresh name.
pub open spec fn subst_spec(t: Term, var: Seq<char>, value: Term) -> Term
    decreases term_size(t), 0int, 0nat,
{
    match t {
        Term::Variable(v) => if v == var {
            value
        } else {
            t
        },
        Term::Lambda(p, b) => if p == var {
            t
        } else if free_vars_spec(value).contains(p) {
            let forbidden = free_vars_spec(value) + free_vars_spec(*b) + set![var];
            let fresh = fresh_spec(p, forbidden);
            let b2 = subst_spec(*b, p, Term::Variable(fresh));
            if term_size(b2) == term_size(*b) {
                Term::Lambda(fresh, Box::new(subst_spec(b2, var, value)))
            } else {
                t
            }
        } else {
            Term::Lambda(p, Box::new(subst_spec(*b, var, value)))
        },
        Term::Apply(l, r) => Term::Apply(Box::new(subst_spec(*l, var, value)), Box::new(subst_spec(*r, var, value))),
        Term::Binary(op, l, r) => Term::Binary(op, Box::new(subst_spec(*l, var, value)), Box::new(subst_spec(*r, var, value))),
        Term::Logic(op, l, r) => Term::Logic(op, Box::new(subst_spec(*l, var, value)), Box::new(subst_spec(*r, var, value))),
        Term::Neg(x) => Term::Neg(Box::new(subst_spec(*x, var, value))),
        Term::Call(f, x) => Term::Call(f, Box::new(subst_spec(*x, var, value))),
        Term::Not(x) => Term::Not(Box::new(subst_spec(*x, var, value))),
        Term::Simplify(x) => Term::Simplify(Box::new(subst_spec(*x, var, value))),
        Term::Expand(x) => Term::Expand(Box::new(subst_spec(*x, var, value))),
        Term::Derive(v, x) => Term::Derive(v, Box::new(subst_spec(*x, var, value))),
        Term::Assign(n, x) => Term::Assign(n, Box::new(subst_spec(*x, var, value))),
        Term::Matrix(rows) => Term::Matrix(rows_subst(rows, var, value)),
        Term::Number(_) | Term::Bool(_) => t,
    }
}

/// Substituting a name for a name keeps the size of a term.
pub proof fn lemma_subst_name_keeps_size(t: Term, var: Seq<char>, name: Seq<char>)
    ensures
        term_size(subst_spec(t, var, Term::Variable(name))) == term_size(t),
    decreases term_size(t), 0int, 0nat,
{
    let value = Term::Variable(name);
    match t {
        Term::Lambda(p, b) => {
            if p != var {
                if free_vars_spec(value).contains(p) {
                    let forbidden = free_vars_spec(value) + free_vars_spec(*b) + set![var];
                    let fresh = fresh_spec(p, forbidden);
                    lemma_subst_name_keeps_size(*b, p, fresh);
                    let b2 = subst_spec(*b, p, Term::Variable(fresh));
                    lemma_subst_name_keeps_size(b2, var, name);
                } else {
                    lemma_subst_name_keeps_size(*b, var, name);
                }
            }
        },
        Term::Apply(l, x) | Term::Binary(_, l, x) | Term::Logic(_, l, x) => {
            lemma_subst_name_keeps_size(*l, var, name);
            lemma_subst_name_keeps_size(*x, var, name);
        },
        Term::Neg(x) | Term::Call(_, x) | Term::Not(x) | Term::Simplify(x) | Term::Expand(x) | Term::Derive(_, x)
        | Term::Assign(_, x) => {
            lemma_subst_name_keeps_size(*x, var, name);
        },
        Term::Matrix(rows) => {
            assert forall|k: int| 0 <= k < rows.len() implies #[trigger] row_size(row_subst(rows[k], var, value))
                == row_size(rows[k]) by {
                lemma_rows_size_elem(rows, k);
                lemma_row_subst_name_keeps_size(rows[k], var, name);
            }
            lemma_rows_size_subst(rows, var, value);
        },
        _ => {},
    }
}

proof fn lemma_row_subst_name_keeps_size(row: Seq<Term>, var: Seq<char>, name: Seq<char>)
    ensures
        row_size(row_subst(row, var, Term::Variable(name))) == row_size(row),
    decreases row_size(row), 1int, row.len(),
{
    if row.len() > 0 {
        let value = Term::Variable(name);
        let n = row.len() - 1;
        lemma_row_subst_name_keeps_size(row.drop_last(), var, name);
        lemma_row_size_elem(row, n);
        lemma_subst_name_keeps_size(row[n], var, name);
        let s = row_subst(row, var, value);
        lemma_row_subst_len(row, var, value);
        assert(s.drop_last() =~= row_subst(row.drop_last(), var, value));
        assert(s[n] == subst_spec(row[n], var, value));
        assert(row_size(s) == row_size(s.drop_last()) + term_size(s[n]));
    }
}

/// The free names of a term after substituting for `var`: `var` gives way
/// to the value's free names where it occurs, and nothing else changes.
pub open spec fn subst_free(names: Set<Seq<char>>, var: Seq<char>, value: Term) -> Set<Seq<char>> {
    if names.contains(var) {
        names.remove(var) + free_vars_spec(value)
    } else {
        names
    }
}

proof fn lemma_subst_free_union(s1: Set<Seq<char>>, s2: Set<Seq<char>>, var: Seq<char>, value: Term)
    ensures
        subst_free(s1 + s2, var, value) == subst_free(s1, var, value) + subst_free(s2, var, value),
{
    assert(subst_free(s1 + s2, var, value) =~= subst_free(s1, var, value) + subst_free(s2, var, value));
}

/// A term has finitely many free names.
pub proof fn lemma_free_vars_finite(t: Term)
    ensures
        free_vars_spec(t).finite(),
    decreases term_size(t), 0int, 0nat,
{
    match t {
        Term::Lambda(_, b) => lemma_free_vars_finite(*b),
        Term::Apply(l, x) | Term::Binary(_, l, x) | Term::Logic(_, l, x) => {
            lemma_free_vars_finite(*l);
            lemma_free_vars_finite(*x);
        },
        Term::Neg(x) | Term::Call(_, x) | Term::Not(x) | Term::Simplify(x) | Term::Expand(x) | Term::Derive(_, x)
        | Term::Assign(_, x) => lemma_free_vars_finite(*x),
        Term::Matrix(rows) => lemma_rows_free_vars_finite(rows),
        Term::Variable(_) | Term::Number(_) | Term::Bool(_) => {},
    }
}

proof fn lemma_rows_free_vars_finite(rows: Seq<Seq<Term>>)
    ensures
        rows_free_vars(rows).finite(),
    decreases rows_size(rows), 2int, rows.len(),
{
    if rows.len() > 0 {
        lemma_rows_free_vars_finite(rows.drop_last());
        lemma_row_free_vars_finite(rows[rows.len() - 1]);
    }
}

proof fn lemma_row_free_vars_finite(row: Seq<Term>)
    ensures
        row_free_vars(row).finite(),
    decreases row_size(row), 1int, row.len(),
{
    if row.len() > 0 {
        lemma_row_free_vars_finite(row.drop_last());
        lemma_free_vars_finite(row[row.len() - 1]);
    }
}

proof fn lemma_fresh_search_avoids(name: Seq<char>, f: Set<Seq<char>>, budget: nat, m: nat)
    requires
        forall|s: Seq<char>| f.contains(s) ==> s.len() <= m,
        name.len() + budget > m,
    ensures
        !f.contains(fresh_search(name, f, budget)),
    decreases budget,
{
    if budget > 0 && f.contains(name) {
        lemma_fresh_search_avoids(name.push('\''), f, (budget - 1) as nat, m);
    }
}

/// The fresh name is outside a finite forbidden set.
pub proof fn lemma_fresh_avoids(base: Seq<char>, f: Set<Seq<char>>)
    requires
        f.finite(),
    ensures
        !f.contains(fresh_spec(base, f)),
{
    lemma_length_bound(f);
    lemma_fresh_search_avoids(base.push('\''), f, length_bound(f) + 1, length_bound(f));
}

/// Substitution avoids capture: the free names of the result are exactly
/// those of the term, with `var`, where it occurs free, replaced by the
/// free names of the value.
pub proof fn lemma_subst_free_vars_exact(t: Term, var: Seq<char>, value: Term)
    ensures
        free_vars_spec(subst_spec(t, var, value)) == subst_free(free_vars_spec(t), var, value),
    decreases term_size(t), 0int, 0nat,
{
    let r = subst_spec(t, var, value);
    match t {
        Term::Variable(v) => {
            assert(free_vars_spec(r) =~= subst_free(free_vars_spec(t), var, value));
        },
        Term::Lambda(p, b) => {
            if p == var {
            } else if free_vars_spec(value).contains(p) {
                let forbidden = free_vars_spec(value) + free_vars_spec(*b) + set![var];
                let fresh = fresh_spec(p, forbidden);
                lemma_free_vars_finite(value);
                lemma_free_vars_finite(*b);
                lemma_fresh_avoids(p, forbidden);
                let b2 = subst_spec(*b, p, Term::Variable(fresh));
                lemma_subst_name_keeps_size(*b, p, fresh);
                lemma_subst_free_vars_exact(*b, p, Term::Variable(fresh));
                lemma_subst_free_vars_exact(b2, var, value);
                assert(free_vars_spec(r) =~= subst_free(free_vars_spec(t), var, value));
            } else {
                lemma_subst_free_vars_exact(*b, var, value);
                assert(free_vars_spec(r) =~= subst_free(free_vars_spec(t), var, value));
            }
        },
        Term::Apply(l, x) | Term::Binary(_, l, x) | Term::Logic(_, l, x) => {
            lemma_subst_free_vars_exact(*l, var, value);
            lemma_subst_free_vars_exact(*x, var, value);
            lemma_subst_free_union(free_vars_spec(*l), free_vars_spec(*x), var, value);
        },
        Term::Neg(x) | Term::Call(_, x) | Term::Not(x) | Term::Simplify(x) | Term::Expand(x) | Term::Derive(_, x)
        | Term::Assign(_, x) => {
            lemma_subst_free_vars_exact(*x, var, value);
        },
        Term::Matrix(rows) => {
            lemma_rows_subst_free_vars_exact(rows, var, value);
        },
        Term::Number(_) | Term::Bool(_) => {},
    }
}

proof fn lemma_rows_subst_free_vars_exact(rows: Seq<Seq<Term>>, var: Seq<char>, value: Term)
    ensures
        rows_free_vars(rows_subst(rows, var, value)) == subst_free(rows_free_vars(rows), var, value),
    decreases rows_size(rows), 2int, rows.len(),
{
    if rows.len() == 0 {
        assert(rows_subst(rows, var, value) =~= Seq::<Seq<Term>>::empty());
    } else {
        let rs = rows_subst(rows, var, value);
        lemma_rows_subst_free_vars_exact(rows.drop_last(), var, value);
        lemma_row_subst_free_vars_exact(rows[rows.len() - 1], var, value);
        assert(rs.drop_last() =~= rows_subst(rows.drop_last(), var, value));
        lemma_subst_free_union(rows_free_vars(rows.drop_last()), row_free_vars(rows[rows.len() - 1]), var, value);
    }
}

proof fn lemma_row_subst_free_vars_exact(row: Seq<Term>, var: Seq<char>, value: Term)
    ensures
        row_free_vars(row_subst(row, var, value)) == subst_free(row_free_vars(row), var, value),
    decreases row_size(row), 1int, row.len(),
{
    if row.len() == 0 {
        assert(row_subst(row, var, value) =~= Seq::<Term>::empty());
    } else {
        let rs = row_subst(row, var, value);
        lemma_row_subst_free_vars_exact(row.drop_last(), var, value);
        lemma_subst_free_vars_exact(row[row.len() - 1], var, value);
        assert(rs.drop_last() =~= row_subst(row.drop_last(), var, value));
        lemma_subst_free_union(row_free_vars(row.drop_last()), free_vars_spec(row[row.len() - 1]), var, value);
    }
}

/// The substitution keeps the size when the value is a variable.
proof fn lemma_row_subst_len(row: Seq<Term>, var: Seq<char>, value: Term)
    ensures
        row_subst(row, var, value).len() == row.len(),
        forall|j: int| 0 <= j < row.len() ==> #[trigger] row_subst(row, var, value)[j] == subst_spec(row[j], var, value),
    decreases row.len(),
{
    if row.len() > 0 {
        lemma_row_subst_len(row.drop_last(), var, value);
    }
}

proof fn lemma_rows_subst_len(rows: Seq<Seq<Term>>, var: Seq<char>, value: Term)
    ensures
        rows_subst(rows, var, value).len() == rows.len(),
        forall|i: int| 0 <= i < rows.len() ==> #[trigger] rows_subst(rows, var, value)[i] == row_subst(rows[i], var, value),
    decreases rows.len(),
{
    if rows.len() > 0 {
        lemma_rows_subst_len(rows.drop_last(), var, value);
    }
}

/// Capture-avoiding substitution: replaces the free `Variable(var)` with
/// `value`.
fn substitute(expr: Expr, var: &String, value: &Expr) -> (r: Expr)
    ensures
        r@ == subst_spec(expr@, var@, value@),
        value@ is Variable ==> term_size(r@) == term_size(expr@),
    decreases term_size(expr@),
{
    let ghost t = expr@;
    match expr {
        Expr::Variable(v) => {
            if v == *var {
                value.copy()
            } else {
                Expr::Variable(v)
            }
        },
        Expr::Lambda(param, body) => {
            if param == *var {
                return Expr::Lambda(param, body);
            }
            let mut value_fv: Vec<String> = Vec::new();
            free_vars(value, &mut value_fv);
            proof {
                assert(name_set(Seq::<String>::empty()) =~= Set::<Seq<char>>::empty());
                assert(name_set(value_fv@) =~= free_vars_spec(value@));
            }
            if contains_name(&value_fv, &param) {
                let mut forbidden = value_fv;
                free_vars(&body, &mut forbidden);
                push_name(&mut forbidden, var.clone());
                proof {
                    assert(name_set(forbidden@) =~= free_vars_spec(value@) + free_vars_spec(body@) + set![var@]);
                }
                let fresh = fresh_name(&param, &forbidden);
                let body2 = substitute(*body, &param, &Expr::Variable(fresh.clone()));
                let inner = substitute(body2, var, value);
                Expr::Lambda(fresh, Box::new(inner))
            } else {
                Expr::Lambda(param, Box::new(substitute(*body, var, value)))
            }
        },
        Expr::Apply(l, r) => Expr::Apply(Box::new(substitute(*l, var, value)), Box::new(substitute(*r, var, value))),
        Expr::Binary(op, l, r) => Expr::Binary(op, Box::new(substitute(*l, var, value)), Box::new(substitute(*r, var, value))),
        Expr::Logic(op, l, r) => Expr::Logic(op, Box::new(substitute(*l, var, value)), Box::new(substitute(*r, var, value))),
        Expr::Neg(x) => Expr::Neg(Box::new(substitute(*x, var, value))),
        Expr::Call(f, x) => Expr::Call(f, Box::new(substitute(*x, var, value))),
        Expr::Not(x) => Expr::Not(Box::new(substitute(*x, var, value))),
        Expr::Simplify(x) => Expr::Simplify(Box::new(substitute(*x, var, value))),
        Expr::Expand(x) => Expr::Expand(Box::new(substitute(*x, var, value))),
        Expr::Derive(v, x) => Expr::Derive(v, Box::new(substitute(*x, var, value))),
        Expr::Assign(n, x) => Expr::Assign(n, Box::new(substitute(*x, var, value))),
        Expr::Matrix(rows) => {
            let ghost rv = rows_view(rows@);
            proof {
                lemma_rows_view(rows@);
                lemma_rows_subst_len(rv, var@, value@);
            }
            let mut out: Vec<Vec<Expr>> = Vec::new();
            let mut rows = rows;
            let mut i: usize = 0;
            let n = rows.len();
            while i < n
                invariant
                    t == Term::Matrix(rv),
                    t == expr@,
                    n == rows.len(),
                    rv.len() == n,
                    rv == rows_view(rows@),
                    forall|k: int| 0 <= k < n ==> #[trigger] rv[k] == row_view(rows@[k]@),
                    rows_subst(rv, var@, value@).len() == n,
                    forall|k: int| 0 <= k < n ==> #[trigger] rows_subst(rv, var@, value@)[k] == row_subst(rv[k], var@, value@),
                    i <= n,
                    out.len() == i,
                    forall|k: int| 0 <= k < i ==> #[trigger] row_view(out@[k]@) == row_subst(rv[k], var@, value@),
                    value@ is Variable ==> forall|k: int| 0 <= k < i ==> #[trigger] row_size(row_view(out@[k]@)) == row_size(rv[k]),
                decreases n - i,
            {
                let row = &rows[i];
                let ghost tv = row_view(row@);
                proof {
                    lemma_row_view(row@);
                    lemma_row_subst_len(tv, var@, value@);
                    lemma_rows_size_elem(rv, i as int);
                }
                let mut nr: Vec<Expr> = Vec::new();
                let mut j: usize = 0;
                while j < row.len()
                    invariant
                        t == Term::Matrix(rv),
                        t == expr@,
                        i < n,
                        n == rows.len(),
                        rv.len() == n,
                        *row == rows@[i as int],
                        tv == rv[i as int],
                        row_size(tv) <= rows_size(rv),
                        tv == row_view(row@),
                        tv.len() == row.len(),
                        forall|k: int| 0 <= k < row.len() ==> #[trigger] tv[k] == crate::ast::expr_view(row@[k]),
                        row_subst(tv, var@, value@).len() == tv.len(),
                        forall|k: int| 0 <= k < tv.len() ==> #[trigger] row_subst(tv, var@, value@)[k] == subst_spec(tv[k], var@, value@),
                        j <= row.len(),
                        nr.len() == j,
                        forall|k: int| 0 <= k < j ==> #[trigger] crate::ast::expr_view(nr@[k]) == subst_spec(tv[k], var@, value@),
                        value@ is Variable ==> row_size(row_view(nr@)) == row_size(tv.take(j as int)),
                    decreases row.len() - j,
                {
                    proof {
                        lemma_row_size_elem(tv, j as int);
                    }
                    let el = row[j].copy();
                    proof {
                        assert(el@ == tv[j as int]);
                        assert(term_size(el@) < term_size(t));
                    }
                    let ne = substitute(el, var, value);
                    let ghost prev = nr@;
                    let ghost ne_t = ne@;
                    nr.push(ne);
                    proof {
                        assert(nr@.drop_last() =~= prev);
                        assert(row_view(nr@) == row_view(prev).push(ne_t));
                        assert(row_view(prev).push(ne_t).drop_last() =~= row_view(prev));
                        assert(row_size(row_view(nr@)) == row_size(row_view(prev)) + term_size(ne_t));
                        assert(tv.take(j + 1).drop_last() =~= tv.take(j as int));
                        assert(row_size(tv.take(j + 1)) == row_size(tv.take(j as int)) + term_size(tv[j as int]));
                    }
                    j += 1;
                }
                proof {
                    lemma_row_view(nr@);
                    assert(row_view(nr@) =~= row_subst(tv, var@, value@));
                    assert(tv.take(row.len() as int) =~= tv);
                }
                out.push(nr);
                i += 1;
            }
            proof {
                lemma_rows_view(out@);
                assert(rows_view(out@) =~= rows_subst(rv, var@, value@));
            }
            let r = Expr::Matrix(out);
            proof {
                if value@ is Variable {
                    assert forall|k: int| 0 <= k < rv.len() implies #[trigger] row_size(row_subst(rv[k], var@, value@)) == row_size(rv[k]) by {
                        assert(row_view(out@[k]@) == row_subst(rv[k], var@, value@));
                    }
                    lemma_rows_size_subst(rv, var@, value@);
                }
            }
            r
        },
        Expr::Number(n) => Expr::Number(n),
        Expr::Bool(b) => Expr::Bool(b),
    }
}

/// Sizes of the rows are preserved when every row keeps its size.
proof fn lemma_rows_size_subst(rows: Seq<Seq<Term>>, var: Seq<char>, value: Term)
    requires
        forall|k: int| 0 <= k < rows.len() ==> #[trigger] row_size(row_subst(rows[k], var, value)) == row_size(rows[k]),
    ensures
        rows_size(rows_subst(rows, var, value)) == rows_size(rows),
    decreases rows.len(),
{
    if rows.len() > 0 {
        lemma_rows_size_subst(rows.drop_last(), var, value);
        lemma_rows_subst_len(rows, var, value);
        let s = rows_subst(rows, var, value);
        let n = rows.len() - 1;
        assert(s == rows_subst(rows.drop_last(), var, value).push(row_subst(rows[n], var, value)));
        assert(s.drop_last() =~= rows_subst(rows.drop_last(), var, value));
        assert(s[n] == row_subst(rows[n], var, value));
        assert(row_size(row_subst(rows[n], var, value)) == row_size(rows[n]));
        assert(rows_size(s) == rows_size(s.drop_last()) + row_size(s[n]));
    } else {
        assert(rows_subst(rows, var, value) =~= Seq::<Seq<Term>>::empty());
    }
}

/// Hard cap on beta/expansion steps; divergent terms such as
/// `(\x. x x)(\x. x x)` hit it instead of looping forever.
pub const MAX_BETA_STEPS: usize = 100_000;

/// Weak head normal form: peel outermost redexes and expand the head
/// variable from the bindings until the head is irreducible. A name in
/// `bound` is a parameter of an enclosing lambda and is never expanded.
/// Each beta step and each expansion counts one step; `Err` when the count
/// would pass `MAX_BETA_STEPS`. Returns the term and the step count.
pub open spec fn whnf_spec(t: Term, vars: Seq<(Seq<char>, Term)>, bound: Set<Seq<char>>, steps: nat) -> Result<(Term, nat), ()>
    decreases MAX_BETA_STEPS + 1 - steps, term_size(t),
    when steps <= MAX_BETA_STEPS
{
    match t {
        Term::Apply(f, a) => match whnf_spec(*f, vars, bound, steps) {
            Err(()) => Err(()),
            Ok((f2, s2)) => if steps <= s2 <= MAX_BETA_STEPS {
                match f2 {
                    Term::Lambda(p, body) => if s2 + 1 > MAX_BETA_STEPS {
                        Err(())
                    } else {
                        whnf_spec(subst_spec(*body, p, *a), vars, bound, s2 + 1)
                    },
                    _ => Ok((Term::Apply(Box::new(f2), a), s2)),
                }
            } else {
                Err(())
            },
        },
        Term::Variable(name) => if bound.contains(name) {
            Ok((t, steps))
        } else {
            match lookup(vars, name) {
                Some(b) => if steps + 1 > MAX_BETA_STEPS {
                    Err(())
                } else {
                    whnf_spec(b, vars, bound, steps + 1)
                },
                None => Ok((t, steps)),
            }
        },
        _ => Ok((t, steps)),
    }
}

/// Normal-order normalization: head-reduce, then recurse under the
/// resulting binder (whose parameter is then bound) or into the stuck
/// application's parts.
pub open spec fn normal_form_spec(t: Term, vars: Seq<(Seq<char>, Term)>, bound: Set<Seq<char>>, steps: nat) -> Result<(Term, nat), ()>
    decreases MAX_BETA_STEPS + 1 - steps, term_size(t),
    when steps <= MAX_BETA_STEPS
{
    match whnf_spec(t, vars, bound, steps) {
        Err(()) => Err(()),
        Ok((w, s)) => if steps <= s <= MAX_BETA_STEPS && (s > steps || w == t) {
            match w {
                Term::Lambda(p, b) => match normal_form_spec(*b, vars, bound.insert(p), s) {
                    Ok((b2, s2)) => Ok((Term::Lambda(p, Box::new(b2)), s2)),
                    Err(()) => Err(()),
                },
                Term::Apply(f, a) => match normal_form_spec(*f, vars, bound, s) {
                    Ok((f2, s2)) => if s <= s2 <= MAX_BETA_STEPS {
                        match normal_form_spec(*a, vars, bound, s2) {
                            Ok((a2, s3)) => Ok((Term::Apply(Box::new(f2), Box::new(a2)), s3)),
                            Err(()) => Err(()),
                        }
                    } else {
                        Err(())
                    },
                    Err(()) => Err(()),
                },
                other => Ok((other, s)),
            }
        } else {
            Err(())
        },
    }
}

/// The normal form of a term against the bindings, from a zero step count
/// and no enclosing binder.
pub open spec fn reduce_lambda_spec(t: Term, vars: Seq<(Seq<char>, Term)>) -> Result<Term, ()> {
    match normal_form_spec(t, vars, Set::empty(), 0) {
        Ok((r, _)) => Ok(r),
        Err(()) => Err(()),
    }
}

fn tick(steps: usize) -> (r: EvalResultT<usize>)
    requires
        steps <= MAX_BETA_STEPS,
    ensures
        steps + 1 <= MAX_BETA_STEPS ==> r == Ok::<usize, EvalError>((steps + 1) as usize),
        steps + 1 > MAX_BETA_STEPS ==> r == Err::<usize, EvalError>(EvalError::RewriteLimitExceeded),
{
    let s = steps + 1;
    if s > MAX_BETA_STEPS {
        Err(EvalError::RewriteLimitExceeded)
    } else {
        Ok(s)
    }
}

/// The executable outcome of a step-counted reduction matches the spec.
pub open spec fn matches_steps(r: EvalResultT<(Expr, usize)>, s: Result<(Term, nat), ()>) -> bool {
    match s {
        Ok((t, n)) => r matches Ok((e, m)) && e@ == t && m == n,
        Err(()) => r == Err::<(Expr, usize), EvalError>(EvalError::RewriteLimitExceeded),
    }
}

fn whnf(expr: Expr, env: &Environment, bound: &Vec<String>, steps: usize) -> (r: EvalResultT<(Expr, usize)>)
    requires
        steps <= MAX_BETA_STEPS,
    ensures
        matches_steps(r, whnf_spec(expr@, env@.vars, name_set(bound@), steps as nat)),
        r matches Ok((w, s)) ==> steps <= s <= MAX_BETA_STEPS && (s == steps ==> w@ == expr@),
    decreases MAX_BETA_STEPS + 1 - steps, term_size(expr@),
{
    let ghost t0 = expr@;
    let ghost vars = env@.vars;
    let mut e = expr;
    let mut st = steps;
    loop
        invariant
            vars == env@.vars,
            t0 == expr@,
            steps <= st <= MAX_BETA_STEPS,
            st == steps ==> e@ == t0,
            whnf_spec(t0, vars, name_set(bound@), steps as nat) == whnf_spec(e@, vars, name_set(bound@), st as nat),
        decreases MAX_BETA_STEPS + 1 - st,
    {
        match e {
            Expr::Apply(f, a) => {
                let (f2, s2) = match whnf(*f, env, bound, st) {
                    Ok(x) => x,
                    Err(err) => {
                        return Err(err);
                    },
                };
                match f2 {
                    Expr::Lambda(param, body) => {
                        st = match tick(s2) {
                            Ok(x) => x,
                            Err(err) => {
                                return Err(err);
                            },
                        };
                        e = substitute(*body, &param, &a);
                    },
                    other => {
                        return Ok((Expr::Apply(Box::new(other), a), s2));
                    },
                }
            },
            Expr::Variable(name) => {
                if contains_name(bound, &name) {
                    return Ok((Expr::Variable(name), st));
                }
                match env.get(name.as_str()) {
                    Some(bound) => {
                        st = match tick(st) {
                            Ok(x) => x,
                            Err(err) => {
                                return Err(err);
                            },
                        };
                        e = bound.copy();
                    },
                    None => {
                        return Ok((Expr::Variable(name), st));
                    },
                }
            },
            other => {
                return Ok((other, st));
            },
        }
    }
}

fn normal_form(expr: Expr, env: &Environment, bound: &mut Vec<String>, steps: usize) -> (r: EvalResultT<(Expr, usize)>)
    requires
        steps <= MAX_BETA_STEPS,
    ensures
        matches_steps(r, normal_form_spec(expr@, env@.vars, name_set(old(bound)@), steps as nat)),
        final(bound)@ == old(bound)@,
        r matches Ok((_, s)) ==> steps <= s <= MAX_BETA_STEPS,
    decreases MAX_BETA_STEPS + 1 - steps, term_size(expr@),
{
    let ghost t0 = expr@;
    let (w, s) = match whnf(expr, env, bound, steps) {
        Ok(x) => x,
        Err(err) => {
            return Err(err);
        },
    };
    match w {
        Expr::Lambda(p, b) => {
            let ghost b0 = bound@;
            push_name(bound, p.clone());
            let inner = normal_form(*b, env, bound, s);
            bound.pop();
            proof {
                assert(bound@ =~= b0);
            }
            let (b2, s2) = match inner {
                Ok(x) => x,
                Err(err) => {
                    return Err(err);
                },
            };
            Ok((Expr::Lambda(p, Box::new(b2)), s2))
        },
        Expr::Apply(f, a) => {
            let (f2, s2) = match normal_form(*f, env, bound, s) {
                Ok(x) => x,
                Err(err) => {
                    return Err(err);
                },
            };
            let (a2, s3) = match normal_form(*a, env, bound, s2) {
                Ok(x) => x,
                Err(err) => {
                    return Err(err);
                },
            };
            Ok((Expr::Apply(Box::new(f2), Box::new(a2)), s3))
        },
        other => Ok((other, s)),
    }
}

/// Reduces a term containing lambdas/applications to normal form. Free
/// variables bound in `env` are expanded (a stored lambda acts as a
/// user-defined function); a lambda's own parameter never is.
/// `RewriteLimitExceeded` once the step cap is hit.
pub fn reduce_lambda(expr: Expr, env: &Environment) -> (r: EvalResultT<Expr>)
    ensures
        match reduce_lambda_spec(expr@, env@.vars) {
            Ok(t) => r matches Ok(e) && e@ == t,
            Err(()) => r == Err::<Expr, EvalError>(EvalError::RewriteLimitExceeded),
        },
{
    let mut bound: Vec<String> = Vec::new();
    proof {
        assert(name_set(bound@) =~= Set::<Seq<char>>::empty());
    }
    match normal_form(expr, env, &mut bound, 0) {
        Ok((e, _)) => Ok(e),
        Err(err) => Err(err),
    }
}

/// A term is beta-normal when no application in it, under binders and in
/// both parts of every application, has a lambda in function position.
/// Nodes other than lambdas and applications are atoms to reduction.
pub open spec fn beta_normal(t: Term) -> bool
    decreases t,
{
    match t {
        Term::Lambda(_, b) => beta_normal(*b),
        Term::Apply(f, a) => !(*f is Lambda) && beta_normal(*f) && beta_normal(*a),
        _ => true,
    }
}

/// A head that no step can reduce: a parameter or an unbound name, or an
/// application whose function part is itself stuck.
pub open spec fn head_stuck(t: Term, vars: Seq<(Seq<char>, Term)>, bound: Set<Seq<char>>) -> bool
    decreases t,
{
    match t {
        Term::Variable(n) => bound.contains(n) || lookup(vars, n) is None,
        Term::Apply(g, _) => head_stuck(*g, vars, bound),
        Term::Lambda(_, _) => false,
        _ => true,
    }
}

/// Head reduction ends at a lambda or at a stuck head.
proof fn lemma_whnf_shape(t: Term, vars: Seq<(Seq<char>, Term)>, bound: Set<Seq<char>>, steps: nat)
    requires
        steps <= MAX_BETA_STEPS,
    ensures
        whnf_spec(t, vars, bound, steps) matches Ok((w, _)) ==> (w is Lambda || head_stuck(w, vars, bound)),
    decreases MAX_BETA_STEPS + 1 - steps, term_size(t),
{
    match t {
        Term::Apply(f, a) => {
            lemma_whnf_shape(*f, vars, bound, steps);
            match whnf_spec(*f, vars, bound, steps) {
                Err(()) => {},
                Ok((f2, s2)) => {
                    if steps <= s2 <= MAX_BETA_STEPS {
                        match f2 {
                            Term::Lambda(p, body) => {
                                if s2 + 1 <= MAX_BETA_STEPS {
                                    lemma_whnf_shape(subst_spec(*body, p, *a), vars, bound, s2 + 1);
                                }
                            },
                            _ => {},
                        }
                    }
                },
            }
        },
        Term::Variable(name) => {
            if !bound.contains(name) {
                match lookup(vars, name) {
                    Some(b) => {
                        if steps + 1 <= MAX_BETA_STEPS {
                            lemma_whnf_shape(b, vars, bound, steps + 1);
                        }
                    },
                    None => {},
                }
            }
        },
        _ => {},
    }
}

/// Head reduction leaves a stuck head as it is, with no step taken.
proof fn lemma_whnf_stuck(t: Term, vars: Seq<(Seq<char>, Term)>, bound: Set<Seq<char>>, steps: nat)
    requires
        steps <= MAX_BETA_STEPS,
        head_stuck(t, vars, bound),
    ensures
        whnf_spec(t, vars, bound, steps) == Ok::<(Term, nat), ()>((t, steps)),
    decreases t,
{
    match t {
        Term::Apply(g, x) => {
            lemma_whnf_stuck(*g, vars, bound, steps);
        },
        _ => {},
    }
}

proof fn lemma_normal_form_normal(t: Term, vars: Seq<(Seq<char>, Term)>, bound: Set<Seq<char>>, steps: nat)
    requires
        steps <= MAX_BETA_STEPS,
    ensures
        normal_form_spec(t, vars, bound, steps) matches Ok((e, _)) ==> beta_normal(e),
        normal_form_spec(t, vars, bound, steps) matches Ok((e, _)) ==> (whnf_spec(t, vars, bound, steps) matches Ok((w, _)) && !(w is Lambda) ==> !(e is Lambda)),
    decreases MAX_BETA_STEPS + 1 - steps, term_size(t),
{
    lemma_whnf_shape(t, vars, bound, steps);
    match whnf_spec(t, vars, bound, steps) {
        Err(()) => {},
        Ok((w, s)) => {
            if steps <= s <= MAX_BETA_STEPS && (s > steps || w == t) {
                match w {
                    Term::Lambda(p, b) => {
                        lemma_normal_form_normal(*b, vars, bound.insert(p), s);
                    },
                    Term::Apply(f, a) => {
                        lemma_whnf_stuck(*f, vars, bound, s);
                        lemma_normal_form_normal(*f, vars, bound, s);
                        match normal_form_spec(*f, vars, bound, s) {
                            Ok((f2, s2)) => {
                                if s <= s2 <= MAX_BETA_STEPS {
                                    lemma_normal_form_normal(*a, vars, bound, s2);
                                    assert(head_stuck(*f, vars, bound));
                                    assert(!(f2 is Lambda));
                                    match normal_form_spec(*a, vars, bound, s2) {
                                        Ok((a2, s3)) => {
                                            assert(beta_normal(Term::Apply(Box::new(f2), Box::new(a2))));
                                        },
                                        Err(()) => {},
                                    }
                                }
                            },
                            Err(()) => {},
                        }
                    },
                    _ => {},
                }
            }
        },
    }
}

/// Whatever `reduce_lambda` returns is in beta normal form: no application
/// anywhere in it, under a binder or inside either part of a stuck
/// application, has a lambda as its function part.
pub proof fn lemma_reduce_lambda_normal(t: Term, vars: Seq<(Seq<char>, Term)>)
    ensures
        reduce_lambda_spec(t, vars) matches Ok(e) ==> beta_normal(e),
{
    lemma_normal_form_normal(t, vars, Set::empty(), 0);
}

} // verus!
