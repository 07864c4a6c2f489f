//! The names that a graph of an arithmetic expression can range over.

use vstd::prelude::*;
use crate::ast::{Expr, Term};
use crate::env::names_view;
use crate::logic::{insert_name, names_sorted, name_listing, lemma_listing_is_unique};

verus! {

/// The names in the arithmetic part of a term: under negations, function
/// calls and binary operators.
pub open spec fn arith_var_set(t: Term) -> Set<Seq<char>>
    decreases t,
{
    match t {
        Term::Variable(name) => set![name],
        Term::Neg(e) | Term::Call(_, e) => arith_var_set(*e),
        Term::Binary(_, l, r) => arith_var_set(*l) + arith_var_set(*r),
        _ => Set::empty(),
    }
}

fn collect_vars(expr: &Expr, vars: &mut Vec<String>)
    requires
        names_sorted(names_view(old(vars)@)),
    ensures
        names_sorted(names_view(final(vars)@)),
        forall|s: Seq<char>| #[trigger] names_view(final(vars)@).contains(s) <==> (names_view(old(vars)@).contains(s)
            || arith_var_set(expr@).contains(s)),
    decreases expr,
{
    match expr {
        Expr::Variable(name) => {
            insert_name(vars, name);
        },
        Expr::Neg(e) | Expr::Call(_, e) => {
            collect_vars(e, vars);
        },
        Expr::Binary(_, l, r) => {
            collect_vars(l, vars);
            collect_vars(r, vars);
        },
        _ => {},
    }
}

/// The names of an arithmetic expression, sorted and without repeats.
pub fn graph_vars(expr: &Expr) -> (r: Vec<String>)
    ensures
        names_view(r@) == name_listing(arith_var_set(expr@)),
{
    let mut vars: Vec<String> = Vec::new();
    proof {
        assert(names_view(vars@) =~= Seq::<Seq<char>>::empty());
    }
    collect_vars(expr, &mut vars);
    proof {
        lemma_listing_is_unique(names_view(vars@), arith_var_set(expr@));
    }
    vars
}

} // verus!
