//! Polynomial expansion: distribute products over sums and unroll integer
//! powers, with a node-count guard against blowup.

use vstd::prelude::*;
use crate::ast::{BinaryOp, Expr, Func, Term, term_size};
use crate::error::{EvalError, EvalResultT, Fault, same_outcome};
use crate::numeric::{Decimal, DecModel, one_model, integer_exponent_model, as_integer_exponent};
use crate::simplify::MAX_NODES;

verus! {

/// The models of a list of expressions.
pub open spec fn terms_of(s: Seq<Expr>) -> Seq<Term> {
    Seq::new(s.len(), |i: int| s[i]@)
}

/// The additive terms of an Add/Sub tree, subtracted terms under `Neg`.
pub open spec fn collect_terms_spec(t: Term, negate: bool) -> Seq<Term>
    decreases t,
{
    match t {
        Term::Binary(BinaryOp::Add, l, r) => collect_terms_spec(*l, negate) + collect_terms_spec(*r, negate),
        Term::Binary(BinaryOp::Sub, l, r) => collect_terms_spec(*l, negate) + collect_terms_spec(*r, !negate),
        _ => seq![if negate { Term::Neg(Box::new(t)) } else { t }],
    }
}

pub open spec fn sum_terms_spec(t: Term) -> Seq<Term> {
    collect_terms_spec(t, false)
}

/// `a * b` for each `b` of `rt`, in order.
pub open spec fn row_products(a: Term, rt: Seq<Term>) -> Seq<Term> {
    Seq::new(rt.len(), |j: int| Term::Binary(BinaryOp::Mul, Box::new(a), Box::new(rt[j])))
}

/// Every pairwise product, the left factor varying slowest.
pub open spec fn pair_products(lt: Seq<Term>, rt: Seq<Term>) -> Seq<Term>
    decreases lt.len(),
{
    if lt.len() == 0 {
        Seq::empty()
    } else {
        pair_products(lt.drop_last(), rt) + row_products(lt.last(), rt)
    }
}

/// The terms folded into a balanced `Add` tree: the first half on the left.
pub open spec fn sum_balanced_spec(ts: Seq<Term>) -> Option<Term>
    decreases ts.len(),
{
    if ts.len() == 0 {
        None
    } else if ts.len() == 1 {
        Some(ts[0])
    } else {
        let mid = ts.len() / 2;
        match sum_balanced_spec(ts.subrange(0, mid as int)) {
            Some(l) => match sum_balanced_spec(ts.subrange(mid as int, ts.len() as int)) {
                Some(r) => Some(Term::Binary(BinaryOp::Add, Box::new(l), Box::new(r))),
                None => None,
            },
            None => None,
        }
    }
}

/// `(a1 + a2 + ...) * (b1 + b2 + ...)` as the balanced sum of the pairwise
/// products; too many products is an error, checked before building any.
pub open spec fn distribute_spec(l: Term, r: Term) -> Result<Term, Fault> {
    let lt = sum_terms_spec(l);
    let rt = sum_terms_spec(r);
    if lt.len() * rt.len() > MAX_NODES {
        Err(Fault::ExpressionTooLarge)
    } else {
        match sum_balanced_spec(pair_products(lt, rt)) {
            Some(s) => Ok(s),
            None => Ok(Term::Binary(BinaryOp::Mul, Box::new(l), Box::new(r))),
        }
    }
}

/// `n` more multiplications of `acc` by `base`, each distributed.
pub open spec fn unroll_iter(acc: Term, base: Term, n: nat) -> Result<Term, Fault>
    decreases n,
{
    if n == 0 {
        Ok(acc)
    } else {
        match distribute_spec(acc, base) {
            Ok(a2) => unroll_iter(a2, base, (n - 1) as nat),
            Err(e) => Err(e),
        }
    }
}

/// `base^k` as repeated, distributed multiplication.
pub open spec fn unroll_pow_spec(base: Term, k: nat) -> Result<Term, Fault> {
    if k == 0 {
        Ok(Term::Number(one_model()))
    } else {
        unroll_iter(base, base, (k - 1) as nat)
    }
}

/// The exponent when it is a number holding an integer in `0..=64`.
pub open spec fn small_exponent(e: Term) -> Option<nat> {
    match e {
        Term::Number(n) => match integer_exponent_model(n) {
            Some(k) => if 0 <= k <= 64 {
                Some(k as nat)
            } else {
                None
            },
            None => None,
        },
        _ => None,
    }
}

pub open spec fn expand_inner_spec(t: Term) -> Result<Term, Fault>
    decreases t,
{
    match t {
        Term::Neg(e) => match expand_inner_spec(*e) {
            Ok(x) => Ok(Term::Neg(Box::new(x))),
            Err(f) => Err(f),
        },
        Term::Call(g, e) => match expand_inner_spec(*e) {
            Ok(x) => Ok(Term::Call(g, Box::new(x))),
            Err(f) => Err(f),
        },
        Term::Binary(op, l, r) => match expand_inner_spec(*l) {
            Err(f) => Err(f),
            Ok(le) => if op == BinaryOp::Pow && small_exponent(*r) is Some {
                unroll_pow_spec(le, small_exponent(*r)->0)
            } else {
                match expand_inner_spec(*r) {
                    Err(f) => Err(f),
                    Ok(re) => if op == BinaryOp::Mul {
                        distribute_spec(le, re)
                    } else {
                        Ok(Term::Binary(op, Box::new(le), Box::new(re)))
                    },
                }
            },
        },
        _ => Ok(t),
    }
}

/// Expansion, rejected when the result passes `MAX_NODES`.
pub open spec fn expand_spec(t: Term) -> Result<Term, Fault> {
    match expand_inner_spec(t) {
        Ok(o) => if term_size(o) > MAX_NODES {
            Err(Fault::ExpressionTooLarge)
        } else {
            Ok(o)
        },
        Err(f) => Err(f),
    }
}

fn collect_terms(expr: &Expr, negate: bool, out: &mut Vec<Expr>)
    ensures
        terms_of(final(out)@) == terms_of(old(out)@) + collect_terms_spec(expr@, negate),
    decreases expr,
{
    let ghost o0 = terms_of(out@);
    match expr {
        Expr::Binary(BinaryOp::Add, l, r) => {
            proof {
                assert(expr@ == Term::Binary(BinaryOp::Add, Box::new(l@), Box::new(r@)));
            }
            collect_terms(l, negate, out);
            collect_terms(r, negate, out);
            proof {
                let a = collect_terms_spec(l@, negate);
                let b = collect_terms_spec(r@, negate);
                assert(o0 + a + b =~= o0 + (a + b));
            }
        },
        Expr::Binary(BinaryOp::Sub, l, r) => {
            proof {
                assert(expr@ == Term::Binary(BinaryOp::Sub, Box::new(l@), Box::new(r@)));
            }
            collect_terms(l, negate, out);
            collect_terms(r, !negate, out);
            proof {
                let a = collect_terms_spec(l@, negate);
                let b = collect_terms_spec(r@, !negate);
                assert(o0 + a + b =~= o0 + (a + b));
            }
        },
        _ => {
            let item = if negate {
                Expr::negate(expr.copy())
            } else {
                expr.copy()
            };
            let ghost iv = item@;
            out.push(item);
            proof {
                assert(terms_of(out@) =~= o0 + seq![iv]);
            }
        },
    }
}

/// The additive terms of an Add/Sub tree, signs folded into `Neg`.
fn sum_terms(expr: &Expr) -> (r: Vec<Expr>)
    ensures
        terms_of(r@) == sum_terms_spec(expr@),
{
    let mut out: Vec<Expr> = Vec::new();
    proof {
        assert(terms_of(out@) =~= Seq::<Term>::empty());
    }
    collect_terms(expr, false, &mut out);
    proof {
        assert(Seq::<Term>::empty() + sum_terms_spec(expr@) =~= sum_terms_spec(expr@));
    }
    out
}

/// Fold `terms[lo..hi]` into a balanced `Add` tree.
fn sum_balanced(terms: &Vec<Expr>, lo: usize, hi: usize) -> (r: Option<Expr>)
    requires
        lo <= hi <= terms.len(),
    ensures
        match sum_balanced_spec(terms_of(terms@).subrange(lo as int, hi as int)) {
            Some(t) => r matches Some(x) && x@ == t,
            None => r is None,
        },
    decreases hi - lo,
{
    let ghost ts = terms_of(terms@).subrange(lo as int, hi as int);
    if lo == hi {
        None
    } else if hi - lo == 1 {
        Some(terms[lo].copy())
    } else {
        let mid = (hi - lo) / 2;
        proof {
            assert(ts.subrange(0, mid as int) =~= terms_of(terms@).subrange(lo as int, (lo + mid) as int));
            assert(ts.subrange(mid as int, ts.len() as int) =~= terms_of(terms@).subrange((lo + mid) as int, hi as int));
        }
        let l = match sum_balanced(terms, lo, lo + mid) {
            Some(x) => x,
            None => return None,
        };
        let r = match sum_balanced(terms, lo + mid, hi) {
            Some(x) => x,
            None => return None,
        };
        Some(Expr::binary(BinaryOp::Add, l, r))
    }
}

fn distribute(l: &Expr, r: &Expr) -> (res: EvalResultT<Expr>)
    ensures
        same_outcome(res, distribute_spec(l@, r@)),
{
    let lt = sum_terms(l);
    let rt = sum_terms(r);
    let ghost lv = terms_of(lt@);
    let ghost rv = terms_of(rt@);
    match lt.len().checked_mul(rt.len()) {
        Some(p) => {
            if p > MAX_NODES {
                return Err(EvalError::ExpressionTooLarge);
            }
        },
        None => {
            return Err(EvalError::ExpressionTooLarge);
        },
    }
    let mut products: Vec<Expr> = Vec::new();
    let mut i: usize = 0;
    proof {
        assert(lv.take(0) =~= Seq::<Term>::empty());
        assert(terms_of(products@) =~= Seq::<Term>::empty());
    }
    while i < lt.len()
        invariant
            lv == terms_of(lt@),
            rv == terms_of(rt@),
            i <= lt.len(),
            terms_of(products@) == pair_products(lv.take(i as int), rv),
        decreases lt.len() - i,
    {
        let mut j: usize = 0;
        let ghost before = terms_of(products@);
        proof {
            assert(rv.take(0) =~= Seq::<Term>::empty());
            assert(before + row_products(lv[i as int], rv.take(0)) =~= before);
        }
        while j < rt.len()
            invariant
                lv == terms_of(lt@),
                rv == terms_of(rt@),
                i < lt.len(),
                j <= rt.len(),
                terms_of(products@) == before + row_products(lv[i as int], rv.take(j as int)),
            decreases rt.len() - j,
        {
            let ghost prev = terms_of(products@);
            let p = Expr::binary(BinaryOp::Mul, lt[i].copy(), rt[j].copy());
            let ghost pv = p@;
            products.push(p);
            proof {
                assert(terms_of(products@) =~= prev.push(pv));
                assert(row_products(lv[i as int], rv.take(j + 1)) =~= row_products(lv[i as int], rv.take(j as int)).push(pv));
                assert(before + row_products(lv[i as int], rv.take(j as int)).push(pv) =~= (before + row_products(lv[i as int], rv.take(j as int))).push(pv));
            }
            j += 1;
        }
        proof {
            assert(rv.take(rt.len() as int) =~= rv);
            assert(lv.take(i + 1).drop_last() =~= lv.take(i as int));
            assert(lv.take(i + 1).last() == lv[i as int]);
        }
        i += 1;
    }
    proof {
        assert(lv.take(lt.len() as int) =~= lv);
        assert(terms_of(products@).subrange(0, products.len() as int) =~= terms_of(products@));
    }
    match sum_balanced(&products, 0, products.len()) {
        Some(s) => Ok(s),
        None => Ok(Expr::binary(BinaryOp::Mul, l.copy(), r.copy())),
    }
}

/// `base^k` as repeated multiplication; each step's distribution enforces
/// the node-count ceiling.
fn unroll_pow(base: &Expr, k: u32) -> (r: EvalResultT<Expr>)
    ensures
        same_outcome(r, unroll_pow_spec(base@, k as nat)),
{
    if k == 0 {
        return Ok(Expr::num(Decimal::one()));
    }
    let mut acc = base.copy();
    let mut i: u32 = 1;
    while i < k
        invariant
            1 <= i <= k,
            unroll_pow_spec(base@, k as nat) == unroll_iter(acc@, base@, (k - i) as nat),
        decreases k - i,
    {
        acc = match distribute(&acc, base) {
            Ok(a) => a,
            Err(x) => return Err(x),
        };
        i += 1;
    }
    Ok(acc)
}

fn small_exponent_of(e: &Expr) -> (r: Option<u32>)
    ensures
        match small_exponent(e@) {
            Some(k) => r == Some(k as u32),
            None => r is None,
        },
{
    match e {
        Expr::Number(n) => match as_integer_exponent(n) {
            Some(k) => if 0 <= k && k <= 64 {
                Some(k as u32)
            } else {
                None
            },
            None => None,
        },
        _ => None,
    }
}

fn expand_inner(expr: &Expr) -> (r: EvalResultT<Expr>)
    ensures
        same_outcome(r, expand_inner_spec(expr@)),
    decreases expr,
{
    match expr {
        Expr::Neg(e) => match expand_inner(e) {
            Ok(x) => Ok(Expr::negate(x)),
            Err(f) => Err(f),
        },
        Expr::Call(g, e) => match expand_inner(e) {
            Ok(x) => Ok(Expr::call(*g, x)),
            Err(f) => Err(f),
        },
        Expr::Binary(op, l, r) => {
            proof {
                assert(expr@ == Term::Binary(*op, Box::new(l@), Box::new(r@)));
            }
            let le = match expand_inner(l) {
                Ok(x) => x,
                Err(f) => return Err(f),
            };
            if *op == BinaryOp::Pow {
                if let Some(k) = small_exponent_of(r) {
                    return unroll_pow(&le, k);
                }
            }
            let re = match expand_inner(r) {
                Ok(x) => x,
                Err(f) => return Err(f),
            };
            if *op == BinaryOp::Mul {
                distribute(&le, &re)
            } else {
                Ok(Expr::binary(*op, le, re))
            }
        },
        _ => Ok(expr.copy()),
    }
}

/// Distribute `*` over `+`/`-` and unroll `^` with small non-negative integer
/// exponents. The caller is expected to simplify the result to collect like
/// terms. Bounded by `MAX_NODES`.
pub fn expand(expr: &Expr) -> (r: EvalResultT<Expr>)
    ensures
        same_outcome(r, expand_spec(expr@)),
{
    let out = match expand_inner(expr) {
        Ok(x) => x,
        Err(f) => return Err(f),
    };
    if out.node_count() > MAX_NODES {
        return Err(EvalError::ExpressionTooLarge);
    }
    Ok(out)
}

// ---------------------------------------------------------------------------
// Laws.
// ---------------------------------------------------------------------------

/// A commutative ring (the rationals, say) and an interpretation of a
/// term's leaves and non-ring operations in it: numbers, names, function
/// calls, division, powers, and every node that is not arithmetic.
#[verifier::reject_recursive_types(V)]
pub struct Valuation<V> {
    pub zero: V,
    pub one: V,
    pub add: spec_fn(V, V) -> V,
    pub mul: spec_fn(V, V) -> V,
    pub neg: spec_fn(V) -> V,
    pub num: spec_fn(DecModel) -> V,
    pub var: spec_fn(Seq<char>) -> V,
    pub call: spec_fn(Func, V) -> V,
    pub div: spec_fn(V, V) -> V,
    pub power: spec_fn(V, V) -> V,
    pub other: spec_fn(Term) -> V,
}

/// `x` multiplied by itself `k` times in the ring.
pub open spec fn ring_pow<V>(v: Valuation<V>, x: V, k: nat) -> V
    decreases k,
{
    if k == 0 {
        v.one
    } else {
        (v.mul)(x, ring_pow(v, x, (k - 1) as nat))
    }
}

/// The operations form a commutative ring; the number one means the ring's
/// one; and a power by an integer-valued number from 0 to 64 is repeated
/// multiplication.
#[verifier::opaque]
pub open spec fn valuation_wf<V>(v: Valuation<V>) -> bool {
    &&& forall|a: V, b: V| #[trigger] (v.add)(a, b) == (v.add)(b, a)
    &&& forall|a: V, b: V, c: V| #[trigger] (v.add)((v.add)(a, b), c) == (v.add)(a, (v.add)(b, c))
    &&& forall|a: V| #[trigger] (v.add)(a, v.zero) == a
    &&& forall|a: V, b: V| #[trigger] (v.mul)(a, b) == (v.mul)(b, a)
    &&& forall|a: V, b: V, c: V| #[trigger] (v.mul)((v.mul)(a, b), c) == (v.mul)(a, (v.mul)(b, c))
    &&& forall|a: V| #[trigger] (v.mul)(a, v.one) == a
    &&& forall|a: V| #[trigger] (v.mul)(a, v.zero) == v.zero
    &&& forall|a: V, b: V, c: V| #[trigger] (v.mul)(a, (v.add)(b, c)) == (v.add)((v.mul)(a, b), (v.mul)(a, c))
    &&& forall|a: V, b: V| #[trigger] (v.neg)((v.add)(a, b)) == (v.add)((v.neg)(a), (v.neg)(b))
    &&& forall|a: V| #[trigger] (v.neg)((v.neg)(a)) == a
    &&& (v.num)(one_model()) == v.one
    &&& forall|n: DecModel, x: V|
        #![trigger (v.power)(x, (v.num)(n))]
        integer_exponent_model(n) matches Some(k) ==> (0 <= k <= 64 ==> (v.power)(x, (v.num)(n)) == ring_pow(
            v,
            x,
            k as nat,
        ))
}

pub(crate) proof fn ax_add_comm<V>(v: Valuation<V>, a: V, b: V)
    requires valuation_wf(v),
    ensures (v.add)(a, b) == (v.add)(b, a),
{
    reveal(valuation_wf);
}

proof fn ax_add_assoc<V>(v: Valuation<V>, a: V, b: V, c: V)
    requires valuation_wf(v),
    ensures (v.add)((v.add)(a, b), c) == (v.add)(a, (v.add)(b, c)),
{
    reveal(valuation_wf);
}

pub(crate) proof fn ax_add_zero<V>(v: Valuation<V>, a: V)
    requires valuation_wf(v),
    ensures (v.add)(a, v.zero) == a,
{
    reveal(valuation_wf);
}

pub(crate) proof fn ax_mul_comm<V>(v: Valuation<V>, a: V, b: V)
    requires valuation_wf(v),
    ensures (v.mul)(a, b) == (v.mul)(b, a),
{
    reveal(valuation_wf);
}

proof fn ax_mul_assoc<V>(v: Valuation<V>, a: V, b: V, c: V)
    requires valuation_wf(v),
    ensures (v.mul)((v.mul)(a, b), c) == (v.mul)(a, (v.mul)(b, c)),
{
    reveal(valuation_wf);
}

proof fn ax_mul_one<V>(v: Valuation<V>, a: V)
    requires valuation_wf(v),
    ensures (v.mul)(a, v.one) == a,
{
    reveal(valuation_wf);
}

pub(crate) proof fn ax_mul_zero<V>(v: Valuation<V>, a: V)
    requires valuation_wf(v),
    ensures (v.mul)(a, v.zero) == v.zero,
{
    reveal(valuation_wf);
}

proof fn ax_distrib<V>(v: Valuation<V>, a: V, b: V, c: V)
    requires valuation_wf(v),
    ensures (v.mul)(a, (v.add)(b, c)) == (v.add)((v.mul)(a, b), (v.mul)(a, c)),
{
    reveal(valuation_wf);
}

proof fn ax_neg_add<V>(v: Valuation<V>, a: V, b: V)
    requires valuation_wf(v),
    ensures (v.neg)((v.add)(a, b)) == (v.add)((v.neg)(a), (v.neg)(b)),
{
    reveal(valuation_wf);
}

proof fn ax_neg_neg<V>(v: Valuation<V>, a: V)
    requires valuation_wf(v),
    ensures (v.neg)((v.neg)(a)) == a,
{
    reveal(valuation_wf);
}

pub(crate) proof fn ax_num_one<V>(v: Valuation<V>)
    requires valuation_wf(v),
    ensures (v.num)(one_model()) == v.one,
{
    reveal(valuation_wf);
}

proof fn ax_power<V>(v: Valuation<V>, n: DecModel, x: V, k: i64)
    requires
        valuation_wf(v),
        integer_exponent_model(n) == Some(k),
        0 <= k <= 64,
    ensures
        (v.power)(x, (v.num)(n)) == ring_pow(v, x, k as nat),
{
    reveal(valuation_wf);
}

/// The value of a term under a valuation: `+`, `-`, `*` and negation in
/// the ring, everything else through the valuation.
pub open spec fn term_value<V>(t: Term, v: Valuation<V>) -> V
    decreases t,
{
    match t {
        Term::Number(n) => (v.num)(n),
        Term::Variable(name) => (v.var)(name),
        Term::Neg(e) => (v.neg)(term_value(*e, v)),
        Term::Call(g, e) => (v.call)(g, term_value(*e, v)),
        Term::Binary(op, l, r) => {
            let a = term_value(*l, v);
            let b = term_value(*r, v);
            match op {
                BinaryOp::Add => (v.add)(a, b),
                BinaryOp::Sub => (v.add)(a, (v.neg)(b)),
                BinaryOp::Mul => (v.mul)(a, b),
                BinaryOp::Div => (v.div)(a, b),
                BinaryOp::Pow => (v.power)(a, b),
            }
        },
        _ => (v.other)(t),
    }
}

pub open spec fn values_sum<V>(ts: Seq<Term>, v: Valuation<V>) -> V
    decreases ts.len(),
{
    if ts.len() == 0 {
        v.zero
    } else {
        (v.add)(values_sum(ts.drop_last(), v), term_value(ts.last(), v))
    }
}

proof fn lemma_values_sum_single<V>(x: Term, v: Valuation<V>)
    requires
        valuation_wf(v),
    ensures
        values_sum(seq![x], v) == term_value(x, v),
{
    let s = seq![x];
    assert(s.drop_last() =~= Seq::<Term>::empty());
    assert(s.last() == x);
    assert(values_sum(s.drop_last(), v) == v.zero);
    assert(values_sum(s, v) == (v.add)(v.zero, term_value(x, v)));
    ax_add_comm(v, v.zero, term_value(x, v));
    ax_add_zero(v, term_value(x, v));
}

proof fn lemma_values_sum_concat<V>(a: Seq<Term>, b: Seq<Term>, v: Valuation<V>)
    requires
        valuation_wf(v),
    ensures
        values_sum(a + b, v) == (v.add)(values_sum(a, v), values_sum(b, v)),
    decreases b.len(),
{
    if b.len() == 0 {
        assert(a + b =~= a);
        ax_add_zero(v, values_sum(a, v));
    } else {
        assert((a + b).drop_last() =~= a + b.drop_last());
        lemma_values_sum_concat(a, b.drop_last(), v);
        let x = values_sum(a, v);
        let y = values_sum(b.drop_last(), v);
        let z = term_value(b.last(), v);
        assert((a + b).last() == b.last());
        ax_add_assoc(v, x, y, z);
    }
}

proof fn lemma_collect_terms_value<V>(t: Term, negate: bool, v: Valuation<V>)
    requires
        valuation_wf(v),
    ensures
        values_sum(collect_terms_spec(t, negate), v) == if negate {
            (v.neg)(term_value(t, v))
        } else {
            term_value(t, v)
        },
    decreases t,
{
    match t {
        Term::Binary(BinaryOp::Add, l, r) => {
            lemma_collect_terms_value(*l, negate, v);
            lemma_collect_terms_value(*r, negate, v);
            lemma_values_sum_concat(collect_terms_spec(*l, negate), collect_terms_spec(*r, negate), v);
            let a = term_value(*l, v);
            let b = term_value(*r, v);
            ax_neg_add(v, a, b);
        },
        Term::Binary(BinaryOp::Sub, l, r) => {
            lemma_collect_terms_value(*l, negate, v);
            lemma_collect_terms_value(*r, !negate, v);
            lemma_values_sum_concat(collect_terms_spec(*l, negate), collect_terms_spec(*r, !negate), v);
            let a = term_value(*l, v);
            let b = term_value(*r, v);
            ax_neg_add(v, a, (v.neg)(b));
            ax_neg_neg(v, b);
        },
        _ => {
            let x = if negate { Term::Neg(Box::new(t)) } else { t };
            assert(collect_terms_spec(t, negate) == seq![x]);
            lemma_values_sum_single(x, v);
        },
    }
}

proof fn lemma_sum_balanced_value<V>(ts: Seq<Term>, v: Valuation<V>)
    requires
        valuation_wf(v),
    ensures
        sum_balanced_spec(ts) matches Some(s) ==> term_value(s, v) == values_sum(ts, v),
    decreases ts.len(),
{
    if ts.len() == 1 {
        assert(ts =~= seq![ts[0]]);
        lemma_values_sum_single(ts[0], v);
    } else if ts.len() > 1 {
        let mid = ts.len() / 2;
        let a = ts.subrange(0, mid as int);
        let b = ts.subrange(mid as int, ts.len() as int);
        lemma_sum_balanced_value(a, v);
        lemma_sum_balanced_value(b, v);
        assert(ts =~= a + b);
        lemma_values_sum_concat(a, b, v);
    }
}

proof fn lemma_row_products_value<V>(a: Term, rt: Seq<Term>, v: Valuation<V>)
    requires
        valuation_wf(v),
    ensures
        values_sum(row_products(a, rt), v) == (v.mul)(term_value(a, v), values_sum(rt, v)),
    decreases rt.len(),
{
    let x = term_value(a, v);
    if rt.len() == 0 {
        ax_mul_zero(v, x);
    } else {
        let p = row_products(a, rt);
        assert(p.drop_last() =~= row_products(a, rt.drop_last()));
        lemma_row_products_value(a, rt.drop_last(), v);
        let s = values_sum(rt.drop_last(), v);
        let y = term_value(rt.last(), v);
        ax_distrib(v, x, s, y);
    }
}

proof fn lemma_pair_products_value<V>(lt: Seq<Term>, rt: Seq<Term>, v: Valuation<V>)
    requires
        valuation_wf(v),
    ensures
        values_sum(pair_products(lt, rt), v) == (v.mul)(values_sum(lt, v), values_sum(rt, v)),
    decreases lt.len(),
{
    let r = values_sum(rt, v);
    if lt.len() == 0 {
        ax_mul_comm(v, v.zero, r);
        ax_mul_zero(v, r);
    } else {
        lemma_pair_products_value(lt.drop_last(), rt, v);
        lemma_row_products_value(lt.last(), rt, v);
        lemma_values_sum_concat(pair_products(lt.drop_last(), rt), row_products(lt.last(), rt), v);
        let s = values_sum(lt.drop_last(), v);
        let x = term_value(lt.last(), v);
        ax_mul_comm(v, (v.add)(s, x), r);
        ax_distrib(v, r, s, x);
        ax_mul_comm(v, r, s);
        ax_mul_comm(v, r, x);
    }
}

proof fn lemma_distribute_value<V>(l: Term, r: Term, v: Valuation<V>)
    requires
        valuation_wf(v),
    ensures
        distribute_spec(l, r) matches Ok(s) ==> term_value(s, v) == (v.mul)(term_value(l, v), term_value(r, v)),
{
    let lt = sum_terms_spec(l);
    let rt = sum_terms_spec(r);
    lemma_collect_terms_value(l, false, v);
    lemma_collect_terms_value(r, false, v);
    lemma_pair_products_value(lt, rt, v);
    lemma_sum_balanced_value(pair_products(lt, rt), v);
}

proof fn lemma_unroll_iter_value<V>(acc: Term, base: Term, n: nat, v: Valuation<V>)
    requires
        valuation_wf(v),
    ensures
        unroll_iter(acc, base, n) matches Ok(s) ==> term_value(s, v) == (v.mul)(
            term_value(acc, v),
            ring_pow(v, term_value(base, v), n),
        ),
    decreases n,
{
    let b = term_value(base, v);
    if n == 0 {
        ax_mul_one(v, term_value(acc, v));
    } else {
        lemma_distribute_value(acc, base, v);
        if let Ok(a2) = distribute_spec(acc, base) {
            lemma_unroll_iter_value(a2, base, (n - 1) as nat, v);
            let x = term_value(acc, v);
            let p = ring_pow(v, b, (n - 1) as nat);
            ax_mul_assoc(v, x, b, p);
        }
    }
}

proof fn lemma_unroll_pow_value<V>(base: Term, k: nat, v: Valuation<V>)
    requires
        valuation_wf(v),
    ensures
        unroll_pow_spec(base, k) matches Ok(s) ==> term_value(s, v) == ring_pow(v, term_value(base, v), k),
{
    if k == 0 {
        ax_num_one(v);
    } else {
        lemma_unroll_iter_value(base, base, (k - 1) as nat, v);
    }
}

proof fn lemma_expand_inner_value<V>(t: Term, v: Valuation<V>)
    requires
        valuation_wf(v),
    ensures
        expand_inner_spec(t) matches Ok(s) ==> term_value(s, v) == term_value(t, v),
    decreases t,
{
    match t {
        Term::Neg(e) => lemma_expand_inner_value(*e, v),
        Term::Call(g, e) => lemma_expand_inner_value(*e, v),
        Term::Binary(op, l, r) => {
            lemma_expand_inner_value(*l, v);
            lemma_expand_inner_value(*r, v);
            if let Ok(le) = expand_inner_spec(*l) {
                if op == BinaryOp::Pow && small_exponent(*r) is Some {
                    let k = small_exponent(*r)->0;
                    lemma_unroll_pow_value(le, k, v);
                    if let Term::Number(n) = *r {
                        ax_power(v, n, term_value(*l, v), integer_exponent_model(n)->0);
                    }
                } else if let Ok(re) = expand_inner_spec(*r) {
                    if op == BinaryOp::Mul {
                        lemma_distribute_value(le, re, v);
                    }
                }
            }
        },
        _ => {},
    }
}

/// Expansion rewrites by ring identities only: in every commutative ring
/// (the rationals among them), under every reading of the leaves that takes
/// the number one for the ring's one and a power by an integer number from
/// 0 to 64 for repeated multiplication, the expanded term has the value of
/// the term.
pub proof fn lemma_expand_preserves_value<V>(t: Term, v: Valuation<V>)
    requires
        valuation_wf(v),
    ensures
        expand_spec(t) matches Ok(s) ==> term_value(s, v) == term_value(t, v),
{
    lemma_expand_inner_value(t, v);
}

/// A sum or a difference at the top.
pub open spec fn is_sum_node(t: Term) -> bool {
    t matches Term::Binary(op, _, _) && (op == BinaryOp::Add || op == BinaryOp::Sub)
}

/// Fully distributed: no product anywhere in the term (under negations,
/// calls and every operator) has a sum or a difference as a factor, and no
/// power with a small non-negative integer exponent has one as its base.
pub open spec fn distributed(t: Term) -> bool
    decreases t,
{
    match t {
        Term::Neg(e) => distributed(*e),
        Term::Call(_, e) => distributed(*e),
        Term::Binary(op, l, r) => {
            &&& distributed(*l)
            &&& distributed(*r)
            &&& op == BinaryOp::Mul ==> !is_sum_node(*l) && !is_sum_node(*r)
            &&& (op == BinaryOp::Pow && small_exponent(*r) is Some) ==> !is_sum_node(*l)
        },
        _ => true,
    }
}

/// An exponent that is not a number but unrolls to one: a power by zero,
/// or a power by one of a number or of such an exponent (`y^0`, `2^1`).
pub open spec fn collapses(t: Term) -> bool
    decreases t,
{
    match t {
        Term::Binary(BinaryOp::Pow, b, e) => match small_exponent(*e) {
            Some(k) => k == 0 || (k == 1 && (*b is Number || collapses(*b))),
            None => false,
        },
        _ => false,
    }
}

/// No power in the term has a collapsing exponent.
pub open spec fn no_collapsing_exponent(t: Term) -> bool
    decreases t,
{
    match t {
        Term::Neg(e) => no_collapsing_exponent(*e),
        Term::Call(_, e) => no_collapsing_exponent(*e),
        Term::Binary(op, l, r) => {
            &&& no_collapsing_exponent(*l)
            &&& no_collapsing_exponent(*r)
            &&& op == BinaryOp::Pow ==> !collapses(*r)
        },
        _ => true,
    }
}

proof fn lemma_collect_terms_distributed(t: Term, negate: bool)
    ensures
        collect_terms_spec(t, negate).len() >= 1,
        forall|i: int| 0 <= i < collect_terms_spec(t, negate).len() ==> !is_sum_node(#[trigger] collect_terms_spec(t, negate)[i]),
        distributed(t) ==> forall|i: int| 0 <= i < collect_terms_spec(t, negate).len() ==> distributed(#[trigger] collect_terms_spec(t, negate)[i]),
    decreases t,
{
    match t {
        Term::Binary(BinaryOp::Add, l, r) => {
            lemma_collect_terms_distributed(*l, negate);
            lemma_collect_terms_distributed(*r, negate);
            let a = collect_terms_spec(*l, negate);
            let b = collect_terms_spec(*r, negate);
            assert forall|i: int| 0 <= i < (a + b).len() implies !is_sum_node(#[trigger] (a + b)[i]) && (distributed(t) ==> distributed((a + b)[i])) by {
                if i >= a.len() {
                    assert((a + b)[i] == b[i - a.len()]);
                }
            }
        },
        Term::Binary(BinaryOp::Sub, l, r) => {
            lemma_collect_terms_distributed(*l, negate);
            lemma_collect_terms_distributed(*r, !negate);
            let a = collect_terms_spec(*l, negate);
            let b = collect_terms_spec(*r, !negate);
            assert forall|i: int| 0 <= i < (a + b).len() implies !is_sum_node(#[trigger] (a + b)[i]) && (distributed(t) ==> distributed((a + b)[i])) by {
                if i >= a.len() {
                    assert((a + b)[i] == b[i - a.len()]);
                }
            }
        },
        _ => {
            let x = if negate { Term::Neg(Box::new(t)) } else { t };
            assert(collect_terms_spec(t, negate) == seq![x]);
        },
    }
}

/// Every product of a factor of `lt` by one of `rt` is a product node, and
/// a distributed one where the factors are distributed and not sums.
proof fn lemma_pair_products_distributed(lt: Seq<Term>, rt: Seq<Term>)
    ensures
        pair_products(lt, rt).len() == lt.len() * rt.len(),
        forall|i: int| 0 <= i < pair_products(lt, rt).len() ==> (#[trigger] pair_products(lt, rt)[i]) is Binary,
        (forall|i: int| 0 <= i < lt.len() ==> !is_sum_node(#[trigger] lt[i]) && distributed(lt[i]))
            && (forall|i: int| 0 <= i < rt.len() ==> !is_sum_node(#[trigger] rt[i]) && distributed(rt[i]))
            ==> forall|i: int| 0 <= i < pair_products(lt, rt).len() ==> distributed(#[trigger] pair_products(lt, rt)[i]),
    decreases lt.len(),
{
    if lt.len() > 0 {
        let a = pair_products(lt.drop_last(), rt);
        let b = row_products(lt.last(), rt);
        lemma_pair_products_distributed(lt.drop_last(), rt);
        assert(lt.len() * rt.len() == (lt.len() - 1) * rt.len() + rt.len()) by (nonlinear_arith);
        assert forall|i: int| 0 <= i < (a + b).len() implies (#[trigger] (a + b)[i]) is Binary by {
            if i >= a.len() {
                assert((a + b)[i] == b[i - a.len()]);
            }
        }
        if (forall|i: int| 0 <= i < lt.len() ==> !is_sum_node(#[trigger] lt[i]) && distributed(lt[i]))
            && (forall|i: int| 0 <= i < rt.len() ==> !is_sum_node(#[trigger] rt[i]) && distributed(rt[i])) {
            assert forall|i: int| 0 <= i < lt.drop_last().len() implies !is_sum_node(#[trigger] lt.drop_last()[i]) && distributed(lt.drop_last()[i]) by {
                assert(lt.drop_last()[i] == lt[i]);
            }
            assert(!is_sum_node(lt[lt.len() - 1]));
            assert forall|i: int| 0 <= i < (a + b).len() implies distributed(#[trigger] (a + b)[i]) by {
                if i >= a.len() {
                    assert((a + b)[i] == b[i - a.len()]);
                    assert(!is_sum_node(rt[i - a.len()]));
                }
            }
        }
    }
}

/// A balanced sum exists when there is a term; it is a binary node when
/// the terms are, and distributed when they are.
proof fn lemma_sum_balanced_distributed(ts: Seq<Term>)
    ensures
        ts.len() >= 1 ==> sum_balanced_spec(ts) is Some,
        (forall|i: int| 0 <= i < ts.len() ==> (#[trigger] ts[i]) is Binary) ==> (sum_balanced_spec(ts) matches Some(s) ==> s is Binary),
        (forall|i: int| 0 <= i < ts.len() ==> distributed(#[trigger] ts[i])) ==> (sum_balanced_spec(ts) matches Some(s) ==> distributed(s)),
    decreases ts.len(),
{
    if ts.len() > 1 {
        let mid = ts.len() / 2;
        let a = ts.subrange(0, mid as int);
        let b = ts.subrange(mid as int, ts.len() as int);
        lemma_sum_balanced_distributed(a);
        lemma_sum_balanced_distributed(b);
        if forall|i: int| 0 <= i < ts.len() ==> distributed(#[trigger] ts[i]) {
            assert forall|i: int| 0 <= i < a.len() implies distributed(#[trigger] a[i]) by {
                assert(a[i] == ts[i]);
            }
            assert forall|i: int| 0 <= i < b.len() implies distributed(#[trigger] b[i]) by {
                assert(b[i] == ts[i + mid]);
            }
        }
    } else if ts.len() == 1 {
        assert(ts[0] == ts[0]);
    }
}

/// Distributing gives no number, and distributing two distributed terms
/// gives a distributed term.
proof fn lemma_distribute_distributed(l: Term, r: Term)
    ensures
        distribute_spec(l, r) matches Ok(s) ==> !(s is Number),
        distributed(l) && distributed(r) ==> (distribute_spec(l, r) matches Ok(s) ==> distributed(s)),
{
    let lt = sum_terms_spec(l);
    let rt = sum_terms_spec(r);
    lemma_collect_terms_distributed(l, false);
    lemma_collect_terms_distributed(r, false);
    lemma_pair_products_distributed(lt, rt);
    assert(lt.len() * rt.len() >= 1) by (nonlinear_arith)
        requires
            lt.len() >= 1,
            rt.len() >= 1,
    ;
    let ps = pair_products(lt, rt);
    lemma_sum_balanced_distributed(ps);
}

proof fn lemma_unroll_iter_distributed(acc: Term, base: Term, n: nat)
    ensures
        unroll_iter(acc, base, n) matches Ok(s) ==> (n >= 1 ==> !(s is Number)) && (n == 0 ==> s == acc),
        distributed(acc) && distributed(base) ==> (unroll_iter(acc, base, n) matches Ok(s) ==> distributed(s)),
    decreases n,
{
    if n > 0 {
        lemma_distribute_distributed(acc, base);
        if let Ok(a2) = distribute_spec(acc, base) {
            lemma_unroll_iter_distributed(a2, base, (n - 1) as nat);
        }
    }
}

/// Expansion gives a number only where the term is one or collapses to one.
proof fn lemma_expand_inner_distributed(t: Term)
    ensures
        expand_inner_spec(t) matches Ok(e) ==> (e is Number ==> t is Number || collapses(t)),
        no_collapsing_exponent(t) ==> (expand_inner_spec(t) matches Ok(e) ==> distributed(e)),
    decreases t,
{
    match t {
        Term::Neg(e) => lemma_expand_inner_distributed(*e),
        Term::Call(g, e) => lemma_expand_inner_distributed(*e),
        Term::Binary(op, l, r) => {
            lemma_expand_inner_distributed(*l);
            lemma_expand_inner_distributed(*r);
            if let Ok(le) = expand_inner_spec(*l) {
                if op == BinaryOp::Pow && small_exponent(*r) is Some {
                    let k = small_exponent(*r)->0;
                    if k >= 1 {
                        lemma_unroll_iter_distributed(le, le, (k - 1) as nat);
                    }
                } else if let Ok(re) = expand_inner_spec(*r) {
                    if op == BinaryOp::Mul {
                        lemma_distribute_distributed(le, re);
                    }
                }
            }
        },
        _ => {},
    }
}

/// Expansion leaves nothing to distribute: in its result no product, under
/// a division, a negation, a call or any other operator, has a sum or a
/// difference as a factor, and no power by an integer number from 0 to 64
/// has one as its base. Terms whose exponent is not a number but unrolls
/// to one (`y^0`, `2^1`) are left out: the power over them is kept with the
/// unrolled number as its exponent.
pub proof fn lemma_expand_distributed(t: Term)
    requires
        no_collapsing_exponent(t),
    ensures
        expand_spec(t) matches Ok(e) ==> distributed(e),
{
    lemma_expand_inner_distributed(t);
}

} // verus!
