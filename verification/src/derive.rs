//! Symbolic differentiation: the core calculus rules plus the
//! transcendental functions sin/cos/tan/exp/ln.

use vstd::prelude::*;
use crate::ast::{BinaryOp, Expr, Func, Term};
use crate::error::{EvalError, EvalResultT, Fault, same_outcome};
use crate::numeric::{Decimal, DecModel, one_model, two_model, zero_model, is_zero_model, sub_model};
use crate::text::str_equal;
use crate::simplify::is_zero_term;
use crate::expand::{Valuation, term_value, valuation_wf, ax_add_comm, ax_add_zero, ax_mul_comm, ax_mul_zero, ax_num_one};

verus! {

pub open spec fn zero_term() -> Term {
    Term::Number(zero_model())
}

pub open spec fn mul_term(a: Term, b: Term) -> Term {
    Term::Binary(BinaryOp::Mul, Box::new(a), Box::new(b))
}

pub open spec fn bin_term(op: BinaryOp, a: Term, b: Term) -> Term {
    Term::Binary(op, Box::new(a), Box::new(b))
}

/// Product rule `(uv)' = u'v + uv'`, dropping zero parts.
pub open spec fn product_rule(u: Term, v: Term, du: Term, dv: Term) -> Term {
    if is_zero_term(du) && is_zero_term(dv) {
        zero_term()
    } else if is_zero_term(du) {
        mul_term(u, dv)
    } else if is_zero_term(dv) {
        mul_term(du, v)
    } else {
        bin_term(BinaryOp::Add, mul_term(du, v), mul_term(u, dv))
    }
}

/// Quotient rule `(u/v)' = (u'v - uv') / v^2`.
pub open spec fn quotient_rule(u: Term, v: Term, du: Term, dv: Term) -> Term {
    if is_zero_term(du) && is_zero_term(dv) {
        zero_term()
    } else {
        bin_term(
            BinaryOp::Div,
            bin_term(BinaryOp::Sub, mul_term(du, v), mul_term(u, dv)),
            bin_term(BinaryOp::Pow, v, Term::Number(two_model())),
        )
    }
}

/// The outer derivative of a function at `u`, times `du`; `ln` gives
/// `du / u`.
pub open spec fn chain_rule(f: Func, u: Term, du: Term) -> Term {
    if is_zero_term(du) {
        zero_term()
    } else {
        match f {
            Func::Sin => mul_term(Term::Call(Func::Cos, Box::new(u)), du),
            Func::Cos => mul_term(Term::Neg(Box::new(Term::Call(Func::Sin, Box::new(u)))), du),
            Func::Tan => mul_term(
                bin_term(
                    BinaryOp::Add,
                    Term::Number(one_model()),
                    bin_term(BinaryOp::Pow, Term::Call(Func::Tan, Box::new(u)), Term::Number(two_model())),
                ),
                du,
            ),
            Func::Exp => mul_term(Term::Call(Func::Exp, Box::new(u)), du),
            Func::Ln => bin_term(BinaryOp::Div, du, u),
        }
    }
}

/// Power rule for a numeric exponent: `(u^n)' = n * u^(n-1) * u'`.
pub open spec fn const_power_rule(base: Term, n: DecModel, du: Term) -> Result<Term, Fault> {
    if is_zero_model(n) || is_zero_term(du) {
        Ok(zero_term())
    } else {
        match sub_model(n, one_model()) {
            Some(m) => Ok(
                mul_term(
                    mul_term(Term::Number(n), bin_term(BinaryOp::Pow, base, Term::Number(m))),
                    du,
                ),
            ),
            None => Err(Fault::ExpressionTooLarge),
        }
    }
}

/// General power rule: `(u^v)' = u^v * (v' ln(u) + v u'/u)`.
pub open spec fn general_power_rule(base: Term, exp: Term, du: Term, dv: Term) -> Term {
    if is_zero_term(du) && is_zero_term(dv) {
        zero_term()
    } else {
        mul_term(
            bin_term(BinaryOp::Pow, base, exp),
            bin_term(
                BinaryOp::Add,
                mul_term(dv, Term::Call(Func::Ln, Box::new(base))),
                mul_term(exp, bin_term(BinaryOp::Div, du, base)),
            ),
        )
    }
}

pub open spec fn mismatch(msg: Seq<char>) -> Result<Term, Fault> {
    Err(Fault::TypeMismatch(msg))
}

/// d/d`var` of `t`, unsimplified.
pub open spec fn derive_spec(var: Seq<char>, t: Term) -> Result<Term, Fault>
    decreases t,
{
    match t {
        Term::Number(_) | Term::Bool(_) => Ok(zero_term()),
        Term::Variable(v) => Ok(Term::Number(if v == var { one_model() } else { zero_model() })),
        Term::Neg(e) => match derive_spec(var, *e) {
            Ok(d) => Ok(Term::Neg(Box::new(d))),
            Err(f) => Err(f),
        },
        Term::Binary(op, u, v) => match derive_spec(var, *u) {
            Err(f) => Err(f),
            Ok(du) => if op == BinaryOp::Pow && *v is Number {
                const_power_rule(*u, v->Number_0, du)
            } else {
                match derive_spec(var, *v) {
                    Err(f) => Err(f),
                    Ok(dv) => match op {
                        BinaryOp::Add => Ok(bin_term(BinaryOp::Add, du, dv)),
                        BinaryOp::Sub => Ok(bin_term(BinaryOp::Sub, du, dv)),
                        BinaryOp::Mul => Ok(product_rule(*u, *v, du, dv)),
                        BinaryOp::Div => Ok(quotient_rule(*u, *v, du, dv)),
                        BinaryOp::Pow => Ok(general_power_rule(*u, *v, du, dv)),
                    },
                }
            },
        },
        Term::Call(f, a) => match derive_spec(var, *a) {
            Ok(du) => Ok(chain_rule(f, *a, du)),
            Err(x) => Err(x),
        },
        Term::Matrix(_) => mismatch("cannot differentiate a matrix"@),
        Term::Lambda(_, _) | Term::Apply(_, _) => mismatch("cannot differentiate a lambda term"@),
        Term::Not(_) | Term::Logic(_, _, _) => mismatch("cannot differentiate a logic expression"@),
        Term::Simplify(e) | Term::Expand(e) | Term::Assign(_, e) => derive_spec(var, *e),
        Term::Derive(_, _) => mismatch("higher-order derivatives are not supported"@),
    }
}

fn zero() -> (r: Expr)
    ensures
        r@ == zero_term(),
{
    Expr::num(Decimal::zero())
}

fn is_zero(e: &Expr) -> (r: bool)
    ensures
        r == is_zero_term(e@),
{
    match e {
        Expr::Number(n) => n.is_zero(),
        _ => false,
    }
}

fn type_mismatch(msg: &str) -> (r: EvalResultT<Expr>)
    ensures
        r matches Err(e) && e@ == Fault::TypeMismatch(msg@),
{
    Err(EvalError::TypeMismatch(String::from_str(msg)))
}

fn product_rule_exec(u: &Expr, v: &Expr, du: Expr, dv: Expr) -> (r: Expr)
    ensures
        r@ == product_rule(u@, v@, du@, dv@),
{
    let zu = is_zero(&du);
    let zv = is_zero(&dv);
    if zu && zv {
        zero()
    } else if zu {
        Expr::binary(BinaryOp::Mul, u.copy(), dv)
    } else if zv {
        Expr::binary(BinaryOp::Mul, du, v.copy())
    } else {
        Expr::binary(BinaryOp::Add, Expr::binary(BinaryOp::Mul, du, v.copy()), Expr::binary(BinaryOp::Mul, u.copy(), dv))
    }
}

fn quotient_rule_exec(u: &Expr, v: &Expr, du: Expr, dv: Expr) -> (r: Expr)
    ensures
        r@ == quotient_rule(u@, v@, du@, dv@),
{
    if is_zero(&du) && is_zero(&dv) {
        return zero();
    }
    let numerator = Expr::binary(
        BinaryOp::Sub,
        Expr::binary(BinaryOp::Mul, du, v.copy()),
        Expr::binary(BinaryOp::Mul, u.copy(), dv),
    );
    let denominator = Expr::binary(BinaryOp::Pow, v.copy(), Expr::num(Decimal::two()));
    Expr::binary(BinaryOp::Div, numerator, denominator)
}

fn chain_rule_exec(f: Func, u: &Expr, du: Expr) -> (r: Expr)
    ensures
        r@ == chain_rule(f, u@, du@),
{
    if is_zero(&du) {
        return zero();
    }
    let outer = match f {
        Func::Sin => Expr::call(Func::Cos, u.copy()),
        Func::Cos => Expr::negate(Expr::call(Func::Sin, u.copy())),
        Func::Tan => Expr::binary(
            BinaryOp::Add,
            Expr::num(Decimal::one()),
            Expr::binary(BinaryOp::Pow, Expr::call(Func::Tan, u.copy()), Expr::num(Decimal::two())),
        ),
        Func::Exp => Expr::call(Func::Exp, u.copy()),
        Func::Ln => {
            return Expr::binary(BinaryOp::Div, du, u.copy());
        },
    };
    Expr::binary(BinaryOp::Mul, outer, du)
}

fn derive_pow(var: &str, base: &Expr, exp: &Expr, du: Expr) -> (r: EvalResultT<Expr>)
    ensures
        exp@ is Number ==> same_outcome(r, const_power_rule(base@, exp@->Number_0, du@)),
        !(exp@ is Number) ==> same_outcome(
            r,
            match derive_spec(var@, exp@) {
                Ok(dv) => Ok(general_power_rule(base@, exp@, du@, dv)),
                Err(f) => Err(f),
            },
        ),
    decreases exp, 1int,
{
    if let Expr::Number(n) = exp {
        if n.is_zero() || is_zero(&du) {
            return Ok(zero());
        }
        let m = match n.sub(&Decimal::one()) {
            Some(m) => m,
            None => return Err(EvalError::ExpressionTooLarge),
        };
        return Ok(
            Expr::binary(
                BinaryOp::Mul,
                Expr::binary(BinaryOp::Mul, Expr::num(n.copy()), Expr::binary(BinaryOp::Pow, base.copy(), Expr::num(m))),
                du,
            ),
        );
    }
    let dv = match derive(var, exp) {
        Ok(d) => d,
        Err(x) => return Err(x),
    };
    if is_zero(&du) && is_zero(&dv) {
        return Ok(zero());
    }
    let term1 = Expr::binary(BinaryOp::Mul, dv, Expr::call(Func::Ln, base.copy()));
    let term2 = Expr::binary(BinaryOp::Mul, exp.copy(), Expr::binary(BinaryOp::Div, du, base.copy()));
    Ok(
        Expr::binary(
            BinaryOp::Mul,
            Expr::binary(BinaryOp::Pow, base.copy(), exp.copy()),
            Expr::binary(BinaryOp::Add, term1, term2),
        ),
    )
}

/// d/d`var` of `expr`, as a raw (unsimplified) AST; the engine simplifies
/// the result afterwards.
pub fn derive(var: &str, expr: &Expr) -> (r: EvalResultT<Expr>)
    ensures
        same_outcome(r, derive_spec(var@, expr@)),
    decreases expr, 0int,
{
    match expr {
        Expr::Number(_) | Expr::Bool(_) => Ok(zero()),
        Expr::Variable(v) => {
            if str_equal(v.as_str(), var) {
                Ok(Expr::num(Decimal::one()))
            } else {
                Ok(zero())
            }
        },
        Expr::Neg(e) => match derive(var, e) {
            Ok(d) => Ok(Expr::negate(d)),
            Err(x) => Err(x),
        },
        Expr::Binary(op, u, v) => {
            proof {
                assert(expr@ == Term::Binary(*op, Box::new(u@), Box::new(v@)));
            }
            let du = match derive(var, u) {
                Ok(d) => d,
                Err(x) => return Err(x),
            };
            if *op == BinaryOp::Pow {
                return derive_pow(var, u, v, du);
            }
            let dv = match derive(var, v) {
                Ok(d) => d,
                Err(x) => return Err(x),
            };
            match op {
                BinaryOp::Add => Ok(Expr::binary(BinaryOp::Add, du, dv)),
                BinaryOp::Sub => Ok(Expr::binary(BinaryOp::Sub, du, dv)),
                BinaryOp::Mul => Ok(product_rule_exec(u, v, du, dv)),
                BinaryOp::Div => Ok(quotient_rule_exec(u, v, du, dv)),
                BinaryOp::Pow => Ok(zero()),
            }
        },
        Expr::Call(f, a) => match derive(var, a) {
            Ok(du) => Ok(chain_rule_exec(*f, a, du)),
            Err(x) => Err(x),
        },
        Expr::Matrix(_) => type_mismatch("cannot differentiate a matrix"),
        Expr::Lambda(_, _) | Expr::Apply(_, _) => type_mismatch("cannot differentiate a lambda term"),
        Expr::Not(_) | Expr::Logic(_, _, _) => type_mismatch("cannot differentiate a logic expression"),
        Expr::Simplify(e) | Expr::Expand(e) | Expr::Assign(_, e) => derive(var, e),
        Expr::Derive(_, _) => type_mismatch("higher-order derivatives are not supported"),
    }
}

/// Differentiation is linear over sums and differences: the derivative of
/// `u + v` (or `u - v`), when it exists, is made from the derivatives of `u`
/// and `v`, and under every valuation of the names it has the value of
/// `d(u) + d(v)` (or `d(u) - d(v)`, the derivative of the left operand
/// first).
pub proof fn lemma_derive_linear<V>(var: Seq<char>, u: Term, v: Term, val: Valuation<V>)
    ensures
        derive_spec(var, bin_term(BinaryOp::Add, u, v)) matches Ok(d) ==> {
            &&& derive_spec(var, u) is Ok
            &&& derive_spec(var, v) is Ok
            &&& term_value(d, val) == (val.add)(
                term_value(derive_spec(var, u)->Ok_0, val),
                term_value(derive_spec(var, v)->Ok_0, val),
            )
        },
        derive_spec(var, bin_term(BinaryOp::Sub, u, v)) matches Ok(d) ==> {
            &&& derive_spec(var, u) is Ok
            &&& derive_spec(var, v) is Ok
            &&& term_value(d, val) == (val.add)(
                term_value(derive_spec(var, u)->Ok_0, val),
                (val.neg)(term_value(derive_spec(var, v)->Ok_0, val)),
            )
        },
{
}

/// The derivative of the variable itself is the number one, and of any
/// other name or any number the number zero.
pub proof fn lemma_derive_leaves(var: Seq<char>, name: Seq<char>, n: DecModel)
    ensures
        derive_spec(var, Term::Variable(var)) == Ok::<Term, Fault>(Term::Number(one_model())),
        name != var ==> derive_spec(var, Term::Variable(name)) == Ok::<Term, Fault>(zero_term()),
        derive_spec(var, Term::Number(n)) == Ok::<Term, Fault>(zero_term()),
{
}

/// The product rule: the derivative of `u * v`, when it exists, has under
/// every valuation in a commutative ring that reads zero numbers as zero the
/// value of `d(u) * v + u * d(v)`; and the derivative of `-u` has the value
/// of `-d(u)`.
pub proof fn lemma_derive_product<V>(var: Seq<char>, u: Term, v: Term, val: Valuation<V>)
    requires
        valuation_wf(val),
        forall|n: DecModel| is_zero_model(n) ==> #[trigger] (val.num)(n) == val.zero,
    ensures
        derive_spec(var, bin_term(BinaryOp::Mul, u, v)) matches Ok(d) ==> {
            &&& derive_spec(var, u) is Ok
            &&& derive_spec(var, v) is Ok
            &&& term_value(d, val) == (val.add)(
                (val.mul)(term_value(derive_spec(var, u)->Ok_0, val), term_value(v, val)),
                (val.mul)(term_value(u, val), term_value(derive_spec(var, v)->Ok_0, val)),
            )
        },
        derive_spec(var, Term::Neg(Box::new(u))) matches Ok(d) ==> {
            &&& derive_spec(var, u) is Ok
            &&& term_value(d, val) == (val.neg)(term_value(derive_spec(var, u)->Ok_0, val))
        },
{
    if let Ok(du) = derive_spec(var, u) {
        if let Ok(dv) = derive_spec(var, v) {
            let a = term_value(du, val);
            let b = term_value(dv, val);
            let x = term_value(u, val);
            let y = term_value(v, val);
            assert(is_zero_model(zero_model()));
            assert(term_value(zero_term(), val) == val.zero);
            assert(derive_spec(var, bin_term(BinaryOp::Mul, u, v)) == Ok::<Term, Fault>(product_rule(u, v, du, dv)));
            if is_zero_term(du) {
                assert(a == val.zero);
                ax_mul_comm(val, val.zero, y);
                ax_mul_zero(val, y);
                ax_add_comm(val, val.zero, (val.mul)(x, b));
                ax_add_zero(val, (val.mul)(x, b));
            }
            if is_zero_term(dv) {
                assert(b == val.zero);
                ax_mul_zero(val, x);
                ax_add_zero(val, (val.mul)(a, y));
            }
            if !is_zero_term(du) && !is_zero_term(dv) {
                assert(term_value(mul_term(du, v), val) == (val.mul)(a, y));
                assert(term_value(mul_term(u, dv), val) == (val.mul)(x, b));
            }
        }
    }
}

/// The quotient rule: the derivative of `u / v`, when it exists, has the
/// value of `(d(u) * v - u * d(v)) / v^2` under every valuation in a
/// commutative ring that reads zero numbers as zero, where zero divided by
/// anything and the negation of zero are zero.
pub proof fn lemma_derive_quotient<V>(var: Seq<char>, u: Term, v: Term, val: Valuation<V>)
    requires
        valuation_wf(val),
        forall|n: DecModel| is_zero_model(n) ==> #[trigger] (val.num)(n) == val.zero,
        (val.neg)(val.zero) == val.zero,
        forall|w: V| #[trigger] (val.div)(val.zero, w) == val.zero,
    ensures
        derive_spec(var, bin_term(BinaryOp::Div, u, v)) matches Ok(d) ==> {
            &&& derive_spec(var, u) is Ok
            &&& derive_spec(var, v) is Ok
            &&& term_value(d, val) == (val.div)(
                (val.add)(
                    (val.mul)(term_value(derive_spec(var, u)->Ok_0, val), term_value(v, val)),
                    (val.neg)((val.mul)(term_value(u, val), term_value(derive_spec(var, v)->Ok_0, val))),
                ),
                (val.power)(term_value(v, val), (val.num)(two_model())),
            )
        },
{
    if let Ok(du) = derive_spec(var, u) {
        if let Ok(dv) = derive_spec(var, v) {
            let a = term_value(du, val);
            let b = term_value(dv, val);
            let x = term_value(u, val);
            let y = term_value(v, val);
            assert(is_zero_model(zero_model()));
            assert(term_value(zero_term(), val) == val.zero);
            assert(derive_spec(var, bin_term(BinaryOp::Div, u, v)) == Ok::<Term, Fault>(quotient_rule(u, v, du, dv)));
            if is_zero_term(du) && is_zero_term(dv) {
                assert(a == val.zero && b == val.zero);
                ax_mul_comm(val, val.zero, y);
                ax_mul_zero(val, y);
                ax_mul_zero(val, x);
                ax_add_zero(val, val.zero);
            } else {
                let num = bin_term(BinaryOp::Sub, mul_term(du, v), mul_term(u, dv));
                assert(term_value(mul_term(du, v), val) == (val.mul)(a, y));
                assert(term_value(mul_term(u, dv), val) == (val.mul)(x, b));
                assert(term_value(num, val) == (val.add)((val.mul)(a, y), (val.neg)((val.mul)(x, b))));
                assert(term_value(Term::Number(two_model()), val) == (val.num)(two_model()));
                assert(term_value(bin_term(BinaryOp::Pow, v, Term::Number(two_model())), val) == (val.power)(y, (val.num)(two_model())));
            }
        }
    }
}

/// The derivative of the outer function at a point of value `x`:
/// `cos x`, `-sin x`, `1 + tan(x)^2`, `exp x` (the one of `ln` is taken as
/// a division, below).
pub open spec fn outer_derivative<V>(f: Func, x: V, val: Valuation<V>) -> V {
    match f {
        Func::Sin => (val.call)(Func::Cos, x),
        Func::Cos => (val.neg)((val.call)(Func::Sin, x)),
        Func::Tan => (val.add)(val.one, (val.power)((val.call)(Func::Tan, x), (val.num)(two_model()))),
        Func::Exp => (val.call)(Func::Exp, x),
        Func::Ln => (val.div)(val.one, x),
    }
}

/// The chain rule: the derivative of `f(u)`, when it exists, has the value
/// of `f'(u) * d(u)`, and for `ln` of `d(u) / u`, under every valuation in
/// a commutative ring that reads zero numbers as zero and where zero
/// divided by anything is zero.
pub proof fn lemma_derive_chain<V>(var: Seq<char>, f: Func, u: Term, val: Valuation<V>)
    requires
        valuation_wf(val),
        forall|n: DecModel| is_zero_model(n) ==> #[trigger] (val.num)(n) == val.zero,
        forall|w: V| #[trigger] (val.div)(val.zero, w) == val.zero,
    ensures
        derive_spec(var, Term::Call(f, Box::new(u))) matches Ok(d) ==> {
            &&& derive_spec(var, u) is Ok
            &&& term_value(d, val) == if f == Func::Ln {
                (val.div)(term_value(derive_spec(var, u)->Ok_0, val), term_value(u, val))
            } else {
                (val.mul)(outer_derivative(f, term_value(u, val), val), term_value(derive_spec(var, u)->Ok_0, val))
            }
        },
{
    if let Ok(du) = derive_spec(var, u) {
        let a = term_value(du, val);
        let x = term_value(u, val);
        assert(is_zero_model(zero_model()));
        assert(term_value(zero_term(), val) == val.zero);
        assert(derive_spec(var, Term::Call(f, Box::new(u))) == Ok::<Term, Fault>(chain_rule(f, u, du)));
        if is_zero_term(du) {
            assert(a == val.zero);
            ax_mul_zero(val, outer_derivative(f, x, val));
        } else {
            ax_num_one(val);
            let c = chain_rule(f, u, du);
            match f {
                Func::Sin => {
                    let g = Term::Call(Func::Cos, Box::new(u));
                    assert(term_value(g, val) == (val.call)(Func::Cos, x));
                    assert(term_value(c, val) == (val.mul)(term_value(g, val), a));
                },
                Func::Cos => {
                    let s0 = Term::Call(Func::Sin, Box::new(u));
                    let g = Term::Neg(Box::new(s0));
                    assert(term_value(s0, val) == (val.call)(Func::Sin, x));
                    assert(term_value(g, val) == (val.neg)((val.call)(Func::Sin, x)));
                    assert(term_value(c, val) == (val.mul)(term_value(g, val), a));
                },
                Func::Tan => {
                    let t0 = Term::Call(Func::Tan, Box::new(u));
                    let sq = bin_term(BinaryOp::Pow, t0, Term::Number(two_model()));
                    let g = bin_term(BinaryOp::Add, Term::Number(one_model()), sq);
                    assert(term_value(t0, val) == (val.call)(Func::Tan, x));
                    assert(term_value(Term::Number(two_model()), val) == (val.num)(two_model()));
                    assert(term_value(sq, val) == (val.power)((val.call)(Func::Tan, x), (val.num)(two_model())));
                    assert(term_value(Term::Number(one_model()), val) == val.one);
                    assert(term_value(g, val) == outer_derivative(f, x, val));
                    assert(term_value(c, val) == (val.mul)(term_value(g, val), a));
                },
                Func::Exp => {
                    let g = Term::Call(Func::Exp, Box::new(u));
                    assert(term_value(g, val) == (val.call)(Func::Exp, x));
                    assert(term_value(c, val) == (val.mul)(term_value(g, val), a));
                },
                Func::Ln => {},
            }
        }
    }
}

/// The power rule for a numeric exponent: the derivative of `u^n`, when it
/// exists, has the value of `n * u^(n - 1) * d(u)` under every valuation in
/// a commutative ring that reads zero numbers as zero.
pub proof fn lemma_derive_power<V>(var: Seq<char>, u: Term, n: DecModel, val: Valuation<V>)
    requires
        valuation_wf(val),
        forall|z: DecModel| is_zero_model(z) ==> #[trigger] (val.num)(z) == val.zero,
    ensures
        derive_spec(var, bin_term(BinaryOp::Pow, u, Term::Number(n))) matches Ok(d) ==> {
            &&& derive_spec(var, u) is Ok
            &&& term_value(d, val) == (val.mul)(
                (val.mul)((val.num)(n), (val.power)(term_value(u, val), (val.num)(sub_model(n, one_model())->Some_0))),
                term_value(derive_spec(var, u)->Ok_0, val),
            )
        },
{
    if let Ok(du) = derive_spec(var, u) {
        let a = term_value(du, val);
        let x = term_value(u, val);
        let m = sub_model(n, one_model())->Some_0;
        let p = (val.power)(x, (val.num)(m));
        assert(is_zero_model(zero_model()));
        assert(term_value(zero_term(), val) == val.zero);
        assert(derive_spec(var, bin_term(BinaryOp::Pow, u, Term::Number(n))) == const_power_rule(u, n, du));
        if is_zero_model(n) {
            ax_mul_comm(val, val.zero, p);
            ax_mul_zero(val, p);
            ax_mul_comm(val, val.zero, a);
            ax_mul_zero(val, a);
        } else if is_zero_term(du) {
            ax_mul_zero(val, (val.mul)((val.num)(n), p));
        } else if sub_model(n, one_model()) is Some {
            let pw = bin_term(BinaryOp::Pow, u, Term::Number(m));
            assert(term_value(Term::Number(m), val) == (val.num)(m));
            assert(term_value(pw, val) == p);
            assert(term_value(Term::Number(n), val) == (val.num)(n));
            assert(term_value(mul_term(Term::Number(n), pw), val) == (val.mul)((val.num)(n), p));
        }
    }
}

} // verus!
