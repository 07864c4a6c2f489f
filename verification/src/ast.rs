//! The expression AST shared by every stage of the engine, with its
//! mathematical model [`Term`].

use vstd::prelude::*;
use crate::numeric::{Decimal, DecModel, bigdecimal_text};
use crate::text::string_of_char;

verus! {

#[derive(Debug, Clone, Copy, PartialEq, Eq, Structural)]
pub enum BinaryOp {
    Add,
    Sub,
    Mul,
    Div,
    Pow,
}

#[derive(Debug, Clone, Copy, PartialEq, Eq, Structural)]
pub enum Func {
    Sin,
    Cos,
    Tan,
    Exp,
    Ln,
}

/// Boolean connectives of the logic sub-language.
#[derive(Debug, Clone, Copy, PartialEq, Eq, Structural)]
pub enum LogicOp {
    And,
    Or,
    Xor,
    Nand,
    Nor,
}

/// The unevaluated expression tree. Variables are bound to `Expr` values,
/// which is what makes lazy evaluation and delayed binding possible.
#[derive(Debug, PartialEq)]
pub enum Expr {
    Number(Decimal),
    Bool(bool),
    Variable(String),
    /// Row-major matrix; the engine requires elements to reduce to numbers.
    Matrix(Vec<Vec<Expr>>),
    Neg(Box<Expr>),
    Binary(BinaryOp, Box<Expr>, Box<Expr>),
    Call(Func, Box<Expr>),
    Not(Box<Expr>),
    Logic(LogicOp, Box<Expr>, Box<Expr>),
    /// `\param. body`; `\x y. e` is desugared to nested lambdas.
    Lambda(String, Box<Expr>),
    /// Function application `func arg`.
    Apply(Box<Expr>, Box<Expr>),
    Assign(String, Box<Expr>),
    Simplify(Box<Expr>),
    Expand(Box<Expr>),
    Derive(String, Box<Expr>),
}

/// The model of an [`Expr`]: names are character sequences and numbers are
/// decimal models.
pub enum Term {
    Number(DecModel),
    Bool(bool),
    Variable(Seq<char>),
    Matrix(Seq<Seq<Term>>),
    Neg(Box<Term>),
    Binary(BinaryOp, Box<Term>, Box<Term>),
    Call(Func, Box<Term>),
    Not(Box<Term>),
    Logic(LogicOp, Box<Term>, Box<Term>),
    Lambda(Seq<char>, Box<Term>),
    Apply(Box<Term>, Box<Term>),
    Assign(Seq<char>, Box<Term>),
    Simplify(Box<Term>),
    Expand(Box<Term>),
    Derive(Seq<char>, Box<Term>),
}

pub open spec fn row_view(row: Seq<Expr>) -> Seq<Term>
    decreases row,
{
    if row.len() == 0 {
        Seq::empty()
    } else {
        proof {
            assert(decreases_to!(row => row[row.len() - 1]));
        }
        row_view(row.drop_last()).push(expr_view(row[row.len() - 1]))
    }
}

pub open spec fn rows_view(rows: Seq<Vec<Expr>>) -> Seq<Seq<Term>>
    decreases rows,
{
    if rows.len() == 0 {
        Seq::empty()
    } else {
        proof {
            assert(decreases_to!(rows => rows[rows.len() - 1]));
            assert(decreases_to!(rows[rows.len() - 1] => rows[rows.len() - 1]@));
        }
        rows_view(rows.drop_last()).push(row_view(rows[rows.len() - 1]@))
    }
}

pub open spec fn expr_view(e: Expr) -> Term
    decreases e,
{
    match e {
        Expr::Number(n) => Term::Number(n@),
        Expr::Bool(b) => Term::Bool(b),
        Expr::Variable(v) => Term::Variable(v@),
        Expr::Matrix(rows) => {
            proof {
                assert(decreases_to!(rows => rows@));
            }
            Term::Matrix(rows_view(rows@))
        },
        Expr::Neg(x) => Term::Neg(Box::new(expr_view(*x))),
        Expr::Binary(op, l, r) => Term::Binary(op, Box::new(expr_view(*l)), Box::new(expr_view(*r))),
        Expr::Call(f, x) => Term::Call(f, Box::new(expr_view(*x))),
        Expr::Not(x) => Term::Not(Box::new(expr_view(*x))),
        Expr::Logic(op, l, r) => Term::Logic(op, Box::new(expr_view(*l)), Box::new(expr_view(*r))),
        Expr::Lambda(p, b) => Term::Lambda(p@, Box::new(expr_view(*b))),
        Expr::Apply(f, a) => Term::Apply(Box::new(expr_view(*f)), Box::new(expr_view(*a))),
        Expr::Assign(n, x) => Term::Assign(n@, Box::new(expr_view(*x))),
        Expr::Simplify(x) => Term::Simplify(Box::new(expr_view(*x))),
        Expr::Expand(x) => Term::Expand(Box::new(expr_view(*x))),
        Expr::Derive(v, x) => Term::Derive(v@, Box::new(expr_view(*x))),
    }
}

impl View for Expr {
    type V = Term;

    open spec fn view(&self) -> Term {
        expr_view(*self)
    }
}

pub open spec fn row_size(row: Seq<Term>) -> nat
    decreases row,
{
    if row.len() == 0 {
        0
    } else {
        proof {
            assert(decreases_to!(row => row[row.len() - 1]));
        }
        row_size(row.drop_last()) + term_size(row[row.len() - 1])
    }
}

pub open spec fn rows_size(rows: Seq<Seq<Term>>) -> nat
    decreases rows,
{
    if rows.len() == 0 {
        0
    } else {
        proof {
            assert(decreases_to!(rows => rows[rows.len() - 1]));
        }
        rows_size(rows.drop_last()) + row_size(rows[rows.len() - 1])
    }
}

/// Total node count of a term.
pub open spec fn term_size(t: Term) -> nat
    decreases t,
{
    match t {
        Term::Number(_) | Term::Bool(_) | Term::Variable(_) => 1,
        Term::Matrix(rows) => 1 + rows_size(rows),
        Term::Neg(x) | Term::Call(_, x) | Term::Not(x) | Term::Simplify(x) | Term::Expand(x)
        | Term::Assign(_, x) | Term::Derive(_, x) | Term::Lambda(_, x) => 1 + term_size(*x),
        Term::Binary(_, l, r) | Term::Logic(_, l, r) | Term::Apply(l, r) => 1 + term_size(*l)
            + term_size(*r),
    }
}

/// A count capped at `usize::MAX`.
pub open spec fn saturate(n: nat) -> usize {
    if n <= usize::MAX {
        n as usize
    } else {
        usize::MAX
    }
}

/// The view of a row has an element's view at each position.
pub proof fn lemma_row_view(s: Seq<Expr>)
    ensures
        row_view(s).len() == s.len(),
        forall|i: int| 0 <= i < s.len() ==> #[trigger] row_view(s)[i] == expr_view(s[i]),
    decreases s.len(),
{
    if s.len() > 0 {
        lemma_row_view(s.drop_last());
    }
}

/// The view of a list of rows has a row's view at each position.
pub proof fn lemma_rows_view(s: Seq<Vec<Expr>>)
    ensures
        rows_view(s).len() == s.len(),
        forall|i: int| 0 <= i < s.len() ==> #[trigger] rows_view(s)[i] == row_view(s[i]@),
    decreases s.len(),
{
    if s.len() > 0 {
        lemma_rows_view(s.drop_last());
    }
}

/// An element is no larger than its row.
pub proof fn lemma_row_size_elem(row: Seq<Term>, j: int)
    requires
        0 <= j < row.len(),
    ensures
        term_size(row[j]) <= row_size(row),
    decreases row.len(),
{
    if j < row.len() - 1 {
        lemma_row_size_elem(row.drop_last(), j);
    }
}

/// A row is no larger than the rows.
pub proof fn lemma_rows_size_elem(rows: Seq<Seq<Term>>, i: int)
    requires
        0 <= i < rows.len(),
    ensures
        row_size(rows[i]) <= rows_size(rows),
    decreases rows.len(),
{
    if i < rows.len() - 1 {
        lemma_rows_size_elem(rows.drop_last(), i);
    }
}

proof fn lemma_row_size_step(row: Seq<Term>, i: int)
    requires
        0 <= i < row.len(),
    ensures
        row_size(row.take(i + 1)) == row_size(row.take(i)) + term_size(row[i]),
{
    assert(row.take(i + 1).drop_last() =~= row.take(i));
}

proof fn lemma_rows_size_step(rows: Seq<Seq<Term>>, i: int)
    requires
        0 <= i < rows.len(),
    ensures
        rows_size(rows.take(i + 1)) == rows_size(rows.take(i)) + row_size(rows[i]),
{
    assert(rows.take(i + 1).drop_last() =~= rows.take(i));
}

fn add_saturating(a: usize, b: usize) -> (r: usize)
    ensures
        r == if a + b <= usize::MAX { (a + b) as usize } else { usize::MAX },
{
    if a > usize::MAX - b {
        usize::MAX
    } else {
        a + b
    }
}

impl BinaryOp {
    pub open spec fn symbol_spec(self) -> char {
        match self {
            BinaryOp::Add => '+',
            BinaryOp::Sub => '-',
            BinaryOp::Mul => '*',
            BinaryOp::Div => '/',
            BinaryOp::Pow => '^',
        }
    }

    pub fn symbol(self) -> (r: char)
        ensures
            r == self.symbol_spec(),
    {
        match self {
            BinaryOp::Add => '+',
            BinaryOp::Sub => '-',
            BinaryOp::Mul => '*',
            BinaryOp::Div => '/',
            BinaryOp::Pow => '^',
        }
    }
}

impl Func {
    pub open spec fn name_spec(self) -> Seq<char> {
        match self {
            Func::Sin => "sin"@,
            Func::Cos => "cos"@,
            Func::Tan => "tan"@,
            Func::Exp => "exp"@,
            Func::Ln => "ln"@,
        }
    }

    pub fn name(self) -> (r: &'static str)
        ensures
            r@ == self.name_spec(),
    {
        match self {
            Func::Sin => "sin",
            Func::Cos => "cos",
            Func::Tan => "tan",
            Func::Exp => "exp",
            Func::Ln => "ln",
        }
    }
}

impl LogicOp {
    pub open spec fn name_spec(self) -> Seq<char> {
        match self {
            LogicOp::And => "and"@,
            LogicOp::Or => "or"@,
            LogicOp::Xor => "xor"@,
            LogicOp::Nand => "nand"@,
            LogicOp::Nor => "nor"@,
        }
    }

    pub fn name(self) -> (r: &'static str)
        ensures
            r@ == self.name_spec(),
    {
        match self {
            LogicOp::And => "and",
            LogicOp::Or => "or",
            LogicOp::Xor => "xor",
            LogicOp::Nand => "nand",
            LogicOp::Nor => "nor",
        }
    }
}

impl Expr {
    pub fn num(n: Decimal) -> (r: Expr)
        ensures
            r@ == Term::Number(n@),
    {
        Expr::Number(n)
    }

    pub fn var(name: String) -> (r: Expr)
        ensures
            r@ == Term::Variable(name@),
    {
        Expr::Variable(name)
    }

    pub fn binary(op: BinaryOp, l: Expr, r: Expr) -> (e: Expr)
        ensures
            e@ == Term::Binary(op, Box::new(l@), Box::new(r@)),
    {
        Expr::Binary(op, Box::new(l), Box::new(r))
    }

    pub fn negate(e: Expr) -> (r: Expr)
        ensures
            r@ == Term::Neg(Box::new(e@)),
    {
        Expr::Neg(Box::new(e))
    }

    pub fn call(f: Func, arg: Expr) -> (r: Expr)
        ensures
            r@ == Term::Call(f, Box::new(arg@)),
    {
        Expr::Call(f, Box::new(arg))
    }

    pub fn not(e: Expr) -> (r: Expr)
        ensures
            r@ == Term::Not(Box::new(e@)),
    {
        Expr::Not(Box::new(e))
    }

    pub fn logic(op: LogicOp, l: Expr, r: Expr) -> (e: Expr)
        ensures
            e@ == Term::Logic(op, Box::new(l@), Box::new(r@)),
    {
        Expr::Logic(op, Box::new(l), Box::new(r))
    }

    /// A deep copy with the same model.
    pub fn copy(&self) -> (r: Expr)
        ensures
            r@ == self@,
        decreases self,
    {
        match self {
            Expr::Number(n) => Expr::Number(n.copy()),
            Expr::Bool(b) => Expr::Bool(*b),
            Expr::Variable(v) => Expr::Variable(v.clone()),
            Expr::Matrix(rows) => {
                let mut out: Vec<Vec<Expr>> = Vec::new();
                let mut i: usize = 0;
                proof {
                    lemma_rows_view(rows@);
                }
                while i < rows.len()
                    invariant
                        *self == Expr::Matrix(*rows),
                        i <= rows.len(),
                        rows_view(rows@).len() == rows.len(),
                        forall|k: int| 0 <= k < rows.len() ==> #[trigger] rows_view(rows@)[k] == row_view(rows@[k]@),
                        out.len() == i,
                        forall|k: int| 0 <= k < i ==> #[trigger] row_view(out@[k]@) == row_view(rows@[k]@),
                    decreases rows.len() - i,
                {
                    let row = &rows[i];
                    let mut nr: Vec<Expr> = Vec::new();
                    let mut j: usize = 0;
                    proof {
                        lemma_row_view(row@);
                    }
                    while j < row.len()
                        invariant
                            *self == Expr::Matrix(*rows),
                            i < rows.len(),
                            *row == rows@[i as int],
                            j <= row.len(),
                            row_view(row@).len() == row.len(),
                            forall|k: int| 0 <= k < row.len() ==> #[trigger] row_view(row@)[k] == expr_view(row@[k]),
                            nr.len() == j,
                            forall|k: int| 0 <= k < j ==> #[trigger] expr_view(nr@[k]) == expr_view(row@[k]),
                        decreases row.len() - j,
                    {
                        proof {
                            assert(decreases_to!(*self => (*self)->Matrix_0));
                            assert(decreases_to!(*rows => rows@));
                            assert(decreases_to!(rows@ => rows@[i as int]));
                            assert(decreases_to!(rows@[i as int] => rows@[i as int]@));
                            assert(decreases_to!(rows@[i as int]@ => rows@[i as int]@[j as int]));
                        }
                        let c = row[j].copy();
                        nr.push(c);
                        j += 1;
                    }
                    proof {
                        lemma_row_view(nr@);
                        assert(row_view(nr@) =~= row_view(row@));
                    }
                    out.push(nr);
                    i += 1;
                }
                proof {
                    lemma_rows_view(out@);
                    assert(rows_view(out@) =~= rows_view(rows@));
                }
                Expr::Matrix(out)
            },
            Expr::Neg(e) => Expr::Neg(Box::new(e.copy())),
            Expr::Binary(op, l, r) => Expr::Binary(*op, Box::new(l.copy()), Box::new(r.copy())),
            Expr::Call(f, e) => Expr::Call(*f, Box::new(e.copy())),
            Expr::Not(e) => Expr::Not(Box::new(e.copy())),
            Expr::Logic(op, l, r) => Expr::Logic(*op, Box::new(l.copy()), Box::new(r.copy())),
            Expr::Lambda(p, b) => Expr::Lambda(p.clone(), Box::new(b.copy())),
            Expr::Apply(f, a) => Expr::Apply(Box::new(f.copy()), Box::new(a.copy())),
            Expr::Assign(n, e) => Expr::Assign(n.clone(), Box::new(e.copy())),
            Expr::Simplify(e) => Expr::Simplify(Box::new(e.copy())),
            Expr::Expand(e) => Expr::Expand(Box::new(e.copy())),
            Expr::Derive(v, e) => Expr::Derive(v.clone(), Box::new(e.copy())),
        }
    }

    /// Structural equality of the models (numbers are normalized, so this is
    /// value equality on numbers).
    pub fn equals(&self, other: &Expr) -> (r: bool)
        ensures
            r == (self@ == other@),
        decreases self,
    {
        match (self, other) {
            (Expr::Number(a), Expr::Number(b)) => {
                let r = a.equals(b);
                proof {
                    assert(self@ == Term::Number(a@));
                    assert(other@ == Term::Number(b@));
                    if self@ == other@ {
                        assert(a@ == b@);
                    }
                }
                r
            },
            (Expr::Bool(a), Expr::Bool(b)) => *a == *b,
            (Expr::Variable(a), Expr::Variable(b)) => *a == *b,
            (Expr::Matrix(ra), Expr::Matrix(rb)) => {
                proof {
                    lemma_rows_view(ra@);
                    lemma_rows_view(rb@);
                }
                if ra.len() != rb.len() {
                    return false;
                }
                let mut i: usize = 0;
                while i < ra.len()
                    invariant
                        *self == Expr::Matrix(*ra),
                        *other == Expr::Matrix(*rb),
                        ra.len() == rb.len(),
                        i <= ra.len(),
                        rows_view(ra@).len() == ra.len(),
                        rows_view(rb@).len() == rb.len(),
                        forall|k: int| 0 <= k < ra.len() ==> #[trigger] rows_view(ra@)[k] == row_view(ra@[k]@),
                        forall|k: int| 0 <= k < rb.len() ==> #[trigger] rows_view(rb@)[k] == row_view(rb@[k]@),
                        forall|k: int| 0 <= k < i ==> #[trigger] row_view(ra@[k]@) == row_view(rb@[k]@),
                    decreases ra.len() - i,
                {
                    let a = &ra[i];
                    let b = &rb[i];
                    proof {
                        lemma_row_view(a@);
                        lemma_row_view(b@);
                    }
                    if a.len() != b.len() {
                        proof {
                            assert(rows_view(ra@)[i as int] != rows_view(rb@)[i as int]);
                        }
                        return false;
                    }
                    let mut j: usize = 0;
                    while j < a.len()
                        invariant
                            *self == Expr::Matrix(*ra),
                            *other == Expr::Matrix(*rb),
                            ra.len() == rb.len(),
                            i < ra.len(),
                            *a == ra@[i as int],
                            *b == rb@[i as int],
                            a.len() == b.len(),
                            rows_view(ra@).len() == ra.len(),
                            rows_view(rb@).len() == rb.len(),
                            forall|k: int| 0 <= k < ra.len() ==> #[trigger] rows_view(ra@)[k] == row_view(ra@[k]@),
                            forall|k: int| 0 <= k < rb.len() ==> #[trigger] rows_view(rb@)[k] == row_view(rb@[k]@),
                            j <= a.len(),
                            row_view(a@).len() == a.len(),
                            row_view(b@).len() == b.len(),
                            forall|k: int| 0 <= k < a.len() ==> #[trigger] row_view(a@)[k] == expr_view(a@[k]),
                            forall|k: int| 0 <= k < b.len() ==> #[trigger] row_view(b@)[k] == expr_view(b@[k]),
                            forall|k: int| 0 <= k < j ==> #[trigger] expr_view(a@[k]) == expr_view(b@[k]),
                        decreases a.len() - j,
                    {
                        proof {
                            assert(decreases_to!(*self => (*self)->Matrix_0));
                            assert(decreases_to!(*ra => ra@));
                            assert(decreases_to!(ra@ => ra@[i as int]));
                            assert(decreases_to!(ra@[i as int] => ra@[i as int]@));
                            assert(decreases_to!(ra@[i as int]@ => ra@[i as int]@[j as int]));
                        }
                        if !a[j].equals(&b[j]) {
                            proof {
                                assert(row_view(a@)[j as int] != row_view(b@)[j as int]);
                                assert(rows_view(ra@)[i as int] != rows_view(rb@)[i as int]);
                            }
                            return false;
                        }
                        j += 1;
                    }
                    proof {
                        assert(row_view(a@) =~= row_view(b@));
                    }
                    i += 1;
                }
                proof {
                    assert(rows_view(ra@) =~= rows_view(rb@));
                }
                true
            },
            (Expr::Neg(a), Expr::Neg(b)) => a.equals(b),
            (Expr::Binary(o1, l1, r1), Expr::Binary(o2, l2, r2)) => *o1 == *o2 && l1.equals(l2) && r1.equals(r2),
            (Expr::Call(f1, a), Expr::Call(f2, b)) => *f1 == *f2 && a.equals(b),
            (Expr::Not(a), Expr::Not(b)) => a.equals(b),
            (Expr::Logic(o1, l1, r1), Expr::Logic(o2, l2, r2)) => *o1 == *o2 && l1.equals(l2) && r1.equals(r2),
            (Expr::Lambda(p1, b1), Expr::Lambda(p2, b2)) => *p1 == *p2 && b1.equals(b2),
            (Expr::Apply(f1, a1), Expr::Apply(f2, a2)) => f1.equals(f2) && a1.equals(a2),
            (Expr::Assign(n1, e1), Expr::Assign(n2, e2)) => *n1 == *n2 && e1.equals(e2),
            (Expr::Simplify(a), Expr::Simplify(b)) => a.equals(b),
            (Expr::Expand(a), Expr::Expand(b)) => a.equals(b),
            (Expr::Derive(v1, e1), Expr::Derive(v2, e2)) => *v1 == *v2 && e1.equals(e2),
            _ => {
                proof {
                    assert(self@ != other@);
                }
                false
            },
        }
    }

    /// Total node count (capped at `usize::MAX`), used to enforce
    /// `MAX_NODES` during rewrites.
    pub fn node_count(&self) -> (r: usize)
        ensures
            r == saturate(term_size(self@)),
        decreases self,
    {
        match self {
            Expr::Number(_) | Expr::Bool(_) | Expr::Variable(_) => 1,
            Expr::Matrix(rows) => {
                let mut total: usize = 1;
                let mut i: usize = 0;
                let ghost rv = rows_view(rows@);
                proof {
                    lemma_rows_view(rows@);
                    assert(rv.take(0) =~= Seq::<Seq<Term>>::empty());
                }
                while i < rows.len()
                    invariant
                        *self == Expr::Matrix(*rows),
                        i <= rows.len(),
                        rv == rows_view(rows@),
                        rv.len() == rows.len(),
                        forall|k: int| 0 <= k < rows.len() ==> #[trigger] rv[k] == row_view(rows@[k]@),
                        total == saturate(1 + rows_size(rv.take(i as int))),
                    decreases rows.len() - i,
                {
                    let row = &rows[i];
                    let ghost tv = row_view(row@);
                    proof {
                        lemma_row_view(row@);
                        assert(tv.take(0) =~= Seq::<Term>::empty());
                    }
                    let mut j: usize = 0;
                    let mut row_total: usize = 0;
                    while j < row.len()
                        invariant
                            *self == Expr::Matrix(*rows),
                            i < rows.len(),
                            *row == rows@[i as int],
                            j <= row.len(),
                            tv == row_view(row@),
                            tv.len() == row.len(),
                            forall|k: int| 0 <= k < row.len() ==> #[trigger] tv[k] == expr_view(row@[k]),
                            row_total == saturate(row_size(tv.take(j as int))),
                        decreases row.len() - j,
                    {
                        proof {
                            assert(decreases_to!(*self => (*self)->Matrix_0));
                            assert(decreases_to!(*rows => rows@));
                            assert(decreases_to!(rows@ => rows@[i as int]));
                            assert(decreases_to!(rows@[i as int] => rows@[i as int]@));
                            assert(decreases_to!(rows@[i as int]@ => rows@[i as int]@[j as int]));
                        }
                        let c = row[j].node_count();
                        proof {
                            lemma_row_size_step(tv, j as int);
                        }
                        row_total = add_saturating(row_total, c);
                        j += 1;
                    }
                    proof {
                        assert(tv.take(row.len() as int) =~= tv);
                        lemma_rows_size_step(rv, i as int);
                    }
                    total = add_saturating(total, row_total);
                    i += 1;
                }
                proof {
                    assert(rv.take(rows.len() as int) =~= rv);
                }
                total
            },
            Expr::Neg(e) | Expr::Call(_, e) | Expr::Not(e) | Expr::Simplify(e) | Expr::Expand(e)
            | Expr::Assign(_, e) | Expr::Derive(_, e) | Expr::Lambda(_, e) => add_saturating(
                1,
                e.node_count(),
            ),
            Expr::Binary(_, l, r) | Expr::Logic(_, l, r) | Expr::Apply(l, r) => {
                let a = l.node_count();
                let b = r.node_count();
                add_saturating(add_saturating(1, a), b)
            },
        }
    }
}

/// The text of a term, fully parenthesized.
pub open spec fn render(t: Term) -> Seq<char>
    decreases t,
{
    match t {
        Term::Number(n) => bigdecimal_text(n),
        Term::Bool(b) => if b { "true"@ } else { "false"@ },
        Term::Variable(v) => v,
        Term::Matrix(rows) => "["@ + render_rows(rows) + "]"@,
        Term::Neg(e) => "-("@ + render(*e) + ")"@,
        Term::Binary(op, l, r) => "("@ + render(*l) + " "@ + seq![op.symbol_spec()] + " "@ + render(*r) + ")"@,
        Term::Call(f, a) => f.name_spec() + "("@ + render(*a) + ")"@,
        Term::Not(e) => "not("@ + render(*e) + ")"@,
        Term::Logic(op, l, r) => "("@ + render(*l) + " "@ + op.name_spec() + " "@ + render(*r) + ")"@,
        Term::Lambda(p, b) => "(\\"@ + p + ". "@ + render(*b) + ")"@,
        Term::Apply(g, a) => "("@ + render(*g) + " "@ + render(*a) + ")"@,
        Term::Assign(n, e) => n + " = "@ + render(*e),
        Term::Simplify(e) => "simplify("@ + render(*e) + ")"@,
        Term::Expand(e) => "expand("@ + render(*e) + ")"@,
        Term::Derive(v, e) => "derive("@ + v + ", "@ + render(*e) + ")"@,
    }
}

/// The elements of a row, separated by `", "`.
pub open spec fn render_row(row: Seq<Term>) -> Seq<char>
    decreases row,
{
    if row.len() == 0 {
        Seq::empty()
    } else {
        proof {
            assert(decreases_to!(row => row[row.len() - 1]));
        }
        if row.len() == 1 {
            render(row[0])
        } else {
            render_row(row.drop_last()) + ", "@ + render(row[row.len() - 1])
        }
    }
}

/// The rows, separated by `"; "`.
pub open spec fn render_rows(rows: Seq<Seq<Term>>) -> Seq<char>
    decreases rows,
{
    if rows.len() == 0 {
        Seq::empty()
    } else {
        proof {
            assert(decreases_to!(rows => rows[rows.len() - 1]));
        }
        if rows.len() == 1 {
            render_row(rows[0])
        } else {
            render_rows(rows.drop_last()) + "; "@ + render_row(rows[rows.len() - 1])
        }
    }
}

impl Expr {
    /// Appends the text of the expression to `out`.
    #[verifier::spinoff_prover]
    #[verifier::rlimit(40)]
    pub fn write_to(&self, out: &mut String)
        ensures
            final(out)@ == old(out)@ + render(self@),
        decreases self,
    {
        let ghost o0 = out@;
        match self {
            Expr::Number(n) => {
                let t = n.to_text();
                out.append(t.as_str());
            },
            Expr::Bool(b) => {
                if *b {
                    out.append("true");
                } else {
                    out.append("false");
                }
            },
            Expr::Variable(v) => {
                out.append(v.as_str());
            },
            Expr::Matrix(rows) => {
                out.append("[");
                let ghost rv = rows_view(rows@);
                let ghost o1 = out@;
                proof {
                    lemma_rows_view(rows@);
                    assert(rv.take(0) =~= Seq::<Seq<Term>>::empty());
                    assert(o1 =~= o1 + render_rows(rv.take(0)));
                }
                let mut i: usize = 0;
                while i < rows.len()
                    invariant
                        *self == Expr::Matrix(*rows),
                        rv == rows_view(rows@),
                        rv.len() == rows.len(),
                        forall|k: int| 0 <= k < rows.len() ==> #[trigger] rv[k] == row_view(rows@[k]@),
                        i <= rows.len(),
                        out@ == o1 + render_rows(rv.take(i as int)),
                    decreases rows.len() - i,
                {
                    let row = &rows[i];
                    let ghost tv = row_view(row@);
                    proof {
                        assert(rv.take(i + 1).drop_last() =~= rv.take(i as int));
                    }
                    if i > 0 {
                        out.append("; ");
                    }
                    let ghost o2 = out@;
                    proof {
                        lemma_row_view(row@);
                        assert(tv.take(0) =~= Seq::<Term>::empty());
                        assert(o2 =~= o2 + render_row(tv.take(0)));
                    }
                    let mut j: usize = 0;
                    while j < row.len()
                        invariant
                            *self == Expr::Matrix(*rows),
                            i < rows.len(),
                            *row == rows@[i as int],
                            tv == row_view(row@),
                            tv.len() == row.len(),
                            forall|k: int| 0 <= k < row.len() ==> #[trigger] tv[k] == expr_view(row@[k]),
                            j <= row.len(),
                            out@ == o2 + render_row(tv.take(j as int)),
                        decreases row.len() - j,
                    {
                        proof {
                            assert(decreases_to!(*self => (*self)->Matrix_0));
                            assert(decreases_to!(*rows => rows@));
                            assert(decreases_to!(rows@ => rows@[i as int]));
                            assert(decreases_to!(rows@[i as int] => rows@[i as int]@));
                            assert(decreases_to!(rows@[i as int]@ => rows@[i as int]@[j as int]));
                            assert(tv.take(j + 1).drop_last() =~= tv.take(j as int));
                        }
                        if j > 0 {
                            out.append(", ");
                        }
                        row[j].write_to(out);
                        proof {
                            if j == 0 {
                                assert(tv.take(1) =~= seq![tv[0]]);
                            }
                        }
                        j += 1;
                    }
                    proof {
                        assert(tv.take(row.len() as int) =~= tv);
                        if i == 0 {
                            assert(rv.take(1) =~= seq![rv[0]]);
                        }
                    }
                    i += 1;
                }
                proof {
                    assert(rv.take(rows.len() as int) =~= rv);
                }
                out.append("]");
            },
            Expr::Neg(e) => {
                out.append("-(");
                e.write_to(out);
                out.append(")");
            },
            Expr::Binary(op, l, r) => {
                out.append("(");
                l.write_to(out);
                out.append(" ");
                let c = string_of_char(op.symbol());
                out.append(c.as_str());
                out.append(" ");
                r.write_to(out);
                out.append(")");
            },
            Expr::Call(f, a) => {
                out.append(f.name());
                out.append("(");
                a.write_to(out);
                out.append(")");
            },
            Expr::Not(e) => {
                out.append("not(");
                e.write_to(out);
                out.append(")");
            },
            Expr::Logic(op, l, r) => {
                out.append("(");
                l.write_to(out);
                out.append(" ");
                out.append(op.name());
                out.append(" ");
                r.write_to(out);
                out.append(")");
            },
            Expr::Lambda(p, b) => {
                out.append("(\\");
                out.append(p.as_str());
                out.append(". ");
                b.write_to(out);
                out.append(")");
            },
            Expr::Apply(g, a) => {
                out.append("(");
                g.write_to(out);
                out.append(" ");
                a.write_to(out);
                out.append(")");
            },
            Expr::Assign(n, e) => {
                out.append(n.as_str());
                out.append(" = ");
                e.write_to(out);
            },
            Expr::Simplify(e) => {
                out.append("simplify(");
                e.write_to(out);
                out.append(")");
            },
            Expr::Expand(e) => {
                out.append("expand(");
                e.write_to(out);
                out.append(")");
            },
            Expr::Derive(v, e) => {
                out.append("derive(");
                out.append(v.as_str());
                out.append(", ");
                e.write_to(out);
                out.append(")");
            },
        }
    }

    /// The text of the expression: numbers normalized, every compound
    /// fully parenthesized.
    pub fn to_text(&self) -> (r: String)
        ensures
            r@ == render(self@),
    {
        let mut out = String::new();
        self.write_to(&mut out);
        out
    }
}

} // verus!
