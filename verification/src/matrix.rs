//! Numeric matrix arithmetic: elementwise sums, products, and scalar maps.

use vstd::prelude::*;
use crate::ast::BinaryOp;
use crate::env::{dec_row_view, dec_rows_view};
use crate::error::{EvalError, EvalResultT, Fault};
use crate::numeric::{
    Decimal, DecModel, add_model, sub_model, mul_model, bounded_div_model, neg_model, zero_model, is_zero_model,
    bounded_div, canonical, is_sum, is_difference, lemma_add_exact, lemma_sub_exact,
};

verus! {

/// Rows, and the length of the first row (0 without rows).
pub open spec fn dims(m: Seq<Seq<DecModel>>) -> (nat, nat) {
    (m.len(), if m.len() == 0 { 0 } else { m[0].len() })
}

pub open spec fn min_nat(a: nat, b: nat) -> nat {
    if a <= b { a } else { b }
}

pub open spec fn sum_or_difference(op: BinaryOp, x: DecModel, y: DecModel) -> Option<DecModel> {
    if op == BinaryOp::Add {
        add_model(x, y)
    } else {
        sub_model(x, y)
    }
}

/// The first `k` entries of the elementwise sum or difference of two rows.
pub open spec fn zip_row(op: BinaryOp, ra: Seq<DecModel>, rb: Seq<DecModel>, k: nat) -> Result<Seq<DecModel>, Fault>
    decreases k,
{
    if k == 0 {
        Ok(Seq::empty())
    } else {
        match zip_row(op, ra, rb, (k - 1) as nat) {
            Ok(p) => match sum_or_difference(op, ra[k - 1], rb[k - 1]) {
                Some(v) => Ok(p.push(v)),
                None => Err(Fault::ExpressionTooLarge),
            },
            Err(f) => Err(f),
        }
    }
}

/// The first `k` rows of the elementwise sum or difference; rows pair up
/// and each pair is cut to the shorter row.
pub open spec fn zip_rows(op: BinaryOp, a: Seq<Seq<DecModel>>, b: Seq<Seq<DecModel>>, k: nat) -> Result<Seq<Seq<DecModel>>, Fault>
    decreases k,
{
    if k == 0 {
        Ok(Seq::empty())
    } else {
        match zip_rows(op, a, b, (k - 1) as nat) {
            Ok(p) => match zip_row(op, a[k - 1], b[k - 1], min_nat(a[k - 1].len(), b[k - 1].len())) {
                Ok(r) => Ok(p.push(r)),
                Err(f) => Err(f),
            },
            Err(f) => Err(f),
        }
    }
}

/// `sum_{m < k} a[i][m] * b[m][j]`, accumulated from zero.
pub open spec fn dot(a: Seq<Seq<DecModel>>, b: Seq<Seq<DecModel>>, i: int, j: int, k: nat) -> Option<DecModel>
    decreases k,
{
    if k == 0 {
        Some(zero_model())
    } else {
        match dot(a, b, i, j, (k - 1) as nat) {
            Some(acc) => match mul_model(a[i][k - 1], b[k - 1][j]) {
                Some(p) => add_model(acc, p),
                None => None,
            },
            None => None,
        }
    }
}

/// The first `j` entries of row `i` of the product over `n` inner terms.
pub open spec fn product_row(a: Seq<Seq<DecModel>>, b: Seq<Seq<DecModel>>, i: int, n: nat, j: nat) -> Result<Seq<DecModel>, Fault>
    decreases j,
{
    if j == 0 {
        Ok(Seq::empty())
    } else {
        match product_row(a, b, i, n, (j - 1) as nat) {
            Ok(p) => match dot(a, b, i, j - 1, n) {
                Some(v) => Ok(p.push(v)),
                None => Err(Fault::ExpressionTooLarge),
            },
            Err(f) => Err(f),
        }
    }
}

/// The first `i` rows of the product, each `cols` wide over `n` inner terms.
pub open spec fn product_rows(a: Seq<Seq<DecModel>>, b: Seq<Seq<DecModel>>, i: nat, cols: nat, n: nat) -> Result<Seq<Seq<DecModel>>, Fault>
    decreases i,
{
    if i == 0 {
        Ok(Seq::empty())
    } else {
        match product_rows(a, b, (i - 1) as nat, cols, n) {
            Ok(p) => match product_row(a, b, i - 1, n, cols) {
                Ok(r) => Ok(p.push(r)),
                Err(f) => Err(f),
            },
            Err(f) => Err(f),
        }
    }
}

/// Every one of the first `count` rows has at least `width` entries.
pub open spec fn rows_at_least(m: Seq<Seq<DecModel>>, count: nat, width: nat) -> bool {
    forall|i: int| 0 <= i < count ==> #[trigger] m[i].len() >= width
}

pub open spec fn mismatch(msg: Seq<char>) -> Result<Seq<Seq<DecModel>>, Fault> {
    Err(Fault::TypeMismatch(msg))
}

/// Matrix-matrix arithmetic: `+`/`-` elementwise on equal dimensions, `*`
/// as the matrix product.
pub open spec fn matrix_matrix_spec(op: BinaryOp, a: Seq<Seq<DecModel>>, b: Seq<Seq<DecModel>>) -> Result<Seq<Seq<DecModel>>, Fault> {
    if op == BinaryOp::Add || op == BinaryOp::Sub {
        if dims(a) != dims(b) {
            mismatch("matrix dimension mismatch for +/-"@)
        } else {
            zip_rows(op, a, b, a.len())
        }
    } else if op == BinaryOp::Mul {
        let (ar, ac) = dims(a);
        let (br, bc) = dims(b);
        if ac != br || !rows_at_least(a, ar, ac) || !rows_at_least(b, br, bc) {
            mismatch("matrix dimension mismatch for *"@)
        } else {
            product_rows(a, b, ar, bc, ac)
        }
    } else {
        mismatch("unsupported matrix-matrix operation"@)
    }
}

/// An operation applied to every entry.
pub enum EntryMap {
    Negate,
    MulBy(DecModel),
    DivBy(DecModel),
}

pub open spec fn apply_entry(f: EntryMap, v: DecModel) -> Option<DecModel> {
    match f {
        EntryMap::Negate => Some(neg_model(v)),
        EntryMap::MulBy(s) => mul_model(v, s),
        EntryMap::DivBy(s) => bounded_div_model(v, s),
    }
}

pub open spec fn map_row(f: EntryMap, row: Seq<DecModel>, k: nat) -> Result<Seq<DecModel>, Fault>
    decreases k,
{
    if k == 0 {
        Ok(Seq::empty())
    } else {
        match map_row(f, row, (k - 1) as nat) {
            Ok(p) => match apply_entry(f, row[k - 1]) {
                Some(v) => Ok(p.push(v)),
                None => Err(Fault::ExpressionTooLarge),
            },
            Err(e) => Err(e),
        }
    }
}

pub open spec fn map_rows(f: EntryMap, m: Seq<Seq<DecModel>>, k: nat) -> Result<Seq<Seq<DecModel>>, Fault>
    decreases k,
{
    if k == 0 {
        Ok(Seq::empty())
    } else {
        match map_rows(f, m, (k - 1) as nat) {
            Ok(p) => match map_row(f, m[k - 1], m[k - 1].len()) {
                Ok(r) => Ok(p.push(r)),
                Err(e) => Err(e),
            },
            Err(e) => Err(e),
        }
    }
}

/// The operation applied to every entry of the matrix.
pub open spec fn map_matrix_spec(f: EntryMap, m: Seq<Seq<DecModel>>) -> Result<Seq<Seq<DecModel>>, Fault> {
    map_rows(f, m, m.len())
}

/// A scalar with a matrix (on either side): `*` scales every entry, `/`
/// divides every entry by the scalar.
pub open spec fn scalar_matrix_spec(op: BinaryOp, s: DecModel, m: Seq<Seq<DecModel>>) -> Result<Seq<Seq<DecModel>>, Fault> {
    if op == BinaryOp::Mul {
        map_matrix_spec(EntryMap::MulBy(s), m)
    } else if op == BinaryOp::Div {
        if is_zero_model(s) {
            Err(Fault::DivisionByZero)
        } else {
            map_matrix_spec(EntryMap::DivBy(s), m)
        }
    } else {
        mismatch("only scalar * / matrix is supported"@)
    }
}

/// The model of a matrix outcome.
pub open spec fn mat_outcome(r: EvalResultT<Vec<Vec<Decimal>>>, s: Result<Seq<Seq<DecModel>>, Fault>) -> bool {
    match s {
        Ok(m) => r matches Ok(x) && dec_rows_view(x@) == m,
        Err(f) => r matches Err(e) && e@ == f,
    }
}

fn too_large<T>() -> (r: EvalResultT<T>)
    ensures
        r matches Err(e) && e@ == Fault::ExpressionTooLarge,
{
    Err(EvalError::ExpressionTooLarge)
}

fn entry(f: &EntryMapExec, v: &Decimal) -> (r: Option<Decimal>)
    requires
        f.wf(),
    ensures
        match apply_entry(f@, v@) {
            Some(x) => r matches Some(y) && y@ == x,
            None => r is None,
        },
{
    match f {
        EntryMapExec::Negate => Some(v.neg()),
        EntryMapExec::MulBy(s) => v.mul(s),
        EntryMapExec::DivBy(s) => bounded_div(v, s),
    }
}

/// The executable form of an [`EntryMap`]; a divisor is never zero.
pub enum EntryMapExec {
    Negate,
    MulBy(Decimal),
    DivBy(Decimal),
}

impl View for EntryMapExec {
    type V = EntryMap;

    open spec fn view(&self) -> EntryMap {
        match self {
            EntryMapExec::Negate => EntryMap::Negate,
            EntryMapExec::MulBy(s) => EntryMap::MulBy(s@),
            EntryMapExec::DivBy(s) => EntryMap::DivBy(s@),
        }
    }
}

impl EntryMapExec {
    pub open spec fn wf(&self) -> bool {
        self matches EntryMapExec::DivBy(s) ==> !is_zero_model(s@)
    }
}

proof fn lemma_map_row_err(f: EntryMap, row: Seq<DecModel>, k: nat, n: nat)
    requires
        k <= n,
        map_row(f, row, k) is Err,
    ensures
        map_row(f, row, n) == map_row(f, row, k),
    decreases n - k,
{
    if k < n {
        lemma_map_row_err(f, row, k + 1, n);
    }
}

proof fn lemma_map_rows_err(f: EntryMap, m: Seq<Seq<DecModel>>, k: nat, n: nat)
    requires
        k <= n,
        map_rows(f, m, k) is Err,
    ensures
        map_rows(f, m, n) == map_rows(f, m, k),
    decreases n - k,
{
    if k < n {
        lemma_map_rows_err(f, m, k + 1, n);
    }
}

/// Applies the operation to every entry.
pub fn map_matrix(m: &Vec<Vec<Decimal>>, f: &EntryMapExec) -> (r: EvalResultT<Vec<Vec<Decimal>>>)
    requires
        f.wf(),
    ensures
        mat_outcome(r, map_matrix_spec(f@, dec_rows_view(m@))),
{
    let ghost mv = dec_rows_view(m@);
    let mut out: Vec<Vec<Decimal>> = Vec::new();
    let mut i: usize = 0;
    proof {
        assert(dec_rows_view(out@) =~= Seq::<Seq<DecModel>>::empty());
    }
    while i < m.len()
        invariant
            mv == dec_rows_view(m@),
            f.wf(),
            i <= m.len(),
            map_rows(f@, mv, i as nat) == Ok::<Seq<Seq<DecModel>>, Fault>(dec_rows_view(out@)),
        decreases m.len() - i,
    {
        let row = &m[i];
        let ghost rv = dec_row_view(row@);
        proof {
            assert(mv[i as int] == rv);
        }
        let mut nr: Vec<Decimal> = Vec::new();
        let mut j: usize = 0;
        proof {
            assert(dec_row_view(nr@) =~= Seq::<DecModel>::empty());
        }
        while j < row.len()
            invariant
                rv == dec_row_view(row@),
                mv == dec_rows_view(m@),
                *row == m@[i as int],
                i < m.len(),
                mv[i as int] == rv,
                map_rows(f@, mv, i as nat) == Ok::<Seq<Seq<DecModel>>, Fault>(dec_rows_view(out@)),
                f.wf(),
                j <= row.len(),
                map_row(f@, rv, j as nat) == Ok::<Seq<DecModel>, Fault>(dec_row_view(nr@)),
            decreases row.len() - j,
        {
            proof {
                assert(rv[j as int] == row@[j as int]@);
            }
            match entry(f, &row[j]) {
                Some(v) => {
                    let ghost n0 = dec_row_view(nr@);
                    let ghost vv = v@;
                    nr.push(v);
                    proof {
                        assert(dec_row_view(nr@) =~= n0.push(vv));
                    }
                },
                None => {
                    proof {
                        lemma_map_row_err(f@, rv, (j + 1) as nat, rv.len());
                        lemma_map_rows_err(f@, mv, (i + 1) as nat, mv.len());
                    }
                    return too_large();
                },
            }
            j += 1;
        }
        let ghost o0 = dec_rows_view(out@);
        let ghost nv = dec_row_view(nr@);
        out.push(nr);
        proof {
            assert(dec_rows_view(out@) =~= o0.push(nv));
        }
        i += 1;
    }
    Ok(out)
}

proof fn lemma_zip_row_err(op: BinaryOp, ra: Seq<DecModel>, rb: Seq<DecModel>, k: nat, n: nat)
    requires
        k <= n,
        zip_row(op, ra, rb, k) is Err,
    ensures
        zip_row(op, ra, rb, n) == zip_row(op, ra, rb, k),
    decreases n - k,
{
    if k < n {
        lemma_zip_row_err(op, ra, rb, k + 1, n);
    }
}

proof fn lemma_zip_rows_err(op: BinaryOp, a: Seq<Seq<DecModel>>, b: Seq<Seq<DecModel>>, k: nat, n: nat)
    requires
        k <= n,
        zip_rows(op, a, b, k) is Err,
    ensures
        zip_rows(op, a, b, n) == zip_rows(op, a, b, k),
    decreases n - k,
{
    if k < n {
        lemma_zip_rows_err(op, a, b, k + 1, n);
    }
}

proof fn lemma_dot_none(a: Seq<Seq<DecModel>>, b: Seq<Seq<DecModel>>, i: int, j: int, k: nat, n: nat)
    requires
        k <= n,
        dot(a, b, i, j, k) is None,
    ensures
        dot(a, b, i, j, n) is None,
    decreases n - k,
{
    if k < n {
        lemma_dot_none(a, b, i, j, k + 1, n);
    }
}

proof fn lemma_product_row_err(a: Seq<Seq<DecModel>>, b: Seq<Seq<DecModel>>, i: int, n: nat, k: nat, m: nat)
    requires
        k <= m,
        product_row(a, b, i, n, k) is Err,
    ensures
        product_row(a, b, i, n, m) == product_row(a, b, i, n, k),
    decreases m - k,
{
    if k < m {
        lemma_product_row_err(a, b, i, n, k + 1, m);
    }
}

proof fn lemma_product_rows_err(a: Seq<Seq<DecModel>>, b: Seq<Seq<DecModel>>, k: nat, m: nat, cols: nat, n: nat)
    requires
        k <= m,
        product_rows(a, b, k, cols, n) is Err,
    ensures
        product_rows(a, b, m, cols, n) == product_rows(a, b, k, cols, n),
    decreases m - k,
{
    if k < m {
        lemma_product_rows_err(a, b, k + 1, m, cols, n);
    }
}

fn mismatch_error<T>(msg: &str) -> (r: EvalResultT<T>)
    ensures
        r matches Err(e) && e@ == Fault::TypeMismatch(msg@),
{
    Err(EvalError::TypeMismatch(String::from_str(msg)))
}

fn first_row_len(m: &Vec<Vec<Decimal>>) -> (r: usize)
    ensures
        r == dims(dec_rows_view(m@)).1,
{
    if m.len() == 0 {
        0
    } else {
        proof {
            assert(dec_rows_view(m@)[0] == dec_row_view(m@[0]@));
        }
        m[0].len()
    }
}

/// Elementwise sum or difference of two matrices of equal dimensions.
fn zip_matrices(op: BinaryOp, a: &Vec<Vec<Decimal>>, b: &Vec<Vec<Decimal>>) -> (r: EvalResultT<Vec<Vec<Decimal>>>)
    requires
        a.len() == b.len(),
    ensures
        mat_outcome(r, zip_rows(op, dec_rows_view(a@), dec_rows_view(b@), a.len() as nat)),
{
    let ghost av = dec_rows_view(a@);
    let ghost bv = dec_rows_view(b@);
    let mut out: Vec<Vec<Decimal>> = Vec::new();
    let mut i: usize = 0;
    proof {
        assert(dec_rows_view(out@) =~= Seq::<Seq<DecModel>>::empty());
    }
    while i < a.len()
        invariant
            av == dec_rows_view(a@),
            bv == dec_rows_view(b@),
            a.len() == b.len(),
            i <= a.len(),
            zip_rows(op, av, bv, i as nat) == Ok::<Seq<Seq<DecModel>>, Fault>(dec_rows_view(out@)),
        decreases a.len() - i,
    {
        let ra = &a[i];
        let rb = &b[i];
        let ghost rav = dec_row_view(ra@);
        let ghost rbv = dec_row_view(rb@);
        proof {
            assert(av[i as int] == rav);
            assert(bv[i as int] == rbv);
        }
        let n = if ra.len() <= rb.len() { ra.len() } else { rb.len() };
        let mut nr: Vec<Decimal> = Vec::new();
        let mut j: usize = 0;
        proof {
            assert(dec_row_view(nr@) =~= Seq::<DecModel>::empty());
        }
        while j < n
            invariant
                rav == dec_row_view(ra@),
                rbv == dec_row_view(rb@),
                av == dec_rows_view(a@),
                bv == dec_rows_view(b@),
                a.len() == b.len(),
                i < a.len(),
                av[i as int] == rav,
                bv[i as int] == rbv,
                n == min_nat(rav.len(), rbv.len()),
                zip_rows(op, av, bv, i as nat) == Ok::<Seq<Seq<DecModel>>, Fault>(dec_rows_view(out@)),
                n <= ra.len(),
                n <= rb.len(),
                j <= n,
                zip_row(op, rav, rbv, j as nat) == Ok::<Seq<DecModel>, Fault>(dec_row_view(nr@)),
            decreases n - j,
        {
            proof {
                assert(rav[j as int] == ra@[j as int]@);
                assert(rbv[j as int] == rb@[j as int]@);
            }
            let v = if op == BinaryOp::Add {
                ra[j].add(&rb[j])
            } else {
                ra[j].sub(&rb[j])
            };
            match v {
                Some(v) => {
                    let ghost n0 = dec_row_view(nr@);
                    let ghost vv = v@;
                    nr.push(v);
                    proof {
                        assert(dec_row_view(nr@) =~= n0.push(vv));
                    }
                },
                None => {
                    proof {
                        lemma_zip_row_err(op, rav, rbv, (j + 1) as nat, n as nat);
                        lemma_zip_rows_err(op, av, bv, (i + 1) as nat, a.len() as nat);
                    }
                    return too_large();
                },
            }
            j += 1;
        }
        let ghost o0 = dec_rows_view(out@);
        let ghost nv = dec_row_view(nr@);
        out.push(nr);
        proof {
            assert(dec_rows_view(out@) =~= o0.push(nv));
        }
        i += 1;
    }
    Ok(out)
}

/// Row `i`, column `j` of the product over `n` inner terms.
fn dot_exec(a: &Vec<Vec<Decimal>>, b: &Vec<Vec<Decimal>>, i: usize, j: usize, n: usize) -> (r: Option<Decimal>)
    requires
        i < a.len(),
        n <= a@[i as int].len(),
        n <= b.len(),
        forall|k: int| 0 <= k < n ==> j < #[trigger] b@[k]@.len(),
    ensures
        match dot(dec_rows_view(a@), dec_rows_view(b@), i as int, j as int, n as nat) {
            Some(x) => r matches Some(y) && y@ == x,
            None => r is None,
        },
{
    let ghost av = dec_rows_view(a@);
    let ghost bv = dec_rows_view(b@);
    let mut acc = Decimal::zero();
    let mut k: usize = 0;
    while k < n
        invariant
            av == dec_rows_view(a@),
            bv == dec_rows_view(b@),
            i < a.len(),
            n <= a@[i as int].len(),
            n <= b.len(),
            forall|k: int| 0 <= k < n ==> j < #[trigger] b@[k]@.len(),
            k <= n,
            dot(av, bv, i as int, j as int, k as nat) == Some(acc@),
        decreases n - k,
    {
        proof {
            assert(av[i as int] == dec_row_view(a@[i as int]@));
            assert(av[i as int][k as int] == a@[i as int]@[k as int]@);
            assert(bv[k as int] == dec_row_view(b@[k as int]@));
            assert(j < b@[k as int]@.len());
            assert(bv[k as int][j as int] == b@[k as int]@[j as int]@);
        }
        let p = match a[i][k].mul(&b[k][j]) {
            Some(p) => p,
            None => {
                proof {
                    lemma_dot_none(av, bv, i as int, j as int, (k + 1) as nat, n as nat);
                }
                return None;
            },
        };
        acc = match acc.add(&p) {
            Some(s) => s,
            None => {
                proof {
                    lemma_dot_none(av, bv, i as int, j as int, (k + 1) as nat, n as nat);
                }
                return None;
            },
        };
        k += 1;
    }
    Some(acc)
}

/// The matrix product.
fn multiply(a: &Vec<Vec<Decimal>>, b: &Vec<Vec<Decimal>>, ar: usize, ac: usize, bc: usize) -> (r: EvalResultT<Vec<Vec<Decimal>>>)
    requires
        ar == a.len(),
        ac == b.len(),
        forall|i: int| 0 <= i < ar ==> #[trigger] a@[i]@.len() >= ac,
        forall|k: int| 0 <= k < ac ==> #[trigger] b@[k]@.len() >= bc,
    ensures
        mat_outcome(r, product_rows(dec_rows_view(a@), dec_rows_view(b@), ar as nat, bc as nat, ac as nat)),
{
    let ghost av = dec_rows_view(a@);
    let ghost bv = dec_rows_view(b@);
    let mut out: Vec<Vec<Decimal>> = Vec::new();
    let mut i: usize = 0;
    proof {
        assert(dec_rows_view(out@) =~= Seq::<Seq<DecModel>>::empty());
    }
    while i < ar
        invariant
            av == dec_rows_view(a@),
            bv == dec_rows_view(b@),
            ar == a.len(),
            ac == b.len(),
            forall|i: int| 0 <= i < ar ==> #[trigger] a@[i]@.len() >= ac,
            forall|k: int| 0 <= k < ac ==> #[trigger] b@[k]@.len() >= bc,
            i <= ar,
            product_rows(av, bv, i as nat, bc as nat, ac as nat) == Ok::<Seq<Seq<DecModel>>, Fault>(dec_rows_view(out@)),
        decreases ar - i,
    {
        let mut nr: Vec<Decimal> = Vec::new();
        let mut j: usize = 0;
        proof {
            assert(dec_row_view(nr@) =~= Seq::<DecModel>::empty());
            assert(a@[i as int]@.len() >= ac);
        }
        while j < bc
            invariant
                av == dec_rows_view(a@),
                bv == dec_rows_view(b@),
                ar == a.len(),
                ac == b.len(),
                i < ar,
                product_rows(av, bv, i as nat, bc as nat, ac as nat) == Ok::<Seq<Seq<DecModel>>, Fault>(dec_rows_view(out@)),
                a@[i as int]@.len() >= ac,
                forall|k: int| 0 <= k < ac ==> #[trigger] b@[k]@.len() >= bc,
                j <= bc,
                product_row(av, bv, i as int, ac as nat, j as nat) == Ok::<Seq<DecModel>, Fault>(dec_row_view(nr@)),
            decreases bc - j,
        {
            proof {
                assert forall|k: int| 0 <= k < ac implies j < #[trigger] b@[k]@.len() by {
                    assert(b@[k]@.len() >= bc);
                }
            }
            match dot_exec(a, b, i, j, ac) {
                Some(v) => {
                    let ghost n0 = dec_row_view(nr@);
                    let ghost vv = v@;
                    nr.push(v);
                    proof {
                        assert(dec_row_view(nr@) =~= n0.push(vv));
                    }
                },
                None => {
                    proof {
                        lemma_product_row_err(av, bv, i as int, ac as nat, (j + 1) as nat, bc as nat);
                        lemma_product_rows_err(av, bv, (i + 1) as nat, ar as nat, bc as nat, ac as nat);
                    }
                    return too_large();
                },
            }
            j += 1;
        }
        let ghost o0 = dec_rows_view(out@);
        let ghost nv = dec_row_view(nr@);
        out.push(nr);
        proof {
            assert(dec_rows_view(out@) =~= o0.push(nv));
        }
        i += 1;
    }
    Ok(out)
}

/// Whether each of the first `count` rows has at least `width` entries.
fn rows_reach(m: &Vec<Vec<Decimal>>, count: usize, width: usize) -> (r: bool)
    requires
        count <= m.len(),
    ensures
        r == rows_at_least(dec_rows_view(m@), count as nat, width as nat),
        r ==> forall|i: int| 0 <= i < count ==> #[trigger] m@[i]@.len() >= width,
{
    let ghost mv = dec_rows_view(m@);
    let mut i: usize = 0;
    while i < count
        invariant
            mv == dec_rows_view(m@),
            count <= m.len(),
            i <= count,
            forall|k: int| 0 <= k < i ==> #[trigger] m@[k]@.len() >= width,
        decreases count - i,
    {
        proof {
            assert(mv[i as int] == dec_row_view(m@[i as int]@));
        }
        if m[i].len() < width {
            return false;
        }
        i += 1;
    }
    proof {
        assert forall|k: int| 0 <= k < count implies #[trigger] mv[k].len() >= width by {
            assert(mv[k] == dec_row_view(m@[k]@));
            assert(m@[k]@.len() >= width);
        }
    }
    true
}

/// Matrix-matrix arithmetic.
pub fn matrix_matrix(op: BinaryOp, a: &Vec<Vec<Decimal>>, b: &Vec<Vec<Decimal>>) -> (r: EvalResultT<Vec<Vec<Decimal>>>)
    ensures
        mat_outcome(r, matrix_matrix_spec(op, dec_rows_view(a@), dec_rows_view(b@))),
{
    let ac = first_row_len(a);
    let bc = first_row_len(b);
    if op == BinaryOp::Add || op == BinaryOp::Sub {
        if a.len() != b.len() || ac != bc {
            return mismatch_error("matrix dimension mismatch for +/-");
        }
        zip_matrices(op, a, b)
    } else if op == BinaryOp::Mul {
        if ac != b.len() {
            return mismatch_error("matrix dimension mismatch for *");
        }
        if !rows_reach(a, a.len(), ac) || !rows_reach(b, b.len(), bc) {
            return mismatch_error("matrix dimension mismatch for *");
        }
        multiply(a, b, a.len(), ac, bc)
    } else {
        mismatch_error("unsupported matrix-matrix operation")
    }
}

/// A scalar with a matrix: `*` scales, `/` divides every entry.
pub fn scalar_matrix(op: BinaryOp, s: &Decimal, m: &Vec<Vec<Decimal>>) -> (r: EvalResultT<Vec<Vec<Decimal>>>)
    ensures
        mat_outcome(r, scalar_matrix_spec(op, s@, dec_rows_view(m@))),
{
    if op == BinaryOp::Mul {
        map_matrix(m, &EntryMapExec::MulBy(s.copy()))
    } else if op == BinaryOp::Div {
        if s.is_zero() {
            return Err(EvalError::DivisionByZero);
        }
        map_matrix(m, &EntryMapExec::DivBy(s.copy()))
    } else {
        mismatch_error("only scalar * / matrix is supported")
    }
}

/// `r` is the entrywise value `x + y` (for `Add`) or `x - y` (for `Sub`).
pub open spec fn entry_law(op: BinaryOp, r: DecModel, x: DecModel, y: DecModel) -> bool {
    &&& op == BinaryOp::Add ==> is_sum(r, x, y)
    &&& op == BinaryOp::Sub ==> is_difference(r, x, y)
}

/// Every entry of every row is a normalized decimal.
pub open spec fn entries_canonical(m: Seq<Seq<DecModel>>) -> bool {
    forall|i: int, j: int| 0 <= i < m.len() && 0 <= j < m[i].len() ==> canonical(#[trigger] m[i][j])
}

proof fn lemma_zip_row_values(op: BinaryOp, ra: Seq<DecModel>, rb: Seq<DecModel>, k: nat)
    requires
        op == BinaryOp::Add || op == BinaryOp::Sub,
        k <= ra.len(),
        k <= rb.len(),
        forall|j: int| 0 <= j < ra.len() ==> canonical(#[trigger] ra[j]),
        forall|j: int| 0 <= j < rb.len() ==> canonical(#[trigger] rb[j]),
    ensures
        zip_row(op, ra, rb, k) matches Ok(r) ==> r.len() == k && forall|j: int|
            0 <= j < k ==> entry_law(op, #[trigger] r[j], ra[j], rb[j]),
    decreases k,
{
    if k > 0 {
        lemma_zip_row_values(op, ra, rb, (k - 1) as nat);
        lemma_add_exact(ra[k - 1], rb[k - 1]);
        lemma_sub_exact(ra[k - 1], rb[k - 1]);
    }
}

proof fn lemma_zip_rows_values(op: BinaryOp, a: Seq<Seq<DecModel>>, b: Seq<Seq<DecModel>>, k: nat)
    requires
        op == BinaryOp::Add || op == BinaryOp::Sub,
        k <= a.len(),
        k <= b.len(),
        entries_canonical(a),
        entries_canonical(b),
    ensures
        zip_rows(op, a, b, k) matches Ok(m) ==> m.len() == k && forall|i: int|
            0 <= i < k ==> (#[trigger] m[i]).len() == min_nat(a[i].len(), b[i].len()) && forall|j: int|
                0 <= j < m[i].len() ==> entry_law(op, #[trigger] m[i][j], a[i][j], b[i][j]),
    decreases k,
{
    if k > 0 {
        lemma_zip_rows_values(op, a, b, (k - 1) as nat);
        let ra = a[k - 1];
        let rb = b[k - 1];
        assert forall|j: int| 0 <= j < ra.len() implies canonical(#[trigger] ra[j]) by {
            assert(canonical(a[k - 1][j]));
        }
        assert forall|j: int| 0 <= j < rb.len() implies canonical(#[trigger] rb[j]) by {
            assert(canonical(b[k - 1][j]));
        }
        lemma_zip_row_values(op, ra, rb, min_nat(ra.len(), rb.len()));
    }
}

/// Entrywise matrix arithmetic is decimal arithmetic: when `a + b` or
/// `a - b` succeeds, it has the dimensions of the operands (each row cut
/// to the shorter of the paired rows), and each entry `(i, j)` denotes
/// `a[i][j] + b[i][j]` or `a[i][j] - b[i][j]`, the left operand's entry
/// first.
pub proof fn lemma_matrix_entrywise(op: BinaryOp, a: Seq<Seq<DecModel>>, b: Seq<Seq<DecModel>>)
    requires
        op == BinaryOp::Add || op == BinaryOp::Sub,
        entries_canonical(a),
        entries_canonical(b),
    ensures
        matrix_matrix_spec(op, a, b) matches Ok(m) ==> {
            &&& m.len() == a.len()
            &&& a.len() == b.len()
            &&& forall|i: int| 0 <= i < m.len() ==> (#[trigger] m[i]).len() == min_nat(a[i].len(), b[i].len())
            &&& forall|i: int, j: int|
                0 <= i < m.len() && 0 <= j < m[i].len() ==> entry_law(op, #[trigger] m[i][j], a[i][j], b[i][j])
        },
{
    if dims(a) == dims(b) {
        lemma_zip_rows_values(op, a, b, a.len());
    }
}

} // verus!
