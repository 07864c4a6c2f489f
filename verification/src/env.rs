//! The variable environment: bindings kept sorted by name, a result cache
//! cleared by every assignment, and the names currently being resolved.

use vstd::prelude::*;
use crate::ast::{Expr, Term};
use crate::numeric::{Decimal, DecModel};
use crate::text::{chars_of, str_equal};

verus! {

/// Engine output: terminal (numeric, boolean, matrix) or a reduced AST.
#[derive(Debug, PartialEq)]
pub enum EvalResult {
    Numeric(Decimal),
    Bool(bool),
    Matrix(Vec<Vec<Decimal>>),
    Symbolic(Box<Expr>),
    /// A lambda abstraction in normal form (its own reduction mode).
    Lambda(Box<Expr>),
}

/// The model of an [`EvalResult`].
pub enum Outcome {
    Numeric(DecModel),
    Bool(bool),
    Matrix(Seq<Seq<DecModel>>),
    Symbolic(Term),
    Lambda(Term),
}

pub open spec fn dec_row_view(row: Seq<Decimal>) -> Seq<DecModel> {
    row.map_values(|d: Decimal| d@)
}

pub open spec fn dec_rows_view(rows: Seq<Vec<Decimal>>) -> Seq<Seq<DecModel>> {
    rows.map_values(|r: Vec<Decimal>| dec_row_view(r@))
}

impl View for EvalResult {
    type V = Outcome;

    open spec fn view(&self) -> Outcome {
        match self {
            EvalResult::Numeric(n) => Outcome::Numeric(n@),
            EvalResult::Bool(b) => Outcome::Bool(*b),
            EvalResult::Matrix(rows) => Outcome::Matrix(dec_rows_view(rows@)),
            EvalResult::Symbolic(e) => Outcome::Symbolic(e@),
            EvalResult::Lambda(e) => Outcome::Lambda(e@),
        }
    }
}

fn copy_dec_row(row: &Vec<Decimal>) -> (r: Vec<Decimal>)
    ensures
        dec_row_view(r@) == dec_row_view(row@),
{
    let mut out: Vec<Decimal> = Vec::new();
    let mut j: usize = 0;
    while j < row.len()
        invariant
            j <= row.len(),
            out.len() == j,
            forall|k: int| 0 <= k < j ==> #[trigger] out@[k]@ == row@[k]@,
        decreases row.len() - j,
    {
        out.push(row[j].copy());
        j += 1;
    }
    assert(dec_row_view(out@) =~= dec_row_view(row@));
    out
}

/// A copy of a numeric matrix.
pub fn copy_dec_rows(rows: &Vec<Vec<Decimal>>) -> (r: Vec<Vec<Decimal>>)
    ensures
        dec_rows_view(r@) == dec_rows_view(rows@),
{
    let mut out: Vec<Vec<Decimal>> = Vec::new();
    let mut i: usize = 0;
    while i < rows.len()
        invariant
            i <= rows.len(),
            out.len() == i,
            forall|k: int| 0 <= k < i ==> #[trigger] dec_row_view(out@[k]@) == dec_row_view(rows@[k]@),
        decreases rows.len() - i,
    {
        out.push(copy_dec_row(&rows[i]));
        i += 1;
    }
    assert(dec_rows_view(out@) =~= dec_rows_view(rows@));
    out
}

impl EvalResult {
    /// A deep copy with the same model.
    pub fn copy(&self) -> (r: EvalResult)
        ensures
            r@ == self@,
    {
        match self {
            EvalResult::Numeric(n) => EvalResult::Numeric(n.copy()),
            EvalResult::Bool(b) => EvalResult::Bool(*b),
            EvalResult::Matrix(rows) => EvalResult::Matrix(copy_dec_rows(rows)),
            EvalResult::Symbolic(e) => EvalResult::Symbolic(Box::new(e.copy())),
            EvalResult::Lambda(e) => EvalResult::Lambda(Box::new(e.copy())),
        }
    }
}

/// Lexicographic order of character sequences by code point (the order of
/// `String`'s `Ord`, since UTF-8 preserves code-point order).
pub open spec fn name_lt(a: Seq<char>, b: Seq<char>) -> bool
    decreases a.len(),
{
    if a.len() == 0 {
        b.len() > 0
    } else if b.len() == 0 {
        false
    } else if a[0] != b[0] {
        a[0] < b[0]
    } else {
        name_lt(a.skip(1), b.skip(1))
    }
}

/// No name is below itself.
pub proof fn lemma_name_lt_irreflexive(a: Seq<char>)
    ensures
        !name_lt(a, a),
    decreases a.len(),
{
    if a.len() > 0 {
        lemma_name_lt_irreflexive(a.skip(1));
    }
}

/// Two names are equal or one is below the other.
pub proof fn lemma_name_lt_trichotomy(a: Seq<char>, b: Seq<char>)
    ensures
        name_lt(a, b) || name_lt(b, a) || a == b,
    decreases a.len(),
{
    if a.len() == 0 {
        if b.len() == 0 {
            assert(a =~= b);
        }
    } else if b.len() == 0 {
    } else if a[0] != b[0] {
    } else {
        lemma_name_lt_trichotomy(a.skip(1), b.skip(1));
        if a.skip(1) == b.skip(1) {
            assert(a =~= seq![a[0]] + a.skip(1));
            assert(b =~= seq![b[0]] + b.skip(1));
        }
    }
}

/// The name order is transitive.
pub proof fn lemma_name_lt_transitive(a: Seq<char>, b: Seq<char>, c: Seq<char>)
    requires
        name_lt(a, b),
        name_lt(b, c),
    ensures
        name_lt(a, c),
    decreases a.len(),
{
    if a.len() > 0 && b.len() > 0 && c.len() > 0 && a[0] == b[0] && b[0] == c[0] {
        lemma_name_lt_transitive(a.skip(1), b.skip(1), c.skip(1));
    }
}

/// The name order is asymmetric.
pub proof fn lemma_name_lt_asymmetric(a: Seq<char>, b: Seq<char>)
    requires
        name_lt(a, b),
    ensures
        !name_lt(b, a),
{
    if name_lt(b, a) {
        lemma_name_lt_transitive(a, b, a);
        lemma_name_lt_irreflexive(a);
    }
}

/// `a < b` in code-point order.
pub fn name_less(a: &str, b: &str) -> (r: bool)
    ensures
        r == name_lt(a@, b@),
{
    let x = chars_of(a);
    let y = chars_of(b);
    let mut i: usize = 0;
    assert(a@.skip(0) =~= a@);
    assert(b@.skip(0) =~= b@);
    while i < x.len() && i < y.len() && x[i] == y[i]
        invariant
            x@ == a@,
            y@ == b@,
            i <= x.len(),
            i <= y.len(),
            name_lt(a@, b@) == name_lt(a@.skip(i as int), b@.skip(i as int)),
        decreases x.len() - i,
    {
        proof {
            assert(a@.skip(i as int).skip(1) =~= a@.skip(i + 1));
            assert(b@.skip(i as int).skip(1) =~= b@.skip(i + 1));
        }
        i += 1;
    }
    if i == x.len() {
        i < y.len()
    } else if i == y.len() {
        false
    } else {
        x[i] < y[i]
    }
}

/// The value stored under the first matching key.
pub open spec fn lookup<V>(s: Seq<(Seq<char>, V)>, k: Seq<char>) -> Option<V>
    decreases s.len(),
{
    if s.len() == 0 {
        None
    } else if s[0].0 == k {
        Some(s[0].1)
    } else {
        lookup(s.skip(1), k)
    }
}

/// Keys strictly increasing in code-point order.
pub open spec fn keys_sorted<V>(s: Seq<(Seq<char>, V)>) -> bool {
    forall|i: int, j: int| 0 <= i < j < s.len() ==> name_lt(#[trigger] s[i].0, #[trigger] s[j].0)
}

pub open spec fn binding_view(v: Seq<(String, Expr)>) -> Seq<(Seq<char>, Term)> {
    v.map_values(|p: (String, Expr)| (p.0@, p.1@))
}

pub open spec fn cache_view(v: Seq<(String, EvalResult)>) -> Seq<(Seq<char>, Outcome)> {
    v.map_values(|p: (String, EvalResult)| (p.0@, p.1@))
}

pub open spec fn names_view(v: Seq<String>) -> Seq<Seq<char>> {
    v.map_values(|s: String| s@)
}

/// Variables are stored as unevaluated `Expr`. A result cache provides
/// memoization; any assignment clears it. `resolving` holds the names whose
/// binding is being reduced: meeting one again means a self- or mutually
/// referential binding, and that occurrence is treated as a free symbol.
pub struct Environment {
    vars: Vec<(String, Expr)>,
    cache: Vec<(String, EvalResult)>,
    resolving: Vec<String>,
}

/// The model of an [`Environment`].
pub struct EnvModel {
    pub vars: Seq<(Seq<char>, Term)>,
    pub cache: Seq<(Seq<char>, Outcome)>,
    pub resolving: Seq<Seq<char>>,
}

impl View for Environment {
    type V = EnvModel;

    closed spec fn view(&self) -> EnvModel {
        EnvModel {
            vars: binding_view(self.vars@),
            cache: cache_view(self.cache@),
            resolving: names_view(self.resolving@),
        }
    }
}

impl Environment {
    #[verifier::type_invariant]
    closed spec fn inv(self) -> bool {
        keys_sorted(binding_view(self.vars@))
    }

    /// An empty environment.
    pub fn new() -> (r: Environment)
        ensures
            r@.vars == Seq::<(Seq<char>, Term)>::empty(),
            r@.cache == Seq::<(Seq<char>, Outcome)>::empty(),
            r@.resolving == Seq::<Seq<char>>::empty(),
    {
        let e = Environment { vars: Vec::new(), cache: Vec::new(), resolving: Vec::new() };
        proof {
            assert(binding_view(e.vars@) =~= Seq::<(Seq<char>, Term)>::empty());
            assert(cache_view(e.cache@) =~= Seq::<(Seq<char>, Outcome)>::empty());
            assert(names_view(e.resolving@) =~= Seq::<Seq<char>>::empty());
        }
        e
    }
}

/// The bindings after storing `v` under `k`: an existing key is replaced in
/// place, a new one goes where the order puts it.
pub open spec fn insert_sorted<V>(s: Seq<(Seq<char>, V)>, k: Seq<char>, v: V) -> Seq<(Seq<char>, V)>
    decreases s.len(),
{
    if s.len() == 0 {
        seq![(k, v)]
    } else if s[0].0 == k {
        seq![(k, v)] + s.skip(1)
    } else if name_lt(k, s[0].0) {
        seq![(k, v)] + s
    } else {
        seq![s[0]] + insert_sorted(s.skip(1), k, v)
    }
}

/// The names with every occurrence of `k` taken out.
pub open spec fn remove_name(s: Seq<Seq<char>>, k: Seq<char>) -> Seq<Seq<char>> {
    s.filter(|x: Seq<char>| x != k)
}

proof fn lemma_lookup_index<V>(s: Seq<(Seq<char>, V)>, k: Seq<char>, i: int)
    requires
        0 <= i <= s.len(),
        forall|j: int| 0 <= j < i ==> #[trigger] s[j].0 != k,
    ensures
        lookup(s, k) == lookup(s.skip(i), k),
    decreases i,
{
    if i > 0 {
        assert(s.skip(1).skip(i - 1) =~= s.skip(i));
        assert forall|j: int| 0 <= j < i - 1 implies #[trigger] s.skip(1)[j].0 != k by {
            assert(s.skip(1)[j] == s[j + 1]);
        }
        lemma_lookup_index(s.skip(1), k, i - 1);
    } else {
        assert(s.skip(0) =~= s);
    }
}

proof fn lemma_insert_sorted_prefix<V>(s: Seq<(Seq<char>, V)>, k: Seq<char>, v: V, i: int)
    requires
        0 <= i <= s.len(),
        forall|j: int| 0 <= j < i ==> name_lt(#[trigger] s[j].0, k),
    ensures
        insert_sorted(s, k, v) == s.take(i) + insert_sorted(s.skip(i), k, v),
    decreases i,
{
    if i == 0 {
        assert(s.skip(0) =~= s);
        assert(s.take(0) + insert_sorted(s, k, v) =~= insert_sorted(s, k, v));
    } else {
        lemma_name_lt_irreflexive(k);
        lemma_name_lt_asymmetric(s[0].0, k);
        assert forall|j: int| 0 <= j < i - 1 implies name_lt(#[trigger] s.skip(1)[j].0, k) by {
            assert(s.skip(1)[j] == s[j + 1]);
        }
        lemma_insert_sorted_prefix(s.skip(1), k, v, i - 1);
        assert(s.skip(1).skip(i - 1) =~= s.skip(i));
        assert(seq![s[0]] + (s.skip(1).take(i - 1) + insert_sorted(s.skip(i), k, v)) =~= s.take(i)
            + insert_sorted(s.skip(i), k, v));
    }
}

/// Storing keeps the keys sorted.
pub proof fn lemma_insert_sorted_sorted<V>(s: Seq<(Seq<char>, V)>, k: Seq<char>, v: V)
    requires
        keys_sorted(s),
    ensures
        keys_sorted(insert_sorted(s, k, v)),
        forall|j: int| 0 <= j < insert_sorted(s, k, v).len() ==> (#[trigger] insert_sorted(s, k, v)[j].0 == k
            || exists|m: int| 0 <= m < s.len() && s[m].0 == insert_sorted(s, k, v)[j].0),
    decreases s.len(),
{
    let r = insert_sorted(s, k, v);
    if s.len() == 0 {
    } else if s[0].0 == k {
        assert forall|i: int, j: int| 0 <= i < j < r.len() implies name_lt(#[trigger] r[i].0, #[trigger] r[j].0) by {
            if i == 0 {
                assert(r[j] == s[j]);
            } else {
                assert(r[i] == s[i] && r[j] == s[j]);
            }
        }
        assert forall|j: int| 0 <= j < r.len() implies (#[trigger] r[j].0 == k || exists|m: int| 0 <= m < s.len() && s[m].0 == r[j].0) by {
            if j > 0 {
                assert(r[j] == s[j]);
            }
        }
    } else if name_lt(k, s[0].0) {
        assert forall|i: int, j: int| 0 <= i < j < r.len() implies name_lt(#[trigger] r[i].0, #[trigger] r[j].0) by {
            if i == 0 {
                assert(r[j] == s[j - 1]);
                if j > 1 {
                    lemma_name_lt_transitive(k, s[0].0, s[j - 1].0);
                }
            } else {
                assert(r[i] == s[i - 1] && r[j] == s[j - 1]);
            }
        }
        assert forall|j: int| 0 <= j < r.len() implies (#[trigger] r[j].0 == k || exists|m: int| 0 <= m < s.len() && s[m].0 == r[j].0) by {
            if j > 0 {
                assert(r[j] == s[j - 1]);
            }
        }
    } else {
        let t = s.skip(1);
        assert forall|i: int, j: int| 0 <= i < j < t.len() implies name_lt(#[trigger] t[i].0, #[trigger] t[j].0) by {
            assert(t[i] == s[i + 1] && t[j] == s[j + 1]);
        }
        lemma_insert_sorted_sorted(t, k, v);
        let rt = insert_sorted(t, k, v);
        lemma_name_lt_trichotomy(k, s[0].0);
        assert forall|i: int, j: int| 0 <= i < j < r.len() implies name_lt(#[trigger] r[i].0, #[trigger] r[j].0) by {
            if i == 0 {
                assert(r[j] == rt[j - 1]);
                if rt[j - 1].0 != k {
                    let m = choose|m: int| 0 <= m < t.len() && t[m].0 == rt[j - 1].0;
                    assert(t[m] == s[m + 1]);
                }
            } else {
                assert(r[i] == rt[i - 1] && r[j] == rt[j - 1]);
            }
        }
        assert forall|j: int| 0 <= j < r.len() implies (#[trigger] r[j].0 == k || exists|m: int| 0 <= m < s.len() && s[m].0 == r[j].0) by {
            if j > 0 {
                assert(r[j] == rt[j - 1]);
                if rt[j - 1].0 != k {
                    let m = choose|m: int| 0 <= m < t.len() && t[m].0 == rt[j - 1].0;
                    assert(t[m] == s[m + 1]);
                }
            } else {
                assert(s[0].0 == r[0].0);
            }
        }
    }
}

/// A read gives back what the last write stored, and other names keep
/// their bindings.
pub proof fn lemma_lookup_insert_sorted<V>(s: Seq<(Seq<char>, V)>, k: Seq<char>, v: V, k2: Seq<char>)
    requires
        keys_sorted(s),
    ensures
        lookup(insert_sorted(s, k, v), k2) == if k2 == k { Some(v) } else { lookup(s, k2) },
    decreases s.len(),
{
    let r = insert_sorted(s, k, v);
    if s.len() == 0 {
        assert(r =~= seq![(k, v)]);
        assert(r[0] == (k, v));
        assert(r.skip(1) =~= Seq::<(Seq<char>, V)>::empty());
        if k2 != k {
            assert(lookup(r, k2) == lookup(r.skip(1), k2));
        }
    } else if s[0].0 == k {
        assert(r =~= seq![(k, v)] + s.skip(1));
        assert(r[0] == (k, v));
        assert(r.skip(1) =~= s.skip(1));
        if k2 != k {
            assert(lookup(r, k2) == lookup(s.skip(1), k2));
            assert(lookup(s, k2) == lookup(s.skip(1), k2));
        }
    } else if name_lt(k, s[0].0) {
        assert(r =~= seq![(k, v)] + s);
        assert(r[0] == (k, v));
        assert(r.skip(1) =~= s);
        if k2 != k {
            assert(lookup(r, k2) == lookup(s, k2));
        }
    } else {
        let t = s.skip(1);
        assert forall|i: int, j: int| 0 <= i < j < t.len() implies name_lt(#[trigger] t[i].0, #[trigger] t[j].0) by {
            assert(t[i] == s[i + 1] && t[j] == s[j + 1]);
        }
        lemma_lookup_insert_sorted(t, k, v, k2);
        assert(r =~= seq![s[0]] + insert_sorted(t, k, v));
        assert(r[0] == s[0]);
        assert(r.skip(1) =~= insert_sorted(t, k, v));
        if s[0].0 == k2 {
            assert(lookup(r, k2) == Some(s[0].1));
            assert(lookup(s, k2) == Some(s[0].1));
        } else {
            assert(lookup(r, k2) == lookup(insert_sorted(t, k, v), k2));
            assert(lookup(s, k2) == lookup(t, k2));
        }
    }
}

impl Environment {
    /// The expression bound to `name`, if any.
    pub fn get(&self, name: &str) -> (r: Option<&Expr>)
        ensures
            match lookup(self@.vars, name@) {
                Some(t) => r matches Some(e) && e@ == t,
                None => r is None,
            },
    {
        let ghost s = self@.vars;
        let mut i: usize = 0;
        proof {
            assert(s == binding_view(self.vars@));
        }
        while i < self.vars.len()
            invariant
                s == binding_view(self.vars@),
                i <= self.vars.len(),
                forall|j: int| 0 <= j < i ==> #[trigger] s[j].0 != name@,
            decreases self.vars.len() - i,
        {
            if str_equal(self.vars[i].0.as_str(), name) {
                proof {
                    lemma_lookup_index(s, name@, i as int);
                }
                return Some(&self.vars[i].1);
            }
            i += 1;
        }
        proof {
            lemma_lookup_index(s, name@, i as int);
        }
        None
    }

    /// Snapshot of all bindings (name, stored AST), sorted by name.
    pub fn bindings(&self) -> (r: Vec<(String, Expr)>)
        ensures
            binding_view(r@) == self@.vars,
            keys_sorted(binding_view(r@)),
    {
        proof {
            use_type_invariant(self);
        }
        let mut out: Vec<(String, Expr)> = Vec::new();
        let mut i: usize = 0;
        while i < self.vars.len()
            invariant
                i <= self.vars.len(),
                out.len() == i,
                forall|k: int| 0 <= k < i ==> #[trigger] out@[k].0@ == self.vars@[k].0@ && out@[k].1@ == self.vars@[k].1@,
            decreases self.vars.len() - i,
        {
            out.push((self.vars[i].0.clone(), self.vars[i].1.copy()));
            i += 1;
        }
        proof {
            assert(binding_view(out@) =~= binding_view(self.vars@));
        }
        out
    }

    /// A copy with the same bindings, cache and names being resolved.
    pub fn copy(&self) -> (r: Environment)
        ensures
            r@ == self@,
    {
        proof {
            use_type_invariant(self);
        }
        let vars = self.bindings();
        let mut cache: Vec<(String, EvalResult)> = Vec::new();
        let mut i: usize = 0;
        while i < self.cache.len()
            invariant
                i <= self.cache.len(),
                cache_view(cache@) == cache_view(self.cache@).take(i as int),
            decreases self.cache.len() - i,
        {
            let ghost c0 = cache_view(cache@);
            let k = self.cache[i].0.clone();
            let o = self.cache[i].1.copy();
            let ghost item = (k@, o@);
            cache.push((k, o));
            proof {
                assert(item == cache_view(self.cache@)[i as int]);
                assert(cache_view(cache@) =~= c0.push(item));
                assert(cache_view(self.cache@).take(i + 1) =~= cache_view(self.cache@).take(i as int).push(item));
            }
            i += 1;
        }
        let mut resolving: Vec<String> = Vec::new();
        let mut j: usize = 0;
        while j < self.resolving.len()
            invariant
                j <= self.resolving.len(),
                names_view(resolving@) == names_view(self.resolving@).take(j as int),
            decreases self.resolving.len() - j,
        {
            let ghost r0 = names_view(resolving@);
            let nm = self.resolving[j].clone();
            let ghost item = nm@;
            resolving.push(nm);
            proof {
                assert(item == names_view(self.resolving@)[j as int]);
                assert(names_view(resolving@) =~= r0.push(item));
                assert(names_view(self.resolving@).take(j + 1) =~= names_view(self.resolving@).take(j as int).push(item));
            }
            j += 1;
        }
        proof {
            assert(cache_view(self.cache@).take(self.cache.len() as int) =~= cache_view(self.cache@));
            assert(names_view(self.resolving@).take(self.resolving.len() as int) =~= names_view(self.resolving@));
        }
        Environment { vars, cache, resolving }
    }

    /// The cached result for `name`, if any.
    pub fn cached(&self, name: &str) -> (r: Option<EvalResult>)
        ensures
            match lookup(self@.cache, name@) {
                Some(o) => r matches Some(x) && x@ == o,
                None => r is None,
            },
    {
        let ghost s = self@.cache;
        let mut i: usize = 0;
        while i < self.cache.len()
            invariant
                s == cache_view(self.cache@),
                i <= self.cache.len(),
                forall|j: int| 0 <= j < i ==> #[trigger] s[j].0 != name@,
            decreases self.cache.len() - i,
        {
            if str_equal(self.cache[i].0.as_str(), name) {
                proof {
                    lemma_lookup_index(s, name@, i as int);
                }
                return Some(self.cache[i].1.copy());
            }
            i += 1;
        }
        proof {
            lemma_lookup_index(s, name@, i as int);
        }
        None
    }

    /// Records a result for `name` (shadowing any older entry).
    pub fn remember(&mut self, name: String, result: EvalResult)
        ensures
            final(self)@.vars == old(self)@.vars,
            final(self)@.cache == seq![(name@, result@)] + old(self)@.cache,
            final(self)@.resolving == old(self)@.resolving,
    {
        proof {
            use_type_invariant(&*self);
        }
        let ghost old_cache = self@.cache;
        let mut c = Vec::new();
        std::mem::swap(&mut c, &mut self.cache);
        c.insert(0, (name, result));
        self.cache = c;
        proof {
            assert(cache_view(self.cache@) =~= seq![(name@, result@)] + old_cache);
        }
    }

    /// Whether `name` is being resolved.
    pub fn is_resolving(&self, name: &str) -> (r: bool)
        ensures
            r == self@.resolving.contains(name@),
    {
        let ghost s = self@.resolving;
        let mut i: usize = 0;
        while i < self.resolving.len()
            invariant
                s == names_view(self.resolving@),
                i <= self.resolving.len(),
                forall|j: int| 0 <= j < i ==> #[trigger] s[j] != name@,
            decreases self.resolving.len() - i,
        {
            if str_equal(self.resolving[i].as_str(), name) {
                proof {
                    assert(s[i as int] == name@);
                }
                return true;
            }
            i += 1;
        }
        false
    }

    /// Marks `name` as being resolved.
    pub fn begin_resolving(&mut self, name: String)
        ensures
            final(self)@.vars == old(self)@.vars,
            final(self)@.cache == old(self)@.cache,
            final(self)@.resolving == old(self)@.resolving.push(name@),
    {
        proof {
            use_type_invariant(&*self);
        }
        let ghost old_r = self@.resolving;
        let mut c = Vec::new();
        std::mem::swap(&mut c, &mut self.resolving);
        c.push(name);
        self.resolving = c;
        proof {
            assert(names_view(self.resolving@) =~= old_r.push(name@));
        }
    }

    /// Unmarks `name`.
    pub fn end_resolving(&mut self, name: &str)
        ensures
            final(self)@.vars == old(self)@.vars,
            final(self)@.cache == old(self)@.cache,
            final(self)@.resolving == remove_name(old(self)@.resolving, name@),
    {
        proof {
            use_type_invariant(&*self);
        }
        let ghost old_r = self@.resolving;
        let mut kept: Vec<String> = Vec::new();
        let mut i: usize = 0;
        while i < self.resolving.len()
            invariant
                old_r == names_view(self.resolving@),
                i <= self.resolving.len(),
                names_view(kept@) == old_r.take(i as int).filter(|x: Seq<char>| x != name@),
            decreases self.resolving.len() - i,
        {
            proof {
                assert(old_r.take(i + 1).drop_last() =~= old_r.take(i as int));
                reveal(Seq::filter);
            }
            if !str_equal(self.resolving[i].as_str(), name) {
                let ghost pre = kept@;
                kept.push(self.resolving[i].clone());
                proof {
                    assert(names_view(kept@) =~= names_view(pre).push(old_r[i as int]));
                }
            }
            i += 1;
        }
        proof {
            assert(old_r.take(old_r.len() as int) =~= old_r);
        }
        self.resolving = kept;
    }

    /// Binds `name` to `value` and clears the result cache.
    pub fn store(&mut self, name: String, value: Expr)
        ensures
            final(self)@.vars == insert_sorted(old(self)@.vars, name@, value@),
            final(self)@.cache == Seq::<(Seq<char>, Outcome)>::empty(),
            final(self)@.resolving == old(self)@.resolving,
    {
        proof {
            use_type_invariant(&*self);
        }
        let ghost s = self@.vars;
        let ghost k = name@;
        let ghost v = value@;
        let mut i: usize = 0;
        while i < self.vars.len() && name_less(self.vars[i].0.as_str(), name.as_str())
            invariant
                s == binding_view(self.vars@),
                keys_sorted(s),
                k == name@,
                i <= self.vars.len(),
                forall|j: int| 0 <= j < i ==> name_lt(#[trigger] s[j].0, k),
            decreases self.vars.len() - i,
        {
            i += 1;
        }
        proof {
            lemma_insert_sorted_prefix(s, k, v, i as int);
            lemma_insert_sorted_sorted(s, k, v);
        }
        let mut vars = Vec::new();
        std::mem::swap(&mut vars, &mut self.vars);
        let mut cache = Vec::new();
        std::mem::swap(&mut cache, &mut self.cache);
        if i < vars.len() && str_equal(vars[i].0.as_str(), name.as_str()) {
            let ghost before = vars@;
            vars.set(i, (name, value));
            proof {
                assert(s.skip(i as int) == seq![s[i as int]] + s.skip(i + 1));
                assert(s.skip(i as int).skip(1) =~= s.skip(i + 1));
                assert(binding_view(vars@) =~= s.take(i as int) + insert_sorted(s.skip(i as int), k, v));
            }
        } else {
            proof {
                if i < s.len() {
                    lemma_name_lt_trichotomy(s[i as int].0, k);
                    assert(s.skip(i as int)[0] == s[i as int]);
                } else {
                    assert(s.skip(i as int) =~= Seq::<(Seq<char>, Term)>::empty());
                }
            }
            vars.insert(i, (name, value));
            proof {
                assert(binding_view(vars@) =~= s.take(i as int) + insert_sorted(s.skip(i as int), k, v));
            }
        }
        self.vars = vars;
        proof {
            assert(cache_view(self.cache@) =~= Seq::<(Seq<char>, Outcome)>::empty());
        }
    }
}

} // verus!
