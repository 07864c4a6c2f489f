//! Exact decimal numbers backed by `bigdecimal`.
//!
//! A [`Decimal`] holds a normalized decimal `±digits × 10^(-scale)` as plain
//! values: a sign, the little-endian base-10 digits of the magnitude and the
//! scale. Arithmetic is delegated to `bigdecimal`; the library keeps every
//! number in normalized form, so two numbers are equal exactly when their
//! representations are equal.

use vstd::prelude::*;
use vstd::calc;
use vstd::arithmetic::mul::{lemma_mul_is_associative, lemma_mul_is_distributive_add_other_way};
use vstd::arithmetic::power::{pow, lemma_pow0, lemma_pow1, lemma_pow_adds, lemma_pow_distributes, lemma_pow_positive};
use bigdecimal::BigDecimal;
use bigdecimal::num_bigint::{BigInt, Sign};
use std::str::FromStr;
use std::num::NonZeroU64;
use bigdecimal::{Context, RoundingMode};

verus! {

/// Largest scale magnitude of an operand of a quotient. `bigdecimal` keeps
/// scales in `i64`; a quotient's scale is the difference of the operands'
/// scales raised by up to the divisor's digit count and the precision, and
/// within this bound none of that overflows. A number may hold any `i64`
/// scale; sums, differences and products check their own scale arithmetic.
pub const SCALE_LIMIT: i64 = 4_000_000_000_000_000_000;

/// Largest number of decimal digits a number may have (four gigabytes of
/// digits), so that moving zero digits into the scale stays within `i64`.
pub const DIGIT_LIMIT: usize = 4_000_000_000;

/// Significant digits kept by a bounded division.
pub const DIVISION_PRECISION: u64 = 34;

/// The model of a decimal: (negative, little-endian digits, scale).
pub type DecModel = (bool, Seq<u8>, int);

/// The magnitude denoted by little-endian base-10 digits.
pub open spec fn digits_value(s: Seq<u8>) -> nat
    decreases s.len(),
{
    if s.len() == 0 {
        0
    } else {
        s[0] as nat + 10 * digits_value(s.skip(1))
    }
}

pub open spec fn pow10(n: nat) -> nat
    decreases n,
{
    if n == 0 {
        1
    } else {
        10 * pow10((n - 1) as nat)
    }
}

/// The signed integer mantissa.
pub open spec fn mantissa(m: DecModel) -> int {
    if m.0 {
        -(digits_value(m.1) as int)
    } else {
        digits_value(m.1) as int
    }
}

/// The value as a fraction `numer / denom` with `denom > 0`.
pub open spec fn numer(m: DecModel) -> int {
    if m.2 >= 0 {
        mantissa(m)
    } else {
        mantissa(m) * pow10((-m.2) as nat)
    }
}

pub open spec fn denom(m: DecModel) -> int {
    if m.2 >= 0 {
        pow10(m.2 as nat) as int
    } else {
        1
    }
}

/// `a` and `b` denote the same rational value.
pub open spec fn same_value(a: DecModel, b: DecModel) -> bool {
    numer(a) * denom(b) == numer(b) * denom(a)
}

/// `r` denotes the sum of `a` and `b`.
pub open spec fn is_sum(r: DecModel, a: DecModel, b: DecModel) -> bool {
    numer(r) * (denom(a) * denom(b)) == (numer(a) * denom(b) + numer(b) * denom(a)) * denom(r)
}

/// `r` denotes `a - b`.
pub open spec fn is_difference(r: DecModel, a: DecModel, b: DecModel) -> bool {
    numer(r) * (denom(a) * denom(b)) == (numer(a) * denom(b) - numer(b) * denom(a)) * denom(r)
}

/// `r` denotes `a * b`.
pub open spec fn is_product(r: DecModel, a: DecModel, b: DecModel) -> bool {
    numer(r) * (denom(a) * denom(b)) == (numer(a) * numer(b)) * denom(r)
}

/// The shape `bigdecimal`'s integer conversion produces: digits below ten,
/// no leading zero digit, zero written as `[0]` and never negative.
pub open spec fn raw_wf(m: DecModel) -> bool {
    &&& m.1.len() >= 1
    &&& forall|i: int| 0 <= i < m.1.len() ==> #[trigger] m.1[i] < 10
    &&& (m.1.len() == 1 || m.1.last() != 0)
    &&& (m.1 == seq![0u8] ==> !m.0)
}

/// Scales `bigdecimal` can align for a sum or a difference: their
/// difference fits in `i64` (it panics on `subtraction overflow` otherwise).
pub open spec fn align_ok(a: DecModel, b: DecModel) -> bool {
    -(i64::MAX as int) <= a.2 - b.2 <= i64::MAX
}

/// Scales `bigdecimal` can add for a product: their sum fits in `i64`.
pub open spec fn product_scale_ok(a: DecModel, b: DecModel) -> bool {
    i64::MIN <= a.2 + b.2 <= i64::MAX
}

/// An operand a quotient accepts: scale and length within the limits.
pub open spec fn in_range(m: DecModel) -> bool {
    &&& -SCALE_LIMIT <= m.2 <= SCALE_LIMIT
    &&& m.1.len() <= DIGIT_LIMIT
}

/// The numerator (over `denom(a) * denom(b)`) that `is_sum` asks for.
pub open spec fn is_sum_rhs(a: DecModel, b: DecModel) -> int {
    numer(a) * denom(b) + numer(b) * denom(a)
}

pub open spec fn is_difference_rhs(a: DecModel, b: DecModel) -> int {
    numer(a) * denom(b) - numer(b) * denom(a)
}

pub open spec fn is_product_rhs(a: DecModel, b: DecModel) -> int {
    numer(a) * numer(b)
}

proof fn lemma_denom_positive(m: DecModel)
    ensures
        denom(m) >= 1,
{
    if m.2 >= 0 {
        lemma_pow10_positive(m.2 as nat);
    }
}

/// Moving a fraction's value to an equal fraction keeps an equation on it.
proof fn lemma_rescale_exact(n: int, a: int, dn: int, da: int, k: int, s: int)
    requires
        da >= 1,
        n * da == a * dn,
        a * k == s * da,
    ensures
        n * k == s * dn,
{
    assert(n * k * da == s * dn * da) by (nonlinear_arith)
        requires
            n * da == a * dn,
            a * k == s * da,
    ;
    assert(n * k == s * dn) by (nonlinear_arith)
        requires
            n * k * da == s * dn * da,
            da >= 1,
    ;
}

/// Normalized form: no trailing zero digit after the point, zero has scale 0.
pub open spec fn canonical(m: DecModel) -> bool {
    &&& raw_wf(m)
    &&& i64::MIN <= m.2 <= i64::MAX
    &&& m.1.len() <= DIGIT_LIMIT
    &&& if m.1 == seq![0u8] { m.2 == 0 } else { m.1[0] != 0 }
}

pub open spec fn zero_model() -> DecModel {
    (false, seq![0u8], 0)
}

pub open spec fn one_model() -> DecModel {
    (false, seq![1u8], 0)
}

pub open spec fn two_model() -> DecModel {
    (false, seq![2u8], 0)
}

pub open spec fn is_zero_model(m: DecModel) -> bool {
    m.1 == seq![0u8]
}

pub open spec fn neg_model(m: DecModel) -> DecModel {
    if is_zero_model(m) {
        m
    } else {
        (!m.0, m.1, m.2)
    }
}

pub open spec fn abs_int(v: int) -> nat {
    if v < 0 {
        (-v) as nat
    } else {
        v as nat
    }
}

/// The model of `BigDecimal::new(v, scale)` as the library reads it back.
pub open spec fn raw_of(v: int, scale: int) -> DecModel {
    (v < 0, nat_digits(abs_int(v)), scale)
}

pub open spec fn max_scale(a: DecModel, b: DecModel) -> int {
    if a.2 >= b.2 {
        a.2
    } else {
        b.2
    }
}

/// The integer of `m` rescaled to the larger scale `s`.
pub open spec fn aligned(m: DecModel, s: int) -> int {
    mantissa(m) * pow10((s - m.2) as nat)
}

/// `BigDecimal + BigDecimal`: both operands brought to the larger scale and
/// their integers added (a zero operand is extended to that scale too).
pub open spec fn exact_add(a: DecModel, b: DecModel) -> DecModel {
    let s = max_scale(a, b);
    raw_of(aligned(a, s) + aligned(b, s), s)
}

/// `BigDecimal - BigDecimal`: the left operand itself when the right one
/// is zero, the negated right operand when the left one is zero, otherwise
/// the difference of the integers at the larger scale.
pub open spec fn exact_sub(a: DecModel, b: DecModel) -> DecModel {
    if is_zero_model(b) {
        a
    } else if is_zero_model(a) {
        neg_model(b)
    } else {
        let s = max_scale(a, b);
        raw_of(aligned(a, s) - aligned(b, s), s)
    }
}

/// `&BigDecimal * &BigDecimal`: the other operand (normalized, as the
/// operands already are) when one operand is one, otherwise the product of
/// the integers at the sum of the scales.
pub open spec fn exact_mul(a: DecModel, b: DecModel) -> DecModel {
    if a == one_model() {
        b
    } else if b == one_model() {
        a
    } else {
        raw_of(mantissa(a) * mantissa(b), a.2 + b.2)
    }
}

/// `BigDecimal::normalized`: zero at scale 0, otherwise the trailing zero
/// digits of the integer removed and the scale lowered by their count.
pub open spec fn normalize(m: DecModel) -> DecModel {
    if digits_value(m.1) == 0 {
        zero_model()
    } else {
        let (ds, sc) = strip_zeros(m.1, m.2);
        (m.0, ds, sc)
    }
}

/// Name for `BigDecimal / BigDecimal` on the two operands.
pub uninterp spec fn bigdecimal_div(a: DecModel, b: DecModel) -> DecModel;

/// Name for `Context::multiply(a, Context::invert(b))` at a precision with
/// half-even rounding.
pub uninterp spec fn bigdecimal_bounded_quotient(a: DecModel, b: DecModel, precision: nat) -> DecModel;

/// Name for `BigDecimal::from_str` (`None` where it returns an error).
pub uninterp spec fn bigdecimal_from_str(s: Seq<char>) -> Option<DecModel>;

/// Name for the `Display` text of a `BigDecimal`.
pub uninterp spec fn bigdecimal_text(a: DecModel) -> Seq<char>;

/// A decimal straight out of a `bigdecimal` operation, not yet normalized.
pub struct RawDecimal {
    negative: bool,
    digits: Vec<u8>,
    scale: i64,
}

impl View for RawDecimal {
    type V = DecModel;

    closed spec fn view(&self) -> DecModel {
        (self.negative, self.digits@, self.scale as int)
    }
}

/// A normalized decimal number within the library's limits.
#[derive(Debug, PartialEq, Eq)]
pub struct Decimal {
    negative: bool,
    digits: Vec<u8>,
    scale: i64,
}

impl View for Decimal {
    type V = DecModel;

    closed spec fn view(&self) -> DecModel {
        (self.negative, self.digits@, self.scale as int)
    }
}

impl Decimal {
    #[verifier::type_invariant]
    pub closed spec fn inv(self) -> bool {
        canonical(self@)
    }
}

/// Adds two decimals with `BigDecimal + BigDecimal`: the integers at the
/// larger scale, added (`exact_add`); the scales' difference must fit `i64`.
#[verifier::external_body]
fn raw_add(a: &Decimal, b: &Decimal) -> (r: RawDecimal)
    requires
        canonical(a@),
        canonical(b@),
        align_ok(a@, b@),
    ensures
        r@ == exact_add(a@, b@),
        raw_wf(r@),
{
    let x = BigDecimal::new(BigInt::from_radix_le(if a.negative { Sign::Minus } else { Sign::Plus }, &a.digits, 10).unwrap(), a.scale);
    let y = BigDecimal::new(BigInt::from_radix_le(if b.negative { Sign::Minus } else { Sign::Plus }, &b.digits, 10).unwrap(), b.scale);
    let (i, s) = (x + y).into_bigint_and_exponent();
    let (g, d) = i.to_radix_le(10);
    RawDecimal { negative: g == Sign::Minus, digits: d, scale: s }
}

/// Subtracts two decimals with `BigDecimal - BigDecimal` (`exact_sub`); the
/// scales' difference must fit `i64`.
#[verifier::external_body]
fn raw_sub(a: &Decimal, b: &Decimal) -> (r: RawDecimal)
    requires
        canonical(a@),
        canonical(b@),
        align_ok(a@, b@),
    ensures
        r@ == exact_sub(a@, b@),
        raw_wf(r@),
{
    let x = BigDecimal::new(BigInt::from_radix_le(if a.negative { Sign::Minus } else { Sign::Plus }, &a.digits, 10).unwrap(), a.scale);
    let y = BigDecimal::new(BigInt::from_radix_le(if b.negative { Sign::Minus } else { Sign::Plus }, &b.digits, 10).unwrap(), b.scale);
    let (i, s) = (x - y).into_bigint_and_exponent();
    let (g, d) = i.to_radix_le(10);
    RawDecimal { negative: g == Sign::Minus, digits: d, scale: s }
}

/// Multiplies two decimals with `&BigDecimal * &BigDecimal` (`exact_mul`);
/// the scales' sum must fit `i64`.
#[verifier::external_body]
fn raw_mul(a: &Decimal, b: &Decimal) -> (r: RawDecimal)
    requires
        canonical(a@),
        canonical(b@),
        product_scale_ok(a@, b@),
    ensures
        r@ == exact_mul(a@, b@),
        raw_wf(r@),
{
    let x = BigDecimal::new(BigInt::from_radix_le(if a.negative { Sign::Minus } else { Sign::Plus }, &a.digits, 10).unwrap(), a.scale);
    let y = BigDecimal::new(BigInt::from_radix_le(if b.negative { Sign::Minus } else { Sign::Plus }, &b.digits, 10).unwrap(), b.scale);
    let (i, s) = (&x * &y).into_bigint_and_exponent();
    let (g, d) = i.to_radix_le(10);
    RawDecimal { negative: g == Sign::Minus, digits: d, scale: s }
}

/// Divides with `BigDecimal / BigDecimal` (the crate's default precision and
/// rounding); what it returns is named, not stated.
#[verifier::external_body]
fn raw_div(a: &Decimal, b: &Decimal) -> (r: RawDecimal)
    requires
        in_range(a@),
        in_range(b@),
        !is_zero_model(b@),
    ensures
        r@ == bigdecimal_div(a@, b@),
        raw_wf(r@),
{
    let x = BigDecimal::new(BigInt::from_radix_le(if a.negative { Sign::Minus } else { Sign::Plus }, &a.digits, 10).unwrap(), a.scale);
    let y = BigDecimal::new(BigInt::from_radix_le(if b.negative { Sign::Minus } else { Sign::Plus }, &b.digits, 10).unwrap(), b.scale);
    let (i, s) = (x / y).into_bigint_and_exponent();
    let (g, d) = i.to_radix_le(10);
    RawDecimal { negative: g == Sign::Minus, digits: d, scale: s }
}

/// `Context::multiply(a, Context::invert(b))` with the given precision and
/// half-even rounding; what it returns is named, not stated.
#[verifier::external_body]
fn raw_bounded_quotient(a: &Decimal, b: &Decimal, precision: u64) -> (r: RawDecimal)
    requires
        in_range(a@),
        in_range(b@),
        !is_zero_model(b@),
        precision > 0,
    ensures
        r@ == bigdecimal_bounded_quotient(a@, b@, precision as nat),
        raw_wf(r@),
{
    let x = BigDecimal::new(BigInt::from_radix_le(if a.negative { Sign::Minus } else { Sign::Plus }, &a.digits, 10).unwrap(), a.scale);
    let y = BigDecimal::new(BigInt::from_radix_le(if b.negative { Sign::Minus } else { Sign::Plus }, &b.digits, 10).unwrap(), b.scale);
    let ctx = Context::new(NonZeroU64::new(precision).unwrap(), RoundingMode::HalfEven);
    let (i, s) = ctx.multiply(&x, &ctx.invert(&y)).into_bigint_and_exponent();
    let (g, d) = i.to_radix_le(10);
    RawDecimal { negative: g == Sign::Minus, digits: d, scale: s }
}

/// `BigDecimal::normalized` (`normalize`): trailing zero digits moved into
/// the scale, and zero at scale 0; the digits keep `to_radix_le`'s shape.
#[verifier::external_body]
fn raw_normalized(a: &RawDecimal) -> (r: RawDecimal)
    requires
        raw_wf(a@),
        i64::MIN + DIGIT_LIMIT <= a@.2 <= i64::MAX,
        a@.1.len() <= DIGIT_LIMIT,
    ensures
        r@ == normalize(a@),
        raw_wf(r@),
        r@.1.len() <= a@.1.len(),
        r@.1 == seq![0u8] ==> r@.2 == 0,
        r@.1 != seq![0u8] ==> r@.1[0] != 0,
{
    let x = BigDecimal::new(BigInt::from_radix_le(if a.negative { Sign::Minus } else { Sign::Plus }, &a.digits, 10).unwrap(), a.scale);
    let (i, s) = x.normalized().into_bigint_and_exponent();
    let (g, d) = i.to_radix_le(10);
    RawDecimal { negative: g == Sign::Minus, digits: d, scale: s }
}

/// `BigDecimal::from_str` on the text (`None` where it returns an error).
#[verifier::external_body]
fn raw_from_str(text: &str) -> (r: Option<RawDecimal>)
    ensures
        r matches Some(v) ==> raw_wf(v@) && bigdecimal_from_str(text@) == Some(v@),
        r is None ==> bigdecimal_from_str(text@) is None,
{
    match BigDecimal::from_str(text) {
        Ok(x) => {
            let (i, s) = x.into_bigint_and_exponent();
            let (g, d) = i.to_radix_le(10);
            Some(RawDecimal { negative: g == Sign::Minus, digits: d, scale: s })
        }
        Err(_) => None,
    }
}

/// The `Display` text of the decimal as a `BigDecimal`.
#[verifier::external_body]
fn decimal_text(a: &Decimal) -> (r: String)
    ensures
        r@ == bigdecimal_text(a@),
{
    let x = BigDecimal::new(BigInt::from_radix_le(if a.negative { Sign::Minus } else { Sign::Plus }, &a.digits, 10).unwrap(), a.scale);
    x.to_string()
}

/// The model of an optional decimal.
pub open spec fn opt_model(o: Option<Decimal>) -> Option<DecModel> {
    match o {
        Some(d) => Some(d@),
        None => None,
    }
}

proof fn lemma_strip_zeros_bounds(ds: Seq<u8>, sc: int)
    ensures
        sc - ds.len() < strip_zeros(ds, sc).1 <= sc || ds.len() == 0,
        strip_zeros(ds, sc).0.len() <= ds.len(),
    decreases ds.len(),
{
    if ds.len() > 1 && ds[0] == 0 {
        lemma_strip_zeros_bounds(ds.skip(1), sc - 1);
    }
}

/// Normalizes the outcome of an operation, keeping it only within the limits.
pub open spec fn finish_model(raw: DecModel) -> Option<DecModel> {
    if raw.1.len() <= DIGIT_LIMIT && i64::MIN + DIGIT_LIMIT <= raw.2 <= i64::MAX {
        Some(normalize(raw))
    } else {
        None
    }
}

pub open spec fn add_model(a: DecModel, b: DecModel) -> Option<DecModel> {
    if align_ok(a, b) {
        finish_model(exact_add(a, b))
    } else {
        None
    }
}

pub open spec fn sub_model(a: DecModel, b: DecModel) -> Option<DecModel> {
    if align_ok(a, b) {
        finish_model(exact_sub(a, b))
    } else {
        None
    }
}

pub open spec fn mul_model(a: DecModel, b: DecModel) -> Option<DecModel> {
    if product_scale_ok(a, b) {
        finish_model(exact_mul(a, b))
    } else {
        None
    }
}

pub open spec fn div_model(a: DecModel, b: DecModel) -> Option<DecModel> {
    if in_range(a) && in_range(b) {
        finish_model(bigdecimal_div(a, b))
    } else {
        None
    }
}

pub open spec fn bounded_div_model(a: DecModel, b: DecModel) -> Option<DecModel> {
    if is_zero_model(b) {
        Some(zero_model())
    } else if in_range(a) && in_range(b) {
        finish_model(bigdecimal_bounded_quotient(a, b, DIVISION_PRECISION as nat))
    } else {
        None
    }
}

pub open spec fn parse_model(text: Seq<char>) -> Option<DecModel> {
    match bigdecimal_from_str(text) {
        Some(m) => finish_model(m),
        None => None,
    }
}

/// The value as an `i64` when it is an integer that fits.
pub open spec fn integer_exponent_model(m: DecModel) -> Option<i64> {
    if m.2 > 0 {
        None
    } else {
        let v = mantissa(m) * pow10((-m.2) as nat);
        if i64::MIN <= v <= i64::MAX {
            Some(v as i64)
        } else {
            None
        }
    }
}

proof fn lemma_pow10_positive(n: nat)
    ensures
        pow10(n) >= 1,
    decreases n,
{
    if n > 0 {
        lemma_pow10_positive((n - 1) as nat);
    }
}

proof fn lemma_pow10_monotone(a: nat, b: nat)
    requires
        a <= b,
    ensures
        pow10(a) <= pow10(b),
    decreases b,
{
    if a < b {
        lemma_pow10_monotone(a, (b - 1) as nat);
        lemma_pow10_positive((b - 1) as nat);
    }
}

proof fn lemma_digits_value_bound(s: Seq<u8>)
    requires
        forall|i: int| 0 <= i < s.len() ==> #[trigger] s[i] < 10,
    ensures
        digits_value(s) < pow10(s.len()),
    decreases s.len(),
{
    if s.len() > 0 {
        let t = s.skip(1);
        assert forall|i: int| 0 <= i < t.len() implies #[trigger] t[i] < 10 by {
            assert(t[i] == s[i + 1]);
        }
        lemma_digits_value_bound(t);
    }
}

proof fn lemma_digits_value_lower(s: Seq<u8>)
    requires
        s.len() >= 1,
        s.last() != 0,
    ensures
        digits_value(s) >= pow10((s.len() - 1) as nat),
    decreases s.len(),
{
    if s.len() > 1 {
        let t = s.skip(1);
        assert(t.last() == s.last());
        lemma_digits_value_lower(t);
    }
}

impl Decimal {
    /// The scale: the number of digits after the decimal point (negative for
    /// trailing zeros before it).
    pub fn scale(&self) -> (r: i64)
        ensures
            r as int == self@.2,
    {
        self.scale
    }

    pub fn zero() -> (r: Decimal)
        ensures
            r@ == zero_model(),
    {
        let v = vec![0u8];
        assert(v@ =~= seq![0u8]);
        Decimal { negative: false, digits: v, scale: 0 }
    }

    pub fn one() -> (r: Decimal)
        ensures
            r@ == one_model(),
    {
        let v = vec![1u8];
        assert(v@ =~= seq![1u8]);
        Decimal { negative: false, digits: v, scale: 0 }
    }

    pub fn two() -> (r: Decimal)
        ensures
            r@ == two_model(),
    {
        let v = vec![2u8];
        assert(v@ =~= seq![2u8]);
        Decimal { negative: false, digits: v, scale: 0 }
    }

    pub fn is_zero(&self) -> (r: bool)
        ensures
            r == is_zero_model(self@),
    {
        proof {
            use_type_invariant(self);
        }
        let r = self.digits.len() == 1 && self.digits[0] == 0;
        proof {
            if r {
                assert(self@.1 =~= seq![0u8]);
            }
        }
        r
    }

    pub fn is_one(&self) -> (r: bool)
        ensures
            r == (self@ == one_model()),
    {
        proof {
            use_type_invariant(self);
        }
        let r = !self.negative && self.scale == 0 && self.digits.len() == 1 && self.digits[0] == 1;
        proof {
            if r {
                assert(self@.1 =~= seq![1u8]);
            }
            if self@ == one_model() {
                assert(self@.1[0] == 1);
            }
        }
        r
    }

    /// Structural (and, for normalized numbers, value) equality.
    pub fn equals(&self, other: &Decimal) -> (r: bool)
        ensures
            r == (self@ == other@),
    {
        if self.negative != other.negative || self.scale != other.scale || self.digits.len() != other.digits.len() {
            return false;
        }
        let n = self.digits.len();
        let mut i: usize = 0;
        while i < n
            invariant
                n == self.digits.len(),
                n == other.digits.len(),
                i <= n,
                forall|j: int| 0 <= j < i ==> self.digits@[j] == other.digits@[j],
            decreases n - i,
        {
            if self.digits[i] != other.digits[i] {
                return false;
            }
            i += 1;
        }
        assert(self.digits@ =~= other.digits@);
        true
    }

    /// A copy with the same model.
    pub fn copy(&self) -> (r: Decimal)
        ensures
            r@ == self@,
    {
        proof {
            use_type_invariant(self);
        }
        let d = Decimal { negative: self.negative, digits: self.digits.clone(), scale: self.scale };
        assert(d.digits@ =~= self.digits@);
        d
    }

    /// The negation (zero stays zero).
    pub fn neg(&self) -> (r: Decimal)
        ensures
            r@ == neg_model(self@),
    {
        proof {
            use_type_invariant(self);
        }
        let z = self.is_zero();
        let d = Decimal {
            negative: if z { self.negative } else { !self.negative },
            digits: self.digits.clone(),
            scale: self.scale,
        };
        assert(d.digits@ =~= self.digits@);
        d
    }

    /// Whether the number is an operand the arithmetic accepts.
    fn in_limits(&self) -> (r: bool)
        ensures
            r == in_range(self@),
    {
        -SCALE_LIMIT <= self.scale && self.scale <= SCALE_LIMIT && self.digits.len() <= DIGIT_LIMIT
    }

    fn finish(raw: RawDecimal) -> (r: Option<Decimal>)
        requires
            raw_wf(raw@),
        ensures
            opt_model(r) == finish_model(raw@),
            r matches Some(d) ==> same_value(d@, raw@),
    {
        if raw.digits.len() > DIGIT_LIMIT || raw.scale < i64::MIN + (DIGIT_LIMIT as i64) {
            return None;
        }
        let n = raw_normalized(&raw);
        proof {
            lemma_normalize_value(raw@);
        }
        Some(Decimal { negative: n.negative, digits: n.digits, scale: n.scale })
    }

    /// Exact sum (`None` when the result leaves the limits).
    pub fn add(&self, other: &Decimal) -> (r: Option<Decimal>)
        ensures
            opt_model(r) == add_model(self@, other@),
            r matches Some(x) ==> is_sum(x@, self@, other@),
    {
        proof {
            use_type_invariant(self);
            use_type_invariant(other);
        }
        let d: i128 = (self.scale as i128) - (other.scale as i128);
        if d < -(i64::MAX as i128) || d > (i64::MAX as i128) {
            return None;
        }
        let raw = raw_add(self, other);
        let r = Self::finish(raw);
        proof {
            lemma_add_exact(self@, other@);
        }
        r
    }

    /// Exact difference (`None` when the result leaves the limits).
    pub fn sub(&self, other: &Decimal) -> (r: Option<Decimal>)
        ensures
            opt_model(r) == sub_model(self@, other@),
            r matches Some(x) ==> is_difference(x@, self@, other@),
    {
        proof {
            use_type_invariant(self);
            use_type_invariant(other);
        }
        let d: i128 = (self.scale as i128) - (other.scale as i128);
        if d < -(i64::MAX as i128) || d > (i64::MAX as i128) {
            return None;
        }
        let raw = raw_sub(self, other);
        let r = Self::finish(raw);
        proof {
            lemma_sub_exact(self@, other@);
        }
        r
    }

    /// Exact product (`None` when the result leaves the limits).
    pub fn mul(&self, other: &Decimal) -> (r: Option<Decimal>)
        ensures
            opt_model(r) == mul_model(self@, other@),
            r matches Some(x) ==> is_product(x@, self@, other@),
    {
        proof {
            use_type_invariant(self);
            use_type_invariant(other);
        }
        let d: i128 = (self.scale as i128) + (other.scale as i128);
        if d < (i64::MIN as i128) || d > (i64::MAX as i128) {
            return None;
        }
        let raw = raw_mul(self, other);
        let r = Self::finish(raw);
        proof {
            lemma_mul_exact(self@, other@);
        }
        r
    }

    /// Quotient by the `/` operator of `bigdecimal`.
    pub fn div(&self, other: &Decimal) -> (r: Option<Decimal>)
        requires
            !is_zero_model(other@),
        ensures
            opt_model(r) == div_model(self@, other@),
    {
        proof {
            use_type_invariant(self);
            use_type_invariant(other);
        }
        if !self.in_limits() || !other.in_limits() {
            return None;
        }
        let raw = raw_div(self, other);
        Self::finish(raw)
    }

    /// Parses decimal text (`None` for text `bigdecimal` rejects or a number
    /// outside the limits).
    pub fn parse(text: &str) -> (r: Option<Decimal>)
        ensures
            opt_model(r) == parse_model(text@),
    {
        match raw_from_str(text) {
            Some(raw) => Self::finish(raw),
            None => None,
        }
    }

    /// The decimal's text, as `bigdecimal` displays it.
    pub fn to_text(&self) -> (r: String)
        ensures
            r@ == bigdecimal_text(self@),
    {
        decimal_text(self)
    }
}

/// Decimal division rounded to `DIVISION_PRECISION` significant digits
/// (half-even), normalized.
pub fn bounded_div(a: &Decimal, b: &Decimal) -> (r: Option<Decimal>)
    ensures
        opt_model(r) == bounded_div_model(a@, b@),
{
    proof {
        use_type_invariant(a);
        use_type_invariant(b);
    }
    if b.is_zero() {
        return Some(Decimal::zero());
    }
    if !a.in_limits() || !b.in_limits() {
        return None;
    }
    let raw = raw_bounded_quotient(a, b, DIVISION_PRECISION);
    Decimal::finish(raw)
}

/// The value as an `i64` exponent iff it is an exact integer that fits.
pub fn as_integer_exponent(n: &Decimal) -> (r: Option<i64>)
    ensures
        r == integer_exponent_model(n@),
{
    proof {
        use_type_invariant(n);
    }
    if n.scale > 0 {
        return None;
    }
    let len = n.digits.len();
    if n.scale < -19 || (len as i64) - 1 - n.scale >= 19 {
        proof {
            let m = n@;
            let k = (-m.2) as nat;
            if m.1 == seq![0u8] {
                assert(false);
            }
            lemma_digits_value_lower(m.1);
            lemma_pow10_monotone(19, (len - 1 + k) as nat);
            lemma_pow_mul((len - 1) as nat, k);
            lemma_pow10_19();
            let dv = digits_value(m.1);
            let p = pow10(k);
            assert(dv * p >= pow10((len - 1) as nat) * p) by (nonlinear_arith)
                requires dv >= pow10((len - 1) as nat), p >= 0;
            assert(dv * p >= 10_000_000_000_000_000_000);
            if m.0 {
                assert(mantissa(m) * p == -(dv * p)) by (nonlinear_arith)
                    requires mantissa(m) == -dv;
            }
            assert(integer_exponent_model(m) is None);
        }
        return None;
    }
    let shift: i64 = -n.scale;
    let mut mag: u128 = 0;
    let mut i: usize = len;
    while i > 0
        invariant
            len == n.digits.len(),
            i <= len,
            len <= 19,
            mag == digits_value(n.digits@.skip(i as int)),
            mag < pow10((len - i) as nat),
            forall|j: int| 0 <= j < len ==> #[trigger] n.digits@[j] < 10,
        decreases i,
    {
        proof {
            let s = n.digits@;
            assert(s.skip(i - 1).skip(1) =~= s.skip(i as int));
            lemma_pow10_monotone((len - i + 1) as nat, 19);
            lemma_pow10_19();
        }
        mag = mag * 10 + (n.digits[i - 1] as u128);
        i -= 1;
    }
    assert(n.digits@.skip(0) =~= n.digits@);
    assert(pow10(0) == 1);
    assert(mag == digits_value(n.digits@) * pow10(0));
    let mut j: i64 = 0;
    while j < shift
        invariant
            0 <= j <= shift,
            shift == -n@.2,
            (len as int) - 1 + shift < 19,
            len >= 1,
            mag == digits_value(n.digits@) * pow10(j as nat),
            mag < pow10((len + j) as nat),
        decreases shift - j,
    {
        proof {
            lemma_pow10_monotone((len + j + 1) as nat, 19);
            lemma_pow10_19();
            assert(pow10((j + 1) as nat) == 10 * pow10(j as nat));
            assert(pow10((len + j + 1) as nat) == 10 * pow10((len + j) as nat));
            let dv = digits_value(n.digits@);
            assert(dv * pow10(j as nat) * 10 == dv * pow10((j + 1) as nat)) by (nonlinear_arith)
                requires pow10((j + 1) as nat) == 10 * pow10(j as nat);
        }
        mag = mag * 10;
        j += 1;
    }
    proof {
        let m = n@;
        let dv = digits_value(m.1);
        let p = pow10((-m.2) as nat);
        assert(mag == dv * p);
        if m.0 {
            assert(mantissa(m) * p == -(dv * p)) by (nonlinear_arith)
                requires mantissa(m) == -dv;
        }
    }
    if n.negative {
        if mag <= 9_223_372_036_854_775_808u128 {
            Some((0i128 - (mag as i128)) as i64)
        } else {
            None
        }
    } else {
        if mag <= 9_223_372_036_854_775_807u128 {
            Some(mag as i64)
        } else {
            None
        }
    }
}

/// Square-and-multiply: `acc * b^e`, one limited product at a time.
pub open spec fn pow_loop_model(acc: DecModel, b: DecModel, e: nat) -> Option<DecModel>
    decreases e,
{
    if e == 0 {
        Some(acc)
    } else {
        let next_acc = if e % 2 == 1 { mul_model(acc, b) } else { Some(acc) };
        match next_acc {
            None => None,
            Some(a2) => {
                if e / 2 > 0 {
                    match mul_model(b, b) {
                        None => None,
                        Some(b2) => pow_loop_model(a2, b2, e / 2),
                    }
                } else {
                    Some(a2)
                }
            },
        }
    }
}

/// Exact integer power; a negative exponent gives the bounded reciprocal.
pub open spec fn pow_int_model(base: DecModel, exp: i64) -> Option<DecModel> {
    if exp == 0 {
        Some(one_model())
    } else {
        let e: nat = if exp < 0 { (-(exp as int)) as nat } else { exp as nat };
        match pow_loop_model(one_model(), base, e) {
            None => None,
            Some(acc) => if exp < 0 {
                if is_zero_model(acc) {
                    Some(zero_model())
                } else {
                    bounded_div_model(one_model(), acc)
                }
            } else {
                Some(acc)
            },
        }
    }
}

/// `r` denotes `b` to the power `e`.
pub open spec fn is_power(r: DecModel, b: DecModel, e: nat) -> bool {
    numer(r) * pow(denom(b), e) == pow(numer(b), e) * denom(r)
}

/// `a * b^e` denotes `base^n`: what square-and-multiply keeps.
spec fn pow_progress(a: DecModel, b: DecModel, e: nat, base: DecModel, n: nat) -> bool {
    numer(a) * pow(numer(b), e) * pow(denom(base), n) == pow(numer(base), n) * denom(a) * pow(denom(b), e)
}

proof fn lemma_pow_step(x: int, e: nat)
    requires
        e > 0,
    ensures
        pow(x, e) == x * pow(x, (e - 1) as nat),
{
    lemma_pow_adds(x, 1, (e - 1) as nat);
    lemma_pow1(x);
}

/// Multiplying the accumulator by `b` uses up one factor.
proof fn lemma_pow_progress_mul(a: DecModel, a2: DecModel, b: DecModel, e: nat, base: DecModel, n: nat)
    requires
        e > 0,
        pow_progress(a, b, e, base, n),
        is_product(a2, a, b),
    ensures
        pow_progress(a2, b, (e - 1) as nat, base, n),
{
    lemma_denom_positive(a);
    lemma_denom_positive(b);
    let e1 = (e - 1) as nat;
    lemma_pow_step(numer(b), e);
    lemma_pow_step(denom(b), e);
    let na = numer(a);
    let da = denom(a);
    let nb = numer(b);
    let db = denom(b);
    let na2 = numer(a2);
    let da2 = denom(a2);
    let x = pow(nb, e1);
    let y = pow(db, e1);
    let dd = pow(denom(base), n);
    let nn = pow(numer(base), n);
    assert(na * (nb * x) * dd == nn * da * (db * y));
    assert(na2 * (da * db) == (na * nb) * da2);
    calc! {
        (==)
        (na2 * x * dd) * (da * db); {
            assert((na2 * x * dd) * (da * db) == (na2 * (da * db)) * (x * dd)) by (nonlinear_arith);
        }
        (na2 * (da * db)) * (x * dd); {}
        ((na * nb) * da2) * (x * dd); {
            assert(((na * nb) * da2) * (x * dd) == da2 * (na * (nb * x) * dd)) by (nonlinear_arith);
        }
        da2 * (na * (nb * x) * dd); {}
        da2 * (nn * da * (db * y)); {
            assert(da2 * (nn * da * (db * y)) == (nn * da2 * y) * (da * db)) by (nonlinear_arith);
        }
        (nn * da2 * y) * (da * db);
    }
    assert(na2 * x * dd == nn * da2 * y) by (nonlinear_arith)
        requires
            (na2 * x * dd) * (da * db) == (nn * da2 * y) * (da * db),
            da >= 1,
            db >= 1,
    ;
}

/// Squaring `b` halves the factors still to take.
proof fn lemma_pow_progress_square(a: DecModel, b: DecModel, b2: DecModel, k: nat, base: DecModel, n: nat)
    requires
        pow_progress(a, b, 2 * k, base, n),
        is_product(b2, b, b),
    ensures
        pow_progress(a, b2, k, base, n),
{
    lemma_denom_positive(b);
    let nb = numer(b);
    let db = denom(b);
    let nb2 = numer(b2);
    let db2 = denom(b2);
    lemma_pow_adds(nb, k, k);
    lemma_pow_adds(db, k, k);
    lemma_pow_distributes(nb, nb, k);
    lemma_pow_distributes(db, db, k);
    lemma_pow_distributes(nb2, db * db, k);
    lemma_pow_distributes(nb * nb, db2, k);
    assert(2 * k == k + k);
    assert(nb2 * (db * db) == (nb * nb) * db2);
    assert(db * db > 0) by (nonlinear_arith)
        requires
            db >= 1,
    ;
    lemma_pow_positive(db * db, k);
    let u = pow(nb * nb, k);
    let v = pow(db * db, k);
    let p2 = pow(nb2, k);
    let q2 = pow(db2, k);
    let na = numer(a);
    let da = denom(a);
    let dd = pow(denom(base), n);
    let nn = pow(numer(base), n);
    assert(p2 * v == u * q2);
    assert(na * u * dd == nn * da * v);
    calc! {
        (==)
        (na * p2 * dd) * v; {
            assert((na * p2 * dd) * v == (p2 * v) * (na * dd)) by (nonlinear_arith);
        }
        (p2 * v) * (na * dd); {}
        (u * q2) * (na * dd); {
            assert((u * q2) * (na * dd) == q2 * (na * u * dd)) by (nonlinear_arith);
        }
        q2 * (na * u * dd); {}
        q2 * (nn * da * v); {
            assert(q2 * (nn * da * v) == (nn * da * q2) * v) by (nonlinear_arith);
        }
        (nn * da * q2) * v;
    }
    assert(na * p2 * dd == nn * da * q2) by (nonlinear_arith)
        requires
            (na * p2 * dd) * v == (nn * da * q2) * v,
            v > 0,
    ;
}

proof fn lemma_one_value()
    ensures
        numer(one_model()) == 1,
        denom(one_model()) == 1,
{
    let d = one_model().1;
    assert(d.skip(1) =~= Seq::<u8>::empty());
    reveal_with_fuel(digits_value, 2);
}

/// The integer of `m` at scale `k` (at least `m`'s): `m` times `10^k`.
pub open spec fn scaled(m: DecModel, k: int) -> int {
    mantissa(m) * pow10((k - m.2) as nat)
}

proof fn lemma_scaled(m: DecModel, k: int)
    requires
        k >= m.2,
        k >= 0,
    ensures
        numer(m) * pow10(k as nat) == scaled(m, k) * denom(m),
{
    let mt = mantissa(m);
    if m.2 >= 0 {
        lemma_pow_mul((k - m.2) as nat, m.2 as nat);
        assert(((k - m.2) as nat + m.2 as nat) as nat == k as nat);
        assert(mt * pow10(k as nat) == mt * (pow10((k - m.2) as nat) * pow10(m.2 as nat)));
        assert(mt * (pow10((k - m.2) as nat) * pow10(m.2 as nat)) == (mt * pow10((k - m.2) as nat)) * pow10(
            m.2 as nat,
        )) by (nonlinear_arith);
    } else {
        lemma_pow_mul((-m.2) as nat, k as nat);
        assert(((-m.2) as nat + k as nat) as nat == (k - m.2) as nat);
        assert((mt * pow10((-m.2) as nat)) * pow10(k as nat) == mt * (pow10((-m.2) as nat) * pow10(k as nat)))
            by (nonlinear_arith);
    }
}

proof fn lemma_rearrange_ab_cd(a: int, b: int, c: int, d: int)
    ensures
        (a * b) * (c * d) == (a * c) * (d * b),
{
    assert((a * b) * (c * d) == (a * c) * (d * b)) by (nonlinear_arith);
}

proof fn lemma_rearrange_ad_cb(a: int, b: int, c: int, d: int)
    ensures
        (a * b) * (c * d) == (a * d) * (c * b),
{
    assert((a * b) * (c * d) == (a * d) * (c * b)) by (nonlinear_arith);
}

proof fn lemma_rearrange_abc_d(a: int, b: int, c: int, d: int)
    ensures
        ((a * b) * c) * d == (a * d) * (b * c),
{
    assert(((a * b) * c) * d == (a * d) * (b * c)) by (nonlinear_arith);
}

proof fn lemma_sum_from_scaled(r: DecModel, a: DecModel, b: DecModel, k: int, sign: int)
    requires
        k >= 0,
        k >= r.2,
        k >= a.2,
        k >= b.2,
        sign == 1 || sign == -1,
        scaled(r, k) == scaled(a, k) + sign * scaled(b, k),
    ensures
        numer(r) * (denom(a) * denom(b)) == (numer(a) * denom(b) + sign * numer(b) * denom(a)) * denom(r),
{
    lemma_scaled(r, k);
    lemma_scaled(a, k);
    lemma_scaled(b, k);
    lemma_pow10_positive(k as nat);
    let p: int = pow10(k as nat) as int;
    let (nr, na, nb) = (numer(r), numer(a), numer(b));
    let (dr, da, db) = (denom(r), denom(a), denom(b));
    let (sr, sa, sb) = (scaled(r, k), scaled(a, k), scaled(b, k));
    assert(nr * p == sr * dr);
    assert(na * p == sa * da);
    assert(nb * p == sb * db);
    let b1 = sign * sb;
    lemma_mul_is_distributive_add_other_way(dr, sa, b1);
    lemma_mul_is_distributive_add_other_way(da * db, sa * dr, b1 * dr);
    lemma_rearrange_ab_cd(sa, dr, da, db);
    lemma_mul_is_associative(sign, sb, dr);
    lemma_mul_is_associative(sign, sb * dr, da * db);
    lemma_rearrange_ad_cb(sb, dr, da, db);
    assert(((sa + sign * sb) * dr) * (da * db) == (sa * da) * (db * dr) + sign * ((sb * db) * (da * dr)));
    assert((nr * (da * db)) * p == (nr * p) * (da * db)) by (nonlinear_arith);
    let x1 = na * db;
    let y1 = sign * nb * da;
    lemma_mul_is_distributive_add_other_way(dr, x1, y1);
    lemma_mul_is_distributive_add_other_way(p, x1 * dr, y1 * dr);
    lemma_rearrange_abc_d(na, db, dr, p);
    lemma_mul_is_associative(sign, nb, da);
    lemma_mul_is_associative(sign, nb * da, dr);
    lemma_mul_is_associative(sign, (nb * da) * dr, p);
    lemma_rearrange_abc_d(nb, da, dr, p);
    assert(((na * db + sign * nb * da) * dr) * p == (na * p) * (db * dr) + sign * ((nb * p) * (da * dr)));
    assert((nr * (da * db)) * p == ((na * db + sign * nb * da) * dr) * p);
    assert(nr * (da * db) == (na * db + sign * nb * da) * dr) by (nonlinear_arith)
        requires
            (nr * (da * db)) * p == ((na * db + sign * nb * da) * dr) * p,
            p >= 1,
    ;
}

proof fn lemma_raw_of_mantissa(v: int, sc: int)
    ensures
        mantissa(raw_of(v, sc)) == v,
{
    lemma_nat_digits(abs_int(v));
}

proof fn lemma_aligned_scaled(m: DecModel, sc: int, k: int)
    requires
        m.2 <= sc <= k,
    ensures
        aligned(m, sc) * pow10((k - sc) as nat) == scaled(m, k),
{
    lemma_pow_mul((sc - m.2) as nat, (k - sc) as nat);
    assert(((sc - m.2) as nat + (k - sc) as nat) as nat == (k - m.2) as nat);
    let mt = mantissa(m);
    assert((mt * pow10((sc - m.2) as nat)) * pow10((k - sc) as nat) == mt * (pow10((sc - m.2) as nat) * pow10(
        (k - sc) as nat,
    ))) by (nonlinear_arith);
}

/// Normalizing keeps the value.
proof fn lemma_normalize_value(m: DecModel)
    ensures
        same_value(normalize(m), m),
{
    if digits_value(m.1) == 0 {
        assert(mantissa(m) == 0);
        assert(numer(m) == 0) by (nonlinear_arith)
            requires
                mantissa(m) == 0,
                m.2 < 0 ==> numer(m) == mantissa(m) * pow10((-m.2) as nat),
                m.2 >= 0 ==> numer(m) == mantissa(m),
        ;
        lemma_one_value();
        assert(seq![0u8].skip(1) =~= Seq::<u8>::empty());
        reveal_with_fuel(digits_value, 2);
        assert(numer(zero_model()) == 0);
    } else {
        let n = normalize(m);
        lemma_strip_zeros_value(m.1, m.2);
        let d = (m.2 - n.2) as nat;
        assert(mantissa(m) == pow10(d) * mantissa(n)) by (nonlinear_arith)
            requires
                digits_value(m.1) == pow10(d) * digits_value(n.1),
                mantissa(m) == (if m.0 { -(digits_value(m.1) as int) } else { digits_value(m.1) as int }),
                mantissa(n) == (if m.0 { -(digits_value(n.1) as int) } else { digits_value(n.1) as int }),
        ;
        let k: int = if m.2 >= 0 { m.2 } else { 0 };
        lemma_pow_mul(d, (k - m.2) as nat);
        assert((d + (k - m.2) as nat) as nat == (k - n.2) as nat);
        assert(scaled(m, k) == scaled(n, k)) by (nonlinear_arith)
            requires
                mantissa(m) == pow10(d) * mantissa(n),
                scaled(m, k) == mantissa(m) * pow10((k - m.2) as nat),
                scaled(n, k) == mantissa(n) * pow10((k - n.2) as nat),
                pow10(d) * pow10((k - m.2) as nat) == pow10((k - n.2) as nat),
        ;
        lemma_scaled(m, k);
        lemma_scaled(n, k);
        lemma_pow10_positive(k as nat);
        let p = pow10(k as nat);
        assert(numer(n) * denom(m) == numer(m) * denom(n)) by (nonlinear_arith)
            requires
                numer(m) * p == scaled(m, k) * denom(m),
                numer(n) * p == scaled(n, k) * denom(n),
                scaled(m, k) == scaled(n, k),
                p >= 1,
        ;
    }
}

/// A sum of numbers denotes the sum of their values.
pub proof fn lemma_add_exact(a: DecModel, b: DecModel)
    ensures
        add_model(a, b) matches Some(r) ==> is_sum(r, a, b),
{
    if let Some(r) = add_model(a, b) {
        let sc = max_scale(a, b);
        let raw = exact_add(a, b);
        let k: int = if sc >= 0 { sc } else { 0 };
        lemma_raw_of_mantissa(aligned(a, sc) + aligned(b, sc), sc);
        lemma_aligned_scaled(a, sc, k);
        lemma_aligned_scaled(b, sc, k);
        assert(scaled(raw, k) == scaled(a, k) + 1 * scaled(b, k)) by (nonlinear_arith)
            requires
                scaled(raw, k) == (aligned(a, sc) + aligned(b, sc)) * pow10((k - sc) as nat),
                aligned(a, sc) * pow10((k - sc) as nat) == scaled(a, k),
                aligned(b, sc) * pow10((k - sc) as nat) == scaled(b, k),
        ;
        lemma_sum_from_scaled(raw, a, b, k, 1);
        lemma_normalize_value(raw);
        lemma_denom_positive(raw);
        lemma_rescale_exact(numer(r), numer(raw), denom(r), denom(raw), denom(a) * denom(b), is_sum_rhs(a, b));
    }
}

/// A difference of numbers denotes the difference of their values.
pub proof fn lemma_sub_exact(a: DecModel, b: DecModel)
    requires
        canonical(a),
        canonical(b),
    ensures
        sub_model(a, b) matches Some(r) ==> is_difference(r, a, b),
{
    if let Some(r) = sub_model(a, b) {
        let sc = max_scale(a, b);
        let raw = exact_sub(a, b);
        let k: int = if sc >= 0 { sc } else { 0 };
        if is_zero_model(b) {
            assert(mantissa(b) == 0) by {
                assert(b.1.skip(1) =~= Seq::<u8>::empty());
                reveal_with_fuel(digits_value, 2);
            }
            assert(scaled(b, k) == 0) by (nonlinear_arith)
                requires
                    mantissa(b) == 0,
                    scaled(b, k) == mantissa(b) * pow10((k - b.2) as nat),
            ;
            assert(scaled(raw, k) == scaled(a, k) + (-1) * scaled(b, k));
        } else if is_zero_model(a) {
            assert(mantissa(a) == 0) by {
                assert(a.1.skip(1) =~= Seq::<u8>::empty());
                reveal_with_fuel(digits_value, 2);
            }
            assert(scaled(a, k) == 0) by (nonlinear_arith)
                requires
                    mantissa(a) == 0,
                    scaled(a, k) == mantissa(a) * pow10((k - a.2) as nat),
            ;
            assert(mantissa(raw) == -mantissa(b));
            assert(scaled(raw, k) == -mantissa(b) * pow10((k - b.2) as nat));
            assert(-mantissa(b) * pow10((k - b.2) as nat) == -(mantissa(b) * pow10((k - b.2) as nat)))
                by (nonlinear_arith);
            assert(scaled(raw, k) == scaled(a, k) + (-1) * scaled(b, k));
        } else {
            lemma_raw_of_mantissa(aligned(a, sc) - aligned(b, sc), sc);
            lemma_aligned_scaled(a, sc, k);
            lemma_aligned_scaled(b, sc, k);
            assert(scaled(raw, k) == scaled(a, k) + (-1) * scaled(b, k)) by (nonlinear_arith)
                requires
                    scaled(raw, k) == (aligned(a, sc) - aligned(b, sc)) * pow10((k - sc) as nat),
                    aligned(a, sc) * pow10((k - sc) as nat) == scaled(a, k),
                    aligned(b, sc) * pow10((k - sc) as nat) == scaled(b, k),
            ;
        }
        lemma_sum_from_scaled(raw, a, b, k, -1);
        let (na, nb, da, db) = (numer(a), numer(b), denom(a), denom(b));
        assert((-1) * nb * da == -(nb * da)) by (nonlinear_arith);
        assert(numer(raw) * (denom(a) * denom(b)) == is_difference_rhs(a, b) * denom(raw));
        lemma_normalize_value(raw);
        lemma_denom_positive(raw);
        lemma_rescale_exact(numer(r), numer(raw), denom(r), denom(raw), denom(a) * denom(b), is_difference_rhs(a, b));
    }
}

/// A product of numbers denotes the product of their values.
pub proof fn lemma_mul_exact(a: DecModel, b: DecModel)
    ensures
        mul_model(a, b) matches Some(r) ==> is_product(r, a, b),
{
    if let Some(r) = mul_model(a, b) {
        let raw = exact_mul(a, b);
        lemma_normalize_value(raw);
        lemma_one_value();
        lemma_denom_positive(raw);
        lemma_denom_positive(a);
        lemma_denom_positive(b);
        let (nr, na, nb) = (numer(r), numer(a), numer(b));
        let (dr, da, db) = (denom(r), denom(a), denom(b));
        if a == one_model() {
            assert(nr * (da * db) == (na * nb) * dr) by (nonlinear_arith)
                requires
                    na == 1,
                    da == 1,
                    nr * db == nb * dr,
            ;
        } else if b == one_model() {
            assert(nr * (da * db) == (na * nb) * dr) by (nonlinear_arith)
                requires
                    nb == 1,
                    db == 1,
                    nr * da == na * dr,
            ;
        } else {
            let k1: int = if a.2 >= 0 { a.2 } else { 0 };
            let k2: int = if b.2 >= 0 { b.2 } else { 0 };
            let k = k1 + k2;
            lemma_raw_of_mantissa(mantissa(a) * mantissa(b), a.2 + b.2);
            lemma_scaled(a, k1);
            lemma_scaled(b, k2);
            lemma_scaled(raw, k);
            lemma_pow_mul(k1 as nat, k2 as nat);
            lemma_pow_mul((k1 - a.2) as nat, (k2 - b.2) as nat);
            assert(((k1 - a.2) as nat + (k2 - b.2) as nat) as nat == (k - raw.2) as nat);
            assert((k1 as nat + k2 as nat) as nat == k as nat);
            let (ma, mb) = (mantissa(a), mantissa(b));
            let (x, y) = (pow10((k1 - a.2) as nat) as int, pow10((k2 - b.2) as nat) as int);
            lemma_rearrange_ab_cd(ma, mb, x, y);
            assert(scaled(raw, k) == (ma * x) * (y * mb));
            assert(scaled(raw, k) == scaled(a, k1) * scaled(b, k2)) by (nonlinear_arith)
                requires
                    scaled(raw, k) == (ma * x) * (y * mb),
                    scaled(a, k1) == ma * x,
                    scaled(b, k2) == mb * y,
            ;
            let (p1, p2) = (pow10(k1 as nat) as int, pow10(k2 as nat) as int);
            lemma_pow10_positive(k1 as nat);
            lemma_pow10_positive(k2 as nat);
            let (sa, sb) = (scaled(a, k1), scaled(b, k2));
            let rr = numer(raw);
            let drr = denom(raw);
            assert(rr * (p1 * p2) == (sa * sb) * drr);
            let pp = p1 * p2;
            let dd = da * db;
            assert((rr * dd) * pp == (rr * pp) * dd) by (nonlinear_arith);
            assert((rr * pp) * dd == ((sa * sb) * drr) * dd);
            let u = sa * da;
            let w = sb * db;
            assert(((sa * sb) * drr) * dd == (u * w) * drr) by (nonlinear_arith)
                requires
                    u == sa * da,
                    w == sb * db,
                    dd == da * db,
            ;
            assert(u == na * p1);
            assert(w == nb * p2);
            assert((u * w) * drr == ((na * nb) * drr) * pp) by (nonlinear_arith)
                requires
                    u == na * p1,
                    w == nb * p2,
                    pp == p1 * p2,
            ;
            assert((rr * (da * db)) * (p1 * p2) == ((na * nb) * drr) * (p1 * p2));
            assert(rr * (da * db) == (na * nb) * drr) by (nonlinear_arith)
                requires
                    (rr * (da * db)) * (p1 * p2) == ((na * nb) * drr) * (p1 * p2),
                    p1 >= 1,
                    p2 >= 1,
            ;
            lemma_rescale_exact(nr, rr, dr, drr, da * db, is_product_rhs(a, b));
        }
    }
}

/// Exact integer power by squaring. Negative exponents produce a reciprocal
/// rounded by [`bounded_div`]; a zero power under a negative exponent gives 0.
/// `None` when an intermediate result leaves the number limits.
pub fn pow_int(base: &Decimal, exp: i64) -> (r: Option<Decimal>)
    ensures
        opt_model(r) == pow_int_model(base@, exp),
        exp >= 0 ==> (r matches Some(x) ==> is_power(x@, base@, exp as nat)),
        exp < 0 ==> (r matches Some(x) ==> exists|p: DecModel| #[trigger] is_power(p, base@, (-exp) as nat) && (if is_zero_model(p) {
            x@ == zero_model()
        } else {
            bounded_div_model(one_model(), p) == Some(x@)
        })),
{
    if exp == 0 {
        proof {
            lemma_pow0(denom(base@));
            lemma_pow0(numer(base@));
            lemma_one_value();
        }
        return Some(Decimal::one());
    }
    let mut acc = Decimal::one();
    let mut b = base.copy();
    let e0: u64 = if exp < 0 { (0i128 - (exp as i128)) as u64 } else { exp as u64 };
    let mut e: u64 = e0;
    assert(e0 as nat == (if exp < 0 { (-(exp as int)) as nat } else { exp as nat }));
    proof {
        lemma_one_value();
        assert(pow_progress(acc@, b@, e as nat, base@, e0 as nat)) by (nonlinear_arith)
            requires
                numer(acc@) == 1,
                denom(acc@) == 1,
                b@ == base@,
                e == e0,
        ;
    }
    while e > 0
        invariant
            pow_loop_model(one_model(), base@, e0 as nat) == pow_loop_model(acc@, b@, e as nat),
            exp != 0,
            e0 as nat == (if exp < 0 { (-(exp as int)) as nat } else { exp as nat }),
            pow_progress(acc@, b@, e as nat, base@, e0 as nat),
        decreases e,
    {
        let ghost e_old = e as nat;
        let ghost acc_old = acc@;
        let ghost b_old = b@;
        if e % 2 == 1 {
            match acc.mul(&b) {
                Some(a2) => {
                    proof {
                        lemma_pow_progress_mul(acc_old, a2@, b_old, e_old, base@, e0 as nat);
                    }
                    acc = a2;
                },
                None => {
                    return None;
                },
            }
        }
        assert(acc@ == (if e_old % 2 == 1 { mul_model(acc_old, b_old)->0 } else { acc_old }));
        let ghost e_even: nat = if e_old % 2 == 1 { (e_old - 1) as nat } else { e_old };
        assert(pow_progress(acc@, b_old, e_even, base@, e0 as nat));
        e = e / 2;
        assert(e_even == 2 * (e as nat));
        if e > 0 {
            match b.mul(&b) {
                Some(b2) => {
                    proof {
                        lemma_pow_progress_square(acc@, b_old, b2@, e as nat, base@, e0 as nat);
                    }
                    b = b2;
                },
                None => {
                    return None;
                },
            }
        } else {
            proof {
                lemma_pow0(numer(b@));
                lemma_pow0(denom(b@));
            }
        }
    }
    proof {
        lemma_pow0(numer(b@));
        lemma_pow0(denom(b@));
        assert(is_power(acc@, base@, e0 as nat)) by (nonlinear_arith)
            requires
                pow_progress(acc@, b@, 0, base@, e0 as nat),
                pow(numer(b@), 0) == 1,
                pow(denom(b@), 0) == 1,
        ;
    }
    if exp < 0 {
        assert(e0 as nat == (-exp) as nat);
        assert(is_power(acc@, base@, (-exp) as nat));
        if acc.is_zero() {
            return Some(Decimal::zero());
        }
        bounded_div(&Decimal::one(), &acc)
    } else {
        Some(acc)
    }
}

proof fn lemma_pow10_19()
    ensures
        pow10(19) == 10_000_000_000_000_000_000nat,
{
    reveal_with_fuel(pow10, 20);
}

proof fn lemma_pow_mul(a: nat, b: nat)
    ensures
        pow10(a) * pow10(b) == pow10(a + b),
    decreases a,
{
    if a > 0 {
        let a1 = (a - 1) as nat;
        lemma_pow_mul(a1, b);
        let x = pow10(a1);
        let y = pow10(b);
        assert(pow10(a) == 10 * x);
        assert((a1 + b) as nat == (a + b - 1) as nat);
        assert(pow10(a + b) == 10 * pow10((a + b - 1) as nat));
        assert(pow10(a) * y == 10 * (x * y)) by (nonlinear_arith)
            requires pow10(a) == 10 * x;
    } else {
        assert(pow10(0) == 1);
    }
}

/// The decimal digits of `n`, least significant first (`[0]` for zero).
pub open spec fn nat_digits(n: nat) -> Seq<u8>
    decreases n,
{
    if n < 10 {
        seq![n as u8]
    } else {
        seq![(n % 10) as u8] + nat_digits(n / 10)
    }
}

/// Low zero digits moved into a negative scale; a lone zero stays.
pub open spec fn strip_zeros(ds: Seq<u8>, scale: int) -> (Seq<u8>, int)
    decreases ds.len(),
{
    if ds.len() > 1 && ds[0] == 0 {
        strip_zeros(ds.skip(1), scale - 1)
    } else {
        (ds, scale)
    }
}

/// The normalized model of an integer.
pub open spec fn int_model(n: int) -> DecModel {
    let mag: nat = if n < 0 { (-n) as nat } else { n as nat };
    let (ds, sc) = strip_zeros(nat_digits(mag), 0);
    (n < 0, ds, sc)
}

proof fn lemma_nat_digits(n: nat)
    ensures
        nat_digits(n).len() >= 1,
        forall|i: int| 0 <= i < nat_digits(n).len() ==> #[trigger] nat_digits(n)[i] < 10,
        nat_digits(n).len() == 1 || nat_digits(n).last() != 0,
        n == 0 <==> nat_digits(n) == seq![0u8],
        digits_value(nat_digits(n)) == n,
    decreases n,
{
    if n >= 10 {
        lemma_nat_digits(n / 10);
        let t = nat_digits(n / 10);
        let s = nat_digits(n);
        assert(s == seq![(n % 10) as u8] + t);
        assert(s.skip(1) =~= t);
        assert forall|i: int| 0 <= i < s.len() implies #[trigger] s[i] < 10 by {
            if i > 0 {
                assert(s[i] == t[i - 1]);
            }
        }
        assert(s.last() == t.last());
        assert(s[0] as nat == n % 10);
        assert(digits_value(s) == s[0] as nat + 10 * digits_value(t));
        assert(n % 10 + 10 * (n / 10) == n);
        if s == seq![0u8] {
            assert(s.len() == 1);
        }
    } else {
        if n != 0 {
            assert(nat_digits(n)[0] != 0u8);
        }
        assert(nat_digits(n).skip(1) =~= Seq::<u8>::empty());
        assert(digits_value(nat_digits(n)) == nat_digits(n)[0] as nat + 10 * digits_value(nat_digits(n).skip(1)));
    }
}

proof fn lemma_nat_digits_len(n: nat, k: nat)
    requires
        k >= 1,
        n < pow10(k),
    ensures
        nat_digits(n).len() <= k,
    decreases n,
{
    if n >= 10 {
        assert(k >= 2) by {
            if k == 1 {
                assert(pow10(1) == 10) by {
                    reveal_with_fuel(pow10, 2);
                }
            }
        }
        assert(pow10(k) == 10 * pow10((k - 1) as nat));
        lemma_nat_digits_len(n / 10, (k - 1) as nat);
    }
}

/// The integer `n` as a decimal.
#[verifier::spinoff_prover]
pub fn from_int(n: i64) -> (r: Decimal)
    ensures
        r@ == int_model(n as int),
{
    let negative = n < 0;
    let mut m: u64 = if n < 0 { (0i128 - (n as i128)) as u64 } else { n as u64 };
    let ghost mag: nat = m as nat;
    proof {
        assert(mag == (if n < 0 { (-n) as nat } else { n as nat }));
        lemma_pow10_19();
        lemma_nat_digits(mag);
        lemma_nat_digits_len(mag, 19);
    }
    let mut ds: Vec<u8> = Vec::new();
    while m >= 10
        invariant
            nat_digits(mag) == ds@ + nat_digits(m as nat),
        decreases m,
    {
        proof {
            assert(nat_digits(m as nat) == seq![(m % 10) as u8] + nat_digits((m / 10) as nat));
            assert(ds@ + nat_digits(m as nat) =~= ds@.push((m % 10) as u8) + nat_digits((m / 10) as nat));
        }
        ds.push((m % 10) as u8);
        m = m / 10;
    }
    proof {
        assert(nat_digits(m as nat) == seq![m as u8]);
    }
    ds.push(m as u8);
    proof {
        assert(ds@ =~= nat_digits(mag));
    }
    let ghost full = ds@;
    let mut z: usize = 0;
    proof {
        assert(full.skip(0) =~= full);
    }
    while z + 1 < ds.len() && ds[z] == 0
        invariant
            ds@ == full,
            full == nat_digits(mag),
            1 <= full.len() <= 19,
            z < full.len(),
            strip_zeros(full, 0) == strip_zeros(full.skip(z as int), -(z as int)),
        decreases ds.len() - z,
    {
        proof {
            assert(full.skip(z as int).skip(1) =~= full.skip(z + 1));
        }
        z += 1;
    }
    let mut digits: Vec<u8> = Vec::new();
    let mut k: usize = z;
    while k < ds.len()
        invariant
            ds@ == full,
            z <= k <= ds.len(),
            digits@ == full.subrange(z as int, k as int),
        decreases ds.len() - k,
    {
        digits.push(ds[k]);
        proof {
            assert(digits@ =~= full.subrange(z as int, k + 1));
        }
        k += 1;
    }
    proof {
        assert(digits@ =~= full.skip(z as int));
        assert(strip_zeros(full.skip(z as int), -(z as int)) == (full.skip(z as int), -(z as int)));
        let d = digits@;
        assert forall|i: int| 0 <= i < d.len() implies #[trigger] d[i] < 10 by {
            assert(d[i] == full[i + z]);
        }
        assert(d.last() == full.last());
        if d == seq![0u8] {
            assert(full.len() == 1);
            assert(full =~= seq![0u8]);
        }
        if mag == 0 {
            assert(full == seq![0u8]);
        }
    }
    Decimal { negative, digits, scale: -(z as i64) }
}

proof fn lemma_strip_zeros_value(ds: Seq<u8>, sc: int)
    ensures
        strip_zeros(ds, sc).1 <= sc,
        digits_value(ds) == pow10((sc - strip_zeros(ds, sc).1) as nat) * digits_value(strip_zeros(ds, sc).0),
    decreases ds.len(),
{
    if ds.len() > 1 && ds[0] == 0 {
        lemma_strip_zeros_value(ds.skip(1), sc - 1);
        let (d2, s2) = strip_zeros(ds.skip(1), sc - 1);
        let p = pow10((sc - 1 - s2) as nat);
        assert(pow10((sc - s2) as nat) == 10 * p);
        assert(digits_value(ds) == 10 * digits_value(ds.skip(1)));
        assert(strip_zeros(ds, sc) == (d2, s2));
        assert(digits_value(ds.skip(1)) == p * digits_value(d2));
        assert(10 * (p * digits_value(d2)) == (10 * p) * digits_value(d2)) by (nonlinear_arith);
        assert(digits_value(ds) == pow10((sc - s2) as nat) * digits_value(d2));
    } else {
        assert(strip_zeros(ds, sc) == (ds, sc));
        assert(pow10(0) == 1);
        assert(digits_value(ds) == 1 * digits_value(ds));
    }
}

/// The decimal of an integer has that integer's value.
pub proof fn lemma_int_model_value(n: int)
    ensures
        numer(int_model(n)) == n,
        denom(int_model(n)) == 1,
        int_model(n).2 <= 0,
{
    let mag: nat = if n < 0 { (-n) as nat } else { n as nat };
    lemma_nat_digits(mag);
    lemma_strip_zeros_value(nat_digits(mag), 0);
    let (ds, sc) = strip_zeros(nat_digits(mag), 0);
    let p = pow10((0 - sc) as nat);
    assert(mag == p * digits_value(ds));
    if n < 0 {
        assert(-(digits_value(ds) as int) * p == -(p * digits_value(ds))) by (nonlinear_arith);
    } else {
        assert((digits_value(ds) as int) * p == p * digits_value(ds)) by (nonlinear_arith);
    }
}

} // verus!
