//! Fixed-point decimal numbers: a mantissa of at most 96 bits and a scale of
//! at most 28 fractional digits. Comparison and subtraction are carried out by
//! `rust_decimal`, whose numbers have exactly this shape.
use vstd::prelude::*;
use vstd::arithmetic::power::{pow, lemma_pow_positive};
use vstd::std_specs::cmp::PartialEqSpecImpl;

verus! {

/// Largest magnitude of a mantissa: 2^96 - 1.
pub const MAX_MANTISSA: i128 = 0xFFFF_FFFF_FFFF_FFFF_FFFF_FFFFi128;

/// Largest number of fractional digits.
pub const MAX_SCALE: u32 = 28u32;

/// Ten to the power `n`.
pub open spec fn pow10(n: nat) -> int {
    pow(10, n)
}

/// The number that a `(mantissa, scale)` pair stands for, counted in units of
/// 10^-28: `mantissa * 10^(28 - scale)`. Two decimals are numerically equal
/// exactly when these integers are equal, whatever their scales.
pub open spec fn units(v: (int, nat)) -> int {
    v.0 * pow10((28 - v.1) as nat)
}

/// A decimal number `mantissa / 10^scale`.
#[derive(Clone, Copy, Debug)]
pub struct Decimal {
    mantissa: i128,
    scale: u32,
}

impl View for Decimal {
    type V = (int, nat);

    closed spec fn view(&self) -> (int, nat) {
        (self.mantissa as int, self.scale as nat)
    }
}

/// The pairs that a `Decimal` can hold.
pub open spec fn representable(v: (int, nat)) -> bool {
    &&& -MAX_MANTISSA <= v.0 <= MAX_MANTISSA
    &&& v.1 <= MAX_SCALE
}

/// The numerical order of two integers, as a three-way answer.
pub enum DecimalOrder {
    Less,
    Equal,
    Greater,
}

pub open spec fn order_of(x: int, y: int) -> DecimalOrder {
    if x < y {
        DecimalOrder::Less
    } else if x == y {
        DecimalOrder::Equal
    } else {
        DecimalOrder::Greater
    }
}

/// The pair that `rust_decimal` computes for `a - b`. Its value is the exact
/// difference whenever that difference fits at the larger of the two scales
/// (see `subtract`); otherwise the library rounds it to fewer digits.
pub uninterp spec fn decimal_difference(a: (int, nat), b: (int, nat)) -> (int, nat);

/// The larger of the two scales.
pub open spec fn max_scale(a: (int, nat), b: (int, nat)) -> nat {
    if a.1 >= b.1 { a.1 } else { b.1 }
}

/// The exact difference `a - b` has a mantissa of at most 96 bits at the
/// larger of the two scales.
pub open spec fn difference_fits(a: (int, nat), b: (int, nat)) -> bool {
    let d = units(a) - units(b);
    let bound = MAX_MANTISSA * pow10((28 - max_scale(a, b)) as nat);
    -bound <= d <= bound
}

/// The number zero, as `Decimal::ZERO` of `rust_decimal` holds it.
pub open spec fn zero_view() -> (int, nat) {
    (0, 0)
}

/// `Decimal::min` of `rust_decimal`: `self` unless `self > other`.
pub open spec fn min_of(a: Decimal, b: Decimal) -> Decimal {
    if units(a@) > units(b@) { b } else { a }
}

/// The sign of a number is the sign of its mantissa.
pub proof fn lemma_units_sign(v: (int, nat))
    ensures
        units(v) == 0 <==> v.0 == 0,
        units(v) > 0 <==> v.0 > 0,
        units(v) < 0 <==> v.0 < 0,
{
    let p = pow10((28 - v.1) as nat);
    lemma_pow_positive(10, (28 - v.1) as nat);
    assert(p > 0);
    assert(v.0 > 0 ==> v.0 * p > 0) by (nonlinear_arith)
        requires p > 0;
    assert(v.0 < 0 ==> v.0 * p < 0) by (nonlinear_arith)
        requires p > 0;
    assert(v.0 == 0 ==> v.0 * p == 0) by (nonlinear_arith);
}

/// The number has at most `s` fractional digits and, written with exactly
/// `s` of them, a mantissa of at most 96 bits (a bound from above only).
pub open spec fn fits_at(d: Decimal, s: nat) -> bool {
    &&& s <= 28
    &&& d@.1 <= s
    &&& units(d@) <= MAX_MANTISSA * pow10((28 - s) as nat)
}

/// Two nonnegative numbers that fit at a common scale have a difference that
/// fits at the larger of their scales.
pub proof fn lemma_difference_fits(a: Decimal, b: Decimal, s: nat)
    requires
        fits_at(a, s),
        fits_at(b, s),
        0 <= units(b@) <= units(a@),
    ensures
        difference_fits(a@, b@),
{
    let m = max_scale(a@, b@);
    vstd::arithmetic::power::lemma_pow_increases(10, (28 - s) as nat, (28 - m) as nat);
    lemma_pow_positive(10, (28 - s) as nat);
    assert(MAX_MANTISSA * pow10((28 - s) as nat) <= MAX_MANTISSA * pow10((28 - m) as nat));
}

/// The difference of a number and itself fits: it is zero.
pub proof fn lemma_self_difference_fits(a: Decimal)
    ensures
        difference_fits(a@, a@),
{
    lemma_pow_positive(10, (28 - max_scale(a@, a@)) as nat);
}

/// `rust_decimal::Decimal::cmp` (the `Ord` impl). `rust_decimal` documents its
/// numbers as `mantissa / 10^scale` and orders them by value; the contract says
/// that the answer is the order of the two values.
#[verifier::external_body]
pub(crate) fn compare(a: &Decimal, b: &Decimal) -> (r: DecimalOrder)
    ensures
        r == order_of(units(a@), units(b@)),
{
    let x = rust_decimal::Decimal::from_i128_with_scale(a.mantissa, a.scale);
    let y = rust_decimal::Decimal::from_i128_with_scale(b.mantissa, b.scale);
    match x.cmp(&y) {
        std::cmp::Ordering::Less => DecimalOrder::Less,
        std::cmp::Ordering::Equal => DecimalOrder::Equal,
        std::cmp::Ordering::Greater => DecimalOrder::Greater,
    }
}

/// `rust_decimal::Decimal::sub_assign` (`a -= b`). The result is named
/// `decimal_difference`. On `0 <= b <= a` the library does not overflow (it
/// panics only when a result exceeds 96 bits at scale 0), its result lies in
/// `[0, a]`, its scale is at most the larger scale of the operands, and it is
/// the exact difference whenever that fits in 96 bits at the larger scale.
/// When it does not fit, the library drops digits and rounds (to nearest,
/// ties to even, once more if rounding up overflows): the result is positive
/// when `a > b` and lies within one unit of its last digit of the exact
/// difference. Which of the two neighbours it picks is left unsaid.
#[verifier::external_body]
pub(crate) fn subtract(a: &Decimal, b: &Decimal) -> (r: Decimal)
    requires
        0 <= units(b@) <= units(a@),
    ensures
        r@ == decimal_difference(a@, b@),
        0 <= units(r@) <= units(a@),
        r@.1 <= max_scale(a@, b@),
        difference_fits(a@, b@) ==> units(r@) == units(a@) - units(b@),
        units(a@) > units(b@) ==> units(r@) > 0,
        -pow10((28 - r@.1) as nat) < units(r@) - (units(a@) - units(b@)) < pow10((28 - r@.1) as nat),
{
    let mut x = rust_decimal::Decimal::from_i128_with_scale(a.mantissa, a.scale);
    x -= rust_decimal::Decimal::from_i128_with_scale(b.mantissa, b.scale);
    Decimal { mantissa: x.mantissa(), scale: x.scale() }
}

impl Decimal {
    #[verifier::type_invariant]
    spec fn well_formed(self) -> bool {
        representable(self@)
    }

    /// The decimal with the given view.
    pub closed spec fn from_view(v: (int, nat)) -> Decimal {
        Decimal { mantissa: v.0 as i128, scale: v.1 as u32 }
    }

    /// A decimal is determined by its view.
    pub proof fn lemma_view_determines(a: Decimal, v: (int, nat))
        requires
            a@ == v,
        ensures
            a == Decimal::from_view(v),
    {
    }

    /// The number `mantissa / 10^scale`, when the mantissa has at most 96 bits
    /// and the scale is at most 28; `None` otherwise.
    pub fn new(mantissa: i128, scale: u32) -> (r: Option<Decimal>)
        ensures
            r is Some <==> representable((mantissa as int, scale as nat)),
            r matches Some(d) ==> d@ == (mantissa as int, scale as nat),
    {
        if -MAX_MANTISSA <= mantissa && mantissa <= MAX_MANTISSA && scale <= MAX_SCALE {
            Some(Decimal { mantissa, scale })
        } else {
            None
        }
    }

    /// The number zero (mantissa 0, scale 0).
    pub fn zero() -> (r: Decimal)
        ensures
            r@ == zero_view(),
    {
        Decimal { mantissa: 0, scale: 0 }
    }

    pub fn mantissa(&self) -> (r: i128)
        ensures
            r == self@.0,
    {
        self.mantissa
    }

    pub fn scale(&self) -> (r: u32)
        ensures
            r == self@.1,
    {
        self.scale
    }

    /// `rust_decimal`'s `is_zero`: the mantissa is zero.
    pub fn is_zero(&self) -> (r: bool)
        ensures
            r == (self@.0 == 0),
            r == (units(self@) == 0),
    {
        proof {
            lemma_units_sign(self@);
        }
        self.mantissa == 0
    }

    /// `rust_decimal`'s `min`: `self` unless `self > other`.
    pub fn min(self, other: Decimal) -> (r: Decimal)
        ensures
            r == min_of(self, other),
    {
        match compare(&self, &other) {
            DecimalOrder::Greater => other,
            _ => self,
        }
    }

    /// `self > other`, by value.
    pub fn greater_than(&self, other: &Decimal) -> (r: bool)
        ensures
            r == (units(self@) > units(other@)),
    {
        match compare(self, other) {
            DecimalOrder::Greater => true,
            _ => false,
        }
    }

    /// `self < other`, by value.
    pub fn less_than(&self, other: &Decimal) -> (r: bool)
        ensures
            r == (units(self@) < units(other@)),
    {
        match compare(self, other) {
            DecimalOrder::Less => true,
            _ => false,
        }
    }
}

impl Default for Decimal {
    fn default() -> (r: Decimal)
        ensures
            r@ == zero_view(),
    {
        Decimal::zero()
    }
}

impl PartialEq for Decimal {
    fn eq(&self, other: &Decimal) -> (r: bool) {
        match compare(self, other) {
            DecimalOrder::Equal => true,
            _ => false,
        }
    }
}

impl PartialEqSpecImpl for Decimal {
    open spec fn obeys_eq_spec() -> bool {
        true
    }

    open spec fn eq_spec(&self, other: &Decimal) -> bool {
        units(self@) == units(other@)
    }
}

impl Eq for Decimal {}

} // verus!
