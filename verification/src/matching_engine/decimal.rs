//! Fixed-point decimal quantities (prices and sizes).
//!
//! A `Decimal` holds the two plain values that define a `rust_decimal::Decimal`:
//! a mantissa of at most 96 bits and a scale of at most 28, so that its numeric
//! value is `mantissa / 10^scale`.  Every arithmetic operation and every
//! comparison is carried out by `rust_decimal` itself; the specifications speak
//! of the value measured in units of `10^-28`, which is always an integer.
use vstd::prelude::*;
use vstd::std_specs::cmp::PartialEqSpecImpl;

verus! {

/// Largest magnitude of a mantissa: `2^96 - 1`.
pub const MAX_MANTISSA: i128 = 79228162514264337593543950335;

/// Largest scale (number of fractional digits).
pub const MAX_SCALE: u32 = 28;

/// `10^n`.
pub open spec fn pow10(n: nat) -> int
    decreases n,
{
    if n == 0 {
        1
    } else {
        10 * pow10((n - 1) as nat)
    }
}

/// `2^96`, the first mantissa magnitude that does not fit.
pub open spec fn mantissa_bound() -> int {
    79228162514264337593543950336
}

/// Largest magnitude of a value, in units of `10^-28`.
pub open spec fn max_value() -> int {
    MAX_MANTISSA * pow10(28)
}

/// A value (in units of `10^-28`) that a decimal of at most 96 bits can hold at
/// scale `s` without dropping digits.
pub open spec fn fits_at(v: int, s: nat) -> bool {
    -mantissa_bound() * pow10((28 - s) as nat) < v < mantissa_bound() * pow10((28 - s) as nat)
}

/// A value whose magnitude does not exceed `Decimal::MAX`.
pub open spec fn within_max(v: int) -> bool {
    -max_value() <= v <= max_value()
}

pub open spec fn max_nat(a: nat, b: nat) -> nat {
    if a >= b {
        a
    } else {
        b
    }
}

/// Largest magnitude, in units of `10^-28`, of a quantity in the exact range
/// (`10^15`).
pub open spec fn range_limit() -> int {
    10000000000000000000000000000000000000000000int
}

/// Largest magnitude, in units of `10^-28`, of a sum or a difference of
/// quantities of scale at most 8 that is still computed exactly (`7 * 10^20`).
pub open spec fn exact_limit() -> int {
    7000000000000000000000000000000000000000000000000int
}

pub proof fn lemma_pow10_monotone(a: nat, b: nat)
    requires
        a <= b,
    ensures
        1 <= pow10(a) <= pow10(b),
    decreases b,
{
    if a < b {
        lemma_pow10_monotone(a, (b - 1) as nat);
    } else {
        lemma_pow10_positive(b);
    }
}

pub proof fn lemma_pow10_positive(n: nat)
    ensures
        pow10(n) >= 1,
    decreases n,
{
    if n > 0 {
        lemma_pow10_positive((n - 1) as nat);
    }
}

pub proof fn lemma_pow10_20()
    ensures
        pow10(20) == 100000000000000000000,
        pow10(28) == 10000000000000000000000000000,
{
    reveal_with_fuel(pow10, 29);
}

/// A value of magnitude at most `exact_limit()` fits at every scale up to 8.
pub proof fn lemma_fits(v: int, s: nat)
    requires
        s <= 8,
        -exact_limit() <= v <= exact_limit(),
    ensures
        fits_at(v, s),
        within_max(v),
{
    lemma_pow10_20();
    lemma_pow10_monotone(20, (28 - s) as nat);
    let p = pow10((28 - s) as nat);
    assert(mantissa_bound() * p >= mantissa_bound() * 100000000000000000000) by (nonlinear_arith)
        requires
            p >= 100000000000000000000,
            mantissa_bound() > 0,
    ;
}

#[derive(Clone, Copy, Debug)]
pub struct Decimal {
    mantissa: i128,
    scale: u32,
}

/// The sum that `rust_decimal` computes for two decimals.
pub uninterp spec fn decimal_sum(a: Decimal, b: Decimal) -> Decimal;

/// The difference that `rust_decimal` computes for two decimals.
pub uninterp spec fn decimal_difference(a: Decimal, b: Decimal) -> Decimal;

impl Decimal {
    #[verifier::type_invariant]
    spec fn inv(self) -> bool {
        &&& -MAX_MANTISSA <= self.mantissa <= MAX_MANTISSA
        &&& self.scale <= MAX_SCALE
    }

    pub closed spec fn mantissa_of(self) -> int {
        self.mantissa as int
    }

    pub closed spec fn scale_of(self) -> nat {
        self.scale as nat
    }

    /// The numeric value in units of `10^-28`.
    pub open spec fn value(self) -> int {
        self.mantissa_of() * pow10((28 - self.scale_of()) as nat)
    }

    /// The sum of two decimals, as `rust_decimal` rounds it.
    pub open spec fn add_spec(self, other: Decimal) -> Decimal {
        decimal_sum(self, other)
    }

    /// The difference of two decimals, as `rust_decimal` rounds it.
    pub open spec fn sub_spec(self, other: Decimal) -> Decimal {
        decimal_difference(self, other)
    }

    /// The smaller of two decimals; the first when they are equal.
    pub open spec fn min_spec(self, other: Decimal) -> Decimal {
        if other.value() < self.value() {
            other
        } else {
            self
        }
    }

    /// The larger of two decimals; the second when they are equal.
    pub open spec fn max_spec(self, other: Decimal) -> Decimal {
        if other.value() < self.value() {
            self
        } else {
            other
        }
    }

    /// A quantity of at most 8 fractional digits and magnitude at most
    /// `10^15`: sums and differences of a few of them are computed exactly.
    pub open spec fn in_range(self) -> bool {
        &&& self.scale_of() <= 8
        &&& -range_limit() <= self.value() <= range_limit()
    }

    /// Zero with scale zero (`Decimal::ZERO`).
    pub closed spec fn zero_spec() -> Decimal {
        Decimal { mantissa: 0, scale: 0 }
    }

    pub proof fn lemma_zero()
        ensures
            Self::zero_spec().value() == 0,
            Self::zero_spec().scale_of() == 0,
    {
    }

    /// Zero with scale zero.
    pub fn zero() -> (r: Decimal)
        ensures
            r == Self::zero_spec(),
    {
        Decimal { mantissa: 0, scale: 0 }
    }

    /// `num / 10^scale`.
    pub fn new(num: i64, scale: u32) -> (r: Decimal)
        requires
            scale <= MAX_SCALE,
        ensures
            r.mantissa_of() == num,
            r.scale_of() == scale,
    {
        Decimal { mantissa: num as i128, scale }
    }

    /// `num / 10^scale` for a mantissa of at most 96 bits.
    pub fn from_i128_with_scale(num: i128, scale: u32) -> (r: Decimal)
        requires
            -MAX_MANTISSA <= num <= MAX_MANTISSA,
            scale <= MAX_SCALE,
        ensures
            r.mantissa_of() == num,
            r.scale_of() == scale,
    {
        Decimal { mantissa: num, scale }
    }

    pub fn mantissa(&self) -> (r: i128)
        ensures
            r == self.mantissa_of(),
            -MAX_MANTISSA <= r <= MAX_MANTISSA,
    {
        proof {
            use_type_invariant(self);
        }
        self.mantissa
    }

    pub fn scale(&self) -> (r: u32)
        ensures
            r == self.scale_of(),
            r <= MAX_SCALE,
    {
        proof {
            use_type_invariant(self);
        }
        self.scale
    }

    /// Whether the quantity lies in the exact range: at most 8 fractional
    /// digits and a magnitude of at most `10^15`.
    pub fn is_in_range(&self) -> (r: bool)
        ensures
            r == self.in_range(),
    {
        let limit = Decimal::new(1_000_000_000_000_000, 0);
        let neg = Decimal::new(-1_000_000_000_000_000, 0);
        proof {
            lemma_pow10_20();
            assert(limit.value() == range_limit());
            assert(neg.value() == -range_limit());
        }
        self.scale() <= 8 && !self.lt(&neg) && !limit.lt(self)
    }

    /// `self < other`, compared by value.
    pub fn lt(&self, other: &Decimal) -> (r: bool)
        ensures
            r == (self.value() < other.value()),
    {
        decimal_lt(*self, *other)
    }

    /// `self <= other`, compared by value.
    pub fn le(&self, other: &Decimal) -> (r: bool)
        ensures
            r == (self.value() <= other.value()),
    {
        !decimal_lt(*other, *self)
    }

    /// `self > other`, compared by value.
    pub fn gt(&self, other: &Decimal) -> (r: bool)
        ensures
            r == (self.value() > other.value()),
    {
        decimal_lt(*other, *self)
    }

    /// `self >= other`, compared by value.
    pub fn ge(&self, other: &Decimal) -> (r: bool)
        ensures
            r == (self.value() >= other.value()),
    {
        !decimal_lt(*self, *other)
    }

    /// `self == other`, compared by value.
    pub fn value_eq(&self, other: &Decimal) -> (r: bool)
        ensures
            r == (self.value() == other.value()),
    {
        !decimal_lt(*self, *other) && !decimal_lt(*other, *self)
    }

    /// The smaller of the two; `self` when they are equal (as `Ord::min`).
    pub fn min(self, other: Decimal) -> (r: Decimal)
        ensures
            r == self.min_spec(other),
    {
        if decimal_lt(other, self) {
            other
        } else {
            self
        }
    }

    /// The larger of the two; `other` when they are equal (as `Ord::max`).
    pub fn max(self, other: Decimal) -> (r: Decimal)
        ensures
            r == self.max_spec(other),
    {
        if decimal_lt(other, self) {
            self
        } else {
            other
        }
    }

    /// `self + other`, as `rust_decimal` computes it.
    pub fn add(self, other: Decimal) -> (r: Decimal)
        requires
            within_max(self.value() + other.value()),
        ensures
            r == self.add_spec(other),
            r.scale_of() <= max_nat(self.scale_of(), other.scale_of()),
            fits_at(self.value() + other.value(), max_nat(self.scale_of(), other.scale_of()))
                ==> r.value() == self.value() + other.value(),
    {
        decimal_add(self, other)
    }

    /// `self - other`, as `rust_decimal` computes it.
    pub fn sub(self, other: Decimal) -> (r: Decimal)
        requires
            within_max(self.value() - other.value()),
        ensures
            r == self.sub_spec(other),
            r.scale_of() <= max_nat(self.scale_of(), other.scale_of()),
            fits_at(self.value() - other.value(), max_nat(self.scale_of(), other.scale_of()))
                ==> r.value() == self.value() - other.value(),
    {
        decimal_sub(self, other)
    }
}

/// `<rust_decimal::Decimal as PartialOrd>::lt`: compares the two numbers by
/// value, exactly, whatever their scales.
#[verifier::external_body]
fn decimal_lt(a: Decimal, b: Decimal) -> (r: bool)
    ensures
        r == (a.value() < b.value()),
{
    let x = rust_decimal::Decimal::from_i128_with_scale(a.mantissa, a.scale);
    let y = rust_decimal::Decimal::from_i128_with_scale(b.mantissa, b.scale);
    x < y
}

/// `<rust_decimal::Decimal as Add>::add`.  It panics only when the rounded sum
/// exceeds `Decimal::MAX` in magnitude, which a sum within that bound cannot.
/// Its scale never exceeds the larger scale of the operands, and when the exact
/// sum fits in 96 bits at that larger scale it is returned exactly.  What it
/// returns otherwise (the sum rounded to fewer fractional digits) is left to
/// the name `decimal_sum`.
#[verifier::external_body]
fn decimal_add(a: Decimal, b: Decimal) -> (r: Decimal)
    requires
        within_max(a.value() + b.value()),
    ensures
        r == decimal_sum(a, b),
        r.scale_of() <= max_nat(a.scale_of(), b.scale_of()),
        fits_at(a.value() + b.value(), max_nat(a.scale_of(), b.scale_of())) ==> r.value() == a.value()
            + b.value(),
{
    let x = rust_decimal::Decimal::from_i128_with_scale(a.mantissa, a.scale);
    let y = rust_decimal::Decimal::from_i128_with_scale(b.mantissa, b.scale);
    let z = x + y;
    Decimal { mantissa: z.mantissa(), scale: z.scale() }
}

/// `<rust_decimal::Decimal as Sub>::sub`, with the same facts as the sum:
/// no panic within `Decimal::MAX`, a scale no larger than the operands', and
/// an exact difference whenever it fits in 96 bits at the larger scale.
#[verifier::external_body]
fn decimal_sub(a: Decimal, b: Decimal) -> (r: Decimal)
    requires
        within_max(a.value() - b.value()),
    ensures
        r == decimal_difference(a, b),
        r.scale_of() <= max_nat(a.scale_of(), b.scale_of()),
        fits_at(a.value() - b.value(), max_nat(a.scale_of(), b.scale_of())) ==> r.value() == a.value()
            - b.value(),
{
    let x = rust_decimal::Decimal::from_i128_with_scale(a.mantissa, a.scale);
    let y = rust_decimal::Decimal::from_i128_with_scale(b.mantissa, b.scale);
    let z = x - y;
    Decimal { mantissa: z.mantissa(), scale: z.scale() }
}

impl PartialEq for Decimal {
    fn eq(&self, other: &Decimal) -> (r: bool) {
        self.value_eq(other)
    }
}

impl PartialEqSpecImpl for Decimal {
    open spec fn obeys_eq_spec() -> bool {
        true
    }

    open spec fn eq_spec(&self, other: &Decimal) -> bool {
        self.value() == other.value()
    }
}

impl Eq for Decimal {}

} // verus!
