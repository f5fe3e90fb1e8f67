//! Fixed-point decimal prices, with arithmetic carried out by `rust_decimal`.

use rust_decimal::Decimal;
use vstd::prelude::*;

verus! {

/// Largest number of fractional digits a price may carry.
pub const MAX_SCALE: u32 = 28;

/// Largest magnitude of a price's mantissa (96 bits).
pub const MAX_MANTISSA: i128 = 0xFFFF_FFFF_FFFF_FFFF_FFFF_FFFF;

/// A decimal number `mantissa / 10^scale`.
#[derive(Clone, Copy, Debug, PartialEq, Eq, Structural)]
pub struct Price {
    pub mantissa: i128,
    pub scale: u32,
}

/// `10^n`.
pub open spec fn pow10(n: nat) -> int
    decreases n,
{
    if n == 0 {
        1
    } else {
        10 * pow10((n - 1) as nat)
    }
}

pub proof fn lemma_pow10_positive(n: nat)
    ensures
        pow10(n) > 0,
    decreases n,
{
    if n > 0 {
        lemma_pow10_positive((n - 1) as nat);
    }
}

impl Price {
    /// Representable as a `rust_decimal::Decimal`.
    pub open spec fn wf(self) -> bool {
        &&& self.scale <= MAX_SCALE
        &&& -MAX_MANTISSA <= self.mantissa <= MAX_MANTISSA
    }

    /// The numeric value of `self` is at most that of `other`.
    pub open spec fn value_le(self, other: Price) -> bool {
        self.mantissa * pow10(other.scale as nat) <= other.mantissa * pow10(self.scale as nat)
    }

    /// The numeric value of `self` is below that of `other`.
    pub open spec fn value_lt(self, other: Price) -> bool {
        !other.value_le(self)
    }

    /// The decimal `mantissa / 10^scale`.
    pub fn new(mantissa: i64, scale: u32) -> (r: Price)
        requires
            scale <= MAX_SCALE,
        ensures
            r.mantissa == mantissa as i128,
            r.scale == scale,
            r.wf(),
    {
        Price { mantissa: mantissa as i128, scale }
    }

    /// Zero, with no fractional digits.
    pub fn zero() -> (r: Price)
        ensures
            r.mantissa == 0,
            r.scale == 0,
            r.wf(),
    {
        Price { mantissa: 0, scale: 0 }
    }

    /// The decimal `mantissa / 10^scale`, when it is representable.
    pub fn from_parts(mantissa: i128, scale: u32) -> (r: Option<Price>)
        ensures
            r == (if scale <= MAX_SCALE && -MAX_MANTISSA <= mantissa <= MAX_MANTISSA {
                Some(Price { mantissa, scale })
            } else {
                None
            }),
    {
        if scale <= MAX_SCALE && -MAX_MANTISSA <= mantissa && mantissa <= MAX_MANTISSA {
            Some(Price { mantissa, scale })
        } else {
            None
        }
    }

    /// Whether the value of `self` is below that of `other`.
    pub fn less_than(self, other: Price) -> (r: bool)
        requires
            self.wf(),
            other.wf(),
        ensures
            r == self.value_lt(other),
    {
        decimal_lt(self, other)
    }

    /// The sum, as `rust_decimal` computes it; `None` on overflow.
    pub fn checked_add(self, other: Price) -> (r: Option<Price>)
        requires
            self.wf(),
            other.wf(),
        ensures
            r == decimal_add_of(self, other),
            r matches Some(p) ==> p.wf(),
    {
        decimal_checked_add(self, other)
    }

    /// The quotient by a positive count, as `rust_decimal` computes it; `None` on overflow.
    pub fn checked_div_count(self, count: usize) -> (r: Option<Price>)
        requires
            self.wf(),
        ensures
            r == decimal_div_count_of(self, count as int),
            r matches Some(p) ==> p.wf(),
    {
        decimal_checked_div_count(self, count)
    }
}

/// What `rust_decimal` returns for `a.checked_add(b)`.
pub uninterp spec fn decimal_add_of(a: Price, b: Price) -> Option<Price>;

/// What `rust_decimal` returns for `a.checked_div(Decimal::from(n))`.
pub uninterp spec fn decimal_div_count_of(a: Price, n: int) -> Option<Price>;

/// Relies on `Decimal::from_i128_with_scale` (panics only outside `wf`) and on
/// `Decimal`'s `<`, which compares exact values across scales.
#[verifier::external_body]
fn decimal_lt(a: Price, b: Price) -> (r: bool)
    requires
        a.wf(),
        b.wf(),
    ensures
        r == a.value_lt(b),
{
    Decimal::from_i128_with_scale(a.mantissa, a.scale) < Decimal::from_i128_with_scale(
        b.mantissa,
        b.scale,
    )
}

/// Relies on `Decimal::checked_add`; a `Decimal`'s `mantissa()` and `scale()`
/// always lie within `wf`.
#[verifier::external_body]
fn decimal_checked_add(a: Price, b: Price) -> (r: Option<Price>)
    requires
        a.wf(),
        b.wf(),
    ensures
        r == decimal_add_of(a, b),
        r matches Some(p) ==> p.wf(),
{
    let x = Decimal::from_i128_with_scale(a.mantissa, a.scale);
    let y = Decimal::from_i128_with_scale(b.mantissa, b.scale);
    x.checked_add(y).map(|d| Price { mantissa: d.mantissa(), scale: d.scale() })
}

/// Relies on `Decimal::checked_div` by `Decimal::from(n)`; a `Decimal`'s
/// `mantissa()` and `scale()` always lie within `wf`.
#[verifier::external_body]
fn decimal_checked_div_count(a: Price, n: usize) -> (r: Option<Price>)
    requires
        a.wf(),
    ensures
        r == decimal_div_count_of(a, n as int),
        r matches Some(p) ==> p.wf(),
{
    let x = Decimal::from_i128_with_scale(a.mantissa, a.scale);
    x.checked_div(Decimal::from(n)).map(|d| Price { mantissa: d.mantissa(), scale: d.scale() })
}

} // verus!
