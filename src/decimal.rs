//! Fixed-point decimals with eighteen fractional digits, and the integer
//! conversions that the pool and the batches use.

use vstd::prelude::*;

verus! {

/// Atomics per whole unit: a decimal `d` stands for `d.atomics / DECIMAL_FRACTIONAL`.
pub const DECIMAL_FRACTIONAL: u128 = 1_000_000_000_000_000_000;

/// Largest amount (of principal or of derivative) that the ledgers hold.
/// With it, `amount * DECIMAL_FRACTIONAL` and `amount * rate` stay in `u128`,
/// and the rate of a pool that holds any principal is never zero.
pub const MAX_AMOUNT: u128 = 1_000_000_000_000_000_000;

/// A non-negative fixed-point number.
#[derive(Clone, Copy, Debug, PartialEq, Eq, Structural)]
pub struct Decimal {
    pub atomics: u128,
}

/// `n / d` as atomics, rounded down.
pub open spec fn ratio_atomics(n: int, d: int) -> int {
    n * (DECIMAL_FRACTIONAL as int) / d
}

/// `u * r`, rounded down to an integer.
pub open spec fn mul_floor(u: int, r: Decimal) -> int {
    u * (r.atomics as int) / (DECIMAL_FRACTIONAL as int)
}

/// `u / r`, rounded down to an integer.
pub open spec fn div_floor(u: int, r: Decimal) -> int {
    u * (DECIMAL_FRACTIONAL as int) / (r.atomics as int)
}

impl Decimal {
    pub open spec fn spec_one() -> Decimal {
        Decimal { atomics: DECIMAL_FRACTIONAL }
    }

    /// The decimal 1.0.
    pub fn one() -> (r: Decimal)
        ensures
            r == Decimal::spec_one(),
    {
        Decimal { atomics: DECIMAL_FRACTIONAL }
    }

    /// The decimal 0.0.
    pub fn zero() -> (r: Decimal)
        ensures
            r.atomics == 0,
    {
        Decimal { atomics: 0 }
    }

    /// The decimal `x / 100`.
    pub fn percent(x: u64) -> (r: Decimal)
        ensures
            r.atomics == x * 10_000_000_000_000_000,
    {
        assert(x * 10_000_000_000_000_000 <= u128::MAX) by (nonlinear_arith)
            requires
                x <= u64::MAX,
        ;
        Decimal { atomics: (x as u128) * 10_000_000_000_000_000 }
    }

    /// `nominator / denominator`, rounded down to the last atomic digit.
    pub fn from_ratio(nominator: u128, denominator: u128) -> (r: Decimal)
        requires
            denominator > 0,
            nominator * DECIMAL_FRACTIONAL <= u128::MAX,
        ensures
            r.atomics == ratio_atomics(nominator as int, denominator as int),
    {
        Decimal { atomics: nominator * DECIMAL_FRACTIONAL / denominator }
    }

    /// Whether the decimal is 0.0.
    pub fn is_zero(&self) -> (r: bool)
        ensures
            r == (self.atomics == 0),
    {
        self.atomics == 0
    }

    /// Whether `self < other`.
    pub fn lt(&self, other: &Decimal) -> (r: bool)
        ensures
            r == (self.atomics < other.atomics),
    {
        self.atomics < other.atomics
    }

    /// `self - other`, or `None` where it would be negative.
    pub fn checked_sub(&self, other: &Decimal) -> (r: Option<Decimal>)
        ensures
            other.atomics <= self.atomics ==> r == Some(
                Decimal { atomics: (self.atomics - other.atomics) as u128 },
            ),
            other.atomics > self.atomics ==> r is None,
    {
        if other.atomics <= self.atomics {
            Some(Decimal { atomics: self.atomics - other.atomics })
        } else {
            None
        }
    }
}

/// `u * r`, rounded down.
pub fn mul_uint(u: u128, r: Decimal) -> (out: u128)
    requires
        u * r.atomics <= u128::MAX,
    ensures
        out == mul_floor(u as int, r),
{
    u * r.atomics / DECIMAL_FRACTIONAL
}

/// `u / r`, rounded down.
pub fn div_uint(u: u128, r: Decimal) -> (out: u128)
    requires
        r.atomics > 0,
        u * DECIMAL_FRACTIONAL <= u128::MAX,
    ensures
        out == div_floor(u as int, r),
{
    u * DECIMAL_FRACTIONAL / r.atomics
}

/// Multiplying by 1.0 gives the amount back, and dividing by it too.
pub proof fn lemma_one_is_neutral(u: nat)
    ensures
        mul_floor(u as int, Decimal::spec_one()) == u,
        div_floor(u as int, Decimal::spec_one()) == u,
{
    vstd::arithmetic::div_mod::lemma_div_by_multiple(u as int, DECIMAL_FRACTIONAL as int);
}

/// Floor division brackets its dividend.
pub proof fn lemma_div_bounds(x: int, d: int)
    requires
        x >= 0,
        d > 0,
    ensures
        0 <= x / d,
        (x / d) * d <= x,
        x < (x / d + 1) * d,
{
    vstd::arithmetic::div_mod::lemma_fundamental_div_mod(x, d);
    vstd::arithmetic::div_mod::lemma_mod_bound(x, d);
    vstd::arithmetic::div_mod::lemma_div_pos_is_pos(x, d);
    assert((x / d + 1) * d == (x / d) * d + d) by (nonlinear_arith);
    assert(d * (x / d) == (x / d) * d) by (nonlinear_arith);
}

/// A product of bounded factors is bounded.
pub proof fn lemma_mul_le(a: int, b: int, c: int, e: int)
    requires
        0 <= a <= c,
        0 <= b <= e,
    ensures
        a * b <= c * e,
{
    assert(a * b <= c * e) by (nonlinear_arith)
        requires
            0 <= a <= c,
            0 <= b <= e,
    ;
}

} // verus!
