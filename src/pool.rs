//! The exchange-rate pool: bonded principal against issued derivative.

use vstd::prelude::*;
use crate::decimal::{
    Decimal, DECIMAL_FRACTIONAL, MAX_AMOUNT, ratio_atomics, mul_floor, div_floor, mul_uint,
    div_uint, lemma_div_bounds, lemma_mul_le, lemma_one_is_neutral,
};
use crate::error::HubError;

verus! {

/// The exchange rate of a pool with these totals: principal per derivative,
/// and 1.0 where either side is zero.
pub open spec fn rate_of(bond: int, issued: int) -> Decimal {
    if bond == 0 || issued == 0 {
        Decimal::spec_one()
    } else {
        Decimal { atomics: ratio_atomics(bond, issued) as u128 }
    }
}

#[derive(Clone, Copy, Debug, PartialEq, Eq, Structural)]
pub struct PoolInfo {
    pub exchange_rate: Decimal,
    /// Principal currently delegated.
    pub total_bond_amount: u128,
    /// Derivative that still claims bonded principal.
    pub total_issued: u128,
}

/// The facts on a rate that the arithmetic of the pool needs.
pub proof fn lemma_rate_facts(bond: int, issued: int)
    requires
        0 <= bond <= MAX_AMOUNT,
        0 <= issued <= MAX_AMOUNT,
    ensures
        rate_of(bond, issued).atomics > 0,
        rate_of(bond, issued).atomics <= bond * DECIMAL_FRACTIONAL || bond == 0 || issued == 0,
        rate_of(bond, issued).atomics * issued <= bond * DECIMAL_FRACTIONAL || bond == 0
            || issued == 0,
        rate_of(bond, issued).atomics <= u128::MAX,
{
    if bond != 0 && issued != 0 {
        let x = bond * DECIMAL_FRACTIONAL;
        lemma_div_bounds(x, issued);
        lemma_mul_le(bond, DECIMAL_FRACTIONAL as int, MAX_AMOUNT as int, DECIMAL_FRACTIONAL as int);
        lemma_mul_le(1, DECIMAL_FRACTIONAL as int, bond, DECIMAL_FRACTIONAL as int);
        // x >= DECIMAL_FRACTIONAL >= issued, so the quotient is at least one
        assert(x / issued >= 1) by {
            vstd::arithmetic::div_mod::lemma_div_is_ordered(issued, x, issued);
            vstd::arithmetic::div_mod::lemma_div_by_multiple(1, issued);
        }
        assert(x / issued <= x) by {
            vstd::arithmetic::div_mod::lemma_div_is_ordered_by_denominator(x, 1, issued);
        }
    }
}

/// Burning `d <= issued` at the pool's rate keeps the product in range and
/// takes out no more principal than the pool holds.
pub proof fn lemma_burn_bounds(bond: int, issued: int, d: int)
    requires
        0 <= bond <= MAX_AMOUNT,
        0 <= issued <= MAX_AMOUNT,
        0 <= d <= issued,
    ensures
        d * rate_of(bond, issued).atomics <= MAX_AMOUNT * DECIMAL_FRACTIONAL,
        bond > 0 && issued > 0 ==> mul_floor(d, rate_of(bond, issued)) <= bond,
{
    let r = rate_of(bond, issued).atomics as int;
    lemma_rate_facts(bond, issued);
    if bond == 0 || issued == 0 {
        lemma_mul_le(d, r, MAX_AMOUNT as int, DECIMAL_FRACTIONAL as int);
    } else {
        lemma_mul_le(d, r, issued, r);
        lemma_mul_le(bond, DECIMAL_FRACTIONAL as int, MAX_AMOUNT as int, DECIMAL_FRACTIONAL as int);
        assert(d * r <= bond * DECIMAL_FRACTIONAL);
        vstd::arithmetic::div_mod::lemma_div_is_ordered(
            d * r,
            bond * DECIMAL_FRACTIONAL,
            DECIMAL_FRACTIONAL as int,
        );
        vstd::arithmetic::div_mod::lemma_div_by_multiple(bond, DECIMAL_FRACTIONAL as int);
    }
}

impl PoolInfo {
    /// Totals within bounds, and the stored rate is the rate of the totals.
    pub open spec fn wf(&self) -> bool {
        &&& self.total_bond_amount <= MAX_AMOUNT
        &&& self.total_issued <= MAX_AMOUNT
        &&& self.exchange_rate == rate_of(
            self.total_bond_amount as int,
            self.total_issued as int,
        )
    }

    /// Whether the totals are within bounds and the stored rate is theirs.
    pub fn is_wf(&self) -> (r: bool)
        ensures
            r == self.wf(),
    {
        if self.total_bond_amount > MAX_AMOUNT || self.total_issued > MAX_AMOUNT {
            return false;
        }
        let mut p = *self;
        p.update_exchange_rate();
        p.exchange_rate == self.exchange_rate
    }

    /// An empty pool at rate 1.0.
    pub fn new() -> (r: PoolInfo)
        ensures
            r.wf(),
            r.total_bond_amount == 0,
            r.total_issued == 0,
            r.exchange_rate == Decimal::spec_one(),
    {
        PoolInfo { exchange_rate: Decimal::one(), total_bond_amount: 0, total_issued: 0 }
    }

    /// A pool holding the given totals, at their rate.
    pub fn with_totals(total_bond_amount: u128, total_issued: u128) -> (r: Result<
        PoolInfo,
        HubError,
    >)
        ensures
            total_bond_amount <= MAX_AMOUNT && total_issued <= MAX_AMOUNT ==> r == Ok::<
                PoolInfo,
                HubError,
            >(
                PoolInfo {
                    exchange_rate: rate_of(total_bond_amount as int, total_issued as int),
                    total_bond_amount,
                    total_issued,
                },
            ),
            !(total_bond_amount <= MAX_AMOUNT && total_issued <= MAX_AMOUNT) ==> r == Err::<
                PoolInfo,
                HubError,
            >(HubError::Overflow),
            r matches Ok(p) ==> p.wf(),
    {
        if total_bond_amount > MAX_AMOUNT || total_issued > MAX_AMOUNT {
            return Err(HubError::Overflow);
        }
        let mut p = PoolInfo { exchange_rate: Decimal::one(), total_bond_amount, total_issued };
        p.update_exchange_rate();
        Ok(p)
    }

    /// Recomputes the rate from the totals.
    pub fn update_exchange_rate(&mut self)
        requires
            old(self).total_bond_amount <= MAX_AMOUNT,
            old(self).total_issued <= MAX_AMOUNT,
        ensures
            final(self).wf(),
            final(self).total_bond_amount == old(self).total_bond_amount,
            final(self).total_issued == old(self).total_issued,
    {
        proof {
            lemma_rate_facts(self.total_bond_amount as int, self.total_issued as int);
            lemma_mul_le(
                self.total_bond_amount as int,
                DECIMAL_FRACTIONAL as int,
                MAX_AMOUNT as int,
                DECIMAL_FRACTIONAL as int,
            );
        }
        if self.total_bond_amount == 0 || self.total_issued == 0 {
            self.exchange_rate = Decimal::one();
        } else {
            self.exchange_rate = Decimal::from_ratio(self.total_bond_amount, self.total_issued);
        }
    }

    /// Deposits `principal` and issues `principal / rate` of derivative, which
    /// is returned. At rate 1.0 (an empty pool among others) that is `principal`.
    pub fn mint(&mut self, principal: u128) -> (r: Result<u128, HubError>)
        requires
            old(self).wf(),
        ensures
            final(self).wf(),
            principal == 0 ==> r == Err::<u128, HubError>(HubError::ZeroAmount),
            principal > 0 && mint_overflows(*old(self), principal as int) ==> r == Err::<
                u128,
                HubError,
            >(HubError::Overflow),
            principal > 0 && !mint_overflows(*old(self), principal as int) ==> {
                &&& r == Ok::<u128, HubError>(div_floor(principal as int, old(self).exchange_rate) as u128)
                &&& final(self).total_bond_amount == old(self).total_bond_amount + principal
                &&& final(self).total_issued == old(self).total_issued + div_floor(
                    principal as int,
                    old(self).exchange_rate,
                )
            },
            r matches Ok(m) ==> m == div_floor(principal as int, old(self).exchange_rate)
                && final(self).total_issued == old(self).total_issued + m
                && final(self).total_bond_amount == old(self).total_bond_amount + principal,
            r is Err ==> *final(self) == *old(self),
    {
        if principal == 0 {
            return Err(HubError::ZeroAmount);
        }
        if principal > MAX_AMOUNT - self.total_bond_amount {
            return Err(HubError::Overflow);
        }
        proof {
            lemma_rate_facts(self.total_bond_amount as int, self.total_issued as int);
            lemma_mul_le(
                principal as int,
                DECIMAL_FRACTIONAL as int,
                MAX_AMOUNT as int,
                DECIMAL_FRACTIONAL as int,
            );
        }
        let minted = div_uint(principal, self.exchange_rate);
        if minted > MAX_AMOUNT - self.total_issued {
            return Err(HubError::Overflow);
        }
        self.total_bond_amount = self.total_bond_amount + principal;
        self.total_issued = self.total_issued + minted;
        self.update_exchange_rate();
        Ok(minted)
    }

    /// Takes `derivative` out of the pool with the principal it stands for at
    /// the current rate, which is returned. A zero amount is rejected.
    pub fn burn(&mut self, derivative: u128) -> (r: Result<u128, HubError>)
        requires
            old(self).wf(),
        ensures
            final(self).wf(),
            derivative == 0 ==> r == Err::<u128, HubError>(HubError::ZeroAmount),
            derivative > 0 && burn_fails(*old(self), derivative as int) ==> r == Err::<u128, HubError>(
                HubError::InsufficientPool,
            ),
            derivative > 0 && !burn_fails(*old(self), derivative as int) ==> {
                &&& r == Ok::<u128, HubError>(
                    mul_floor(derivative as int, old(self).exchange_rate) as u128,
                )
                &&& final(self).total_bond_amount == old(self).total_bond_amount - mul_floor(
                    derivative as int,
                    old(self).exchange_rate,
                )
                &&& final(self).total_issued == old(self).total_issued - derivative
            },
            r matches Ok(p) ==> p == mul_floor(derivative as int, old(self).exchange_rate)
                && final(self).total_bond_amount == old(self).total_bond_amount - p
                && final(self).total_issued == old(self).total_issued - derivative,
            r is Err ==> *final(self) == *old(self),
    {
        if derivative == 0 {
            return Err(HubError::ZeroAmount);
        }
        if derivative > self.total_issued {
            return Err(HubError::InsufficientPool);
        }
        proof {
            lemma_burn_bounds(
                self.total_bond_amount as int,
                self.total_issued as int,
                derivative as int,
            );
            lemma_mul_le(MAX_AMOUNT as int, DECIMAL_FRACTIONAL as int, MAX_AMOUNT as int, DECIMAL_FRACTIONAL as int);
        }
        let principal = mul_uint(derivative, self.exchange_rate);
        if principal > self.total_bond_amount {
            return Err(HubError::InsufficientPool);
        }
        self.total_bond_amount = self.total_bond_amount - principal;
        self.total_issued = self.total_issued - derivative;
        self.update_exchange_rate();
        Ok(principal)
    }
}

impl Default for PoolInfo {
    /// An empty pool at rate 1.0.
    fn default() -> (r: PoolInfo)
        ensures
            r.wf(),
            r.total_bond_amount == 0,
            r.total_issued == 0,
            r.exchange_rate == Decimal::spec_one(),
    {
        PoolInfo::new()
    }
}

/// Whether minting `principal` would take a total past `MAX_AMOUNT`.
pub open spec fn mint_overflows(p: PoolInfo, principal: int) -> bool {
    p.total_bond_amount + principal > MAX_AMOUNT || p.total_issued + div_floor(
        principal,
        p.exchange_rate,
    ) > MAX_AMOUNT
}

/// Whether burning `derivative` would take more than the pool holds.
pub open spec fn burn_fails(p: PoolInfo, derivative: int) -> bool {
    derivative > p.total_issued || mul_floor(derivative, p.exchange_rate) > p.total_bond_amount
}

/// The rate times the issued derivative is the bonded principal, up to the
/// rounding of the rate's last digit: after any sequence of mints and burns
/// (each keeps `wf`), `rate * issued <= bond < (rate + 1 atomic) * issued`.
pub proof fn lemma_rate_conservation(p: PoolInfo)
    requires
        p.wf(),
        p.total_bond_amount > 0,
        p.total_issued > 0,
    ensures
        p.exchange_rate.atomics * p.total_issued <= p.total_bond_amount * DECIMAL_FRACTIONAL,
        p.total_bond_amount * DECIMAL_FRACTIONAL < (p.exchange_rate.atomics + 1)
            * p.total_issued,
{
    lemma_div_bounds(p.total_bond_amount * DECIMAL_FRACTIONAL, p.total_issued as int);
}

/// The first mint into an empty pool issues exactly the principal, and the
/// pool's rate is 1.0 afterwards.
pub proof fn lemma_bootstrap(p: PoolInfo, principal: int)
    requires
        p.wf(),
        p.total_bond_amount == 0,
        p.total_issued == 0,
        0 < principal <= MAX_AMOUNT,
    ensures
        !mint_overflows(p, principal),
        div_floor(principal, p.exchange_rate) == principal,
        rate_of(principal, principal) == Decimal::spec_one(),
{
    lemma_one_is_neutral(principal as nat);
    vstd::arithmetic::div_mod::lemma_div_by_multiple(DECIMAL_FRACTIONAL as int, principal);
    assert(principal * DECIMAL_FRACTIONAL == DECIMAL_FRACTIONAL * principal) by (nonlinear_arith);
}

} // verus!
