//! The hub: the pool, the open batch, the closed-batch history and the claims
//! together, and the operations that move them in step.

use vstd::prelude::*;
use crate::allocator::{
    UndelegateOrder, allocated_to, orders_total, seq_total, spread_undelegate, validator_index,
};
use crate::decimal::{
    Decimal, DECIMAL_FRACTIONAL, MAX_AMOUNT, mul_floor, mul_uint, lemma_mul_le,
};
use crate::error::HubError;
use crate::ledger::{
    UnbondClaim, UnbondHistory, batch_total, claim_of, drain, drain_of, drained_by, finished_amount,
    finished_of, batch_sum, lemma_batch_total_zero, lemma_drain_shrinks, lemma_drain_sums, lemma_sum_term,
    record_claim,
};
use crate::pool::{PoolInfo, burn_fails, lemma_burn_bounds, rate_of};
use crate::slashing::{history_ok, history_wf, reconcile, reconcile_overflows, reconciled, walk_end};

verus! {

/// The hub's configuration.
#[derive(Clone, Copy, Debug, PartialEq, Eq, Structural)]
pub struct Parameters {
    /// Seconds after the last closure before a redemption closes the batch.
    pub epoch_period: u64,
    /// Seconds an undelegation takes to return.
    pub unbonding_period: u64,
    /// Share of a redemption kept by the pool while the rate is below the threshold.
    pub peg_recovery_fee: Decimal,
    /// Rate below which the peg recovery fee applies.
    pub er_threshold: Decimal,
}

/// The batch that collects redemptions now.
#[derive(Clone, Copy, Debug, PartialEq, Eq, Structural)]
pub struct CurrentBatch {
    pub id: u64,
    pub requested_with_fee: u128,
}

/// The state of one hub contract, threaded through every operation.
#[derive(Debug)]
pub struct Hub {
    pub params: Parameters,
    pub pool: PoolInfo,
    pub current_batch: CurrentBatch,
    /// Closed batches; batch `i` stands at position `i`.
    pub history: Vec<UnbondHistory>,
    pub claims: Vec<UnbondClaim>,
    /// Block time of the last closure (or of the start of the current epoch).
    pub last_unbonded_time: u64,
    /// Block time of the last global reward index update.
    pub last_index_modification: u64,
    /// The hub's free balance after the last payout.
    pub prev_hub_balance: u128,
    /// How many batches, from the oldest, have been released.
    pub released_batches: u64,
    /// Total delegation observed at the last slashing check.
    pub prev_delegations: u128,
    /// Principal bonded since the last slashing check.
    pub bonded_since_check: u128,
}

/// What an accepted redemption did.
#[derive(Debug)]
pub struct UnbondOutcome {
    /// The amount queued for the user, peg fee applied.
    pub amount_with_fee: u128,
    /// The batch that this redemption closed, if any.
    pub closed_batch: Option<u64>,
    /// Principal undelegated on closure (zero when nothing closed).
    pub undelegated: u128,
    /// Where the undelegation goes.
    pub orders: Vec<UndelegateOrder>,
}

/// The redemption that is queued for `amount` at `rate`: `amount * (1 - fee)`
/// while the rate is below the threshold, `amount` otherwise.
pub open spec fn peg_adjusted(amount: int, rate: Decimal, params: Parameters) -> int {
    if rate.atomics < params.er_threshold.atomics {
        mul_floor(
            amount,
            Decimal { atomics: (DECIMAL_FRACTIONAL - params.peg_recovery_fee.atomics) as u128 },
        )
    } else {
        amount
    }
}

/// Whether delegations grew by less than what was bonded since the last check.
pub open spec fn slashing_detected(observed: int, prev: int, bonded: int) -> bool {
    observed < prev + bonded
}

/// The pool after a slashing check: on a detected loss that leaves less
/// delegated than the pool counts, the bonded total drops to what is observed.
pub open spec fn pool_checked(p: PoolInfo, observed: int, prev: int, bonded: int) -> PoolInfo {
    if slashing_detected(observed, prev, bonded) && observed < p.total_bond_amount {
        PoolInfo {
            exchange_rate: rate_of(observed, p.total_issued as int),
            total_bond_amount: observed as u128,
            total_issued: p.total_issued,
        }
    } else {
        p
    }
}

/// Whether the time since the last closure exceeds the epoch (strictly).
pub open spec fn epoch_elapsed(last: int, now: int, epoch_period: int) -> bool {
    now - last > epoch_period
}

/// The pool after burning `d` (when that does not fail).
pub open spec fn pool_burned(p: PoolInfo, d: int) -> PoolInfo {
    PoolInfo {
        exchange_rate: rate_of(
            p.total_bond_amount - mul_floor(d, p.exchange_rate),
            p.total_issued - d,
        ),
        total_bond_amount: (p.total_bond_amount - mul_floor(d, p.exchange_rate)) as u128,
        total_issued: (p.total_issued - d) as u128,
    }
}

/// Free balance that arrived since the last payout.
pub open spec fn arrived(prev: int, balance: int) -> int {
    if balance >= prev {
        balance - prev
    } else {
        0
    }
}

fn slashing_checked(p: PoolInfo, observed: u128, prev: u128, bonded: u128) -> (r: PoolInfo)
    requires
        p.wf(),
    ensures
        r == pool_checked(p, observed as int, prev as int, bonded as int),
        r.wf(),
{
    let loss = observed < prev || observed - prev < bonded;
    if loss && observed < p.total_bond_amount {
        let mut q = p;
        q.total_bond_amount = observed;
        q.update_exchange_rate();
        q
    } else {
        p
    }
}

impl Hub {
    /// What batch `b` holds: its amount when closed, the open batch's
    /// request, nothing for a batch not opened yet.
    pub open spec fn batch_amount(&self, b: u64) -> int {
        if b < self.history.len() {
            self.history[b as int].amount as int
        } else if b == self.history.len() {
            self.current_batch.requested_with_fee as int
        } else {
            0
        }
    }

    pub open spec fn wf(&self) -> bool {
        &&& self.params.peg_recovery_fee.atomics <= DECIMAL_FRACTIONAL
        &&& self.pool.wf()
        &&& self.current_batch.requested_with_fee <= self.pool.total_issued
        &&& self.current_batch.id == self.history.len()
        &&& history_wf(self.history@, self.released_batches as int)
        &&& self.bonded_since_check <= MAX_AMOUNT
        &&& forall|b: u64|
            b < self.released_batches ==> #[trigger] batch_total(self.claims@, b)
                <= self.history[b as int].amount
        &&& forall|b: u64|
            self.released_batches <= b ==> #[trigger] batch_total(self.claims@, b)
                == self.batch_amount(b)
    }

    /// Whether a redemption at `now` closes the open batch: the epoch has
    /// elapsed and the batch holds something.
    pub open spec fn closes_at(&self, now: int) -> bool {
        epoch_elapsed(self.last_unbonded_time as int, now, self.params.epoch_period as int)
            && self.current_batch.requested_with_fee > 0
    }

    /// Derivative in users' hands: issued, less what waits in the open batch.
    pub open spec fn supply(&self) -> int {
        self.pool.total_issued - self.current_batch.requested_with_fee
    }

    /// Whether the hub is well formed; a hub that did not come from this
    /// library's operations (one read back from storage) is tested with it.
    pub fn check_wf(&self) -> (r: bool)
        ensures
            r == self.wf(),
    {
        if self.params.peg_recovery_fee.atomics > DECIMAL_FRACTIONAL || !self.pool.is_wf()
            || self.current_batch.requested_with_fee > self.pool.total_issued
            || self.bonded_since_check > MAX_AMOUNT {
            return false;
        }
        assert(usize::MAX <= u64::MAX);
        let n = self.history.len();
        if self.current_batch.id != n as u64 || !history_ok(&self.history, self.released_batches) {
            return false;
        }
        // no claim with an amount names a batch that is not open yet
        let mut i: usize = 0;
        while i < self.claims.len()
            invariant
                i <= self.claims.len(),
                n == self.history.len(),
                self.current_batch.id == n,
                history_wf(self.history@, self.released_batches as int),
                forall|k: int|
                    0 <= k < i ==> (#[trigger] self.claims@[k]).batch_id <= n
                        || self.claims@[k].amount == 0,
            decreases self.claims.len() - i,
        {
            let c = self.claims[i];
            if c.batch_id > n as u64 && c.amount > 0 {
                proof {
                    let b = c.batch_id;
                    lemma_sum_term(
                        self.claims@,
                        i as int,
                        |x: UnbondClaim| if x.batch_id == b { x.amount as int } else { 0 },
                    );
                    assert(self.batch_amount(b) == 0);
                    assert(batch_total(self.claims@, b) > 0);
                }
                return false;
            }
            i += 1;
        }
        // every opened batch against what it holds; the open one is `n`
        let mut b: usize = 0;
        while b <= n
            invariant_except_break
                b <= n,
            invariant
                n == self.history.len(),
                self.current_batch.id == n,
                history_wf(self.history@, self.released_batches as int),
                forall|k: int|
                    0 <= k < self.claims@.len() ==> (#[trigger] self.claims@[k]).batch_id <= n
                        || self.claims@[k].amount == 0,
                forall|k: u64|
                    k < b ==> (k < self.released_batches ==> #[trigger] batch_total(self.claims@, k)
                        <= self.history[k as int].amount) && (self.released_batches <= k
                        ==> batch_total(self.claims@, k) == self.batch_amount(k)),
            ensures
                forall|k: u64|
                    k <= n ==> (k < self.released_batches ==> #[trigger] batch_total(self.claims@, k)
                        <= self.history[k as int].amount) && (self.released_batches <= k
                        ==> batch_total(self.claims@, k) == self.batch_amount(k)),
            decreases n + 1 - b,
        {
            assert(usize::MAX <= u64::MAX);
            let ghost k = b as u64;
            assert(k as int == b as int);
            let total = match batch_sum(&self.claims, b as u64) {
                Some(t) => t,
                None => {
                    proof {
                        if self.wf() {
                            if k < self.released_batches {
                                assert(batch_total(self.claims@, k) <= self.history[k as int].amount);
                            } else {
                                assert(batch_total(self.claims@, k) == self.batch_amount(k));
                            }
                        }
                    }
                    return false;
                },
            };
            let held: u128 = if b < n {
                self.history[b].amount
            } else {
                self.current_batch.requested_with_fee
            };
            let ok = if (b as u64) < self.released_batches {
                total <= held
            } else {
                total == held
            };
            if !ok {
                proof {
                    if self.wf() {
                        if k < self.released_batches {
                            assert(batch_total(self.claims@, k) <= self.history[k as int].amount);
                        } else {
                            assert(batch_total(self.claims@, k) == self.batch_amount(k));
                        }
                    }
                }
                return false;
            }
            assert(k < self.released_batches ==> batch_total(self.claims@, k) <= self.history[k as int].amount);
            assert(self.released_batches <= k ==> batch_total(self.claims@, k) == self.batch_amount(k));
            if b == n {
                break;
            }
            b += 1;
        }
        proof {
            assert forall|k: u64| self.released_batches <= k implies #[trigger] batch_total(self.claims@, k)
                == self.batch_amount(k) by {
                if k > n {
                    assert forall|j: int| 0 <= j < self.claims@.len() && (#[trigger] self.claims@[j]).batch_id == k implies self.claims@[j].amount == 0 by {
                    }
                    lemma_batch_total_zero(self.claims@, k);
                }
            }
            assert forall|k: u64| k < self.released_batches implies #[trigger] batch_total(self.claims@, k)
                <= self.history[k as int].amount by {
                assert(k <= n);
            }
        }
        true
    }

    /// A hub with an empty pool, batch 0 open and the epoch starting at `now`.
    pub fn new(params: Parameters, now: u64) -> (r: Result<Hub, HubError>)
        ensures
            params.peg_recovery_fee.atomics > DECIMAL_FRACTIONAL ==> r is Err && r
                == Err::<Hub, HubError>(HubError::InvalidParameters),
            params.peg_recovery_fee.atomics <= DECIMAL_FRACTIONAL ==> r is Ok,
            r matches Ok(h) ==> {
                &&& h.wf()
                &&& h.params == params
                &&& h.pool.total_bond_amount == 0
                &&& h.pool.total_issued == 0
                &&& h.pool.exchange_rate == Decimal::spec_one()
                &&& h.current_batch == CurrentBatch { id: 0, requested_with_fee: 0 }
                &&& h.history@.len() == 0
                &&& h.claims@.len() == 0
                &&& h.last_unbonded_time == now
                &&& h.last_index_modification == now
                &&& h.prev_hub_balance == 0
                &&& h.prev_delegations == 0
                &&& h.bonded_since_check == 0
                &&& h.released_batches == 0
            },
    {
        if params.peg_recovery_fee.atomics > DECIMAL_FRACTIONAL {
            return Err(HubError::InvalidParameters);
        }
        let h = Hub {
            params,
            pool: PoolInfo::new(),
            current_batch: CurrentBatch { id: 0, requested_with_fee: 0 },
            history: Vec::new(),
            claims: Vec::new(),
            last_unbonded_time: now,
            last_index_modification: now,
            prev_hub_balance: 0,
            released_batches: 0,
            prev_delegations: 0,
            bonded_since_check: 0,
        };
        assert forall|b: u64| 0 <= b implies #[trigger] batch_total(h.claims@, b) == h.batch_amount(b) by {
        }
        Ok(h)
    }

    /// Replaces the parameters that are given; the peg recovery fee may not
    /// exceed 1.0.
    pub fn update_params(
        &mut self,
        epoch_period: Option<u64>,
        unbonding_period: Option<u64>,
        peg_recovery_fee: Option<Decimal>,
        er_threshold: Option<Decimal>,
    ) -> (r: Result<(), HubError>)
        requires
            old(self).wf(),
        ensures
            final(self).wf(),
            (peg_recovery_fee matches Some(f) && f.atomics > DECIMAL_FRACTIONAL) ==> r == Err::<
                (),
                HubError,
            >(HubError::InvalidParameters) && final(self).params == old(self).params,
            !(peg_recovery_fee matches Some(f) && f.atomics > DECIMAL_FRACTIONAL) ==> r is Ok
                && final(self).params == (Parameters {
                epoch_period: match epoch_period {
                    Some(v) => v,
                    None => old(self).params.epoch_period,
                },
                unbonding_period: match unbonding_period {
                    Some(v) => v,
                    None => old(self).params.unbonding_period,
                },
                peg_recovery_fee: match peg_recovery_fee {
                    Some(v) => v,
                    None => old(self).params.peg_recovery_fee,
                },
                er_threshold: match er_threshold {
                    Some(v) => v,
                    None => old(self).params.er_threshold,
                },
            }),
            final(self).pool == old(self).pool,
            final(self).current_batch == old(self).current_batch,
            final(self).history@ == old(self).history@,
            final(self).claims@ == old(self).claims@,
            final(self).last_unbonded_time == old(self).last_unbonded_time,
            final(self).prev_hub_balance == old(self).prev_hub_balance,
            final(self).released_batches == old(self).released_batches,
            final(self).prev_delegations == old(self).prev_delegations,
            final(self).bonded_since_check == old(self).bonded_since_check,
    {
        let fee = match peg_recovery_fee {
            Some(f) => {
                if f.atomics > DECIMAL_FRACTIONAL {
                    return Err(HubError::InvalidParameters);
                }
                f
            },
            None => self.params.peg_recovery_fee,
        };
        let ghost prev = *self;
        self.params = Parameters {
            epoch_period: match epoch_period {
                Some(v) => v,
                None => self.params.epoch_period,
            },
            unbonding_period: match unbonding_period {
                Some(v) => v,
                None => self.params.unbonding_period,
            },
            peg_recovery_fee: fee,
            er_threshold: match er_threshold {
                Some(v) => v,
                None => self.params.er_threshold,
            },
        };
        proof {
            assert forall|b: u64| self.released_batches <= b implies #[trigger] batch_total(self.claims@, b)
                == self.batch_amount(b) by {
                assert(batch_total(prev.claims@, b) == prev.batch_amount(b));
            }
            assert forall|b: u64| b < self.released_batches implies #[trigger] batch_total(self.claims@, b)
                <= self.history[b as int].amount by {
                assert(batch_total(prev.claims@, b) <= prev.history[b as int].amount);
            }
        }
        Ok(())
    }

    /// Records that the global reward index was brought up to date at `now`.
    pub fn update_global(&mut self, now: u64)
        requires
            old(self).wf(),
        ensures
            final(self).wf(),
            final(self).last_index_modification == now,
            final(self).params == old(self).params,
            final(self).pool == old(self).pool,
            final(self).current_batch == old(self).current_batch,
            final(self).history@ == old(self).history@,
            final(self).claims@ == old(self).claims@,
            final(self).last_unbonded_time == old(self).last_unbonded_time,
            final(self).prev_hub_balance == old(self).prev_hub_balance,
            final(self).released_batches == old(self).released_batches,
            final(self).prev_delegations == old(self).prev_delegations,
            final(self).bonded_since_check == old(self).bonded_since_check,
    {
        self.last_index_modification = now;
    }

    /// Compares the observed total delegation with what the hub expects; on
    /// a loss the bonded total drops to what is observed. Either way the
    /// observation becomes the new reference.
    pub fn check_slashing(&mut self, observed_delegations: u128)
        requires
            old(self).wf(),
        ensures
            final(self).wf(),
            final(self).pool == pool_checked(
                old(self).pool,
                observed_delegations as int,
                old(self).prev_delegations as int,
                old(self).bonded_since_check as int,
            ),
            final(self).prev_delegations == observed_delegations,
            final(self).bonded_since_check == 0,
            final(self).params == old(self).params,
            final(self).current_batch == old(self).current_batch,
            final(self).history@ == old(self).history@,
            final(self).claims@ == old(self).claims@,
            final(self).last_unbonded_time == old(self).last_unbonded_time,
            final(self).prev_hub_balance == old(self).prev_hub_balance,
            final(self).released_batches == old(self).released_batches,
    {
        self.pool = slashing_checked(
            self.pool,
            observed_delegations,
            self.prev_delegations,
            self.bonded_since_check,
        );
        self.prev_delegations = observed_delegations;
        self.bonded_since_check = 0;
    }

    /// A deposit of `principal` to be delegated to `validator`: after a
    /// slashing check, mints derivative at the pool's rate and returns it with
    /// the validator's position in the whitelist.
    pub fn bond(
        &mut self,
        principal: u128,
        validator: &String,
        whitelist: &Vec<String>,
        observed_delegations: u128,
    ) -> (r: Result<(u128, usize), HubError>)
        requires
            old(self).wf(),
        ensures
            final(self).wf(),
            ({
                let checked = pool_checked(
                    old(self).pool,
                    observed_delegations as int,
                    old(self).prev_delegations as int,
                    old(self).bonded_since_check as int,
                );
                let listed = exists|i: int|
                    0 <= i < whitelist.len() && whitelist[i]@ == validator@;
                &&& !listed ==> r == Err::<(u128, usize), HubError>(HubError::UnknownValidator)
                &&& listed && principal == 0 ==> r == Err::<(u128, usize), HubError>(
                    HubError::ZeroAmount,
                )
                &&& listed && principal > 0 && crate::pool::mint_overflows(
                    checked,
                    principal as int,
                ) ==> r == Err::<(u128, usize), HubError>(HubError::Overflow)
                &&& listed && principal > 0 && !crate::pool::mint_overflows(
                    checked,
                    principal as int,
                ) ==> r is Ok
                &&& r matches Ok((minted, idx)) ==> {
                    &&& minted == crate::decimal::div_floor(
                        principal as int,
                        checked.exchange_rate,
                    )
                    &&& idx < whitelist.len() && whitelist[idx as int]@ == validator@
                    &&& final(self).pool.total_bond_amount == checked.total_bond_amount
                        + principal
                    &&& final(self).pool.total_issued == checked.total_issued + minted
                    &&& final(self).prev_delegations == observed_delegations
                    &&& final(self).bonded_since_check == principal
                }
            }),
            r is Err ==> final(self).pool == old(self).pool && final(self).prev_delegations
                == old(self).prev_delegations && final(self).bonded_since_check == old(self).bonded_since_check,
            final(self).params == old(self).params,
            final(self).current_batch == old(self).current_batch,
            final(self).history@ == old(self).history@,
            final(self).claims@ == old(self).claims@,
            final(self).last_unbonded_time == old(self).last_unbonded_time,
            final(self).prev_hub_balance == old(self).prev_hub_balance,
            final(self).released_batches == old(self).released_batches,
    {
        let idx = match validator_index(whitelist, validator) {
            Ok(i) => i,
            Err(e) => {
                return Err(e);
            },
        };
        let mut pool = slashing_checked(
            self.pool,
            observed_delegations,
            self.prev_delegations,
            self.bonded_since_check,
        );
        let minted = match pool.mint(principal) {
            Ok(m) => m,
            Err(e) => {
                return Err(e);
            },
        };
        let ghost prev = *self;
        self.pool = pool;
        self.prev_delegations = observed_delegations;
        self.bonded_since_check = principal;
        proof {
            assert forall|b: u64| self.released_batches <= b implies #[trigger] batch_total(self.claims@, b)
                == self.batch_amount(b) by {
                assert(batch_total(prev.claims@, b) == prev.batch_amount(b));
            }
            assert forall|b: u64| b < self.released_batches implies #[trigger] batch_total(self.claims@, b)
                <= self.history[b as int].amount by {
                assert(batch_total(prev.claims@, b) <= prev.history[b as int].amount);
            }
        }
        Ok((minted, idx))
    }

    /// A redemption of `amount` derivative by `user` at block time `now`.
    ///
    /// After a slashing check against `observed_delegations`, the open batch
    /// closes if the epoch has elapsed since the last closure (strictly) and
    /// the batch holds something: its request is burnt from the pool at the
    /// current rate, the principal is spread over the validators whose
    /// delegations are `delegations` (draws seeded by `seed`), and the batch
    /// goes to the history unreleased at that rate. An elapsed epoch over an
    /// empty batch only restarts the epoch. The redemption then joins the open
    /// batch, less the peg recovery fee while the rate is below the threshold;
    /// the fee stays in the pool. Nothing changes on an error.
    pub fn unbond(
        &mut self,
        user: u64,
        amount: u128,
        now: u64,
        observed_delegations: u128,
        delegations: &Vec<u128>,
        seed: u64,
    ) -> (r: Result<UnbondOutcome, HubError>)
        requires
            old(self).wf(),
        ensures
            final(self).wf(),
            final(self).params == old(self).params,
            final(self).released_batches == old(self).released_batches,
            final(self).prev_hub_balance == old(self).prev_hub_balance,
            ({
                let checked = pool_checked(
                    old(self).pool,
                    observed_delegations as int,
                    old(self).prev_delegations as int,
                    old(self).bonded_since_check as int,
                );
                let req = old(self).current_batch.requested_with_fee;
                let closing = old(self).closes_at(now as int);
                let undelegated = mul_floor(req as int, checked.exchange_rate);
                let after = if closing {
                    pool_burned(checked, req as int)
                } else {
                    checked
                };
                let fee_applied = peg_adjusted(amount as int, after.exchange_rate, old(self).params);
                let batch: u64 = if closing {
                    (old(self).current_batch.id + 1) as u64
                } else {
                    old(self).current_batch.id
                };
                let accepted = amount > 0 && amount <= old(self).supply();
                &&& amount == 0 ==> r == Err::<UnbondOutcome, HubError>(HubError::ZeroAmount)
                &&& amount > 0 && amount > old(self).supply() ==> r == Err::<
                    UnbondOutcome,
                    HubError,
                >(HubError::InsufficientPool)
                &&& accepted && closing && burn_fails(checked, req as int) ==> r == Err::<
                    UnbondOutcome,
                    HubError,
                >(HubError::InsufficientPool)
                &&& accepted && closing && !burn_fails(checked, req as int) && seq_total(
                    delegations@,
                ) < undelegated ==> r == Err::<UnbondOutcome, HubError>(
                    HubError::InsufficientDelegations,
                )
                &&& accepted && (!closing || (!burn_fails(checked, req as int) && seq_total(
                    delegations@,
                ) >= undelegated)) ==> r is Ok
                &&& r matches Ok(out) ==> {
                    &&& out.amount_with_fee == fee_applied
                    &&& final(self).pool.total_bond_amount == after.total_bond_amount
                    &&& final(self).pool.total_issued == after.total_issued - (amount
                        - fee_applied)
                    &&& final(self).current_batch == CurrentBatch {
                        id: batch,
                        requested_with_fee: ((if closing {
                            0
                        } else {
                            req as int
                        }) + fee_applied) as u128,
                    }
                    &&& final(self).history@ == if closing {
                        old(self).history@.push(
                            UnbondHistory {
                                time: now,
                                amount: req,
                                withdraw_rate: checked.exchange_rate,
                                released: false,
                            },
                        )
                    } else {
                        old(self).history@
                    }
                    &&& forall|b: u64, u: u64|
                        #[trigger] claim_of(final(self).claims@, b, u) == claim_of(
                            old(self).claims@,
                            b,
                            u,
                        ) + if b == batch && u == user {
                            fee_applied
                        } else {
                            0
                        }
                    &&& final(self).last_unbonded_time == if epoch_elapsed(
                        old(self).last_unbonded_time as int,
                        now as int,
                        old(self).params.epoch_period as int,
                    ) {
                        now
                    } else {
                        old(self).last_unbonded_time
                    }
                    &&& final(self).prev_delegations == if closing {
                        if observed_delegations >= undelegated {
                            (observed_delegations - undelegated) as u128
                        } else {
                            0
                        }
                    } else {
                        observed_delegations
                    }
                    &&& final(self).bonded_since_check == 0
                    &&& out.closed_batch == if closing {
                        Some(old(self).current_batch.id)
                    } else {
                        None
                    }
                    &&& out.undelegated == if closing {
                        undelegated
                    } else {
                        0
                    }
                    &&& orders_total(out.orders@) == out.undelegated
                    &&& forall|v: int|
                        0 <= v < delegations.len() ==> #[trigger] allocated_to(out.orders@, v)
                            <= delegations[v]
                    &&& forall|k: int|
                        0 <= k < out.orders.len() ==> #[trigger] out.orders[k].validator
                            < delegations.len() && out.orders[k].amount > 0
                }
                &&& r is Err ==> final(self).pool == old(self).pool && final(self).current_batch
                    == old(self).current_batch && final(self).history@ == old(self).history@
                    && final(self).claims@ == old(self).claims@ && final(self).last_unbonded_time
                    == old(self).last_unbonded_time && final(self).prev_delegations == old(self).prev_delegations && final(self).bonded_since_check == old(self).bonded_since_check
            }),
    {
        if amount == 0 {
            return Err(HubError::ZeroAmount);
        }
        if amount > self.pool.total_issued - self.current_batch.requested_with_fee {
            return Err(HubError::InsufficientPool);
        }
        let mut pool = slashing_checked(
            self.pool,
            observed_delegations,
            self.prev_delegations,
            self.bonded_since_check,
        );
        let req = self.current_batch.requested_with_fee;
        let elapsed = now > self.last_unbonded_time && now - self.last_unbonded_time
            > self.params.epoch_period;
        let closing = elapsed && req > 0;
        let close_rate = pool.exchange_rate;
        let mut orders: Vec<UndelegateOrder> = Vec::new();
        let mut undelegated: u128 = 0;
        if closing {
            undelegated = match pool.burn(req) {
                Ok(p) => p,
                Err(e) => {
                    return Err(e);
                },
            };
            orders = match spread_undelegate(undelegated, delegations, seed) {
                Ok(o) => o,
                Err(e) => {
                    return Err(e);
                },
            };
        }
        let fee_applied = if pool.exchange_rate.lt(&self.params.er_threshold) {
            let keep = Decimal { atomics: DECIMAL_FRACTIONAL - self.params.peg_recovery_fee.atomics };
            proof {
                lemma_mul_le(amount as int, keep.atomics as int, MAX_AMOUNT as int, DECIMAL_FRACTIONAL as int);
                lemma_mul_le(amount as int, keep.atomics as int, amount as int, DECIMAL_FRACTIONAL as int);
                vstd::arithmetic::div_mod::lemma_div_is_ordered(
                    amount * keep.atomics,
                    amount * DECIMAL_FRACTIONAL,
                    DECIMAL_FRACTIONAL as int,
                );
                vstd::arithmetic::div_mod::lemma_div_by_multiple(amount as int, DECIMAL_FRACTIONAL as int);
            }
            mul_uint(amount, keep)
        } else {
            amount
        };
        assert(fee_applied <= amount);
        let ghost o = *old(self);
        let old_id = self.current_batch.id;
        if closing {
            proof {
                lemma_burn_bounds(
                    o.pool.total_bond_amount as int,
                    o.pool.total_issued as int,
                    req as int,
                );
            }
            self.history.push(
                UnbondHistory { time: now, amount: req, withdraw_rate: close_rate, released: false },
            );
            assert(self.history.len() == old_id + 1);
            assert(usize::MAX <= u64::MAX);
            self.current_batch = CurrentBatch { id: old_id + 1, requested_with_fee: 0 };
            self.prev_delegations = if observed_delegations >= undelegated {
                observed_delegations - undelegated
            } else {
                0
            };
        } else {
            self.prev_delegations = observed_delegations;
        }
        if elapsed {
            self.last_unbonded_time = now;
        }
        let batch = self.current_batch.id;
        proof {
            assert forall|i: int|
                0 <= i < self.claims.len() && #[trigger] self.claims[i].batch_id == batch
                    && self.claims[i].user == user implies self.claims[i].amount + fee_applied
                    <= u128::MAX by {
                lemma_sum_term(
                    self.claims@,
                    i,
                    |c: UnbondClaim| if c.batch_id == batch { c.amount as int } else { 0 },
                );
                assert(batch_total(o.claims@, batch) == o.batch_amount(batch));
            }
        }
        record_claim(&mut self.claims, batch, user, fee_applied);
        self.current_batch.requested_with_fee = self.current_batch.requested_with_fee + fee_applied;
        pool.total_issued = pool.total_issued - (amount - fee_applied);
        pool.update_exchange_rate();
        self.pool = pool;
        self.bonded_since_check = 0;
        proof {
            assert forall|b: u64| self.released_batches <= b implies #[trigger] batch_total(self.claims@, b)
                == self.batch_amount(b) by {
                assert(batch_total(o.claims@, b) == o.batch_amount(b));
            }
            assert forall|b: u64| b < self.released_batches implies #[trigger] batch_total(self.claims@, b)
                <= self.history[b as int].amount by {
                assert(batch_total(o.claims@, b) <= o.history[b as int].amount);
                assert(self.history[b as int] == o.history[b as int]);
            }
            assert forall|i: int| 0 <= i < self.history@.len() implies {
                &&& (#[trigger] self.history@[i]).released == (i < self.released_batches)
                &&& 0 < self.history@[i].amount <= MAX_AMOUNT
                &&& self.history@[i].amount * self.history@[i].withdraw_rate.atomics <= 2 * MAX_AMOUNT * DECIMAL_FRACTIONAL
                &&& !self.history@[i].released ==> self.history@[i].amount * self.history@[i].withdraw_rate.atomics <= MAX_AMOUNT
                    * DECIMAL_FRACTIONAL
            } by {
                if i < o.history@.len() {
                    assert(self.history@[i] == o.history@[i]);
                }
            }
        }
        Ok(
            UnbondOutcome {
                amount_with_fee: fee_applied,
                closed_batch: if closing {
                    Some(old_id)
                } else {
                    None
                },
                undelegated,
                orders,
            },
        )
    }

    /// The history after reconciling at `now` against `hub_balance`, the new
    /// count of released batches and what `user` could then withdraw.
    fn preview_withdraw(&self, user: u64, now: u64, hub_balance: u128) -> (r: Result<
        (Vec<UnbondHistory>, u64, u128),
        HubError,
    >)
        requires
            self.wf(),
        ensures
            ({
                let end = walk_end(
                    self.history@,
                    self.released_batches as int,
                    now as int,
                    self.params.unbonding_period as int,
                );
                let actual = arrived(self.prev_hub_balance as int, hub_balance as int);
                let h2 = reconciled(self.history@, self.released_batches as int, end, actual);
                let fin = finished_of(self.claims@, h2, user);
                &&& reconcile_overflows(self.history@, self.released_batches as int, end, actual)
                    ==> r == Err::<(Vec<UnbondHistory>, u64, u128), HubError>(HubError::Overflow)
                &&& !reconcile_overflows(self.history@, self.released_batches as int, end, actual)
                    && fin > u128::MAX ==> r == Err::<(Vec<UnbondHistory>, u64, u128), HubError>(
                    HubError::Overflow,
                )
                &&& !reconcile_overflows(self.history@, self.released_batches as int, end, actual)
                    && fin <= u128::MAX ==> r is Ok
                &&& r matches Ok((h, e, f)) ==> h@ == h2 && e == end && f == fin && history_wf(
                    h2,
                    end,
                ) && self.released_batches <= end
            }),
    {
        let mut h: Vec<UnbondHistory> = Vec::new();
        let mut i: usize = 0;
        while i < self.history.len()
            invariant
                i <= self.history.len(),
                h@ == self.history@.subrange(0, i as int),
            decreases self.history.len() - i,
        {
            h.push(self.history[i]);
            i += 1;
        }
        assert(h@ == self.history@);
        let actual = if hub_balance >= self.prev_hub_balance {
            hub_balance - self.prev_hub_balance
        } else {
            0
        };
        let end = match reconcile(
            &mut h,
            self.released_batches,
            now,
            self.params.unbonding_period,
            actual,
        ) {
            Ok(e) => e,
            Err(e) => {
                return Err(e);
            },
        };
        proof {
            assert(usize::MAX <= u64::MAX);
            let h2 = h@;
            assert forall|i: int|
                0 <= i < self.claims.len() && #[trigger] drained_by(h2, user, self.claims@[i]) implies self.claims@[i].amount
                    * h2[self.claims@[i].batch_id as int].withdraw_rate.atomics <= u128::MAX by {
                let c = self.claims@[i];
                let b = c.batch_id;
                lemma_sum_term(
                    self.claims@,
                    i,
                    |x: UnbondClaim| if x.batch_id == b { x.amount as int } else { 0 },
                );
                if b < self.released_batches {
                    assert(batch_total(self.claims@, b) <= self.history[b as int].amount);
                } else {
                    assert(batch_total(self.claims@, b) == self.batch_amount(b));
                }
                assert(h2[b as int].amount == self.history@[b as int].amount);
                assert(h2[b as int].amount * h2[b as int].withdraw_rate.atomics <= 2 * MAX_AMOUNT * DECIMAL_FRACTIONAL);
                lemma_mul_le(
                    c.amount as int,
                    h2[b as int].withdraw_rate.atomics as int,
                    h2[b as int].amount as int,
                    h2[b as int].withdraw_rate.atomics as int,
                );
            }
            crate::ledger::lemma_sum_nonneg(self.claims@, |c: UnbondClaim| crate::ledger::payout(h2, user, c));
            crate::slashing::lemma_walk_end_bounds(
                self.history@,
                self.released_batches as int,
                now as int,
                self.params.unbonding_period as int,
            );
        }
        let fin = match finished_amount(&self.claims, &h, user) {
            Ok(f) => f,
            Err(e) => {
                return Err(e);
            },
        };
        Ok((h, end, fin))
    }

    /// What `user` could withdraw at `now` if the hub's free balance were
    /// `hub_balance`, matured batches reconciled first. Nothing changes.
    pub fn withdrawable_amount(&self, user: u64, now: u64, hub_balance: u128) -> (r: Result<
        u128,
        HubError,
    >)
        requires
            self.wf(),
        ensures
            ({
                let end = walk_end(
                    self.history@,
                    self.released_batches as int,
                    now as int,
                    self.params.unbonding_period as int,
                );
                let actual = arrived(self.prev_hub_balance as int, hub_balance as int);
                let fin = finished_of(
                    self.claims@,
                    reconciled(self.history@, self.released_batches as int, end, actual),
                    user,
                );
                &&& fin >= 0
                &&& (reconcile_overflows(self.history@, self.released_batches as int, end, actual)
                    || fin > u128::MAX) ==> r == Err::<u128, HubError>(HubError::Overflow)
                &&& !(reconcile_overflows(self.history@, self.released_batches as int, end, actual)
                    || fin > u128::MAX) ==> r == Ok::<u128, HubError>(fin as u128)
            }),
    {
        proof {
            let end = walk_end(
                self.history@,
                self.released_batches as int,
                now as int,
                self.params.unbonding_period as int,
            );
            let actual = arrived(self.prev_hub_balance as int, hub_balance as int);
            crate::ledger::lemma_finished_nonneg(
                self.claims@,
                reconciled(self.history@, self.released_batches as int, end, actual),
                user,
            );
        }
        match self.preview_withdraw(user, now, hub_balance) {
            Ok((_, _, f)) => Ok(f),
            Err(e) => Err(e),
        }
    }

    /// Pays `user` everything that has matured, at `now`, out of the hub's
    /// free balance `hub_balance`.
    ///
    /// First the matured unreleased batches are reconciled against what
    /// arrived since the last payout; then the user's claims on released
    /// batches are paid at their rates and removed, and the balance left
    /// after the payout becomes the reference for the next reconciliation.
    /// Nothing changes on an error.
    pub fn withdraw_unbonded(&mut self, user: u64, now: u64, hub_balance: u128) -> (r: Result<
        u128,
        HubError,
    >)
        requires
            old(self).wf(),
        ensures
            final(self).wf(),
            final(self).params == old(self).params,
            final(self).pool == old(self).pool,
            final(self).current_batch == old(self).current_batch,
            final(self).last_unbonded_time == old(self).last_unbonded_time,
            final(self).prev_delegations == old(self).prev_delegations,
            final(self).bonded_since_check == old(self).bonded_since_check,
            ({
                let end = walk_end(
                    old(self).history@,
                    old(self).released_batches as int,
                    now as int,
                    old(self).params.unbonding_period as int,
                );
                let actual = arrived(old(self).prev_hub_balance as int, hub_balance as int);
                let h2 = reconciled(old(self).history@, old(self).released_batches as int, end, actual);
                let fin = finished_of(old(self).claims@, h2, user);
                let ovf = reconcile_overflows(
                    old(self).history@,
                    old(self).released_batches as int,
                    end,
                    actual,
                );
                &&& fin >= 0
                &&& (ovf || fin > u128::MAX) ==> r == Err::<u128, HubError>(HubError::Overflow)
                &&& !ovf && fin == 0 ==> r == Err::<u128, HubError>(HubError::NothingToWithdraw)
                &&& !ovf && 0 < fin <= u128::MAX && fin > hub_balance ==> r == Err::<
                    u128,
                    HubError,
                >(HubError::InsufficientFunds)
                &&& !ovf && 0 < fin <= hub_balance ==> r == Ok::<u128, HubError>(fin as u128)
                &&& r is Ok ==> final(self).history@ == h2 && final(self).released_batches == end
                    && final(self).claims@ == drain_of(old(self).claims@, h2, user)
                    && final(self).prev_hub_balance == hub_balance - fin
                &&& r is Err ==> final(self).history@ == old(self).history@ && final(self).released_batches == old(self).released_batches && final(self).claims@ == old(self).claims@ && final(self).prev_hub_balance == old(self).prev_hub_balance
            }),
    {
        proof {
            let end = walk_end(
                self.history@,
                self.released_batches as int,
                now as int,
                self.params.unbonding_period as int,
            );
            let actual = arrived(self.prev_hub_balance as int, hub_balance as int);
            crate::ledger::lemma_finished_nonneg(
                self.claims@,
                reconciled(self.history@, self.released_batches as int, end, actual),
                user,
            );
        }
        let (h, end, fin) = match self.preview_withdraw(user, now, hub_balance) {
            Ok(t) => t,
            Err(e) => {
                return Err(e);
            },
        };
        if fin == 0 {
            return Err(HubError::NothingToWithdraw);
        }
        if fin > hub_balance {
            return Err(HubError::InsufficientFunds);
        }
        let ghost o = *old(self);
        let kept = drain(&self.claims, &h, user);
        self.history = h;
        self.released_batches = end;
        self.claims = kept;
        self.prev_hub_balance = hub_balance - fin;
        proof {
            assert forall|b: u64| self.released_batches <= b implies #[trigger] batch_total(self.claims@, b)
                == self.batch_amount(b) by {
                lemma_drain_sums(
                    o.claims@,
                    self.history@,
                    user,
                    |x: UnbondClaim| if x.batch_id == b { x.amount as int } else { 0 },
                );
                assert(batch_total(o.claims@, b) == o.batch_amount(b));
            }
            assert forall|b: u64| b < self.released_batches implies #[trigger] batch_total(self.claims@, b)
                <= self.history[b as int].amount by {
                lemma_drain_shrinks(
                    o.claims@,
                    self.history@,
                    user,
                    |x: UnbondClaim| if x.batch_id == b { x.amount as int } else { 0 },
                );
                if b < o.released_batches {
                    assert(batch_total(o.claims@, b) <= o.history[b as int].amount);
                } else {
                    assert(batch_total(o.claims@, b) == o.batch_amount(b));
                }
            }
        }
        Ok(fin)
    }
}

/// Batch closure is decided by the time since the last closure alone, with a
/// strict inequality: a redemption at `t1` closes the non-empty open batch
/// exactly when `t1 - last_unbonded_time > epoch_period`; at exactly one
/// epoch it does not.
pub proof fn lemma_batch_closure(h: &Hub, t1: int)
    requires
        h.wf(),
        h.current_batch.requested_with_fee > 0,
    ensures
        h.closes_at(t1) <==> t1 - h.last_unbonded_time > h.params.epoch_period,
        t1 - h.last_unbonded_time == h.params.epoch_period ==> !h.closes_at(t1),
{
}

/// No double withdrawal: after a withdrawal at `now` (the history reconciled
/// up to `end` against `actual`, the user's released claims drained), a
/// second withdrawal at the same time walks no batch, whatever has arrived
/// meanwhile (`actual2`), leaves the history as it is and finds nothing to
/// pay the same user, so it fails with nothing to withdraw.
pub proof fn lemma_no_double_withdrawal(
    history: Seq<UnbondHistory>,
    released: int,
    claims: Seq<UnbondClaim>,
    user: u64,
    now: int,
    unbonding_period: int,
    actual: int,
    actual2: int,
)
    requires
        history_wf(history, released),
    ensures
        ({
            let end = walk_end(history, released, now, unbonding_period);
            let h2 = reconciled(history, released, end, actual);
            let claims2 = drain_of(claims, h2, user);
            &&& walk_end(h2, end, now, unbonding_period) == end
            &&& !reconcile_overflows(h2, end, end, actual2)
            &&& reconciled(h2, end, end, actual2) == h2
            &&& finished_of(claims2, reconciled(h2, end, end, actual2), user) == 0
        }),
{
    let end = walk_end(history, released, now, unbonding_period);
    let h2 = reconciled(history, released, end, actual);
    crate::slashing::lemma_walk_end_bounds(history, released, now, unbonding_period);
    if end < h2.len() {
        assert(h2[end] == history[end]);
    }
    assert(reconciled(h2, end, end, actual2) =~= h2);
    lemma_drain_sums(claims, h2, user, |c: UnbondClaim| 0int);
}

} // verus!
