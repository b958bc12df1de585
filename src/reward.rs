//! Reward accrual through a global index: each holder keeps the index it last
//! saw and a pending reward, so no operation walks over all holders.

use vstd::prelude::*;
use crate::decimal::{Decimal, DECIMAL_FRACTIONAL, ratio_atomics, mul_floor};
use crate::error::HubError;

verus! {

#[derive(Clone, Copy, Debug, PartialEq, Eq, Structural)]
pub struct HolderRecord {
    pub holder: u64,
    /// The global index this holder last saw.
    pub index: Decimal,
    /// Accrued reward not yet claimed.
    pub pending: u128,
}

/// The global index and every holder's record.
#[derive(Debug)]
pub struct RewardIndex {
    pub global_index: Decimal,
    pub holders: Vec<HolderRecord>,
}

/// Reward owed for `balance` held while the index grew from `user` to `global`.
pub open spec fn reward_of(global: Decimal, user: Decimal, balance: int) -> int {
    mul_floor(balance, Decimal { atomics: (global.atomics - user.atomics) as u128 })
}

/// Whether `calculate_reward` fails on these values, and with which error.
pub open spec fn reward_error(global: Decimal, user: Decimal, balance: int) -> Option<HubError> {
    if balance == 0 {
        None
    } else if user.atomics > global.atomics {
        Some(HubError::IndexAhead)
    } else if balance * (global.atomics - user.atomics) > u128::MAX {
        Some(HubError::Overflow)
    } else {
        None
    }
}

/// The reward owed for `user_balance` between the holder's index and the
/// global one: `(general_index - user_index) * user_balance`, rounded down.
/// A zero balance is owed nothing, whatever the indices.
pub fn calculate_reward(general_index: Decimal, user_index: Decimal, user_balance: u128) -> (r:
    Result<u128, HubError>)
    ensures
        reward_error(general_index, user_index, user_balance as int) matches Some(e) ==> r
            == Err::<u128, HubError>(e),
        reward_error(general_index, user_index, user_balance as int) is None ==> r == Ok::<
            u128,
            HubError,
        >(reward_of(general_index, user_index, user_balance as int) as u128),
{
    if user_balance == 0 {
        proof {
            assert(0 * (general_index.atomics - user_index.atomics) == 0);
        }
        return Ok(0);
    }
    if user_index.atomics > general_index.atomics {
        return Err(HubError::IndexAhead);
    }
    let diff = general_index.atomics - user_index.atomics;
    match user_balance.checked_mul(diff) {
        Some(p) => Ok(p / DECIMAL_FRACTIONAL),
        None => Err(HubError::Overflow),
    }
}

/// The record of a holder after a touch with `balance`: first exposure starts
/// at the global index with nothing owed; otherwise the reward since the last
/// touch moves to pending and the index catches up.
pub open spec fn touch_record(global: Decimal, rec: Option<HolderRecord>, holder: u64, balance: int) -> HolderRecord {
    match rec {
        None => HolderRecord { holder, index: global, pending: 0 },
        Some(r) => HolderRecord {
            holder,
            index: global,
            pending: (r.pending + reward_of(global, r.index, balance)) as u128,
        },
    }
}

/// Whether touching with `balance` would overflow the pending reward.
pub open spec fn touch_overflows(global: Decimal, rec: Option<HolderRecord>, balance: int) -> bool {
    match rec {
        None => false,
        Some(r) => balance * (global.atomics - r.index.atomics) > u128::MAX || r.pending
            + reward_of(global, r.index, balance) > u128::MAX,
    }
}

impl RewardIndex {
    /// One record per holder, none ahead of the global index.
    pub open spec fn wf(&self) -> bool {
        &&& forall|i: int, j: int|
            0 <= i < j < self.holders.len() ==> self.holders[i].holder
                != self.holders[j].holder
        &&& forall|i: int|
            0 <= i < self.holders.len() ==> self.holders[i].index.atomics
                <= self.global_index.atomics
    }

    pub open spec fn has_record(&self, holder: u64) -> bool {
        exists|i: int| 0 <= i < self.holders.len() && self.holders[i].holder == holder
    }

    /// The record of `holder`, if it has been touched.
    pub open spec fn record_of(&self, holder: u64) -> Option<HolderRecord> {
        if self.has_record(holder) {
            Some(
                self.holders[choose|i: int|
                    0 <= i < self.holders.len() && self.holders[i].holder == holder],
            )
        } else {
            None
        }
    }

    /// Whether the index is well formed: one record per holder, none ahead
    /// of the global index.
    pub fn check_wf(&self) -> (r: bool)
        ensures
            r == self.wf(),
    {
        let n = self.holders.len();
        let mut i: usize = 0;
        while i < n
            invariant
                n == self.holders.len(),
                i <= n,
                forall|a: int, b: int| 0 <= a < b < n && a < i ==> self.holders[a].holder
                    != self.holders[b].holder,
                forall|a: int| 0 <= a < i ==> self.holders[a].index.atomics
                    <= self.global_index.atomics,
            decreases n - i,
        {
            if self.holders[i].index.atomics > self.global_index.atomics {
                return false;
            }
            let mut j: usize = i + 1;
            while j < n
                invariant
                    n == self.holders.len(),
                    i < n,
                    i + 1 <= j <= n,
                    forall|b: int| i < b < j ==> self.holders[i as int].holder != self.holders[b].holder,
                decreases n - j,
            {
                if self.holders[i].holder == self.holders[j].holder {
                    return false;
                }
                j += 1;
            }
            i += 1;
        }
        true
    }

    /// An index at zero with no holder.
    pub fn new() -> (r: RewardIndex)
        ensures
            r.wf(),
            r.global_index.atomics == 0,
            forall|h: u64| r.record_of(h) is None,
    {
        RewardIndex { global_index: Decimal::zero(), holders: Vec::new() }
    }

    fn find(&self, holder: u64) -> (r: Option<usize>)
        requires
            self.wf(),
        ensures
            r matches Some(i) ==> i < self.holders.len() && self.holders[i as int].holder
                == holder && self.record_of(holder) == Some(self.holders[i as int]),
            r is None ==> self.record_of(holder) is None,
    {
        let mut i: usize = 0;
        while i < self.holders.len()
            invariant
                self.wf(),
                i <= self.holders.len(),
                forall|j: int| 0 <= j < i ==> self.holders[j].holder != holder,
            decreases self.holders.len() - i,
        {
            if self.holders[i].holder == holder {
                proof {
                    let k = choose|k: int|
                        0 <= k < self.holders.len() && self.holders[k].holder == holder;
                    assert(self.has_record(holder));
                    assert(k == i as int) by {
                        if k < i as int {
                        } else if k > i as int {
                            assert(self.holders[i as int].holder != self.holders[k].holder);
                        }
                    }
                }
                return Some(i);
            }
            i += 1;
        }
        None
    }

    /// The pending reward of `holder` (zero for one never touched).
    pub fn pending_reward(&self, holder: u64) -> (r: u128)
        requires
            self.wf(),
        ensures
            r == match self.record_of(holder) {
                Some(rec) => rec.pending,
                None => 0,
            },
    {
        match self.find(holder) {
            Some(i) => self.holders[i].pending,
            None => 0,
        }
    }

    /// Adds `claimed_reward / total_supply` to the global index; nothing
    /// happens when the supply is zero.
    pub fn accrue_global(&mut self, claimed_reward: u128, total_supply: u128) -> (r: Result<
        (),
        HubError,
    >)
        requires
            old(self).wf(),
        ensures
            final(self).wf(),
            final(self).holders@ == old(self).holders@,
            total_supply == 0 ==> r is Ok && final(self).global_index == old(self).global_index,
            total_supply > 0 && (claimed_reward * DECIMAL_FRACTIONAL > u128::MAX
                || old(self).global_index.atomics + ratio_atomics(
                claimed_reward as int,
                total_supply as int,
            ) > u128::MAX) ==> r == Err::<(), HubError>(HubError::Overflow)
                && final(self).global_index == old(self).global_index,
            total_supply > 0 && claimed_reward * DECIMAL_FRACTIONAL <= u128::MAX
                && old(self).global_index.atomics + ratio_atomics(
                claimed_reward as int,
                total_supply as int,
            ) <= u128::MAX ==> r is Ok && final(self).global_index.atomics
                == old(self).global_index.atomics + ratio_atomics(
                claimed_reward as int,
                total_supply as int,
            ),
    {
        if total_supply == 0 {
            return Ok(());
        }
        let scaled = match claimed_reward.checked_mul(DECIMAL_FRACTIONAL) {
            Some(s) => s,
            None => {
                return Err(HubError::Overflow);
            },
        };
        let delta = Decimal::from_ratio(claimed_reward, total_supply);
        assert(delta.atomics == scaled / total_supply);
        match self.global_index.atomics.checked_add(delta.atomics) {
            Some(g) => {
                self.global_index = Decimal { atomics: g };
                Ok(())
            },
            None => Err(HubError::Overflow),
        }
    }

    /// Takes in the rewards that arrived: the reward balance `balance` less
    /// the `past_balance` it held before the rewards were swept in, spread
    /// over `total_supply`.
    pub fn update_global_index(&mut self, balance: u128, past_balance: u128, total_supply: u128) -> (r:
        Result<(), HubError>)
        requires
            old(self).wf(),
        ensures
            final(self).wf(),
            final(self).holders@ == old(self).holders@,
            balance < past_balance ==> r == Err::<(), HubError>(HubError::InsufficientFunds)
                && final(self).global_index == old(self).global_index,
            balance >= past_balance && total_supply == 0 ==> r is Ok && final(self).global_index
                == old(self).global_index,
            balance >= past_balance && total_supply > 0 ==> {
                let claimed = balance - past_balance;
                &&& (claimed * DECIMAL_FRACTIONAL > u128::MAX || old(self).global_index.atomics
                    + ratio_atomics(claimed, total_supply as int) > u128::MAX) ==> r == Err::<
                    (),
                    HubError,
                >(HubError::Overflow) && final(self).global_index == old(self).global_index
                &&& !(claimed * DECIMAL_FRACTIONAL > u128::MAX || old(self).global_index.atomics
                    + ratio_atomics(claimed, total_supply as int) > u128::MAX) ==> r is Ok
                    && final(self).global_index.atomics == old(self).global_index.atomics
                    + ratio_atomics(claimed, total_supply as int)
            },
    {
        if balance < past_balance {
            return Err(HubError::InsufficientFunds);
        }
        self.accrue_global(balance - past_balance, total_supply)
    }

    /// Records what `holder` has earned since its last touch, given the
    /// balance it held over that time (its balance before any change that the
    /// caller is about to make).
    pub fn touch_holder(&mut self, holder: u64, balance: u128) -> (r: Result<(), HubError>)
        requires
            old(self).wf(),
        ensures
            final(self).wf(),
            final(self).global_index == old(self).global_index,
            r is Err <==> touch_overflows(
                old(self).global_index,
                old(self).record_of(holder),
                balance as int,
            ),
            r is Err ==> r == Err::<(), HubError>(HubError::Overflow) && final(self).holders@
                == old(self).holders@,
            r is Ok ==> final(self).record_of(holder) == Some(
                touch_record(
                    old(self).global_index,
                    old(self).record_of(holder),
                    holder,
                    balance as int,
                ),
            ),
            r is Ok ==> forall|h: u64| h != holder ==> final(self).record_of(h) == old(self).record_of(h),
    {
        let global = self.global_index;
        match self.find(holder) {
            None => {
                let rec = HolderRecord { holder, index: global, pending: 0 };
                self.holders.push(rec);
                proof { self.lemma_push_record(*old(self), rec); }
                Ok(())
            },
            Some(i) => {
                let old_rec = self.holders[i];
                let reward = match calculate_reward(global, old_rec.index, balance) {
                    Ok(x) => x,
                    Err(e) => {
                        return Err(HubError::Overflow);
                    },
                };
                let pending = match old_rec.pending.checked_add(reward) {
                    Some(p) => p,
                    None => {
                        return Err(HubError::Overflow);
                    },
                };
                let rec = HolderRecord { holder, index: global, pending };
                self.holders.set(i, rec);
                proof { self.lemma_set_record(*old(self), i as int, rec); }
                Ok(())
            },
        }
    }

    /// Pays `holder` its pending reward plus what `balance` earned since its
    /// last touch; its pending reward goes to zero and its index catches up.
    pub fn claim(&mut self, holder: u64, balance: u128) -> (r: Result<u128, HubError>)
        requires
            old(self).wf(),
        ensures
            final(self).wf(),
            final(self).global_index == old(self).global_index,
            r is Err <==> touch_overflows(
                old(self).global_index,
                old(self).record_of(holder),
                balance as int,
            ),
            r is Err ==> final(self).holders@ == old(self).holders@,
            r matches Ok(amount) ==> amount == touch_record(
                old(self).global_index,
                old(self).record_of(holder),
                holder,
                balance as int,
            ).pending,
            r is Ok ==> final(self).record_of(holder) == Some(
                HolderRecord { holder, index: old(self).global_index, pending: 0 },
            ),
            r is Ok ==> forall|h: u64| h != holder ==> final(self).record_of(h) == old(self).record_of(h),
    {
        let res = self.touch_holder(holder, balance);
        match res {
            Err(e) => Err(e),
            Ok(()) => {
                let i = match self.find(holder) {
                    Some(i) => i,
                    None => {
                        proof { assert(false); }
                        return Ok(0);
                    },
                };
                let amount = self.holders[i].pending;
                let rec = HolderRecord { holder, index: self.global_index, pending: 0 };
                let ghost mid = *self;
                self.holders.set(i, rec);
                proof { self.lemma_set_record(mid, i as int, rec); }
                Ok(amount)
            },
        }
    }

    proof fn lemma_push_record(&self, prev: RewardIndex, rec: HolderRecord)
        requires
            prev.wf(),
            !prev.has_record(rec.holder),
            rec.index == prev.global_index,
            self.global_index == prev.global_index,
            self.holders@ == prev.holders@.push(rec),
        ensures
            self.wf(),
            self.record_of(rec.holder) == Some(rec),
            forall|h: u64| h != rec.holder ==> self.record_of(h) == prev.record_of(h),
    {
        let n = prev.holders.len() as int;
        assert(self.holders[n].holder == rec.holder);
        let k = choose|k: int| 0 <= k < self.holders.len() && self.holders[k].holder == rec.holder;
        assert(k == n) by {
            if k < n {
                assert(prev.holders[k].holder == rec.holder);
            }
        }
        assert forall|h: u64| h != rec.holder implies self.record_of(h) == prev.record_of(h) by {
            if prev.has_record(h) {
                let a = choose|a: int| 0 <= a < prev.holders.len() && prev.holders[a].holder == h;
                assert(self.holders[a] == prev.holders[a]);
                assert(self.has_record(h));
                let b = choose|b: int| 0 <= b < self.holders.len() && self.holders[b].holder == h;
                assert(a == b) by {
                    if a < b {
                        assert(self.holders[a].holder != self.holders[b].holder);
                    } else if b < a {
                        assert(self.holders[b].holder != self.holders[a].holder);
                    }
                }
            } else {
                assert forall|b: int| 0 <= b < self.holders.len() implies self.holders[b].holder != h by {
                    if b < n {
                        assert(self.holders[b] == prev.holders[b]);
                    }
                }
            }
        }
    }

    proof fn lemma_set_record(&self, prev: RewardIndex, i: int, rec: HolderRecord)
        requires
            prev.wf(),
            0 <= i < prev.holders.len(),
            prev.holders[i].holder == rec.holder,
            rec.index == prev.global_index,
            self.global_index == prev.global_index,
            self.holders@ == prev.holders@.update(i, rec),
        ensures
            self.wf(),
            self.record_of(rec.holder) == Some(rec),
            forall|h: u64| h != rec.holder ==> self.record_of(h) == prev.record_of(h),
    {
        assert(self.holders[i].holder == rec.holder);
        let k = choose|k: int| 0 <= k < self.holders.len() && self.holders[k].holder == rec.holder;
        assert(k == i) by {
            if k != i {
                assert(prev.holders[k].holder == rec.holder);
                if k < i {
                    assert(prev.holders[k].holder != prev.holders[i].holder);
                } else {
                    assert(prev.holders[i].holder != prev.holders[k].holder);
                }
            }
        }
        assert forall|h: u64| h != rec.holder implies self.record_of(h) == prev.record_of(h) by {
            if prev.has_record(h) {
                let a = choose|a: int| 0 <= a < prev.holders.len() && prev.holders[a].holder == h;
                assert(a != i);
                assert(self.holders[a] == prev.holders[a]);
                assert(self.has_record(h));
                let b = choose|b: int| 0 <= b < self.holders.len() && self.holders[b].holder == h;
                assert(a == b) by {
                    if a < b {
                        assert(self.holders[a].holder != self.holders[b].holder);
                    } else if b < a {
                        assert(self.holders[b].holder != self.holders[a].holder);
                    }
                }
            } else {
                assert forall|b: int| 0 <= b < self.holders.len() implies self.holders[b].holder != h by {
                    if b != i {
                        assert(self.holders[b] == prev.holders[b]);
                    }
                }
            }
        }
    }
}

/// Touching a holder twice with no change of the global index in between
/// leaves the same record, pending reward included, as touching it once.
pub proof fn lemma_touch_idempotent(global: Decimal, rec: Option<HolderRecord>, holder: u64, balance: nat)
    requires
        rec matches Some(r) ==> r.index.atomics <= global.atomics,
    ensures
        !touch_overflows(global, Some(touch_record(global, rec, holder, balance as int)), balance as int),
        touch_record(global, Some(touch_record(global, rec, holder, balance as int)), holder, balance as int)
            == touch_record(global, rec, holder, balance as int),
{
    let once = touch_record(global, rec, holder, balance as int);
    assert(reward_of(global, once.index, balance as int) == 0) by {
        assert(balance * 0 == 0);
    }
    assert(balance * (global.atomics - once.index.atomics) == 0) by {
        assert(balance * 0 == 0);
    }
}

} // verus!
