//! The unbonding ledger: closed-batch history and per-user claims on batches.

use vstd::prelude::*;
use crate::decimal::{Decimal, DECIMAL_FRACTIONAL, mul_floor};
use crate::error::HubError;

verus! {

/// A closed batch. Its id is its position in the history.
#[derive(Clone, Copy, Debug, PartialEq, Eq, Structural)]
pub struct UnbondHistory {
    /// Block time at which the batch was closed and undelegated.
    pub time: u64,
    /// Derivative requested in the batch, peg fee applied.
    pub amount: u128,
    /// Principal paid per derivative of the batch.
    pub withdraw_rate: Decimal,
    /// Whether slashing reconciliation has finalized the rate.
    pub released: bool,
}

/// What a user is owed from one batch, in derivative, peg fee applied.
#[derive(Clone, Copy, Debug, PartialEq, Eq, Structural)]
pub struct UnbondClaim {
    pub batch_id: u64,
    pub user: u64,
    pub amount: u128,
}

/// Sum of `f` over the claims.
pub open spec fn sum_by(s: Seq<UnbondClaim>, f: spec_fn(UnbondClaim) -> int) -> int
    decreases s.len(),
{
    if s.len() == 0 {
        0
    } else {
        sum_by(s.drop_last(), f) + f(s.last())
    }
}

/// What `user` has claimed from batch `batch`.
pub open spec fn claim_of(s: Seq<UnbondClaim>, batch: u64, user: u64) -> int {
    sum_by(s, |c: UnbondClaim| if c.batch_id == batch && c.user == user { c.amount as int } else { 0 })
}

/// Everything claimed from batch `batch`.
pub open spec fn batch_total(s: Seq<UnbondClaim>, batch: u64) -> int {
    sum_by(s, |c: UnbondClaim| if c.batch_id == batch { c.amount as int } else { 0 })
}

pub open spec fn is_released(h: Seq<UnbondHistory>, batch: u64) -> bool {
    batch < h.len() && h[batch as int].released
}

/// What one claim pays `user` now: its amount at its batch's rate, once the
/// batch is released.
pub open spec fn payout(h: Seq<UnbondHistory>, user: u64, c: UnbondClaim) -> int {
    if c.user == user && is_released(h, c.batch_id) {
        mul_floor(c.amount as int, h[c.batch_id as int].withdraw_rate)
    } else {
        0
    }
}

/// The principal that `user` can withdraw.
pub open spec fn finished_of(s: Seq<UnbondClaim>, h: Seq<UnbondHistory>, user: u64) -> int {
    sum_by(s, |c: UnbondClaim| payout(h, user, c))
}

/// Whether a claim is paid out and removed by a withdrawal of `user`.
pub open spec fn drained_by(h: Seq<UnbondHistory>, user: u64, c: UnbondClaim) -> bool {
    c.user == user && is_released(h, c.batch_id)
}

/// The claims left after `user` withdrew.
pub open spec fn drain_of(s: Seq<UnbondClaim>, h: Seq<UnbondHistory>, user: u64) -> Seq<UnbondClaim>
    decreases s.len(),
{
    if s.len() == 0 {
        s
    } else if drained_by(h, user, s.last()) {
        drain_of(s.drop_last(), h, user)
    } else {
        drain_of(s.drop_last(), h, user).push(s.last())
    }
}

pub proof fn lemma_sum_push(s: Seq<UnbondClaim>, c: UnbondClaim, f: spec_fn(UnbondClaim) -> int)
    ensures
        sum_by(s.push(c), f) == sum_by(s, f) + f(c),
{
    assert(s.push(c).drop_last() == s);
}

pub proof fn lemma_sum_update(s: Seq<UnbondClaim>, i: int, c: UnbondClaim, f: spec_fn(UnbondClaim) -> int)
    requires
        0 <= i < s.len(),
    ensures
        sum_by(s.update(i, c), f) == sum_by(s, f) - f(s[i]) + f(c),
    decreases s.len(),
{
    if i == s.len() - 1 {
        assert(s.update(i, c).drop_last() == s.drop_last());
    } else {
        assert(s.update(i, c).drop_last() == s.drop_last().update(i, c));
        lemma_sum_update(s.drop_last(), i, c, f);
    }
}

pub proof fn lemma_sum_nonneg(s: Seq<UnbondClaim>, f: spec_fn(UnbondClaim) -> int)
    requires
        forall|c: UnbondClaim| #[trigger] f(c) >= 0,
    ensures
        sum_by(s, f) >= 0,
    decreases s.len(),
{
    if s.len() > 0 {
        lemma_sum_nonneg(s.drop_last(), f);
    }
}

/// A prefix sums to no more than the whole, for a non-negative `f`.
pub proof fn lemma_sum_prefix(s: Seq<UnbondClaim>, i: int, f: spec_fn(UnbondClaim) -> int)
    requires
        0 <= i <= s.len(),
        forall|c: UnbondClaim| #[trigger] f(c) >= 0,
    ensures
        sum_by(s.subrange(0, i), f) <= sum_by(s, f),
    decreases s.len(),
{
    if i == s.len() {
        assert(s.subrange(0, i) == s);
    } else {
        assert(s.drop_last().subrange(0, i) == s.subrange(0, i));
        lemma_sum_prefix(s.drop_last(), i, f);
    }
}

/// One claim is at most the sum, for a non-negative `f`.
pub proof fn lemma_sum_term(s: Seq<UnbondClaim>, i: int, f: spec_fn(UnbondClaim) -> int)
    requires
        0 <= i < s.len(),
        forall|c: UnbondClaim| #[trigger] f(c) >= 0,
    ensures
        f(s[i]) <= sum_by(s, f),
    decreases s.len(),
{
    lemma_sum_nonneg(s.drop_last(), f);
    if i < s.len() - 1 {
        lemma_sum_term(s.drop_last(), i, f);
    }
}

/// Draining leaves every sum over the kept claims as it was, and removes
/// all that `user` could withdraw.
pub proof fn lemma_drain_sums(s: Seq<UnbondClaim>, h: Seq<UnbondHistory>, user: u64, f: spec_fn(UnbondClaim) -> int)
    requires
        forall|c: UnbondClaim| drained_by(h, user, c) ==> #[trigger] f(c) == 0,
    ensures
        sum_by(drain_of(s, h, user), f) == sum_by(s, f),
        finished_of(drain_of(s, h, user), h, user) == 0,
    decreases s.len(),
{
    if s.len() > 0 {
        lemma_drain_sums(s.drop_last(), h, user, f);
        if !drained_by(h, user, s.last()) {
            lemma_sum_push(drain_of(s.drop_last(), h, user), s.last(), f);
            lemma_sum_push(drain_of(s.drop_last(), h, user), s.last(), |c: UnbondClaim| payout(h, user, c));
        }
    }
}

/// Draining removes claims and adds none: every sum of a non-negative `f`
/// can only shrink.
pub proof fn lemma_drain_shrinks(s: Seq<UnbondClaim>, h: Seq<UnbondHistory>, user: u64, f: spec_fn(UnbondClaim) -> int)
    requires
        forall|c: UnbondClaim| #[trigger] f(c) >= 0,
    ensures
        sum_by(drain_of(s, h, user), f) <= sum_by(s, f),
    decreases s.len(),
{
    if s.len() > 0 {
        lemma_drain_shrinks(s.drop_last(), h, user, f);
        if !drained_by(h, user, s.last()) {
            lemma_sum_push(drain_of(s.drop_last(), h, user), s.last(), f);
        }
    }
}

/// Adds `amount` to what `user` claims from batch `batch`.
pub fn record_claim(claims: &mut Vec<UnbondClaim>, batch: u64, user: u64, amount: u128)
    requires
        forall|i: int| 0 <= i < old(claims).len() ==> #[trigger] old(claims)[i].batch_id == batch
            && old(claims)[i].user == user ==> old(claims)[i].amount + amount <= u128::MAX,
    ensures
        forall|b: u64, u: u64|
            #[trigger] claim_of(final(claims)@, b, u) == claim_of(old(claims)@, b, u) + if b == batch
                && u == user {
                amount as int
            } else {
                0
            },
        forall|b: u64|
            #[trigger] batch_total(final(claims)@, b) == batch_total(old(claims)@, b) + if b
                == batch {
                amount as int
            } else {
                0
            },
        forall|h: Seq<UnbondHistory>, u: u64|
            !is_released(h, batch) ==> #[trigger] finished_of(final(claims)@, h, u) == finished_of(
                old(claims)@,
                h,
                u,
            ),
{
    let mut i: usize = 0;
    while i < claims.len()
        invariant
            i <= claims.len(),
            claims@ == old(claims)@,
            forall|j: int| 0 <= j < i ==> !(claims[j].batch_id == batch && claims[j].user == user),
            forall|j: int| 0 <= j < claims.len() ==> #[trigger] claims[j].batch_id == batch
                && claims[j].user == user ==> claims[j].amount + amount <= u128::MAX,
        decreases claims.len() - i,
    {
        if claims[i].batch_id == batch && claims[i].user == user {
            let c = UnbondClaim { batch_id: batch, user, amount: claims[i].amount + amount };
            let ghost s = claims@;
            claims.set(i, c);
            proof {
                assert forall|b: u64, u: u64|
                    #[trigger] claim_of(claims@, b, u) == claim_of(s, b, u) + if b == batch && u
                        == user {
                        amount as int
                    } else {
                        0
                    } by {
                    lemma_sum_update(s, i as int, c, |x: UnbondClaim| if x.batch_id == b && x.user == u { x.amount as int } else { 0 });
                }
                assert forall|b: u64|
                    #[trigger] batch_total(claims@, b) == batch_total(s, b) + if b == batch {
                        amount as int
                    } else {
                        0
                    } by {
                    lemma_sum_update(s, i as int, c, |x: UnbondClaim| if x.batch_id == b { x.amount as int } else { 0 });
                }
                assert forall|h: Seq<UnbondHistory>, u: u64|
                    !is_released(h, batch) implies #[trigger] finished_of(claims@, h, u)
                        == finished_of(s, h, u) by {
                    lemma_sum_update(s, i as int, c, |x: UnbondClaim| payout(h, u, x));
                }
            }
            return;
        }
        i += 1;
    }
    let c = UnbondClaim { batch_id: batch, user, amount };
    let ghost s = claims@;
    claims.push(c);
    proof {
        assert forall|b: u64, u: u64|
            #[trigger] claim_of(claims@, b, u) == claim_of(s, b, u) + if b == batch && u == user {
                amount as int
            } else {
                0
            } by {
            lemma_sum_push(s, c, |x: UnbondClaim| if x.batch_id == b && x.user == u { x.amount as int } else { 0 });
        }
        assert forall|b: u64|
            #[trigger] batch_total(claims@, b) == batch_total(s, b) + if b == batch {
                amount as int
            } else {
                0
            } by {
            lemma_sum_push(s, c, |x: UnbondClaim| if x.batch_id == b { x.amount as int } else { 0 });
        }
        assert forall|h: Seq<UnbondHistory>, u: u64|
            !is_released(h, batch) implies #[trigger] finished_of(claims@, h, u) == finished_of(
                s,
                h,
                u,
            ) by {
            lemma_sum_push(s, c, |x: UnbondClaim| payout(h, u, x));
        }
    }
}

/// A batch that no claim with a positive amount names totals zero.
pub proof fn lemma_batch_total_zero(s: Seq<UnbondClaim>, b: u64)
    requires
        forall|i: int| 0 <= i < s.len() && (#[trigger] s[i]).batch_id == b ==> s[i].amount == 0,
    ensures
        batch_total(s, b) == 0,
    decreases s.len(),
{
    if s.len() > 0 {
        assert forall|i: int| 0 <= i < s.drop_last().len() && (#[trigger] s.drop_last()[i]).batch_id == b implies s.drop_last()[i].amount == 0 by {
            assert(s.drop_last()[i] == s[i]);
        }
        lemma_batch_total_zero(s.drop_last(), b);
        assert(s.last() == s[s.len() - 1]);
    }
}

/// Everything claimed from batch `b`, or `None` when the sum passes `u128::MAX`.
pub fn batch_sum(claims: &Vec<UnbondClaim>, b: u64) -> (r: Option<u128>)
    ensures
        batch_total(claims@, b) >= 0,
        batch_total(claims@, b) <= u128::MAX ==> r == Some(batch_total(claims@, b) as u128),
        batch_total(claims@, b) > u128::MAX ==> r is None,
{
    let ghost f = |c: UnbondClaim| if c.batch_id == b { c.amount as int } else { 0 };
    proof {
        lemma_sum_nonneg(claims@, f);
    }
    let mut total: u128 = 0;
    let mut i: usize = 0;
    while i < claims.len()
        invariant
            i <= claims.len(),
            f == (|c: UnbondClaim| if c.batch_id == b { c.amount as int } else { 0 }),
            total == sum_by(claims@.subrange(0, i as int), f),
        decreases claims.len() - i,
    {
        proof {
            assert(claims@.subrange(0, i + 1).drop_last() == claims@.subrange(0, i as int));
        }
        if claims[i].batch_id == b {
            match total.checked_add(claims[i].amount) {
                Some(t) => {
                    total = t;
                },
                None => {
                    proof {
                        lemma_sum_prefix(claims@, i + 1, f);
                    }
                    return None;
                },
            }
        }
        i += 1;
    }
    assert(claims@.subrange(0, claims.len() as int) == claims@);
    proof {
        lemma_sum_nonneg(claims@, f);
    }
    Some(total)
}

/// What a user can withdraw is never negative.
pub proof fn lemma_finished_nonneg(s: Seq<UnbondClaim>, h: Seq<UnbondHistory>, user: u64)
    ensures
        finished_of(s, h, user) >= 0,
{
    lemma_sum_nonneg(s, |c: UnbondClaim| payout(h, user, c));
}

/// Every payout of `user` is a product that fits in `u128`.
pub open spec fn payouts_in_range(s: Seq<UnbondClaim>, h: Seq<UnbondHistory>, user: u64) -> bool {
    forall|i: int|
        0 <= i < s.len() && #[trigger] drained_by(h, user, s[i]) ==> s[i].amount * h[s[i].batch_id as int].withdraw_rate.atomics
            <= u128::MAX
}

/// The principal that `user` can withdraw: each claim in a released batch at
/// that batch's withdraw rate.
pub fn finished_amount(claims: &Vec<UnbondClaim>, history: &Vec<UnbondHistory>, user: u64) -> (r:
    Result<u128, HubError>)
    requires
        payouts_in_range(claims@, history@, user),
    ensures
        finished_of(claims@, history@, user) <= u128::MAX ==> r == Ok::<u128, HubError>(
            finished_of(claims@, history@, user) as u128,
        ),
        finished_of(claims@, history@, user) > u128::MAX ==> r == Err::<u128, HubError>(
            HubError::Overflow,
        ),
{
    let ghost f = |c: UnbondClaim| payout(history@, user, c);
    let mut total: u128 = 0;
    let mut i: usize = 0;
    while i < claims.len()
        invariant
            i <= claims.len(),
            payouts_in_range(claims@, history@, user),
            f == (|c: UnbondClaim| payout(history@, user, c)),
            total == sum_by(claims@.subrange(0, i as int), f),
        decreases claims.len() - i,
    {
        let c = claims[i];
        proof {
            assert(claims@.subrange(0, i + 1).drop_last() == claims@.subrange(0, i as int));
        }
        if c.user == user && c.batch_id < history.len() as u64 && history[c.batch_id as usize].released {
            assert(drained_by(history@, user, claims@[i as int]));
            let rate = history[c.batch_id as usize].withdraw_rate;
            let p = c.amount * rate.atomics / DECIMAL_FRACTIONAL;
            match total.checked_add(p) {
                Some(t) => {
                    total = t;
                },
                None => {
                    proof {
                        lemma_sum_prefix(claims@, i + 1, f);
                    }
                    return Err(HubError::Overflow);
                },
            }
        }
        i += 1;
    }
    assert(claims@.subrange(0, claims.len() as int) == claims@);
    Ok(total)
}

/// The claims that stay after `user` withdrew everything released.
pub fn drain(claims: &Vec<UnbondClaim>, history: &Vec<UnbondHistory>, user: u64) -> (r: Vec<UnbondClaim>)
    ensures
        r@ == drain_of(claims@, history@, user),
{
    let mut kept: Vec<UnbondClaim> = Vec::new();
    let mut i: usize = 0;
    while i < claims.len()
        invariant
            i <= claims.len(),
            kept@ == drain_of(claims@.subrange(0, i as int), history@, user),
        decreases claims.len() - i,
    {
        let c = claims[i];
        proof {
            assert(claims@.subrange(0, i + 1).drop_last() == claims@.subrange(0, i as int));
        }
        if !(c.user == user && c.batch_id < history.len() as u64 && history[c.batch_id as usize].released) {
            kept.push(c);
        }
        i += 1;
    }
    assert(claims@.subrange(0, claims.len() as int) == claims@);
    kept
}

/// Sum of the amounts in a wait list.
pub open spec fn wait_list_total(s: Seq<(u64, u128)>) -> int
    decreases s.len(),
{
    if s.len() == 0 {
        0
    } else {
        wait_list_total(s.drop_last()) + s.last().1
    }
}

/// The requests of one epoch in the epoch-based redemption queue: a claim
/// and what each user asked for since it was last totalled.
#[derive(Clone, Debug)]
pub struct Undelegation {
    pub claim: u128,
    pub undelegated_wait_list_map: Vec<(u64, u128)>,
}

impl Undelegation {
    /// Adds every request of the wait list to the claim.
    pub fn compute_claim(&mut self) -> (r: Result<(), HubError>)
        ensures
            final(self).undelegated_wait_list_map@ == old(self).undelegated_wait_list_map@,
            old(self).claim + wait_list_total(old(self).undelegated_wait_list_map@) <= u128::MAX
                ==> r is Ok && final(self).claim == old(self).claim + wait_list_total(
                old(self).undelegated_wait_list_map@,
            ),
            old(self).claim + wait_list_total(old(self).undelegated_wait_list_map@) > u128::MAX
                ==> r == Err::<(), HubError>(HubError::Overflow) && final(self).claim == old(
                self).claim,
    {
        let mut claim = self.claim;
        let mut i: usize = 0;
        while i < self.undelegated_wait_list_map.len()
            invariant
                i <= self.undelegated_wait_list_map.len(),
                self.claim == old(self).claim,
                self.undelegated_wait_list_map@ == old(self).undelegated_wait_list_map@,
                claim == self.claim + wait_list_total(
                    self.undelegated_wait_list_map@.subrange(0, i as int),
                ),
            decreases self.undelegated_wait_list_map.len() - i,
        {
            let ghost s = self.undelegated_wait_list_map@;
            proof {
                assert(s.subrange(0, i + 1).drop_last() == s.subrange(0, i as int));
            }
            match claim.checked_add(self.undelegated_wait_list_map[i].1) {
                Some(c) => {
                    claim = c;
                },
                None => {
                    proof {
                        lemma_wait_list_prefix(s, i + 1);
                    }
                    return Err(HubError::Overflow);
                },
            }
            i += 1;
        }
        assert(self.undelegated_wait_list_map@.subrange(0, i as int)
            == self.undelegated_wait_list_map@);
        self.claim = claim;
        Ok(())
    }
}

proof fn lemma_wait_list_prefix(s: Seq<(u64, u128)>, i: int)
    requires
        0 <= i <= s.len(),
    ensures
        wait_list_total(s.subrange(0, i)) <= wait_list_total(s),
    decreases s.len(),
{
    if i == s.len() {
        assert(s.subrange(0, i) == s);
    } else {
        assert(s.drop_last().subrange(0, i) == s.subrange(0, i));
        lemma_wait_list_prefix(s.drop_last(), i);
    }
}

} // verus!
