//! Slashing reconciliation at withdrawal time: compares what the matured
//! batches were expected to return with what actually arrived, and spreads
//! the difference evenly over those batches by re-rating them.

use vstd::prelude::*;
use crate::decimal::{
    Decimal, DECIMAL_FRACTIONAL, MAX_AMOUNT, ratio_atomics, mul_floor, mul_uint, lemma_div_bounds,
    lemma_mul_le,
};
use crate::error::HubError;
use crate::ledger::UnbondHistory;

verus! {

/// The shape of the history: the first `released` batches are released, the
/// others are not; every batch holds a positive amount within bounds, and its
/// rate keeps `amount * rate` in range.
pub open spec fn history_wf(h: Seq<UnbondHistory>, released: int) -> bool {
    &&& 0 <= released <= h.len()
    &&& forall|i: int|
        0 <= i < h.len() ==> {
            &&& (#[trigger] h[i]).released == (i < released)
            &&& 0 < h[i].amount <= MAX_AMOUNT
            &&& h[i].amount * h[i].withdraw_rate.atomics <= 2 * MAX_AMOUNT * DECIMAL_FRACTIONAL
            &&& !h[i].released ==> h[i].amount * h[i].withdraw_rate.atomics <= MAX_AMOUNT
                * DECIMAL_FRACTIONAL
        }
}

/// Whether the history has the shape of `history_wf`.
pub fn history_ok(h: &Vec<UnbondHistory>, released: u64) -> (r: bool)
    ensures
        r == history_wf(h@, released as int),
{
    assert(usize::MAX <= u64::MAX);
    if released > h.len() as u64 {
        return false;
    }
    let mut i: usize = 0;
    while i < h.len()
        invariant
            i <= h.len(),
            released <= h.len(),
            forall|k: int|
                0 <= k < i ==> {
                    &&& (#[trigger] h@[k]).released == (k < released)
                    &&& 0 < h@[k].amount <= MAX_AMOUNT
                    &&& h@[k].amount * h@[k].withdraw_rate.atomics <= 2 * MAX_AMOUNT
                        * DECIMAL_FRACTIONAL
                    &&& !h@[k].released ==> h@[k].amount * h@[k].withdraw_rate.atomics
                        <= MAX_AMOUNT * DECIMAL_FRACTIONAL
                },
        decreases h.len() - i,
    {
        let e = h[i];
        if e.released != ((i as u64) < released) || e.amount == 0 || e.amount > MAX_AMOUNT {
            return false;
        }
        let p = match e.amount.checked_mul(e.withdraw_rate.atomics) {
            Some(p) => p,
            None => {
                return false;
            },
        };
        if p > 2 * MAX_AMOUNT * DECIMAL_FRACTIONAL || (!e.released && p > MAX_AMOUNT
            * DECIMAL_FRACTIONAL) {
            return false;
        }
        i += 1;
    }
    true
}

/// A batch closed at `time` has matured at `now` once the unbonding period passed.
pub open spec fn matured(time: int, now: int, unbonding_period: int) -> bool {
    time + unbonding_period <= now
}

/// One past the last batch of the walk that starts at `i`: the walk goes on
/// while batches have matured.
pub open spec fn walk_end(h: Seq<UnbondHistory>, i: int, now: int, unbonding_period: int) -> int
    decreases h.len() - i,
{
    if i < 0 || i >= h.len() || !matured(h[i].time as int, now, unbonding_period) {
        i
    } else {
        walk_end(h, i + 1, now, unbonding_period)
    }
}

/// Principal that a batch was expected to return: its amount at its rate.
pub open spec fn expected_of(r: UnbondHistory) -> int {
    mul_floor(r.amount as int, r.withdraw_rate)
}

/// Expected principal of the batches `lo .. hi`.
pub open spec fn expected_sum(h: Seq<UnbondHistory>, lo: int, hi: int) -> int
    decreases hi - lo,
{
    if hi <= lo {
        0
    } else {
        expected_sum(h, lo, hi - 1) + expected_of(h[hi - 1])
    }
}

/// The gap between expected and actual, whichever way it goes.
pub open spec fn gap_of(total: int, actual: int) -> int {
    if actual > total {
        actual - total
    } else {
        total - actual
    }
}

/// Share of the gap that batch `i` of the walk `lo .. hi` takes: an even
/// share, and the newest batch also takes what the division leaves.
pub open spec fn share_of(total: int, actual: int, lo: int, hi: int, i: int) -> int {
    gap_of(total, actual) / (hi - lo) + if i == hi - 1 {
        gap_of(total, actual) % (hi - lo)
    } else {
        0
    }
}

/// Principal that batch `i` of the walk returns after reconciliation: its
/// expected principal plus its share of a gain, or less its share of a loss
/// (never below zero).
pub open spec fn adjusted_of(h: Seq<UnbondHistory>, lo: int, hi: int, actual: int, i: int) -> int {
    let total = expected_sum(h, lo, hi);
    let e = expected_of(h[i]);
    let d = share_of(total, actual, lo, hi, i);
    if actual > total {
        e + d
    } else if e >= d {
        e - d
    } else {
        0
    }
}

/// A batch after reconciliation: released, at the rate that pays out its
/// adjusted principal.
pub open spec fn released_record(r: UnbondHistory, adjusted: int) -> UnbondHistory {
    UnbondHistory {
        time: r.time,
        amount: r.amount,
        withdraw_rate: Decimal { atomics: ratio_atomics(adjusted, r.amount as int) as u128 },
        released: true,
    }
}

/// The history after the walk `lo .. hi` is reconciled against `actual`.
pub open spec fn reconciled(h: Seq<UnbondHistory>, lo: int, hi: int, actual: int) -> Seq<UnbondHistory> {
    Seq::new(
        h.len(),
        |i: int|
            if lo <= i < hi {
                released_record(h[i], adjusted_of(h, lo, hi, actual, i))
            } else {
                h[i]
            },
    )
}

/// Whether the walk `lo .. hi` would take in a gain larger than `MAX_AMOUNT`.
pub open spec fn reconcile_overflows(h: Seq<UnbondHistory>, lo: int, hi: int, actual: int) -> bool {
    hi > lo && actual > expected_sum(h, lo, hi) && actual - expected_sum(h, lo, hi) > MAX_AMOUNT
}

pub proof fn lemma_walk_end_bounds(h: Seq<UnbondHistory>, i: int, now: int, period: int)
    requires
        0 <= i <= h.len(),
    ensures
        i <= walk_end(h, i, now, period) <= h.len(),
        forall|k: int| i <= k < walk_end(h, i, now, period) ==> matured(#[trigger] h[k].time as int, now, period),
        walk_end(h, i, now, period) < h.len() ==> !matured(h[walk_end(h, i, now, period)].time as int, now, period),
    decreases h.len() - i,
{
    if i < h.len() && matured(h[i].time as int, now, period) {
        lemma_walk_end_bounds(h, i + 1, now, period);
    }
}

proof fn lemma_expected_bounds(h: Seq<UnbondHistory>, released: int, lo: int, hi: int)
    requires
        history_wf(h, released),
        released <= lo <= hi <= h.len(),
    ensures
        0 <= expected_sum(h, lo, hi) <= (hi - lo) * MAX_AMOUNT,
    decreases hi - lo,
{
    if hi > lo {
        lemma_expected_bounds(h, released, lo, hi - 1);
        lemma_expected_one(h[hi - 1]);
        assert((hi - lo) * MAX_AMOUNT == (hi - 1 - lo) * MAX_AMOUNT + MAX_AMOUNT) by (nonlinear_arith);
    }
}

proof fn lemma_expected_one(r: UnbondHistory)
    requires
        r.amount * r.withdraw_rate.atomics <= MAX_AMOUNT * DECIMAL_FRACTIONAL,
    ensures
        0 <= expected_of(r) <= MAX_AMOUNT,
{
    vstd::arithmetic::div_mod::lemma_div_is_ordered(
        r.amount * r.withdraw_rate.atomics,
        MAX_AMOUNT * DECIMAL_FRACTIONAL,
        DECIMAL_FRACTIONAL as int,
    );
    vstd::arithmetic::div_mod::lemma_div_by_multiple(MAX_AMOUNT as int, DECIMAL_FRACTIONAL as int);
    vstd::arithmetic::div_mod::lemma_div_pos_is_pos(r.amount * r.withdraw_rate.atomics, DECIMAL_FRACTIONAL as int);
}

/// Releases the matured batches from `released` on, re-rating each so that
/// together they pay out `actual`. Returns the new count of released batches.
pub fn reconcile(
    history: &mut Vec<UnbondHistory>,
    released: u64,
    now: u64,
    unbonding_period: u64,
    actual: u128,
) -> (r: Result<u64, HubError>)
    requires
        history_wf(old(history)@, released as int),
    ensures
        ({
            let end = walk_end(old(history)@, released as int, now as int, unbonding_period as int);
            &&& reconcile_overflows(old(history)@, released as int, end, actual as int) ==> r
                == Err::<u64, HubError>(HubError::Overflow) && final(history)@ == old(history)@
            &&& !reconcile_overflows(old(history)@, released as int, end, actual as int) ==> r
                == Ok::<u64, HubError>(end as u64) && final(history)@ == reconciled(
                old(history)@,
                released as int,
                end,
                actual as int,
            ) && history_wf(final(history)@, end)
        }),
{
    let ghost h0 = history@;
    let ghost end_spec = walk_end(h0, released as int, now as int, unbonding_period as int);
    proof {
        lemma_walk_end_bounds(h0, released as int, now as int, unbonding_period as int);
    }
    let len = history.len();
    assert(released <= len);
    let start = released as usize;
    assert(start as int == released as int);
    let mut end: usize = start;
    let mut total: u128 = 0;
    while end < history.len() && (history[end].time as u128) + (unbonding_period as u128) <= now as u128
        invariant
            history@ == h0,
            history_wf(h0, released as int),
            start == released,
            start <= end <= h0.len(),
            walk_end(h0, end as int, now as int, unbonding_period as int) == end_spec,
            total == expected_sum(h0, start as int, end as int),
            total <= (end - start) * MAX_AMOUNT,
        decreases h0.len() - end,
    {
        let r = history[end];
        proof {
            lemma_expected_one(r);
            lemma_mul_le(end as int - start + 1, MAX_AMOUNT as int, 0x1_0000_0000_0000_0000, MAX_AMOUNT as int);
            assert((end - start + 1) * MAX_AMOUNT == (end - start) * MAX_AMOUNT + MAX_AMOUNT) by (nonlinear_arith);
        }
        let e = mul_uint(r.amount, r.withdraw_rate);
        total = total + e;
        end = end + 1;
    }
    assert(end == end_spec);
    if end == start {
        assert(history@ =~= reconciled(h0, start as int, end as int, actual as int));
        return Ok(end as u64);
    }
    let count = (end - start) as u128;
    let gain = actual > total;
    let gap: u128 = if gain { actual - total } else { total - actual };
    if gain && gap > MAX_AMOUNT {
        return Err(HubError::Overflow);
    }
    let per = gap / count;
    let rem = gap % count;
    proof {
        lemma_div_bounds(gap as int, count as int);
        vstd::arithmetic::div_mod::lemma_fundamental_div_mod(gap as int, count as int);
        lemma_mul_le(1, per as int, count as int, per as int);
    }
    let mut i: usize = start;
    while i < end
        invariant
            start <= i <= end,
            end == end_spec,
            start == released,
            start < end <= h0.len(),
            history_wf(h0, released as int),
            history@.len() == h0.len(),
            count == end - start,
            total == expected_sum(h0, start as int, end as int),
            gain == (actual > total),
            gap == gap_of(total as int, actual as int),
            gain ==> gap <= MAX_AMOUNT,
            per == gap / count,
            rem == gap % count,
            per + rem <= gap,
            forall|k: int|
                start <= k < i ==> #[trigger] history@[k].amount * history@[k].withdraw_rate.atomics
                    <= 2 * MAX_AMOUNT * DECIMAL_FRACTIONAL,
            forall|k: int|
                0 <= k < h0.len() ==> #[trigger] history@[k] == if start <= k < i {
                    released_record(h0[k], adjusted_of(h0, start as int, end as int, actual as int, k))
                } else {
                    h0[k]
                },
        decreases end - i,
    {
        let r = history[i];
        proof {
            lemma_expected_one(r);
        }
        let e = mul_uint(r.amount, r.withdraw_rate);
        let d = if i == end - 1 { per + rem } else { per };
        let adjusted: u128 = if gain { e + d } else if e >= d { e - d } else { 0 };
        assert(adjusted == adjusted_of(h0, start as int, end as int, actual as int, i as int));
        assert(adjusted <= 2 * MAX_AMOUNT);
        proof {
            lemma_mul_le(adjusted as int, DECIMAL_FRACTIONAL as int, 2 * MAX_AMOUNT, DECIMAL_FRACTIONAL as int);
        }
        let rate = Decimal::from_ratio(adjusted, r.amount);
        let nr = UnbondHistory { time: r.time, amount: r.amount, withdraw_rate: rate, released: true };
        proof {
            lemma_div_bounds(adjusted * DECIMAL_FRACTIONAL, r.amount as int);
            assert(r.amount * rate.atomics == rate.atomics * r.amount) by (nonlinear_arith);
            lemma_mul_le(adjusted as int, DECIMAL_FRACTIONAL as int, 2 * MAX_AMOUNT, DECIMAL_FRACTIONAL as int);
        }
        history.set(i, nr);
        i = i + 1;
    }
    assert(history@ =~= reconciled(h0, start as int, end as int, actual as int));
    proof {
        assert forall|k: int| 0 <= k < history@.len() implies {
            &&& (#[trigger] history@[k]).released == (k < end)
            &&& 0 < history@[k].amount <= MAX_AMOUNT
            &&& history@[k].amount * history@[k].withdraw_rate.atomics <= 2 * MAX_AMOUNT * DECIMAL_FRACTIONAL
            &&& !history@[k].released ==> history@[k].amount * history@[k].withdraw_rate.atomics <= MAX_AMOUNT
                * DECIMAL_FRACTIONAL
        } by {
            assert(history@[k].amount * history@[k].withdraw_rate.atomics <= 2 * MAX_AMOUNT * DECIMAL_FRACTIONAL);
            assert(history@[k] == if start <= k < end {
                released_record(h0[k], adjusted_of(h0, start as int, end as int, actual as int, k))
            } else {
                h0[k]
            });
        }
    }
    Ok(end as u64)
}

/// Adjusted principal of the batches `lo .. k` of the walk `lo .. hi`.
pub open spec fn adjusted_sum(h: Seq<UnbondHistory>, lo: int, hi: int, actual: int, k: int) -> int
    decreases k - lo,
{
    if k <= lo {
        0
    } else {
        adjusted_sum(h, lo, hi, actual, k - 1) + adjusted_of(h, lo, hi, actual, k - 1)
    }
}

/// Whether a loss leaves some batch of the walk with less expected principal
/// than its share of the loss (its adjusted principal is then cut at zero).
pub open spec fn loss_exceeds_batch(h: Seq<UnbondHistory>, lo: int, hi: int, actual: int) -> bool {
    exists|i: int|
        lo <= i < hi && actual <= expected_sum(h, lo, hi) && expected_of(#[trigger] h[i])
            < share_of(expected_sum(h, lo, hi), actual, lo, hi, i)
}

proof fn lemma_adjusted_prefix(h: Seq<UnbondHistory>, lo: int, hi: int, actual: int, k: int)
    requires
        lo <= k < hi,
        !loss_exceeds_batch(h, lo, hi, actual),
    ensures
        actual > expected_sum(h, lo, hi) ==> adjusted_sum(h, lo, hi, actual, k) == expected_sum(h, lo, k)
            + (k - lo) * (gap_of(expected_sum(h, lo, hi), actual) / (hi - lo)),
        actual <= expected_sum(h, lo, hi) ==> adjusted_sum(h, lo, hi, actual, k) == expected_sum(h, lo, k)
            - (k - lo) * (gap_of(expected_sum(h, lo, hi), actual) / (hi - lo)),
    decreases k - lo,
{
    let per = gap_of(expected_sum(h, lo, hi), actual) / (hi - lo);
    if k > lo {
        lemma_adjusted_prefix(h, lo, hi, actual, k - 1);
        let total = expected_sum(h, lo, hi);
        assert(!(expected_of(h[k - 1]) < share_of(total, actual, lo, hi, k - 1)) || actual > total);
        assert(share_of(total, actual, lo, hi, k - 1) == per);
        assert(adjusted_sum(h, lo, hi, actual, k) == adjusted_sum(h, lo, hi, actual, k - 1) + adjusted_of(h, lo, hi, actual, k - 1));
        assert(expected_sum(h, lo, k) == expected_sum(h, lo, k - 1) + expected_of(h[k - 1]));
        assert(actual > total ==> adjusted_of(h, lo, hi, actual, k - 1) == expected_of(h[k - 1]) + per);
        assert(actual <= total ==> adjusted_of(h, lo, hi, actual, k - 1) == expected_of(h[k - 1]) - per);
        assert((k - lo) * per == (k - 1 - lo) * per + per) by (nonlinear_arith);
    } else {
        assert((k - lo) * per == 0) by (nonlinear_arith)
            requires
                k == lo,
        ;
    }
}

/// Slashing reconciliation spreads the gap evenly and loses nothing: every
/// batch of the walk but the newest has its expected principal moved by the
/// same share, the newest also takes the remainder of the division (so when
/// the gap divides evenly all of them move by the same share), and the
/// adjusted principal of the walked batches adds up to exactly what arrived.
/// Stated where no batch's share of a loss exceeds what it expected.
pub proof fn lemma_amortization_fairness(h: Seq<UnbondHistory>, lo: int, hi: int, actual: int)
    requires
        0 <= lo < hi <= h.len(),
        actual >= 0,
        forall|i: int| lo <= i < hi ==> expected_of(#[trigger] h[i]) >= 0,
        !loss_exceeds_batch(h, lo, hi, actual),
    ensures
        forall|i: int, j: int|
            lo <= i < hi - 1 && lo <= j < hi - 1 ==> #[trigger] adjusted_of(h, lo, hi, actual, i)
                - expected_of(h[i]) == #[trigger] adjusted_of(h, lo, hi, actual, j) - expected_of(h[j]),
        gap_of(expected_sum(h, lo, hi), actual) % (hi - lo) == 0 ==> forall|i: int, j: int|
            lo <= i < hi && lo <= j < hi ==> #[trigger] adjusted_of(h, lo, hi, actual, i)
                - expected_of(h[i]) == #[trigger] adjusted_of(h, lo, hi, actual, j) - expected_of(h[j]),
        adjusted_sum(h, lo, hi, actual, hi) == actual,
{
    let total = expected_sum(h, lo, hi);
    let g = gap_of(total, actual);
    let n = hi - lo;
    lemma_adjusted_prefix(h, lo, hi, actual, hi - 1);
    vstd::arithmetic::div_mod::lemma_fundamental_div_mod(g, n);
    assert(!(expected_of(h[hi - 1]) < share_of(total, actual, lo, hi, hi - 1)) || actual > total);
    assert((hi - lo) * (g / n) == (hi - 1 - lo) * (g / n) + g / n) by (nonlinear_arith);
    assert(n * (g / n) == (hi - lo) * (g / n));
    assert forall|i: int, j: int|
        lo <= i < hi - 1 && lo <= j < hi - 1 implies #[trigger] adjusted_of(h, lo, hi, actual, i)
            - expected_of(h[i]) == #[trigger] adjusted_of(h, lo, hi, actual, j) - expected_of(h[j]) by {
        assert(!(expected_of(h[i]) < share_of(total, actual, lo, hi, i)) || actual > total);
        assert(!(expected_of(h[j]) < share_of(total, actual, lo, hi, j)) || actual > total);
    }
    if g % n == 0 {
        assert forall|i: int, j: int|
            lo <= i < hi && lo <= j < hi implies #[trigger] adjusted_of(h, lo, hi, actual, i)
                - expected_of(h[i]) == #[trigger] adjusted_of(h, lo, hi, actual, j) - expected_of(h[j]) by {
            assert(!(expected_of(h[i]) < share_of(total, actual, lo, hi, i)) || actual > total);
            assert(!(expected_of(h[j]) < share_of(total, actual, lo, hi, j)) || actual > total);
        }
    }
}

/// A batch re-rated to pay `adjusted` pays it, less at most one unit of rounding.
proof fn lemma_release_payout(r: UnbondHistory, adjusted: int)
    requires
        0 < r.amount <= MAX_AMOUNT,
        0 <= adjusted <= 2 * MAX_AMOUNT,
    ensures
        adjusted - 1 <= expected_of(released_record(r, adjusted)) <= adjusted,
{
    let a = r.amount as int;
    let x = adjusted * DECIMAL_FRACTIONAL;
    lemma_mul_le(adjusted, DECIMAL_FRACTIONAL as int, 2 * MAX_AMOUNT, DECIMAL_FRACTIONAL as int);
    lemma_div_bounds(x, a);
    vstd::arithmetic::div_mod::lemma_div_is_ordered_by_denominator(x, 1, a);
    let q = x / a;
    assert(released_record(r, adjusted).withdraw_rate.atomics == q);
    assert(a * q == q * a) by (nonlinear_arith);
    // a * q <= x, so the payout is at most `adjusted`
    vstd::arithmetic::div_mod::lemma_div_is_ordered(a * q, x, DECIMAL_FRACTIONAL as int);
    vstd::arithmetic::div_mod::lemma_div_by_multiple(adjusted, DECIMAL_FRACTIONAL as int);
    // a * q > x - a >= (adjusted - 1) * DF, so it is at least `adjusted - 1`
    assert((q + 1) * a == q * a + a) by (nonlinear_arith);
    assert((adjusted - 1) * DECIMAL_FRACTIONAL == x - DECIMAL_FRACTIONAL) by (nonlinear_arith)
        requires
            x == adjusted * DECIMAL_FRACTIONAL,
    ;
    if adjusted >= 1 {
        vstd::arithmetic::div_mod::lemma_div_is_ordered(
            (adjusted - 1) * DECIMAL_FRACTIONAL,
            a * q,
            DECIMAL_FRACTIONAL as int,
        );
        vstd::arithmetic::div_mod::lemma_div_by_multiple(adjusted - 1, DECIMAL_FRACTIONAL as int);
    } else {
        vstd::arithmetic::div_mod::lemma_div_pos_is_pos(a * q, DECIMAL_FRACTIONAL as int);
    }
}

proof fn lemma_payout_prefix(h: Seq<UnbondHistory>, lo: int, hi: int, actual: int, k: int)
    requires
        history_wf(h, lo),
        lo <= k <= hi <= h.len(),
        actual >= 0,
        !reconcile_overflows(h, lo, hi, actual),
    ensures
        adjusted_sum(h, lo, hi, actual, k) - (k - lo) <= expected_sum(reconciled(h, lo, hi, actual), lo, k)
            <= adjusted_sum(h, lo, hi, actual, k),
    decreases k - lo,
{
    if k > lo {
        lemma_payout_prefix(h, lo, hi, actual, k - 1);
        let i = k - 1;
        let total = expected_sum(h, lo, hi);
        let d = share_of(total, actual, lo, hi, i);
        lemma_expected_one(h[i]);
        lemma_expected_bounds(h, lo, lo, hi);
        vstd::arithmetic::div_mod::lemma_fundamental_div_mod(gap_of(total, actual), hi - lo);
        vstd::arithmetic::div_mod::lemma_mod_bound(gap_of(total, actual), hi - lo);
        vstd::arithmetic::div_mod::lemma_div_pos_is_pos(gap_of(total, actual), hi - lo);
        lemma_mul_le(1, gap_of(total, actual) / (hi - lo), hi - lo, gap_of(total, actual) / (hi - lo));
        assert(0 <= d <= gap_of(total, actual));
        lemma_release_payout(h[i], adjusted_of(h, lo, hi, actual, i));
        assert(reconciled(h, lo, hi, actual)[i] == released_record(h[i], adjusted_of(h, lo, hi, actual, i)));
    }
}

/// What the reconciled batches pay out at their new rates adds up to what
/// actually arrived, less at most one unit of rounding per batch.
/// Stated where no batch's share of a loss exceeds what it expected, and
/// where the gap does not overflow.
pub proof fn lemma_payout_conservation(h: Seq<UnbondHistory>, lo: int, hi: int, actual: int)
    requires
        history_wf(h, lo),
        0 <= lo < hi <= h.len(),
        actual >= 0,
        !reconcile_overflows(h, lo, hi, actual),
        !loss_exceeds_batch(h, lo, hi, actual),
    ensures
        actual - (hi - lo) <= expected_sum(reconciled(h, lo, hi, actual), lo, hi) <= actual,
{
    assert forall|i: int| lo <= i < hi implies expected_of(#[trigger] h[i]) >= 0 by {
        lemma_expected_one(h[i]);
    }
    lemma_amortization_fairness(h, lo, hi, actual);
    lemma_payout_prefix(h, lo, hi, actual, hi);
}

} // verus!
