use basset::decimal::{Decimal, DECIMAL_FRACTIONAL};
use basset::error::HubError;
use basset::hub::{Hub, Parameters};

const ALICE: u64 = 1;
const BOB: u64 = 2;
const CAROL: u64 = 3;

fn params(epoch_period: u64, unbonding_period: u64, fee: u128, threshold: u128) -> Parameters {
    Parameters {
        epoch_period,
        unbonding_period,
        peg_recovery_fee: Decimal { atomics: fee },
        er_threshold: Decimal { atomics: threshold },
    }
}

fn whitelist() -> Vec<String> {
    vec!["valoper1".to_string(), "valoper2".to_string()]
}

/// A hub at time 0 holding 1000 principal delegated to the first validator.
fn funded_hub(p: Parameters) -> Hub {
    let mut hub = Hub::new(p, 0).unwrap();
    let (minted, idx) = hub.bond(1000, &"valoper1".to_string(), &whitelist(), 0).unwrap();
    assert_eq!(minted, 1000);
    assert_eq!(idx, 0);
    hub
}

#[test]
fn scenario_epoch_closes_after_period() {
    let mut hub = funded_hub(params(21600, 100_000, 0, 0));
    let first = hub.unbond(ALICE, 100, 0, 1000, &vec![1000], 42).unwrap();
    assert_eq!(first.closed_batch, None);
    assert_eq!(hub.current_batch.id, 0);
    assert_eq!(hub.current_batch.requested_with_fee, 100);

    let second = hub.unbond(BOB, 50, 21601, 1000, &vec![1000], 42).unwrap();
    assert_eq!(second.closed_batch, Some(0));
    assert_eq!(second.undelegated, 100);
    let total: u128 = second.orders.iter().map(|o| o.amount).sum();
    assert_eq!(total, 100);
    assert_eq!(hub.current_batch.id, 1);
    assert_eq!(hub.current_batch.requested_with_fee, 50);
    assert_eq!(hub.history.len(), 1);
    assert_eq!(hub.history[0].amount, 100);
    assert_eq!(hub.history[0].withdraw_rate, Decimal::one());
    assert!(!hub.history[0].released);
    assert_eq!(hub.last_unbonded_time, 21601);
    assert_eq!(hub.pool.total_bond_amount, 900);
}

#[test]
fn batch_does_not_close_at_exactly_one_epoch() {
    let mut hub = funded_hub(params(21600, 100_000, 0, 0));
    hub.unbond(ALICE, 100, 0, 1000, &vec![1000], 1).unwrap();
    let at_epoch = hub.unbond(BOB, 10, 21600, 1000, &vec![1000], 1).unwrap();
    assert_eq!(at_epoch.closed_batch, None);
    assert_eq!(hub.current_batch.requested_with_fee, 110);
    let after = hub.unbond(CAROL, 10, 21601, 1000, &vec![1000], 1).unwrap();
    assert_eq!(after.closed_batch, Some(0));
    assert_eq!(after.undelegated, 110);
}

#[test]
fn elapsed_epoch_over_empty_batch_restarts_it() {
    let mut hub = funded_hub(params(10, 100, 0, 0));
    let out = hub.unbond(ALICE, 100, 50, 1000, &vec![1000], 1).unwrap();
    assert_eq!(out.closed_batch, None);
    assert_eq!(hub.last_unbonded_time, 50);
    assert_eq!(hub.current_batch.requested_with_fee, 100);
}

#[test]
fn peg_fee_applies_below_threshold() {
    // threshold 1.0, fee 0.5%
    let mut hub = funded_hub(params(100, 100, 5_000_000_000_000_000, DECIMAL_FRACTIONAL));
    // delegations came back at 900 instead of 1000: the pool is slashed to 0.9
    let out = hub.unbond(ALICE, 100, 1, 900, &vec![900], 1).unwrap();
    assert_eq!(hub.pool.total_bond_amount, 900);
    assert_eq!(out.amount_with_fee, 99);
    assert_eq!(hub.current_batch.requested_with_fee, 99);
    // the fee stays in the pool: one derivative less claims the principal
    assert_eq!(hub.pool.total_issued, 999);
    assert_eq!(hub.unbond_requests(ALICE), vec![(0, 99)]);
}

#[test]
fn peg_fee_not_applied_at_or_above_threshold() {
    let mut hub = funded_hub(params(100, 100, 5_000_000_000_000_000, DECIMAL_FRACTIONAL));
    let out = hub.unbond(ALICE, 100, 1, 1000, &vec![1000], 1).unwrap();
    assert_eq!(out.amount_with_fee, 100);
    assert_eq!(hub.pool.total_issued, 1000);
}

#[test]
fn unbond_errors() {
    let mut hub = funded_hub(params(10, 100, 0, 0));
    assert_eq!(hub.unbond(ALICE, 0, 1, 1000, &vec![1000], 1).unwrap_err(), HubError::ZeroAmount);
    assert_eq!(
        hub.unbond(ALICE, 1001, 1, 1000, &vec![1000], 1).unwrap_err(),
        HubError::InsufficientPool
    );
    hub.unbond(ALICE, 100, 1, 1000, &vec![1000], 1).unwrap();
    // the validators hold less than the batch to undelegate
    assert_eq!(
        hub.unbond(BOB, 10, 20, 1000, &vec![40, 50], 1).unwrap_err(),
        HubError::InsufficientDelegations
    );
    assert_eq!(hub.current_batch.requested_with_fee, 100);
    assert_eq!(hub.history.len(), 0);
}

#[test]
fn bond_errors() {
    let mut hub = Hub::new(params(10, 100, 0, 0), 0).unwrap();
    assert_eq!(
        hub.bond(10, &"nobody".to_string(), &whitelist(), 0).unwrap_err(),
        HubError::UnknownValidator
    );
    assert_eq!(
        hub.bond(0, &"valoper2".to_string(), &whitelist(), 0).unwrap_err(),
        HubError::ZeroAmount
    );
    assert_eq!(hub.bond(10, &"valoper2".to_string(), &whitelist(), 0), Ok((10, 1)));
}

/// Closes two batches of 100 each (Alice's and Bob's) and returns the hub.
fn two_closed_batches() -> Hub {
    let mut hub = funded_hub(params(10, 100, 0, 0));
    hub.unbond(ALICE, 100, 0, 1000, &vec![1000], 3).unwrap();
    let c0 = hub.unbond(BOB, 100, 11, 1000, &vec![1000], 3).unwrap();
    assert_eq!(c0.closed_batch, Some(0));
    let c1 = hub.unbond(CAROL, 1, 22, 900, &vec![900], 3).unwrap();
    assert_eq!(c1.closed_batch, Some(1));
    hub
}

#[test]
fn withdraw_before_maturity_has_nothing() {
    let mut hub = two_closed_batches();
    assert_eq!(hub.withdraw_unbonded(ALICE, 110, 200).unwrap_err(), HubError::NothingToWithdraw);
    assert_eq!(hub.released_batches, 0);
    assert_eq!(hub.withdrawable_amount(ALICE, 110, 200), Ok(0));
}

#[test]
fn no_double_withdrawal() {
    let mut hub = two_closed_batches();
    assert_eq!(hub.withdrawable_amount(ALICE, 122, 200), Ok(100));
    assert_eq!(hub.withdraw_unbonded(ALICE, 122, 200), Ok(100));
    assert_eq!(hub.prev_hub_balance, 100);
    assert_eq!(hub.withdraw_unbonded(ALICE, 122, 100).unwrap_err(), HubError::NothingToWithdraw);
    assert_eq!(hub.withdraw_unbonded(ALICE, 122, 100).unwrap_err(), HubError::NothingToWithdraw);
    assert_eq!(hub.prev_hub_balance, 100);
    assert_eq!(hub.withdraw_unbonded(BOB, 122, 100), Ok(100));
}

#[test]
fn slashing_loss_is_shared_evenly() {
    let mut hub = two_closed_batches();
    // 200 was expected back, 180 arrived
    assert_eq!(hub.withdraw_unbonded(ALICE, 122, 180), Ok(90));
    assert_eq!(hub.released_batches, 2);
    let h = hub.all_history(None, None).history;
    assert_eq!(h.len(), 2);
    assert_eq!(h[0].0, 0);
    assert_eq!(h[1].0, 1);
    assert_eq!(h[0].1.withdraw_rate.atomics, 900_000_000_000_000_000);
    assert_eq!(h[1].1.withdraw_rate.atomics, 900_000_000_000_000_000);
    assert!(h[0].1.released && h[1].1.released);
    assert_eq!(hub.withdraw_unbonded(BOB, 122, 90), Ok(90));
}

#[test]
fn slashing_remainder_goes_to_newest_batch() {
    let mut hub = two_closed_batches();
    // 200 expected, 185 arrived: 15 lost, 7 each and 1 more on the newest
    assert_eq!(hub.withdraw_unbonded(ALICE, 122, 185), Ok(93));
    assert_eq!(hub.history[0].withdraw_rate.atomics, 930_000_000_000_000_000);
    assert_eq!(hub.history[1].withdraw_rate.atomics, 920_000_000_000_000_000);
}

#[test]
fn gain_is_shared_evenly() {
    let mut hub = two_closed_batches();
    assert_eq!(hub.withdraw_unbonded(BOB, 122, 220), Ok(110));
    assert_eq!(hub.history[0].withdraw_rate.atomics, 1_100_000_000_000_000_000);
}

#[test]
fn withdraw_nothing_when_all_was_lost() {
    let mut hub = two_closed_batches();
    // nothing arrived: 200 lost, the batches pay nothing
    assert_eq!(hub.withdraw_unbonded(ALICE, 122, 0).unwrap_err(), HubError::NothingToWithdraw);
    assert_eq!(hub.released_batches, 0);
}

#[test]
fn withdraw_needs_funds() {
    let mut hub = two_closed_batches();
    assert_eq!(hub.withdraw_unbonded(ALICE, 122, 200), Ok(100));
    // the free balance fell below Bob's matured claim before he withdrew
    assert_eq!(hub.withdraw_unbonded(BOB, 122, 50).unwrap_err(), HubError::InsufficientFunds);
    assert_eq!(hub.prev_hub_balance, 100);
    assert_eq!(hub.withdrawable_amount(BOB, 122, 50), Ok(100));
}

#[test]
fn withdraw_overflow_on_huge_gain() {
    let mut hub = two_closed_batches();
    assert_eq!(hub.withdraw_unbonded(ALICE, 122, u128::MAX).unwrap_err(), HubError::Overflow);
    assert_eq!(hub.released_batches, 0);
}

#[test]
fn slashing_check_lowers_bond() {
    let mut hub = funded_hub(params(10, 100, 0, 0));
    hub.check_slashing(950);
    assert_eq!(hub.pool.total_bond_amount, 950);
    assert_eq!(hub.pool.exchange_rate.atomics, 950_000_000_000_000_000);
    assert_eq!(hub.prev_delegations, 950);
    assert_eq!(hub.bonded_since_check, 0);
    // delegations grew as bonded: no loss
    hub.bond(50, &"valoper1".to_string(), &whitelist(), 950).unwrap();
    hub.check_slashing(1000);
    assert_eq!(hub.pool.total_bond_amount, 1000);
}

#[test]
fn parameters_are_checked() {
    assert!(Hub::new(params(1, 1, DECIMAL_FRACTIONAL + 1, 0), 0).is_err());
    let mut hub = Hub::new(params(1, 1, 0, 0), 0).unwrap();
    assert_eq!(
        hub.update_params(None, None, Some(Decimal { atomics: DECIMAL_FRACTIONAL + 1 }), None),
        Err(HubError::InvalidParameters)
    );
    assert_eq!(hub.update_params(Some(7), None, None, Some(Decimal::one())), Ok(()));
    assert_eq!(hub.params.epoch_period, 7);
    assert_eq!(hub.params.unbonding_period, 1);
    assert_eq!(hub.params.er_threshold, Decimal::one());
}

#[test]
fn ledger_queries() {
    let hub = two_closed_batches();
    assert_eq!(hub.unbond_requests(BOB), vec![(1, 100)]);
    assert_eq!(hub.unbond_batches(CAROL).unbond_batches, vec![2]);
    let page = hub.all_history(Some(1), Some(5)).history;
    assert_eq!(page.len(), 1);
    assert_eq!(page[0].0, 1);
    assert_eq!(hub.all_history(Some(9), None).history.len(), 0);
}

#[test]
fn global_index_update_is_recorded() {
    let mut hub = Hub::new(params(1, 1, 0, 0), 5).unwrap();
    assert_eq!(hub.last_index_modification, 5);
    assert_eq!(hub.prev_hub_balance, 0);
    assert_eq!(hub.prev_delegations, 0);
    assert_eq!(hub.bonded_since_check, 0);
    hub.update_global(77);
    assert_eq!(hub.last_index_modification, 77);
}

#[test]
fn well_formedness_is_checked() {
    let mut hub = two_closed_batches();
    assert!(hub.check_wf());
    hub.withdraw_unbonded(ALICE, 122, 180).unwrap();
    assert!(hub.check_wf());
    hub.current_batch.requested_with_fee += 1;
    assert!(!hub.check_wf());
    let mut other = two_closed_batches();
    other.pool.exchange_rate = Decimal { atomics: 7 };
    assert!(!other.check_wf());
    let mut third = two_closed_batches();
    third.claims[0].batch_id = 9;
    assert!(!third.check_wf());
}
