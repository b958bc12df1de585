use basset::decimal::{Decimal, DECIMAL_FRACTIONAL};
use basset::error::HubError;
use basset::reward::{calculate_reward, RewardIndex};

#[test]
fn touch_twice_is_touch_once() {
    let mut r = RewardIndex::new();
    r.touch_holder(7, 0).unwrap();
    assert_eq!(r.pending_reward(7), 0);
    r.update_global_index(1000, 0, 100).unwrap();
    assert_eq!(r.global_index.atomics, 10 * DECIMAL_FRACTIONAL);
    r.touch_holder(7, 50).unwrap();
    assert_eq!(r.pending_reward(7), 500);
    r.touch_holder(7, 50).unwrap();
    assert_eq!(r.pending_reward(7), 500);
}

#[test]
fn first_touch_owes_nothing_for_the_past() {
    let mut r = RewardIndex::new();
    r.accrue_global(300, 3).unwrap();
    r.touch_holder(9, 1000).unwrap();
    assert_eq!(r.pending_reward(9), 0);
    assert_eq!(r.holders[0].index.atomics, 100 * DECIMAL_FRACTIONAL);
}

#[test]
fn claim_pays_pending_and_new_accrual() {
    let mut r = RewardIndex::new();
    r.touch_holder(1, 0).unwrap();
    r.touch_holder(2, 0).unwrap();
    r.accrue_global(100, 50).unwrap();
    r.touch_holder(1, 10).unwrap();
    r.accrue_global(100, 50).unwrap();
    assert_eq!(r.claim(1, 10), Ok(40));
    assert_eq!(r.pending_reward(1), 0);
    assert_eq!(r.claim(1, 10), Ok(0));
    assert_eq!(r.claim(2, 5), Ok(20));
}

#[test]
fn accrual_skips_empty_supply() {
    let mut r = RewardIndex::new();
    r.accrue_global(100, 0).unwrap();
    assert_eq!(r.global_index.atomics, 0);
    assert_eq!(r.update_global_index(5, 10, 1), Err(HubError::InsufficientFunds));
    assert_eq!(r.accrue_global(u128::MAX, 1), Err(HubError::Overflow));
}

#[test]
fn reward_calculation() {
    let two = Decimal { atomics: 2 * DECIMAL_FRACTIONAL };
    assert_eq!(calculate_reward(two, Decimal::one(), 100), Ok(100));
    assert_eq!(calculate_reward(Decimal::one(), two, 100), Err(HubError::IndexAhead));
    assert_eq!(calculate_reward(Decimal::one(), two, 0), Ok(0));
    assert_eq!(calculate_reward(two, Decimal::zero(), u128::MAX), Err(HubError::Overflow));
}

#[test]
fn reward_index_well_formedness() {
    let mut r = RewardIndex::new();
    r.touch_holder(1, 0).unwrap();
    r.touch_holder(2, 0).unwrap();
    assert!(r.check_wf());
    r.holders[1].holder = 1;
    assert!(!r.check_wf());
    let mut ahead = RewardIndex::new();
    ahead.touch_holder(3, 0).unwrap();
    ahead.holders[0].index = Decimal::one();
    assert!(!ahead.check_wf());
}
