use basset::decimal::{div_uint, mul_uint, Decimal, DECIMAL_FRACTIONAL, MAX_AMOUNT};
use basset::error::HubError;
use basset::pool::PoolInfo;

#[test]
fn scenario_mint_then_burn_at_par() {
    let mut pool = PoolInfo::with_totals(1000, 1000).unwrap();
    assert_eq!(pool.exchange_rate, Decimal::one());
    assert_eq!(pool.mint(500), Ok(500));
    assert_eq!(pool.total_bond_amount, 1500);
    assert_eq!(pool.total_issued, 1500);
    assert_eq!(pool.exchange_rate, Decimal::one());
    assert_eq!(pool.burn(300), Ok(300));
    assert_eq!(pool.total_bond_amount, 1200);
    assert_eq!(pool.total_issued, 1200);
    assert_eq!(pool.exchange_rate, Decimal::one());
}

#[test]
fn bootstrap_first_mint_issues_principal() {
    let mut pool = PoolInfo::default();
    assert_eq!(pool, PoolInfo::new());
    assert_eq!(pool.mint(1_234_567), Ok(1_234_567));
    assert_eq!(pool.total_bond_amount, 1_234_567);
    assert_eq!(pool.total_issued, 1_234_567);
    assert_eq!(pool.exchange_rate, Decimal::one());
}

fn conserved(p: &PoolInfo) -> bool {
    let r = p.exchange_rate.atomics;
    let issued = p.total_issued;
    let bond = p.total_bond_amount * DECIMAL_FRACTIONAL;
    r * issued <= bond && bond < (r + 1) * issued
}

#[test]
fn rate_conservation_over_mints_and_burns() {
    let mut pool = PoolInfo::with_totals(1000, 700).unwrap();
    assert!(conserved(&pool));
    // 1000 / 700 = 1.428571428571428571
    assert_eq!(pool.exchange_rate.atomics, 1_428_571_428_571_428_571);
    let minted = pool.mint(333).unwrap();
    assert_eq!(minted, 233);
    assert!(conserved(&pool));
    let released = pool.burn(77).unwrap();
    assert_eq!(released, 110);
    assert!(conserved(&pool));
    pool.mint(5).unwrap();
    assert!(conserved(&pool));
    pool.burn(pool.total_issued).unwrap();
    assert_eq!(pool.total_issued, 0);
    assert_eq!(pool.exchange_rate, Decimal::one());
}

#[test]
fn mint_rejects_zero_and_overflow() {
    let mut pool = PoolInfo::with_totals(10, 10).unwrap();
    assert_eq!(pool.mint(0), Err(HubError::ZeroAmount));
    assert_eq!(pool.mint(MAX_AMOUNT), Err(HubError::Overflow));
    assert_eq!(pool.total_bond_amount, 10);
    assert_eq!(pool.total_issued, 10);
    assert_eq!(PoolInfo::with_totals(MAX_AMOUNT + 1, 1).unwrap_err(), HubError::Overflow);
}

#[test]
fn burn_more_than_issued_fails() {
    let mut pool = PoolInfo::with_totals(100, 50).unwrap();
    assert_eq!(pool.burn(51), Err(HubError::InsufficientPool));
    assert_eq!(pool.burn(0), Err(HubError::ZeroAmount));
    assert_eq!(pool.total_issued, 50);
    // a pool whose principal was all lost still counts at 1.0
    let mut empty = PoolInfo::with_totals(0, 50).unwrap();
    assert_eq!(empty.exchange_rate, Decimal::one());
    assert_eq!(empty.burn(10), Err(HubError::InsufficientPool));
}

#[test]
fn decimal_arithmetic() {
    let half = Decimal::from_ratio(1, 2);
    assert_eq!(half.atomics, DECIMAL_FRACTIONAL / 2);
    assert_eq!(Decimal::percent(50), half);
    assert_eq!(mul_uint(101, half), 50);
    assert_eq!(div_uint(101, half), 202);
    assert!(half.lt(&Decimal::one()));
    assert!(!Decimal::one().lt(&half));
    assert_eq!(Decimal::one().checked_sub(&half), Some(half));
    assert_eq!(half.checked_sub(&Decimal::one()), None);
    assert!(Decimal::zero().is_zero());
    assert_eq!(Decimal::from_ratio(2, 3).atomics, 666_666_666_666_666_666);
}
