//! Accounting core of a liquid-staking hub: exchange-rate pool, epoch batches
//! of redemptions, the unbonding ledger, slashing reconciliation, reward index
//! accrual and validator allocation.

pub mod decimal;
pub mod error;
pub mod pool;
pub mod reward;
pub mod epoch;
pub mod token;
pub mod ledger;
pub mod slashing;
pub mod allocator;
pub mod hub;
pub mod msg;
