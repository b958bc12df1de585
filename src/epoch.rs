//! Epoch arithmetic: fixed windows of block time.

use vstd::prelude::*;

verus! {

/// Length of an epoch in seconds (six hours).
pub const EPOCH: u64 = 21600;

/// Epochs that an undelegation takes to mature.
pub const EPOCH_PER_UNDELEGATION_PERIOD: u64 = 2;

/// The key of an epoch's records.
#[derive(Clone, Copy, Debug, PartialEq, Eq, PartialOrd, Ord, Hash, Structural)]
pub struct EpocId {
    pub epoc_id: u64,
}

/// The epoch whose requests have matured by epoch `current_epoch`; zero while
/// fewer epochs than the undelegation period have passed.
pub fn get_past_epoch(current_epoch: u64) -> (r: u64)
    ensures
        current_epoch < EPOCH_PER_UNDELEGATION_PERIOD ==> r == 0,
        current_epoch >= EPOCH_PER_UNDELEGATION_PERIOD ==> r == current_epoch
            - EPOCH_PER_UNDELEGATION_PERIOD,
{
    if current_epoch < EPOCH_PER_UNDELEGATION_PERIOD {
        return 0;
    }
    current_epoch - EPOCH_PER_UNDELEGATION_PERIOD
}

/// The epoch at `current_time`, given that epoch `epoch_id` held at `prev_time`.
pub fn compute_current_epoch(epoch_id: u64, prev_time: u64, current_time: u64) -> (r: u64)
    requires
        prev_time <= current_time,
        epoch_id + (current_time - prev_time) / (EPOCH as int) <= u64::MAX,
    ensures
        r == epoch_id + (current_time - prev_time) / (EPOCH as int),
{
    epoch_id + (current_time - prev_time) / EPOCH
}

/// The epoch clock: the current epoch and the block time it was last moved at.
#[derive(Clone, Copy, Debug, PartialEq, Eq, Structural)]
pub struct TokenState {
    pub current_epoc: u64,
    pub current_block_time: u64,
}

impl TokenState {
    /// Moves the clock to `block_time`, advancing the epoch by the whole
    /// epochs that passed.
    pub fn compute_current_epoc(&mut self, block_time: u64)
        requires
            old(self).current_block_time <= block_time,
            old(self).current_epoc + (block_time - old(self).current_block_time) / (EPOCH as int)
                <= u64::MAX,
        ensures
            final(self).current_block_time == block_time,
            final(self).current_epoc == old(self).current_epoc + (block_time
                - old(self).current_block_time) / (EPOCH as int),
    {
        let epoc = self.current_epoc;
        let time = self.current_block_time;
        self.current_block_time = block_time;
        self.current_epoc = epoc + (block_time - time) / EPOCH;
    }

    /// Moves the clock's time to `block_time` and tells whether more than an
    /// epoch passed since the last move (exactly one epoch is not enough).
    /// The epoch number is left as it is.
    pub fn is_epoc_passed(&mut self, block_time: u64) -> (r: bool)
        requires
            old(self).current_block_time <= block_time,
        ensures
            r == (block_time - old(self).current_block_time > EPOCH),
            final(self).current_block_time == block_time,
            final(self).current_epoc == old(self).current_epoc,
    {
        let time = self.current_block_time;
        self.current_block_time = block_time;
        block_time - time > EPOCH
    }
}

} // verus!
