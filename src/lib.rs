//! Per-block reward distribution with vesting locks.
//!
//! - `arith`: percent and parts-per-billion fractions, computed by sp-arithmetic.
//! - `distribute`: the split of a block reward, with the overmining slash.
//! - `locks`: the vesting lock ledger and the lock-schedule policy.
//! - `schedule`: the reward and mints in force and their queued changes.
//! - `pallet`: the per-block engine, which hands currency work out as effects.
use vstd::prelude::*;

pub mod arith;
pub mod distribute;
pub mod locks;
pub mod pallet;
pub mod schedule;

use crate::locks::LockParameters;

verus! {

/// Why an administrative change is refused.
#[derive(Clone, Copy, PartialEq, Eq, Debug, Structural)]
pub enum Error {
    /// A reward amount is below the minimum balance.
    RewardTooLow,
    /// A mint amount is below the minimum balance.
    MintTooLow,
    /// Lock parameters lie outside their bounds.
    LockParamsOutOfBounds,
    /// The lock period is not a multiple of the divide.
    LockPeriodNotDivisible,
}

/// What the engine reports of its work.
pub enum Event {
    /// A new schedule was set.
    ScheduleSet,
    /// The reward in force changed to this amount.
    RewardChanged(u128),
    /// The mints in force changed to these.
    MintsChanged(Vec<(u64, u128)>),
    /// The lock parameters changed.
    LockParamsChanged(LockParameters),
    /// The miner share changed to this percent.
    MinerShare(u8),
    /// The author's pool produced above the limit; this much was slashed.
    PoolExceedsLimit(u64, u128),
}

} // verus!
