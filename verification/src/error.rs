//! The errors a simulation run can end with. Every error is terminal for the run.

use vstd::prelude::*;

verus! {

/// What is wrong with a configuration that was rejected before the run started.
#[derive(Clone, Copy, Debug, PartialEq, Eq, Structural)]
pub enum ConfigFault {
    /// The miner population is empty.
    NoMiners,
    /// More miners than a block's `minter` field can name.
    TooManyMiners,
    /// The hash rates of all miners add up to zero.
    ZeroTotalHashRate,
    /// A miner's hash rate is zero while others are not.
    ZeroHashRate,
    /// A miner's hash rate exceeds the largest that interval sampling supports.
    HashRateTooLarge,
    /// The target block time is zero.
    ZeroTargetBlockTime,
    /// The epoch length is zero.
    ZeroEpochLength,
    /// Target block time times epoch length does not fit the clock.
    EpochTooLong,
    /// The difficulty adjustment clamp factor is zero.
    ZeroClampFactor,
    /// The smallest network delay is larger than the largest.
    DelayRangeInverted,
}

/// An internal rule of the block tree or of the schedule that an operation
/// would have broken.
#[derive(Clone, Copy, Debug, PartialEq, Eq, Structural)]
pub enum Violation {
    /// The parent handle names no block of the tree.
    UnknownParent,
    /// The block would be older than its parent.
    TimeBeforeParent,
    /// A mined block must name a real miner.
    MinterMissing,
    /// A block's difficulty must be positive.
    ZeroDifficulty,
    /// A propagation task delivers a block that the tree does not hold.
    MissingPropagatedBlock,
    /// A task names a miner outside the pool.
    UnknownMiner,
    /// A task is due before the current simulated time.
    TaskInPast,
}

/// How a run can fail.
#[derive(Clone, Copy, Debug, PartialEq, Eq, Structural)]
pub enum SimError {
    /// The configuration was rejected before the loop started.
    ConfigurationError(ConfigFault),
    /// A programming-logic failure; the run is aborted.
    InvariantViolation(Violation),
    /// The event cap was hit before any stopping condition: the run did not converge.
    Exhaustion,
}

} // verus!
