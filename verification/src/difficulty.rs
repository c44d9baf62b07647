//! The difficulty adjuster: once per epoch the difficulty is rescaled so that
//! blocks keep arriving near the target block time.

use vstd::prelude::*;
use crate::chain::Block;

verus! {

/// The parameters of difficulty adjustment.
#[derive(Clone, Copy, Debug, PartialEq, Eq, Structural)]
pub struct DifficultyRule {
    /// The block interval that the network aims for.
    pub target_block_time: u64,
    /// The number of blocks between two adjustments.
    pub epoch_length: u64,
    /// The largest factor by which one adjustment may raise or lower the difficulty.
    pub max_factor: u64,
}

impl DifficultyRule {
    /// The rule can be applied: no parameter is zero, and the time an epoch is
    /// meant to take fits the clock.
    pub open spec fn wf(self) -> bool {
        &&& self.target_block_time > 0
        &&& self.epoch_length > 0
        &&& self.max_factor > 0
        &&& self.target_block_time * self.epoch_length <= u64::MAX
    }
}

/// The largest difficulty that one adjustment can reach from `current`.
pub open spec fn difficulty_ceiling(current: u64, max_factor: u64) -> int {
    if current * max_factor > u64::MAX {
        u64::MAX as int
    } else {
        current * max_factor
    }
}

/// The smallest difficulty that one adjustment can reach from `current`.
pub open spec fn difficulty_floor(current: u64, max_factor: u64) -> int {
    if current / max_factor < 1 {
        1
    } else {
        (current / max_factor) as int
    }
}

/// The adjusted difficulty: `current` scaled by the time an epoch should have
/// taken over the time it took, kept between floor and ceiling. An epoch that
/// took no time at all gets the ceiling.
pub open spec fn next_difficulty_spec(
    current: u64,
    last_epoch_time: u64,
    now: u64,
    target_block_time: u64,
    epoch_length: u64,
    max_factor: u64,
) -> int {
    let hi = difficulty_ceiling(current, max_factor);
    let lo = difficulty_floor(current, max_factor);
    if now <= last_epoch_time {
        hi
    } else {
        let scaled = (current * (target_block_time * epoch_length)) / (now - last_epoch_time);
        if scaled > hi {
            hi
        } else if scaled < lo {
            lo
        } else {
            scaled
        }
    }
}

/// Recomputes the difficulty at an epoch boundary.
pub fn next_difficulty(
    current_difficulty: u64,
    last_epoch_time: u64,
    now: u64,
    target_block_time: u64,
    epoch_length: u64,
    max_factor: u64,
) -> (d: u64)
    requires
        current_difficulty > 0,
        max_factor > 0,
        target_block_time * epoch_length <= u64::MAX,
    ensures
        d == next_difficulty_spec(
            current_difficulty,
            last_epoch_time,
            now,
            target_block_time,
            epoch_length,
            max_factor,
        ),
        d > 0,
        difficulty_floor(current_difficulty, max_factor) <= d <= difficulty_ceiling(
            current_difficulty,
            max_factor,
        ),
{
    assert(current_difficulty * max_factor <= u64::MAX * u64::MAX) by (nonlinear_arith)
        requires
            0 <= current_difficulty <= u64::MAX,
            0 <= max_factor <= u64::MAX,
    ;
    let wide_hi: u128 = current_difficulty as u128 * max_factor as u128;
    let hi: u64 = if wide_hi > u64::MAX as u128 {
        u64::MAX
    } else {
        wide_hi as u64
    };
    let quotient: u64 = current_difficulty / max_factor;
    let lo: u64 = if quotient < 1 {
        1
    } else {
        quotient
    };
    assert(lo <= current_difficulty <= hi) by (nonlinear_arith)
        requires
            current_difficulty > 0,
            max_factor > 0,
            lo == if current_difficulty / max_factor < 1 {
                1
            } else {
                current_difficulty / max_factor
            },
            hi == if current_difficulty * max_factor > u64::MAX {
                u64::MAX as int
            } else {
                current_difficulty * max_factor
            },
    ;
    if now <= last_epoch_time {
        return hi;
    }
    let elapsed: u64 = now - last_epoch_time;
    assert(target_block_time * epoch_length >= 0) by (nonlinear_arith);
    let expected: u64 = target_block_time * epoch_length;
    assert(current_difficulty * expected <= u64::MAX * u64::MAX) by (nonlinear_arith)
        requires
            0 <= current_difficulty <= u64::MAX,
            0 <= expected <= u64::MAX,
    ;
    let scaled: u128 = (current_difficulty as u128 * expected as u128) / elapsed as u128;
    if scaled > hi as u128 {
        hi
    } else if scaled < lo as u128 {
        lo
    } else {
        scaled as u64
    }
}

/// An epoch that took exactly the time it should keeps the difficulty.
pub proof fn lemma_on_target_keeps_difficulty(
    current: u64,
    last_epoch_time: u64,
    now: u64,
    target_block_time: u64,
    epoch_length: u64,
    max_factor: u64,
)
    requires
        current > 0,
        max_factor > 0,
        now > last_epoch_time,
        now - last_epoch_time == target_block_time * epoch_length,
    ensures
        next_difficulty_spec(
            current,
            last_epoch_time,
            now,
            target_block_time,
            epoch_length,
            max_factor,
        ) == current,
{
    let elapsed = now - last_epoch_time;
    assert((current * elapsed) / elapsed == current) by (nonlinear_arith)
        requires
            elapsed > 0,
    ;
    assert(difficulty_floor(current, max_factor) <= current <= difficulty_ceiling(
        current,
        max_factor,
    )) by (nonlinear_arith)
        requires
            0 < current <= u64::MAX,
            max_factor > 0,
    ;
}

/// An epoch that took one `k`-th of the time it should multiplies the
/// difficulty by `k`, as far as the clamp factor and the range of a
/// difficulty allow.
pub proof fn lemma_fast_epoch_scales(
    current: u64,
    last_epoch_time: u64,
    now: u64,
    target_block_time: u64,
    epoch_length: u64,
    max_factor: u64,
    k: nat,
)
    requires
        current > 0,
        max_factor > 0,
        now > last_epoch_time,
        k >= 1,
        target_block_time * epoch_length == k * (now - last_epoch_time),
    ensures
        next_difficulty_spec(
            current,
            last_epoch_time,
            now,
            target_block_time,
            epoch_length,
            max_factor,
        ) == if k > max_factor {
            difficulty_ceiling(current, max_factor)
        } else if current * k > u64::MAX {
            u64::MAX as int
        } else {
            current * k
        },
{
    let elapsed = now - last_epoch_time;
    assert((current * (k * elapsed)) / elapsed == current * k) by (nonlinear_arith)
        requires
            elapsed > 0,
    ;
    let factor = max_factor as int;
    assert(difficulty_floor(current, max_factor) <= current) by (nonlinear_arith)
        requires
            0 < current <= u64::MAX,
            max_factor > 0,
    ;
    assert(current <= current * k) by (nonlinear_arith)
        requires
            0 < current,
            k >= 1,
    ;
    assert(k > factor ==> current * k > current * factor) by (nonlinear_arith)
        requires
            0 < current,
            factor > 0,
    ;
    assert(k <= factor ==> current * k <= current * factor) by (nonlinear_arith)
        requires
            0 < current,
            k >= 1,
    ;
}

/// Whether the child of a block at `height` opens a new epoch.
pub open spec fn closes_epoch(height: u64, epoch_length: u64) -> bool {
    height % epoch_length == epoch_length - 1
}

/// The difficulty and the epoch start that the child of `parent` carries. The
/// child of the last block of an epoch is adjusted by the time that epoch took
/// up to `parent`; every other block inherits both values from its parent.
pub open spec fn child_difficulty_spec(parent: Block, rule: DifficultyRule) -> (u64, u64) {
    if closes_epoch(parent.height, rule.epoch_length) {
        (
            next_difficulty_spec(
                parent.difficulty,
                parent.last_epoch_time,
                parent.time,
                rule.target_block_time,
                rule.epoch_length,
                rule.max_factor,
            ) as u64,
            parent.time,
        )
    } else {
        (parent.difficulty, parent.last_epoch_time)
    }
}

/// Computes the difficulty and the epoch start of the block that extends `parent`.
pub fn child_difficulty(parent: &Block, rule: &DifficultyRule) -> (r: (u64, u64))
    requires
        rule.wf(),
        parent.difficulty > 0,
    ensures
        r == child_difficulty_spec(*parent, *rule),
        r.0 > 0,
{
    if parent.height % rule.epoch_length == rule.epoch_length - 1 {
        let d = next_difficulty(
            parent.difficulty,
            parent.last_epoch_time,
            parent.time,
            rule.target_block_time,
            rule.epoch_length,
            rule.max_factor,
        );
        (d, parent.time)
    } else {
        (parent.difficulty, parent.last_epoch_time)
    }
}

/// The difficulty of a child is positive where its parent's is.
pub proof fn lemma_child_difficulty_positive(parent: Block, rule: DifficultyRule)
    requires
        rule.wf(),
        parent.difficulty > 0,
    ensures
        child_difficulty_spec(parent, rule).0 > 0,
{
    let current = parent.difficulty;
    let factor = rule.max_factor;
    assert(1 <= difficulty_floor(current, factor) <= current <= difficulty_ceiling(current, factor)
        <= u64::MAX) by (nonlinear_arith)
        requires
            0 < current <= u64::MAX,
            factor > 0,
    ;
}

} // verus!
