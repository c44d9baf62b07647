//! The simulation as a state machine over mathematical values: what a run is,
//! apart from how it is computed. The scheduler's contracts are stated here.

use vstd::prelude::*;
use crate::chain::{
    appended, chain_weight, child_ok, finality_ok, fits, grows_from, is_ancestor,
    lemma_append_frames, lemma_append_keeps_finality, lemma_grows_from_transitive,
    lemma_max_height_bounds, max_height, new_block, tree_ok, Block, BlockId,
};
use crate::difficulty::{child_difficulty_spec, lemma_child_difficulty_positive, DifficultyRule};
use crate::error::{ConfigFault, Violation};
use crate::miner::{due, fresh_pool, pool_fault, pool_ok, tips_within, total_rate, Miner};
use crate::queue::{earliest, popped, pushed, queue_ok, QueueState, Task, TaskKind};
use crate::rng::{draw_value, state_after_draw};
use crate::sampling::{generation_interval, network_delay, MAX_HASH_RATE};

verus! {

/// The settings of a run, apart from the miners' hash rates.
#[derive(Clone, Copy, Debug, PartialEq, Eq, Structural)]
pub struct Config {
    /// The smallest delay of a block transfer between two miners.
    pub delay_min: u64,
    /// The largest delay of a block transfer between two miners.
    pub delay_max: u64,
    /// Target block time, epoch length and clamp factor of difficulty adjustment.
    pub rule: DifficultyRule,
    /// How deep a block must be buried to become final.
    pub confirmation_depth: u64,
    /// The run halts before an event that is due after this time.
    pub time_horizon: u64,
    /// The run halts once a block stands at this height.
    pub height_horizon: u64,
    /// The run fails as soon as this many events have fired without a halt.
    pub max_events: u64,
    /// The seed of the random number generator.
    pub seed: u64,
}

/// A delivery that met a competing branch: the block at `height`, sent by
/// `from`, reached `to` while `to` mined on a tip that neither descends from
/// the block nor precedes it. `adopted` tells whether `to` switched to the
/// block's branch, which resolves the split for that miner.
#[derive(Clone, Copy, Debug, PartialEq, Eq, Structural)]
pub struct ForkEvent {
    pub time: u64,
    pub height: u64,
    pub from: usize,
    pub to: usize,
    pub adopted: bool,
}

/// The state of a run.
pub struct SimState {
    pub config: Config,
    pub blocks: Seq<Block>,
    pub miners: Seq<Miner>,
    pub queue: QueueState,
    pub rng: u64,
    pub now: u64,
    pub processed: u64,
    pub forks: Seq<ForkEvent>,
}

/// Whether a run goes on, and why not where it does not.
#[derive(Clone, Copy, Debug, PartialEq, Eq, Structural)]
pub enum Status {
    /// The next event is due.
    Running,
    /// A block stands at the height horizon.
    HeightReached,
    /// No event is pending.
    QueueEmpty,
    /// The next event is due after the time horizon.
    TimeHorizon,
    /// The event cap was hit, or the queue cannot number the tasks that one
    /// more event may schedule: the run did not converge.
    Exhausted,
}

/// What is wrong with the settings, if anything is.
pub open spec fn config_fault(config: Config) -> Option<ConfigFault> {
    if config.rule.target_block_time == 0 {
        Some(ConfigFault::ZeroTargetBlockTime)
    } else if config.rule.epoch_length == 0 {
        Some(ConfigFault::ZeroEpochLength)
    } else if config.rule.max_factor == 0 {
        Some(ConfigFault::ZeroClampFactor)
    } else if config.rule.target_block_time * config.rule.epoch_length > u64::MAX {
        Some(ConfigFault::EpochTooLong)
    } else if config.delay_min > config.delay_max {
        Some(ConfigFault::DelayRangeInverted)
    } else {
        None
    }
}

/// Why a run cannot be set up from these hash rates and settings, if it cannot.
pub open spec fn setup_fault(rates: Seq<u64>, config: Config) -> Option<ConfigFault> {
    if pool_fault(rates) is Some {
        pool_fault(rates)
    } else {
        config_fault(config)
    }
}

/// Why a task cannot be scheduled in this state, if it cannot.
pub open spec fn task_fault(s: SimState, t: Task) -> Option<Violation> {
    match t.kind {
        TaskKind::BlockGeneration { minter, .. } => {
            if minter >= s.miners.len() {
                Some(Violation::UnknownMiner)
            } else if t.time < s.now {
                Some(Violation::TaskInPast)
            } else {
                None
            }
        },
        TaskKind::Propagation { from, to, block } => {
            if from >= s.miners.len() || to >= s.miners.len() {
                Some(Violation::UnknownMiner)
            } else if block >= s.blocks.len() {
                Some(Violation::MissingPropagatedBlock)
            } else if t.time < s.now {
                Some(Violation::TaskInPast)
            } else {
                None
            }
        },
    }
}

/// The invariant of a run.
#[verifier::opaque]
pub open spec fn sim_ok(s: SimState) -> bool {
    &&& config_fault(s.config) is None
    &&& tree_ok(s.blocks)
    &&& finality_ok(s.blocks, s.config.confirmation_depth)
    &&& pool_ok(s.miners)
    &&& tips_within(s.miners, s.blocks.len())
    &&& queue_ok(s.queue)
    &&& forall|t: Task| #[trigger] s.queue.tasks.contains(t) ==> task_fault(s, t) is None
    &&& forall|i: int|
        0 <= i < s.blocks.len() ==> (#[trigger] s.blocks[i]).time <= s.now && s.blocks[i].minter
            < s.miners.len()
    &&& forall|m: int| 0 <= m < s.miners.len() ==> (#[trigger] s.miners[m]).version <= s.processed
}

/// The queue after a task was entered that fires at `time`; a task that never
/// fires is not entered.
pub open spec fn enqueued(q: QueueState, time: Option<u64>, kind: TaskKind) -> QueueState {
    match time {
        Some(t) => pushed(q, t, kind),
        None => q,
    }
}

/// The difficulty of the block that would extend the tip of miner `m`.
pub open spec fn mining_difficulty(s: SimState, m: int) -> u64 {
    child_difficulty_spec(s.blocks[s.miners[m].tip as int], s.config.rule).0
}

/// The state after the current mining attempt of miner `m` was given its
/// completion time: one draw, and one generation task in the queue, unless
/// the block would be completed after the end of the clock.
pub open spec fn schedule_generation(s: SimState, m: int) -> SimState {
    let draw = draw_value(s.rng);
    let interval = generation_interval(
        draw,
        s.miners[m].hash_rate,
        total_rate(s.miners) as u64,
        mining_difficulty(s, m),
        s.config.rule.target_block_time,
    );
    SimState {
        queue: enqueued(
            s.queue,
            due(s.now, interval),
            TaskKind::BlockGeneration {
                minter: m as usize,
                version: s.miners[m].version,
                rand: draw,
            },
        ),
        rng: state_after_draw(s.rng),
        ..s
    }
}

/// The state after `block` was sent from `from` to each other miner below
/// `upto`, in the order of their ids: one draw and one propagation task each.
/// A transfer that would end after the end of the clock is dropped.
pub open spec fn broadcast(s: SimState, from: usize, block: BlockId, upto: nat) -> SimState
    decreases upto,
{
    if upto == 0 {
        s
    } else {
        let prev = broadcast(s, from, block, (upto - 1) as nat);
        let to = (upto - 1) as usize;
        if to == from {
            prev
        } else {
            let delay = network_delay(
                draw_value(prev.rng),
                s.config.delay_min,
                s.config.delay_max,
            );
            SimState {
                queue: enqueued(
                    prev.queue,
                    due(s.now, Some(delay)),
                    TaskKind::Propagation { from, to, block },
                ),
                rng: state_after_draw(prev.rng),
                ..prev
            }
        }
    }
}

/// The block that miner `m` completes now, on top of its tip.
pub open spec fn mined_block(s: SimState, m: int, rand: u64) -> Block {
    let parent = s.miners[m].tip;
    let (difficulty, epoch_start) = child_difficulty_spec(s.blocks[parent as int], s.config.rule);
    new_block(s.blocks, parent, m as i32, s.now, rand, difficulty, epoch_start)
}

/// The state after miner `m` put its new block on the tree and made it its
/// tip, before the block is sent out.
pub open spec fn extended(s: SimState, m: int, rand: u64) -> SimState {
    SimState {
        blocks: appended(s.blocks, s.config.confirmation_depth, mined_block(s, m, rand)),
        miners: s.miners.update(
            m,
            Miner {
                tip: s.blocks.len() as usize,
                version: (s.miners[m].version + 1) as u64,
                ..s.miners[m]
            },
        ),
        ..s
    }
}

/// The state after miner `m` completed a block: the block joins the tree and
/// becomes the miner's tip, it is sent to every other miner, and the miner
/// starts its next attempt.
pub open spec fn mine(s: SimState, m: int, rand: u64) -> SimState {
    schedule_generation(
        broadcast(extended(s, m, rand), m as usize, s.blocks.len() as usize, s.miners.len()),
        m,
    )
}

/// Whether `block` and the tip of miner `to` lie on diverging branches.
pub open spec fn diverges(s: SimState, to: int, block: BlockId) -> bool {
    let tip = s.miners[to].tip as int;
    !is_ancestor(s.blocks, tip, block as int) && !is_ancestor(s.blocks, block as int, tip)
}

/// Whether the chain of `block` is strictly heavier than that of the tip of `to`.
pub open spec fn heavier(s: SimState, to: int, block: BlockId) -> bool {
    chain_weight(s.blocks, block as int) > chain_weight(s.blocks, s.miners[to].tip as int)
}

/// The state after `block`, sent by `from`, arrived at `to`. A block from a
/// diverging branch is recorded as a fork event. Where the block's chain is
/// strictly heavier than the recipient's, the recipient adopts it and starts a
/// new attempt on it; otherwise it goes on as before.
pub open spec fn deliver(s: SimState, from: usize, to: int, block: BlockId) -> SimState {
    let noted = if diverges(s, to, block) {
        SimState {
            forks: s.forks.push(
                ForkEvent {
                    time: s.now,
                    height: s.blocks[block as int].height,
                    from,
                    to: to as usize,
                    adopted: heavier(s, to, block),
                },
            ),
            ..s
        }
    } else {
        s
    };
    if heavier(s, to, block) {
        schedule_generation(
            SimState {
                miners: s.miners.update(
                    to,
                    Miner { tip: block, version: (s.miners[to].version + 1) as u64, ..s.miners[to] },
                ),
                ..noted
            },
            to,
        )
    } else {
        noted
    }
}

/// The state after `task` fired: the clock stands at the task's time, and the
/// task's effect has taken place. A generation task of an attempt that the
/// miner has given up since has no effect.
pub open spec fn fire(s: SimState, task: Task) -> SimState {
    let at = SimState { now: task.time, processed: (s.processed + 1) as u64, ..s };
    match task.kind {
        TaskKind::BlockGeneration { minter, version, rand } => {
            if version == s.miners[minter as int].version {
                mine(at, minter as int, rand)
            } else {
                at
            }
        },
        TaskKind::Propagation { from, to, block } => deliver(at, from, to as int, block),
    }
}

/// The state after the earliest pending task was taken out and fired.
#[verifier::opaque]
pub open spec fn step(s: SimState) -> SimState {
    fire(SimState { queue: popped(s.queue), ..s }, earliest(s.queue.tasks))
}

/// Whether the run goes on from `s`. The conditions are tried in this order:
/// height horizon, empty queue, time horizon, exhaustion.
pub open spec fn status(s: SimState) -> Status {
    if max_height(s.blocks) >= s.config.height_horizon {
        Status::HeightReached
    } else if s.queue.tasks == Set::<Task>::empty() {
        Status::QueueEmpty
    } else if earliest(s.queue.tasks).time > s.config.time_horizon {
        Status::TimeHorizon
    } else if s.processed >= s.config.max_events || s.queue.next_seq + s.miners.len()
        > u128::MAX {
        Status::Exhausted
    } else {
        Status::Running
    }
}

/// The state in which the run that starts in `s` comes to rest.
#[verifier::opaque]
pub open spec fn run(s: SimState) -> SimState
    decreases s.config.max_events - s.processed,
{
    if status(s) == Status::Running {
        proof {
            lemma_step_counts(s);
        }
        run(step(s))
    } else {
        s
    }
}

/// The state after the first attempts of the miners below `upto` were scheduled.
pub open spec fn schedule_all(s: SimState, upto: nat) -> SimState
    decreases upto,
{
    if upto == 0 {
        s
    } else {
        schedule_generation(schedule_all(s, (upto - 1) as nat), upto - 1)
    }
}

/// The state of a run before anything is scheduled: the tree holds the
/// genesis block, every miner mines on it, the queue is empty and the clock
/// stands at zero.
pub open spec fn blank(rates: Seq<u64>, config: Config) -> SimState {
    SimState {
        config,
        blocks: seq![Block::genesis().with_finalized(config.confirmation_depth == 0)],
        miners: fresh_pool(rates),
        queue: QueueState { tasks: Set::empty(), next_seq: 0 },
        rng: config.seed,
        now: 0,
        processed: 0,
        forks: Seq::empty(),
    }
}

/// The state in which a run with these hash rates and settings starts: the
/// blank state with every miner's first generation task pending.
#[verifier::opaque]
pub open spec fn initial(rates: Seq<u64>, config: Config) -> SimState {
    schedule_all(blank(rates, config), rates.len())
}

/// Scheduling the first attempts changes the queue and the generator only.
pub proof fn lemma_initial_frame(rates: Seq<u64>, config: Config)
    ensures
        initial(rates, config) == (SimState {
            queue: initial(rates, config).queue,
            rng: initial(rates, config).rng,
            ..blank(rates, config)
        }),
{
    reveal(initial);
    lemma_schedule_all_frame(blank(rates, config), rates.len());
}

/// Scheduling attempts changes the queue and the generator only.
pub proof fn lemma_schedule_all_frame(s: SimState, upto: nat)
    ensures
        schedule_all(s, upto) == (SimState {
            queue: schedule_all(s, upto).queue,
            rng: schedule_all(s, upto).rng,
            ..s
        }),
    decreases upto,
{
    if upto > 0 {
        lemma_schedule_all_frame(s, (upto - 1) as nat);
    }
}

/// No miner's chain got lighter between two states.
pub open spec fn tips_no_lighter(later: SimState, earlier: SimState) -> bool {
    &&& later.miners.len() == earlier.miners.len()
    &&& forall|m: int|
        0 <= m < earlier.miners.len() ==> chain_weight(
            later.blocks,
            (#[trigger] later.miners[m]).tip as int,
        ) >= chain_weight(earlier.blocks, earlier.miners[m].tip as int)
}

/// Sending a block changes the queue and the generator only.
pub proof fn lemma_broadcast_frame(s: SimState, from: usize, block: BlockId, upto: nat)
    ensures
        broadcast(s, from, block, upto) == (SimState {
            queue: broadcast(s, from, block, upto).queue,
            rng: broadcast(s, from, block, upto).rng,
            ..s
        }),
    decreases upto,
{
    if upto > 0 {
        lemma_broadcast_frame(s, from, block, (upto - 1) as nat);
    }
}

/// Sending a block to the miners below `upto` enters one task at most for
/// each of them but the sender.
pub proof fn lemma_broadcast_count(s: SimState, from: usize, block: BlockId, upto: nat)
    requires
        upto <= usize::MAX,
    ensures
        s.queue.next_seq <= broadcast(s, from, block, upto).queue.next_seq <= s.queue.next_seq
            + upto - if from < upto {
            1int
        } else {
            0int
        },
    decreases upto,
{
    if upto > 0 {
        lemma_broadcast_count(s, from, block, (upto - 1) as nat);
    }
}

/// Firing a task keeps the settings and counts one more event.
pub proof fn lemma_fire_counts(s: SimState, task: Task)
    ensures
        fire(s, task).config == s.config,
        fire(s, task).processed == (s.processed + 1) as u64,
        fire(s, task).now == task.time,
{
    let at = SimState { now: task.time, processed: (s.processed + 1) as u64, ..s };
    match task.kind {
        TaskKind::BlockGeneration { minter, rand, .. } => {
            lemma_broadcast_frame(
                extended(at, minter as int, rand),
                minter,
                at.blocks.len() as usize,
                at.miners.len(),
            );
        },
        TaskKind::Propagation { .. } => {},
    }
}

/// A step keeps the settings and counts one more event.
pub proof fn lemma_step_counts(s: SimState)
    ensures
        step(s).config == s.config,
        step(s).processed == (s.processed + 1) as u64,
        step(s).now == earliest(s.queue.tasks).time,
{
    reveal(step);
    lemma_fire_counts(SimState { queue: popped(s.queue), ..s }, earliest(s.queue.tasks));
}

/// The later state may come from the earlier one in the course of a run: the
/// settings and the miners' hash rates are the same, no block changed but for
/// `finalized` flags that were raised, no miner's chain got lighter, neither
/// the clock nor the count of events went back, and the fork events on record
/// are still there.
#[verifier::opaque]
pub open spec fn advances(later: SimState, earlier: SimState) -> bool {
    &&& later.config == earlier.config
    &&& grows_from(later.blocks, earlier.blocks)
    &&& tips_no_lighter(later, earlier)
    &&& forall|m: int|
        0 <= m < earlier.miners.len() ==> (#[trigger] later.miners[m]).hash_rate
            == earlier.miners[m].hash_rate && later.miners[m].version >= earlier.miners[m].version
    &&& earlier.now <= later.now
    &&& earlier.processed <= later.processed
    &&& earlier.forks.len() <= later.forks.len()
    &&& forall|i: int| 0 <= i < earlier.forks.len() ==> #[trigger] later.forks[i] == earlier.forks[i]
}

/// The run has not gone beyond any of its horizons: the clock is within the
/// time horizon, no block stands above the height horizon, and no more events
/// have fired than the cap allows.
pub open spec fn within_horizons(s: SimState) -> bool {
    &&& s.now <= s.config.time_horizon
    &&& max_height(s.blocks) <= s.config.height_horizon
    &&& s.processed <= s.config.max_events
}

/// A state advances where the tree, the miners and the fork events on record
/// stay as they are and neither the clock nor the count of events goes back.
pub proof fn lemma_advances_on_the_spot(later: SimState, earlier: SimState)
    requires
        later.config == earlier.config,
        later.blocks == earlier.blocks,
        later.miners == earlier.miners,
        later.forks == earlier.forks,
        earlier.now <= later.now,
        earlier.processed <= later.processed,
    ensures
        advances(later, earlier),
{
    reveal(advances);
}

/// What a delivery does to the recipient advances the state.
pub proof fn lemma_deliver_advances(s: SimState, from: usize, to: int, block: BlockId)
    requires
        0 <= to < s.miners.len(),
        s.miners[to].version < u64::MAX,
    ensures
        advances(deliver(s, from, to, block), s),
        deliver(s, from, to, block).blocks == s.blocks,
{
    reveal(advances);
}

/// Advancing composes.
pub proof fn lemma_advances_transitive(a: SimState, b: SimState, c: SimState)
    requires
        advances(b, a),
        advances(c, b),
    ensures
        advances(c, a),
{
    reveal(advances);
    lemma_tips_no_lighter_transitive(a, b, c);
    lemma_grows_from_transitive(a.blocks, b.blocks, c.blocks);
    assert forall|m: int| 0 <= m < a.miners.len() implies (#[trigger] c.miners[m]).hash_rate
        == a.miners[m].hash_rate && c.miners[m].version >= a.miners[m].version by {
        assert(b.miners[m].hash_rate == a.miners[m].hash_rate);
    }
    assert forall|i: int| 0 <= i < a.forks.len() implies #[trigger] c.forks[i] == a.forks[i] by {
        assert(b.forks[i] == a.forks[i]);
    }
}

/// How a run unfolds: it rests where it does not go on, and continues from
/// the next state where it does.
pub proof fn lemma_run_unfolds(s: SimState)
    ensures
        status(s) != Status::Running ==> run(s) == s,
        status(s) == Status::Running ==> {
            &&& run(s) == run(step(s))
            &&& step(s).config == s.config
            &&& s.processed < s.config.max_events
            &&& step(s).processed == s.processed + 1
        },
{
    reveal(run);
    lemma_step_counts(s);
}

/// The comparison of tips composes.
pub proof fn lemma_tips_no_lighter_transitive(a: SimState, b: SimState, c: SimState)
    requires
        tips_no_lighter(b, a),
        tips_no_lighter(c, b),
    ensures
        tips_no_lighter(c, a),
{
    assert forall|m: int| 0 <= m < a.miners.len() implies chain_weight(
        c.blocks,
        (#[trigger] c.miners[m]).tip as int,
    ) >= chain_weight(a.blocks, a.miners[m].tip as int) by {
        assert(chain_weight(b.blocks, b.miners[m].tip as int) >= chain_weight(
            a.blocks,
            a.miners[m].tip as int,
        ));
    }
}

/// A mined block fits the tree, and putting it there keeps the run in order
/// and makes no miner's chain lighter.
pub proof fn lemma_extended_ok(s: SimState, m: int, rand: u64)
    requires
        sim_ok(s),
        0 <= m < s.miners.len(),
        s.miners[m].version < s.processed,
        s.blocks.len() < usize::MAX,
    ensures
        fits(s.blocks, mined_block(s, m, rand)),
        sim_ok(extended(s, m, rand)),
        advances(extended(s, m, rand), s),
        max_height(extended(s, m, rand).blocks) <= max_height(s.blocks) + 1,
{
    reveal(sim_ok);
    reveal(advances);
    let b = mined_block(s, m, rand);
    let e = extended(s, m, rand);
    let depth = s.config.confirmation_depth;
    let tip = s.miners[m].tip as int;
    if tip >= 1 {
        assert(child_ok(s.blocks, tip));
    }
    lemma_child_difficulty_positive(s.blocks[tip], s.config.rule);
    assert(fits(s.blocks, b));
    lemma_append_keeps_finality(s.blocks, depth, b);
    lemma_append_frames(s.blocks, depth, b);
    lemma_max_height_bounds(s.blocks);
    assert forall|i: int| 0 <= i < e.blocks.len() implies (#[trigger] e.blocks[i]).time <= e.now
        && e.blocks[i].minter < e.miners.len() by {
        if i < s.blocks.len() {
            assert(s.blocks[i].time <= s.now);
        }
    }
    assert forall|t: Task| #[trigger] e.queue.tasks.contains(t) implies task_fault(e, t) is None by {
        assert(task_fault(s, t) is None);
    }
    assert forall|k: int| 0 <= k < e.miners.len() implies (#[trigger] e.miners[k]).version
        <= e.processed && e.miners[k].tip < e.blocks.len() by {
        assert(s.miners[k].version <= s.processed);
    }
    assert(pool_ok(e.miners)) by {
        assert forall|i: int| 0 <= i < e.miners.len() implies (#[trigger] e.miners[i]).id == i
            && 0 < e.miners[i].hash_rate <= MAX_HASH_RATE by {
            assert(s.miners[i].id == i);
        }
    }
    assert forall|k: int| 0 <= k < s.miners.len() implies chain_weight(
        e.blocks,
        (#[trigger] e.miners[k]).tip as int,
    ) >= chain_weight(s.blocks, s.miners[k].tip as int) by {
        assert(s.miners[k].tip < s.blocks.len());
    }
    assert(tips_no_lighter(e, s));
}

/// What holds of a state that advances from another.
pub proof fn lemma_advances_means(later: SimState, earlier: SimState)
    requires
        advances(later, earlier),
    ensures
        later.config == earlier.config,
        grows_from(later.blocks, earlier.blocks),
        tips_no_lighter(later, earlier),
        forall|m: int|
            0 <= m < earlier.miners.len() ==> (#[trigger] later.miners[m]).hash_rate
                == earlier.miners[m].hash_rate && later.miners[m].version
                >= earlier.miners[m].version,
        earlier.now <= later.now,
        earlier.processed <= later.processed,
        earlier.forks.len() <= later.forks.len(),
        forall|i: int|
            0 <= i < earlier.forks.len() ==> #[trigger] later.forks[i] == earlier.forks[i],
{
    reveal(advances);
}

} // verus!
