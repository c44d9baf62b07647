//! The event scheduler: it pops the next task in time order, lets it act on
//! the block tree and the miner pool, and enqueues the tasks that follow from it.

use vstd::prelude::*;
use crate::chain::{child_ok, grows_from, max_height, Block, BlockId, Chain};
use crate::difficulty::child_difficulty;
use crate::error::{ConfigFault, SimError, Violation};
use crate::miner::{Miner, MinerPool};
use crate::model::{
    advances, blank, broadcast, config_fault, deliver, extended, fire, initial,
    lemma_advances_means, lemma_initial_frame,
    lemma_advances_on_the_spot, lemma_advances_transitive, lemma_broadcast_count,
    lemma_broadcast_frame,
    lemma_deliver_advances, lemma_extended_ok, lemma_run_unfolds, mine, run, schedule_all,
    schedule_generation, setup_fault, sim_ok, status, step, task_fault, tips_no_lighter,
    within_horizons, Config, ForkEvent, SimState, Status,
};
use crate::queue::{pushed, EventQueue, QueueState, Task, TaskKind};
use crate::rng::Rng;
use crate::sampling::delay_for;

verus! {

/// One simulation run: the block tree, the miners, the pending events and
/// the random number generator, advanced one event at a time.
pub struct Simulation {
    config: Config,
    chain: Chain,
    pool: MinerPool,
    queue: EventQueue,
    rng: Rng,
    now: u64,
    processed: u64,
    forks: Vec<ForkEvent>,
}

impl View for Simulation {
    type V = SimState;

    closed spec fn view(&self) -> SimState {
        SimState {
            config: self.config,
            blocks: self.chain@,
            miners: self.pool@,
            queue: self.queue@,
            rng: self.rng@,
            now: self.now,
            processed: self.processed,
            forks: self.forks@,
        }
    }
}

/// Checks the settings of a run.
pub fn check_config(config: &Config) -> (r: Option<ConfigFault>)
    ensures
        r == config_fault(*config),
{
    if config.rule.target_block_time == 0 {
        Some(ConfigFault::ZeroTargetBlockTime)
    } else if config.rule.epoch_length == 0 {
        Some(ConfigFault::ZeroEpochLength)
    } else if config.rule.max_factor == 0 {
        Some(ConfigFault::ZeroClampFactor)
    } else if config.rule.target_block_time.checked_mul(config.rule.epoch_length).is_none() {
        Some(ConfigFault::EpochTooLong)
    } else if config.delay_min > config.delay_max {
        Some(ConfigFault::DelayRangeInverted)
    } else {
        None
    }
}

impl Simulation {
    /// The parts of the run are each in order and agree with the settings.
    #[verifier::opaque]
    pub closed spec fn parts_ok(&self) -> bool {
        &&& self.chain.wf()
        &&& self.pool.wf()
        &&& self.queue.wf()
        &&& self.chain.depth() == self.config.confirmation_depth
    }

    /// The invariant of a run.
    pub open spec fn wf(&self) -> bool {
        sim_ok(self@) && self.parts_ok()
    }

    /// Sets up a run: validates hash rates and settings, plants the genesis
    /// block, puts every miner on it and schedules every miner's first block.
    /// A configuration that cannot be run is refused before anything happens.
    pub fn new(hash_rates: &Vec<u64>, config: Config) -> (r: Result<Simulation, SimError>)
        ensures
            match r {
                Ok(sim) => {
                    &&& setup_fault(hash_rates@, config) is None
                    &&& sim.wf()
                    &&& sim@ == initial(hash_rates@, config)
                    &&& sim@.config == config
                    &&& sim@.blocks == blank(hash_rates@, config).blocks
                    &&& sim@.miners == blank(hash_rates@, config).miners
                    &&& sim@.now == 0
                    &&& sim@.processed == 0
                    &&& sim@.forks == Seq::<ForkEvent>::empty()
                    &&& within_horizons(sim@)
                },
                Err(e) => {
                    &&& setup_fault(hash_rates@, config) matches Some(fault)
                    &&& e == SimError::ConfigurationError(fault)
                },
            },
    {
        let pool = match MinerPool::new(hash_rates) {
            Ok(pool) => pool,
            Err(e) => {
                return Err(e);
            },
        };
        match check_config(&config) {
            Some(fault) => {
                return Err(SimError::ConfigurationError(fault));
            },
            None => {},
        }
        let n = pool.len();
        let mut sim = Simulation {
            config,
            chain: Chain::new(config.confirmation_depth),
            pool,
            queue: EventQueue::new(),
            rng: Rng::seeded(config.seed),
            now: 0,
            processed: 0,
            forks: Vec::new(),
        };
        let ghost start = sim@;
        proof {
            reveal(sim_ok);
            reveal(Simulation::parts_ok);
            reveal(initial);
            lemma_initial_frame(hash_rates@, config);
            assert(start.forks =~= Seq::<ForkEvent>::empty());
            assert(start.queue == QueueState { tasks: Set::<Task>::empty(), next_seq: 0 });
            assert(start == blank(hash_rates@, config));
            assert(start.blocks.drop_last() =~= Seq::<Block>::empty());
            assert(max_height(start.blocks.drop_last()) == 0);
        }
        let mut m: usize = 0;
        while m < n
            invariant
                m <= n,
                n == start.miners.len(),
                n <= i32::MAX,
                sim.wf(),
                sim@ == schedule_all(start, m as nat),
                sim@.queue.next_seq <= m,
                sim@.miners == start.miners,
                sim@.blocks == start.blocks,
                sim@.config == start.config,
                sim@.now == 0,
                sim@.processed == 0,
                within_horizons(start),
            decreases n - m,
        {
            sim.schedule_generation(m);
            m = m + 1;
        }
        Ok(sim)
    }

    /// Gives the current mining attempt of miner `m` its completion time and
    /// enters the generation task.
    fn schedule_generation(&mut self, m: usize)
        requires
            old(self).wf(),
            m < old(self)@.miners.len(),
            old(self)@.queue.next_seq < u128::MAX,
        ensures
            final(self).wf(),
            final(self)@ == schedule_generation(old(self)@, m as int),
    {
        proof {
            reveal(sim_ok);
            reveal(Simulation::parts_ok);
        }
        let tip = self.pool.tip(m);
        let parent = self.chain.block(tip);
        proof {
            if tip >= 1 {
                assert(child_ok(self@.blocks, tip as int));
            }
        }
        let (difficulty, _) = child_difficulty(&parent, &self.config.rule);
        let (time, draw) = self.pool.sample_next_generation_time(
            m,
            self.now,
            difficulty,
            self.config.rule.target_block_time,
            &mut self.rng,
        );
        let version = self.pool.miner(m).version;
        match time {
            Some(t) => {
                self.queue.push(t, TaskKind::BlockGeneration { minter: m, version, rand: draw });
            },
            None => {},
        }
    }

    /// Sends `block` from miner `from` to every other miner: one propagation
    /// task per destination, each with a delay of its own.
    fn broadcast(&mut self, from: usize, block: BlockId)
        requires
            old(self).wf(),
            from < old(self)@.miners.len(),
            block < old(self)@.blocks.len(),
            old(self)@.queue.next_seq + old(self)@.miners.len() <= u128::MAX,
        ensures
            final(self).wf(),
            final(self)@ == broadcast(old(self)@, from, block, old(self)@.miners.len()),
    {
        let ghost start = self@;
        let n = self.pool.len();
        let mut to: usize = 0;
        while to < n
            invariant
                to <= n,
                n == start.miners.len(),
                from < n,
                block < start.blocks.len(),
                start.queue.next_seq + n <= u128::MAX,
                self.wf(),
                self@ == broadcast(start, from, block, to as nat),
            decreases n - to,
        {
            proof {
                reveal(sim_ok);
                reveal(Simulation::parts_ok);
                lemma_broadcast_frame(start, from, block, to as nat);
                lemma_broadcast_count(start, from, block, to as nat);
            }
            if to != from {
                let draw = self.rng.next_u64();
                let delay = delay_for(draw, self.config.delay_min, self.config.delay_max);
                match self.now.checked_add(delay) {
                    Some(t) => {
                        self.queue.push(t, TaskKind::Propagation { from, to, block });
                    },
                    None => {},
                }
            }
            to = to + 1;
        }
    }

    /// Miner `m` completes a block that was timed by the draw `rand`.
    fn mine(&mut self, m: usize, rand: u64)
        requires
            old(self).wf(),
            m < old(self)@.miners.len(),
            old(self)@.miners[m as int].version < old(self)@.processed,
            old(self)@.queue.next_seq + old(self)@.miners.len() <= u128::MAX,
        ensures
            final(self).wf(),
            final(self)@ == mine(old(self)@, m as int, rand),
            advances(final(self)@, old(self)@),
            max_height(final(self)@.blocks) <= max_height(old(self)@.blocks) + 1,
            final(self)@.now == old(self)@.now,
            final(self)@.processed == old(self)@.processed,
    {
        let ghost start = self@;
        self.extend(m, rand);
        let id = self.pool.tip(m);
        let n = self.pool.len();
        let ghost grown = self@;
        proof {
            lemma_broadcast_frame(grown, m, id, n as nat);
            lemma_broadcast_count(grown, m, id, n as nat);
        }
        self.broadcast(m, id);
        self.schedule_generation(m);
        proof {
            lemma_advances_on_the_spot(self@, grown);
            lemma_advances_transitive(start, grown, self@);
        }
    }

    /// Puts the block that miner `m` completed on the tree and makes it the
    /// miner's tip.
    fn extend(&mut self, m: usize, rand: u64)
        requires
            old(self).wf(),
            m < old(self)@.miners.len(),
            old(self)@.miners[m as int].version < old(self)@.processed,
        ensures
            final(self).wf(),
            final(self)@ == extended(old(self)@, m as int, rand),
            advances(final(self)@, old(self)@),
            max_height(final(self)@.blocks) <= max_height(old(self)@.blocks) + 1,
    {
        let ghost start = self@;
        let tip = self.pool.tip(m);
        proof {
            reveal(sim_ok);
            reveal(Simulation::parts_ok);
            if tip >= 1 {
                assert(child_ok(start.blocks, tip as int));
            }
            assert(start.blocks[tip as int].time <= start.now);
        }
        let parent = self.chain.block(tip);
        let (difficulty, epoch_start) = child_difficulty(&parent, &self.config.rule);
        let id = self.chain.append(tip, m as i32, self.now, rand, difficulty, epoch_start).unwrap();
        self.pool.set_tip(m, id);
        self.pool.next_attempt(m);
        // The arena holds one block more than before, so it was not full.
        let _ = self.chain.len();
        proof {
            lemma_extended_ok(start, m as int, rand);
            assert(self@.miners =~= extended(start, m as int, rand).miners);
        }
    }

    /// The block `block`, sent by `from`, arrives at miner `to`.
    fn deliver(&mut self, from: usize, to: usize, block: BlockId)
        requires
            old(self).wf(),
            from < old(self)@.miners.len(),
            to < old(self)@.miners.len(),
            block < old(self)@.blocks.len(),
            old(self)@.miners[to as int].version < old(self)@.processed,
            old(self)@.queue.next_seq < u128::MAX,
        ensures
            final(self).wf(),
            final(self)@ == deliver(old(self)@, from, to as int, block),
            advances(final(self)@, old(self)@),
            final(self)@.blocks == old(self)@.blocks,
            final(self)@.now == old(self)@.now,
            final(self)@.processed == old(self)@.processed,
    {
        let ghost start = self@;
        proof {
            reveal(sim_ok);
            reveal(Simulation::parts_ok);
        }
        let tip = self.pool.tip(to);
        let diverged = !self.chain.is_ancestor(tip, block) && !self.chain.is_ancestor(block, tip);
        let height = self.chain.height(block);
        let adopted = self.pool.adopt_if_heavier(to, block, &self.chain);
        if diverged {
            self.forks.push(ForkEvent { time: self.now, height, from, to, adopted });
        }
        if adopted {
            self.pool.next_attempt(to);
            proof {
                assert(self@.miners =~= start.miners.update(
                    to as int,
                    Miner {
                        tip: block,
                        version: (start.miners[to as int].version + 1) as u64,
                        ..start.miners[to as int]
                    },
                ));
            }
            self.schedule_generation(to);
        }
        proof {
            lemma_deliver_advances(start, from, to as int, block);
        }
    }

    /// Checks a task against the run: the miners and the block that it names
    /// must exist, and it must not be due in the past.
    pub fn check_task(&self, task: &Task) -> (r: Result<(), SimError>)
        requires
            self.wf(),
        ensures
            match r {
                Ok(_) => task_fault(self@, *task) is None,
                Err(e) => task_fault(self@, *task) matches Some(v) && e
                    == SimError::InvariantViolation(v),
            },
    {
        proof {
            reveal(Simulation::parts_ok);
        }
        let n = self.pool.len();
        match task.kind {
            TaskKind::BlockGeneration { minter, .. } => {
                if minter >= n {
                    return Err(SimError::InvariantViolation(Violation::UnknownMiner));
                }
            },
            TaskKind::Propagation { from, to, block } => {
                if from >= n || to >= n {
                    return Err(SimError::InvariantViolation(Violation::UnknownMiner));
                }
                if block >= self.chain.len() {
                    return Err(SimError::InvariantViolation(Violation::MissingPropagatedBlock));
                }
            },
        }
        if task.time < self.now {
            return Err(SimError::InvariantViolation(Violation::TaskInPast));
        }
        Ok(())
    }

    /// Enters a task from outside the run, after checking it. A task that the
    /// check refuses leaves the run as it was. Returns the task's insertion number.
    pub fn schedule(&mut self, time: u64, kind: TaskKind) -> (r: Result<u128, SimError>)
        requires
            old(self).wf(),
        ensures
            final(self).wf(),
            match r {
                Ok(seq) => {
                    &&& seq == old(self)@.queue.next_seq
                    &&& seq < u128::MAX
                    &&& task_fault(old(self)@, Task { time, seq, kind }) is None
                    &&& final(self)@ == (SimState {
                        queue: pushed(old(self)@.queue, time, kind),
                        ..old(self)@
                    })
                },
                Err(e) => {
                    &&& final(self)@ == old(self)@
                    &&& match task_fault(
                        old(self)@,
                        Task { time, seq: old(self)@.queue.next_seq as u128, kind },
                    ) {
                        Some(v) => e == SimError::InvariantViolation(v),
                        None => e == SimError::Exhaustion && old(self)@.queue.next_seq == u128::MAX,
                    }
                },
            },
    {
        proof {
            reveal(Simulation::parts_ok);
        }
        let seq = self.queue.pushed_count();
        match self.check_task(&Task { time, seq, kind }) {
            Err(e) => {
                return Err(e);
            },
            Ok(_) => {},
        }
        if seq == u128::MAX {
            return Err(SimError::Exhaustion);
        }
        proof {
            reveal(sim_ok);
            reveal(Simulation::parts_ok);
        }
        self.queue.push(time, kind);
        Ok(seq)
    }

    /// Whether the run goes on, and why not where it does not.
    pub fn status(&self) -> (r: Status)
        requires
            self.wf(),
        ensures
            r == status(self@),
    {
        proof {
            reveal(Simulation::parts_ok);
        }
        if self.chain.tallest() >= self.config.height_horizon {
            return Status::HeightReached;
        }
        match self.queue.peek_min() {
            None => Status::QueueEmpty,
            Some(next) => {
                if next.time > self.config.time_horizon {
                    Status::TimeHorizon
                } else if self.processed >= self.config.max_events || self.queue.pushed_count()
                    > u128::MAX - self.pool.len() as u128 {
                    Status::Exhausted
                } else {
                    Status::Running
                }
            },
        }
    }

    /// Moves the clock to the firing time of a task and counts the event.
    fn tick(&mut self, time: u64)
        requires
            old(self).wf(),
            old(self)@.now <= time,
            old(self)@.processed < u64::MAX,
            forall|t: Task| old(self)@.queue.tasks.contains(t) ==> t.time >= time,
        ensures
            final(self).wf(),
            final(self)@ == (SimState {
                now: time,
                processed: (old(self)@.processed + 1) as u64,
                ..old(self)@
            }),
    {
        proof {
            reveal(sim_ok);
            reveal(Simulation::parts_ok);
        }
        self.now = time;
        self.processed = self.processed + 1;
    }

    /// Lets a task act that was taken out of the queue.
    fn fire(&mut self, task: Task)
        requires
            old(self).wf(),
            task_fault(old(self)@, task) is None,
            old(self)@.processed < u64::MAX,
            old(self)@.queue.next_seq + old(self)@.miners.len() <= u128::MAX,
            forall|t: Task| old(self)@.queue.tasks.contains(t) ==> t.time >= task.time,
        ensures
            final(self).wf(),
            final(self)@ == fire(old(self)@, task),
            advances(final(self)@, old(self)@),
            max_height(final(self)@.blocks) <= max_height(old(self)@.blocks) + 1,
            final(self)@.now == task.time,
            final(self)@.processed == old(self)@.processed + 1,
    {
        let ghost start = self@;
        proof {
            assert(forall|m: int|
                0 <= m < start.miners.len() ==> (#[trigger] start.miners[m]).version
                    <= start.processed) by {
                reveal(sim_ok);
                reveal(Simulation::parts_ok);
            }
        }
        self.tick(task.time);
        let ghost at = self@;
        proof {
            lemma_advances_on_the_spot(at, start);
        }
        match task.kind {
            TaskKind::BlockGeneration { minter, version, rand } => {
                if version == self.pool.miner(minter).version {
                    self.mine(minter, rand);
                }
            },
            TaskKind::Propagation { from, to, block } => {
                self.deliver(from, to, block);
            },
        }
        proof {
            lemma_advances_on_the_spot(at, at);
            lemma_advances_transitive(start, at, self@);
        }
    }

    /// Fires the next event where the run goes on, and does nothing where it
    /// does not. Returns the status that the run had before the call. Whatever
    /// fires, the run only advances, and it stays within its horizons.
    pub fn step(&mut self) -> (r: Status)
        requires
            old(self).wf(),
        ensures
            final(self).wf(),
            r == status(old(self)@),
            r == Status::Running ==> final(self)@ == step(old(self)@),
            r != Status::Running ==> final(self)@ == old(self)@,
            advances(final(self)@, old(self)@),
            final(self)@.config == old(self)@.config,
            tips_no_lighter(final(self)@, old(self)@),
            grows_from(final(self)@.blocks, old(self)@.blocks),
            within_horizons(old(self)@) ==> within_horizons(final(self)@),
    {
        let ghost start = self@;
        proof {
            lemma_advances_on_the_spot(start, start);
            lemma_advances_means(start, start);
        }
        let st = self.status();
        if st != Status::Running {
            return st;
        }
        proof {
            reveal(Simulation::parts_ok);
        }
        let task = self.queue.pop_min().unwrap();
        let ghost taken = self@;
        proof {
            assert(start.queue.tasks.contains(task));
            assert(task_fault(start, task) is None && sim_ok(taken)) by {
                reveal(sim_ok);
                reveal(Simulation::parts_ok);
            }
            lemma_advances_on_the_spot(taken, start);
        }
        self.fire(task);
        proof {
            reveal(step);
            lemma_advances_transitive(start, taken, self@);
            lemma_advances_means(self@, start);
        }
        st
    }

    /// Fires events until the run halts. A run halts when a block stands at
    /// the height horizon, when no event is pending, or when the next event is
    /// due after the time horizon; these are reported as `Ok`. A run that
    /// reaches its event cap first did not converge: that is `Exhaustion`.
    /// Throughout, the run only advances, and it stays within its horizons.
    pub fn run(&mut self) -> (r: Result<Status, SimError>)
        requires
            old(self).wf(),
        ensures
            final(self).wf(),
            final(self)@ == run(old(self)@),
            status(final(self)@) != Status::Running,
            advances(final(self)@, old(self)@),
            final(self)@.config == old(self)@.config,
            tips_no_lighter(final(self)@, old(self)@),
            grows_from(final(self)@.blocks, old(self)@.blocks),
            within_horizons(old(self)@) ==> within_horizons(final(self)@),
            match r {
                Ok(st) => st == status(final(self)@) && st != Status::Exhausted,
                Err(e) => e == SimError::Exhaustion && status(final(self)@) == Status::Exhausted,
            },
    {
        let ghost start = self@;
        proof {
            lemma_advances_on_the_spot(start, start);
        }
        loop
            invariant
                start == old(self)@,
                self.wf(),
                run(self@) == run(start),
                advances(self@, start),
                within_horizons(start) ==> within_horizons(self@),
            decreases self@.config.max_events - self@.processed,
        {
            let ghost prev = self@;
            let st = self.step();
            proof {
                lemma_run_unfolds(prev);
                lemma_advances_transitive(start, prev, self@);
                lemma_advances_means(self@, start);
            }
            match st {
                Status::Running => {},
                Status::Exhausted => {
                    return Err(SimError::Exhaustion);
                },
                _ => {
                    return Ok(st);
                },
            }
        }
    }

    /// The settings of the run.
    pub fn config(&self) -> (c: Config)
        ensures
            c == self@.config,
    {
        self.config
    }

    /// The current simulated time: the firing time of the last event.
    pub fn now(&self) -> (t: u64)
        ensures
            t == self@.now,
    {
        self.now
    }

    /// The number of events that have fired.
    pub fn processed(&self) -> (n: u64)
        ensures
            n == self@.processed,
    {
        self.processed
    }

    /// The block tree.
    pub fn chain(&self) -> (c: &Chain)
        ensures
            c@ == self@.blocks,
            self.wf() ==> c.wf() && c.depth() == self@.config.confirmation_depth,
    {
        proof {
            reveal(Simulation::parts_ok);
        }
        &self.chain
    }

    /// The miner pool.
    pub fn pool(&self) -> (p: &MinerPool)
        ensures
            p@ == self@.miners,
            self.wf() ==> p.wf(),
    {
        proof {
            reveal(Simulation::parts_ok);
        }
        &self.pool
    }

    /// The fork events recorded so far, in the order in which they happened.
    pub fn forks(&self) -> (f: &Vec<ForkEvent>)
        ensures
            f@ == self@.forks,
    {
        &self.forks
    }
}

} // verus!
