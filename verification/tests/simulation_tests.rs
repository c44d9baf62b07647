use powsim::chain::{Block, BlockId};
use powsim::difficulty::DifficultyRule;
use powsim::error::{ConfigFault, SimError, Violation};
use powsim::miner::skewed_hash_rates;
use powsim::model::{Config, Status};
use powsim::queue::TaskKind;
use powsim::report::report;
use powsim::scheduler::{check_config, Simulation};

fn settings(seed: u64) -> Config {
    Config {
        delay_min: 1,
        delay_max: 5,
        rule: DifficultyRule { target_block_time: 600, epoch_length: 10, max_factor: 4 },
        confirmation_depth: 6,
        time_horizon: u64::MAX,
        height_horizon: 1000,
        max_events: 10_000_000,
        seed,
    }
}

/// Settings under which blocks travel slowly, so that forks are frequent.
fn contested(seed: u64) -> Config {
    Config { delay_min: 100, delay_max: 900, height_horizon: 120, confirmation_depth: 3, ..settings(seed) }
}

fn setup_error(rates: Vec<u64>, config: Config) -> Option<SimError> {
    match Simulation::new(&rates, config) {
        Ok(_) => None,
        Err(e) => Some(e),
    }
}

fn blocks_of(sim: &Simulation) -> Vec<Block> {
    let mut all = Vec::new();
    let mut i = 0;
    while i < sim.chain().len() {
        all.push(sim.chain().block(i));
        i += 1;
    }
    all
}

#[test]
fn dominant_miner_mines_about_half_of_a_thousand_blocks() {
    let rates = skewed_hash_rates(20);
    let mut on_chain_by_first: u64 = 0;
    let mut on_chain_total: u64 = 0;
    let mut seed = 1;
    while seed <= 5 {
        let mut sim = Simulation::new(&rates, settings(seed)).unwrap();
        let outcome = sim.run();
        assert_eq!(outcome, Ok(Status::HeightReached));
        let r = report(&sim);
        // The run stops at the horizon exactly: a thousand blocks on top of genesis.
        assert_eq!(sim.chain().tallest(), 1000);
        assert_eq!(r.final_chain.len(), 1001);
        assert_eq!(sim.chain().height(r.final_chain[1000]), 1000);
        on_chain_by_first += r.miners[0].blocks_mined - r.miners[0].orphaned;
        on_chain_total += 1000;
        seed += 1;
    }
    assert!(on_chain_by_first * 100 >= on_chain_total * 45);
    assert!(on_chain_by_first * 100 <= on_chain_total * 55);
}

#[test]
fn equal_configurations_give_equal_runs() {
    let rates = skewed_hash_rates(20);
    let mut a = Simulation::new(&rates, contested(11)).unwrap();
    let mut b = Simulation::new(&rates, contested(11)).unwrap();
    assert_eq!(a.run(), b.run());
    assert_eq!(blocks_of(&a), blocks_of(&b));
    assert_eq!(a.now(), b.now());
    assert_eq!(a.processed(), b.processed());
    let (ra, rb) = (report(&a), report(&b));
    assert_eq!(ra.final_chain, rb.final_chain);
    assert_eq!(ra.miners, rb.miners);
    assert_eq!(ra.total_time, rb.total_time);
    assert_eq!(ra.forks, rb.forks);
    assert!(ra.forks.len() > 0);
}

#[test]
fn another_seed_gives_another_run() {
    let rates = skewed_hash_rates(20);
    let mut a = Simulation::new(&rates, contested(11)).unwrap();
    let mut b = Simulation::new(&rates, contested(12)).unwrap();
    a.run().unwrap();
    b.run().unwrap();
    assert_ne!(blocks_of(&a), blocks_of(&b));
}

#[test]
fn a_run_starts_with_one_pending_block_per_miner() {
    let sim = Simulation::new(&vec![3, 2, 1], settings(1)).unwrap();
    assert_eq!(sim.now(), 0);
    assert_eq!(sim.processed(), 0);
    assert_eq!(sim.chain().len(), 1);
    assert_eq!(sim.pool().len(), 3);
    assert_eq!(sim.status(), Status::Running);
    assert_eq!(sim.forks().len(), 0);
    assert_eq!(sim.config(), settings(1));
    let mut m = 0;
    while m < 3 {
        assert_eq!(sim.pool().tip(m), 0);
        assert_eq!(sim.pool().miner(m).version, 0);
        m += 1;
    }
}

#[test]
fn every_block_of_a_run_stands_one_above_its_parent() {
    let mut sim = Simulation::new(&skewed_hash_rates(20), contested(3)).unwrap();
    sim.run().unwrap();
    let blocks = blocks_of(&sim);
    assert!(blocks.len() > 120);
    assert_eq!(blocks[0], Block { finalized: true, ..Block::new() });
    let mut i = 1;
    while i < blocks.len() {
        let parent = blocks[blocks[i].parent.unwrap()];
        assert_eq!(blocks[i].height, parent.height + 1);
        assert!(blocks[i].time >= parent.time);
        assert!(blocks[i].minter >= 0 && blocks[i].minter < 20);
        assert!(blocks[i].difficulty > 0);
        i += 1;
    }
}

#[test]
fn no_miner_ever_moves_to_a_lighter_chain() {
    let mut sim = Simulation::new(&skewed_hash_rates(20), contested(5)).unwrap();
    let mut weights: Vec<u128> = vec![sim.chain().weight(0); 20];
    let mut heights: Vec<u64> = Vec::new();
    let mut finalized: Vec<bool> = Vec::new();
    let mut clock = 0;
    while sim.step() == Status::Running {
        assert!(sim.now() >= clock);
        clock = sim.now();
        let mut m = 0;
        while m < 20 {
            let w = sim.chain().weight(sim.pool().tip(m));
            assert!(w >= weights[m]);
            weights[m] = w;
            m += 1;
        }
        // Blocks keep their height, and a flag that was set stays set.
        let mut i = 0;
        while i < heights.len() {
            assert_eq!(sim.chain().height(i), heights[i]);
            assert!(sim.chain().block(i).finalized || !finalized[i]);
            finalized[i] = sim.chain().block(i).finalized;
            i += 1;
        }
        while i < sim.chain().len() {
            heights.push(sim.chain().height(i));
            finalized.push(sim.chain().block(i).finalized);
            i += 1;
        }
    }
    assert_eq!(sim.status(), Status::HeightReached);
}

#[test]
fn blocks_of_a_run_are_finalized_exactly_when_buried() {
    let config = contested(8);
    let mut sim = Simulation::new(&skewed_hash_rates(20), config).unwrap();
    loop {
        let before = blocks_of(&sim);
        if sim.step() != Status::Running {
            break;
        }
        let after = blocks_of(&sim);
        let mut a = 0;
        while a < after.len() {
            // Some descendant stands at least the confirmation depth above.
            let mut buried = false;
            let mut d = a;
            while d < after.len() {
                if sim.chain().is_ancestor(a, d)
                    && after[d].height - after[a].height >= config.confirmation_depth
                {
                    buried = true;
                }
                d += 1;
            }
            assert_eq!(after[a].finalized, buried);
            if a < before.len() && before[a].finalized {
                assert!(after[a].finalized);
            }
            a += 1;
        }
        if sim.chain().len() > 60 {
            break;
        }
    }
    assert!(sim.chain().len() > 60);
}

#[test]
fn the_report_counts_every_block_once() {
    let mut sim = Simulation::new(&skewed_hash_rates(20), contested(21)).unwrap();
    assert_eq!(sim.run(), Ok(Status::HeightReached));
    let r = report(&sim);
    let blocks = blocks_of(&sim);
    assert_eq!(r.total_time, sim.now());
    assert_eq!(r.forks, *sim.forks());
    assert_eq!(r.miners.len(), 20);
    // The final chain runs from genesis to a tip at the height horizon.
    assert_eq!(r.final_chain[0], 0);
    assert_eq!(r.final_chain.len(), 121);
    let mut i = 1;
    while i < r.final_chain.len() {
        assert_eq!(blocks[r.final_chain[i]].parent, Some(r.final_chain[i - 1]));
        i += 1;
    }
    let tip: BlockId = r.final_chain[120];
    let mut mined_total = 0;
    let mut orphaned_total = 0;
    let mut m = 0;
    while m < 20 {
        let mut mined = 0;
        let mut orphaned = 0;
        let mut i = 1;
        while i < blocks.len() {
            if blocks[i].minter == m as i32 {
                mined += 1;
                if !sim.chain().is_ancestor(i, tip) {
                    orphaned += 1;
                }
            }
            i += 1;
        }
        assert_eq!(r.miners[m].blocks_mined, mined);
        assert_eq!(r.miners[m].orphaned, orphaned);
        if mined == 0 {
            assert_eq!(r.miners[m].average_time_to_block, None);
        } else {
            assert_eq!(r.miners[m].average_time_to_block, Some(sim.now() / mined));
        }
        mined_total += mined;
        orphaned_total += orphaned;
        m += 1;
    }
    assert_eq!(mined_total as usize, blocks.len() - 1);
    assert_eq!(mined_total - orphaned_total, 120);
    assert!(orphaned_total > 0);
    // No miner mines on a heavier chain than the final one.
    let mut m = 0;
    while m < 20 {
        assert!(sim.chain().weight(sim.pool().tip(m)) <= sim.chain().weight(tip));
        m += 1;
    }
}

#[test]
fn fork_events_name_a_delivery_from_a_competing_branch() {
    let mut sim = Simulation::new(&skewed_hash_rates(20), contested(4)).unwrap();
    sim.run().unwrap();
    let forks = sim.forks();
    assert!(forks.len() > 0);
    let mut adopted = 0;
    let mut last = 0;
    let mut i = 0;
    while i < forks.len() {
        let f = forks[i];
        assert!(f.from < 20 && f.to < 20 && f.from != f.to);
        assert!(f.height >= 1);
        assert!(f.time >= last);
        last = f.time;
        if f.adopted {
            adopted += 1;
        }
        i += 1;
    }
    assert!(adopted > 0);
    assert!(adopted < forks.len());
}

#[test]
fn a_run_halts_at_the_time_horizon() {
    let config = Config { time_horizon: 50_000, height_horizon: u64::MAX, ..settings(2) };
    let mut sim = Simulation::new(&skewed_hash_rates(20), config).unwrap();
    assert_eq!(sim.run(), Ok(Status::TimeHorizon));
    assert!(sim.now() <= 50_000);
    assert!(sim.chain().tallest() > 20);
    assert_eq!(sim.status(), Status::TimeHorizon);
    // A halted run stays where it is.
    let events = sim.processed();
    assert_eq!(sim.step(), Status::TimeHorizon);
    assert_eq!(sim.processed(), events);
    assert_eq!(sim.run(), Ok(Status::TimeHorizon));
}

#[test]
fn a_run_rests_when_the_clock_has_run_out() {
    let config = Config {
        rule: DifficultyRule { target_block_time: 1 << 60, epoch_length: 10, max_factor: 4 },
        height_horizon: u64::MAX,
        ..settings(3)
    };
    let mut sim = Simulation::new(&vec![1, 1], config).unwrap();
    assert_eq!(sim.run(), Ok(Status::QueueEmpty));
    assert_eq!(sim.status(), Status::QueueEmpty);
    assert!(sim.chain().len() > 1);
    assert!(sim.chain().len() < 200);
    assert!(sim.now() > 1 << 62);
    assert_eq!(sim.step(), Status::QueueEmpty);
}

#[test]
fn a_run_halts_at_once_at_height_horizon_zero() {
    let config = Config { height_horizon: 0, ..settings(2) };
    let mut sim = Simulation::new(&skewed_hash_rates(20), config).unwrap();
    assert_eq!(sim.run(), Ok(Status::HeightReached));
    assert_eq!(sim.processed(), 0);
    assert_eq!(sim.chain().len(), 1);
    assert_eq!(report(&sim).final_chain, vec![0]);
}

#[test]
fn a_run_that_hits_its_event_cap_did_not_converge() {
    let config = Config { max_events: 100, ..settings(2) };
    let mut sim = Simulation::new(&skewed_hash_rates(20), config).unwrap();
    assert_eq!(sim.run(), Err(SimError::Exhaustion));
    assert_eq!(sim.processed(), 100);
    assert_eq!(sim.status(), Status::Exhausted);
    let config = Config { max_events: 0, ..settings(2) };
    let mut sim = Simulation::new(&skewed_hash_rates(20), config).unwrap();
    assert_eq!(sim.run(), Err(SimError::Exhaustion));
    assert_eq!(sim.processed(), 0);
}

#[test]
fn the_first_event_is_a_block_of_the_first_miner_to_finish() {
    let mut sim = Simulation::new(&skewed_hash_rates(20), settings(1)).unwrap();
    assert_eq!(sim.step(), Status::Running);
    assert_eq!(sim.processed(), 1);
    assert_eq!(sim.chain().len(), 2);
    let b = sim.chain().block(1);
    assert_eq!(b.height, 1);
    assert_eq!(b.parent, Some(0));
    assert_eq!(b.time, sim.now());
    assert_eq!(b.difficulty, 1_000_000);
    assert_eq!(b.last_epoch_time, 0);
    let minter = b.minter as usize;
    assert_eq!(sim.pool().tip(minter), 1);
    assert_eq!(sim.pool().miner(minter).version, 1);
    let mut m = 0;
    while m < 20 {
        if m != minter {
            assert_eq!(sim.pool().tip(m), 0);
            assert_eq!(sim.pool().miner(m).version, 0);
        }
        m += 1;
    }
}

#[test]
fn a_delivered_block_is_adopted_and_restarts_the_recipient() {
    let config = Config { delay_min: 1, delay_max: 1, ..settings(1) };
    let mut sim = Simulation::new(&vec![1, 1], config).unwrap();
    assert_eq!(sim.step(), Status::Running);
    let minter = sim.chain().block(1).minter as usize;
    let other = 1 - minter;
    let mined_at = sim.now();
    // The block travels for one unit of time.
    assert_eq!(sim.step(), Status::Running);
    assert_eq!(sim.now(), mined_at + 1);
    assert_eq!(sim.pool().tip(other), 1);
    assert_eq!(sim.pool().miner(other).version, 1);
    assert_eq!(sim.chain().len(), 2);
    assert_eq!(sim.forks().len(), 0);
}

#[test]
fn difficulty_is_adjusted_once_per_epoch_during_a_run() {
    let mut sim = Simulation::new(&skewed_hash_rates(20), settings(6)).unwrap();
    sim.run().unwrap();
    let blocks = blocks_of(&sim);
    let mut changed = 0;
    let mut i = 1;
    while i < blocks.len() {
        let parent = blocks[blocks[i].parent.unwrap()];
        if blocks[i].height % 10 == 0 {
            assert_eq!(blocks[i].last_epoch_time, parent.time);
            assert!(blocks[i].difficulty <= parent.difficulty * 4);
            assert!(blocks[i].difficulty >= parent.difficulty / 4);
            if blocks[i].difficulty != parent.difficulty {
                changed += 1;
            }
        } else {
            assert_eq!(blocks[i].difficulty, parent.difficulty);
            assert_eq!(blocks[i].last_epoch_time, parent.last_epoch_time);
        }
        i += 1;
    }
    assert!(changed > 50);
}

#[test]
fn settings_are_checked_before_the_run() {
    let good = settings(1);
    assert_eq!(check_config(&good), None);
    let zero_target = Config { rule: DifficultyRule { target_block_time: 0, ..good.rule }, ..good };
    let zero_epoch = Config { rule: DifficultyRule { epoch_length: 0, ..good.rule }, ..good };
    let zero_clamp = Config { rule: DifficultyRule { max_factor: 0, ..good.rule }, ..good };
    let long_epoch = Config {
        rule: DifficultyRule { target_block_time: 1 << 40, epoch_length: 1 << 40, max_factor: 4 },
        ..good
    };
    let inverted = Config { delay_min: 6, delay_max: 5, ..good };
    assert_eq!(check_config(&zero_target), Some(ConfigFault::ZeroTargetBlockTime));
    assert_eq!(check_config(&zero_epoch), Some(ConfigFault::ZeroEpochLength));
    assert_eq!(check_config(&zero_clamp), Some(ConfigFault::ZeroClampFactor));
    assert_eq!(check_config(&long_epoch), Some(ConfigFault::EpochTooLong));
    assert_eq!(check_config(&inverted), Some(ConfigFault::DelayRangeInverted));
    let rates = skewed_hash_rates(20);
    assert_eq!(
        setup_error(rates.clone(), zero_target),
        Some(SimError::ConfigurationError(ConfigFault::ZeroTargetBlockTime))
    );
    assert_eq!(
        setup_error(rates.clone(), zero_epoch),
        Some(SimError::ConfigurationError(ConfigFault::ZeroEpochLength))
    );
    assert_eq!(
        setup_error(rates.clone(), zero_clamp),
        Some(SimError::ConfigurationError(ConfigFault::ZeroClampFactor))
    );
    assert_eq!(
        setup_error(rates.clone(), long_epoch),
        Some(SimError::ConfigurationError(ConfigFault::EpochTooLong))
    );
    assert_eq!(
        setup_error(rates.clone(), inverted),
        Some(SimError::ConfigurationError(ConfigFault::DelayRangeInverted))
    );
    assert_eq!(setup_error(rates, good), None);
}

#[test]
fn hash_rates_are_checked_before_the_settings() {
    let bad = Config { delay_min: 6, delay_max: 5, ..settings(1) };
    assert_eq!(setup_error(vec![], bad), Some(SimError::ConfigurationError(ConfigFault::NoMiners)));
    assert_eq!(
        setup_error(vec![0, 0], settings(1)),
        Some(SimError::ConfigurationError(ConfigFault::ZeroTotalHashRate))
    );
    assert_eq!(
        setup_error(vec![1, 0], settings(1)),
        Some(SimError::ConfigurationError(ConfigFault::ZeroHashRate))
    );
    assert_eq!(
        setup_error(vec![1, u64::MAX], settings(1)),
        Some(SimError::ConfigurationError(ConfigFault::HashRateTooLarge))
    );
}

#[test]
fn a_task_that_names_an_unknown_miner_is_refused() {
    let mut sim = Simulation::new(&vec![1, 1], settings(1)).unwrap();
    let generation = TaskKind::BlockGeneration { minter: 2, version: 0, rand: 0 };
    assert_eq!(
        sim.schedule(10, generation),
        Err(SimError::InvariantViolation(Violation::UnknownMiner))
    );
    let sent = TaskKind::Propagation { from: 0, to: 2, block: 0 };
    assert_eq!(sim.schedule(10, sent), Err(SimError::InvariantViolation(Violation::UnknownMiner)));
    let sent = TaskKind::Propagation { from: 5, to: 1, block: 0 };
    assert_eq!(sim.schedule(10, sent), Err(SimError::InvariantViolation(Violation::UnknownMiner)));
}

#[test]
fn a_propagation_without_its_block_is_refused() {
    let mut sim = Simulation::new(&vec![1, 1], settings(1)).unwrap();
    let sent = TaskKind::Propagation { from: 0, to: 1, block: 1 };
    assert_eq!(
        sim.schedule(10, sent),
        Err(SimError::InvariantViolation(Violation::MissingPropagatedBlock))
    );
    assert_eq!(sim.schedule(10, TaskKind::Propagation { from: 0, to: 1, block: 0 }), Ok(2));
}

#[test]
fn a_task_in_the_past_is_refused() {
    let mut sim = Simulation::new(&vec![1, 1], settings(1)).unwrap();
    sim.step();
    assert!(sim.now() > 0);
    let generation = TaskKind::BlockGeneration { minter: 0, version: 0, rand: 0 };
    assert_eq!(
        sim.schedule(sim.now() - 1, generation),
        Err(SimError::InvariantViolation(Violation::TaskInPast))
    );
    assert!(sim.schedule(sim.now(), generation).is_ok());
}

#[test]
fn a_generation_task_of_an_abandoned_attempt_has_no_effect() {
    let config = Config { delay_min: 1, delay_max: 1, ..settings(1) };
    let mut sim = Simulation::new(&vec![1, 1], config).unwrap();
    sim.step();
    let minter = sim.chain().block(1).minter as usize;
    assert_eq!(sim.pool().miner(minter).version, 1);
    // The miner's first attempt is over; a task that still belongs to it is stale.
    let stale = TaskKind::BlockGeneration { minter, version: 0, rand: 5 };
    sim.schedule(sim.now(), stale).unwrap();
    let blocks = sim.chain().len();
    let events = sim.processed();
    assert_eq!(sim.step(), Status::Running);
    assert_eq!(sim.processed(), events + 1);
    assert_eq!(sim.chain().len(), blocks);
    assert_eq!(sim.pool().miner(minter).version, 1);
    // A task of the current attempt mines a block.
    let current = TaskKind::BlockGeneration { minter, version: 1, rand: 5 };
    sim.schedule(sim.now(), current).unwrap();
    assert_eq!(sim.step(), Status::Running);
    assert_eq!(sim.chain().len(), blocks + 1);
    assert_eq!(sim.chain().block(blocks).rand, 5);
    assert_eq!(sim.chain().block(blocks).minter, minter as i32);
    assert_eq!(sim.pool().miner(minter).version, 2);
}
