//! What a run hands to its caller when it has come to rest: the final chain,
//! the statistics of each miner, the simulated time that passed, and the
//! fork events.

use vstd::prelude::*;
use crate::chain::{
    chain_weight, is_ancestor, is_path, lemma_ancestor_bounds, lemma_ancestor_unique, Block,
    BlockId, Chain,
};
use crate::miner::{tips_within, Miner, MinerPool};
use crate::model::{sim_ok, ForkEvent, SimState};
use crate::scheduler::Simulation;

verus! {

/// The statistics of one miner.
#[derive(Clone, Copy, Debug, PartialEq, Eq, Structural)]
pub struct MinerStats {
    /// The number of blocks that the miner produced.
    pub blocks_mined: u64,
    /// The number of those that are not part of the final chain.
    pub orphaned: u64,
    /// The simulated time that passed per block of the miner, rounded down;
    /// `None` for a miner that produced no block.
    pub average_time_to_block: Option<u64>,
}

/// The outcome of a run.
pub struct Report {
    /// The handles of the final chain, from genesis to the heaviest tip.
    pub final_chain: Vec<BlockId>,
    /// The statistics of each miner, by miner id.
    pub miners: Vec<MinerStats>,
    /// The simulated time at which the run came to rest.
    pub total_time: u64,
    /// The fork events, in the order in which they happened.
    pub forks: Vec<ForkEvent>,
}

/// The miner below `upto` whose tip ends the heaviest chain; among equals,
/// the one with the smallest id.
pub open spec fn heaviest_miner(miners: Seq<Miner>, blocks: Seq<Block>, upto: nat) -> int
    decreases upto,
{
    if upto <= 1 {
        0
    } else {
        let best = heaviest_miner(miners, blocks, (upto - 1) as nat);
        if chain_weight(blocks, miners[upto - 1].tip as int) > chain_weight(
            blocks,
            miners[best].tip as int,
        ) {
            upto - 1
        } else {
            best
        }
    }
}

/// The tip of the heaviest chain that any miner mines on.
pub open spec fn heaviest_tip(miners: Seq<Miner>, blocks: Seq<Block>) -> BlockId {
    miners[heaviest_miner(miners, blocks, miners.len())].tip
}

/// The number of blocks below handle `upto` that miner `m` produced.
pub open spec fn minted(blocks: Seq<Block>, m: int, upto: nat) -> nat
    decreases upto,
{
    if upto == 0 {
        0
    } else {
        minted(blocks, m, (upto - 1) as nat) + if blocks[upto - 1].minter == m {
            1nat
        } else {
            0nat
        }
    }
}

/// The number of blocks below handle `upto` that miner `m` produced and that
/// are not on the chain that ends in `tip`.
pub open spec fn orphans(blocks: Seq<Block>, tip: int, m: int, upto: nat) -> nat
    decreases upto,
{
    if upto == 0 {
        0
    } else {
        orphans(blocks, tip, m, (upto - 1) as nat) + if blocks[upto - 1].minter == m
            && !is_ancestor(blocks, upto - 1, tip) {
            1nat
        } else {
            0nat
        }
    }
}

/// The statistics of miner `m` in a tree whose final chain ends in `tip`,
/// after `total_time` of simulated time.
pub open spec fn stats_of(blocks: Seq<Block>, tip: int, m: int, total_time: u64) -> MinerStats {
    let mined = minted(blocks, m, blocks.len());
    MinerStats {
        blocks_mined: mined as u64,
        orphaned: orphans(blocks, tip, m, blocks.len()) as u64,
        average_time_to_block: if mined == 0 {
            None
        } else {
            Some((total_time as nat / mined) as u64)
        },
    }
}

/// The heaviest miner is one of the miners below `upto`; no miner below
/// `upto` mines on a heavier chain, and none with a smaller id on one as heavy.
pub proof fn lemma_heaviest_miner(miners: Seq<Miner>, blocks: Seq<Block>, upto: nat)
    requires
        upto >= 1,
    ensures
        0 <= heaviest_miner(miners, blocks, upto) < upto,
        forall|k: int|
            0 <= k < upto ==> chain_weight(blocks, (#[trigger] miners[k]).tip as int)
                <= chain_weight(
                blocks,
                miners[heaviest_miner(miners, blocks, upto)].tip as int,
            ),
        forall|k: int|
            0 <= k < heaviest_miner(miners, blocks, upto) ==> chain_weight(
                blocks,
                (#[trigger] miners[k]).tip as int,
            ) < chain_weight(blocks, miners[heaviest_miner(miners, blocks, upto)].tip as int),
    decreases upto,
{
    if upto > 1 {
        lemma_heaviest_miner(miners, blocks, (upto - 1) as nat);
    }
}

/// No miner produced more blocks than the tree holds, and no more of a
/// miner's blocks are orphaned than it produced.
pub proof fn lemma_counts_bounded(blocks: Seq<Block>, tip: int, m: int, upto: nat)
    ensures
        orphans(blocks, tip, m, upto) <= minted(blocks, m, upto) <= upto,
    decreases upto,
{
    if upto > 0 {
        lemma_counts_bounded(blocks, tip, m, (upto - 1) as nat);
    }
}

/// Finds the tip of the heaviest chain that any miner mines on.
pub fn find_heaviest_tip(pool: &MinerPool, chain: &Chain) -> (tip: BlockId)
    requires
        pool.wf(),
        chain.wf(),
        tips_within(pool@, chain@.len()),
    ensures
        tip == heaviest_tip(pool@, chain@),
        tip < chain@.len(),
        forall|m: int|
            0 <= m < pool@.len() ==> chain_weight(chain@, (#[trigger] pool@[m]).tip as int)
                <= chain_weight(chain@, tip as int),
{
    proof {
        lemma_heaviest_miner(pool@, chain@, pool@.len());
    }
    let n = pool.len();
    let mut best: usize = 0;
    let mut k: usize = 1;
    while k < n
        invariant
            pool.wf(),
            chain.wf(),
            tips_within(pool@, chain@.len()),
            n == pool@.len(),
            1 <= k <= n,
            best < k,
            best == heaviest_miner(pool@, chain@, k as nat),
        decreases n - k,
    {
        if chain.weight(pool.tip(k)) > chain.weight(pool.tip(best)) {
            best = k;
        }
        k = k + 1;
    }
    pool.tip(best)
}

/// Counts, for each of `miners` miners, the blocks it produced and how many
/// of them are missing from the chain that `path` lists.
pub fn tally(chain: &Chain, path: &Vec<BlockId>, miners: usize, total_time: u64) -> (stats: Vec<
    MinerStats,
>)
    requires
        chain.wf(),
        path@.len() > 0,
        path@[path@.len() - 1] < chain@.len(),
        is_path(chain@, path@, path@[path@.len() - 1] as int),
        miners <= i32::MAX,
    ensures
        stats@.len() == miners,
        forall|m: int|
            0 <= m < miners ==> #[trigger] stats@[m] == stats_of(
                chain@,
                path@[path@.len() - 1] as int,
                m,
                total_time,
            ),
{
    let ghost blocks = chain@;
    let ghost tip = path@[path@.len() - 1] as int;
    let mut mined: Vec<u64> = Vec::new();
    let mut lost: Vec<u64> = Vec::new();
    let mut m: usize = 0;
    while m < miners
        invariant
            m <= miners,
            mined@.len() == m,
            lost@.len() == m,
            forall|j: int| 0 <= j < m ==> #[trigger] mined@[j] == 0 && lost@[j] == 0,
        decreases miners - m,
    {
        mined.push(0);
        lost.push(0);
        m = m + 1;
    }
    let len = chain.len();
    let mut i: usize = 0;
    while i < len
        invariant
            chain.wf(),
            blocks == chain@,
            len == blocks.len(),
            i <= len,
            tip == path@[path@.len() - 1],
            tip < blocks.len(),
            is_path(blocks, path@, tip),
            miners <= i32::MAX,
            mined@.len() == miners,
            lost@.len() == miners,
            forall|j: int|
                0 <= j < miners ==> #[trigger] mined@[j] == minted(blocks, j, i as nat) && lost@[j]
                    == orphans(blocks, tip, j, i as nat),
        decreases len - i,
    {
        let b = chain.block(i);
        let on_chain = b.height < path.len() as u64 && path[b.height as usize] == i;
        let ghost mined_before = mined@;
        let ghost lost_before = lost@;
        proof {
            if is_ancestor(blocks, i as int, tip) {
                lemma_ancestor_bounds(blocks, i as int, tip);
                lemma_ancestor_unique(blocks, i as int, path@[b.height as int] as int, tip);
            }
            if on_chain {
                assert(is_ancestor(blocks, path@[b.height as int] as int, tip));
            }
            assert(on_chain == is_ancestor(blocks, i as int, tip));
        }
        if b.minter >= 0 && (b.minter as usize) < miners {
            let who = b.minter as usize;
            proof {
                lemma_counts_bounded(blocks, tip, who as int, i as nat);
                assert(mined@[who as int] == minted(blocks, who as int, i as nat));
            }
            mined.set(who, mined[who] + 1);
            if !on_chain {
                lost.set(who, lost[who] + 1);
            }
        }
        proof {
            assert forall|j: int| 0 <= j < miners implies #[trigger] mined@[j] == minted(
                blocks,
                j,
                (i + 1) as nat,
            ) && lost@[j] == orphans(blocks, tip, j, (i + 1) as nat) by {
                assert(mined_before[j] == minted(blocks, j, i as nat));
                assert(lost_before[j] == orphans(blocks, tip, j, i as nat));
            }
        }
        i = i + 1;
    }
    let mut stats: Vec<MinerStats> = Vec::new();
    let mut m: usize = 0;
    while m < miners
        invariant
            m <= miners,
            mined@.len() == miners,
            lost@.len() == miners,
            stats@.len() == m,
            forall|j: int|
                0 <= j < miners ==> #[trigger] mined@[j] == minted(blocks, j, blocks.len())
                    && lost@[j] == orphans(blocks, tip, j, blocks.len()),
            forall|j: int|
                0 <= j < m ==> #[trigger] stats@[j] == stats_of(blocks, tip, j, total_time),
        decreases miners - m,
    {
        let count = mined[m];
        let average = if count == 0 {
            None
        } else {
            Some(total_time / count)
        };
        stats.push(MinerStats { blocks_mined: count, orphaned: lost[m], average_time_to_block: average });
        m = m + 1;
    }
    stats
}

/// What the report of a run in state `s` holds.
pub open spec fn reports(s: SimState, r: Report) -> bool {
    let tip = heaviest_tip(s.miners, s.blocks);
    &&& is_path(s.blocks, r.final_chain@, tip as int)
    &&& r.final_chain@[r.final_chain@.len() - 1] == tip
    &&& r.miners@.len() == s.miners.len()
    &&& forall|m: int|
        0 <= m < s.miners.len() ==> #[trigger] r.miners@[m] == stats_of(
            s.blocks,
            tip as int,
            m,
            s.now,
        )
    &&& r.total_time == s.now
    &&& r.forks@ == s.forks
}

/// A state has one report: two reports of the same state agree in every
/// part. With the contracts of `Simulation::new` and `Simulation::run`, which
/// fix the state by hash rates, settings and seed, this makes the output of a
/// run a function of its configuration.
pub proof fn lemma_one_report(s: SimState, r1: Report, r2: Report)
    requires
        sim_ok(s),
        reports(s, r1),
        reports(s, r2),
    ensures
        r1.final_chain@ == r2.final_chain@,
        r1.miners@ == r2.miners@,
        r1.total_time == r2.total_time,
        r1.forks@ == r2.forks@,
{
    reveal(sim_ok);
    let tip = heaviest_tip(s.miners, s.blocks) as int;
    assert forall|i: int| 0 <= i < r1.final_chain@.len() implies r1.final_chain@[i]
        == r2.final_chain@[i] by {
        lemma_ancestor_unique(s.blocks, r1.final_chain@[i] as int, r2.final_chain@[i] as int, tip);
    }
    assert(r1.final_chain@ =~= r2.final_chain@);
    assert(r1.miners@ =~= r2.miners@);
}

/// Draws up the report of a run.
pub fn report(sim: &Simulation) -> (r: Report)
    requires
        sim.wf(),
    ensures
        reports(sim@, r),
{
    proof {
        reveal(sim_ok);
    }
    let chain = sim.chain();
    let pool = sim.pool();
    let tip = find_heaviest_tip(pool, chain);
    let final_chain = chain.path_to(tip);
    let miners = tally(chain, &final_chain, pool.len(), sim.now());
    let recorded = sim.forks();
    let mut forks: Vec<ForkEvent> = Vec::new();
    let mut i: usize = 0;
    while i < recorded.len()
        invariant
            i <= recorded@.len(),
            forks@ == recorded@.subrange(0, i as int),
        decreases recorded@.len() - i,
    {
        forks.push(recorded[i]);
        proof {
            assert(forks@ =~= recorded@.subrange(0, i + 1));
        }
        i = i + 1;
    }
    proof {
        assert(forks@ =~= recorded@);
    }
    Report { final_chain, miners, total_time: sim.now(), forks }
}

} // verus!
