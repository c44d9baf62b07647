//! The miner pool: each miner's hash rate and the tip it currently mines on.

use vstd::prelude::*;
use crate::chain::{chain_weight, Block, BlockId, Chain};
use crate::error::{ConfigFault, SimError};
use crate::rng::{draw_value, state_after_draw, Rng};
use crate::sampling::{generation_interval, interval_for, MAX_HASH_RATE};

verus! {

/// One simulated miner.
#[derive(Clone, Copy, Debug, PartialEq, Eq, Structural)]
pub struct Miner {
    /// The miner's position in the pool.
    pub id: usize,
    /// The miner's share of the network's hash power.
    pub hash_rate: u64,
    /// The block the miner considers the head of the chain.
    pub tip: BlockId,
    /// The number of the miner's current mining attempt. A generation task
    /// that carries an older number is stale.
    pub version: u64,
}

/// The sum of the miners' hash rates.
pub open spec fn total_rate(miners: Seq<Miner>) -> nat
    decreases miners.len(),
{
    if miners.len() == 0 {
        0
    } else {
        total_rate(miners.drop_last()) + miners.last().hash_rate as nat
    }
}

/// What holds of every pool: it is not empty, a miner's id is its position,
/// and every hash rate is positive and within the supported range.
pub open spec fn pool_ok(miners: Seq<Miner>) -> bool {
    &&& 0 < miners.len() <= i32::MAX
    &&& forall|i: int|
        0 <= i < miners.len() ==> {
            &&& (#[trigger] miners[i]).id == i
            &&& 0 < miners[i].hash_rate <= MAX_HASH_RATE
        }
}

/// Every miner's tip is a block of a tree with `blocks` blocks.
pub open spec fn tips_within(miners: Seq<Miner>, blocks: nat) -> bool {
    forall|i: int| 0 <= i < miners.len() ==> (#[trigger] miners[i]).tip < blocks
}

/// Why a list of hash rates cannot make a pool, if it cannot.
pub open spec fn pool_fault(rates: Seq<u64>) -> Option<ConfigFault> {
    if rates.len() == 0 {
        Some(ConfigFault::NoMiners)
    } else if rates.len() > i32::MAX {
        Some(ConfigFault::TooManyMiners)
    } else if exists|i: int| 0 <= i < rates.len() && rates[i] > MAX_HASH_RATE {
        Some(ConfigFault::HashRateTooLarge)
    } else if forall|i: int| 0 <= i < rates.len() ==> rates[i] == 0 {
        Some(ConfigFault::ZeroTotalHashRate)
    } else if exists|i: int| 0 <= i < rates.len() && rates[i] == 0 {
        Some(ConfigFault::ZeroHashRate)
    } else {
        None
    }
}

/// The pool at the start of a run: every miner on the genesis block, in its
/// first mining attempt.
pub open spec fn fresh_pool(rates: Seq<u64>) -> Seq<Miner> {
    Seq::new(rates.len(), |i: int| Miner { id: i as usize, hash_rate: rates[i], tip: 0, version: 0 })
}

/// The time at which an event fires that is due `delay` after `now`. `None`
/// stands for a time that the clock cannot hold: such an event never fires.
pub open spec fn due(now: u64, delay: Option<u64>) -> Option<u64> {
    match delay {
        Some(d) => if now + d > u64::MAX {
            None
        } else {
            Some((now + d) as u64)
        },
        None => None,
    }
}

/// The pool after `miner` compared `candidate` with its tip: the tip is
/// replaced where the candidate's chain is strictly heavier, and nothing else
/// changes.
pub open spec fn adopted(
    miners: Seq<Miner>,
    blocks: Seq<Block>,
    miner: int,
    candidate: BlockId,
) -> Seq<Miner> {
    if chain_weight(blocks, candidate as int) > chain_weight(blocks, miners[miner].tip as int) {
        miners.update(miner, Miner { tip: candidate, ..miners[miner] })
    } else {
        miners
    }
}

/// The sum grows by the rate of a miner that joins.
pub proof fn lemma_total_rate_push(miners: Seq<Miner>, m: Miner)
    ensures
        total_rate(miners.push(m)) == total_rate(miners) + m.hash_rate,
{
    assert(miners.push(m).drop_last() =~= miners);
}

/// The sum does not depend on tips and versions.
pub proof fn lemma_total_rate_same_rates(a: Seq<Miner>, b: Seq<Miner>)
    requires
        a.len() == b.len(),
        forall|i: int| 0 <= i < a.len() ==> (#[trigger] a[i]).hash_rate == b[i].hash_rate,
    ensures
        total_rate(a) == total_rate(b),
    decreases a.len(),
{
    if a.len() > 0 {
        lemma_total_rate_same_rates(a.drop_last(), b.drop_last());
    }
}

/// The miners of one simulation run.
pub struct MinerPool {
    miners: Vec<Miner>,
    total_hash_rate: u64,
}

impl View for MinerPool {
    type V = Seq<Miner>;

    closed spec fn view(&self) -> Seq<Miner> {
        self.miners@
    }
}

impl MinerPool {
    /// The cached total agrees with the miners.
    pub closed spec fn total_ok(&self) -> bool {
        self.total_hash_rate == total_rate(self.miners@)
    }

    /// The invariant of the pool.
    pub open spec fn wf(&self) -> bool {
        pool_ok(self@) && self.total_ok()
    }

    /// Makes a pool with one miner per hash rate, all on the genesis block.
    /// An empty list, too many miners, a rate beyond `MAX_HASH_RATE` or a rate
    /// of zero are configuration errors.
    pub fn new(hash_rates: &Vec<u64>) -> (r: Result<MinerPool, SimError>)
        ensures
            match r {
                Ok(pool) => {
                    &&& pool_fault(hash_rates@) is None
                    &&& pool.wf()
                    &&& pool@ == fresh_pool(hash_rates@)
                },
                Err(e) => {
                    &&& pool_fault(hash_rates@) matches Some(fault)
                    &&& e == SimError::ConfigurationError(fault)
                },
            },
    {
        let n = hash_rates.len();
        if n == 0 {
            return Err(SimError::ConfigurationError(ConfigFault::NoMiners));
        }
        if n > i32::MAX as usize {
            return Err(SimError::ConfigurationError(ConfigFault::TooManyMiners));
        }
        let mut miners: Vec<Miner> = Vec::new();
        let mut total: u64 = 0;
        let mut too_large = false;
        let mut some_zero = false;
        let mut some_positive = false;
        let mut i: usize = 0;
        while i < n
            invariant
                n == hash_rates@.len(),
                n <= i32::MAX,
                i <= n,
                miners@.len() == i,
                forall|j: int|
                    0 <= j < i ==> #[trigger] miners@[j] == (Miner {
                        id: j as usize,
                        hash_rate: hash_rates@[j],
                        tip: 0,
                        version: 0,
                    }),
                too_large == exists|j: int| 0 <= j < i && hash_rates@[j] > MAX_HASH_RATE,
                some_zero == exists|j: int| 0 <= j < i && hash_rates@[j] == 0,
                some_positive == exists|j: int| 0 <= j < i && hash_rates@[j] != 0,
                !too_large ==> total == total_rate(miners@) && total <= i * MAX_HASH_RATE,
            decreases n - i,
        {
            let rate = hash_rates[i];
            let m = Miner { id: i, hash_rate: rate, tip: 0, version: 0 };
            proof {
                lemma_total_rate_push(miners@, m);
            }
            if rate > MAX_HASH_RATE {
                too_large = true;
            } else if !too_large {
                total = total + rate;
            }
            if rate == 0 {
                some_zero = true;
            } else {
                some_positive = true;
            }
            miners.push(m);
            i = i + 1;
        }
        if too_large {
            return Err(SimError::ConfigurationError(ConfigFault::HashRateTooLarge));
        }
        if !some_positive {
            return Err(SimError::ConfigurationError(ConfigFault::ZeroTotalHashRate));
        }
        if some_zero {
            return Err(SimError::ConfigurationError(ConfigFault::ZeroHashRate));
        }
        let pool = MinerPool { miners, total_hash_rate: total };
        assert(pool@ =~= fresh_pool(hash_rates@));
        Ok(pool)
    }

    /// The number of miners.
    pub fn len(&self) -> (n: usize)
        ensures
            n == self@.len(),
    {
        self.miners.len()
    }

    /// The state of one miner.
    pub fn miner(&self, miner: usize) -> (m: Miner)
        requires
            miner < self@.len(),
        ensures
            m == self@[miner as int],
    {
        self.miners[miner]
    }

    /// The tip that `miner` mines on.
    pub fn tip(&self, miner: usize) -> (t: BlockId)
        requires
            miner < self@.len(),
        ensures
            t == self@[miner as int].tip,
    {
        self.miners[miner].tip
    }

    /// The hash rate of the whole network.
    pub fn total_hash_rate(&self) -> (t: u64)
        requires
            self.wf(),
        ensures
            t == total_rate(self@),
    {
        self.total_hash_rate
    }

    /// Draws the time at which `miner`, mining from `now` on at the given
    /// difficulty, completes its next block. The interval is exponentially
    /// distributed with a mean of `target_block_time` scaled by the difficulty
    /// and by the inverse of the miner's share of the total hash rate; since
    /// the distribution has no memory, the draw may be repeated from any `now`.
    /// Returns the time and the draw that it came from; the time is `None`
    /// where the block would be completed after the end of the clock.
    pub fn sample_next_generation_time(
        &self,
        miner: usize,
        now: u64,
        difficulty: u64,
        target_block_time: u64,
        rng: &mut Rng,
    ) -> (r: (Option<u64>, u64))
        requires
            self.wf(),
            miner < self@.len(),
        ensures
            final(rng)@ == state_after_draw(old(rng)@),
            r.1 == draw_value(old(rng)@),
            r.0 == due(
                now,
                generation_interval(
                    r.1,
                    self@[miner as int].hash_rate,
                    total_rate(self@) as u64,
                    difficulty,
                    target_block_time,
                ),
            ),
            r.0 matches Some(t) ==> t >= now,
    {
        let draw = rng.next_u64();
        let interval = interval_for(
            draw,
            self.miners[miner].hash_rate,
            self.total_hash_rate,
            difficulty,
            target_block_time,
        );
        let time = match interval {
            Some(d) => now.checked_add(d),
            None => None,
        };
        (time, draw)
    }

    /// Compares the chain that ends in `candidate` with the chain of the
    /// miner's tip and adopts the candidate where it is strictly heavier. On a
    /// tie the miner keeps the tip it saw first. Returns whether the tip changed.
    pub fn adopt_if_heavier(&mut self, miner: usize, candidate: BlockId, chain: &Chain) -> (r: bool)
        requires
            old(self).wf(),
            chain.wf(),
            miner < old(self)@.len(),
            candidate < chain@.len(),
            old(self)@[miner as int].tip < chain@.len(),
        ensures
            final(self).wf(),
            r == (chain_weight(chain@, candidate as int) > chain_weight(
                chain@,
                old(self)@[miner as int].tip as int,
            )),
            final(self)@ == adopted(old(self)@, chain@, miner as int, candidate),
            chain_weight(chain@, final(self)@[miner as int].tip as int) >= chain_weight(
                chain@,
                old(self)@[miner as int].tip as int,
            ),
    {
        let m = self.miners[miner];
        if chain.weight(candidate) > chain.weight(m.tip) {
            self.set_tip(miner, candidate);
            true
        } else {
            false
        }
    }

    /// Makes `tip` the head of the miner's chain. The callers see to it that
    /// the chain of `tip` is heavier than the one the miner leaves.
    pub(crate) fn set_tip(&mut self, miner: usize, tip: BlockId)
        requires
            old(self).wf(),
            miner < old(self)@.len(),
        ensures
            final(self).wf(),
            final(self)@ == old(self)@.update(
                miner as int,
                Miner { tip, ..old(self)@[miner as int] },
            ),
    {
        let mut m = self.miners[miner];
        m.tip = tip;
        let ghost before = self.miners@;
        self.miners.set(miner, m);
        proof {
            lemma_total_rate_same_rates(before, self.miners@);
        }
    }

    /// Starts a new mining attempt of `miner` and returns its number. Tasks of
    /// earlier attempts are stale from now on.
    pub fn next_attempt(&mut self, miner: usize) -> (v: u64)
        requires
            old(self).wf(),
            miner < old(self)@.len(),
            old(self)@[miner as int].version < u64::MAX,
        ensures
            final(self).wf(),
            v == old(self)@[miner as int].version + 1,
            final(self)@ == old(self)@.update(
                miner as int,
                Miner { version: v, ..old(self)@[miner as int] },
            ),
    {
        let mut m = self.miners[miner];
        m.version = m.version + 1;
        let ghost before = self.miners@;
        self.miners.set(miner, m);
        proof {
            lemma_total_rate_same_rates(before, self.miners@);
        }
        m.version
    }
}

/// The hash rates of a population of `n` miners in which the first holds as
/// much hash power as all the others together: `n - 1` for miner 0, and 1 for
/// each of the rest.
pub fn skewed_hash_rates(n: usize) -> (rates: Vec<u64>)
    requires
        n >= 1,
    ensures
        rates@.len() == n,
        rates@[0] == n - 1,
        forall|i: int| 1 <= i < n ==> rates@[i] == 1,
{
    let mut rates: Vec<u64> = Vec::new();
    rates.push((n - 1) as u64);
    let mut i: usize = 1;
    while i < n
        invariant
            1 <= i <= n,
            rates@.len() == i,
            rates@[0] == n - 1,
            forall|j: int| 1 <= j < i ==> rates@[j] == 1,
        decreases n - i,
    {
        rates.push(1);
        i = i + 1;
    }
    rates
}

} // verus!
