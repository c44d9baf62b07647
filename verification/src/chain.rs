//! The chain model: an arena of blocks linked by parent handles.

use vstd::prelude::*;
use crate::error::{SimError, Violation};

verus! {

/// The difficulty of the genesis block: one unit of work, in millionths.
pub const DIFFICULTY_UNIT: u64 = 1_000_000;

/// The `minter` of a block that no miner produced.
pub const NO_MINTER: i32 = -1;

/// A handle to a block: its index in the arena. A parent's handle is always
/// smaller than its child's.
pub type BlockId = usize;

/// One node of the block tree.
#[derive(Clone, Copy, Debug, PartialEq, Eq, Structural)]
pub struct Block {
    /// Distance from genesis.
    pub height: u64,
    /// The preceding block; `None` only for genesis.
    pub parent: Option<BlockId>,
    /// The miner that produced the block; `NO_MINTER` only for genesis.
    pub minter: i32,
    /// Simulated creation time.
    pub time: u64,
    /// The random draw that timed the block's generation.
    pub rand: u64,
    /// Work needed for this block, in millionths of a unit.
    pub difficulty: u64,
    /// Time of the last difficulty adjustment boundary before this block.
    pub last_epoch_time: u64,
    /// Set once the block is buried deep enough to be irreversible.
    pub finalized: bool,
}

impl Block {
    /// The genesis block: height zero, no parent, no minter, unit difficulty.
    pub fn new() -> (b: Block)
        ensures
            b == Self::genesis(),
    {
        Block {
            height: 0,
            parent: None,
            minter: NO_MINTER,
            time: 0,
            rand: 0,
            difficulty: DIFFICULTY_UNIT,
            last_epoch_time: 0,
            finalized: false,
        }
    }

    /// The genesis block as a ghost value.
    pub open spec fn genesis() -> Block {
        Block {
            height: 0,
            parent: None,
            minter: NO_MINTER,
            time: 0,
            rand: 0,
            difficulty: DIFFICULTY_UNIT,
            last_epoch_time: 0,
            finalized: false,
        }
    }

    /// The same block with another `finalized` flag.
    pub open spec fn with_finalized(self, f: bool) -> Block {
        Block { finalized: f, ..self }
    }
}

/// The handle of the parent of block `id`, or -1 where it has none.
pub open spec fn parent_index(blocks: Seq<Block>, id: int) -> int {
    match blocks[id].parent {
        Some(p) => p as int,
        None => -1,
    }
}

/// What must hold of every block but genesis: it has an earlier parent, stands
/// one above it, is not older than it, names a miner and has positive difficulty.
pub open spec fn child_ok(blocks: Seq<Block>, i: int) -> bool {
    let p = parent_index(blocks, i);
    &&& 0 <= p < i
    &&& blocks[i].height == blocks[p].height + 1
    &&& blocks[i].height <= i
    &&& blocks[i].time >= blocks[p].time
    &&& blocks[i].minter >= 0
    &&& blocks[i].difficulty > 0
}

/// The arena is a tree rooted in the genesis block at handle 0.
pub open spec fn tree_ok(blocks: Seq<Block>) -> bool {
    &&& blocks.len() > 0
    &&& blocks[0].with_finalized(false) == Block::genesis()
    &&& forall|i: int| 1 <= i < blocks.len() ==> #[trigger] child_ok(blocks, i)
}

/// Whether `a` lies on the path from genesis to `d` (a block is its own ancestor).
pub open spec fn is_ancestor(blocks: Seq<Block>, a: int, d: int) -> bool
    decreases d,
{
    if d < 0 || d >= blocks.len() {
        false
    } else if a == d {
        true
    } else {
        let p = parent_index(blocks, d);
        0 <= p < d && is_ancestor(blocks, a, p)
    }
}

/// The cumulative difficulty of the path from genesis to `id`.
pub open spec fn chain_weight(blocks: Seq<Block>, id: int) -> nat
    decreases id,
{
    if id < 0 || id >= blocks.len() {
        0
    } else {
        let p = parent_index(blocks, id);
        if 0 <= p < id {
            chain_weight(blocks, p) + blocks[id].difficulty as nat
        } else {
            blocks[id].difficulty as nat
        }
    }
}

/// Whether `d` is a descendant of `a` that stands at least `depth` above it.
pub open spec fn buried(blocks: Seq<Block>, a: int, d: int, depth: u64) -> bool {
    is_ancestor(blocks, a, d) && blocks[d].height - blocks[a].height >= depth
}

/// Whether block `a` carries the `finalized` flag.
pub open spec fn is_final(blocks: Seq<Block>, a: int) -> bool {
    blocks[a].finalized
}

/// A block is finalized exactly when some descendant buries it `depth` deep.
pub open spec fn finality_ok(blocks: Seq<Block>, depth: u64) -> bool {
    &&& forall|a: int, d: int| #[trigger] buried(blocks, a, d, depth) ==> blocks[a].finalized
    &&& forall|a: int|
        0 <= a < blocks.len() && #[trigger] is_final(blocks, a) ==> exists|d: int|
            buried(blocks, a, d, depth)
}

/// The reason why a block with these fields cannot be appended, if there is one.
pub open spec fn append_fault(
    blocks: Seq<Block>,
    parent: BlockId,
    minter: i32,
    time: u64,
    difficulty: u64,
) -> Option<Violation> {
    if parent >= blocks.len() {
        Some(Violation::UnknownParent)
    } else if minter < 0 {
        Some(Violation::MinterMissing)
    } else if difficulty == 0 {
        Some(Violation::ZeroDifficulty)
    } else if time < blocks[parent as int].time {
        Some(Violation::TimeBeforeParent)
    } else {
        None
    }
}

/// The block that `append` creates, before finalization is considered.
pub open spec fn new_block(
    blocks: Seq<Block>,
    parent: BlockId,
    minter: i32,
    time: u64,
    rand: u64,
    difficulty: u64,
    last_epoch_time: u64,
) -> Block {
    Block {
        height: (blocks[parent as int].height + 1) as u64,
        parent: Some(parent),
        minter,
        time,
        rand,
        difficulty,
        last_epoch_time,
        finalized: false,
    }
}

/// The arena after block `b` was appended: `b` gets the next handle, and every
/// block that `b` buries `depth` deep is finalized. No other flag changes.
pub open spec fn appended(blocks: Seq<Block>, depth: u64, b: Block) -> Seq<Block> {
    let raw = blocks.push(b);
    let id = blocks.len() as int;
    Seq::new(
        raw.len(),
        |i: int| raw[i].with_finalized(raw[i].finalized || buried(raw, i, id, depth)),
    )
}

/// The later arena holds every block of the earlier one unchanged, but for
/// `finalized` flags that went from false to true.
pub open spec fn grows_from(later: Seq<Block>, earlier: Seq<Block>) -> bool {
    &&& earlier.len() <= later.len()
    &&& forall|i: int|
        0 <= i < earlier.len() ==> {
            &&& (#[trigger] later[i]).with_finalized(false) == earlier[i].with_finalized(false)
            &&& earlier[i].finalized ==> later[i].finalized
        }
}

/// The height of the tallest block.
pub open spec fn max_height(blocks: Seq<Block>) -> nat
    decreases blocks.len(),
{
    if blocks.len() == 0 {
        0
    } else {
        let rest = max_height(blocks.drop_last());
        if blocks.last().height > rest {
            blocks.last().height as nat
        } else {
            rest
        }
    }
}

/// `path` lists the handles of the chain that ends in `tip`, from genesis on:
/// its entry number `i` is the ancestor of `tip` at height `i`.
pub open spec fn is_path(blocks: Seq<Block>, path: Seq<BlockId>, tip: int) -> bool {
    &&& path.len() == blocks[tip].height + 1
    &&& forall|i: int|
        0 <= i < path.len() ==> is_ancestor(blocks, #[trigger] path[i] as int, tip)
            && blocks[path[i] as int].height == i
}

/// A block that fits its parent may join the tree.
pub open spec fn fits(blocks: Seq<Block>, b: Block) -> bool {
    &&& b.parent matches Some(p)
    &&& p < blocks.len()
    &&& b.height == blocks[p as int].height + 1
    &&& b.time >= blocks[p as int].time
    &&& b.minter >= 0
    &&& b.difficulty > 0
    &&& !b.finalized
}

/// Every block with a parent stands exactly one above it, is no older than
/// it, and has a larger handle.
pub proof fn lemma_child_stands_above_parent(blocks: Seq<Block>, i: int)
    requires
        tree_ok(blocks),
        0 <= i < blocks.len(),
        blocks[i].parent is Some,
    ensures
        0 <= parent_index(blocks, i) < i,
        blocks[i].height == blocks[parent_index(blocks, i)].height + 1,
        blocks[i].time >= blocks[parent_index(blocks, i)].time,
{
    if i >= 1 {
        assert(child_ok(blocks, i));
    }
}

/// A block is final exactly when some descendant stands `depth` or more above
/// it: never later, and never earlier.
pub proof fn lemma_final_exactly_when_buried(blocks: Seq<Block>, depth: u64, a: int)
    requires
        finality_ok(blocks, depth),
        0 <= a < blocks.len(),
    ensures
        blocks[a].finalized <==> exists|d: int| buried(blocks, a, d, depth),
{
    if blocks[a].finalized {
        assert(is_final(blocks, a));
    }
}

/// When a block is appended, the blocks that become final are exactly the
/// ancestors that the new block buries `depth` deep; a flag that was set stays
/// set, and no other flag changes.
pub proof fn lemma_final_on_append(before: Seq<Block>, depth: u64, b: Block, a: int)
    requires
        0 <= a <= before.len(),
    ensures
        appended(before, depth, b)[a].finalized <==> before.push(b)[a].finalized || buried(
            before.push(b),
            a,
            before.len() as int,
            depth,
        ),
{
}

/// Growth composes.
pub proof fn lemma_grows_from_transitive(a: Seq<Block>, b: Seq<Block>, c: Seq<Block>)
    requires
        grows_from(b, a),
        grows_from(c, b),
    ensures
        grows_from(c, a),
{
    assert forall|i: int| 0 <= i < a.len() implies (#[trigger] c[i]).with_finalized(false)
        == a[i].with_finalized(false) && (a[i].finalized ==> c[i].finalized) by {
        assert(b[i].with_finalized(false) == a[i].with_finalized(false));
    }
}

/// Ancestry depends on the parent links up to the descendant only.
pub proof fn lemma_ancestor_frame(s1: Seq<Block>, s2: Seq<Block>, a: int, d: int)
    requires
        d < s1.len(),
        d < s2.len(),
        forall|i: int| 0 <= i <= d ==> (#[trigger] s1[i]).parent == s2[i].parent,
    ensures
        is_ancestor(s1, a, d) == is_ancestor(s2, a, d),
    decreases d,
{
    if 0 <= d && a != d {
        let p = parent_index(s1, d);
        assert(s1[d].parent == s2[d].parent);
        if 0 <= p < d {
            lemma_ancestor_frame(s1, s2, a, p);
        }
    }
}

/// The weight of a path depends on the blocks up to its tip only.
pub proof fn lemma_weight_frame(s1: Seq<Block>, s2: Seq<Block>, id: int)
    requires
        id < s1.len(),
        id < s2.len(),
        forall|i: int|
            0 <= i <= id ==> (#[trigger] s1[i]).parent == s2[i].parent && s1[i].difficulty
                == s2[i].difficulty,
    ensures
        chain_weight(s1, id) == chain_weight(s2, id),
    decreases id,
{
    if 0 <= id {
        let p = parent_index(s1, id);
        assert(s1[id].parent == s2[id].parent);
        if 0 <= p < id {
            lemma_weight_frame(s1, s2, p);
        }
    }
}

/// An ancestor has a handle and a height no larger than its descendant's.
pub proof fn lemma_ancestor_bounds(blocks: Seq<Block>, a: int, d: int)
    requires
        tree_ok(blocks),
        is_ancestor(blocks, a, d),
    ensures
        0 <= a <= d < blocks.len(),
        blocks[a].height <= blocks[d].height,
        a != d ==> blocks[a].height < blocks[d].height,
    decreases d,
{
    if a != d {
        assert(child_ok(blocks, d));
        lemma_ancestor_bounds(blocks, a, parent_index(blocks, d));
    }
}

/// The parent of an ancestor is an ancestor too.
pub proof fn lemma_ancestor_parent(blocks: Seq<Block>, a: int, d: int)
    requires
        tree_ok(blocks),
        is_ancestor(blocks, a, d),
        a >= 1,
    ensures
        is_ancestor(blocks, parent_index(blocks, a), d),
    decreases d,
{
    lemma_ancestor_bounds(blocks, a, d);
    assert(child_ok(blocks, a));
    let q = parent_index(blocks, a);
    if a == d {
        assert(is_ancestor(blocks, q, q));
    } else {
        assert(child_ok(blocks, d));
        let p = parent_index(blocks, d);
        lemma_ancestor_parent(blocks, a, p);
        lemma_ancestor_bounds(blocks, a, p);
    }
}

/// A block has one ancestor at each height.
pub proof fn lemma_ancestor_unique(blocks: Seq<Block>, a1: int, a2: int, d: int)
    requires
        tree_ok(blocks),
        is_ancestor(blocks, a1, d),
        is_ancestor(blocks, a2, d),
        blocks[a1].height == blocks[a2].height,
    ensures
        a1 == a2,
    decreases d,
{
    lemma_ancestor_bounds(blocks, a1, d);
    lemma_ancestor_bounds(blocks, a2, d);
    if a1 != d && a2 != d {
        lemma_ancestor_unique(blocks, a1, a2, parent_index(blocks, d));
    }
}

/// Ancestry is transitive.
pub proof fn lemma_ancestor_transitive(blocks: Seq<Block>, a: int, b: int, c: int)
    requires
        tree_ok(blocks),
        is_ancestor(blocks, a, b),
        is_ancestor(blocks, b, c),
    ensures
        is_ancestor(blocks, a, c),
    decreases c,
{
    lemma_ancestor_bounds(blocks, a, b);
    lemma_ancestor_bounds(blocks, b, c);
    if b != c {
        lemma_ancestor_transitive(blocks, a, b, parent_index(blocks, c));
    }
}

/// A descendant's chain is at least as heavy as its ancestor's, and strictly
/// heavier where the two differ.
pub proof fn lemma_weight_monotone(blocks: Seq<Block>, a: int, d: int)
    requires
        tree_ok(blocks),
        is_ancestor(blocks, a, d),
    ensures
        chain_weight(blocks, a) <= chain_weight(blocks, d),
        a != d ==> chain_weight(blocks, a) < chain_weight(blocks, d),
    decreases d,
{
    if a != d {
        assert(child_ok(blocks, d));
        lemma_weight_monotone(blocks, a, parent_index(blocks, d));
    }
}

/// The tallest height depends on the heights only.
pub proof fn lemma_max_height_frame(s1: Seq<Block>, s2: Seq<Block>)
    requires
        s1.len() == s2.len(),
        forall|i: int| 0 <= i < s1.len() ==> (#[trigger] s1[i]).height == s2[i].height,
    ensures
        max_height(s1) == max_height(s2),
    decreases s1.len(),
{
    if s1.len() > 0 {
        lemma_max_height_frame(s1.drop_last(), s2.drop_last());
    }
}

/// No block stands above the tallest height, and some block reaches it.
pub proof fn lemma_max_height_bounds(blocks: Seq<Block>)
    requires
        blocks.len() > 0,
    ensures
        forall|i: int| 0 <= i < blocks.len() ==> (#[trigger] blocks[i]).height <= max_height(blocks),
        exists|i: int| 0 <= i < blocks.len() && (#[trigger] blocks[i]).height == max_height(blocks),
    decreases blocks.len(),
{
    let rest = blocks.drop_last();
    let last = blocks.len() - 1;
    if rest.len() > 0 {
        lemma_max_height_bounds(rest);
        assert forall|i: int| 0 <= i < blocks.len() implies (#[trigger] blocks[i]).height
            <= max_height(blocks) by {
            if i < last {
                assert(rest[i] == blocks[i]);
            }
        }
        if blocks[last].height > max_height(rest) {
            assert(blocks[last].height == max_height(blocks));
        } else {
            let w = choose|i: int| 0 <= i < rest.len() && (#[trigger] rest[i]).height == max_height(rest);
            assert(blocks[w] == rest[w]);
        }
    } else {
        assert(max_height(rest) == 0);
        assert(blocks[last].height == max_height(blocks));
    }
}

proof fn lemma_push_keeps_tree(before: Seq<Block>, b: Block)
    requires
        tree_ok(before),
        fits(before, b),
    ensures
        tree_ok(before.push(b)),
{
    let raw = before.push(b);
    let p = parent_index(raw, before.len() as int);
    if p >= 1 {
        assert(child_ok(before, p));
    }
    assert forall|i: int| 1 <= i < raw.len() implies #[trigger] child_ok(raw, i) by {
        if i < before.len() {
            assert(child_ok(before, i));
        }
    }
}

/// Setting the flag of the one ancestor that stands `depth` below the new
/// block gives the arena that `appended` describes.
proof fn lemma_append_marks(before: Seq<Block>, depth: u64, b: Block, marked: int, fin: Seq<Block>)
    requires
        tree_ok(before),
        finality_ok(before, depth),
        fits(before, b),
        marked >= 0 ==> is_ancestor(before.push(b), marked, before.len() as int) && b.height
            - before.push(b)[marked].height == depth && fin == before.push(b).update(
            marked,
            before.push(b)[marked].with_finalized(true),
        ),
        marked < 0 ==> fin == before.push(b) && b.height < depth,
    ensures
        fin == appended(before, depth, b),
{
    let raw = before.push(b);
    let id = before.len() as int;
    let parent = parent_index(raw, id);
    lemma_push_keeps_tree(before, b);
    if marked >= 0 {
        lemma_ancestor_bounds(raw, marked, id);
    }
    assert forall|i: int| 0 <= i < fin.len() implies fin[i].finalized == (raw[i].finalized
        || buried(raw, i, id, depth)) by {
        if buried(raw, i, id, depth) {
            lemma_ancestor_bounds(raw, i, id);
            if i != id && raw[parent].height - raw[i].height >= depth {
                assert(is_ancestor(raw, i, parent));
                lemma_ancestor_frame(raw, before, i, parent);
                assert(buried(before, i, parent, depth));
            } else {
                lemma_ancestor_unique(raw, i, marked, id);
            }
        }
    }
    assert(fin =~= appended(before, depth, b));
}

/// Appending keeps the tree a tree and finality exact, and changes no block
/// but for flags that are raised.
pub proof fn lemma_append_keeps_finality(before: Seq<Block>, depth: u64, b: Block)
    requires
        tree_ok(before),
        finality_ok(before, depth),
        fits(before, b),
    ensures
        tree_ok(appended(before, depth, b)),
        finality_ok(appended(before, depth, b), depth),
        grows_from(appended(before, depth, b), before),
{
    let raw = before.push(b);
    let id = before.len() as int;
    let fin = appended(before, depth, b);
    lemma_push_keeps_tree(before, b);
    assert forall|i: int| 1 <= i < fin.len() implies #[trigger] child_ok(fin, i) by {
        assert(child_ok(raw, i));
    }
    assert(tree_ok(fin));
    assert forall|a: int, d: int| #[trigger] buried(fin, a, d, depth) implies fin[a].finalized by {
        lemma_ancestor_frame(fin, raw, a, d);
        lemma_ancestor_bounds(raw, a, d);
        if d < id {
            lemma_ancestor_frame(raw, before, a, d);
            assert(buried(before, a, d, depth));
        } else {
            assert(buried(raw, a, id, depth));
        }
    }
    assert forall|a: int| 0 <= a < fin.len() && #[trigger] is_final(fin, a) implies exists|d: int|
        buried(fin, a, d, depth) by {
        if raw[a].finalized {
            assert(is_final(before, a));
            let d = choose|d: int| buried(before, a, d, depth);
            lemma_ancestor_bounds(before, a, d);
            lemma_ancestor_frame(raw, before, a, d);
            lemma_ancestor_frame(fin, raw, a, d);
            assert(buried(fin, a, d, depth));
        } else {
            lemma_ancestor_frame(fin, raw, a, id);
            assert(buried(fin, a, id, depth));
        }
    }
}

/// Appending leaves the weight of every earlier chain as it was, gives the new
/// chain its parent's weight plus the new block's difficulty, and raises the
/// tallest height to the new block's where that is larger.
pub proof fn lemma_append_frames(before: Seq<Block>, depth: u64, b: Block)
    requires
        tree_ok(before),
        fits(before, b),
    ensures
        forall|i: int|
            0 <= i < before.len() ==> #[trigger] chain_weight(appended(before, depth, b), i)
                == chain_weight(before, i),
        chain_weight(appended(before, depth, b), before.len() as int) == chain_weight(
            before,
            parent_index(before.push(b), before.len() as int),
        ) + b.difficulty,
        max_height(appended(before, depth, b)) == if b.height > max_height(before) {
            b.height as nat
        } else {
            max_height(before)
        },
{
    let raw = before.push(b);
    let id = before.len() as int;
    let fin = appended(before, depth, b);
    let parent = parent_index(raw, id);
    assert(raw.drop_last() =~= before);
    lemma_max_height_frame(fin, raw);
    assert forall|i: int| 0 <= i < before.len() implies #[trigger] chain_weight(fin, i)
        == chain_weight(before, i) by {
        lemma_weight_frame(fin, raw, i);
        lemma_weight_frame(raw, before, i);
    }
    lemma_weight_frame(fin, raw, id);
    lemma_weight_frame(raw, before, parent);
}

/// The block tree of one simulation run. Blocks are never removed, so every
/// ancestor stays reachable as long as the tree lives.
pub struct Chain {
    blocks: Vec<Block>,
    weights: Vec<u128>,
    tallest: u64,
    confirmation_depth: u64,
}

impl View for Chain {
    type V = Seq<Block>;

    closed spec fn view(&self) -> Seq<Block> {
        self.blocks@
    }
}

impl Chain {
    /// How many descendants deep a block must be buried to become final.
    pub closed spec fn depth(&self) -> u64 {
        self.confirmation_depth
    }

    /// The cached weights and the cached tallest height agree with the tree.
    pub closed spec fn cache_ok(&self) -> bool {
        &&& self.weights@.len() == self.blocks@.len()
        &&& self.tallest == max_height(self.blocks@)
        &&& forall|i: int|
            0 <= i < self.blocks@.len() ==> {
                &&& (#[trigger] self.weights@[i]) == chain_weight(self.blocks@, i)
                &&& self.weights@[i] <= (self.blocks@[i].height + 1) * u64::MAX
            }
    }

    /// The invariant of the chain model.
    pub open spec fn wf(&self) -> bool {
        &&& tree_ok(self@)
        &&& finality_ok(self@, self.depth())
        &&& self.cache_ok()
    }

    /// A tree that holds the genesis block only.
    pub fn new(confirmation_depth: u64) -> (c: Chain)
        ensures
            c.wf(),
            c.depth() == confirmation_depth,
            c@ == seq![Block::genesis().with_finalized(confirmation_depth == 0)],
    {
        let mut g = Block::new();
        g.finalized = confirmation_depth == 0;
        let mut blocks: Vec<Block> = Vec::new();
        blocks.push(g);
        let mut weights: Vec<u128> = Vec::new();
        weights.push(DIFFICULTY_UNIT as u128);
        let c = Chain { blocks, weights, tallest: 0, confirmation_depth };
        proof {
            assert(c@.drop_last() =~= Seq::<Block>::empty());
            assert(max_height(c@.drop_last()) == 0);
            assert(c@ =~= seq![Block::genesis().with_finalized(confirmation_depth == 0)]);
            assert(is_ancestor(c@, 0, 0));
            assert forall|a: int| 0 <= a < c@.len() && #[trigger] is_final(c@, a) implies exists|
                d: int,
            | buried(c@, a, d, confirmation_depth) by {
                assert(buried(c@, 0, 0, confirmation_depth));
            }
        }
        c
    }

    /// The number of blocks, genesis included.
    pub fn len(&self) -> (n: usize)
        ensures
            n == self@.len(),
    {
        self.blocks.len()
    }

    /// The confirmation depth the tree was made with.
    pub fn confirmation_depth(&self) -> (d: u64)
        ensures
            d == self.depth(),
    {
        self.confirmation_depth
    }

    /// The block behind a handle.
    pub fn block(&self, id: BlockId) -> (b: Block)
        requires
            id < self@.len(),
        ensures
            b == self@[id as int],
    {
        self.blocks[id]
    }

    /// The height of a block.
    pub fn height(&self, id: BlockId) -> (h: u64)
        requires
            id < self@.len(),
        ensures
            h == self@[id as int].height,
    {
        self.blocks[id].height
    }

    /// The fork-choice weight of the chain that ends in `id`: the sum of the
    /// difficulties from genesis to `id`.
    pub fn weight(&self, id: BlockId) -> (w: u128)
        requires
            self.wf(),
            id < self@.len(),
        ensures
            w == chain_weight(self@, id as int),
    {
        self.weights[id]
    }

    /// Walks the parent links from `d` toward genesis and tells whether `a` is
    /// met. Handles that name no block are ancestors of nothing.
    pub fn is_ancestor(&self, a: BlockId, d: BlockId) -> (r: bool)
        requires
            self.wf(),
        ensures
            r == is_ancestor(self@, a as int, d as int),
    {
        if d >= self.blocks.len() {
            return false;
        }
        let mut cur: usize = d;
        while cur > a
            invariant
                tree_ok(self@),
                self@ == self.blocks@,
                cur < self@.len(),
                is_ancestor(self@, a as int, d as int) == is_ancestor(self@, a as int, cur as int),
            decreases cur,
        {
            assert(child_ok(self@, cur as int));
            match self.blocks[cur].parent {
                Some(p) => {
                    cur = p;
                },
                None => {
                    return false;
                },
            }
        }
        proof {
            if cur < a && is_ancestor(self@, a as int, cur as int) {
                lemma_ancestor_bounds(self@, a as int, cur as int);
            }
        }
        cur == a
    }

    /// The height of the tallest block of the tree.
    pub fn tallest(&self) -> (h: u64)
        requires
            self.wf(),
        ensures
            h == max_height(self@),
    {
        self.tallest
    }

    /// The chain that ends in `tip`, from genesis on, as a list of handles.
    pub fn path_to(&self, tip: BlockId) -> (path: Vec<BlockId>)
        requires
            self.wf(),
            tip < self@.len(),
        ensures
            is_path(self@, path@, tip as int),
            path@[0] == 0,
            path@[path@.len() - 1] == tip,
    {
        proof {
            if tip >= 1 {
                assert(child_ok(self@, tip as int));
            } else {
                assert(self@[0].with_finalized(false) == Block::genesis());
            }
        }
        let len = self.blocks.len();
        assert(tip < len);
        let top: usize = self.blocks[tip].height as usize;
        let mut path: Vec<BlockId> = Vec::new();
        let mut n: usize = 0;
        while n <= top
            invariant
                n <= top + 1,
                top < usize::MAX,
                path@.len() == n,
            decreases top + 1 - n,
        {
            path.push(tip);
            n = n + 1;
        }
        let mut cur: usize = tip;
        let mut k: usize = top;
        assert(is_ancestor(self@, tip as int, tip as int));
        loop
            invariant
                tree_ok(self@),
                self@ == self.blocks@,
                tip < self@.len(),
                top == self@[tip as int].height,
                path@.len() == top + 1,
                k <= top,
                is_ancestor(self@, cur as int, tip as int),
                self@[cur as int].height == k,
                forall|i: int|
                    k < i <= top ==> is_ancestor(self@, #[trigger] path@[i] as int, tip as int)
                        && self@[path@[i] as int].height == i,
                k < top ==> path@[top as int] == tip,
            ensures
                is_path(self@, path@, tip as int),
                path@[0] == 0,
                path@[top as int] == tip,
            decreases k,
        {
            proof {
                lemma_ancestor_bounds(self@, cur as int, tip as int);
            }
            path.set(k, cur);
            if k == 0 {
                proof {
                    if cur >= 1 {
                        assert(child_ok(self@, cur as int));
                    }
                }
                break;
            }
            proof {
                if cur == 0 {
                    assert(self@[0].with_finalized(false) == Block::genesis());
                }
                assert(child_ok(self@, cur as int));
                lemma_ancestor_parent(self@, cur as int, tip as int);
            }
            match self.blocks[cur].parent {
                Some(p) => {
                    cur = p;
                },
                None => {},
            }
            k = k - 1;
        }
        path
    }

    /// The ancestor that stands `k` below `id`.
    fn ancestor_below(&self, id: BlockId, k: u64) -> (r: BlockId)
        requires
            tree_ok(self@),
            id < self@.len(),
            k <= self@[id as int].height,
        ensures
            is_ancestor(self@, r as int, id as int),
            self@[id as int].height - self@[r as int].height == k,
    {
        let mut cur: usize = id;
        let mut steps: u64 = 0;
        while steps < k
            invariant
                tree_ok(self@),
                self@ == self.blocks@,
                id < self@.len(),
                steps <= k <= self@[id as int].height,
                is_ancestor(self@, cur as int, id as int),
                self@[id as int].height - self@[cur as int].height == steps,
            decreases k - steps,
        {
            proof {
                lemma_ancestor_bounds(self@, cur as int, id as int);
                assert(cur >= 1);
                assert(child_ok(self@, cur as int));
                lemma_ancestor_parent(self@, cur as int, id as int);
            }
            match self.blocks[cur].parent {
                Some(p) => {
                    cur = p;
                },
                None => {},
            }
            steps = steps + 1;
        }
        cur
    }

    /// Creates a block on top of `parent` and returns its handle. The new block
    /// stands one above its parent; every block that it buries `depth()` deep
    /// becomes final. Fields that would break the tree are refused, and the
    /// tree stays as it was.
    pub fn append(
        &mut self,
        parent: BlockId,
        minter: i32,
        time: u64,
        rand: u64,
        difficulty: u64,
        last_epoch_time: u64,
    ) -> (r: Result<BlockId, SimError>)
        requires
            old(self).wf(),
        ensures
            final(self).wf(),
            final(self).depth() == old(self).depth(),
            grows_from(final(self)@, old(self)@),
            match r {
                Ok(id) => {
                    &&& append_fault(old(self)@, parent, minter, time, difficulty) is None
                    &&& id == old(self)@.len()
                    &&& final(self)@ == appended(
                        old(self)@,
                        old(self).depth(),
                        new_block(old(self)@, parent, minter, time, rand, difficulty, last_epoch_time),
                    )
                    &&& final(self)@[id as int].height == old(self)@[parent as int].height + 1
                    &&& max_height(final(self)@) == if final(self)@[id as int].height > max_height(
                        old(self)@,
                    ) {
                        final(self)@[id as int].height as nat
                    } else {
                        max_height(old(self)@)
                    }
                },
                Err(e) => {
                    &&& final(self)@ == old(self)@
                    &&& append_fault(old(self)@, parent, minter, time, difficulty) matches Some(v)
                    &&& e == SimError::InvariantViolation(v)
                },
            },
    {
        if parent >= self.blocks.len() {
            return Err(SimError::InvariantViolation(Violation::UnknownParent));
        }
        if minter < 0 {
            return Err(SimError::InvariantViolation(Violation::MinterMissing));
        }
        if difficulty == 0 {
            return Err(SimError::InvariantViolation(Violation::ZeroDifficulty));
        }
        let pb = self.blocks[parent];
        if time < pb.time {
            return Err(SimError::InvariantViolation(Violation::TimeBeforeParent));
        }
        let ghost before = self@;
        let ghost depth = self.depth();
        let id = self.blocks.len();
        proof {
            if parent >= 1 {
                assert(child_ok(before, parent as int));
            }
            assert(pb.height <= parent);
        }
        let b = Block {
            height: pb.height + 1,
            parent: Some(parent),
            minter,
            time,
            rand,
            difficulty,
            last_epoch_time,
            finalized: false,
        };
        let w = self.weights[parent] + difficulty as u128;
        self.blocks.push(b);
        self.weights.push(w);
        if b.height > self.tallest {
            self.tallest = b.height;
        }
        let ghost raw = self@;
        proof {
            assert(raw == before.push(b));
            assert(raw.drop_last() =~= before);
            lemma_push_keeps_tree(before, b);
        }
        let ghost mut marked: int = -1;
        if b.height >= self.confirmation_depth {
            let x = self.ancestor_below(id, self.confirmation_depth);
            proof {
                lemma_ancestor_bounds(raw, x as int, id as int);
                marked = x as int;
            }
            let mut xb = self.blocks[x];
            xb.finalized = true;
            self.blocks.set(x, xb);
        }
        assert(marked >= 0 ==> is_ancestor(raw, marked, id as int) && raw[id as int].height
            - raw[marked].height == depth && self@ == raw.update(
            marked,
            raw[marked].with_finalized(true),
        ));
        assert(marked < 0 ==> self@ == raw && b.height < depth);
        proof {
            lemma_append_marks(before, depth, b, marked, self@);
            lemma_append_keeps_finality(before, depth, b);
            lemma_append_frames(before, depth, b);
        }
        Ok(id)
    }
}

} // verus!
