//! The event queue: pending tasks in a binary heap, handed out in the order
//! of their firing time, and in the order of insertion where times are equal.

use vstd::prelude::*;
use crate::chain::BlockId;

verus! {

/// What a task does when it fires.
#[derive(Clone, Copy, Debug, PartialEq, Eq, Structural)]
pub enum TaskKind {
    /// A miner completes a block. `version` names the mining attempt that the
    /// task belongs to; `rand` is the draw that timed it.
    BlockGeneration { minter: usize, version: u64, rand: u64 },
    /// A block arrives at miner `to`, sent by miner `from`.
    Propagation { from: usize, to: usize, block: BlockId },
}

/// A scheduled event.
#[derive(Clone, Copy, Debug, PartialEq, Eq, Structural)]
pub struct Task {
    /// Absolute simulated firing time.
    pub time: u64,
    /// The number of tasks that entered the queue before this one.
    pub seq: u128,
    /// Block generation or propagation, with its payload.
    pub kind: TaskKind,
}

impl Task {
    /// The miner the task concerns: the generator, or the recipient of a propagation.
    pub open spec fn concerns(self) -> usize {
        match self.kind {
            TaskKind::BlockGeneration { minter, .. } => minter,
            TaskKind::Propagation { to, .. } => to,
        }
    }

    /// The miner the task concerns: the generator, or the recipient of a propagation.
    pub fn minter(&self) -> (m: usize)
        ensures
            m == self.concerns(),
    {
        match self.kind {
            TaskKind::BlockGeneration { minter, .. } => minter,
            TaskKind::Propagation { to, .. } => to,
        }
    }
}

/// `a` fires strictly before `b`: earlier, or at the same time and inserted first.
pub open spec fn before(a: Task, b: Task) -> bool {
    a.time < b.time || (a.time == b.time && a.seq < b.seq)
}

/// `a` fires no later than `b`.
pub open spec fn not_after(a: Task, b: Task) -> bool {
    a.time < b.time || (a.time == b.time && a.seq <= b.seq)
}

/// What a queue holds: the pending tasks, and the insertion number that the
/// next task will get.
pub struct QueueState {
    pub tasks: Set<Task>,
    pub next_seq: nat,
}

/// Every pending task was numbered by the queue, and no number was given twice.
pub open spec fn queue_ok(q: QueueState) -> bool {
    &&& forall|t: Task| q.tasks.contains(t) ==> t.seq < q.next_seq
    &&& forall|t: Task, o: Task|
        q.tasks.contains(t) && q.tasks.contains(o) && t.seq == o.seq ==> t == o
}

/// `t` is pending and no pending task fires before it.
pub open spec fn is_earliest(tasks: Set<Task>, t: Task) -> bool {
    &&& tasks.contains(t)
    &&& forall|o: Task| tasks.contains(o) ==> not_after(t, o)
}

/// The pending task that fires first.
pub open spec fn earliest(tasks: Set<Task>) -> Task {
    choose|t: Task| is_earliest(tasks, t)
}

/// The state after a task with this time and payload was pushed.
pub open spec fn pushed(q: QueueState, time: u64, kind: TaskKind) -> QueueState {
    QueueState {
        tasks: q.tasks.insert(Task { time, seq: q.next_seq as u128, kind }),
        next_seq: q.next_seq + 1,
    }
}

/// The state after the earliest task was taken out.
pub open spec fn popped(q: QueueState) -> QueueState {
    QueueState { tasks: q.tasks.remove(earliest(q.tasks)), next_seq: q.next_seq }
}

/// A queue has one earliest task at most.
pub proof fn lemma_earliest_unique(q: QueueState, a: Task, b: Task)
    requires
        queue_ok(q),
        is_earliest(q.tasks, a),
        is_earliest(q.tasks, b),
    ensures
        a == b,
{
    assert(not_after(a, b) && not_after(b, a));
}

/// Tasks leave the queue in the order of `(time, seq)`: the task that is
/// earliest once `first` is gone fires strictly after `first`.
pub proof fn lemma_pops_in_order(q: QueueState, first: Task, second: Task)
    requires
        queue_ok(q),
        is_earliest(q.tasks, first),
        is_earliest(q.tasks.remove(first), second),
    ensures
        before(first, second),
{
    assert(q.tasks.contains(second));
    assert(not_after(first, second));
}

/// Of two tasks with the same firing time, the one pushed first leaves first:
/// a task pushed later gets a larger insertion number than every pending task.
pub proof fn lemma_push_numbers_last(q: QueueState, time: u64, kind: TaskKind, earlier: Task)
    requires
        queue_ok(q),
        q.next_seq <= u128::MAX,
        q.tasks.contains(earlier),
    ensures
        pushed(q, time, kind).tasks.contains(Task { time, seq: q.next_seq as u128, kind }),
        earlier.seq < q.next_seq,
        earlier.time == time ==> before(earlier, Task { time, seq: q.next_seq as u128, kind }),
{
}

spec fn up(j: int) -> int {
    (j - 1) / 2
}

spec fn ordered_at(h: Seq<Task>, j: int) -> bool {
    j >= 1 ==> not_after(h[up(j)], h[j])
}

spec fn heap_ordered(h: Seq<Task>) -> bool {
    forall|j: int| 0 <= j < h.len() ==> #[trigger] ordered_at(h, j)
}

/// The heap order holds everywhere but between `i` and its parent, and the
/// parent of `i` is no later than the children of `i`.
spec fn ordered_but_above(h: Seq<Task>, i: int) -> bool {
    &&& forall|j: int| 0 <= j < h.len() && j != i ==> #[trigger] ordered_at(h, j)
    &&& forall|j: int|
        1 <= j < h.len() && up(j) == i && i >= 1 ==> not_after(h[up(i)], #[trigger] h[j])
}

/// The heap order holds everywhere but between `i` and its children, and the
/// parent of `i` is no later than the children of `i`.
spec fn ordered_but_below(h: Seq<Task>, i: int) -> bool {
    &&& forall|j: int| 1 <= j < h.len() && up(j) != i ==> #[trigger] ordered_at(h, j)
    &&& forall|j: int|
        1 <= j < h.len() && up(j) == i && i >= 1 ==> not_after(h[up(i)], #[trigger] h[j])
}

spec fn numbered(h: Seq<Task>, next: nat) -> bool {
    &&& forall|i: int| 0 <= i < h.len() ==> (#[trigger] h[i]).seq < next
    &&& forall|i: int, j: int|
        0 <= i < h.len() && 0 <= j < h.len() && i != j ==> (#[trigger] h[i]).seq != (
        #[trigger] h[j]).seq
}

spec fn swapped(h: Seq<Task>, i: int, j: int) -> Seq<Task> {
    h.update(i, h[j]).update(j, h[i])
}

proof fn lemma_swapped(h: Seq<Task>, i: int, j: int, next: nat)
    requires
        0 <= i < h.len(),
        0 <= j < h.len(),
    ensures
        swapped(h, i, j).to_set() == h.to_set(),
        numbered(h, next) ==> numbered(swapped(h, i, j), next),
{
    let s = swapped(h, i, j);
    assert forall|t: Task| s.to_set().contains(t) == h.to_set().contains(t) by {
        if s.contains(t) {
            let k = choose|k: int| 0 <= k < s.len() && s[k] == t;
            let k2 = if k == i {
                j
            } else if k == j {
                i
            } else {
                k
            };
            assert(h[k2] == t);
        }
        if h.contains(t) {
            let k = choose|k: int| 0 <= k < h.len() && h[k] == t;
            let k2 = if k == i {
                j
            } else if k == j {
                i
            } else {
                k
            };
            assert(s[k2] == t);
        }
    }
    assert(s.to_set() =~= h.to_set());
    if numbered(h, next) {
        assert forall|a: int, b: int| 0 <= a < s.len() && 0 <= b < s.len() && a != b implies (
        #[trigger] s[a]).seq != (#[trigger] s[b]).seq by {
            let a2 = if a == i {
                j
            } else if a == j {
                i
            } else {
                a
            };
            let b2 = if b == i {
                j
            } else if b == j {
                i
            } else {
                b
            };
            assert(s[a] == h[a2] && s[b] == h[b2]);
        }
    }
}

proof fn lemma_root_is_earliest(h: Seq<Task>, i: int)
    requires
        heap_ordered(h),
        0 <= i < h.len(),
    ensures
        not_after(h[0], h[i]),
    decreases i,
{
    if i >= 1 {
        assert(ordered_at(h, i));
        lemma_root_is_earliest(h, up(i));
    }
}

fn precedes(a: &Task, b: &Task) -> (r: bool)
    ensures
        r == before(*a, *b),
{
    a.time < b.time || (a.time == b.time && a.seq < b.seq)
}

fn swap(h: &mut Vec<Task>, i: usize, j: usize)
    requires
        i < old(h)@.len(),
        j < old(h)@.len(),
    ensures
        final(h)@ == swapped(old(h)@, i as int, j as int),
{
    let a = h[i];
    let b = h[j];
    h.set(i, b);
    h.set(j, a);
}

fn sift_up(h: &mut Vec<Task>, start: usize, Ghost(next): Ghost<nat>)
    requires
        start < old(h)@.len(),
        ordered_but_above(old(h)@, start as int),
        numbered(old(h)@, next),
    ensures
        heap_ordered(final(h)@),
        numbered(final(h)@, next),
        final(h)@.to_set() == old(h)@.to_set(),
        final(h)@.len() == old(h)@.len(),
{
    let mut i = start;
    while i > 0
        invariant
            i < h@.len(),
            ordered_but_above(h@, i as int),
            numbered(h@, next),
            h@.to_set() == old(h)@.to_set(),
            h@.len() == old(h)@.len(),
        ensures
            heap_ordered(h@),
        decreases i,
    {
        let p = (i - 1) / 2;
        if !precedes(&h[i], &h[p]) {
            assert(ordered_at(h@, i as int));
            break;
        }
        let ghost prev = h@;
        swap(h, i, p);
        proof {
            lemma_swapped(prev, i as int, p as int, next);
            assert forall|j: int| 0 <= j < h@.len() && j != p implies #[trigger] ordered_at(h@, j) by {
                if j >= 1 {
                    if j != i {
                        assert(ordered_at(prev, j));
                    }
                    if up(j) == i {
                        assert(not_after(prev[up(i as int)], prev[j]));
                    }
                }
            }
            assert forall|j: int| 1 <= j < h@.len() && up(j) == p && p >= 1 implies not_after(
                h@[up(p as int)],
                #[trigger] h@[j],
            ) by {
                assert(ordered_at(prev, p as int));
                if j != i {
                    assert(ordered_at(prev, j));
                }
            }
        }
        i = p;
    }
    proof {
        if i == 0 {
            assert(ordered_at(h@, 0));
        }
    }
}

fn sift_down(h: &mut Vec<Task>, Ghost(next): Ghost<nat>)
    requires
        old(h)@.len() > 0,
        ordered_but_below(old(h)@, 0),
        numbered(old(h)@, next),
    ensures
        heap_ordered(final(h)@),
        numbered(final(h)@, next),
        final(h)@.to_set() == old(h)@.to_set(),
        final(h)@.len() == old(h)@.len(),
{
    let n = h.len();
    let half = n / 2;
    let mut i: usize = 0;
    while i < half
        invariant
            n == h@.len(),
            half == n / 2,
            i < n,
            ordered_but_below(h@, i as int),
            numbered(h@, next),
            h@.to_set() == old(h)@.to_set(),
            h@.len() == old(h)@.len(),
        ensures
            heap_ordered(h@),
        decreases n - i,
    {
        let left = 2 * i + 1;
        let right = left + 1;
        let mut m = left;
        if right < n && precedes(&h[right], &h[left]) {
            m = right;
        }
        if !precedes(&h[m], &h[i]) {
            proof {
                assert forall|j: int| 0 <= j < h@.len() implies #[trigger] ordered_at(h@, j) by {
                    if j >= 1 && up(j) == i {
                        assert(j == left || j == right);
                    }
                }
            }
            break;
        }
        let ghost prev = h@;
        swap(h, i, m);
        proof {
            lemma_swapped(prev, i as int, m as int, next);
            assert forall|j: int| 1 <= j < h@.len() && up(j) != m implies #[trigger] ordered_at(
                h@,
                j,
            ) by {
                if up(j) == i {
                    assert(j == left || j == right);
                } else {
                    assert(ordered_at(prev, j));
                    if j == i {
                        assert(not_after(prev[up(i as int)], prev[m as int]));
                    }
                }
            }
            assert forall|j: int| 1 <= j < h@.len() && up(j) == m && m >= 1 implies not_after(
                h@[up(m as int)],
                #[trigger] h@[j],
            ) by {
                assert(ordered_at(prev, j));
            }
        }
        i = m;
    }
    proof {
        if i >= half {
            assert forall|j: int| 0 <= j < h@.len() implies #[trigger] ordered_at(h@, j) by {}
        }
    }
}

/// A time-ordered priority queue of pending tasks.
pub struct EventQueue {
    heap: Vec<Task>,
    next_seq: u128,
}

impl View for EventQueue {
    type V = QueueState;

    closed spec fn view(&self) -> QueueState {
        QueueState { tasks: self.heap@.to_set(), next_seq: self.next_seq as nat }
    }
}

impl EventQueue {
    /// The heap behind the queue is in order.
    pub closed spec fn heap_ok(&self) -> bool {
        &&& heap_ordered(self.heap@)
        &&& numbered(self.heap@, self.next_seq as nat)
    }

    /// The invariant of the queue.
    pub open spec fn wf(&self) -> bool {
        &&& self.heap_ok()
        &&& queue_ok(self@)
        &&& self@.next_seq <= u128::MAX
    }

    /// An empty queue that has numbered no task yet.
    pub fn new() -> (q: EventQueue)
        ensures
            q.wf(),
            q@.tasks == Set::<Task>::empty(),
            q@.next_seq == 0,
    {
        let q = EventQueue { heap: Vec::new(), next_seq: 0 };
        assert(q@.tasks =~= Set::<Task>::empty());
        q
    }

    /// Whether no task is pending.
    pub fn is_empty(&self) -> (r: bool)
        requires
            self.wf(),
        ensures
            r == (self@.tasks == Set::<Task>::empty()),
    {
        proof {
            if self.heap@.len() > 0 {
                assert(self.heap@.contains(self.heap@[0]));
                assert(self@.tasks.contains(self.heap@[0]));
                assert(!Set::<Task>::empty().contains(self.heap@[0]));
            } else {
                assert(self@.tasks =~= Set::<Task>::empty());
            }
        }
        self.heap.len() == 0
    }

    /// The number of tasks that were ever pushed.
    pub fn pushed_count(&self) -> (n: u128)
        ensures
            n == self@.next_seq,
    {
        self.next_seq
    }

    /// Enters a task that fires at `time`. It gets the next insertion number,
    /// which the call returns.
    pub fn push(&mut self, time: u64, kind: TaskKind) -> (seq: u128)
        requires
            old(self).wf(),
            old(self)@.next_seq < u128::MAX,
        ensures
            final(self).wf(),
            final(self)@ == pushed(old(self)@, time, kind),
            seq == old(self)@.next_seq,
    {
        let seq = self.next_seq;
        let task = Task { time, seq, kind };
        let ghost before_push = self.heap@;
        self.heap.push(task);
        self.next_seq = seq + 1;
        let last = self.heap.len() - 1;
        proof {
            let h = self.heap@;
            assert forall|j: int| 0 <= j < h.len() && j != last implies #[trigger] ordered_at(h, j) by {
                assert(ordered_at(before_push, j));
            }
            assert(numbered(h, self.next_seq as nat));
            assert forall|t: Task| h.to_set().contains(t) == before_push.to_set().insert(
                task,
            ).contains(t) by {
                if h.contains(t) {
                    let k = choose|k: int| 0 <= k < h.len() && h[k] == t;
                    if k < last {
                        assert(before_push[k] == t);
                    }
                }
                if before_push.contains(t) {
                    let k = choose|k: int| 0 <= k < before_push.len() && before_push[k] == t;
                    assert(h[k] == t);
                }
                assert(h[last as int] == task);
            }
            assert(h.to_set() =~= before_push.to_set().insert(task));
        }
        sift_up(&mut self.heap, last, Ghost(self.next_seq as nat));
        proof {
            self.lemma_numbered_queue_ok();
        }
        seq
    }

    /// The task that `pop_min` would return, left in the queue.
    pub fn peek_min(&self) -> (r: Option<Task>)
        requires
            self.wf(),
        ensures
            match r {
                Some(t) => is_earliest(self@.tasks, t) && t == earliest(self@.tasks),
                None => self@.tasks == Set::<Task>::empty(),
            },
    {
        if self.heap.len() == 0 {
            assert(self@.tasks =~= Set::<Task>::empty());
            None
        } else {
            let t = self.heap[0];
            proof {
                self.lemma_root(t);
            }
            Some(t)
        }
    }

    /// Takes out the task with the smallest `(time, seq)`, or returns `None`
    /// where nothing is pending.
    pub fn pop_min(&mut self) -> (r: Option<Task>)
        requires
            old(self).wf(),
        ensures
            final(self).wf(),
            match r {
                Some(t) => {
                    &&& is_earliest(old(self)@.tasks, t)
                    &&& t == earliest(old(self)@.tasks)
                    &&& final(self)@ == popped(old(self)@)
                },
                None => old(self)@.tasks == Set::<Task>::empty() && final(self)@ == old(self)@,
            },
    {
        let n = self.heap.len();
        if n == 0 {
            assert(self@.tasks =~= Set::<Task>::empty());
            return None;
        }
        let ghost h0 = self.heap@;
        let root = self.heap[0];
        proof {
            self.lemma_root(root);
        }
        let last = self.heap.pop().unwrap();
        if n > 1 {
            self.heap.set(0, last);
            proof {
                let h = self.heap@;
                assert forall|j: int| 1 <= j < h.len() && up(j) != 0 implies #[trigger] ordered_at(
                    h,
                    j,
                ) by {
                    assert(ordered_at(h0, j));
                }
                assert forall|i: int, j: int|
                    0 <= i < h.len() && 0 <= j < h.len() && i != j implies (#[trigger] h[i]).seq != (
                #[trigger] h[j]).seq by {
                    let i0 = if i == 0 {
                        n - 1
                    } else {
                        i
                    };
                    let j0 = if j == 0 {
                        n - 1
                    } else {
                        j
                    };
                    assert(h[i] == h0[i0] && h[j] == h0[j0]);
                }
                assert forall|i: int| 0 <= i < h.len() implies (#[trigger] h[i]).seq
                    < self.next_seq by {
                    let i0 = if i == 0 {
                        n - 1
                    } else {
                        i
                    };
                    assert(h[i] == h0[i0]);
                }
            }
            sift_down(&mut self.heap, Ghost(self.next_seq as nat));
        }
        proof {
            let h = self.heap@;
            // What is left is what was there, without the root.
            assert forall|t: Task| h.to_set().contains(t) == h0.to_set().remove(root).contains(
                t,
            ) by {
                if n > 1 {
                    let h1 = h0.drop_last().update(0, last);
                    assert(h.to_set() == h1.to_set());
                    if h1.contains(t) {
                        let k = choose|k: int| 0 <= k < h1.len() && h1[k] == t;
                        let k0 = if k == 0 {
                            n - 1
                        } else {
                            k
                        };
                        assert(h0[k0] == t);
                        assert(h0[k0].seq != h0[0].seq);
                    }
                    if h0.contains(t) && t != root {
                        let k = choose|k: int| 0 <= k < h0.len() && h0[k] == t;
                        let k1 = if k == n - 1 {
                            0
                        } else {
                            k
                        };
                        assert(h1[k1] == t);
                    }
                } else {
                    assert(h.len() == 0);
                    if h0.contains(t) {
                        let k = choose|k: int| 0 <= k < h0.len() && h0[k] == t;
                        assert(k == 0);
                    }
                }
            }
            assert(h.to_set() =~= h0.to_set().remove(root));
            self.lemma_numbered_queue_ok();
        }
        Some(root)
    }

    proof fn lemma_numbered_queue_ok(&self)
        requires
            numbered(self.heap@, self.next_seq as nat),
        ensures
            queue_ok(self@),
    {
        let h = self.heap@;
        assert forall|t: Task| self@.tasks.contains(t) implies t.seq < self@.next_seq by {
            let k = choose|k: int| 0 <= k < h.len() && h[k] == t;
        }
        assert forall|t: Task, o: Task|
            self@.tasks.contains(t) && self@.tasks.contains(o) && t.seq == o.seq implies t == o by {
            let k = choose|k: int| 0 <= k < h.len() && h[k] == t;
            let l = choose|l: int| 0 <= l < h.len() && h[l] == o;
            assert(h[k].seq == h[l].seq);
        }
    }

    proof fn lemma_root(&self, root: Task)
        requires
            self.wf(),
            self.heap@.len() > 0,
            root == self.heap@[0],
        ensures
            is_earliest(self@.tasks, root),
            root == earliest(self@.tasks),
    {
        let h = self.heap@;
        assert(h.contains(root));
        assert forall|o: Task| self@.tasks.contains(o) implies not_after(root, o) by {
            let k = choose|k: int| 0 <= k < h.len() && h[k] == o;
            lemma_root_is_earliest(h, k);
        }
        lemma_earliest_unique(self@, root, earliest(self@.tasks));
    }
}

} // verus!
