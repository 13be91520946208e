use vstd::prelude::*;

verus! {

/// A unit of work: the graph task it belongs to, the node to evaluate and the
/// gradients gathered for its input slots.
pub struct NodeTask {
    pub graph_task: usize,
    pub node: usize,
    pub rank: u64,
    pub inputs: Vec<i64>,
    pub is_shutdown: bool,
}

impl NodeTask {
    /// The scheduling priority: a shutdown sentinel comes before any node,
    /// otherwise a higher topological rank comes first.
    pub open spec fn priority(&self) -> int {
        if self.is_shutdown {
            u64::MAX as int + 1
        } else {
            self.rank as int
        }
    }

    pub fn new(graph_task: usize, node: usize, rank: u64, inputs: Vec<i64>) -> (r: NodeTask)
        ensures
            r.graph_task == graph_task,
            r.node == node,
            r.rank == rank,
            r.inputs@ == inputs@,
            !r.is_shutdown,
    {
        NodeTask { graph_task, node, rank, inputs, is_shutdown: false }
    }

    pub fn shutdown() -> (r: NodeTask)
        ensures
            r.is_shutdown,
            r.inputs@.len() == 0,
    {
        NodeTask { graph_task: 0, node: 0, rank: 0, inputs: Vec::new(), is_shutdown: true }
    }

    fn outranks(&self, other: &NodeTask) -> (r: bool)
        ensures
            r == (self.priority() > other.priority()),
    {
        if self.is_shutdown {
            !other.is_shutdown
        } else if other.is_shutdown {
            false
        } else {
            self.rank > other.rank
        }
    }
}

/// The index that `pop` takes from `s`: the first task of highest priority.
pub open spec fn is_pop_index(s: Seq<NodeTask>, i: int) -> bool {
    &&& 0 <= i < s.len()
    &&& forall|j: int| 0 <= j < s.len() ==> #[trigger] s[j].priority() <= s[i].priority()
    &&& forall|j: int| 0 <= j < i ==> #[trigger] s[j].priority() < s[i].priority()
}

/// A queue of node tasks, handed out by descending priority and, among equal
/// priorities, in the order they were pushed.
pub struct ReadyQueue {
    tasks: Vec<NodeTask>,
}

impl View for ReadyQueue {
    type V = Seq<NodeTask>;

    closed spec fn view(&self) -> Seq<NodeTask> {
        self.tasks@
    }
}

impl ReadyQueue {
    pub fn new() -> (r: ReadyQueue)
        ensures
            r@.len() == 0,
    {
        ReadyQueue { tasks: Vec::new() }
    }

    /// Inserts `item`; when `increment_outstanding_tasks` is set, the owning
    /// graph task's count of outstanding tasks goes up by one first.
    pub fn push(&mut self, item: NodeTask, increment_outstanding_tasks: bool, outstanding: &mut u64)
        requires
            increment_outstanding_tasks ==> *old(outstanding) < u64::MAX,
        ensures
            final(self)@ == old(self)@.push(item),
            *final(outstanding) == if increment_outstanding_tasks {
                *old(outstanding) + 1
            } else {
                *old(outstanding) as int
            },
    {
        if increment_outstanding_tasks {
            *outstanding = *outstanding + 1;
        }
        self.tasks.push(item);
    }

    /// Inserts the sentinel that makes a worker leave its loop.
    pub fn push_shutdown_task(&mut self)
        ensures
            final(self)@.len() == old(self)@.len() + 1,
            final(self)@.drop_last() == old(self)@,
            final(self)@.last().is_shutdown,
    {
        self.tasks.push(NodeTask::shutdown());
    }

    pub fn size(&self) -> (r: usize)
        ensures
            r == self@.len(),
    {
        self.tasks.len()
    }

    pub fn empty(&self) -> (r: bool)
        ensures
            r == (self@.len() == 0),
    {
        self.tasks.len() == 0
    }

    /// Removes and returns the first task of highest priority, or `None` when
    /// the queue holds nothing.
    pub fn pop(&mut self) -> (r: Option<NodeTask>)
        ensures
            r is None <==> old(self)@.len() == 0,
            r is None ==> final(self)@ == old(self)@,
            r matches Some(t) ==> exists|i: int|
                is_pop_index(old(self)@, i) && t == old(self)@[i] && final(self)@ == old(
                    self,
                )@.remove(i),
    {
        if self.tasks.len() == 0 {
            return None;
        }
        let mut best: usize = 0;
        let mut k: usize = 1;
        while k < self.tasks.len()
            invariant
                self.tasks@ == old(self).tasks@,
                0 <= best < k <= self.tasks@.len(),
                forall|j: int| 0 <= j < k ==> #[trigger] self.tasks@[j].priority() <= self.tasks@[best as int].priority(),
                forall|j: int| 0 <= j < best ==> #[trigger] self.tasks@[j].priority() < self.tasks@[best as int].priority(),
            decreases self.tasks@.len() - k,
        {
            if self.tasks[k].outranks(&self.tasks[best]) {
                best = k;
            }
            k = k + 1;
        }
        let t = self.tasks.remove(best);
        Some(t)
    }
}

/// Two pops with no push between them come out in non-increasing priority.
pub proof fn lemma_pop_order(s: Seq<NodeTask>, i: int, k: int)
    requires
        is_pop_index(s, i),
        is_pop_index(s.remove(i), k),
    ensures
        s.remove(i)[k].priority() <= s[i].priority(),
{
    let j = if k < i { k } else { k + 1 };
    assert(s.remove(i)[k] == s[j]);
    assert(s[j].priority() <= s[i].priority());
}

} // verus!
