use vstd::prelude::*;

verus! {

/// An outgoing edge: the successor node (by its identity, an index into the
/// graph) and the input slot of that successor that it feeds.
#[derive(Clone, Copy, Debug, PartialEq, Eq, Structural)]
pub struct Edge {
    pub function: usize,
    pub input_nr: usize,
}

/// What a node does with the gradient it receives (the sum of its input slots).
pub enum NodeKind {
    /// Hands the incoming gradient unchanged to every outgoing edge (the
    /// backward of an addition).
    Sum,
    /// Hands the incoming gradient times the factor of each outgoing edge (the
    /// backward of a multiplication, with the saved operands as factors).
    Scale(Vec<i64>),
    /// A leaf: adds the incoming gradient into the parameter's gradient.
    Accumulate,
    /// A backward function that fails.
    Fail,
}

/// A vertex of the backward graph.
pub struct Node {
    pub next_edges: Vec<Edge>,
    pub topological_nr: u64,
    pub num_inputs: usize,
    pub kind: NodeKind,
}

impl Node {
    pub fn next_edges(&self) -> (r: &Vec<Edge>)
        ensures
            r@ == self.next_edges@,
    {
        &self.next_edges
    }

    pub fn topological_nr(&self) -> (r: u64)
        ensures
            r == self.topological_nr,
    {
        self.topological_nr
    }

    pub open spec fn has_edge_to(&self, c: int) -> bool {
        exists|j: int| 0 <= j < self.next_edges@.len() && #[trigger] self.next_edges@[j].function == c
    }

    /// Whether some outgoing edge leads to `c`.
    pub fn points_to(&self, c: usize) -> (r: bool)
        ensures
            r == self.has_edge_to(c as int),
    {
        let mut j: usize = 0;
        while j < self.next_edges.len()
            invariant
                j <= self.next_edges@.len(),
                forall|k: int| 0 <= k < j ==> #[trigger] self.next_edges@[k].function != c,
            decreases self.next_edges@.len() - j,
        {
            if self.next_edges[j].function == c {
                return true;
            }
            j = j + 1;
        }
        false
    }
}

/// The largest rank among the targets of the first `j` edges, or -1 when
/// there are none: a node's rank is one more, so 0 for a leaf.
pub open spec fn max_succ_rank(nodes: Seq<Node>, edges: Seq<Edge>, j: int) -> int
    decreases j,
{
    if j <= 0 {
        -1
    } else {
        let r = nodes[edges[j - 1].function as int].topological_nr as int;
        let m = max_succ_rank(nodes, edges, j - 1);
        if r > m {
            r
        } else {
            m
        }
    }
}

/// The backward graph. Node identities are indices; a node is created after
/// the nodes its edges lead to, so every edge goes to a smaller index. A
/// leaf has rank 0 and any other node one more than its largest successor.
pub struct Graph {
    pub nodes: Vec<Node>,
}

impl Graph {
    pub open spec fn wf(&self) -> bool {
        &&& self.nodes@.len() < usize::MAX
        &&& forall|i: int, j: int|
            0 <= i < self.nodes@.len() && 0 <= j < self.nodes@[i].next_edges@.len() ==> {
                let e = #[trigger] self.nodes@[i].next_edges@[j];
                &&& e.function < i
                &&& e.input_nr < self.nodes@[e.function as int].num_inputs
                &&& self.nodes@[e.function as int].topological_nr < self.nodes@[i].topological_nr
            }
        &&& forall|i: int|
            0 <= i < self.nodes@.len() ==> (#[trigger] self.nodes@[i]).topological_nr == max_succ_rank(
                self.nodes@,
                self.nodes@[i].next_edges@,
                self.nodes@[i].next_edges@.len() as int,
            ) + 1
        &&& forall|i: int|
            0 <= i < self.nodes@.len() ==> match #[trigger] self.nodes@[i].kind {
                NodeKind::Scale(f) => f@.len() == self.nodes@[i].next_edges@.len(),
                _ => true,
            }
    }
}

/// A request to expose the gradient arriving on `input_nr` as entry
/// `output_idx` of the result.
#[derive(Clone, Copy, Debug, PartialEq, Eq, Structural)]
pub struct Capture {
    pub input_nr: usize,
    pub output_idx: usize,
}

/// The plan for one node within a graph task.
pub struct ExecInfo {
    pub needed: bool,
    pub captures: Option<Vec<Capture>>,
}

impl ExecInfo {
    pub open spec fn spec_should_execute(&self) -> bool {
        self.needed || self.captures is Some
    }

    pub fn should_execute(&self) -> (r: bool)
        ensures
            r == self.spec_should_execute(),
    {
        self.needed || self.captures.is_some()
    }
}

/// Whether some requested output edge leads to node `i`.
pub open spec fn is_output(outputs: Seq<Edge>, i: int) -> bool {
    exists|k: int| 0 <= k < outputs.len() && #[trigger] outputs[k].function == i
}

/// Whether planning descends into node `i`: the root always, any other node
/// when a node that is descended into has an edge to it and its rank is at
/// least `min_topo_nr`.
pub open spec fn expanded(nodes: Seq<Node>, root: int, min_topo_nr: u64, i: int) -> bool
    decreases nodes.len() - i,
{
    if i < 0 || i >= nodes.len() {
        false
    } else if i == root {
        true
    } else {
        nodes[i].topological_nr >= min_topo_nr && exists|p: int|
            i < p < nodes.len() && expanded(nodes, root, min_topo_nr, p)
                && #[trigger] nodes[p].has_edge_to(i)
    }
}

/// Whether node `i` should execute: it is requested, or it is descended into
/// and one of its successors should execute.
pub open spec fn executes(
    nodes: Seq<Node>,
    outputs: Seq<Edge>,
    root: int,
    min_topo_nr: u64,
    i: int,
) -> bool
    decreases i,
{
    if i < 0 || i >= nodes.len() {
        false
    } else {
        is_output(outputs, i) || (expanded(nodes, root, min_topo_nr, i) && exists|j: int|
            0 <= j < nodes[i].next_edges@.len() && 0 <= (#[trigger] nodes[i].next_edges@[j]).function < i
                && executes(
                nodes,
                outputs,
                root,
                min_topo_nr,
                nodes[i].next_edges@[j].function as int,
            ))
    }
}

/// Whether some successor of node `i` should execute.
pub open spec fn child_executes(
    nodes: Seq<Node>,
    outputs: Seq<Edge>,
    root: int,
    min_topo_nr: u64,
    i: int,
) -> bool {
    exists|j: int|
        0 <= j < nodes[i].next_edges@.len() && 0 <= (#[trigger] nodes[i].next_edges@[j]).function < i
            && executes(
            nodes,
            outputs,
            root,
            min_topo_nr,
            nodes[i].next_edges@[j].function as int,
        )
}

/// The number of edges of `node` that lead to `c`.
pub open spec fn edges_to(edges: Seq<Edge>, c: int, j: int) -> nat
    decreases j,
{
    if j <= 0 {
        0
    } else {
        edges_to(edges, c, j - 1) + if edges[j - 1].function == c {
            1nat
        } else {
            0nat
        }
    }
}

/// The number of edges into `c` from the nodes with index in `p..=root`
/// that are reachable from the root.
pub open spec fn in_count(nodes: Seq<Node>, root: int, c: int, p: int) -> nat
    decreases root + 1 - p,
{
    if p > root || p < 0 {
        0
    } else {
        in_count(nodes, root, c, p + 1) + if expanded(nodes, root, 0, p) {
            edges_to(nodes[p].next_edges@, c, nodes[p].next_edges@.len() as int)
        } else {
            0nat
        }
    }
}

/// `x`, or `usize::MAX` when it is larger.
pub open spec fn capped(x: nat) -> usize {
    if x > usize::MAX {
        usize::MAX
    } else {
        x as usize
    }
}

/// No node above the root is reachable from it.
pub proof fn lemma_above_root(nodes: Seq<Node>, root: int, q: int)
    requires
        root < q,
    ensures
        !expanded(nodes, root, 0, q),
    decreases nodes.len() - q,
{
    if 0 <= q < nodes.len() {
        assert forall|p: int| q < p < nodes.len() && #[trigger] nodes[p].has_edge_to(q) implies !expanded(nodes, root, 0, p) by {
            lemma_above_root(nodes, root, p);
        }
    }
}

/// The captures of node `i` among the first `k` output edges, in order.
pub open spec fn capture_seq(outputs: Seq<Edge>, i: int, k: int) -> Seq<Capture>
    decreases k,
{
    if k <= 0 {
        Seq::empty()
    } else if outputs[k - 1].function == i {
        capture_seq(outputs, i, k - 1).push(
            Capture { input_nr: outputs[k - 1].input_nr, output_idx: (k - 1) as usize },
        )
    } else {
        capture_seq(outputs, i, k - 1)
    }
}

/// The plan entry of node `i`: present exactly for requested nodes and nodes
/// descended into.
pub open spec fn planned_entry(
    nodes: Seq<Node>,
    outputs: Seq<Edge>,
    accumulate_grad: bool,
    root: int,
    min_topo_nr: u64,
    i: int,
    e: Option<ExecInfo>,
) -> bool {
    if is_output(outputs, i) || expanded(nodes, root, min_topo_nr, i) {
        e matches Some(info) && {
            &&& info.needed == ((accumulate_grad && is_output(outputs, i)) || (expanded(
                nodes,
                root,
                min_topo_nr,
                i,
            ) && child_executes(nodes, outputs, root, min_topo_nr, i)))
            &&& if !accumulate_grad && is_output(outputs, i) {
                info.captures matches Some(c) && c@ == capture_seq(outputs, i, outputs.len() as int)
            } else {
                info.captures is None
            }
        }
    } else {
        e is None
    }
}

} // verus!
