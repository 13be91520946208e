use vstd::prelude::*;
use crate::graph::{
    capped, capture_seq, child_executes, in_count, lemma_above_root, edges_to, executes, expanded, is_output, planned_entry, Capture, Edge,
    ExecInfo, Graph, Node,
};
use crate::input_buffer::InputBuffer;

verus! {

/// Why a graph task failed.
#[derive(Clone, Copy, Debug, PartialEq, Eq, Structural)]
pub enum EngineError {
    /// The backward function of this node failed.
    NodeFailed { node: usize },
    /// Accumulating or propagating a gradient of this node overflowed.
    Overflow { node: usize },
    /// Some node was left with a partially filled input buffer: could not
    /// compute gradients for some functions.
    Unreachable,
}

/// The one-shot completion cell of a graph task.
pub enum FutureState {
    Pending,
    Completed(Vec<Option<i64>>),
    Failed(EngineError),
}

impl FutureState {
    pub fn completed(&self) -> (r: bool)
        ensures
            r == !(self is Pending),
    {
        !matches!(self, FutureState::Pending)
    }
}

/// A device stream.
#[derive(Clone, Copy, Debug, PartialEq, Eq, Structural)]
pub struct Stream {
    pub device_index: usize,
    pub id: u32,
}

/// An event recorded on the leaf stream `leaf` that the caller's stream
/// `caller` of the same device must wait on.
#[derive(Clone, Copy, Debug, PartialEq, Eq, Structural)]
pub struct StreamWait {
    pub device_index: usize,
    pub leaf: u32,
    pub caller: u32,
}

/// What remains to be done on devices once a graph task is complete: the
/// stream waits, the streams to install while callbacks run, and the final
/// callbacks to invoke in order.
pub struct PostProcessing {
    pub waits: Vec<StreamWait>,
    pub guard_streams: Vec<u32>,
    pub callbacks: Vec<u64>,
}

/// The devices as seen at the start of a backward pass: whether each has a
/// primary context, and its current stream.
pub struct Accelerator {
    pub primary_contexts: Vec<bool>,
    pub streams: Vec<u32>,
}

impl Accelerator {
    pub fn device_count(&self) -> (r: usize)
        ensures
            r == self.primary_contexts@.len(),
    {
        self.primary_contexts.len()
    }

    pub fn has_primary_context(&self, device_index: usize) -> (r: bool)
        ensures
            r == (device_index < self.primary_contexts@.len()
                && self.primary_contexts@[device_index as int]),
    {
        device_index < self.primary_contexts.len() && self.primary_contexts[device_index]
    }

    pub fn get_stream(&self, device_index: usize) -> (r: Option<u32>)
        ensures
            r == self.spec_stream(device_index as int),
    {
        if device_index < self.streams.len() {
            Some(self.streams[device_index])
        } else {
            None
        }
    }

    pub open spec fn spec_stream(&self, i: int) -> Option<u32> {
        if 0 <= i < self.streams@.len() {
            Some(self.streams@[i])
        } else {
            None
        }
    }
}

/// The caller's current stream on device `d`, if it has one.
pub open spec fn caller_stream(ccs: Seq<Option<u32>>, d: int) -> Option<u32> {
    if 0 <= d < ccs.len() {
        ccs[d]
    } else {
        None
    }
}

/// The waits owed for the first `k` leaf streams: one for each leaf stream
/// whose device has a caller stream other than it.
pub open spec fn wait_seq(ccs: Seq<Option<u32>>, leaves: Seq<Stream>, k: int) -> Seq<StreamWait>
    decreases k,
{
    if k <= 0 {
        Seq::empty()
    } else {
        let l = leaves[k - 1];
        match caller_stream(ccs, l.device_index as int) {
            Some(c) if c != l.id => wait_seq(ccs, leaves, k - 1).push(
                StreamWait { device_index: l.device_index, leaf: l.id, caller: c },
            ),
            _ => wait_seq(ccs, leaves, k - 1),
        }
    }
}

/// The caller streams that are present, among the first `k` devices.
pub open spec fn present_streams(ccs: Seq<Option<u32>>, k: int) -> Seq<u32>
    decreases k,
{
    if k <= 0 {
        Seq::empty()
    } else {
        match ccs[k - 1] {
            Some(s) => present_streams(ccs, k - 1).push(s),
            None => present_streams(ccs, k - 1),
        }
    }
}

/// The per-invocation state of one backward pass.
pub struct GraphTask {
    pub id: usize,
    pub exec_info: Vec<Option<ExecInfo>>,
    pub not_ready: Vec<Option<InputBuffer>>,
    pub dispatched: Vec<bool>,
    pub dependencies: Vec<usize>,
    pub outstanding_tasks: u64,
    pub captured_vars: Vec<Option<i64>>,
    pub leaf_grads: Vec<Option<i64>>,
    pub has_error: bool,
    pub future_completed: bool,
    pub future_result: FutureState,
    pub owner: usize,
    pub caller_current_streams: Vec<Option<u32>>,
    pub leaf_streams: Vec<Stream>,
    pub final_callbacks: Vec<u64>,
    pub anomaly_mode: bool,
    pub anomaly_report: Option<usize>,
}

/// Whether some node still holds a partially filled input buffer.
pub open spec fn any_not_ready(s: Seq<Option<InputBuffer>>) -> bool {
    exists|i: int| 0 <= i < s.len() && (#[trigger] s[i]) is Some
}

fn requested(outputs: &Vec<Edge>, i: usize) -> (r: bool)
    ensures
        r == is_output(outputs@, i as int),
{
    let mut k: usize = 0;
    while k < outputs.len()
        invariant
            k <= outputs@.len(),
            forall|j: int| 0 <= j < k ==> #[trigger] outputs@[j].function != i,
        decreases outputs@.len() - k,
    {
        if outputs[k].function == i {
            return true;
        }
        k = k + 1;
    }
    false
}

fn captures_of(outputs: &Vec<Edge>, i: usize) -> (r: Vec<Capture>)
    ensures
        r@ == capture_seq(outputs@, i as int, outputs@.len() as int),
{
    let mut r: Vec<Capture> = Vec::new();
    let mut k: usize = 0;
    while k < outputs.len()
        invariant
            k <= outputs@.len(),
            r@ == capture_seq(outputs@, i as int, k as int),
        decreases outputs@.len() - k,
    {
        if outputs[k].function == i {
            r.push(Capture { input_nr: outputs[k].input_nr, output_idx: k });
        }
        k = k + 1;
    }
    r
}

fn falses(n: usize) -> (r: Vec<bool>)
    ensures
        r@ == Seq::new(n as nat, |i: int| false),
{
    let mut r: Vec<bool> = Vec::new();
    let mut k: usize = 0;
    while k < n
        invariant
            k <= n,
            r@ == Seq::new(k as nat, |i: int| false),
        decreases n - k,
    {
        r.push(false);
        k = k + 1;
    }
    r
}

fn zeros(n: usize) -> (r: Vec<usize>)
    ensures
        r@ == Seq::new(n as nat, |i: int| 0usize),
{
    let mut r: Vec<usize> = Vec::new();
    let mut k: usize = 0;
    while k < n
        invariant
            k <= n,
            r@ == Seq::new(k as nat, |i: int| 0usize),
        decreases n - k,
    {
        r.push(0);
        k = k + 1;
    }
    r
}

fn empty_slots(n: usize) -> (r: Vec<Option<i64>>)
    ensures
        r@ == Seq::new(n as nat, |i: int| None::<i64>),
{
    let mut r: Vec<Option<i64>> = Vec::new();
    let mut k: usize = 0;
    while k < n
        invariant
            k <= n,
            r@ == Seq::new(k as nat, |i: int| None::<i64>),
        decreases n - k,
    {
        r.push(None);
        k = k + 1;
    }
    r
}

impl GraphTask {

    /// Counts, for each node, the edges that lead to it from nodes reachable
    /// from the root (capped at `usize::MAX`): the number of gradient
    /// contributions it waits for.
    pub fn compute_dependencies(&mut self, graph: &Graph, graph_root: usize)
        requires
            graph.wf(),
            graph_root < graph.nodes@.len(),
            old(self).dependencies@.len() == graph.nodes@.len(),
        ensures
            final(self).dependencies@.len() == graph.nodes@.len(),
            forall|c: int|
                0 <= c < graph.nodes@.len() ==> #[trigger] final(self).dependencies@[c] == capped(
                    in_count(graph.nodes@, graph_root as int, c, 0),
                ),
            final(self).id == old(self).id,
            final(self).exec_info == old(self).exec_info,
            final(self).not_ready == old(self).not_ready,
            final(self).dispatched == old(self).dispatched,
            final(self).outstanding_tasks == old(self).outstanding_tasks,
            final(self).captured_vars == old(self).captured_vars,
            final(self).leaf_grads == old(self).leaf_grads,
            final(self).has_error == old(self).has_error,
            final(self).future_completed == old(self).future_completed,
            final(self).future_result == old(self).future_result,
            final(self).owner == old(self).owner,
            final(self).anomaly_mode == old(self).anomaly_mode,
    {
        let n = graph.nodes.len();
        let ghost nodes = graph.nodes@;
        let ghost root = graph_root as int;
        let mut reach = falses(n);
        reach.set(graph_root, true);
        let mut deps = zeros(n);
        let mut p: usize = graph_root + 1;
        proof {
            assert forall|q: int| graph_root < q < n implies #[trigger] reach@[q] == expanded(nodes, root, 0, q) by {
                lemma_above_root(nodes, root, q);
            }
            assert forall|q: int|
                0 <= q < p implies #[trigger] reach@[q] == (q == root || exists|r: int|
                    p <= r < n && expanded(nodes, root, 0, r) && #[trigger] nodes[r].has_edge_to(q)) by {
                assert forall|r: int| p <= r < n && #[trigger] nodes[r].has_edge_to(q) implies !expanded(nodes, root, 0, r) by {
                    lemma_above_root(nodes, root, r);
                }
            }
        }
        while p > 0
            invariant
                p <= graph_root + 1,
                graph_root < n,
                n == nodes.len(),
                nodes == graph.nodes@,
                root == graph_root as int,
                graph.wf(),
                reach@.len() == n,
                deps@.len() == n,
                forall|q: int| p <= q < n ==> #[trigger] reach@[q] == expanded(nodes, root, 0, q),
                forall|q: int|
                    0 <= q < p ==> #[trigger] reach@[q] == (q == root || exists|r: int|
                        p <= r < n && expanded(nodes, root, 0, r) && #[trigger] nodes[r].has_edge_to(q)),
                forall|c: int| 0 <= c < n ==> #[trigger] deps@[c] == capped(in_count(nodes, root, c, p as int)),
            decreases p,
        {
            p = p - 1;
            assert(reach@[p as int] == expanded(nodes, root, 0, p as int));
            if reach[p] {
                let node: &Node = &graph.nodes[p];
                let ghost reach0 = reach@;
                let mut j: usize = 0;
                while j < node.next_edges.len()
                    invariant
                        j <= node.next_edges@.len(),
                        p < n,
                        p <= graph_root,
                        n == nodes.len(),
                        nodes == graph.nodes@,
                        root == graph_root as int,
                        *node == nodes[p as int],
                        graph.wf(),
                        expanded(nodes, root, 0, p as int),
                        reach@.len() == n,
                        deps@.len() == n,
                        forall|q: int| p <= q < n ==> #[trigger] reach@[q] == reach0[q],
                        forall|q: int|
                            0 <= q < p ==> #[trigger] reach@[q] == (reach0[q] || exists|j2: int|
                                0 <= j2 < j && #[trigger] node.next_edges@[j2].function == q),
                        forall|c: int|
                            0 <= c < n ==> #[trigger] deps@[c] == capped(
                                in_count(nodes, root, c, p + 1) + edges_to(node.next_edges@, c, j as int),
                            ),
                    decreases node.next_edges@.len() - j,
                {
                    let c = node.next_edges[j].function;
                    reach.set(c, true);
                    if deps[c] < usize::MAX {
                        deps.set(c, deps[c] + 1);
                    }
                    j = j + 1;
                }
                proof {
                    assert forall|q: int|
                        0 <= q < p implies #[trigger] reach@[q] == (q == root || exists|r: int|
                            p <= r < n && expanded(nodes, root, 0, r) && #[trigger] nodes[r].has_edge_to(q)) by {
                        if nodes[p as int].has_edge_to(q) {
                            let j2 = choose|j2: int| 0 <= j2 < nodes[p as int].next_edges@.len() && #[trigger] nodes[p as int].next_edges@[j2].function == q;
                            assert(node.next_edges@[j2].function == q);
                        }
                        if exists|j2: int| 0 <= j2 < node.next_edges@.len() && #[trigger] node.next_edges@[j2].function == q {
                            assert(nodes[p as int].has_edge_to(q));
                        }
                    }
                }
            } else {
                proof {
                    assert forall|q: int|
                        0 <= q < p implies #[trigger] reach@[q] == (q == root || exists|r: int|
                            p <= r < n && expanded(nodes, root, 0, r) && #[trigger] nodes[r].has_edge_to(q)) by {
                    }
                }
            }
        }
        self.dependencies = deps;
    }

    /// Records the caller's current stream of each device that has a primary
    /// context; the table grows or shrinks to the device count, new entries
    /// empty.
    pub fn stash_current_streams(&mut self, accelerator: &Accelerator)
        ensures
            final(self).caller_current_streams@.len() == accelerator.primary_contexts@.len(),
            forall|i: int|
                0 <= i < accelerator.primary_contexts@.len() ==> #[trigger] final(self).caller_current_streams@[i] == if accelerator.primary_contexts@[i] {
                    accelerator.spec_stream(i)
                } else if i < old(self).caller_current_streams@.len() {
                    old(self).caller_current_streams@[i]
                } else {
                    None
                },
            final(self).exec_info == old(self).exec_info,
            final(self).not_ready == old(self).not_ready,
            final(self).dispatched == old(self).dispatched,
            final(self).dependencies == old(self).dependencies,
            final(self).id == old(self).id,
            final(self).owner == old(self).owner,
            final(self).leaf_grads == old(self).leaf_grads,
            final(self).future_completed == old(self).future_completed,
            final(self).future_result == old(self).future_result,
    {
        let num_devices = accelerator.device_count();
        let mut streams: Vec<Option<u32>> = Vec::new();
        let mut idx: usize = 0;
        while idx < num_devices
            invariant
                idx <= num_devices == accelerator.primary_contexts@.len(),
                streams@.len() == idx,
                forall|i: int|
                    0 <= i < idx ==> #[trigger] streams@[i] == if accelerator.primary_contexts@[i] {
                        accelerator.spec_stream(i)
                    } else if i < self.caller_current_streams@.len() {
                        self.caller_current_streams@[i]
                    } else {
                        None
                    },
            decreases num_devices - idx,
        {
            if accelerator.has_primary_context(idx) {
                streams.push(accelerator.get_stream(idx));
            } else if idx < self.caller_current_streams.len() {
                streams.push(self.caller_current_streams[idx]);
            } else {
                streams.push(None);
            }
            idx = idx + 1;
        }
        self.caller_current_streams = streams;
    }

    /// Latches the error flag. On the first latch, with anomaly mode on, the
    /// node (if any) is kept for its diagnostics to be reported.
    pub fn set_exception_without_signal(&mut self, fn_node: Option<usize>)
        ensures
            final(self).has_error,
            final(self).anomaly_report == if !old(self).has_error && old(self).anomaly_mode
                && fn_node is Some {
                fn_node
            } else {
                old(self).anomaly_report
            },
            final(self).exec_info == old(self).exec_info,
            final(self).not_ready == old(self).not_ready,
            final(self).dispatched == old(self).dispatched,
            final(self).dependencies == old(self).dependencies,
            final(self).id == old(self).id,
            final(self).owner == old(self).owner,
            final(self).leaf_grads == old(self).leaf_grads,
            final(self).captured_vars == old(self).captured_vars,
            final(self).outstanding_tasks == old(self).outstanding_tasks,
            final(self).future_completed == old(self).future_completed,
            final(self).future_result == old(self).future_result,
            final(self).anomaly_mode == old(self).anomaly_mode,
            final(self).caller_current_streams == old(self).caller_current_streams,
            final(self).leaf_streams == old(self).leaf_streams,
            final(self).final_callbacks == old(self).final_callbacks,
            final(self).has_error,
    {
        let was_set = self.has_error;
        self.has_error = true;
        if !was_set && self.anomaly_mode && fn_node.is_some() {
            self.anomaly_report = fn_node;
        }
    }

    /// Latches the error and, unless the future was already completed,
    /// completes it with `err`: the first error wins.
    pub fn set_exception(&mut self, err: EngineError, fn_node: Option<usize>)
        ensures
            final(self).has_error,
            final(self).future_completed,
            final(self).future_result == if old(self).future_completed {
                old(self).future_result
            } else {
                FutureState::Failed(err)
            },
            final(self).anomaly_report == if !old(self).has_error && old(self).anomaly_mode
                && fn_node is Some {
                fn_node
            } else {
                old(self).anomaly_report
            },
            final(self).exec_info == old(self).exec_info,
            final(self).not_ready == old(self).not_ready,
            final(self).dispatched == old(self).dispatched,
            final(self).dependencies == old(self).dependencies,
            final(self).id == old(self).id,
            final(self).owner == old(self).owner,
            final(self).leaf_grads == old(self).leaf_grads,
            final(self).captured_vars == old(self).captured_vars,
            final(self).outstanding_tasks == old(self).outstanding_tasks,
            final(self).anomaly_mode == old(self).anomaly_mode,
            final(self).caller_current_streams == old(self).caller_current_streams,
            final(self).leaf_streams == old(self).leaf_streams,
            final(self).final_callbacks == old(self).final_callbacks,
            final(self).has_error,
    {
        self.set_exception_without_signal(fn_node);
        if !self.future_completed {
            self.future_completed = true;
            self.future_result = FutureState::Failed(err);
        }
    }

    /// Checks that no node was left waiting for gradients, then lists what the
    /// devices must do: the stream waits for leaf streams, the caller streams
    /// to install (only when some leaf stream was used), and the final
    /// callbacks in the order they were added.
    pub fn exec_post_processing(&self) -> (r: Result<PostProcessing, EngineError>)
        ensures
            any_not_ready(self.not_ready@) ==> r == Err::<PostProcessing, EngineError>(
                EngineError::Unreachable,
            ),
            !any_not_ready(self.not_ready@) ==> (r matches Ok(pp) && {
                &&& pp.waits@ == wait_seq(
                    self.caller_current_streams@,
                    self.leaf_streams@,
                    self.leaf_streams@.len() as int,
                )
                &&& pp.guard_streams@ == if self.leaf_streams@.len() == 0 {
                    Seq::<u32>::empty()
                } else {
                    present_streams(
                        self.caller_current_streams@,
                        self.caller_current_streams@.len() as int,
                    )
                }
                &&& pp.callbacks@ == self.final_callbacks@
            }),
    {
        let mut k: usize = 0;
        while k < self.not_ready.len()
            invariant
                k <= self.not_ready@.len(),
                forall|i: int| 0 <= i < k ==> (#[trigger] self.not_ready@[i]) is None,
            decreases self.not_ready@.len() - k,
        {
            if self.not_ready[k].is_some() {
                return Err(EngineError::Unreachable);
            }
            k = k + 1;
        }
        let ccs = &self.caller_current_streams;
        let mut waits: Vec<StreamWait> = Vec::new();
        let mut guard_streams: Vec<u32> = Vec::new();
        if self.leaf_streams.len() > 0 {
            let mut l: usize = 0;
            while l < self.leaf_streams.len()
                invariant
                    l <= self.leaf_streams@.len(),
                    waits@ == wait_seq(ccs@, self.leaf_streams@, l as int),
                decreases self.leaf_streams@.len() - l,
            {
                let leaf = self.leaf_streams[l];
                if leaf.device_index < ccs.len() {
                    match ccs[leaf.device_index] {
                        Some(c) => {
                            if c != leaf.id {
                                waits.push(
                                    StreamWait { device_index: leaf.device_index, leaf: leaf.id, caller: c },
                                );
                            }
                        },
                        None => {},
                    }
                }
                l = l + 1;
            }
            let mut d: usize = 0;
            while d < ccs.len()
                invariant
                    d <= ccs@.len(),
                    guard_streams@ == present_streams(ccs@, d as int),
                decreases ccs@.len() - d,
            {
                match ccs[d] {
                    Some(s) => guard_streams.push(s),
                    None => {},
                }
                d = d + 1;
            }
        }
        let mut callbacks: Vec<u64> = Vec::new();
        let mut i: usize = 0;
        while i < self.final_callbacks.len()
            invariant
                i <= self.final_callbacks@.len(),
                callbacks@ == self.final_callbacks@.take(i as int),
            decreases self.final_callbacks@.len() - i,
        {
            callbacks.push(self.final_callbacks[i]);
            i = i + 1;
            assert(self.final_callbacks@.take(i as int) == self.final_callbacks@.take(i - 1).push(
                self.final_callbacks@[i - 1],
            ));
        }
        assert(self.final_callbacks@.take(self.final_callbacks@.len() as int) == self.final_callbacks@);
        Ok(PostProcessing { waits, guard_streams, callbacks })
    }

    /// Takes the completion latch. If it was already taken, nothing changes
    /// and `None` comes back. Otherwise post-processing runs: on success the
    /// captured gradients move into the future and the device work comes
    /// back; on failure the future holds that error.
    pub fn mark_as_completed_and_run_post_processing(&mut self) -> (r: Option<PostProcessing>)
        requires
            !old(self).future_completed ==> old(self).future_result is Pending,
        ensures
            old(self).future_completed ==> r is None && final(self).future_result == old(self).future_result && final(self).captured_vars == old(self).captured_vars,
            final(self).future_completed,
            !old(self).future_completed ==> (if any_not_ready(old(self).not_ready@) {
                r is None && final(self).future_result == FutureState::Failed(
                    EngineError::Unreachable,
                ) && final(self).captured_vars == old(self).captured_vars
            } else {
                &&& (r matches Some(pp) && pp.callbacks@ == old(self).final_callbacks@
                    && pp.waits@ == wait_seq(
                    old(self).caller_current_streams@,
                    old(self).leaf_streams@,
                    old(self).leaf_streams@.len() as int,
                ) && pp.guard_streams@ == if old(self).leaf_streams@.len() == 0 {
                    Seq::<u32>::empty()
                } else {
                    present_streams(
                        old(self).caller_current_streams@,
                        old(self).caller_current_streams@.len() as int,
                    )
                })
                &&& (final(self).future_result matches FutureState::Completed(v) && v@ == old(self).captured_vars@)
                &&& final(self).captured_vars@.len() == 0
            }),
            final(self).has_error == old(self).has_error,
            final(self).exec_info == old(self).exec_info,
            final(self).not_ready == old(self).not_ready,
            final(self).dispatched == old(self).dispatched,
            final(self).dependencies == old(self).dependencies,
            final(self).id == old(self).id,
            final(self).owner == old(self).owner,
            final(self).leaf_grads == old(self).leaf_grads,
            final(self).outstanding_tasks == old(self).outstanding_tasks,
    {
        if self.future_completed {
            return None;
        }
        self.future_completed = true;
        match self.exec_post_processing() {
            Ok(pp) => {
                let mut vars: Vec<Option<i64>> = Vec::new();
                std::mem::swap(&mut vars, &mut self.captured_vars);
                self.future_result = FutureState::Completed(vars);
                Some(pp)
            },
            Err(e) => {
                self.future_result = FutureState::Failed(e);
                None
            },
        }
    }

    /// Plans the pass: which nodes must run and which gradients are captured.
    /// Requested nodes are marked needed (when accumulating into leaves) or
    /// given their captures (otherwise, one result slot per output edge);
    /// from the root, planning descends into successors whose rank is at
    /// least `min_topo_nr`, and a node descended into is needed when one of
    /// its successors should execute.
    pub fn init_to_execute(
        &mut self,
        graph: &Graph,
        graph_root: usize,
        outputs: &Vec<Edge>,
        accumulate_grad: bool,
        min_topo_nr: u64,
    )
        requires
            graph.wf(),
            graph_root < graph.nodes@.len(),
            forall|k: int| 0 <= k < outputs@.len() ==> #[trigger] outputs@[k].function < graph.nodes@.len(),
        ensures
            final(self).exec_info@.len() == graph.nodes@.len(),
            forall|i: int|
                0 <= i < graph.nodes@.len() ==> planned_entry(
                    graph.nodes@,
                    outputs@,
                    accumulate_grad,
                    graph_root as int,
                    min_topo_nr,
                    i,
                    #[trigger] final(self).exec_info@[i],
                ),
            final(self).captured_vars@ == Seq::new(
                if accumulate_grad { 0 } else { outputs@.len() },
                |i: int| None::<i64>,
            ),
            final(self).id == old(self).id,
            final(self).not_ready == old(self).not_ready,
            final(self).dispatched == old(self).dispatched,
            final(self).dependencies == old(self).dependencies,
            final(self).outstanding_tasks == old(self).outstanding_tasks,
            final(self).leaf_grads == old(self).leaf_grads,
            final(self).has_error == old(self).has_error,
            final(self).future_completed == old(self).future_completed,
            final(self).future_result == old(self).future_result,
            final(self).owner == old(self).owner,
            final(self).caller_current_streams == old(self).caller_current_streams,
            final(self).leaf_streams == old(self).leaf_streams,
            final(self).final_callbacks == old(self).final_callbacks,
            final(self).anomaly_mode == old(self).anomaly_mode,
            final(self).anomaly_report == old(self).anomaly_report,
    {
        let n = graph.nodes.len();
        let ghost nodes = graph.nodes@;
        let ghost root = graph_root as int;
        let mut exp = falses(n);
        let mut idx: usize = n;
        while idx > 0
            invariant
                idx <= n,
                n == nodes.len(),
                nodes == graph.nodes@,
                root == graph_root as int,
                graph.wf(),
                exp@.len() == n,
                forall|p: int| idx <= p < n ==> #[trigger] exp@[p] == expanded(nodes, root, min_topo_nr, p),
            decreases idx,
        {
            idx = idx - 1;
            let v = if idx == graph_root {
                true
            } else if graph.nodes[idx].topological_nr < min_topo_nr {
                false
            } else {
                let mut found = false;
                let mut p: usize = idx + 1;
                while p < n
                    invariant
                        idx < p <= n,
                        n == nodes.len(),
                        nodes == graph.nodes@,
                        root == graph_root as int,
                        idx != graph_root,
                        nodes[idx as int].topological_nr >= min_topo_nr,
                        exp@.len() == n,
                        forall|q: int| idx < q < n ==> #[trigger] exp@[q] == expanded(nodes, root, min_topo_nr, q),
                        found == exists|q: int|
                            idx < q < p && expanded(nodes, root, min_topo_nr, q)
                                && #[trigger] nodes[q].has_edge_to(idx as int),
                    decreases n - p,
                {
                    if exp[p] && graph.nodes[p].points_to(idx) {
                        found = true;
                    }
                    assert(exp@[p as int] == expanded(nodes, root, min_topo_nr, p as int));
                    p = p + 1;
                }
                found
            };
            assert(v == expanded(nodes, root, min_topo_nr, idx as int));
            exp.set(idx, v);
        }
        let mut ex: Vec<bool> = Vec::new();
        let mut info: Vec<Option<ExecInfo>> = Vec::new();
        let mut i: usize = 0;
        while i < n
            invariant
                i <= n,
                n == nodes.len(),
                nodes == graph.nodes@,
                root == graph_root as int,
                graph.wf(),
                exp@.len() == n,
                forall|p: int| 0 <= p < n ==> #[trigger] exp@[p] == expanded(nodes, root, min_topo_nr, p),
                ex@.len() == i,
                info@.len() == i,
                forall|c: int| 0 <= c < i ==> #[trigger] ex@[c] == executes(nodes, outputs@, root, min_topo_nr, c),
                forall|c: int|
                    0 <= c < i ==> planned_entry(
                        nodes,
                        outputs@,
                        accumulate_grad,
                        root,
                        min_topo_nr,
                        c,
                        #[trigger] info@[c],
                    ),
            decreases n - i,
        {
            let node: &Node = &graph.nodes[i];
            let mut ce = false;
            let mut j: usize = 0;
            while j < node.next_edges.len()
                invariant
                    j <= node.next_edges@.len(),
                    *node == nodes[i as int],
                    nodes == graph.nodes@,
                    root == graph_root as int,
                    graph.wf(),
                    i < n,
                    n == nodes.len(),
                    exp@.len() == n,
                    forall|p: int| 0 <= p < n ==> #[trigger] exp@[p] == expanded(nodes, root, min_topo_nr, p),
                    info@.len() == i,
                    forall|c: int|
                        0 <= c < i ==> planned_entry(
                            nodes,
                            outputs@,
                            accumulate_grad,
                            root,
                            min_topo_nr,
                            c,
                            #[trigger] info@[c],
                        ),
                    ex@.len() == i,
                    forall|c: int| 0 <= c < i ==> #[trigger] ex@[c] == executes(nodes, outputs@, root, min_topo_nr, c),
                    ce == exists|k: int|
                        0 <= k < j && 0 <= (#[trigger] nodes[i as int].next_edges@[k]).function < i
                            && executes(
                            nodes,
                            outputs@,
                            root,
                            min_topo_nr,
                            nodes[i as int].next_edges@[k].function as int,
                        ),
                decreases node.next_edges@.len() - j,
            {
                let c = node.next_edges[j].function;
                assert(c < i);
                if ex[c] {
                    ce = true;
                }
                j = j + 1;
            }
            assert(ce == child_executes(nodes, outputs@, root, min_topo_nr, i as int));
            let out = requested(outputs, i);
            let e = out || (exp[i] && ce);
            assert(e == executes(nodes, outputs@, root, min_topo_nr, i as int));
            ex.push(e);
            if out || exp[i] {
                let needed = (accumulate_grad && out) || (exp[i] && ce);
                let captures = if !accumulate_grad && out {
                    Some(captures_of(outputs, i))
                } else {
                    None
                };
                info.push(Some(ExecInfo { needed, captures }));
            } else {
                info.push(None);
            }
            i = i + 1;
        }
        self.exec_info = info;
        self.captured_vars = empty_slots(if accumulate_grad { 0 } else { outputs.len() });
    }
    /// Whether the per-node tables cover the `n` nodes of the graph, and the
    /// future is pending exactly until the completion latch is taken.
    pub open spec fn wf(&self, n: nat) -> bool {
        &&& self.exec_info@.len() == n
        &&& self.not_ready@.len() == n
        &&& self.dispatched@.len() == n
        &&& self.dependencies@.len() == n
        &&& self.leaf_grads@.len() == n
        &&& self.future_completed == !(self.future_result is Pending)
    }

    /// A fresh graph task over a graph of `n` nodes, with nothing planned.
    pub fn new(id: usize, n: usize, owner: usize, anomaly_mode: bool) -> (r: GraphTask)
        ensures
            r.wf(n as nat),
            r.id == id,
            r.owner == owner,
            r.anomaly_mode == anomaly_mode,
            r.outstanding_tasks == 0,
            !r.has_error,
            !r.future_completed,
            r.anomaly_report is None,
            forall|i: int| 0 <= i < n ==> (#[trigger] r.exec_info@[i]) is None,
            forall|i: int| 0 <= i < n ==> (#[trigger] r.not_ready@[i]) is None,
            forall|i: int| 0 <= i < n ==> !(#[trigger] r.dispatched@[i]),
            forall|i: int| 0 <= i < n ==> (#[trigger] r.dependencies@[i]) == 0,
            forall|i: int| 0 <= i < n ==> (#[trigger] r.leaf_grads@[i]) is None,
            r.captured_vars@.len() == 0,
            r.caller_current_streams@.len() == 0,
            r.leaf_streams@.len() == 0,
            r.final_callbacks@.len() == 0,
    {
        let mut exec_info: Vec<Option<ExecInfo>> = Vec::new();
        let mut not_ready: Vec<Option<InputBuffer>> = Vec::new();
        let mut k: usize = 0;
        while k < n
            invariant
                k <= n,
                exec_info@.len() == k,
                not_ready@.len() == k,
                forall|i: int| 0 <= i < k ==> (#[trigger] exec_info@[i]) is None,
                forall|i: int| 0 <= i < k ==> (#[trigger] not_ready@[i]) is None,
            decreases n - k,
        {
            exec_info.push(None);
            not_ready.push(None);
            k = k + 1;
        }
        GraphTask {
            id,
            exec_info,
            not_ready,
            dispatched: falses(n),
            dependencies: zeros(n),
            outstanding_tasks: 0,
            captured_vars: Vec::new(),
            leaf_grads: empty_slots(n),
            has_error: false,
            future_completed: false,
            future_result: FutureState::Pending,
            owner,
            caller_current_streams: Vec::new(),
            leaf_streams: Vec::new(),
            final_callbacks: Vec::new(),
            anomaly_mode,
            anomaly_report: None,
        }
    }
}

} // verus!
