use aten::engine::{checked_total, Engine};
use aten::graph::{Capture, Edge, ExecInfo, Graph, Node, NodeKind};
use aten::graph_task::{Accelerator, EngineError, FutureState, GraphTask, Stream, StreamWait};
use aten::input_buffer::InputBuffer;
use aten::ready_queue::{NodeTask, ReadyQueue};

fn edge(function: usize, input_nr: usize) -> Edge {
    Edge { function, input_nr }
}

fn leaf() -> Node {
    Node { next_edges: vec![], topological_nr: 0, num_inputs: 1, kind: NodeKind::Accumulate }
}

fn node(kind: NodeKind, edges: Vec<Edge>, rank: u64) -> Node {
    Node { next_edges: edges, topological_nr: rank, num_inputs: 1, kind }
}

fn grads_of(gt: &GraphTask) -> Vec<Option<i64>> {
    gt.leaf_grads.clone()
}

fn captured(gt: &GraphTask) -> Vec<Option<i64>> {
    match &gt.future_result {
        FutureState::Completed(v) => v.clone(),
        _ => panic!("future not completed successfully"),
    }
}

/// z = x + y: leaves 0 and 1, the sum 2.
fn add_graph() -> Graph {
    Graph { nodes: vec![leaf(), leaf(), node(NodeKind::Sum, vec![edge(0, 0), edge(1, 0)], 1)] }
}

/// z = x * y for one element pair: the product hands y to x and x to y.
fn mul_graph(x: i64, y: i64) -> Graph {
    Graph {
        nodes: vec![leaf(), leaf(), node(NodeKind::Scale(vec![y, x]), vec![edge(0, 0), edge(1, 0)], 1)],
    }
}

/// a = x + x; b = x * 2; z = a + b.
fn diamond_graph() -> Graph {
    Graph {
        nodes: vec![
            leaf(),
            node(NodeKind::Sum, vec![edge(0, 0), edge(0, 0)], 1),
            node(NodeKind::Scale(vec![2]), vec![edge(0, 0)], 1),
            node(NodeKind::Sum, vec![edge(1, 0), edge(2, 0)], 2),
        ],
    }
}

#[test]
fn add_backward_gives_ones() {
    // the backward of a sum does not depend on the operands' values, so one
    // pass stands for every element of x = [[1,2],[3,4]], y = [[5,6],[7,8]]
    let g = add_graph();
    let mut engine = Engine::new(10);
    let (gt, out) = engine.execute(&g, 2, 1, true, &vec![edge(0, 0), edge(1, 0)]);
    assert!(out.is_some());
    assert!(gt.future_completed);
    assert_eq!(grads_of(&gt)[0], Some(1));
    assert_eq!(grads_of(&gt)[1], Some(1));
    assert_eq!(captured(&gt).len(), 0);
}

#[test]
fn input_buffer_rejects_missing_slot() {
    let mut b = InputBuffer::new(1);
    assert!(b.add(1, 5).is_err());
    assert_eq!(b.slots, vec![None]);
}

#[test]
fn dependencies_count_reachable_edges() {
    let g = diamond_graph();
    let mut gt = GraphTask::new(0, 4, 0, false);
    gt.compute_dependencies(&g, 3);
    assert_eq!(gt.dependencies, vec![3, 1, 1, 0]);
    let mut sub = GraphTask::new(1, 4, 0, false);
    sub.compute_dependencies(&g, 2);
    assert_eq!(sub.dependencies, vec![1, 0, 0, 0]);
}

#[test]
fn pool_keeps_other_graph_tasks() {
    let g = add_graph();
    let mut engine = Engine::new(0);
    engine.graphtasks_queue = vec![4, 9, 5];
    let mut gt = GraphTask::new(9, 3, 0, false);
    gt.set_exception(EngineError::NodeFailed { node: 2 }, None);
    let mut queue = ReadyQueue::new();
    let outs = engine.reentrant_thread_init(&g, &mut gt, &mut queue);
    assert_eq!(outs.len(), 1);
    assert_eq!(engine.graphtasks_queue, vec![4, 5]);
}

#[test]
fn mul_backward_swaps_operands() {
    let x = [[1, 2], [3, 4]];
    let y = [[5, 6], [7, 8]];
    for i in 0..2 {
        for j in 0..2 {
            let g = mul_graph(x[i][j], y[i][j]);
            let mut engine = Engine::new(10);
            let (gt, _) = engine.execute(&g, 2, 1, true, &vec![edge(0, 0), edge(1, 0)]);
            assert_eq!(grads_of(&gt)[0], Some(y[i][j]));
            assert_eq!(grads_of(&gt)[1], Some(x[i][j]));
        }
    }
}

#[test]
fn diamond_sums_four_contributions() {
    let g = diamond_graph();
    let mut engine = Engine::new(10);
    let (gt, out) = engine.execute(&g, 3, 1, true, &vec![edge(0, 0)]);
    assert!(gt.future_completed);
    assert_eq!(grads_of(&gt)[0], Some(4));
    assert!(gt.dispatched.iter().all(|d| *d));
    let mut evaluated = out.unwrap().evaluated;
    assert_eq!(evaluated[0], 3);
    assert_eq!(evaluated[3], 0);
    evaluated.sort();
    assert_eq!(evaluated, vec![0, 1, 2, 3]);
}

#[test]
fn diamond_captured_matches_accumulated() {
    let g = diamond_graph();
    let mut engine = Engine::new(10);
    let (acc, _) = engine.execute(&g, 3, 1, true, &vec![edge(0, 0)]);
    let (cap, _) = engine.execute(&g, 3, 1, false, &vec![edge(0, 0)]);
    assert_eq!(captured(&cap), vec![Some(4)]);
    assert_eq!(grads_of(&acc)[0], captured(&cap)[0]);
    assert_eq!(grads_of(&cap)[0], None);
}

#[test]
fn add_captured_matches_accumulated() {
    let g = add_graph();
    let mut engine = Engine::new(10);
    let inputs = vec![edge(0, 0), edge(1, 0)];
    let (acc, _) = engine.execute(&g, 2, 3, true, &inputs);
    let (cap, _) = engine.execute(&g, 2, 3, false, &inputs);
    assert_eq!(captured(&cap), vec![Some(3), Some(3)]);
    assert_eq!(grads_of(&acc)[0], captured(&cap)[0]);
    assert_eq!(grads_of(&acc)[1], captured(&cap)[1]);
}

#[test]
fn single_leaf_root_completes_empty() {
    let g = Graph { nodes: vec![leaf()] };
    let mut engine = Engine::new(10);
    let (gt, out) = engine.execute(&g, 0, 1, false, &vec![]);
    assert!(!out.unwrap().shutdown);
    assert!(gt.future_completed);
    assert_eq!(captured(&gt).len(), 0);
}

#[test]
fn failing_node_fails_the_future() {
    let g = Graph {
        nodes: vec![leaf(), node(NodeKind::Fail, vec![edge(0, 0)], 1), node(NodeKind::Sum, vec![edge(1, 0)], 2)],
    };
    let mut engine = Engine::new(10);
    let (gt, _) = engine.execute(&g, 2, 1, false, &vec![edge(0, 0)]);
    assert!(gt.has_error);
    assert!(gt.future_completed);
    assert!(matches!(gt.future_result, FutureState::Failed(EngineError::NodeFailed { node: 1 })));
    assert_eq!(gt.captured_vars, vec![None]);
    // an independent pass on another graph is unaffected
    let other = add_graph();
    let (ok, _) = engine.execute(&other, 2, 1, true, &vec![edge(0, 0), edge(1, 0)]);
    assert!(!ok.has_error);
    assert_eq!(grads_of(&ok)[0], Some(1));
    assert_eq!(engine.worker_device, None);
}

#[test]
fn pruned_branch_is_not_run() {
    // z = a + b; a = x + x; b = w * 3; only x is requested
    let g = Graph {
        nodes: vec![
            leaf(),
            leaf(),
            node(NodeKind::Sum, vec![edge(0, 0), edge(0, 0)], 1),
            node(NodeKind::Scale(vec![3]), vec![edge(1, 0)], 1),
            node(NodeKind::Sum, vec![edge(2, 0), edge(3, 0)], 2),
        ],
    };
    let mut engine = Engine::new(10);
    let (gt, _) = engine.execute(&g, 4, 1, true, &vec![edge(0, 0)]);
    let runs = |i: usize| gt.exec_info[i].as_ref().map_or(false, |e| e.should_execute());
    assert!(runs(0) && runs(2) && runs(4));
    assert!(!runs(1));
    assert!(!runs(3));
    assert_eq!(grads_of(&gt)[0], Some(2));
    assert_eq!(grads_of(&gt)[1], None);
}

#[test]
fn nested_pass_at_depth_bound_goes_to_pool() {
    let g = add_graph();
    let mut engine = Engine::new(0);
    engine.worker_device = Some(1);
    let mut gt = GraphTask::new(7, 3, 0, false);
    gt.compute_dependencies(&g, 2);
    gt.init_to_execute(&g, 2, &vec![edge(0, 0), edge(1, 0)], true, 0);
    let mut queue = ReadyQueue::new();
    let mut buffer = InputBuffer::new(1);
    buffer.add(0, 1).unwrap();
    let out = engine.execute_with_graph_task(&g, &mut gt, &mut queue, 2, buffer);
    assert!(out.is_none());
    assert!(!gt.future_completed);
    assert_eq!(engine.graphtasks_queue, vec![7]);
    assert_eq!(gt.owner, 1);
    let outs = engine.reentrant_thread_init(&g, &mut gt, &mut queue);
    assert_eq!(outs.len(), 1);
    assert!(gt.future_completed);
    assert_eq!(grads_of(&gt)[0], Some(1));
    assert_eq!(grads_of(&gt)[1], Some(1));
    assert!(engine.graphtasks_queue.is_empty());
    assert_eq!(engine.worker_device, Some(1));
}

#[test]
fn nested_pass_below_bound_runs_inline() {
    let g = add_graph();
    let mut engine = Engine::new(2);
    engine.worker_device = Some(1);
    let (gt, out) = engine.execute(&g, 2, 1, true, &vec![edge(0, 0)]);
    assert!(out.is_some());
    assert!(gt.future_completed);
    assert_eq!(engine.current_depth, 0);
    assert_eq!(grads_of(&gt)[0], Some(1));
}

#[test]
fn ready_queue_pops_by_rank_then_insertion() {
    let mut q = ReadyQueue::new();
    let mut outstanding: u64 = 0;
    assert!(q.empty());
    q.push(NodeTask::new(0, 10, 1, vec![]), true, &mut outstanding);
    q.push(NodeTask::new(0, 11, 3, vec![]), true, &mut outstanding);
    q.push(NodeTask::new(0, 12, 3, vec![]), false, &mut outstanding);
    q.push(NodeTask::new(0, 13, 2, vec![]), true, &mut outstanding);
    assert_eq!(outstanding, 3);
    assert_eq!(q.size(), 4);
    let order: Vec<usize> = (0..4).map(|_| q.pop().unwrap().node).collect();
    assert_eq!(order, vec![11, 12, 13, 10]);
    assert!(q.pop().is_none());
    assert!(q.empty());
}

#[test]
fn shutdown_task_comes_first() {
    let mut q = ReadyQueue::new();
    let mut outstanding: u64 = 0;
    q.push(NodeTask::new(0, 1, 100, vec![]), false, &mut outstanding);
    q.push_shutdown_task();
    assert!(q.pop().unwrap().is_shutdown);
    assert_eq!(q.size(), 1);
}

#[test]
fn shutdown_ends_worker_loop() {
    let g = add_graph();
    let mut gt = GraphTask::new(0, 3, 0, false);
    let mut q = ReadyQueue::new();
    q.push(NodeTask::new(0, 2, 1, vec![1]), true, &mut gt.outstanding_tasks);
    gt.dispatched[2] = true;
    q.push_shutdown_task();
    let out = Engine::thread_main(&g, &mut gt, &mut q, 0);
    assert!(out.shutdown);
    assert!(!gt.future_completed);
    assert_eq!(q.size(), 1);
}

#[test]
fn input_buffer_accumulates_and_reports_overflow() {
    let mut b = InputBuffer::new(2);
    assert!(!b.is_full());
    assert!(b.add(0, 5).is_ok());
    assert!(b.add(0, 7).is_ok());
    assert_eq!(b.slots, vec![Some(12), None]);
    assert!(b.add(0, i64::MAX).is_err());
    assert_eq!(b.slots, vec![Some(12), None]);
    assert_eq!(b.variables(), vec![12, 0]);
}

#[test]
fn checked_total_sums_or_overflows() {
    assert_eq!(checked_total(&vec![1, 2, 3]), Some(6));
    assert_eq!(checked_total(&vec![]), Some(0));
    assert_eq!(checked_total(&vec![i64::MAX, 1, -5]), None);
}

#[test]
fn apply_follows_node_kind() {
    let n = node(NodeKind::Scale(vec![2, -3]), vec![edge(0, 0), edge(1, 0)], 1);
    assert_eq!(n.apply(5, &vec![1, 3]).unwrap(), vec![8, -12]);
    let s = node(NodeKind::Sum, vec![edge(0, 0), edge(1, 0)], 1);
    assert_eq!(s.apply(5, &vec![4]).unwrap(), vec![4, 4]);
    let f = node(NodeKind::Fail, vec![], 1);
    assert!(matches!(f.apply(5, &vec![1]), Err(EngineError::NodeFailed { node: 5 })));
    let big = node(NodeKind::Scale(vec![i64::MAX]), vec![edge(0, 0)], 1);
    assert!(matches!(big.apply(2, &vec![2]), Err(EngineError::Overflow { node: 2 })));
}

#[test]
fn first_error_wins() {
    let mut gt = GraphTask::new(0, 2, 0, true);
    gt.set_exception(EngineError::NodeFailed { node: 1 }, Some(1));
    gt.set_exception(EngineError::Overflow { node: 0 }, Some(0));
    assert!(matches!(gt.future_result, FutureState::Failed(EngineError::NodeFailed { node: 1 })));
    assert_eq!(gt.anomaly_report, Some(1));
}

#[test]
fn error_latch_without_signal_keeps_future_pending() {
    let mut gt = GraphTask::new(0, 2, 0, false);
    gt.set_exception_without_signal(Some(1));
    assert!(gt.has_error);
    assert!(!gt.future_completed);
    assert_eq!(gt.anomaly_report, None);
}

#[test]
fn completion_runs_once() {
    let mut gt = GraphTask::new(0, 1, 0, false);
    gt.captured_vars = vec![Some(3)];
    gt.final_callbacks = vec![4, 2];
    let first = gt.mark_as_completed_and_run_post_processing();
    assert_eq!(first.unwrap().callbacks, vec![4, 2]);
    assert_eq!(captured(&gt), vec![Some(3)]);
    assert!(gt.mark_as_completed_and_run_post_processing().is_none());
    assert_eq!(captured(&gt), vec![Some(3)]);
}

#[test]
fn pending_buffer_makes_completion_fail() {
    let mut gt = GraphTask::new(0, 2, 0, false);
    gt.not_ready[1] = Some(InputBuffer::new(1));
    assert!(matches!(gt.exec_post_processing(), Err(EngineError::Unreachable)));
    assert!(gt.mark_as_completed_and_run_post_processing().is_none());
    assert!(matches!(gt.future_result, FutureState::Failed(EngineError::Unreachable)));
}

#[test]
fn post_processing_joins_leaf_streams() {
    let mut gt = GraphTask::new(0, 1, 0, false);
    gt.caller_current_streams = vec![Some(10), None, Some(30)];
    gt.leaf_streams = vec![
        Stream { device_index: 0, id: 11 },
        Stream { device_index: 1, id: 20 },
        Stream { device_index: 2, id: 30 },
        Stream { device_index: 5, id: 1 },
    ];
    let pp = gt.exec_post_processing().unwrap();
    assert_eq!(pp.waits.len(), 1);
    assert!(pp.waits[0] == StreamWait { device_index: 0, leaf: 11, caller: 10 });
    assert_eq!(pp.guard_streams, vec![10, 30]);
    gt.leaf_streams = vec![];
    assert!(gt.exec_post_processing().unwrap().guard_streams.is_empty());
}

#[test]
fn stash_records_streams_with_context() {
    let acc = Accelerator { primary_contexts: vec![true, false, true], streams: vec![5, 6] };
    let mut gt = GraphTask::new(0, 1, 0, false);
    gt.caller_current_streams = vec![None, Some(9)];
    gt.stash_current_streams(&acc);
    assert_eq!(gt.caller_current_streams, vec![Some(5), Some(9), None]);
    assert_eq!(acc.device_count(), 3);
    assert!(!acc.has_primary_context(1));
    assert_eq!(acc.get_stream(1), Some(6));
}

#[test]
fn plan_captures_in_output_order() {
    let g = add_graph();
    let mut gt = GraphTask::new(0, 3, 0, false);
    gt.init_to_execute(&g, 2, &vec![edge(1, 0), edge(0, 0), edge(1, 0)], false, 0);
    assert_eq!(gt.captured_vars.len(), 3);
    let caps = |i: usize| -> Vec<Capture> {
        match &gt.exec_info[i] {
            Some(ExecInfo { captures: Some(c), .. }) => c.clone(),
            _ => vec![],
        }
    };
    assert!(caps(1) == vec![Capture { input_nr: 0, output_idx: 0 }, Capture { input_nr: 0, output_idx: 2 }]);
    assert!(caps(0) == vec![Capture { input_nr: 0, output_idx: 1 }]);
    let root = gt.exec_info[2].as_ref().unwrap();
    assert!(root.needed && root.captures.is_none());
    assert!(!gt.exec_info[0].as_ref().unwrap().needed);
}

#[test]
fn plan_stops_below_min_rank() {
    // chain 3 -> 2 -> 1 -> 0 with ranks 3,2,1,0; only node 2 requested
    let g = Graph {
        nodes: vec![
            leaf(),
            node(NodeKind::Sum, vec![edge(0, 0)], 1),
            node(NodeKind::Sum, vec![edge(1, 0)], 2),
            node(NodeKind::Sum, vec![edge(2, 0)], 3),
        ],
    };
    let mut gt = GraphTask::new(0, 4, 0, false);
    gt.init_to_execute(&g, 3, &vec![edge(2, 0)], true, 2);
    assert!(gt.exec_info[3].as_ref().unwrap().needed);
    assert!(gt.exec_info[2].as_ref().unwrap().needed);
    assert!(gt.exec_info[1].is_none());
    assert!(gt.exec_info[0].is_none());
}

#[test]
fn node_getters() {
    let n = node(NodeKind::Sum, vec![edge(3, 1)], 4);
    assert_eq!(n.topological_nr(), 4);
    assert_eq!(n.next_edges().len(), 1);
    assert!(n.points_to(3));
    assert!(!n.points_to(2));
}

#[test]
fn latched_error_skips_evaluation_but_drains() {
    let g = add_graph();
    let mut gt = GraphTask::new(0, 3, 0, false);
    let mut q = ReadyQueue::new();
    q.push(NodeTask::new(0, 2, 1, vec![1]), true, &mut gt.outstanding_tasks);
    gt.dispatched[2] = true;
    gt.set_exception_without_signal(None);
    let out = Engine::thread_main(&g, &mut gt, &mut q, 0);
    assert!(out.evaluated.is_empty());
    assert_eq!(gt.outstanding_tasks, 0);
    assert!(gt.future_completed);
    assert!(q.empty());
    assert_eq!(grads_of(&gt)[0], None);
}

#[test]
fn other_graph_tasks_stay_queued() {
    let g = add_graph();
    let mut gt = GraphTask::new(0, 3, 0, false);
    gt.compute_dependencies(&g, 2);
    gt.init_to_execute(&g, 2, &vec![edge(0, 0), edge(1, 0)], true, 0);
    let mut q = ReadyQueue::new();
    let mut other: u64 = 0;
    q.push(NodeTask::new(5, 1, 9, vec![]), true, &mut other);
    q.push(NodeTask::new(0, 2, 1, vec![1]), true, &mut gt.outstanding_tasks);
    gt.dispatched[2] = true;
    let out = Engine::thread_main(&g, &mut gt, &mut q, 0);
    assert!(out.completed_here);
    assert!(gt.future_completed);
    assert_eq!(grads_of(&gt)[0], Some(1));
    assert_eq!(q.size(), 1);
    let left = q.pop().unwrap();
    assert_eq!((left.graph_task, left.node), (5, 1));
}
