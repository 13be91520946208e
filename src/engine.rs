use vstd::prelude::*;
use crate::graph::{edges_to, planned_entry, Edge, Graph, Node, NodeKind};
use crate::graph_task::{EngineError, GraphTask, PostProcessing};
use crate::input_buffer::{slot_value, InputBuffer};
use crate::ready_queue::{NodeTask, ReadyQueue};

verus! {

/// The number of `false` entries: nodes not yet dispatched.
pub open spec fn count_false(s: Seq<bool>) -> nat
    decreases s.len(),
{
    if s.len() == 0 {
        0
    } else {
        count_false(s.drop_last()) + if s.last() {
            0nat
        } else {
            1nat
        }
    }
}

pub proof fn lemma_count_false_set(s: Seq<bool>, i: int)
    requires
        0 <= i < s.len(),
        !s[i],
    ensures
        count_false(s.update(i, true)) + 1 == count_false(s),
    decreases s.len(),
{
    let t = s.update(i, true);
    if i == s.len() - 1 {
        assert(t.drop_last() == s.drop_last());
    } else {
        assert(t.drop_last() == s.drop_last().update(i, true));
        lemma_count_false_set(s.drop_last(), i);
    }
}

pub proof fn lemma_count_false_all(n: nat)
    ensures
        count_false(Seq::new(n, |i: int| false)) == n,
    decreases n,
{
    if n > 0 {
        assert(Seq::new(n, |i: int| false).drop_last() =~= Seq::new((n - 1) as nat, |i: int| false));
        lemma_count_false_all((n - 1) as nat);
    }
}

/// The least rank among the nodes of the first `k` edges, or `u64::MAX`
/// when there are none.
pub open spec fn min_rank(nodes: Seq<Node>, edges: Seq<Edge>, k: int) -> u64
    decreases k,
{
    if k <= 0 {
        u64::MAX
    } else {
        let t = nodes[edges[k - 1].function as int].topological_nr;
        let m = min_rank(nodes, edges, k - 1);
        if t < m {
            t
        } else {
            m
        }
    }
}

pub proof fn lemma_count_false_le(s: Seq<bool>)
    ensures
        count_false(s) <= s.len(),
    decreases s.len(),
{
    if s.len() > 0 {
        lemma_count_false_le(s.drop_last());
    }
}

/// The sum of a sequence of gradients.
pub open spec fn spec_sum(s: Seq<i64>) -> int
    decreases s.len(),
{
    if s.len() == 0 {
        0
    } else {
        spec_sum(s.drop_last()) + s.last()
    }
}

pub open spec fn fits(v: int) -> bool {
    i64::MIN <= v <= i64::MAX
}

/// Whether every running sum of `s` fits in an `i64`.
pub open spec fn sums_fit(s: Seq<i64>) -> bool {
    forall|k: int| 0 <= k <= s.len() ==> #[trigger] fits(spec_sum(s.take(k)))
}

/// Whether the gradient `total` times each factor fits in an `i64`.
pub open spec fn scaled_fit(total: int, f: Seq<i64>) -> bool {
    forall|j: int| 0 <= j < f.len() ==> #[trigger] fits(total * f[j])
}

/// The sum of the gradients, or `None` when a running sum overflows.
pub fn checked_total(inputs: &Vec<i64>) -> (r: Option<i64>)
    ensures
        r is Some <==> sums_fit(inputs@),
        r matches Some(t) ==> t == spec_sum(inputs@),
{
    let mut acc: i64 = 0;
    let mut k: usize = 0;
    assert(inputs@.take(0) =~= Seq::<i64>::empty());
    while k < inputs.len()
        invariant
            k <= inputs@.len(),
            acc == spec_sum(inputs@.take(k as int)),
            forall|m: int| 0 <= m <= k ==> #[trigger] fits(spec_sum(inputs@.take(m))),
        decreases inputs@.len() - k,
    {
        assert(inputs@.take(k + 1).drop_last() == inputs@.take(k as int));
        match acc.checked_add(inputs[k]) {
            Some(v) => {
                acc = v;
            },
            None => {
                assert(!fits(spec_sum(inputs@.take(k + 1))));
                return None;
            },
        }
        k = k + 1;
    }
    assert(inputs@.take(inputs@.len() as int) == inputs@);
    Some(acc)
}

/// The number of tasks of graph task `id` in a queue.
pub open spec fn count_of(s: Seq<NodeTask>, id: usize) -> nat
    decreases s.len(),
{
    if s.len() == 0 {
        0
    } else {
        count_of(s.drop_last(), id) + if s.last().graph_task == id && !s.last().is_shutdown {
            1nat
        } else {
            0nat
        }
    }
}

pub proof fn lemma_count_of_remove(s: Seq<NodeTask>, i: int, id: usize)
    requires
        0 <= i < s.len(),
    ensures
        count_of(s.remove(i), id) + (if s[i].graph_task == id && !s[i].is_shutdown {
            1nat
        } else {
            0nat
        }) == count_of(s, id),
    decreases s.len(),
{
    if i == s.len() - 1 {
        assert(s.remove(i) =~= s.drop_last());
    } else {
        assert(s.remove(i).drop_last() =~= s.drop_last().remove(i));
        assert(s.remove(i).last() == s.last());
        lemma_count_of_remove(s.drop_last(), i, id);
    }
}

pub proof fn lemma_count_of_append(q0: Seq<NodeTask>, q1: Seq<NodeTask>, id: usize)
    requires
        q0.len() <= q1.len(),
        q1.take(q0.len() as int) == q0,
        forall|k: int| q0.len() <= k < q1.len() ==> (#[trigger] q1[k]).graph_task == id && !q1[k].is_shutdown,
    ensures
        count_of(q1, id) == count_of(q0, id) + q1.len() - q0.len(),
    decreases q1.len(),
{
    if q1.len() == q0.len() {
        assert(q1 =~= q0);
    } else {
        let d = q1.drop_last();
        assert(d.take(q0.len() as int) =~= q0);
        assert forall|k: int| q0.len() <= k < d.len() implies (#[trigger] d[k]).graph_task == id
            && !d[k].is_shutdown by {
            assert(d[k] == q1[k]);
        }
        lemma_count_of_append(q0, d, id);
    }
}

/// The ids of `s` other than `id`, in order.
pub open spec fn without(s: Seq<usize>, id: usize) -> Seq<usize>
    decreases s.len(),
{
    if s.len() == 0 {
        s
    } else if s.last() == id {
        without(s.drop_last(), id)
    } else {
        without(s.drop_last(), id).push(s.last())
    }
}

/// Each queued task of graph task `id` carries its node's rank.
pub open spec fn ranks_wf(graph: &Graph, id: usize, q: Seq<NodeTask>) -> bool {
    forall|k: int|
        0 <= k < q.len() && is_task_of(#[trigger] q[k], id) ==> q[k].node < graph.nodes@.len()
            && q[k].rank == graph.nodes@[q[k].node as int].topological_nr
}

/// The nodes of `ev` come in non-increasing rank.
pub open spec fn ranks_non_increasing(graph: &Graph, ev: Seq<usize>) -> bool {
    forall|a: int, b: int|
        #![trigger ev[a], ev[b]]
        0 <= a < b < ev.len() ==> ev[a] < graph.nodes@.len() && ev[b] < graph.nodes@.len()
            && graph.nodes@[ev[b] as int].topological_nr <= graph.nodes@[ev[a] as int].topological_nr
}

/// Whether no shutdown sentinel is queued.
pub open spec fn no_sentinel(s: Seq<NodeTask>) -> bool {
    forall|k: int| 0 <= k < s.len() ==> !(#[trigger] s[k]).is_shutdown
}

/// Whether `t` is a node task of graph task `id`.
pub open spec fn is_task_of(t: NodeTask, id: usize) -> bool {
    t.graph_task == id && !t.is_shutdown
}

/// The queued tasks of graph task `id` name dispatched nodes, no two the same.
pub open spec fn queued_wf(id: usize, disp: Seq<bool>, q: Seq<NodeTask>) -> bool {
    &&& forall|k: int|
        0 <= k < q.len() && is_task_of(#[trigger] q[k], id) ==> q[k].node < disp.len() && disp[q[k].node as int]
    &&& forall|k1: int, k2: int|
        #![trigger q[k1], q[k2]]
        0 <= k1 < q.len() && 0 <= k2 < q.len() && k1 != k2 && is_task_of(q[k1], id) && is_task_of(q[k2], id)
            ==> q[k1].node != q[k2].node
}

/// The evaluated nodes are distinct, dispatched, and none is still queued.
pub open spec fn evaluated_wf(id: usize, disp: Seq<bool>, q: Seq<NodeTask>, ev: Seq<usize>) -> bool {
    &&& ev.no_duplicates()
    &&& forall|e: int| 0 <= e < ev.len() ==> #[trigger] ev[e] < disp.len() && disp[ev[e] as int]
    &&& forall|e: int, k: int|
        #![trigger ev[e], q[k]]
        0 <= e < ev.len() && 0 <= k < q.len() && is_task_of(q[k], id) ==> q[k].node != ev[e]
}

pub proof fn lemma_pop_keeps(id: usize, disp: Seq<bool>, q: Seq<NodeTask>, ev: Seq<usize>, i: int)
    requires
        queued_wf(id, disp, q),
        evaluated_wf(id, disp, q, ev),
        0 <= i < q.len(),
    ensures
        queued_wf(id, disp, q.remove(i)),
        evaluated_wf(id, disp, q.remove(i), ev),
        is_task_of(q[i], id) ==> evaluated_wf(id, disp, q.remove(i), ev.push(q[i].node)),
{
    let r = q.remove(i);
    assert forall|k: int| 0 <= k < r.len() implies #[trigger] r[k] == q[if k < i { k } else { k + 1 }] by {}
    assert forall|k1: int, k2: int|
        #![trigger r[k1], r[k2]]
        0 <= k1 < r.len() && 0 <= k2 < r.len() && k1 != k2 && is_task_of(r[k1], id) && is_task_of(r[k2], id)
            implies r[k1].node != r[k2].node by {
        let j1 = if k1 < i { k1 } else { k1 + 1 };
        let j2 = if k2 < i { k2 } else { k2 + 1 };
        assert(r[k1] == q[j1] && r[k2] == q[j2]);
    }
    assert forall|e: int, k: int|
        #![trigger ev[e], r[k]]
        0 <= e < ev.len() && 0 <= k < r.len() && is_task_of(r[k], id) implies r[k].node != ev[e] by {
        let j = if k < i { k } else { k + 1 };
        assert(r[k] == q[j]);
    }
    if is_task_of(q[i], id) {
        let v = q[i].node;
        let ev2 = ev.push(v);
        assert forall|e: int| 0 <= e < ev.len() implies ev[e] != v by {
            assert(q[i].node != ev[e]);
        }
        assert forall|a: int, b: int| 0 <= a < ev2.len() && 0 <= b < ev2.len() && a != b implies ev2[a] != ev2[b] by {
            if a < ev.len() && b < ev.len() {
                assert(ev[a] != ev[b]);
            } else if a < ev.len() {
                assert(ev[a] != v);
            } else {
                assert(ev[b] != v);
            }
        }
        assert forall|e: int| 0 <= e < ev2.len() implies #[trigger] ev2[e] < disp.len() && disp[ev2[e] as int] by {
            if e < ev.len() {
                assert(ev2[e] == ev[e]);
            }
        }
        assert forall|e: int, k: int|
            #![trigger ev2[e], r[k]]
            0 <= e < ev2.len() && 0 <= k < r.len() && is_task_of(r[k], id) implies r[k].node != ev2[e] by {
            let j = if k < i { k } else { k + 1 };
            assert(r[k] == q[j]);
            if e < ev.len() {
                assert(ev2[e] == ev[e]);
            } else {
                assert(j != i);
            }
        }
    }
}

pub proof fn lemma_schedule_keeps(
    g1: &GraphTask,
    q1: Seq<NodeTask>,
    g2: &GraphTask,
    q2: Seq<NodeTask>,
    ev: Seq<usize>,
)
    requires
        scheduled(g1, q1, g2, q2),
        g1.dispatched@.len() == g2.dispatched@.len(),
        queued_wf(g1.id, g1.dispatched@, q1),
        evaluated_wf(g1.id, g1.dispatched@, q1, ev),
    ensures
        queued_wf(g2.id, g2.dispatched@, q2),
        evaluated_wf(g2.id, g2.dispatched@, q2, ev),
{
    let id = g1.id;
    assert forall|k: int| 0 <= k < q1.len() implies #[trigger] q2[k] == q1[k] by {
        assert(q2[k] == q2.take(q1.len() as int)[k]);
    }
    assert forall|k: int|
        0 <= k < q2.len() && is_task_of(#[trigger] q2[k], id) implies q2[k].node < g2.dispatched@.len()
            && g2.dispatched@[q2[k].node as int] by {
        if k < q1.len() {
            assert(q2[k] == q1[k]);
        } else {
            assert(newly_dispatched(g1, g2, q2[k].node as int));
        }
    }
    assert forall|k1: int, k2: int|
        #![trigger q2[k1], q2[k2]]
        0 <= k1 < q2.len() && 0 <= k2 < q2.len() && k1 != k2 && is_task_of(q2[k1], id) && is_task_of(q2[k2], id)
            implies q2[k1].node != q2[k2].node by {
        if k1 < q1.len() && k2 < q1.len() {
            assert(q2[k1] == q1[k1] && q2[k2] == q1[k2]);
        } else if k1 < q1.len() {
            assert(q2[k1] == q1[k1]);
            assert(newly_dispatched(g1, g2, q2[k2].node as int));
        } else if k2 < q1.len() {
            assert(q2[k2] == q1[k2]);
            assert(newly_dispatched(g1, g2, q2[k1].node as int));
        } else if k1 < k2 {
            assert(q2[k1].node != q2[k2].node);
        } else {
            assert(q2[k2].node != q2[k1].node);
        }
    }
    assert forall|e: int| 0 <= e < ev.len() implies #[trigger] ev[e] < g2.dispatched@.len() && g2.dispatched@[ev[e] as int] by {}
    assert forall|e: int, k: int|
        #![trigger ev[e], q2[k]]
        0 <= e < ev.len() && 0 <= k < q2.len() && is_task_of(q2[k], id) implies q2[k].node != ev[e] by {
        if k < q1.len() {
            assert(q2[k] == q1[k]);
        } else {
            assert(newly_dispatched(g1, g2, q2[k].node as int));
        }
    }
}

pub proof fn lemma_count_of_concat(a: Seq<NodeTask>, b: Seq<NodeTask>, id: usize)
    ensures
        count_of(a + b, id) == count_of(a, id) + count_of(b, id),
    decreases b.len(),
{
    if b.len() == 0 {
        assert(a + b =~= a);
    } else {
        assert((a + b).drop_last() =~= a + b.drop_last());
        assert((a + b).last() == b.last());
        lemma_count_of_concat(a, b.drop_last(), id);
    }
}

pub proof fn lemma_count_of_none(s: Seq<NodeTask>, id: usize)
    requires
        forall|k: int| 0 <= k < s.len() ==> !is_task_of(#[trigger] s[k], id),
    ensures
        count_of(s, id) == 0,
    decreases s.len(),
{
    if s.len() > 0 {
        assert(!is_task_of(s[s.len() - 1], id));
        lemma_count_of_none(s.drop_last(), id);
    }
}

/// Appending tasks of other graph tasks keeps every fact about the tasks of
/// graph task `id`.
pub proof fn lemma_append_foreign(
    graph: &Graph,
    id: usize,
    disp: Seq<bool>,
    q: Seq<NodeTask>,
    f: Seq<NodeTask>,
    ev: Seq<usize>,
)
    requires
        forall|k: int| 0 <= k < f.len() ==> (#[trigger] f[k]).graph_task != id && !f[k].is_shutdown,
        queued_wf(id, disp, q),
        evaluated_wf(id, disp, q, ev),
        ranks_wf(graph, id, q),
    ensures
        queued_wf(id, disp, q + f),
        evaluated_wf(id, disp, q + f, ev),
        ranks_wf(graph, id, q + f),
        count_of(q + f, id) == count_of(q, id),
        no_sentinel(q) ==> no_sentinel(q + f),
{
    let r = q + f;
    assert forall|k: int| 0 <= k < r.len() && is_task_of(#[trigger] r[k], id) implies k < q.len() && r[k] == q[k] by {
        if k >= q.len() {
            assert(r[k] == f[k - q.len()]);
        }
    }
    assert forall|k1: int, k2: int|
        #![trigger r[k1], r[k2]]
        0 <= k1 < r.len() && 0 <= k2 < r.len() && k1 != k2 && is_task_of(r[k1], id) && is_task_of(r[k2], id)
            implies r[k1].node != r[k2].node by {
        assert(r[k1] == q[k1] && r[k2] == q[k2]);
    }
    assert forall|e: int, k: int|
        #![trigger ev[e], r[k]]
        0 <= e < ev.len() && 0 <= k < r.len() && is_task_of(r[k], id) implies r[k].node != ev[e] by {
        assert(r[k] == q[k]);
    }
    if no_sentinel(q) {
        assert forall|k: int| 0 <= k < r.len() implies !(#[trigger] r[k]).is_shutdown by {
            if k < q.len() {
                assert(r[k] == q[k]);
            } else {
                assert(r[k] == f[k - q.len()]);
            }
        }
    }
    assert forall|k: int| 0 <= k < f.len() implies !is_task_of(#[trigger] f[k], id) by {}
    lemma_count_of_none(f, id);
    lemma_count_of_concat(q, f, id);
}

/// Whether a task of graph task `id` for node `c` is queued.
pub open spec fn has_task_for(q: Seq<NodeTask>, id: usize, c: int) -> bool {
    exists|k: int| 0 <= k < q.len() && is_task_of(#[trigger] q[k], id) && q[k].node == c
}

/// Every node dispatched in `gt` was dispatched already in `g0` with no task
/// for it in `q0`, or was evaluated (it is in `ev`), or still has its task
/// queued in `q`.
pub open spec fn dispatched_accounted(
    g0: &GraphTask,
    q0: Seq<NodeTask>,
    gt: &GraphTask,
    q: Seq<NodeTask>,
    ev: Seq<usize>,
) -> bool {
    forall|c: int|
        0 <= c < gt.dispatched@.len() && #[trigger] gt.dispatched@[c] ==> (c < g0.dispatched@.len()
            && g0.dispatched@[c] && !has_task_for(q0, g0.id, c)) || ev.contains(c as usize) || has_task_for(
            q,
            gt.id,
            c,
        )
}

pub proof fn lemma_accounted_pop(
    g0: &GraphTask,
    q0: Seq<NodeTask>,
    gt: &GraphTask,
    q: Seq<NodeTask>,
    ev: Seq<usize>,
    i: int,
)
    requires
        dispatched_accounted(g0, q0, gt, q, ev),
        0 <= i < q.len(),
        !is_task_of(q[i], gt.id) || ev.contains(q[i].node),
    ensures
        dispatched_accounted(g0, q0, gt, q.remove(i), ev),
{
    let r = q.remove(i);
    assert forall|c: int| 0 <= c < gt.dispatched@.len() && #[trigger] gt.dispatched@[c] implies (c
        < g0.dispatched@.len() && g0.dispatched@[c] && !has_task_for(q0, g0.id, c)) || ev.contains(c as usize)
        || has_task_for(r, gt.id, c) by {
        if has_task_for(q, gt.id, c) && !ev.contains(c as usize) {
            let k = choose|k: int| 0 <= k < q.len() && is_task_of(#[trigger] q[k], gt.id) && q[k].node == c;
            if k != i {
                let j = if k < i { k } else { k - 1 };
                assert(r[j] == q[k]);
            }
        }
    }
}

pub proof fn lemma_accounted_push_ev(
    g0: &GraphTask,
    q0: Seq<NodeTask>,
    gt: &GraphTask,
    q: Seq<NodeTask>,
    ev: Seq<usize>,
    v: usize,
)
    requires
        dispatched_accounted(g0, q0, gt, q, ev),
    ensures
        dispatched_accounted(g0, q0, gt, q, ev.push(v)),
        ev.push(v).contains(v),
{
    assert(ev.push(v)[ev.len() as int] == v);
    assert forall|c: int| 0 <= c < gt.dispatched@.len() && #[trigger] gt.dispatched@[c] implies (c
        < g0.dispatched@.len() && g0.dispatched@[c] && !has_task_for(q0, g0.id, c)) || ev.push(v).contains(c as usize)
        || has_task_for(q, gt.id, c) by {
        if ev.contains(c as usize) {
            let m = choose|m: int| 0 <= m < ev.len() && ev[m] == c as usize;
            assert(ev.push(v)[m] == c as usize);
        }
    }
}

pub proof fn lemma_accounted_sched(
    g0: &GraphTask,
    q0: Seq<NodeTask>,
    g1: &GraphTask,
    q1: Seq<NodeTask>,
    g2: &GraphTask,
    q2: Seq<NodeTask>,
    ev: Seq<usize>,
)
    requires
        dispatched_accounted(g0, q0, g1, q1, ev),
        scheduled(g1, q1, g2, q2),
        g1.dispatched@.len() == g2.dispatched@.len(),
    ensures
        dispatched_accounted(g0, q0, g2, q2, ev),
{
    assert forall|c: int| 0 <= c < g2.dispatched@.len() && #[trigger] g2.dispatched@[c] implies (c
        < g0.dispatched@.len() && g0.dispatched@[c] && !has_task_for(q0, g0.id, c)) || ev.contains(c as usize)
        || has_task_for(q2, g2.id, c) by {
        if g1.dispatched@[c] {
            if has_task_for(q1, g1.id, c) {
                let k = choose|k: int| 0 <= k < q1.len() && is_task_of(#[trigger] q1[k], g1.id) && q1[k].node == c;
                assert(q2[k] == q2.take(q1.len() as int)[k]);
            }
        } else {
            assert(newly_dispatched(g1, g2, c));
            let k = choose|k: int| q1.len() <= k < q2.len() && (#[trigger] q2[k]).node == c;
            assert(is_task_of(q2[k], g2.id));
        }
    }
}

pub proof fn lemma_accounted_append(
    g0: &GraphTask,
    q0: Seq<NodeTask>,
    gt: &GraphTask,
    q: Seq<NodeTask>,
    f: Seq<NodeTask>,
    ev: Seq<usize>,
)
    requires
        dispatched_accounted(g0, q0, gt, q, ev),
    ensures
        dispatched_accounted(g0, q0, gt, q + f, ev),
{
    assert forall|c: int| 0 <= c < gt.dispatched@.len() && #[trigger] gt.dispatched@[c] implies (c
        < g0.dispatched@.len() && g0.dispatched@[c] && !has_task_for(q0, g0.id, c)) || ev.contains(c as usize)
        || has_task_for(q + f, gt.id, c) by {
        if has_task_for(q, gt.id, c) {
            let k = choose|k: int| 0 <= k < q.len() && is_task_of(#[trigger] q[k], gt.id) && q[k].node == c;
            assert((q + f)[k] == q[k]);
        }
    }
}

pub proof fn lemma_count_of_zero(s: Seq<NodeTask>, id: usize, c: int)
    requires
        count_of(s, id) == 0,
    ensures
        !has_task_for(s, id, c),
    decreases s.len(),
{
    if s.len() > 0 {
        lemma_count_of_zero(s.drop_last(), id, c);
        if has_task_for(s, id, c) {
            let k = choose|k: int| 0 <= k < s.len() && is_task_of(#[trigger] s[k], id) && s[k].node == c;
            if k < s.len() - 1 {
                assert(s.drop_last()[k] == s[k]);
            }
        }
    }
}

pub proof fn lemma_all_evaluated(
    old_disp: Seq<bool>,
    gp: &GraphTask,
    qp: Seq<NodeTask>,
    gt: &GraphTask,
    q: Seq<NodeTask>,
    ev: Seq<usize>,
    root: int,
)
    requires
        0 <= root < old_disp.len(),
        gp.dispatched@ == old_disp.update(root, true),
        gt.dispatched@.len() == old_disp.len(),
        has_task_for(qp, gp.id, root),
        dispatched_accounted(gp, qp, gt, q, ev),
        count_of(q, gt.id) == 0,
    ensures
        forall|c: int|
            0 <= c < old_disp.len() && #[trigger] gt.dispatched@[c] ==> old_disp[c] || ev.contains(c as usize),
{
    assert forall|c: int| 0 <= c < old_disp.len() && #[trigger] gt.dispatched@[c] implies old_disp[c] || ev.contains(c as usize) by {
        lemma_count_of_zero(q, gt.id, c);
    }
}

/// How a worker left its loop: the device work owed after completion, if
/// this worker completed the graph task; the nodes it evaluated, in order;
/// whether its decrement brought the outstanding count to zero; whether the owner's queue must be
/// woken; whether it met the shutdown sentinel.
pub struct ThreadOutcome {
    pub post: Option<PostProcessing>,
    pub evaluated: Vec<usize>,
    pub notify_owner: bool,
    pub shutdown: bool,
    pub completed_here: bool,
}

/// The device index of the CPU.
pub const CPU_DEVICE: usize = 0;

/// The engine: the calling context of the current worker and the bound on
/// nested backward passes run inline.
pub struct Engine {
    pub worker_device: Option<usize>,
    pub current_depth: u64,
    pub max_recursion_depth: u64,
    pub total_depth: u64,
    pub graphtasks_queue: Vec<usize>,
    pub pool_initialized: bool,
}

impl Node {
    /// Runs the backward function of this node (`id`) on the gradients of
    /// its input slots, giving one gradient per outgoing edge. A leaf gives
    /// none: its gradient is accumulated by the engine.
    pub fn apply(&self, id: usize, inputs: &Vec<i64>) -> (r: Result<Vec<i64>, EngineError>)
        requires
            self.kind matches NodeKind::Scale(f) ==> f@.len() == self.next_edges@.len(),
        ensures
            self.kind is Fail ==> r == Err::<Vec<i64>, EngineError>(EngineError::NodeFailed { node: id }),
            !(self.kind is Fail) && !sums_fit(inputs@) ==> r == Err::<Vec<i64>, EngineError>(
                EngineError::Overflow { node: id },
            ),
            !(self.kind is Fail) && sums_fit(inputs@) ==> match self.kind {
                NodeKind::Sum => r matches Ok(out) && out@ == Seq::new(
                    self.next_edges@.len(),
                    |j: int| spec_sum(inputs@) as i64,
                ),
                NodeKind::Scale(f) => if scaled_fit(spec_sum(inputs@), f@) {
                    r matches Ok(out) && out@ == Seq::new(
                        f@.len(),
                        |j: int| (spec_sum(inputs@) * f@[j]) as i64,
                    )
                } else {
                    r == Err::<Vec<i64>, EngineError>(EngineError::Overflow { node: id })
                },
                NodeKind::Accumulate => r matches Ok(out) && out@.len() == 0,
                NodeKind::Fail => true,
            },
    {
        if let NodeKind::Fail = self.kind {
            return Err(EngineError::NodeFailed { node: id });
        }
        let total = match checked_total(inputs) {
            Some(t) => t,
            None => {
                return Err(EngineError::Overflow { node: id });
            },
        };
        let mut out: Vec<i64> = Vec::new();
        match &self.kind {
            NodeKind::Sum => {
                let mut j: usize = 0;
                while j < self.next_edges.len()
                    invariant
                        j <= self.next_edges@.len(),
                        out@ == Seq::new(j as nat, |m: int| total),
                    decreases self.next_edges@.len() - j,
                {
                    out.push(total);
                    j = j + 1;
                }
                assert(out@ =~= Seq::new(self.next_edges@.len(), |m: int| spec_sum(inputs@) as i64));
                Ok(out)
            },
            NodeKind::Scale(f) => {
                let mut j: usize = 0;
                while j < f.len()
                    invariant
                        j <= f@.len(),
                        self.kind == NodeKind::Scale(*f),
                        sums_fit(inputs@),
                        total == spec_sum(inputs@),
                        out@ == Seq::new(j as nat, |m: int| (total * f@[m]) as i64),
                        forall|m: int| 0 <= m < j ==> #[trigger] fits(total * f@[m]),
                    decreases f@.len() - j,
                {
                    match total.checked_mul(f[j]) {
                        Some(v) => out.push(v),
                        None => {
                            assert(!fits(spec_sum(inputs@) * f@[j as int]));
                            assert(!scaled_fit(spec_sum(inputs@), f@));
                            return Err(EngineError::Overflow { node: id });
                        },
                    }
                    j = j + 1;
                }
                assert(out@ =~= Seq::new(f@.len(), |m: int| (spec_sum(inputs@) * f@[m]) as i64));
                Ok(out)
            },
            _ => Ok(out),
        }
    }
}

/// The graph task is consistent with the graph: its tables cover every node,
/// each pending buffer has one slot per input of its node, and the
/// outstanding tasks never outnumber the nodes already dispatched.
pub open spec fn task_wf(graph: &Graph, gt: &GraphTask) -> bool {
    let n = graph.nodes@.len();
    &&& graph.wf()
    &&& gt.wf(n)
    &&& forall|c: int|
        0 <= c < n ==> match #[trigger] gt.not_ready@[c] {
            Some(b) => b.slots@.len() == graph.nodes@[c].num_inputs,
            None => true,
        }
    &&& gt.outstanding_tasks + count_false(gt.dispatched@) <= n
}

/// An error raised while evaluating a node of `graph` under plan `gt`: the
/// backward function of a needed node of kind `Fail` failed, or a gradient
/// of a node overflowed.
pub open spec fn is_node_error(graph: &Graph, gt: &GraphTask, e: EngineError) -> bool {
    match e {
        EngineError::NodeFailed { node } => node < graph.nodes@.len() && graph.nodes@[node as int].kind is Fail
            && plan_needs(gt, node as int),
        EngineError::Overflow { node } => node < graph.nodes@.len(),
        EngineError::Unreachable => false,
    }
}

/// Why a future that this worker loop saw pending has failed: a node error
/// raised by one of the nodes `ev` it evaluated (a needed failing node, or
/// an overflow at such a node or at one of its successors), or a buffer
/// still pending at completion.
pub open spec fn failure_explained(graph: &Graph, gt: &GraphTask, ev: Seq<usize>) -> bool {
    gt.future_result matches crate::graph_task::FutureState::Failed(e) ==> (is_node_error(graph, gt, e)
        && exists|k: int|
        0 <= k < ev.len() && #[trigger] ev[k] < graph.nodes@.len() && match e {
            EngineError::NodeFailed { node } => ev[k] == node,
            EngineError::Overflow { node } => ev[k] == node || graph.nodes@[ev[k] as int].has_edge_to(node as int),
            EngineError::Unreachable => false,
        }) || (e == EngineError::Unreachable && crate::graph_task::any_not_ready(gt.not_ready@))
}

/// Whether running needed node `node` on `inputs` overflows by itself: the
/// sum of its inputs, a scaled gradient, or the leaf's accumulated gradient
/// does not fit in an `i64`.
pub open spec fn overflows_at(graph: &Graph, gt: &GraphTask, node: int, inputs: Seq<i64>) -> bool {
    plan_needs(gt, node) && (!sums_fit(inputs) || match graph.nodes@[node].kind {
        NodeKind::Scale(f) => !scaled_fit(spec_sum(inputs), f@),
        NodeKind::Accumulate => !fits(slot_value(gt.leaf_grads@[node]) + spec_sum(inputs)),
        _ => false,
    })
}

/// Whether the plan captures the gradient arriving on `slot` of node `c`.
pub open spec fn captures_slot(gt: &GraphTask, c: int, slot: usize) -> bool {
    gt.exec_info@[c] matches Some(info) && info.captures matches Some(caps) && exists|k: int|
        0 <= k < caps@.len() && (#[trigger] caps@[k]).input_nr == slot
}

/// The slots of node `c`'s pending buffer, empty ones when it has none.
pub open spec fn pending_slots(graph: &Graph, gt: &GraphTask, c: int) -> Seq<Option<i64>> {
    match gt.not_ready@[c] {
        Some(b) => b.slots@,
        None => Seq::new(graph.nodes@[c].num_inputs as nat, |i: int| None::<i64>),
    }
}

/// `a - b`, or zero when `b` is larger.
pub open spec fn sat_sub(a: usize, b: nat) -> usize {
    if a >= b {
        (a - b) as usize
    } else {
        0
    }
}

/// Whether the plan of the graph task asks for node `i` to run.
pub open spec fn plan_needs(gt: &GraphTask, i: int) -> bool {
    gt.exec_info@[i] matches Some(info) && info.needed
}

/// One stretch of scheduling work: `g1`, `q1` come from `g0`, `q0` by
/// appending tasks of this graph task to the queue, exactly one for each
/// node newly dispatched, and one outstanding task for each.
pub open spec fn scheduled(g0: &GraphTask, q0: Seq<NodeTask>, g1: &GraphTask, q1: Seq<NodeTask>) -> bool {
    &&& q0.len() <= q1.len()
    &&& q1.take(q0.len() as int) == q0
    &&& forall|k: int|
        q0.len() <= k < q1.len() ==> (#[trigger] q1[k]).graph_task == g0.id && !q1[k].is_shutdown
    &&& count_false(g1.dispatched@) + q1.len() == count_false(g0.dispatched@) + q0.len()
    &&& g1.outstanding_tasks + q0.len() == g0.outstanding_tasks + q1.len()
    &&& g1.id == g0.id
    &&& g1.exec_info == g0.exec_info
    &&& g1.owner == g0.owner
    &&& g1.has_error == g0.has_error
    &&& g1.future_completed == g0.future_completed
    &&& g1.future_result == g0.future_result
    &&& forall|c: int| 0 <= c < g0.dispatched@.len() && g0.dispatched@[c] ==> #[trigger] g1.dispatched@[c]
    &&& forall|k: int|
        q0.len() <= k < q1.len() ==> newly_dispatched(g0, g1, (#[trigger] q1[k]).node as int)
    &&& forall|k1: int, k2: int|
        #![trigger q1[k1], q1[k2]]
        q0.len() <= k1 < k2 < q1.len() ==> q1[k1].node != q1[k2].node
    &&& forall|c: int|
        #[trigger] newly_dispatched(g0, g1, c) ==> exists|k: int| q0.len() <= k < q1.len() && (#[trigger] q1[k]).node == c
}

/// Node `c` was not dispatched in `g0` and is in `g1`.
pub open spec fn newly_dispatched(g0: &GraphTask, g1: &GraphTask, c: int) -> bool {
    0 <= c < g0.dispatched@.len() && !g0.dispatched@[c] && g1.dispatched@[c]
}

/// Each node is queued at most once per graph task: every task that a
/// stretch of scheduling adds names a node that was not dispatched before
/// and is dispatched after, and no two of them name the same node.
pub proof fn lemma_dispatch_once(g0: &GraphTask, q0: Seq<NodeTask>, g1: &GraphTask, q1: Seq<NodeTask>, k1: int, k2: int)
    requires
        scheduled(g0, q0, g1, q1),
        q0.len() <= k1 < q1.len(),
        q0.len() <= k2 < q1.len(),
        k1 != k2,
    ensures
        !g0.dispatched@[q1[k1].node as int],
        g1.dispatched@[q1[k1].node as int],
        q1[k1].node != q1[k2].node,
{
    assert(newly_dispatched(g0, g1, q1[k1].node as int));
    if k1 > k2 {
        assert(q1[k2].node != q1[k1].node);
    }
}

pub proof fn lemma_scheduled_trans(
    g0: &GraphTask,
    q0: Seq<NodeTask>,
    g1: &GraphTask,
    q1: Seq<NodeTask>,
    g2: &GraphTask,
    q2: Seq<NodeTask>,
)
    requires
        scheduled(g0, q0, g1, q1),
        scheduled(g1, q1, g2, q2),
        g0.dispatched@.len() == g1.dispatched@.len(),
        g1.dispatched@.len() == g2.dispatched@.len(),
    ensures
        scheduled(g0, q0, g2, q2),
{
    assert forall|k: int| q0.len() <= k < q2.len() implies newly_dispatched(g0, g2, (#[trigger] q2[k]).node as int) by {
        if k < q1.len() {
            assert(q2[k] == q2.take(q1.len() as int)[k]);
            assert(newly_dispatched(g0, g1, q1[k].node as int));
        } else {
            assert(newly_dispatched(g1, g2, q2[k].node as int));
        }
    }
    assert forall|k1: int, k2: int| q0.len() <= k1 < k2 < q2.len() implies #[trigger] q2[k1].node != #[trigger] q2[k2].node by {
        if k2 < q1.len() {
            assert(q2[k1] == q2.take(q1.len() as int)[k1]);
            assert(q2[k2] == q2.take(q1.len() as int)[k2]);
            assert(q1[k1].node != q1[k2].node);
        } else if k1 < q1.len() {
            assert(q2[k1] == q2.take(q1.len() as int)[k1]);
            assert(newly_dispatched(g0, g1, q1[k1].node as int));
            assert(newly_dispatched(g1, g2, q2[k2].node as int));
        } else {
            assert(q2[k1].node != q2[k2].node);
        }
    }
    assert(q2.take(q0.len() as int) == q2.take(q1.len() as int).take(q0.len() as int));
    assert forall|c: int| #[trigger] newly_dispatched(g0, g2, c) implies exists|k: int| q0.len() <= k < q2.len() && (#[trigger] q2[k]).node == c by {
        if g1.dispatched@[c] {
            assert(newly_dispatched(g0, g1, c));
            let k = choose|k: int| q0.len() <= k < q1.len() && (#[trigger] q1[k]).node == c;
            assert(q2[k] == q2.take(q1.len() as int)[k]);
        } else {
            assert(newly_dispatched(g1, g2, c));
        }
    }
    assert forall|k: int| q0.len() <= k < q2.len() implies (#[trigger] q2[k]).graph_task == g0.id
        && !q2[k].is_shutdown by {
        if k < q1.len() {
            assert(q2[k] == q2.take(q1.len() as int)[k]);
        }
    }
}

impl Engine {
    /// Hands gradient `grad` of an edge to input slot `slot` of node `c`:
    /// added into the result entry when that slot is captured, otherwise into
    /// the node's input buffer.
    fn deliver(graph: &Graph, gt: &mut GraphTask, c: usize, slot: usize, grad: i64) -> (r: Result<(), EngineError>)
        requires
            task_wf(graph, old(gt)),
            c < graph.nodes@.len(),
            slot < graph.nodes@[c as int].num_inputs,
        ensures
            task_wf(graph, final(gt)),
            scheduled(old(gt), Seq::empty(), final(gt), Seq::empty()),
            final(gt).dispatched == old(gt).dispatched,
            final(gt).leaf_grads == old(gt).leaf_grads,
            final(gt).dependencies == old(gt).dependencies,
            r is Err ==> r == Err::<(), EngineError>(EngineError::Overflow { node: c }),
            captures_slot(old(gt), c as int, slot) ==> final(gt).not_ready == old(gt).not_ready,
            !captures_slot(old(gt), c as int, slot) ==> {
                let before = pending_slots(graph, old(gt), c as int);
                let sum = slot_value(before[slot as int]) + grad;
                &&& final(gt).captured_vars == old(gt).captured_vars
                &&& fits(sum) ==> r is Ok && final(gt).not_ready@ == old(gt).not_ready@.update(
                    c as int,
                    final(gt).not_ready@[c as int],
                ) && (final(gt).not_ready@[c as int] matches Some(b) && b.slots@ == before.update(
                    slot as int,
                    Some(sum as i64),
                ))
                &&& !fits(sum) ==> r is Err
            },
    {
        let mut captured = false;
        assert(Seq::<NodeTask>::empty().take(0) =~= Seq::<NodeTask>::empty());
        match &gt.exec_info[c] {
            Some(info) => match &info.captures {
                Some(caps) => {
                    let mut k: usize = 0;
                    while k < caps.len()
                        invariant
                            k <= caps@.len(),
                            task_wf(graph, gt),
                            scheduled(old(gt), Seq::empty(), gt, Seq::empty()),
                            gt.dispatched == old(gt).dispatched,
                            gt.not_ready == old(gt).not_ready,
                            gt.leaf_grads == old(gt).leaf_grads,
                            gt.dependencies == old(gt).dependencies,
                            gt.exec_info == old(gt).exec_info,
                            old(gt).exec_info@[c as int] matches Some(i) && i.captures == Some(*caps),
                            captured == exists|m: int| 0 <= m < k && (#[trigger] caps@[m]).input_nr == slot,
                            !captured ==> gt.captured_vars == old(gt).captured_vars,
                        decreases caps@.len() - k,
                    {
                        let cap = caps[k];
                        if cap.input_nr == slot {
                            captured = true;
                            if cap.output_idx < gt.captured_vars.len() {
                                let sum = match gt.captured_vars[cap.output_idx] {
                                    Some(prev) => prev.checked_add(grad),
                                    None => Some(grad),
                                };
                                match sum {
                                    Some(v) => gt.captured_vars.set(cap.output_idx, Some(v)),
                                    None => {
                                        proof {
                                            let oi = old(gt).exec_info@[c as int]->Some_0;
                                            let oc = oi.captures->Some_0;
                                            assert(oc@[k as int].input_nr == slot);
                                        }
                                        assert(captures_slot(old(gt), c as int, slot));
                                        return Err(EngineError::Overflow { node: c });
                                    },
                                }
                            }
                        }
                        k = k + 1;
                    }
                },
                None => {},
            },
            None => {},
        }
        if captured {
            assert(captures_slot(old(gt), c as int, slot));
            return Ok(());
        }
        assert(!captures_slot(old(gt), c as int, slot));
        let pending = gt.not_ready.remove(c);
        let mut buf = match pending {
            Some(b) => b,
            None => InputBuffer::new(graph.nodes[c].num_inputs),
        };
        assert(buf.slots@ == pending_slots(graph, old(gt), c as int));
        let added = buf.add(slot, grad);
        gt.not_ready.insert(c, Some(buf));
        assert(gt.not_ready@ =~= old(gt).not_ready@.update(c as int, gt.not_ready@[c as int]));
        match added {
            Ok(()) => Ok(()),
            Err(()) => Err(EngineError::Overflow { node: c }),
        }
    }

    /// Marks one contribution to node `c` as arrived. When it was the last
    /// one and `c` was not dispatched yet, its buffer leaves the pending
    /// table and a task for it is queued, counted as outstanding.
    fn release(graph: &Graph, gt: &mut GraphTask, queue: &mut ReadyQueue, c: usize)
        requires
            task_wf(graph, old(gt)),
            c < graph.nodes@.len(),
        ensures
            task_wf(graph, final(gt)),
            scheduled(old(gt), old(queue)@, final(gt), final(queue)@),
            final(gt).leaf_grads == old(gt).leaf_grads,
            final(gt).captured_vars == old(gt).captured_vars,
            final(gt).dependencies@ == old(gt).dependencies@.update(
                c as int,
                sat_sub(old(gt).dependencies@[c as int], 1),
            ),
            ({
                let ready = final(gt).dependencies@[c as int] == 0 && !old(gt).dispatched@[c as int];
                &&& ready ==> final(gt).dispatched@ == old(gt).dispatched@.update(c as int, true)
                    && final(gt).not_ready@ == old(gt).not_ready@.update(c as int, None)
                    && final(queue)@.len() == old(queue)@.len() + 1
                    && final(queue)@.last().node == c
                    && final(queue)@.last().rank == graph.nodes@[c as int].topological_nr
                &&& !ready ==> final(gt).dispatched == old(gt).dispatched && final(gt).not_ready
                    == old(gt).not_ready && final(queue)@ == old(queue)@
            }),
    {
        assert(old(queue)@.take(old(queue)@.len() as int) =~= old(queue)@);
        if gt.dependencies[c] > 0 {
            let d = gt.dependencies[c] - 1;
            gt.dependencies.set(c, d);
        }
        if gt.dependencies[c] == 0 && !gt.dispatched[c] {
            let pending = gt.not_ready.remove(c);
            gt.not_ready.insert(c, None);
            assert(gt.not_ready@ =~= old(gt).not_ready@.update(c as int, None));
            let buf = match pending {
                Some(b) => b,
                None => InputBuffer::new(graph.nodes[c].num_inputs),
            };
            proof {
                lemma_count_false_set(gt.dispatched@, c as int);
            }
            gt.dispatched.set(c, true);
            let task = NodeTask::new(gt.id, c, graph.nodes[c].topological_nr, buf.variables());
            queue.push(task, true, &mut gt.outstanding_tasks);
            assert(queue@.take(old(queue)@.len() as int) =~= old(queue)@);
            assert(queue@[old(queue)@.len() as int].node == c);
        }
    }

    /// Runs node `node` of the graph task on its gathered gradients and hands
    /// the results on along its edges. A node that the plan does not need is
    /// not run, but its successors are still released. A leaf adds the
    /// gradient into its parameter's gradient.
    pub fn evaluate_function(
        graph: &Graph,
        gt: &mut GraphTask,
        queue: &mut ReadyQueue,
        node: usize,
        inputs: Vec<i64>,
    ) -> (r: Result<(), EngineError>)
        requires
            task_wf(graph, old(gt)),
            node < graph.nodes@.len(),
        ensures
            task_wf(graph, final(gt)),
            scheduled(old(gt), old(queue)@, final(gt), final(queue)@),
            graph.nodes@[node as int].kind is Fail && plan_needs(old(gt), node as int) ==> r == Err::<(), EngineError>(EngineError::NodeFailed { node }),
            r matches Err(e) ==> is_node_error(graph, old(gt), e),
            r matches Err(e) ==> match e {
                EngineError::Overflow { node: v } => (v == node && overflows_at(graph, old(gt), node as int, inputs@))
                    || (v != node && graph.nodes@[node as int].has_edge_to(v as int)),
                EngineError::NodeFailed { node: v } => v == node,
                EngineError::Unreachable => false,
            },
            final(gt).leaf_grads@.len() == old(gt).leaf_grads@.len(),
            forall|i: int| 0 <= i < old(gt).leaf_grads@.len() && i != node ==> #[trigger] final(gt).leaf_grads@[i] == old(gt).leaf_grads@[i],
            forall|k: int|
                old(queue)@.len() <= k < final(queue)@.len() ==> (#[trigger] final(queue)@[k]).node < graph.nodes@.len()
                    && final(queue)@[k].rank == graph.nodes@[final(queue)@[k].node as int].topological_nr
                    && graph.nodes@[node as int].has_edge_to(final(queue)@[k].node as int),
            r is Ok ==> forall|c: int|
                0 <= c < graph.nodes@.len() ==> #[trigger] final(gt).dependencies@[c] == sat_sub(
                    old(gt).dependencies@[c],
                    edges_to(graph.nodes@[node as int].next_edges@, c, graph.nodes@[node as int].next_edges@.len() as int),
                ),
            r is Ok ==> forall|c: int|
                0 <= c < graph.nodes@.len() && edges_to(graph.nodes@[node as int].next_edges@, c, graph.nodes@[node as int].next_edges@.len() as int) > 0
                    && #[trigger] final(gt).dependencies@[c] == 0 ==> final(gt).dispatched@[c],
            !plan_needs(old(gt), node as int) ==> r is Ok && final(gt).leaf_grads == old(gt).leaf_grads
                && final(gt).captured_vars == old(gt).captured_vars,
            plan_needs(old(gt), node as int) && graph.nodes@[node as int].kind is Accumulate ==> (if sums_fit(inputs@)
                && fits(slot_value(old(gt).leaf_grads@[node as int]) + spec_sum(inputs@)) {
                r is Ok && final(gt).leaf_grads@ == old(gt).leaf_grads@.update(
                    node as int,
                    Some((slot_value(old(gt).leaf_grads@[node as int]) + spec_sum(inputs@)) as i64),
                )
            } else {
                r == Err::<(), EngineError>(EngineError::Overflow { node })
            }),
    {
        assert(old(queue)@.take(old(queue)@.len() as int) =~= old(queue)@);
        let needed = match &gt.exec_info[node] {
            Some(info) => info.needed,
            None => false,
        };
        let n: &Node = &graph.nodes[node];
        let mut grads: Vec<i64> = Vec::new();
        if needed {
            match n.apply(node, &inputs) {
                Ok(g) => {
                    grads = g;
                },
                Err(e) => {
                    return Err(e);
                },
            }
            if let NodeKind::Accumulate = n.kind {
                match checked_total(&inputs) {
                    Some(t) => {
                        let prev = gt.leaf_grads[node];
                        let next = match prev {
                            Some(p) => match p.checked_add(t) {
                                Some(v) => v,
                                None => {
                                    return Err(EngineError::Overflow { node });
                                },
                            },
                            None => t,
                        };
                        gt.leaf_grads.set(node, Some(next));
                    },
                    None => {
                        return Err(EngineError::Overflow { node });
                    },
                }
            }
        }
        let ghost leaf_after = gt.leaf_grads;
        let mut j: usize = 0;
        while j < n.next_edges.len()
            invariant
                j <= n.next_edges@.len(),
                gt.leaf_grads == leaf_after,
                leaf_after@.len() == old(gt).leaf_grads@.len(),
                forall|i: int| 0 <= i < old(gt).leaf_grads@.len() && i != node ==> #[trigger] leaf_after@[i] == old(gt).leaf_grads@[i],
                forall|k: int|
                    old(queue)@.len() <= k < queue@.len() ==> (#[trigger] queue@[k]).node < graph.nodes@.len()
                        && queue@[k].rank == graph.nodes@[queue@[k].node as int].topological_nr
                        && n.has_edge_to(queue@[k].node as int),
                old(gt).dependencies@.len() == graph.nodes@.len(),
                forall|c: int|
                    0 <= c < graph.nodes@.len() ==> #[trigger] gt.dependencies@[c] == sat_sub(
                        old(gt).dependencies@[c],
                        edges_to(n.next_edges@, c, j as int),
                    ),
                forall|c: int|
                    0 <= c < graph.nodes@.len() && edges_to(n.next_edges@, c, j as int) > 0
                        && #[trigger] gt.dependencies@[c] == 0 ==> gt.dispatched@[c],
                !needed ==> grads@.len() == 0 && gt.captured_vars == old(gt).captured_vars,
                needed == plan_needs(old(gt), node as int),
                n.kind is Accumulate ==> grads@.len() == 0,
                node < graph.nodes@.len(),
                *n == graph.nodes@[node as int],
                task_wf(graph, gt),
                scheduled(old(gt), old(queue)@, gt, queue@),
                graph.nodes@[node as int].kind is Fail ==> !plan_needs(old(gt), node as int),
                old(gt).dispatched@.len() == graph.nodes@.len(),
            decreases n.next_edges@.len() - j,
        {
            let e = n.next_edges[j];
            let ghost g1 = *gt;
            let ghost q1 = queue@;
            if j < grads.len() {
                let delivered = Self::deliver(graph, gt, e.function, e.input_nr, grads[j]);
                assert(queue@.take(q1.len() as int) =~= q1);
                proof {
                    lemma_scheduled_trans(old(gt), old(queue)@, &g1, q1, gt, queue@);
                }
                if delivered.is_err() {
                    return delivered;
                }
            }
            let ghost g2 = *gt;
            let ghost q2 = queue@;
            Self::release(graph, gt, queue, e.function);
            assert forall|k: int| old(queue)@.len() <= k < queue@.len() implies (#[trigger] queue@[k]).node < graph.nodes@.len()
                && queue@[k].rank == graph.nodes@[queue@[k].node as int].topological_nr
                && n.has_edge_to(queue@[k].node as int) by {
                if k < q2.len() {
                    assert(queue@[k] == q2[k]);
                } else {
                    assert(n.next_edges@[j as int].function == e.function);
                }
            }
            assert forall|c: int| 0 <= c < graph.nodes@.len() implies #[trigger] gt.dependencies@[c] == sat_sub(
                old(gt).dependencies@[c],
                edges_to(n.next_edges@, c, j + 1),
            ) && (edges_to(n.next_edges@, c, j + 1) > 0 && gt.dependencies@[c] == 0 ==> gt.dispatched@[c]) by {
                assert(edges_to(n.next_edges@, c, j + 1) == edges_to(n.next_edges@, c, j as int) + if n.next_edges@[j as int].function == c {
                    1nat
                } else {
                    0nat
                });
                if c != e.function {
                    assert(gt.dependencies@[c] == g2.dependencies@[c]);
                    if g2.dispatched@[c] {
                        assert(gt.dispatched@[c]);
                    }
                }
            }
            proof {
                lemma_scheduled_trans(old(gt), old(queue)@, &g2, q1, gt, queue@);
            }
            j = j + 1;
        }
        Ok(())
    }

    /// Puts `tasks` back at the end of the queue, in order.
    fn requeue(queue: &mut ReadyQueue, tasks: Vec<NodeTask>)
        ensures
            final(queue)@ == old(queue)@ + tasks@,
    {
        let mut rest = tasks;
        let ghost orig = rest@;
        let mut unused: u64 = 0;
        let total = rest.len();
        let mut k: usize = 0;
        while rest.len() > 0
            invariant
                k <= total,
                total == orig.len(),
                queue@ == old(queue)@ + orig.take(k as int),
                rest@ == orig.skip(k as int),
            decreases rest@.len(),
        {
            let t = rest.remove(0);
            queue.push(t, false, &mut unused);
            k = k + 1;
            assert(orig.take(k as int) =~= orig.take(k - 1).push(orig[k - 1]));
            assert(rest@ =~= orig.skip(k as int));
        }
        assert(orig.take(orig.len() as int) =~= orig);
        assert(orig.skip(k as int).len() == 0);
    }

    /// Records the failure of node `fn_` on the graph task.
    pub fn thread_on_exception(graph_task: &mut GraphTask, fn_: usize, e: EngineError)
        ensures
            final(graph_task).has_error,
            final(graph_task).future_completed,
            final(graph_task).future_result == if old(graph_task).future_completed {
                old(graph_task).future_result
            } else {
                crate::graph_task::FutureState::Failed(e)
            },
            final(graph_task).id == old(graph_task).id,
            final(graph_task).owner == old(graph_task).owner,
            final(graph_task).outstanding_tasks == old(graph_task).outstanding_tasks,
            final(graph_task).dispatched == old(graph_task).dispatched,
            final(graph_task).exec_info == old(graph_task).exec_info,
            final(graph_task).not_ready == old(graph_task).not_ready,
            final(graph_task).dependencies == old(graph_task).dependencies,
            final(graph_task).leaf_grads == old(graph_task).leaf_grads,
    {
        graph_task.set_exception(e, Some(fn_));
    }

    /// The worker loop for one graph task on its ready queue. Until the
    /// task's future is completed it pops the task of highest rank: the
    /// shutdown sentinel ends the loop, a task of another graph task is set
    /// aside and queued again when the loop ends, a node is evaluated unless an error was latched, and each
    /// finished task lowers the outstanding count; the one that brings it to
    /// zero completes the graph task. The loop always ends, and then either
    /// the sentinel was met or the future is completed.
    #[verifier::rlimit(100)]
    pub fn thread_main(
        graph: &Graph,
        graph_task: &mut GraphTask,
        queue: &mut ReadyQueue,
        worker_device: usize,
    ) -> (r: ThreadOutcome)
        requires
            task_wf(graph, old(graph_task)),
            old(graph_task).outstanding_tasks == count_of(old(queue)@, old(graph_task).id),
            !old(graph_task).future_completed ==> old(graph_task).outstanding_tasks > 0,
            queued_wf(old(graph_task).id, old(graph_task).dispatched@, old(queue)@),
            ranks_wf(graph, old(graph_task).id, old(queue)@),
        ensures
            task_wf(graph, final(graph_task)),
            r.shutdown || final(graph_task).future_completed,
            ranks_wf(graph, final(graph_task).id, final(queue)@),
            ranks_non_increasing(graph, r.evaluated@),
            old(graph_task).has_error ==> final(graph_task).has_error && r.evaluated@.len() == 0,
            final(graph_task).future_completed && !old(graph_task).future_completed && !final(graph_task).has_error ==> r.completed_here,
            !final(graph_task).has_error ==> dispatched_accounted(old(graph_task), old(queue)@, final(graph_task), final(queue)@, r.evaluated@),
            forall|i: int|
                0 <= i < graph.nodes@.len() && !plan_needs(final(graph_task), i) ==> #[trigger] final(graph_task).leaf_grads@[i]
                    == old(graph_task).leaf_grads@[i],
            forall|id2: usize| id2 != old(graph_task).id ==> #[trigger] count_of(final(queue)@, id2) == count_of(old(queue)@, id2),
            r.completed_here ==> final(graph_task).outstanding_tasks == 0 && final(graph_task).future_completed
                && r.notify_owner == (worker_device != final(graph_task).owner)
                && (r.post is Some <==> final(graph_task).future_result is Completed),
            !r.completed_here ==> r.post is None && !r.notify_owner,
            final(graph_task).future_result is Completed && !(old(graph_task).future_result is Completed)
                ==> r.completed_here,
            forall|e: int|
                0 <= e < r.evaluated@.len() && graph.nodes@[#[trigger] r.evaluated@[e] as int].kind is Fail
                    && plan_needs(final(graph_task), r.evaluated@[e] as int) ==> final(graph_task).has_error
                    && final(graph_task).future_result is Failed,
            r.evaluated@.no_duplicates(),
            queued_wf(final(graph_task).id, final(graph_task).dispatched@, final(queue)@),
            evaluated_wf(final(graph_task).id, final(graph_task).dispatched@, final(queue)@, r.evaluated@),
            final(graph_task).outstanding_tasks == count_of(final(queue)@, final(graph_task).id),
            final(graph_task).id == old(graph_task).id,
            final(graph_task).exec_info == old(graph_task).exec_info,
            final(graph_task).owner == old(graph_task).owner,
            r.notify_owner ==> worker_device != old(graph_task).owner,
            !final(graph_task).future_completed ==> final(graph_task).outstanding_tasks > 0,
            no_sentinel(old(queue)@) ==> !r.shutdown,
            old(graph_task).future_completed ==> final(graph_task).future_result == old(graph_task).future_result,
            (final(graph_task).future_result is Completed && !(old(graph_task).future_result is Completed)) ==> !crate::graph_task::any_not_ready(final(graph_task).not_ready@),
            !old(graph_task).future_completed ==> failure_explained(graph, final(graph_task), r.evaluated@),
    {
        let mut outcome = ThreadOutcome { post: None, evaluated: Vec::new(), notify_owner: false, shutdown: false, completed_here: false };
        let ghost mut top: int = u64::MAX as int;
        let mut foreign: Vec<NodeTask> = Vec::new();
        loop
            invariant
                task_wf(graph, graph_task),
                graph_task.outstanding_tasks == count_of(queue@, graph_task.id),
                !graph_task.future_completed ==> graph_task.outstanding_tasks > 0,
                graph_task.id == old(graph_task).id,
                graph_task.exec_info == old(graph_task).exec_info,
                no_sentinel(old(queue)@) ==> no_sentinel(queue@),
                old(graph_task).future_completed ==> graph_task.future_result == old(graph_task).future_result,
                old(graph_task).future_completed == !(old(graph_task).future_result is Pending),
                (graph_task.future_result is Completed && !(old(graph_task).future_result is Completed)) ==> !crate::graph_task::any_not_ready(graph_task.not_ready@),
                !old(graph_task).future_completed ==> failure_explained(graph, graph_task, outcome.evaluated@),
                graph_task.owner == old(graph_task).owner,
                queued_wf(graph_task.id, graph_task.dispatched@, queue@),
                evaluated_wf(graph_task.id, graph_task.dispatched@, queue@, outcome.evaluated@),
                ranks_wf(graph, graph_task.id, queue@),
                forall|k: int| 0 <= k < queue@.len() && is_task_of(#[trigger] queue@[k], graph_task.id) ==> queue@[k].rank <= top,
                outcome.evaluated@.len() > 0 ==> top <= graph.nodes@[outcome.evaluated@.last() as int].topological_nr,
                ranks_non_increasing(graph, outcome.evaluated@),
                old(graph_task).has_error ==> graph_task.has_error && outcome.evaluated@.len() == 0,
                graph_task.future_completed && !old(graph_task).future_completed && !graph_task.has_error ==> outcome.completed_here,
                !graph_task.has_error ==> dispatched_accounted(old(graph_task), old(queue)@, graph_task, queue@, outcome.evaluated@),
                forall|i: int|
                    0 <= i < graph.nodes@.len() && !plan_needs(graph_task, i) ==> #[trigger] graph_task.leaf_grads@[i]
                        == old(graph_task).leaf_grads@[i],
                forall|k: int| 0 <= k < foreign@.len() ==> (#[trigger] foreign@[k]).graph_task != graph_task.id && !foreign@[k].is_shutdown,
                forall|id2: usize| id2 != graph_task.id ==> #[trigger] count_of(queue@, id2) + count_of(foreign@, id2) == count_of(old(queue)@, id2),
                outcome.completed_here ==> graph_task.outstanding_tasks == 0 && graph_task.future_completed
                    && outcome.notify_owner == (worker_device != graph_task.owner)
                    && (outcome.post is Some <==> graph_task.future_result is Completed),
                !outcome.completed_here ==> outcome.post is None && !outcome.notify_owner,
                graph_task.future_result is Completed && !(old(graph_task).future_result is Completed)
                    ==> outcome.completed_here,
                forall|e: int|
                    0 <= e < outcome.evaluated@.len() && graph.nodes@[#[trigger] outcome.evaluated@[e] as int].kind is Fail
                        && plan_needs(graph_task, outcome.evaluated@[e] as int) ==> graph_task.has_error
                        && graph_task.future_result is Failed,
                outcome.notify_owner ==> worker_device != old(graph_task).owner,
                !outcome.shutdown,
            ensures
                task_wf(graph, graph_task),
                graph_task.outstanding_tasks == count_of(queue@, graph_task.id),
                graph_task.future_completed,
                graph_task.id == old(graph_task).id,
                graph_task.exec_info == old(graph_task).exec_info,
                no_sentinel(old(queue)@) ==> no_sentinel(queue@),
                old(graph_task).future_completed ==> graph_task.future_result == old(graph_task).future_result,
                (graph_task.future_result is Completed && !(old(graph_task).future_result is Completed)) ==> !crate::graph_task::any_not_ready(graph_task.not_ready@),
                !old(graph_task).future_completed ==> failure_explained(graph, graph_task, outcome.evaluated@),
                graph_task.owner == old(graph_task).owner,
                queued_wf(graph_task.id, graph_task.dispatched@, queue@),
                evaluated_wf(graph_task.id, graph_task.dispatched@, queue@, outcome.evaluated@),
                ranks_wf(graph, graph_task.id, queue@),
                forall|k: int| 0 <= k < queue@.len() && is_task_of(#[trigger] queue@[k], graph_task.id) ==> queue@[k].rank <= top,
                outcome.evaluated@.len() > 0 ==> top <= graph.nodes@[outcome.evaluated@.last() as int].topological_nr,
                ranks_non_increasing(graph, outcome.evaluated@),
                old(graph_task).has_error ==> graph_task.has_error && outcome.evaluated@.len() == 0,
                graph_task.future_completed && !old(graph_task).future_completed && !graph_task.has_error ==> outcome.completed_here,
                !graph_task.has_error ==> dispatched_accounted(old(graph_task), old(queue)@, graph_task, queue@, outcome.evaluated@),
                forall|i: int|
                    0 <= i < graph.nodes@.len() && !plan_needs(graph_task, i) ==> #[trigger] graph_task.leaf_grads@[i]
                        == old(graph_task).leaf_grads@[i],
                forall|k: int| 0 <= k < foreign@.len() ==> (#[trigger] foreign@[k]).graph_task != graph_task.id && !foreign@[k].is_shutdown,
                forall|id2: usize| id2 != graph_task.id ==> #[trigger] count_of(queue@, id2) + count_of(foreign@, id2) == count_of(old(queue)@, id2),
                outcome.completed_here ==> graph_task.outstanding_tasks == 0 && graph_task.future_completed
                    && outcome.notify_owner == (worker_device != graph_task.owner)
                    && (outcome.post is Some <==> graph_task.future_result is Completed),
                !outcome.completed_here ==> outcome.post is None && !outcome.notify_owner,
                graph_task.future_result is Completed && !(old(graph_task).future_result is Completed)
                    ==> outcome.completed_here,
                forall|e: int|
                    0 <= e < outcome.evaluated@.len() && graph.nodes@[#[trigger] outcome.evaluated@[e] as int].kind is Fail
                        && plan_needs(graph_task, outcome.evaluated@[e] as int) ==> graph_task.has_error
                        && graph_task.future_result is Failed,
                outcome.notify_owner ==> worker_device != old(graph_task).owner,
                !outcome.shutdown,
            decreases 2 * count_false(graph_task.dispatched@) + queue@.len(),
        {
            if graph_task.future_result.completed() {
                break;
            }
            let ghost q0 = queue@;
            let popped = queue.pop();
            match popped {
                None => {
                    break;
                },
                Some(task) => {
                    let ghost i = choose|i: int|
                        crate::ready_queue::is_pop_index(q0, i) && task == q0[i] && queue@ == q0.remove(i);
                    proof {
                        lemma_count_of_remove(q0, i, graph_task.id);
                        lemma_pop_keeps(graph_task.id, graph_task.dispatched@, q0, outcome.evaluated@, i);
                        assert forall|id2: usize| id2 != graph_task.id implies #[trigger] count_of(queue@, id2) + (if is_task_of(task, id2) {
                            1nat
                        } else {
                            0nat
                        }) == count_of(q0, id2) by {
                            lemma_count_of_remove(q0, i, id2);
                        }
                        assert forall|k: int| 0 <= k < queue@.len() && is_task_of(#[trigger] queue@[k], graph_task.id)
                            implies queue@[k].node < graph.nodes@.len()
                            && queue@[k].rank == graph.nodes@[queue@[k].node as int].topological_nr
                            && queue@[k].rank <= top && queue@[k].priority() <= task.priority() by {
                            let j = if k < i { k } else { k + 1 };
                            assert(queue@[k] == q0[j]);
                            assert(q0[j].priority() <= q0[i].priority());
                        }
                    }
                    assert(no_sentinel(old(queue)@) ==> no_sentinel(queue@)) by {
                        if no_sentinel(old(queue)@) {
                            assert forall|k: int| 0 <= k < queue@.len() implies !(#[trigger] queue@[k]).is_shutdown by {
                                if k < i {
                                    assert(queue@[k] == q0[k]);
                                } else {
                                    assert(queue@[k] == q0[k + 1]);
                                }
                            }
                        }
                    }
                    if task.is_shutdown {
                        outcome.shutdown = true;
                        let ghost qb = queue@;
                        proof {
                            if !graph_task.has_error {
                                lemma_accounted_pop(old(graph_task), old(queue)@, graph_task, q0, outcome.evaluated@, i);
                                lemma_accounted_append(old(graph_task), old(queue)@, graph_task, qb, foreign@, outcome.evaluated@);
                            }
                            lemma_append_foreign(graph, graph_task.id, graph_task.dispatched@, qb, foreign@, outcome.evaluated@);
                            assert forall|id2: usize| id2 != graph_task.id implies #[trigger] count_of(qb + foreign@, id2) == count_of(old(queue)@, id2) by {
                                lemma_count_of_concat(qb, foreign@, id2);
                            }
                        }
                        Self::requeue(queue, foreign);
                        return outcome;
                    }
                    if task.graph_task != graph_task.id {
                        proof {
                            if !graph_task.has_error {
                                lemma_accounted_pop(old(graph_task), old(queue)@, graph_task, q0, outcome.evaluated@, i);
                            }
                        }
                        let ghost f0 = foreign@;
                        foreign.push(task);
                        proof {
                            assert forall|id2: usize| id2 != graph_task.id implies #[trigger] count_of(foreign@, id2) == count_of(f0, id2) + (if is_task_of(task, id2) {
                                1nat
                            } else {
                                0nat
                            }) by {
                                assert(foreign@.drop_last() =~= f0);
                            }
                        }
                        continue;
                    }
                    assert(is_task_of(q0[i], graph_task.id));
                    assert(task.rank <= top);
                    assert(task.node < graph.nodes@.len());
                    assert(task.rank == graph.nodes@[task.node as int].topological_nr);
                    let ghost g1 = *graph_task;
                    let ghost q1 = queue@;
                    if !graph_task.has_error && task.node < graph.nodes.len() {
                        let node = task.node;
                        let ghost ev_before = outcome.evaluated@;
                        outcome.evaluated.push(node);
                        let ghost ev = outcome.evaluated@;
                        proof {
                            lemma_accounted_push_ev(old(graph_task), old(queue)@, graph_task, q0, ev_before, node);
                            assert(ev == ev_before.push(node));
                            lemma_accounted_pop(old(graph_task), old(queue)@, graph_task, q0, ev, i);
                        }
                        let res = Self::evaluate_function(graph, graph_task, queue, node, task.inputs);
                        proof {
                            lemma_accounted_sched(old(graph_task), old(queue)@, &g1, q1, graph_task, queue@, ev);
                            lemma_schedule_keeps(&g1, q1, graph_task, queue@, ev);
                            assert forall|k: int| 0 <= k < queue@.len() && is_task_of(#[trigger] queue@[k], graph_task.id)
                                implies queue@[k].node < graph.nodes@.len()
                                && queue@[k].rank == graph.nodes@[queue@[k].node as int].topological_nr
                                && queue@[k].rank <= task.rank by {
                                if k < q1.len() {
                                    assert(queue@[k] == queue@.take(q1.len() as int)[k]);
                                    assert(queue@[k] == q1[k]);
                                } else {
                                    let c = queue@[k].node as int;
                                    let jj = choose|jj: int| 0 <= jj < graph.nodes@[node as int].next_edges@.len()
                                        && #[trigger] graph.nodes@[node as int].next_edges@[jj].function == c;
                                    assert(graph.nodes@[c].topological_nr < graph.nodes@[node as int].topological_nr);
                                }
                            }
                            assert forall|a: int, b: int|
                                #![trigger ev[a], ev[b]]
                                0 <= a < b < ev.len() implies ev[a] < graph.nodes@.len() && ev[b] < graph.nodes@.len()
                                && graph.nodes@[ev[b] as int].topological_nr <= graph.nodes@[ev[a] as int].topological_nr by {
                                let ev0 = ev.drop_last();
                                if b < ev0.len() {
                                    assert(ev[a] == ev0[a] && ev[b] == ev0[b]);
                                } else {
                                    assert(ev[a] == ev0[a]);
                                    if a < ev0.len() - 1 {
                                        assert(graph.nodes@[ev0[ev0.len() - 1] as int].topological_nr <= graph.nodes@[ev0[a] as int].topological_nr);
                                    }
                                }
                            }
                        }
                        match res {
                            Ok(()) => {},
                            Err(e) => {
                                Self::thread_on_exception(graph_task, node, e);
                            },
                        }
                        proof {
                            let suffix = queue@.subrange(q1.len() as int, queue@.len() as int);
                            assert(queue@ =~= queue@.take(q1.len() as int) + suffix);
                            assert forall|id2: usize| id2 != graph_task.id implies #[trigger] count_of(queue@, id2) == count_of(q1, id2) by {
                                assert forall|k: int| 0 <= k < suffix.len() implies !is_task_of(#[trigger] suffix[k], id2) by {
                                    assert(suffix[k] == queue@[q1.len() + k]);
                                }
                                lemma_count_of_none(suffix, id2);
                                lemma_count_of_concat(q1, suffix, id2);
                            }
                            lemma_count_of_append(q1, queue@, graph_task.id);
                            lemma_count_false_le(graph_task.dispatched@);
                            if no_sentinel(q1) {
                                assert forall|k: int| 0 <= k < queue@.len() implies !(#[trigger] queue@[k]).is_shutdown by {
                                    if k < q1.len() {
                                        assert(queue@[k] == queue@.take(q1.len() as int)[k]);
                                    }
                                }
                            }
                        }
                    }
                    proof {
                        top = task.rank as int;
                    }
                    graph_task.outstanding_tasks = graph_task.outstanding_tasks - 1;
                    if graph_task.outstanding_tasks == 0 {
                        outcome.completed_here = true;
                        outcome.post = graph_task.mark_as_completed_and_run_post_processing();
                        if worker_device != graph_task.owner {
                            outcome.notify_owner = true;
                        }
                    }
                },
            }
        }
        let ghost qb = queue@;
        proof {
            if !graph_task.has_error {
                lemma_accounted_append(old(graph_task), old(queue)@, graph_task, qb, foreign@, outcome.evaluated@);
            }
            lemma_append_foreign(graph, graph_task.id, graph_task.dispatched@, qb, foreign@, outcome.evaluated@);
            assert forall|id2: usize| id2 != graph_task.id implies #[trigger] count_of(qb + foreign@, id2) == count_of(old(queue)@, id2) by {
                lemma_count_of_concat(qb, foreign@, id2);
            }
        }
        Self::requeue(queue, foreign);
        outcome
    }

    pub fn new(max_recursion_depth: u64) -> (r: Engine)
        ensures
            r.worker_device is None,
            r.current_depth == 0,
            r.total_depth == 0,
            r.max_recursion_depth == max_recursion_depth,
            r.graphtasks_queue@.len() == 0,
            !r.pool_initialized,
    {
        Engine {
            worker_device: None,
            current_depth: 0,
            max_recursion_depth,
            total_depth: 0,
            graphtasks_queue: Vec::new(),
            pool_initialized: false,
        }
    }

    /// Starts a graph task at `graph_root`. Called outside any worker, the
    /// caller becomes the owner on the CPU and runs the worker loop until
    /// the task is done. Called from a worker, the worker's device owns the
    /// task; below the recursion bound the worker runs the loop nested, at
    /// the bound the task is handed to the reentrant pool and `None` comes
    /// back at once.
    pub fn execute_with_graph_task(
        &mut self,
        graph: &Graph,
        graph_task: &mut GraphTask,
        queue: &mut ReadyQueue,
        graph_root: usize,
        input_buffer: InputBuffer,
    ) -> (r: Option<ThreadOutcome>)
        requires
            task_wf(graph, old(graph_task)),
            graph_root < graph.nodes@.len(),
            !old(graph_task).dispatched@[graph_root as int],
            !old(graph_task).future_completed,
            old(graph_task).outstanding_tasks == count_of(old(queue)@, old(graph_task).id),
            queued_wf(old(graph_task).id, old(graph_task).dispatched@, old(queue)@),
            ranks_wf(graph, old(graph_task).id, old(queue)@),
        ensures
            task_wf(graph, final(graph_task)),
            queued_wf(final(graph_task).id, final(graph_task).dispatched@, final(queue)@),
            ranks_wf(graph, final(graph_task).id, final(queue)@),
            r matches Some(o) ==> o.evaluated@.no_duplicates() && ranks_non_increasing(graph, o.evaluated@),
            r matches Some(o) ==> failure_explained(graph, final(graph_task), o.evaluated@),
            forall|i: int|
                0 <= i < graph.nodes@.len() && !plan_needs(final(graph_task), i) ==> #[trigger] final(graph_task).leaf_grads@[i]
                    == old(graph_task).leaf_grads@[i],
            final(graph_task).exec_info == old(graph_task).exec_info,
            final(self).pool_initialized,
            final(self).worker_device == old(self).worker_device,
            final(self).current_depth == old(self).current_depth,
            final(self).total_depth == old(self).total_depth,
            final(graph_task).owner == match old(self).worker_device {
                Some(d) => d,
                None => CPU_DEVICE,
            },
            r is None <==> (old(self).worker_device is Some && old(self).current_depth
                >= old(self).max_recursion_depth),
            r is None ==> final(queue)@.len() == old(queue)@.len() + 1 && final(queue)@.drop_last() == old(queue)@
                && final(queue)@.last().node == graph_root && final(queue)@.last().graph_task == old(graph_task).id
                && final(queue)@.last().inputs@ == input_buffer.slots@.map_values(|s: Option<i64>| slot_value(s)),
            r is None ==> final(self).graphtasks_queue@ == old(self).graphtasks_queue@.push(
                old(graph_task).id,
            ) && final(graph_task).outstanding_tasks == count_of(final(queue)@, final(graph_task).id)
                && final(graph_task).outstanding_tasks > 0,
            r is Some ==> final(self).graphtasks_queue@ == old(self).graphtasks_queue@,
            r matches Some(o) ==> (!final(graph_task).has_error && final(graph_task).future_completed ==> forall|c: int|
                0 <= c < graph.nodes@.len() && #[trigger] final(graph_task).dispatched@[c] ==> old(graph_task).dispatched@[c]
                    || o.evaluated@.contains(c as usize)),
            r matches Some(o) ==> o.shutdown || final(graph_task).future_completed,
            r matches Some(o) ==> (no_sentinel(old(queue)@) ==> !o.shutdown),
    {
        self.pool_initialized = true;
        let owner = match self.worker_device {
            Some(d) => d,
            None => CPU_DEVICE,
        };
        graph_task.owner = owner;
        let ghost q0 = queue@;
        let ghost g0 = *graph_task;
        proof {
            lemma_count_false_set(graph_task.dispatched@, graph_root as int);
        }
        graph_task.dispatched.set(graph_root, true);
        let root_task = NodeTask::new(
            graph_task.id,
            graph_root,
            graph.nodes[graph_root].topological_nr,
            input_buffer.variables(),
        );
        queue.push(root_task, true, &mut graph_task.outstanding_tasks);
        proof {
            assert(queue@.take(q0.len() as int) =~= q0);
            lemma_count_of_append(q0, queue@, graph_task.id);
            assert(scheduled(&g0, q0, graph_task, queue@));
            lemma_schedule_keeps(&g0, q0, graph_task, queue@, Seq::empty());
            assert(is_task_of(queue@[q0.len() as int], graph_task.id) && queue@[q0.len() as int].node == graph_root);
            assert(has_task_for(queue@, graph_task.id, graph_root as int));
            assert forall|k: int| 0 <= k < queue@.len() && is_task_of(#[trigger] queue@[k], graph_task.id)
                implies queue@[k].node < graph.nodes@.len()
                && queue@[k].rank == graph.nodes@[queue@[k].node as int].topological_nr by {
                if k < q0.len() {
                    assert(queue@[k] == q0[k]);
                }
            }
            if no_sentinel(q0) {
                assert forall|k: int| 0 <= k < queue@.len() implies !(#[trigger] queue@[k]).is_shutdown by {
                    if k < q0.len() {
                        assert(queue@[k] == q0[k]);
                    }
                }
            }
        }
        let ghost gp = *graph_task;
        let ghost qp = queue@;
        match self.worker_device {
            None => {
                self.worker_device = Some(CPU_DEVICE);
                let out = Self::thread_main(graph, graph_task, queue, CPU_DEVICE);
                proof {
                    if !graph_task.has_error && graph_task.future_completed {
                        lemma_all_evaluated(old(graph_task).dispatched@, &gp, qp, graph_task, queue@, out.evaluated@, graph_root as int);
                    }
                }
                self.worker_device = None;
                Some(out)
            },
            Some(d) => {
                if self.current_depth >= self.max_recursion_depth {
                    self.graphtasks_queue.push(graph_task.id);
                    None
                } else {
                    let saved_total = self.total_depth;
                    if self.total_depth < u64::MAX {
                        self.total_depth = self.total_depth + 1;
                    }
                    self.current_depth = self.current_depth + 1;
                    let out = Self::thread_main(graph, graph_task, queue, d);
                    proof {
                        if !graph_task.has_error && graph_task.future_completed {
                            lemma_all_evaluated(old(graph_task).dispatched@, &gp, qp, graph_task, queue@, out.evaluated@, graph_root as int);
                        }
                    }
                    self.current_depth = self.current_depth - 1;
                    self.total_depth = saved_total;
                    Some(out)
                }
            },
        }
    }

    /// The reentrant pool's worker: goes through the handed-over graph task
    /// ids in order and, as its owner's device, runs the worker loop for
    /// each handover of `graph_task`; those handovers leave the pool queue,
    /// while handovers of other graph tasks stay queued, in order.
    pub fn reentrant_thread_init(
        &mut self,
        graph: &Graph,
        graph_task: &mut GraphTask,
        queue: &mut ReadyQueue,
    ) -> (r: Vec<ThreadOutcome>)
        requires
            task_wf(graph, old(graph_task)),
            old(graph_task).outstanding_tasks == count_of(old(queue)@, old(graph_task).id),
            !old(graph_task).future_completed ==> old(graph_task).outstanding_tasks > 0,
            queued_wf(old(graph_task).id, old(graph_task).dispatched@, old(queue)@),
            ranks_wf(graph, old(graph_task).id, old(queue)@),
        ensures
            task_wf(graph, final(graph_task)),
            forall|k: int| 0 <= k < r@.len() ==> (#[trigger] r@[k]).evaluated@.no_duplicates()
                && ranks_non_increasing(graph, r@[k].evaluated@),
            final(self).graphtasks_queue@ == without(old(self).graphtasks_queue@, old(graph_task).id),
            final(self).worker_device == old(self).worker_device,
            r@.len() == 0 <==> !old(self).graphtasks_queue@.contains(old(graph_task).id),
            r@.len() > 0 ==> r@.last().shutdown || final(graph_task).future_completed,
    {
        let mut outcomes: Vec<ThreadOutcome> = Vec::new();
        let mut rest: Vec<usize> = Vec::new();
        let ghost initial = self.graphtasks_queue@;
        let saved_device = self.worker_device;
        let mut k: usize = 0;
        assert(initial.take(0) =~= Seq::<usize>::empty());
        while k < self.graphtasks_queue.len()
            invariant
                task_wf(graph, graph_task),
                graph_task.outstanding_tasks == count_of(queue@, graph_task.id),
                !graph_task.future_completed ==> graph_task.outstanding_tasks > 0,
                queued_wf(graph_task.id, graph_task.dispatched@, queue@),
                ranks_wf(graph, graph_task.id, queue@),
                forall|m: int| 0 <= m < outcomes@.len() ==> (#[trigger] outcomes@[m]).evaluated@.no_duplicates()
                    && ranks_non_increasing(graph, outcomes@[m].evaluated@),
                graph_task.id == old(graph_task).id,
                self.worker_device == saved_device,
                saved_device == old(self).worker_device,
                self.graphtasks_queue@ == initial,
                0 <= k <= initial.len(),
                rest@ == without(initial.take(k as int), graph_task.id),
                outcomes@.len() == 0 <==> !initial.take(k as int).contains(graph_task.id),
                outcomes@.len() > 0 ==> graph_task.future_completed || outcomes@[outcomes@.len() - 1].shutdown,
            decreases initial.len() - k,
        {
            let id = self.graphtasks_queue[k];
            proof {
                let pre = initial.take(k as int);
                let post = initial.take(k + 1);
                assert(post =~= pre.push(id));
                assert(post.drop_last() =~= pre);
                if id == graph_task.id {
                    assert(post[k as int] == id);
                    assert(post.contains(graph_task.id));
                } else {
                    assert(pre.contains(graph_task.id) <==> post.contains(graph_task.id)) by {
                        if post.contains(graph_task.id) {
                            let m = choose|m: int| 0 <= m < post.len() && post[m] == graph_task.id;
                            assert(pre[m] == graph_task.id);
                        }
                        if pre.contains(graph_task.id) {
                            let m = choose|m: int| 0 <= m < pre.len() && pre[m] == graph_task.id;
                            assert(post[m] == graph_task.id);
                        }
                    }
                }
            }
            if id == graph_task.id {
                self.worker_device = Some(graph_task.owner);
                let out = Self::thread_main(graph, graph_task, queue, graph_task.owner);
                self.worker_device = saved_device;
                outcomes.push(out);
            } else {
                rest.push(id);
            }
            k = k + 1;
        }
        assert(initial.take(initial.len() as int) =~= initial);
        self.graphtasks_queue = rest;
        outcomes
    }

    /// Runs a backward pass from `root` with incoming gradient `grad_output`.
    /// With `accumulate_grad` the gradients of the requested leaves `inputs`
    /// are added into their parameters' gradients; otherwise the gradient
    /// arriving on each edge of `inputs` is captured, in order, as the
    /// result. Called outside any worker, the pass runs to its end and its
    /// future holds either the result or the error.
    pub fn execute(
        &mut self,
        graph: &Graph,
        root: usize,
        grad_output: i64,
        accumulate_grad: bool,
        inputs: &Vec<Edge>,
    ) -> (r: (GraphTask, Option<ThreadOutcome>))
        requires
            graph.wf(),
            root < graph.nodes@.len(),
            forall|k: int| 0 <= k < inputs@.len() ==> #[trigger] inputs@[k].function < graph.nodes@.len(),
        ensures
            task_wf(graph, &r.0),
            forall|i: int|
                0 <= i < graph.nodes@.len() ==> planned_entry(
                    graph.nodes@,
                    inputs@,
                    accumulate_grad,
                    root as int,
                    min_rank(graph.nodes@, inputs@, inputs@.len() as int),
                    i,
                    #[trigger] r.0.exec_info@[i],
                ),
            old(self).worker_device is None ==> r.1 is Some && r.0.future_completed && !(r.0.future_result is Pending),
            r.1 matches Some(o) ==> o.evaluated@.no_duplicates() && ranks_non_increasing(graph, o.evaluated@),
            old(self).worker_device is None ==> failure_explained(graph, &r.0, r.1->Some_0.evaluated@),
            old(self).worker_device is None && !r.0.has_error ==> forall|c: int|
                0 <= c < graph.nodes@.len() && #[trigger] r.0.dispatched@[c] ==> r.1->Some_0.evaluated@.contains(c as usize),
            forall|i: int| 0 <= i < graph.nodes@.len() && !plan_needs(&r.0, i) ==> (#[trigger] r.0.leaf_grads@[i]) is None,
            final(self).worker_device == old(self).worker_device,
    {
        let n = graph.nodes.len();
        let mut gt = GraphTask::new(0, n, CPU_DEVICE, false);
        gt.compute_dependencies(graph, root);
        let mut min_topo_nr: u64 = u64::MAX;
        let mut k: usize = 0;
        while k < inputs.len()
            invariant
                k <= inputs@.len(),
                forall|j: int| 0 <= j < inputs@.len() ==> #[trigger] inputs@[j].function < graph.nodes@.len(),
                min_topo_nr == min_rank(graph.nodes@, inputs@, k as int),
            decreases inputs@.len() - k,
        {
            let t = graph.nodes[inputs[k].function].topological_nr;
            if t < min_topo_nr {
                min_topo_nr = t;
            }
            k = k + 1;
        }
        gt.init_to_execute(graph, root, inputs, accumulate_grad, min_topo_nr);
        let mut queue = ReadyQueue::new();
        let mut buffer = InputBuffer::new(1);
        let _ = buffer.add(0, grad_output);
        assert(gt.dispatched@ =~= Seq::new(n as nat, |i: int| false));
        proof {
            lemma_count_false_all(n as nat);
        }
        let out = self.execute_with_graph_task(graph, &mut gt, &mut queue, root, buffer);
        (gt, out)
    }
}

} // verus!
