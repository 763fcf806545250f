//! The graph during a run: which nodes are computed, which are out as tasks,
//! and which become ready when a result comes in.

use crate::ciphertext::{share, Ciphertext};
use crate::graph::{
    edges_in_range, has_cycle, has_edge, incoming, is_source, lemma_incoming_from, lemma_outgoing_from,
    outgoing, Edge, Node, NodeGraph, NodeState, MAX_NODE_COUNT,
};
use crate::priority::{
    adjacency_matches, build_adjacency, compute_priorities, lemma_descending_is_acyclic,
    priorities_correct, Priority,
};
use crate::task::{IndexedCt, IndexedCtsAndLut};
use crate::term_list::TermList;
use std::sync::Arc;
use vstd::prelude::*;

verus! {

/// Why the graph refused an operation.
#[derive(Clone, Copy, Debug, PartialEq, Eq, Structural)]
pub enum GraphError {
    /// The edges form a cycle.
    Cyclic,
    /// There is no node with this index.
    NodeOutOfRange { index: usize },
    /// The node at `index` is in state `actual` where `expected` is needed.
    UnexpectedState { index: usize, expected: NodeState, actual: NodeState },
}

/// How many of the nodes are not computed.
pub open spec fn count_not_computed(nodes: Seq<Node>) -> nat
    decreases nodes.len(),
{
    if nodes.len() == 0 {
        0
    } else {
        count_not_computed(nodes.drop_last()) + if nodes.last() is Computed { 0nat } else { 1nat }
    }
}

/// Every node is computed.
pub open spec fn all_computed(nodes: Seq<Node>) -> bool {
    forall|v: int| 0 <= v < nodes.len() ==> #[trigger] nodes[v] is Computed
}

/// All predecessors of `v` are computed.
pub open spec fn predecessors_computed(nodes: Seq<Node>, edges: Seq<Edge>, v: int) -> bool {
    forall|e: int| 0 <= e < edges.len() && (#[trigger] edges[e]).target == v ==> nodes[edges[e].source as int] is Computed
}

/// The weight of edge `e` and the ciphertext at its source.
pub open spec fn edge_term(nodes: Seq<Node>, edges: Seq<Edge>, e: usize) -> (u64, Arc<Ciphertext>) {
    (edges[e as int].weight, nodes[edges[e as int].source as int]->Computed_0)
}

/// What a task for `v` carries: one term for every edge that arrives at `v`,
/// the edge added last first.
pub open spec fn predecessor_terms(nodes: Seq<Node>, edges: Seq<Edge>, v: int) -> Seq<(u64, Arc<Ciphertext>)> {
    incoming(edges, v).map_values(|e: usize| edge_term(nodes, edges, e))
}

/// The sources of the edges that arrive at `v`, the edge added last first.
pub open spec fn predecessors(edges: Seq<Edge>, v: int) -> Seq<usize> {
    incoming(edges, v).map_values(|e: usize| edges[e as int].source)
}

/// The targets of the edges that leave `v`, the edge added last first.
pub open spec fn successors(edges: Seq<Edge>, v: int) -> Seq<usize> {
    outgoing(edges, v).map_values(|e: usize| edges[e as int].target)
}

/// `at` is the first node of `list` that is not in the state `wanted`.
pub open spec fn is_first_not_in_state(nodes: Seq<Node>, list: Seq<usize>, wanted: NodeState, at: usize) -> bool {
    exists|j: int|
        {
            &&& 0 <= j < list.len()
            &&& #[trigger] list[j] == at
            &&& nodes[list[j] as int].state() != wanted
            &&& forall|i: int| 0 <= i < j ==> nodes[#[trigger] list[i] as int].state() == wanted
        }
}

/// The graph takes a result for the node at `index`: the node is out as a
/// task, and every successor of it still waits to be computed.
pub open spec fn accepts_result(nodes: Seq<Node>, edges: Seq<Edge>, index: int) -> bool {
    &&& 0 <= index < nodes.len()
    &&& nodes[index] is BootstrapQueued
    &&& forall|e: int| 0 <= e < edges.len() && (#[trigger] edges[e]).source == index ==> nodes[edges[e].target as int] is ToCompute
}

/// Node `v` waits to be computed and nothing it needs is missing.
pub open spec fn is_ready(nodes: Seq<Node>, edges: Seq<Edge>, v: int) -> bool {
    nodes[v] is ToCompute && predecessors_computed(nodes, edges, v)
}

/// A graph as a run starts with it: inputs are computed, every other node is
/// still to compute.
pub open spec fn well_formed_at_start(nodes: Seq<Node>, edges: Seq<Edge>) -> bool {
    forall|v: int| 0 <= v < nodes.len() ==> if is_source(edges, v) {
        #[trigger] nodes[v] is Computed
    } else {
        nodes[v] is ToCompute
    }
}

/// A graph that can be finished: every input is computed.
pub open spec fn finishable(nodes: Seq<Node>, edges: Seq<Edge>) -> bool {
    forall|v: int| 0 <= v < nodes.len() && is_source(edges, v) ==> #[trigger] nodes[v] is Computed
}

/// The state of a run between two calls: inputs are computed, and a node
/// waits to be computed exactly as long as one of its predecessors is
/// missing.
pub open spec fn in_progress(nodes: Seq<Node>, edges: Seq<Edge>) -> bool {
    &&& finishable(nodes, edges)
    &&& forall|v: int| 0 <= v < nodes.len() ==> (#[trigger] nodes[v] is ToCompute <==> !predecessors_computed(nodes, edges, v))
}

/// There are no more nodes that are not computed than there are nodes, and
/// none exactly if all are computed.
pub proof fn lemma_count_not_computed_bound(nodes: Seq<Node>)
    ensures
        count_not_computed(nodes) <= nodes.len(),
        count_not_computed(nodes) == 0 <==> all_computed(nodes),
    decreases nodes.len(),
{
    if nodes.len() > 0 {
        lemma_count_not_computed_bound(nodes.drop_last());
        if count_not_computed(nodes) == 0 {
            assert forall|v: int| 0 <= v < nodes.len() implies #[trigger] nodes[v] is Computed by {
                if v < nodes.len() - 1 {
                    assert(nodes.drop_last()[v] is Computed);
                }
            }
        }
        if all_computed(nodes) {
            assert forall|v: int| 0 <= v < nodes.drop_last().len() implies #[trigger] nodes.drop_last()[v] is Computed by {
                assert(nodes[v] is Computed);
            }
        }
    }
}

/// Replacing a node changes the number of nodes that are not computed by
/// what the two nodes count for.
pub proof fn lemma_count_not_computed_update(nodes: Seq<Node>, v: int, node: Node)
    requires
        0 <= v < nodes.len(),
    ensures
        count_not_computed(nodes.update(v, node)) + (if nodes[v] is Computed { 0int } else { 1int })
            == count_not_computed(nodes) + (if node is Computed { 0int } else { 1int }),
    decreases nodes.len(),
{
    let after = nodes.update(v, node);
    if v == nodes.len() - 1 {
        assert(after.drop_last() =~= nodes.drop_last());
    } else {
        lemma_count_not_computed_update(nodes.drop_last(), v, node);
        assert(after.drop_last() =~= nodes.drop_last().update(v, node));
    }
}

/// `task` is the task for node `v` of a graph with these nodes, edges and
/// priorities: it carries the terms of `v`, the lookup table of `v`, and
/// comes with the priority of `v`.
pub open spec fn is_task_for(
    task: (Priority, IndexedCtsAndLut),
    nodes: Seq<Node>,
    edges: Seq<Edge>,
    priorities: Seq<i32>,
    v: int,
) -> bool {
    &&& task.1.index == v
    &&& task.1.cts_and_weights@ == predecessor_terms(nodes, edges, v)
    &&& nodes[v] matches Node::ToCompute { lookup_table } && task.1.lut == lookup_table
    &&& task.0.0 == priorities[v]
}

/// `tasks` are the tasks for the nodes `targets`, one for one.
pub open spec fn tasks_match(
    tasks: Seq<(Priority, IndexedCtsAndLut)>,
    targets: Seq<int>,
    nodes: Seq<Node>,
    edges: Seq<Edge>,
    priorities: Seq<i32>,
) -> bool {
    &&& tasks.len() == targets.len()
    &&& forall|i: int| 0 <= i < tasks.len() ==> is_task_for(#[trigger] tasks[i], nodes, edges, priorities, targets[i])
}

/// The nodes after those in `targets` were handed out as tasks.
pub open spec fn queue_all(nodes: Seq<Node>, targets: Seq<int>) -> Seq<Node> {
    Seq::new(
        nodes.len(),
        |u: int| if targets.contains(u) {
            Node::BootstrapQueued
        } else {
            nodes[u]
        },
    )
}

/// The ready nodes below `k`, in rising order.
pub open spec fn ready_nodes(nodes: Seq<Node>, edges: Seq<Edge>, k: int) -> Seq<int>
    decreases k,
{
    if k <= 0 {
        Seq::empty()
    } else if is_ready(nodes, edges, k - 1) {
        ready_nodes(nodes, edges, k - 1).push(k - 1)
    } else {
        ready_nodes(nodes, edges, k - 1)
    }
}

/// The ready nodes among the targets of the first `k` edges of `out`, each
/// once, in the order in which `out` first reaches them.
pub open spec fn ready_successors(nodes: Seq<Node>, edges: Seq<Edge>, out: Seq<usize>, k: int) -> Seq<int>
    decreases k,
{
    if k <= 0 {
        Seq::empty()
    } else {
        let before = ready_successors(nodes, edges, out, k - 1);
        let s = edges[out[k - 1] as int].target as int;
        if is_ready(nodes, edges, s) && !before.contains(s) {
            before.push(s)
        } else {
            before
        }
    }
}

/// `ready_nodes` holds, each once, exactly the ready nodes below `k`.
pub proof fn lemma_ready_nodes(nodes: Seq<Node>, edges: Seq<Edge>, k: int)
    ensures
        forall|v: int| #[trigger] ready_nodes(nodes, edges, k).contains(v) <==> 0 <= v < k && is_ready(nodes, edges, v),
        ready_nodes(nodes, edges, k).no_duplicates(),
    decreases k,
{
    if k > 0 {
        lemma_ready_nodes(nodes, edges, k - 1);
        let before = ready_nodes(nodes, edges, k - 1);
        let now = ready_nodes(nodes, edges, k);
        assert forall|v: int| #[trigger] now.contains(v) <==> 0 <= v < k && is_ready(nodes, edges, v) by {
            assert(before.contains(v) <==> 0 <= v < k - 1 && is_ready(nodes, edges, v));
            if is_ready(nodes, edges, k - 1) {
                assert(now == before.push(k - 1));
                assert(now[before.len() as int] == k - 1);
                if now.contains(v) {
                    let i = choose|i: int| 0 <= i < now.len() && now[i] == v;
                    if i < before.len() {
                        assert(before[i] == v);
                    }
                }
                if before.contains(v) {
                    let i = choose|i: int| 0 <= i < before.len() && before[i] == v;
                    assert(now[i] == v);
                }
            }
        }
        if is_ready(nodes, edges, k - 1) {
            assert forall|i: int, j: int| 0 <= i < now.len() && 0 <= j < now.len() && i != j implies now[i] != now[j] by {
                if i < before.len() {
                    assert(before.contains(before[i]));
                }
                if j < before.len() {
                    assert(before.contains(before[j]));
                }
            }
        }
    }
}

/// Some edge among the first `k` of `out` arrives at `v`.
pub open spec fn reached_by(edges: Seq<Edge>, out: Seq<usize>, k: int, v: int) -> bool {
    exists|j: int| 0 <= j < k && edges[#[trigger] out[j] as int].target == v
}

/// `ready_successors` holds, each once, exactly the ready targets of the
/// first `k` edges of `out`.
pub proof fn lemma_ready_successors(nodes: Seq<Node>, edges: Seq<Edge>, out: Seq<usize>, k: int)
    requires
        0 <= k <= out.len(),
    ensures
        forall|v: int| #[trigger] ready_successors(nodes, edges, out, k).contains(v) <==> is_ready(nodes, edges, v) && reached_by(edges, out, k, v),
        ready_successors(nodes, edges, out, k).no_duplicates(),
    decreases k,
{
    if k > 0 {
        lemma_ready_successors(nodes, edges, out, k - 1);
        let before = ready_successors(nodes, edges, out, k - 1);
        let now = ready_successors(nodes, edges, out, k);
        let s = edges[out[k - 1] as int].target as int;
        assert forall|v: int| #[trigger] now.contains(v) <==> is_ready(nodes, edges, v) && reached_by(edges, out, k, v) by {
            assert(before.contains(v) <==> is_ready(nodes, edges, v) && reached_by(edges, out, k - 1, v));
            if reached_by(edges, out, k - 1, v) {
                let j = choose|j: int| 0 <= j < k - 1 && edges[#[trigger] out[j] as int].target == v;
                assert(0 <= j < k && edges[out[j] as int].target == v);
            }
            if reached_by(edges, out, k, v) && !reached_by(edges, out, k - 1, v) {
                let j = choose|j: int| 0 <= j < k && edges[#[trigger] out[j] as int].target == v;
                assert(j == k - 1);
            }
            if v == s {
                assert(edges[out[k - 1] as int].target == v);
            }
            if is_ready(nodes, edges, s) && !before.contains(s) {
                assert(now == before.push(s));
                assert(now[before.len() as int] == s);
                if now.contains(v) {
                    let i = choose|i: int| 0 <= i < now.len() && now[i] == v;
                    if i < before.len() {
                        assert(before[i] == v);
                    }
                }
                if before.contains(v) {
                    let i = choose|i: int| 0 <= i < before.len() && before[i] == v;
                    assert(now[i] == v);
                }
            }
        }
    }
}

/// Two lists of nodes that agree wherever either holds a computed node give
/// every node the same readiness and, where all predecessors are computed,
/// the same terms.
pub proof fn lemma_same_computed_nodes(first: Seq<Node>, second: Seq<Node>, edges: Seq<Edge>, v: int)
    requires
        first.len() == second.len(),
        edges_in_range(edges, first.len()),
        edges.len() <= usize::MAX,
        forall|u: int| 0 <= u < first.len() && (first[u] is Computed || second[u] is Computed) ==> #[trigger] first[u] == second[u],
    ensures
        predecessors_computed(first, edges, v) <==> predecessors_computed(second, edges, v),
        predecessors_computed(first, edges, v) ==> predecessor_terms(first, edges, v) == predecessor_terms(second, edges, v),
{
    if predecessors_computed(first, edges, v) {
        assert forall|e: int| 0 <= e < edges.len() && (#[trigger] edges[e]).target == v implies second[edges[e].source as int] is Computed by {
            assert(first[edges[e].source as int] == second[edges[e].source as int]);
        }
        lemma_incoming_from(edges, v, 0);
        let a = predecessor_terms(first, edges, v);
        let b = predecessor_terms(second, edges, v);
        assert forall|j: int| 0 <= j < a.len() implies a[j] == b[j] by {
            let e = incoming(edges, v)[j];
            assert(edges[e as int].target == v);
            assert(first[edges[e as int].source as int] == second[edges[e as int].source as int]);
        }
        assert(a =~= b);
    }
    if predecessors_computed(second, edges, v) {
        assert forall|e: int| 0 <= e < edges.len() && (#[trigger] edges[e]).target == v implies first[edges[e].source as int] is Computed by {
            assert(first[edges[e].source as int] == second[edges[e].source as int]);
        }
    }
}

/// What is computed stays: if all predecessors of `v` are computed and the
/// computed nodes are kept, `v` keeps its terms.
pub proof fn lemma_terms_persist(before: Seq<Node>, after: Seq<Node>, edges: Seq<Edge>, v: int)
    requires
        before.len() == after.len(),
        edges_in_range(edges, before.len()),
        edges.len() <= usize::MAX,
        forall|u: int| 0 <= u < before.len() && before[u] is Computed ==> #[trigger] after[u] == before[u],
        predecessors_computed(before, edges, v),
    ensures
        predecessors_computed(after, edges, v),
        predecessor_terms(after, edges, v) == predecessor_terms(before, edges, v),
{
    assert forall|e: int| 0 <= e < edges.len() && (#[trigger] edges[e]).target == v implies after[edges[e].source as int] is Computed by {
        assert(after[edges[e].source as int] == before[edges[e].source as int]);
    }
    lemma_incoming_from(edges, v, 0);
    let a = predecessor_terms(before, edges, v);
    let b = predecessor_terms(after, edges, v);
    assert forall|j: int| 0 <= j < a.len() implies a[j] == b[j] by {
        let e = incoming(edges, v)[j];
        assert(edges[e as int].target == v);
        assert(after[edges[e as int].source as int] == before[edges[e as int].source as int]);
    }
    assert(a =~= b);
}

/// Handing out nodes that are ready changes no computed node.
pub proof fn lemma_queue_all(nodes: Seq<Node>, edges: Seq<Edge>, targets: Seq<int>)
    requires
        forall|v: int| #[trigger] targets.contains(v) ==> 0 <= v < nodes.len() && is_ready(nodes, edges, v),
    ensures
        queue_all(nodes, targets).len() == nodes.len(),
        forall|u: int| 0 <= u < nodes.len() && !targets.contains(u) ==> #[trigger] queue_all(nodes, targets)[u] == nodes[u],
        forall|u: int| 0 <= u < nodes.len() && targets.contains(u) ==> #[trigger] queue_all(nodes, targets)[u] == Node::BootstrapQueued,
        forall|u: int| 0 <= u < nodes.len() && (nodes[u] is Computed || queue_all(nodes, targets)[u] is Computed) ==> #[trigger] queue_all(nodes, targets)[u] == nodes[u],
{
    let queued = queue_all(nodes, targets);
    assert forall|u: int| 0 <= u < nodes.len() && (nodes[u] is Computed || queued[u] is Computed) implies #[trigger] queued[u] == nodes[u] by {
        if targets.contains(u) {
            assert(is_ready(nodes, edges, u));
        }
    }
}

/// Handing out one more ready node is the same as handing out the longer
/// list.
pub proof fn lemma_queue_one_more(nodes: Seq<Node>, targets: Seq<int>, v: int)
    requires
        0 <= v < nodes.len(),
    ensures
        queue_all(nodes, targets).update(v, Node::BootstrapQueued) == queue_all(nodes, targets.push(v)),
{
    let longer = targets.push(v);
    assert(longer[targets.len() as int] == v);
    assert forall|u: int| longer.contains(u) <==> targets.contains(u) || u == v by {
        if targets.contains(u) {
            let i = choose|i: int| 0 <= i < targets.len() && targets[i] == u;
            assert(longer[i] == u);
        }
        if longer.contains(u) {
            let i = choose|i: int| 0 <= i < longer.len() && longer[i] == u;
            if i < targets.len() {
                assert(targets[i] == u);
            }
        }
    }
    assert(queue_all(nodes, targets).update(v, Node::BootstrapQueued) =~= queue_all(nodes, longer));
}

/// After the ready nodes of a graph at its start were handed out, the run is
/// in progress.
pub proof fn lemma_start_in_progress(nodes: Seq<Node>, edges: Seq<Edge>)
    requires
        edges_in_range(edges, nodes.len()),
        edges.len() <= usize::MAX,
        well_formed_at_start(nodes, edges),
    ensures
        in_progress(queue_all(nodes, ready_nodes(nodes, edges, nodes.len() as int)), edges),
{
    let targets = ready_nodes(nodes, edges, nodes.len() as int);
    let after = queue_all(nodes, targets);
    lemma_ready_nodes(nodes, edges, nodes.len() as int);
    assert forall|v: int| #[trigger] targets.contains(v) implies 0 <= v < nodes.len() && is_ready(nodes, edges, v) by {}
    lemma_queue_all(nodes, edges, targets);
    assert forall|v: int| 0 <= v < after.len() implies (#[trigger] after[v] is ToCompute <==> !predecessors_computed(after, edges, v)) by {
        lemma_same_computed_nodes(nodes, after, edges, v);
        assert(targets.contains(v) <==> is_ready(nodes, edges, v));
        if !targets.contains(v) {
            assert(after[v] == nodes[v]);
            if is_source(edges, v) {
                assert(nodes[v] is Computed);
            } else {
                assert(nodes[v] is ToCompute);
            }
        }
    }
    assert forall|v: int| 0 <= v < after.len() && is_source(edges, v) implies #[trigger] after[v] is Computed by {
        assert(nodes[v] is Computed);
        assert(!targets.contains(v));
    }
}

/// After a result was committed and the successors that became ready were
/// handed out, a run that was in progress still is; and every successor of
/// the committed node was waiting to be computed.
pub proof fn lemma_commit_in_progress(nodes: Seq<Node>, edges: Seq<Edge>, index: int, computed: Node)
    requires
        edges_in_range(edges, nodes.len()),
        edges.len() <= usize::MAX,
        0 <= index < nodes.len(),
        nodes[index] is BootstrapQueued,
        computed is Computed,
        in_progress(nodes, edges),
    ensures
        forall|e: int| 0 <= e < edges.len() && (#[trigger] edges[e]).source == index ==> nodes[edges[e].target as int] is ToCompute,
        ({
            let mid = nodes.update(index, computed);
            let out = outgoing(edges, index);
            in_progress(queue_all(mid, ready_successors(mid, edges, out, out.len() as int)), edges)
        }),
{
    let mid = nodes.update(index, computed);
    let out = outgoing(edges, index);
    let targets = ready_successors(mid, edges, out, out.len() as int);
    let after = queue_all(mid, targets);
    lemma_outgoing_from(edges, index, 0);
    lemma_ready_successors(mid, edges, out, out.len() as int);
    assert forall|e: int| 0 <= e < edges.len() && (#[trigger] edges[e]).source == index implies nodes[edges[e].target as int] is ToCompute by {
        let s = edges[e].target as int;
        assert(!predecessors_computed(nodes, edges, s));
        assert(nodes[s] is ToCompute <==> !predecessors_computed(nodes, edges, s));
    }
    assert forall|v: int| #[trigger] targets.contains(v) implies 0 <= v < mid.len() && is_ready(mid, edges, v) by {
        assert(reached_by(edges, out, out.len() as int, v));
        let j = choose|j: int| 0 <= j < out.len() && edges[#[trigger] out[j] as int].target == v;
        assert(out[j] < edges.len());
    }
    lemma_queue_all(mid, edges, targets);
    assert forall|v: int| 0 <= v < after.len() implies (#[trigger] after[v] is ToCompute <==> !predecessors_computed(after, edges, v)) by {
        lemma_same_computed_nodes(mid, after, edges, v);
        assert(nodes[v] is ToCompute <==> !predecessors_computed(nodes, edges, v));
        assert(targets.contains(v) <==> is_ready(mid, edges, v) && reached_by(edges, out, out.len() as int, v));
        if predecessors_computed(nodes, edges, v) {
            assert forall|e: int| 0 <= e < edges.len() && (#[trigger] edges[e]).target == v implies mid[edges[e].source as int] is Computed by {
                assert(nodes[edges[e].source as int] is Computed);
            }
        }
        if v != index && !targets.contains(v) && nodes[v] is ToCompute {
            assert(after[v] == mid[v]);
            if predecessors_computed(mid, edges, v) {
                assert(is_ready(mid, edges, v));
                assert(!reached_by(edges, out, out.len() as int, v));
                let e = choose|e: int| 0 <= e < edges.len() && (#[trigger] edges[e]).target == v && !(nodes[edges[e].source as int] is Computed);
                assert(mid[edges[e].source as int] is Computed);
                assert(edges[e].source == index);
                assert(out.contains(e as usize));
                let j = choose|j: int| 0 <= j < out.len() && out[j] == e as usize;
                assert(edges[out[j] as int].target == v);
                assert(false);
            }
        }
    }
    assert forall|v: int| 0 <= v < after.len() && is_source(edges, v) implies #[trigger] after[v] is Computed by {
        assert(nodes[v] is Computed);
        assert(mid[v] is Computed);
    }
}

/// Among the first `k` nodes, one that is not computed and has the highest
/// priority of those.
pub proof fn highest_pending(nodes: Seq<Node>, priorities: Seq<i32>, k: int) -> (u: int)
    requires
        0 <= k <= nodes.len(),
        exists|v: int| 0 <= v < k && !(#[trigger] nodes[v] is Computed),
    ensures
        0 <= u < k,
        !(nodes[u] is Computed),
        forall|v: int| 0 <= v < k && !(#[trigger] nodes[v] is Computed) ==> priorities[v] <= priorities[u],
    decreases k,
{
    if exists|v: int| 0 <= v < k - 1 && !(#[trigger] nodes[v] is Computed) {
        let before = highest_pending(nodes, priorities, k - 1);
        if !(nodes[k - 1] is Computed) && priorities[k - 1] > priorities[before] {
            k - 1
        } else {
            before
        }
    } else {
        let v = choose|v: int| 0 <= v < k && !(#[trigger] nodes[v] is Computed);
        assert(v == k - 1);
        k - 1
    }
}

/// A run in progress that is not finished has a node that is out as a task:
/// of the nodes that are not computed, one with the highest priority has all
/// its predecessors computed, so it does not wait any more.
pub proof fn lemma_pending_run_has_queued_node(nodes: Seq<Node>, edges: Seq<Edge>, priorities: Seq<i32>) -> (u: int)
    requires
        priorities.len() == nodes.len(),
        edges_in_range(edges, nodes.len()),
        forall|e: int| 0 <= e < edges.len() ==> priorities[(#[trigger] edges[e]).source as int] > priorities[edges[e].target as int],
        in_progress(nodes, edges),
        !all_computed(nodes),
    ensures
        0 <= u < nodes.len(),
        nodes[u] is BootstrapQueued,
{
    let w = choose|v: int| 0 <= v < nodes.len() && !(#[trigger] nodes[v] is Computed);
    let u = highest_pending(nodes, priorities, nodes.len() as int);
    assert forall|e: int| 0 <= e < edges.len() && (#[trigger] edges[e]).target == u implies nodes[edges[e].source as int] is Computed by {
        let p = edges[e].source as int;
        assert(priorities[p] > priorities[u]);
        if !(nodes[p] is Computed) {
            assert(priorities[p] <= priorities[u]);
        }
    }
    assert(nodes[u] is ToCompute <==> !predecessors_computed(nodes, edges, u));
    u
}

/// What a commit changes: the committed node becomes computed, successors
/// that were waiting may become queued, and nothing else happens; no node
/// that was computed is touched.
pub proof fn lemma_commit_changes(nodes: Seq<Node>, edges: Seq<Edge>, index: int, computed: Node)
    requires
        edges_in_range(edges, nodes.len()),
        edges.len() <= usize::MAX,
        0 <= index < nodes.len(),
        !(nodes[index] is Computed),
        computed is Computed,
    ensures
        ({
            let mid = nodes.update(index, computed);
            let out = outgoing(edges, index);
            let after = queue_all(mid, ready_successors(mid, edges, out, out.len() as int));
            &&& after.len() == nodes.len()
            &&& after[index] == computed
            &&& forall|v: int| 0 <= v < nodes.len() && nodes[v] is Computed ==> #[trigger] after[v] == nodes[v]
            &&& forall|v: int| 0 <= v < nodes.len() && v != index && after[v] is Computed ==> #[trigger] nodes[v] is Computed
        }),
{
    let mid = nodes.update(index, computed);
    let out = outgoing(edges, index);
    let targets = ready_successors(mid, edges, out, out.len() as int);
    lemma_outgoing_from(edges, index, 0);
    lemma_ready_successors(mid, edges, out, out.len() as int);
    assert forall|v: int| #[trigger] targets.contains(v) implies 0 <= v < mid.len() && is_ready(mid, edges, v) by {
        assert(reached_by(edges, out, out.len() as int, v));
        let j = choose|j: int| 0 <= j < out.len() && edges[#[trigger] out[j] as int].target == v;
        assert(out[j] < edges.len());
    }
    lemma_queue_all(mid, edges, targets);
    assert(!targets.contains(index));
}

/// A node is an input exactly if no edge is listed as arriving at it.
pub proof fn lemma_source_iff_no_incoming(edges: Seq<Edge>, v: int)
    requires
        edges.len() <= usize::MAX,
    ensures
        is_source(edges, v) <==> incoming(edges, v).len() == 0,
{
    lemma_incoming_from(edges, v, 0);
    if incoming(edges, v).len() != 0 {
        let e = incoming(edges, v)[0];
        assert(edges[e as int].target == v);
    }
    if !is_source(edges, v) {
        let e = choose|e: int| 0 <= e < edges.len() && (#[trigger] edges[e]).target == v;
        assert(incoming(edges, v).contains(e as usize));
    }
}

/// The state that a graph at its start asks of node `v`.
pub open spec fn state_at_start(edges: Seq<Edge>, v: int) -> NodeState {
    if is_source(edges, v) {
        NodeState::Computed
    } else {
        NodeState::ToCompute
    }
}

/// A computation graph with the priority of every node and the number of
/// nodes that are not computed yet.
pub struct FheGraph {
    nodes: Vec<Node>,
    priorities: Vec<i32>,
    edges: Vec<Edge>,
    incoming_lists: Vec<Vec<usize>>,
    outgoing_lists: Vec<Vec<usize>>,
    not_computed_nodes_count: usize,
}

impl FheGraph {
    /// The nodes, by index.
    pub closed spec fn nodes(&self) -> Seq<Node> {
        self.nodes@
    }

    /// The edges, in the order in which they were added.
    pub closed spec fn edges(&self) -> Seq<Edge> {
        self.edges@
    }

    /// The priority of every node.
    pub closed spec fn priorities(&self) -> Seq<i32> {
        self.priorities@
    }

    /// The count that is kept of the nodes that are not computed.
    pub closed spec fn not_computed(&self) -> nat {
        self.not_computed_nodes_count as nat
    }

    /// What holds of every graph this module hands out.
    pub closed spec fn wf(&self) -> bool {
        &&& self.nodes@.len() <= MAX_NODE_COUNT
        &&& self.priorities@.len() == self.nodes@.len()
        &&& self.incoming_lists@.len() == self.nodes@.len()
        &&& edges_in_range(self.edges@, self.nodes@.len())
        &&& adjacency_matches(self.incoming_lists@, self.outgoing_lists@, self.edges@)
        &&& priorities_correct(self.edges@, self.priorities@)
        &&& forall|e: int| 0 <= e < self.edges@.len() ==> self.priorities@[(#[trigger] self.edges@[e]).source as int] > self.priorities@[self.edges@[e].target as int]
        &&& self.not_computed_nodes_count == count_not_computed(self.nodes@)
    }

    /// What `wf` promises to the outside.
    pub proof fn lemma_wf(&self)
        requires
            self.wf(),
        ensures
            self.nodes().len() <= MAX_NODE_COUNT,
            self.priorities().len() == self.nodes().len(),
            edges_in_range(self.edges(), self.nodes().len()),
            !has_cycle(self.edges()),
            priorities_correct(self.edges(), self.priorities()),
            forall|e: int| 0 <= e < self.edges().len() ==> self.priorities()[(#[trigger] self.edges()[e]).source as int] > self.priorities()[self.edges()[e].target as int],
            self.not_computed() == count_not_computed(self.nodes()),
            self.nodes().len() <= usize::MAX,
            self.edges().len() <= usize::MAX,
    {
        lemma_descending_is_acyclic(self.edges@, self.priorities@);
        assert(self.edges.len() == self.edges@.len());
    }

    /// Takes a graph over and gives every node its priority: one more than
    /// the largest priority among its successors, and one where there is no
    /// successor.  A graph with a cycle is refused.
    pub fn new(graph: NodeGraph) -> (r: Result<FheGraph, GraphError>)
        requires
            graph.wf(),
        ensures
            match r {
                Ok(g) => {
                    &&& !has_cycle(graph.edges())
                    &&& g.wf()
                    &&& g.nodes() == graph.nodes()
                    &&& g.edges() == graph.edges()
                    &&& priorities_correct(g.edges(), g.priorities())
                    &&& g.priorities().len() == g.nodes().len()
                    &&& g.not_computed() == count_not_computed(graph.nodes())
                },
                Err(e) => e == GraphError::Cyclic && has_cycle(graph.edges()),
            },
    {
        let (nodes, edges) = graph.into_parts();
        let mut not_computed_nodes_count: usize = 0;
        let mut v: usize = 0;
        while v < nodes.len()
            invariant
                v <= nodes@.len(),
                not_computed_nodes_count == count_not_computed(nodes@.take(v as int)),
                not_computed_nodes_count <= v,
            decreases nodes@.len() - v,
        {
            proof {
                assert(nodes@.take(v + 1).drop_last() =~= nodes@.take(v as int));
            }
            if !nodes[v].is_computed() {
                not_computed_nodes_count += 1;
            }
            v += 1;
        }
        proof {
            assert(nodes@.take(nodes@.len() as int) =~= nodes@);
        }
        let (incoming_lists, outgoing_lists) = build_adjacency(nodes.len(), &edges);
        match compute_priorities(&edges, &incoming_lists, &outgoing_lists) {
            Some(priorities) => Ok(
                FheGraph { nodes, priorities, edges, incoming_lists, outgoing_lists, not_computed_nodes_count },
            ),
            None => Err(GraphError::Cyclic),
        }
    }

    /// Checks that the graph is as a run starts with it: every input
    /// computed, every other node still to compute.  The error names the
    /// first node that is not.
    pub fn test_graph_init(&self) -> (r: Result<(), GraphError>)
        requires
            self.wf(),
        ensures
            r is Ok <==> well_formed_at_start(self.nodes(), self.edges()),
            r matches Err(e) ==> {
                &&& e matches GraphError::UnexpectedState { index, expected, actual }
                &&& index < self.nodes().len()
                &&& expected == state_at_start(self.edges(), index as int)
                &&& actual == self.nodes()[index as int].state()
                &&& actual != expected
                &&& forall|u: int| 0 <= u < index ==> (#[trigger] self.nodes()[u]).state() == state_at_start(self.edges(), u)
            },
    {
        let n = self.nodes.len();
        let edge_count = self.edges.len();
        let mut v: usize = 0;
        while v < n
            invariant
                v <= n,
                n == self.nodes@.len(),
                edge_count == self.edges@.len(),
                self.wf(),
                forall|u: int| 0 <= u < v ==> (#[trigger] self.nodes@[u]).state() == state_at_start(self.edges@, u),
            decreases n - v,
        {
            proof {
                lemma_source_iff_no_incoming(self.edges@, v as int);
            }
            let expected = if self.incoming_lists[v].len() == 0 {
                NodeState::Computed
            } else {
                NodeState::ToCompute
            };
            let actual = self.nodes[v].state();
            if actual != expected {
                return Err(GraphError::UnexpectedState { index: v, expected, actual });
            }
            v += 1;
        }
        Ok(())
    }

    /// Checks that every input is computed, which a run needs to finish.  The
    /// error names the first input that is not.
    pub fn assert_finishable(&self) -> (r: Result<(), GraphError>)
        requires
            self.wf(),
        ensures
            r is Ok <==> finishable(self.nodes(), self.edges()),
            r matches Err(e) ==> {
                &&& e matches GraphError::UnexpectedState { index, expected, actual }
                &&& index < self.nodes().len()
                &&& is_source(self.edges(), index as int)
                &&& expected == NodeState::Computed
                &&& actual == self.nodes()[index as int].state()
                &&& actual != expected
                &&& forall|u: int| 0 <= u < index && is_source(self.edges(), u) ==> #[trigger] self.nodes()[u] is Computed
            },
    {
        let n = self.nodes.len();
        let edge_count = self.edges.len();
        let mut v: usize = 0;
        while v < n
            invariant
                v <= n,
                n == self.nodes@.len(),
                edge_count == self.edges@.len(),
                self.wf(),
                forall|u: int| 0 <= u < v && is_source(self.edges@, u) ==> #[trigger] self.nodes@[u] is Computed,
            decreases n - v,
        {
            proof {
                lemma_source_iff_no_incoming(self.edges@, v as int);
            }
            if self.incoming_lists[v].len() == 0 {
                let actual = self.nodes[v].state();
                if actual != NodeState::Computed {
                    return Err(GraphError::UnexpectedState { index: v, expected: NodeState::Computed, actual });
                }
            }
            v += 1;
        }
        Ok(())
    }

    /// True if every predecessor of the node at `index` is computed.
    pub fn all_predecessors_computed(&self, index: usize) -> (r: bool)
        requires
            self.wf(),
            index < self.nodes().len(),
        ensures
            r == predecessors_computed(self.nodes(), self.edges(), index as int),
    {
        let edge_count = self.edges.len();
        let predecessors = &self.incoming_lists[index];
        proof {
            lemma_incoming_from(self.edges@, index as int, 0);
        }
        let mut k: usize = 0;
        while k < predecessors.len()
            invariant
                k <= predecessors@.len(),
                self.wf(),
                index < self.nodes@.len(),
                predecessors@ == incoming(self.edges@, index as int),
                forall|j: int| 0 <= j < predecessors@.len() ==> (#[trigger] predecessors@[j]) < self.edges@.len() && self.edges@[predecessors@[j] as int].target == index,
                forall|j: int| 0 <= j < k ==> self.nodes@[self.edges@[#[trigger] predecessors@[j] as int].source as int] is Computed,
            decreases predecessors@.len() - k,
        {
            let source = self.edges[predecessors[k]].source;
            if !self.nodes[source].is_computed() {
                assert(self.edges@[predecessors@[k as int] as int].target == index);
                return false;
            }
            k += 1;
        }
        proof {
            assert forall|e: int| 0 <= e < self.edges@.len() && (#[trigger] self.edges@[e]).target == index implies self.nodes@[self.edges@[e].source as int] is Computed by {
                assert(predecessors@.contains(e as usize));
                let j = choose|j: int| 0 <= j < predecessors@.len() && predecessors@[j] == e as usize;
                assert(self.nodes@[self.edges@[predecessors@[j] as int].source as int] is Computed);
            }
        }
        true
    }

    /// The weight and the ciphertext for every edge that arrives at the node
    /// at `index`, the edge added last first.  Fails, and names the
    /// predecessor, as soon as one is met that is not computed.
    pub fn predecessors_list(&self, index: usize) -> (r: Result<TermList, GraphError>)
        requires
            self.wf(),
        ensures
            match r {
                Ok(list) => {
                    &&& index < self.nodes().len()
                    &&& predecessors_computed(self.nodes(), self.edges(), index as int)
                    &&& list@ == predecessor_terms(self.nodes(), self.edges(), index as int)
                },
                Err(GraphError::NodeOutOfRange { index: at }) => at == index && index >= self.nodes().len(),
                Err(GraphError::UnexpectedState { index: at, expected, actual }) => {
                    &&& index < self.nodes().len()
                    &&& at < self.nodes().len()
                    &&& has_edge(self.edges(), at as int, index as int)
                    &&& !predecessors_computed(self.nodes(), self.edges(), index as int)
                    &&& is_first_not_in_state(
                        self.nodes(),
                        predecessors(self.edges(), index as int),
                        NodeState::Computed,
                        at,
                    )
                    &&& expected == NodeState::Computed
                    &&& actual == self.nodes()[at as int].state()
                    &&& actual != expected
                },
                Err(GraphError::Cyclic) => false,
            },
    {
        if index >= self.nodes.len() {
            return Err(GraphError::NodeOutOfRange { index });
        }
        let edge_count = self.edges.len();
        let predecessors = &self.incoming_lists[index];
        proof {
            lemma_incoming_from(self.edges@, index as int, 0);
        }
        let mut list = TermList::new();
        let mut k: usize = 0;
        while k < predecessors.len()
            invariant
                k <= predecessors@.len(),
                self.wf(),
                index < self.nodes@.len(),
                predecessors@ == incoming(self.edges@, index as int),
                forall|j: int| 0 <= j < predecessors@.len() ==> (#[trigger] predecessors@[j]) < self.edges@.len() && self.edges@[predecessors@[j] as int].target == index,
                list@.len() == k,
                forall|j: int| 0 <= j < k ==> #[trigger] list@[j] == edge_term(self.nodes@, self.edges@, predecessors@[j]),
                forall|j: int| 0 <= j < k ==> self.nodes@[self.edges@[#[trigger] predecessors@[j] as int].source as int] is Computed,
            decreases predecessors@.len() - k,
        {
            let edge = self.edges[predecessors[k]];
            let node = &self.nodes[edge.source];
            match node.ct() {
                Some(ct) => {
                    list.push((edge.weight, share(ct)));
                },
                None => {
                    assert(self.edges@[predecessors@[k as int] as int].target == index);
                    proof {
                        let list = crate::fhe_graph::predecessors(self.edges@, index as int);
                        assert(list[k as int] == edge.source);
                        assert forall|i: int| 0 <= i < k implies self.nodes@[#[trigger] list[i] as int].state() == NodeState::Computed by {
                            assert(self.nodes@[self.edges@[predecessors@[i] as int].source as int] is Computed);
                        }
                    }
                    return Err(
                        GraphError::UnexpectedState {
                            index: edge.source,
                            expected: NodeState::Computed,
                            actual: node.state(),
                        },
                    );
                },
            }
            k += 1;
        }
        proof {
            assert forall|e: int| 0 <= e < self.edges@.len() && (#[trigger] self.edges@[e]).target == index implies self.nodes@[self.edges@[e].source as int] is Computed by {
                assert(predecessors@.contains(e as usize));
                let j = choose|j: int| 0 <= j < predecessors@.len() && predecessors@[j] == e as usize;
                assert(self.nodes@[self.edges@[predecessors@[j] as int].source as int] is Computed);
            }
            assert(list@ =~= predecessor_terms(self.nodes@, self.edges@, index as int));
        }
        Ok(list)
    }

    /// Hands the node at `index` out: gathers the terms of its predecessors
    /// and its lookup table into a task, and marks the node as queued so that
    /// it is handed out only once.  Fails, and leaves the graph as it was, if
    /// a predecessor is not computed or the node does not wait to be computed.
    pub fn build_task(&mut self, index: usize) -> (r: Result<(Priority, IndexedCtsAndLut), GraphError>)
        requires
            old(self).wf(),
        ensures
            final(self).wf(),
            final(self).edges() == old(self).edges(),
            final(self).priorities() == old(self).priorities(),
            final(self).not_computed() == old(self).not_computed(),
            match r {
                Ok(task) => {
                    &&& index < old(self).nodes().len()
                    &&& is_ready(old(self).nodes(), old(self).edges(), index as int)
                    &&& is_task_for(task, old(self).nodes(), old(self).edges(), old(self).priorities(), index as int)
                    &&& final(self).nodes() == old(self).nodes().update(index as int, Node::BootstrapQueued)
                },
                Err(e) => {
                    &&& final(self).nodes() == old(self).nodes()
                    &&& match e {
                        GraphError::NodeOutOfRange { index: at } => at == index && index >= old(self).nodes().len(),
                        GraphError::UnexpectedState { index: at, expected, actual } => {
                            &&& index < old(self).nodes().len()
                            &&& at < old(self).nodes().len()
                            &&& actual == old(self).nodes()[at as int].state()
                            &&& actual != expected
                            &&& if predecessors_computed(old(self).nodes(), old(self).edges(), index as int) {
                                at == index && expected == NodeState::ToCompute
                            } else {
                                &&& has_edge(old(self).edges(), at as int, index as int)
                                &&& is_first_not_in_state(
                                    old(self).nodes(),
                                    predecessors(old(self).edges(), index as int),
                                    NodeState::Computed,
                                    at,
                                )
                                &&& expected == NodeState::Computed
                            }
                        },
                        GraphError::Cyclic => false,
                    }
                },
            },
    {
        let cts_and_weights = match self.predecessors_list(index) {
            Ok(list) => list,
            Err(e) => {
                return Err(e);
            },
        };
        let lut = match &self.nodes[index] {
            Node::ToCompute { lookup_table } => *lookup_table,
            other => {
                return Err(
                    GraphError::UnexpectedState {
                        index,
                        expected: NodeState::ToCompute,
                        actual: other.state(),
                    },
                );
            },
        };
        proof {
            lemma_count_not_computed_update(self.nodes@, index as int, Node::BootstrapQueued);
        }
        self.nodes[index] = Node::BootstrapQueued;
        Ok((Priority(self.priorities[index]), IndexedCtsAndLut { index, cts_and_weights, lut }))
    }

    /// Starts a run: checks the graph as `test_graph_init` does, then hands
    /// out, by rising index, every node all of whose predecessors are
    /// computed.
    pub fn init(&mut self) -> (r: Result<Vec<(Priority, IndexedCtsAndLut)>, GraphError>)
        requires
            old(self).wf(),
        ensures
            final(self).wf(),
            final(self).edges() == old(self).edges(),
            final(self).priorities() == old(self).priorities(),
            final(self).not_computed() == old(self).not_computed(),
            match r {
                Ok(tasks) => {
                    let targets = ready_nodes(old(self).nodes(), old(self).edges(), old(self).nodes().len() as int);
                    &&& well_formed_at_start(old(self).nodes(), old(self).edges())
                    &&& tasks_match(tasks@, targets, old(self).nodes(), old(self).edges(), old(self).priorities())
                    &&& final(self).nodes() == queue_all(old(self).nodes(), targets)
                    &&& in_progress(final(self).nodes(), final(self).edges())
                },
                Err(e) => {
                    &&& !well_formed_at_start(old(self).nodes(), old(self).edges())
                    &&& final(self).nodes() == old(self).nodes()
                    &&& e matches GraphError::UnexpectedState { index, expected, actual }
                    &&& index < old(self).nodes().len()
                    &&& expected == state_at_start(old(self).edges(), index as int)
                    &&& actual == old(self).nodes()[index as int].state()
                    &&& actual != expected
                    &&& forall|u: int| 0 <= u < index ==> (#[trigger] old(self).nodes()[u]).state() == state_at_start(old(self).edges(), u)
                },
            },
    {
        match self.test_graph_init() {
            Ok(()) => {},
            Err(e) => {
                return Err(e);
            },
        }
        let n = self.nodes.len();
        let edge_count = self.edges.len();
        let mut tasks: Vec<(Priority, IndexedCtsAndLut)> = Vec::new();
        let mut v: usize = 0;
        proof {
            assert(self.nodes@ =~= queue_all(old(self).nodes@, ready_nodes(old(self).nodes@, self.edges@, 0)));
        }
        while v < n
            invariant
                v <= n,
                n == old(self).nodes@.len(),
                edge_count == self.edges@.len(),
                self.wf(),
                self.edges@ == old(self).edges@,
                self.priorities@ == old(self).priorities@,
                self.not_computed_nodes_count == old(self).not_computed_nodes_count,
                edges_in_range(self.edges@, n as nat),
                self.nodes@ == queue_all(old(self).nodes@, ready_nodes(old(self).nodes@, self.edges@, v as int)),
                tasks_match(tasks@, ready_nodes(old(self).nodes@, self.edges@, v as int), old(self).nodes@, self.edges@, self.priorities@),
            decreases n - v,
        {
            let ghost start = old(self).nodes@;
            let ghost targets = ready_nodes(start, self.edges@, v as int);
            proof {
                lemma_ready_nodes(start, self.edges@, v as int);
                assert forall|u: int| #[trigger] targets.contains(u) implies 0 <= u < start.len() && is_ready(start, self.edges@, u) by {}
                lemma_queue_all(start, self.edges@, targets);
                lemma_same_computed_nodes(start, self.nodes@, self.edges@, v as int);
                assert(!targets.contains(v as int));
            }
            let waits = match &self.nodes[v] {
                Node::ToCompute { .. } => true,
                _ => false,
            };
            if waits && self.all_predecessors_computed(v) {
                match self.build_task(v) {
                    Ok(task) => {
                        let ghost before = tasks@;
                        tasks.push(task);
                        proof {
                            lemma_queue_one_more(start, targets, v as int);
                            assert forall|i: int| 0 <= i < tasks@.len() implies is_task_for(
                                #[trigger] tasks@[i],
                                start,
                                self.edges@,
                                self.priorities@,
                                targets.push(v as int)[i],
                            ) by {
                                if i < before.len() {
                                    assert(is_task_for(before[i], start, self.edges@, self.priorities@, targets[i]));
                                }
                            }
                        }
                    },
                    Err(e) => {
                        return Err(e);
                    },
                }
            }
            v += 1;
        }
        proof {
            lemma_start_in_progress(old(self).nodes@, self.edges@);
        }
        Ok(tasks)
    }

    /// Takes the result for a queued node: the node becomes computed, and
    /// every successor that thereby has all its predecessors computed is
    /// handed out, in the order of the edges that lead to them, the edge
    /// added last first.  Fails, and leaves the graph as it was, if the node
    /// is not queued or a successor does not wait to be computed.
    pub fn commit_result(&mut self, result: IndexedCt) -> (r: Result<Vec<(Priority, IndexedCtsAndLut)>, GraphError>)
        requires
            old(self).wf(),
        ensures
            final(self).wf(),
            final(self).edges() == old(self).edges(),
            final(self).priorities() == old(self).priorities(),
            match r {
                Ok(tasks) => {
                    let index = result.index as int;
                    let mid = old(self).nodes().update(index, final(self).nodes()[index]);
                    let out = outgoing(old(self).edges(), index);
                    let targets = ready_successors(mid, old(self).edges(), out, out.len() as int);
                    &&& index < old(self).nodes().len()
                    &&& old(self).nodes()[index] is BootstrapQueued
                    &&& accepts_result(old(self).nodes(), old(self).edges(), index)
                    &&& final(self).nodes()[index] matches Node::Computed(ct) && *ct == result.ct
                    &&& tasks_match(tasks@, targets, mid, old(self).edges(), old(self).priorities())
                    &&& final(self).nodes() == queue_all(mid, targets)
                    &&& final(self).not_computed() == old(self).not_computed() - 1
                    &&& in_progress(old(self).nodes(), old(self).edges()) ==> in_progress(final(self).nodes(), final(self).edges())
                },
                Err(e) => {
                    &&& final(self).nodes() == old(self).nodes()
                    &&& final(self).not_computed() == old(self).not_computed()
                    &&& match e {
                        GraphError::NodeOutOfRange { index: at } => at == result.index && at >= old(self).nodes().len(),
                        GraphError::UnexpectedState { index: at, expected, actual } => {
                            &&& result.index < old(self).nodes().len()
                            &&& at < old(self).nodes().len()
                            &&& actual == old(self).nodes()[at as int].state()
                            &&& actual != expected
                            &&& if old(self).nodes()[result.index as int] is BootstrapQueued {
                                &&& has_edge(old(self).edges(), result.index as int, at as int)
                                &&& is_first_not_in_state(
                                    old(self).nodes(),
                                    successors(old(self).edges(), result.index as int),
                                    NodeState::ToCompute,
                                    at,
                                )
                                &&& expected == NodeState::ToCompute
                                &&& !in_progress(old(self).nodes(), old(self).edges())
                            } else {
                                at == result.index && expected == NodeState::BootstrapQueued
                            }
                        },
                        GraphError::Cyclic => false,
                    }
                },
            },
    {
        let IndexedCt { index, ct } = result;
        let n = self.nodes.len();
        let edge_count = self.edges.len();
        if index >= n {
            return Err(GraphError::NodeOutOfRange { index });
        }
        let actual = self.nodes[index].state();
        if actual != NodeState::BootstrapQueued {
            return Err(GraphError::UnexpectedState { index, expected: NodeState::BootstrapQueued, actual });
        }
        let successors = self.successors_to_compute(index)?;
        let computed = Node::Computed(Arc::new(ct));
        proof {
            lemma_count_not_computed_update(self.nodes@, index as int, computed);
            if in_progress(self.nodes@, self.edges@) {
                lemma_commit_in_progress(self.nodes@, self.edges@, index as int, computed);
            }
        }
        self.nodes[index] = computed;
        self.not_computed_nodes_count -= 1;
        let ghost mid = self.nodes@;
        let r = self.hand_out_ready(index, &successors);
        proof {
            let out = outgoing(self.edges@, index as int);
            let targets = ready_successors(mid, self.edges@, out, out.len() as int);
            lemma_outgoing_from(self.edges@, index as int, 0);
            lemma_ready_successors(mid, self.edges@, out, out.len() as int);
            assert forall|u: int| #[trigger] targets.contains(u) implies 0 <= u < mid.len() && is_ready(mid, self.edges@, u) by {
                assert(reached_by(self.edges@, out, out.len() as int, u));
                let j = choose|j: int| 0 <= j < out.len() && self.edges@[#[trigger] out[j] as int].target == u;
                assert(out[j] < self.edges@.len());
            }
            lemma_queue_all(mid, self.edges@, targets);
            assert(!targets.contains(index as int));
            assert(self.nodes@[index as int] == mid[index as int]);
            assert(old(self).nodes@.update(index as int, self.nodes@[index as int]) =~= mid);
        }
        r
    }

    /// Hands out, in the order of `successors`, each of them that waits to be
    /// computed and has all its predecessors computed.
    fn hand_out_ready(&mut self, index: usize, successors: &Vec<usize>) -> (r: Result<Vec<(Priority, IndexedCtsAndLut)>, GraphError>)
        requires
            old(self).wf(),
            index < old(self).nodes@.len(),
            successors@.len() == outgoing(old(self).edges@, index as int).len(),
            forall|j: int| 0 <= j < successors@.len() ==> old(self).edges@[#[trigger] outgoing(old(self).edges@, index as int)[j] as int].target == successors@[j],
        ensures
            final(self).wf(),
            final(self).edges@ == old(self).edges@,
            final(self).priorities@ == old(self).priorities@,
            final(self).not_computed_nodes_count == old(self).not_computed_nodes_count,
            r matches Ok(tasks) && {
                let out = outgoing(old(self).edges@, index as int);
                let targets = ready_successors(old(self).nodes@, old(self).edges@, out, out.len() as int);
                &&& tasks_match(tasks@, targets, old(self).nodes@, old(self).edges@, old(self).priorities@)
                &&& final(self).nodes@ == queue_all(old(self).nodes@, targets)
            },
    {
        let n = self.nodes.len();
        let edge_count = self.edges.len();
        let ghost mid = self.nodes@;
        let ghost out = outgoing(self.edges@, index as int);
        let mut tasks: Vec<(Priority, IndexedCtsAndLut)> = Vec::new();
        let mut k: usize = 0;
        proof {
            lemma_outgoing_from(self.edges@, index as int, 0);
            assert(self.nodes@ =~= queue_all(mid, ready_successors(mid, self.edges@, out, 0)));
        }
        while k < successors.len()
            invariant
                k <= successors@.len(),
                n == mid.len(),
                edge_count == self.edges@.len(),
                self.wf(),
                self.edges@ == old(self).edges@,
                self.priorities@ == old(self).priorities@,
                self.not_computed_nodes_count == old(self).not_computed_nodes_count,
                edges_in_range(self.edges@, n as nat),
                out == outgoing(self.edges@, index as int),
                successors@.len() == out.len(),
                forall|j: int| 0 <= j < out.len() ==> (#[trigger] out[j]) < self.edges@.len() && self.edges@[out[j] as int].target == successors@[j],
                self.nodes@ == queue_all(mid, ready_successors(mid, self.edges@, out, k as int)),
                tasks_match(tasks@, ready_successors(mid, self.edges@, out, k as int), mid, self.edges@, self.priorities@),
            decreases successors@.len() - k,
        {
            let s = successors[k];
            let ghost targets = ready_successors(mid, self.edges@, out, k as int);
            proof {
                lemma_ready_successors(mid, self.edges@, out, k as int);
                assert forall|u: int| #[trigger] targets.contains(u) implies 0 <= u < mid.len() && is_ready(mid, self.edges@, u) by {
                    assert(reached_by(self.edges@, out, k as int, u));
                    let j = choose|j: int| 0 <= j < k && self.edges@[#[trigger] out[j] as int].target == u;
                    assert(out[j] < self.edges@.len());
                }
                lemma_queue_all(mid, self.edges@, targets);
                lemma_same_computed_nodes(mid, self.nodes@, self.edges@, s as int);
                assert(self.edges@[out[k as int] as int].target == s);
            }
            let waits = match &self.nodes[s] {
                Node::ToCompute { .. } => true,
                _ => false,
            };
            if waits && self.all_predecessors_computed(s) {
                match self.build_task(s) {
                    Ok(task) => {
                        let ghost before = tasks@;
                        tasks.push(task);
                        proof {
                            lemma_queue_one_more(mid, targets, s as int);
                            assert forall|i: int| 0 <= i < tasks@.len() implies is_task_for(
                                #[trigger] tasks@[i],
                                mid,
                                self.edges@,
                                self.priorities@,
                                targets.push(s as int)[i],
                            ) by {
                                if i < before.len() {
                                    assert(is_task_for(before[i], mid, self.edges@, self.priorities@, targets[i]));
                                }
                            }
                        }
                    },
                    Err(e) => {
                        return Err(e);
                    },
                }
            }
            k += 1;
        }
        Ok(tasks)
    }

    /// The targets of the edges that leave the node at `index`, the edge
    /// added last first, if all of them wait to be computed; else the first
    /// that does not.
    fn successors_to_compute(&self, index: usize) -> (r: Result<Vec<usize>, GraphError>)
        requires
            self.wf(),
            index < self.nodes@.len(),
        ensures
            match r {
                Ok(targets) => {
                    let out = outgoing(self.edges@, index as int);
                    &&& targets@.len() == out.len()
                    &&& forall|j: int| 0 <= j < out.len() ==> self.edges@[#[trigger] out[j] as int].target == targets@[j]
                    &&& forall|e: int| 0 <= e < self.edges@.len() && (#[trigger] self.edges@[e]).source == index ==> self.nodes@[self.edges@[e].target as int] is ToCompute
                },
                Err(e) => {
                    &&& e matches GraphError::UnexpectedState { index: at, expected, actual }
                    &&& at < self.nodes@.len()
                    &&& has_edge(self.edges@, index as int, at as int)
                    &&& is_first_not_in_state(self.nodes@, successors(self.edges@, index as int), NodeState::ToCompute, at)
                    &&& expected == NodeState::ToCompute
                    &&& actual == self.nodes@[at as int].state()
                    &&& actual != expected
                },
            },
    {
        let edge_count = self.edges.len();
        let out = &self.outgoing_lists[index];
        proof {
            lemma_outgoing_from(self.edges@, index as int, 0);
        }
        let mut targets: Vec<usize> = Vec::new();
        let mut k: usize = 0;
        while k < out.len()
            invariant
                k <= out@.len(),
                self.wf(),
                index < self.nodes@.len(),
                out@ == outgoing(self.edges@, index as int),
                forall|j: int| 0 <= j < out@.len() ==> (#[trigger] out@[j]) < self.edges@.len() && self.edges@[out@[j] as int].source == index,
                targets@.len() == k,
                forall|j: int| 0 <= j < k ==> self.edges@[#[trigger] out@[j] as int].target == targets@[j],
                forall|j: int| 0 <= j < k ==> self.nodes@[self.edges@[#[trigger] out@[j] as int].target as int] is ToCompute,
            decreases out@.len() - k,
        {
            let target = self.edges[out[k]].target;
            let actual = self.nodes[target].state();
            if actual != NodeState::ToCompute {
                assert(self.edges@[out@[k as int] as int].source == index);
                proof {
                    let list = successors(self.edges@, index as int);
                    assert(list[k as int] == target);
                    assert forall|i: int| 0 <= i < k implies self.nodes@[#[trigger] list[i] as int].state() == NodeState::ToCompute by {
                        assert(self.nodes@[self.edges@[out@[i] as int].target as int] is ToCompute);
                    }
                }
                return Err(GraphError::UnexpectedState { index: target, expected: NodeState::ToCompute, actual });
            }
            targets.push(target);
            k += 1;
        }
        proof {
            assert forall|e: int| 0 <= e < self.edges@.len() && (#[trigger] self.edges@[e]).source == index implies self.nodes@[self.edges@[e].target as int] is ToCompute by {
                assert(out@.contains(e as usize));
                let j = choose|j: int| 0 <= j < out@.len() && out@[j] == e as usize;
                assert(self.nodes@[self.edges@[out@[j] as int].target as int] is ToCompute);
            }
        }
        Ok(targets)
    }

    /// True once every node is computed.
    pub fn is_finished(&self) -> (r: bool)
        requires
            self.wf(),
        ensures
            r == (self.not_computed() == 0),
            r == all_computed(self.nodes()),
    {
        proof {
            lemma_count_not_computed_bound(self.nodes@);
        }
        self.not_computed_nodes_count == 0
    }

    /// The number of nodes.
    pub fn node_count(&self) -> (n: usize)
        ensures
            n == self.nodes().len(),
    {
        self.nodes.len()
    }

    /// How many nodes are not computed yet.
    pub fn not_computed_nodes_count(&self) -> (n: usize)
        ensures
            n == self.not_computed(),
    {
        self.not_computed_nodes_count
    }

    /// The node at `index`.
    pub fn node(&self, index: usize) -> (r: Option<&Node>)
        ensures
            index < self.nodes().len() ==> r == Some(&self.nodes()[index as int]),
            index >= self.nodes().len() ==> r is None,
    {
        if index < self.nodes.len() {
            Some(&self.nodes[index])
        } else {
            None
        }
    }

    /// The edge at `index`.
    pub fn edge(&self, index: usize) -> (r: Option<Edge>)
        ensures
            index < self.edges().len() ==> r == Some(self.edges()[index as int]),
            index >= self.edges().len() ==> r is None,
    {
        if index < self.edges.len() {
            Some(self.edges[index])
        } else {
            None
        }
    }

    /// The number of edges.
    pub fn edge_count(&self) -> (n: usize)
        ensures
            n == self.edges().len(),
    {
        self.edges.len()
    }

    /// The priority of the node at `index`.
    pub fn priority(&self, index: usize) -> (r: Option<Priority>)
        requires
            self.wf(),
        ensures
            index < self.nodes().len() ==> r == Some(Priority(self.priorities()[index as int])),
            index >= self.nodes().len() ==> r is None,
    {
        if index < self.priorities.len() {
            Some(Priority(self.priorities[index]))
        } else {
            None
        }
    }

    /// Gives the nodes and edges back, without the priorities.
    pub fn into_graph(self) -> (graph: NodeGraph)
        requires
            self.wf(),
        ensures
            graph.wf(),
            graph.nodes() == self.nodes(),
            graph.edges() == self.edges(),
    {
        NodeGraph::from_parts(self.nodes, self.edges)
    }
}

} // verus!
