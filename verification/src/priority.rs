//! Priorities: for every node, the number of nodes on the longest chain that
//! starts at it.

use crate::graph::{
    edges_in_range, has_cycle, incoming, incoming_from, is_sink, is_step, is_walk, lemma_incoming_from,
    lemma_outgoing_from, outgoing, outgoing_from, Edge, MAX_NODE_COUNT,
};
use vstd::prelude::*;

verus! {

/// How urgent a task is; tasks with a larger value are handed out first.
#[derive(Clone, Copy, Debug, PartialEq, Eq, PartialOrd, Ord, Hash, Structural)]
pub struct Priority(pub i32);

/// The largest priority among the targets of the first `k` edges that leave
/// `v`, and zero if there is none.
pub open spec fn max_successor_priority(edges: Seq<Edge>, priorities: Seq<i32>, v: int, k: int) -> int
    decreases k,
{
    if k <= 0 {
        0
    } else {
        let rest = max_successor_priority(edges, priorities, v, k - 1);
        let edge = edges[k - 1];
        if edge.source == v && priorities[edge.target as int] > rest {
            priorities[edge.target as int] as int
        } else {
            rest
        }
    }
}

/// Every node's priority is one more than the largest priority among its
/// successors, and one if it has no successor.
pub open spec fn priorities_correct(edges: Seq<Edge>, priorities: Seq<i32>) -> bool {
    forall|v: int| 0 <= v < priorities.len() ==> #[trigger] priorities[v] == 1 + max_successor_priority(
        edges,
        priorities,
        v,
        edges.len() as int,
    )
}

/// The adjacency lists say, node by node, which edges arrive and which leave.
pub open spec fn adjacency_matches(
    incoming_lists: Seq<Vec<usize>>,
    outgoing_lists: Seq<Vec<usize>>,
    edges: Seq<Edge>,
) -> bool {
    &&& incoming_lists.len() == outgoing_lists.len()
    &&& forall|v: int| 0 <= v < incoming_lists.len() ==> (#[trigger] incoming_lists[v])@ == incoming(edges, v)
    &&& forall|v: int| 0 <= v < outgoing_lists.len() ==> (#[trigger] outgoing_lists[v])@ == outgoing(edges, v)
}

/// Node `v` has a depth, every successor has a smaller one, and one of them
/// is just one below unless `v` is at depth one.
spec fn ranked(edges: Seq<Edge>, depth: Seq<i32>, v: int) -> bool {
    &&& depth[v] >= 1
    &&& forall|e: int| 0 <= e < edges.len() && (#[trigger] edges[e]).source == v ==> 1 <= depth[edges[e].target as int] < depth[v]
    &&& (depth[v] == 1 || exists|e: int| 0 <= e < edges.len() && (#[trigger] edges[e]).source == v && depth[edges[e].target as int] + 1 == depth[v])
}

/// Some successor of `u` has no depth yet.
spec fn has_unranked_successor(edges: Seq<Edge>, depth: Seq<i32>, u: int) -> bool {
    exists|e: int| 0 <= e < edges.len() && (#[trigger] edges[e]).source == u && depth[edges[e].target as int] == 0
}

/// How many nodes have a depth.
spec fn count_ranked(depth: Seq<i32>) -> nat
    decreases depth.len(),
{
    if depth.len() == 0 {
        0
    } else {
        count_ranked(depth.drop_last()) + if depth.last() != 0 { 1nat } else { 0nat }
    }
}

proof fn lemma_count_ranked_bound(depth: Seq<i32>)
    ensures
        count_ranked(depth) <= depth.len(),
        (exists|i: int| 0 <= i < depth.len() && depth[i] == 0) ==> count_ranked(depth) < depth.len(),
    decreases depth.len(),
{
    if depth.len() > 0 {
        lemma_count_ranked_bound(depth.drop_last());
        if exists|i: int| 0 <= i < depth.len() && depth[i] == 0 {
            let i = choose|i: int| 0 <= i < depth.len() && depth[i] == 0;
            if i < depth.len() - 1 {
                assert(depth.drop_last()[i] == 0);
            }
        }
    }
}

proof fn lemma_count_ranked_update(depth: Seq<i32>, v: int, d: i32)
    requires
        0 <= v < depth.len(),
        depth[v] == 0,
        d != 0,
    ensures
        count_ranked(depth.update(v, d)) == count_ranked(depth) + 1,
    decreases depth.len(),
{
    let after = depth.update(v, d);
    if v == depth.len() - 1 {
        assert(after.drop_last() =~= depth.drop_last());
    } else {
        lemma_count_ranked_update(depth.drop_last(), v, d);
        assert(after.drop_last() =~= depth.drop_last().update(v, d));
    }
}

proof fn lemma_count_ranked_zeros(depth: Seq<i32>)
    requires
        forall|i: int| 0 <= i < depth.len() ==> depth[i] == 0,
    ensures
        count_ranked(depth) == 0,
    decreases depth.len(),
{
    if depth.len() > 0 {
        lemma_count_ranked_zeros(depth.drop_last());
    }
}

/// The fold that defines the largest successor priority is an upper bound
/// that some successor reaches, unless it is zero.
proof fn lemma_max_successor_priority(edges: Seq<Edge>, priorities: Seq<i32>, v: int, k: int)
    requires
        0 <= k <= edges.len(),
    ensures
        max_successor_priority(edges, priorities, v, k) >= 0,
        forall|e: int| 0 <= e < k && (#[trigger] edges[e]).source == v ==> priorities[edges[e].target as int] <= max_successor_priority(edges, priorities, v, k),
        max_successor_priority(edges, priorities, v, k) == 0 || exists|e: int| 0 <= e < k && (#[trigger] edges[e]).source == v && priorities[edges[e].target as int] == max_successor_priority(edges, priorities, v, k),
    decreases k,
{
    if k > 0 {
        lemma_max_successor_priority(edges, priorities, v, k - 1);
        let rest = max_successor_priority(edges, priorities, v, k - 1);
        let now = max_successor_priority(edges, priorities, v, k);
        let edge = edges[k - 1];
        if edge.source == v && priorities[edge.target as int] > rest {
            assert(priorities[edges[k - 1].target as int] == now);
        } else if rest != 0 {
            let e = choose|e: int| 0 <= e < k - 1 && (#[trigger] edges[e]).source == v && priorities[edges[e].target as int] == rest;
            assert(edges[e].source == v && priorities[edges[e].target as int] == now);
        }
    }
}

/// With correct priorities a node without successors has priority one, and
/// every other node a priority above those of all its successors.
pub proof fn lemma_priorities_fall(edges: Seq<Edge>, priorities: Seq<i32>, v: int)
    requires
        priorities_correct(edges, priorities),
        0 <= v < priorities.len(),
    ensures
        is_sink(edges, v) ==> priorities[v] == 1,
        forall|e: int| 0 <= e < edges.len() && (#[trigger] edges[e]).source == v ==> priorities[edges[e].target as int] < priorities[v],
{
    lemma_max_successor_priority(edges, priorities, v, edges.len() as int);
}

/// A ranked node has the priority that the definition asks for.
proof fn lemma_ranked_is_correct(edges: Seq<Edge>, depth: Seq<i32>, v: int)
    requires
        ranked(edges, depth, v),
    ensures
        depth[v] == 1 + max_successor_priority(edges, depth, v, edges.len() as int),
{
    lemma_max_successor_priority(edges, depth, v, edges.len() as int);
    let m = max_successor_priority(edges, depth, v, edges.len() as int);
    if m != 0 {
        let e = choose|e: int| 0 <= e < edges.len() && (#[trigger] edges[e]).source == v && depth[edges[e].target as int] == m;
        assert(depth[edges[e].target as int] < depth[v]);
    }
    if depth[v] != 1 {
        let e = choose|e: int| 0 <= e < edges.len() && (#[trigger] edges[e]).source == v && depth[edges[e].target as int] + 1 == depth[v];
        assert(depth[edges[e].target as int] <= m);
    }
}

/// Along a walk in a graph whose priorities fall along every edge, the
/// priority falls by at least one per step.
proof fn lemma_walk_descends(edges: Seq<Edge>, depth: Seq<i32>, walk: Seq<int>, i: int)
    requires
        is_walk(edges, walk),
        0 <= i < walk.len(),
        forall|e: int| 0 <= e < edges.len() ==> depth[(#[trigger] edges[e]).source as int] > depth[edges[e].target as int],
    ensures
        depth[walk[0]] >= depth[walk[i]] + i,
    decreases i,
{
    if i > 0 {
        lemma_walk_descends(edges, depth, walk, i - 1);
        assert(is_step(edges, walk, i - 1));
        let e = choose|e: int| 0 <= e < edges.len() && (#[trigger] edges[e]).source == walk[i - 1] && edges[e].target == walk[i];
        assert(depth[edges[e].source as int] > depth[edges[e].target as int]);
    }
}

/// Priorities that fall along every edge rule out a cycle.
pub proof fn lemma_descending_is_acyclic(edges: Seq<Edge>, depth: Seq<i32>)
    requires
        forall|e: int| 0 <= e < edges.len() ==> depth[(#[trigger] edges[e]).source as int] > depth[edges[e].target as int],
    ensures
        !has_cycle(edges),
{
    if has_cycle(edges) {
        let walk = choose|walk: Seq<int>| walk.len() >= 2 && #[trigger] is_walk(edges, walk) && walk[0] == walk[walk.len() - 1];
        lemma_walk_descends(edges, depth, walk, walk.len() - 1);
    }
}

/// More values than there are different ones: two of them are equal.
proof fn lemma_pigeonhole(values: Seq<int>, n: int)
    requires
        values.len() > n >= 0,
        forall|i: int| 0 <= i < values.len() ==> 0 <= #[trigger] values[i] < n,
    ensures
        exists|i: int, j: int| 0 <= i < j < values.len() && values[i] == values[j],
{
    if values.no_duplicates() {
        values.unique_seq_to_set();
        vstd::set_lib::lemma_int_range(0, n);
        let range = vstd::set_lib::set_int_range(0, n);
        assert(values.to_set().subset_of(range)) by {
            assert forall|x: int| values.to_set().contains(x) implies range.contains(x) by {
                let i = choose|i: int| 0 <= i < values.len() && values[i] == x;
                assert(0 <= values[i] < n);
            }
        }
        vstd::set_lib::lemma_len_subset(values.to_set(), range);
        assert(false);
    }
    let (i, j) = choose|i: int, j: int| 0 <= i < values.len() && 0 <= j < values.len() && i != j && values[i] == values[j];
    if i < j {
        assert(0 <= i < j < values.len() && values[i] == values[j]);
    } else {
        assert(0 <= j < i < values.len() && values[j] == values[i]);
    }
}

/// A walk of `steps` edges from `start` through nodes that have no depth.
proof fn unranked_walk(edges: Seq<Edge>, depth: Seq<i32>, start: int, steps: nat) -> (walk: Seq<int>)
    requires
        edges_in_range(edges, depth.len()),
        0 <= start < depth.len(),
        depth[start] == 0,
        all_stuck(edges, depth),
    ensures
        walk.len() == steps + 1,
        is_walk(edges, walk),
        forall|i: int| 0 <= i < walk.len() ==> 0 <= #[trigger] walk[i] < depth.len() && depth[walk[i]] == 0,
    decreases steps,
{
    if steps == 0 {
        seq![start]
    } else {
        let shorter = unranked_walk(edges, depth, start, (steps - 1) as nat);
        let last = shorter[shorter.len() - 1];
        assert(has_unranked_successor(edges, depth, last));
        let e = choose|e: int| 0 <= e < edges.len() && (#[trigger] edges[e]).source == last && depth[edges[e].target as int] == 0;
        let next = edges[e].target as int;
        let walk = shorter.push(next);
        assert forall|i: int| 0 <= i < walk.len() - 1 implies #[trigger] is_step(edges, walk, i) by {
            if i < shorter.len() - 1 {
                assert(is_step(edges, shorter, i));
            } else {
                assert(edges[e].source == walk[i] && edges[e].target == walk[i + 1]);
            }
        }
        walk
    }
}

/// A walk that comes back to a node it has been at holds a cycle.
proof fn lemma_repeated_node_is_cycle(edges: Seq<Edge>, walk: Seq<int>, i: int, j: int)
    requires
        is_walk(edges, walk),
        0 <= i < j < walk.len(),
        walk[i] == walk[j],
    ensures
        has_cycle(edges),
{
    let closed = walk.subrange(i, j + 1);
    assert forall|k: int| 0 <= k < closed.len() - 1 implies #[trigger] is_step(edges, closed, k) by {
        assert(is_step(edges, walk, i + k));
        assert(closed[k] == walk[i + k]);
        assert(closed[k + 1] == walk[i + k + 1]);
    }
    assert(closed.len() >= 2);
    assert(closed[0] == walk[i]);
    assert(closed[closed.len() - 1] == walk[j]);
    assert(is_walk(edges, closed));
}

/// Every node without a depth has a successor without one.
spec fn all_stuck(edges: Seq<Edge>, depth: Seq<i32>) -> bool {
    forall|u: int| 0 <= u < depth.len() && depth[u] == 0 ==> #[trigger] has_unranked_successor(edges, depth, u)
}

/// If every node without a depth has a successor without one, and there is
/// such a node, the graph has a cycle.
proof fn lemma_stuck_is_cyclic(edges: Seq<Edge>, depth: Seq<i32>, start: int)
    requires
        edges_in_range(edges, depth.len()),
        0 <= start < depth.len(),
        depth[start] == 0,
        all_stuck(edges, depth),
    ensures
        has_cycle(edges),
{
    let walk = unranked_walk(edges, depth, start, depth.len());
    assert forall|i: int| 0 <= i < walk.len() implies 0 <= #[trigger] walk[i] < depth.len() as int by {}
    lemma_pigeonhole(walk, depth.len() as int);
    let (i, j) = choose|i: int, j: int| 0 <= i < j < walk.len() && walk[i] == walk[j];
    lemma_repeated_node_is_cycle(edges, walk, i, j);
}

/// Builds, for every node, the list of edges that arrive at it and the list
/// of edges that leave it, each with the edge added last first.
pub(crate) fn build_adjacency(node_count: usize, edges: &Vec<Edge>) -> (lists: (Vec<Vec<usize>>, Vec<Vec<usize>>))
    requires
        edges_in_range(edges@, node_count as nat),
    ensures
        lists.0@.len() == node_count,
        adjacency_matches(lists.0@, lists.1@, edges@),
{
    let mut incoming_lists: Vec<Vec<usize>> = Vec::new();
    let mut outgoing_lists: Vec<Vec<usize>> = Vec::new();
    let mut v: usize = 0;
    while v < node_count
        invariant
            v <= node_count,
            incoming_lists@.len() == v,
            outgoing_lists@.len() == v,
            forall|u: int| 0 <= u < v ==> (#[trigger] incoming_lists@[u])@ == Seq::<usize>::empty(),
            forall|u: int| 0 <= u < v ==> (#[trigger] outgoing_lists@[u])@ == Seq::<usize>::empty(),
        decreases node_count - v,
    {
        incoming_lists.push(Vec::new());
        outgoing_lists.push(Vec::new());
        v += 1;
    }
    let mut lo: usize = edges.len();
    while lo > 0
        invariant
            lo <= edges.len(),
            edges_in_range(edges@, node_count as nat),
            incoming_lists@.len() == node_count,
            outgoing_lists@.len() == node_count,
            forall|u: int| 0 <= u < node_count ==> (#[trigger] incoming_lists@[u])@ == incoming_from(edges@, u, lo as int),
            forall|u: int| 0 <= u < node_count ==> (#[trigger] outgoing_lists@[u])@ == outgoing_from(edges@, u, lo as int),
        decreases lo,
    {
        lo -= 1;
        let edge = edges[lo];
        incoming_lists[edge.target].push(lo);
        outgoing_lists[edge.source].push(lo);
    }
    (incoming_lists, outgoing_lists)
}

/// `m` is the largest depth among the successors of `v`, or zero if `v` has
/// no successor.
spec fn is_max_successor_depth(edges: Seq<Edge>, depth: Seq<i32>, v: int, m: int) -> bool {
    &&& m >= 0
    &&& forall|e: int| 0 <= e < edges.len() && (#[trigger] edges[e]).source == v ==> depth[edges[e].target as int] <= m
    &&& (m == 0 || exists|e: int| 0 <= e < edges.len() && (#[trigger] edges[e]).source == v && depth[edges[e].target as int] == m)
}

/// Every node that has a depth is ranked.
spec fn all_ranked(edges: Seq<Edge>, depth: Seq<i32>) -> bool {
    forall|u: int| 0 <= u < depth.len() && depth[u] != 0 ==> #[trigger] ranked(edges, depth, u)
}

/// Node `u` will be looked at again, or cannot be ranked yet.
spec fn waiting(edges: Seq<Edge>, depth: Seq<i32>, stack: Seq<usize>, u: int) -> bool {
    stack.contains(u as usize) || has_unranked_successor(edges, depth, u)
}

/// Every node without a depth is waiting.
spec fn frontier(edges: Seq<Edge>, depth: Seq<i32>, stack: Seq<usize>) -> bool {
    forall|u: int| 0 <= u < depth.len() && depth[u] == 0 ==> #[trigger] waiting(edges, depth, stack, u)
}

/// Depths are never negative and never above `bound`.
spec fn depths_within(depth: Seq<i32>, bound: int) -> bool {
    forall|u: int| 0 <= u < depth.len() ==> 0 <= #[trigger] depth[u] <= bound
}

proof fn lemma_rank_node(edges: Seq<Edge>, depth: Seq<i32>, v: int, best: i32)
    requires
        edges_in_range(edges, depth.len()),
        0 <= v < depth.len(),
        depth[v] == 0,
        best < i32::MAX,
        depths_within(depth, best as int) || depths_within(depth, i32::MAX as int),
        all_ranked(edges, depth),
        !has_unranked_successor(edges, depth, v),
        is_max_successor_depth(edges, depth, v, best as int),
    ensures
        all_ranked(edges, depth.update(v, (best + 1) as i32)),
{
    let after = depth.update(v, (best + 1) as i32);
    assert forall|u: int| 0 <= u < after.len() && after[u] != 0 implies #[trigger] ranked(edges, after, u) by {
        if u == v {
            assert forall|e: int| 0 <= e < edges.len() && (#[trigger] edges[e]).source == v implies 1 <= after[edges[e].target as int] < after[v] by {
                let t = edges[e].target as int;
                assert(depth[t] != 0);
                assert(0 <= depth[t]);
                assert(t != v);
            }
            if best != 0 {
                let e = choose|e: int| 0 <= e < edges.len() && (#[trigger] edges[e]).source == v && depth[edges[e].target as int] == best;
                assert(edges[e].target as int != v);
                assert(edges[e].source == v && after[edges[e].target as int] + 1 == after[v]);
            }
        } else {
            assert(ranked(edges, depth, u));
            assert forall|e: int| 0 <= e < edges.len() && (#[trigger] edges[e]).source == u implies 1 <= after[edges[e].target as int] < after[u] by {
                assert(1 <= depth[edges[e].target as int]);
            }
            if depth[u] != 1 {
                let e = choose|e: int| 0 <= e < edges.len() && (#[trigger] edges[e]).source == u && depth[edges[e].target as int] + 1 == depth[u];
                assert(1 <= depth[edges[e].target as int]);
                assert(edges[e].source == u && after[edges[e].target as int] + 1 == after[u]);
            }
        }
    }
}

proof fn lemma_frontier_after_rank(
    edges: Seq<Edge>,
    depth: Seq<i32>,
    stack_before: Seq<usize>,
    stack_after: Seq<usize>,
    v: int,
    d: i32,
)
    requires
        depth.len() <= usize::MAX,
        edges_in_range(edges, depth.len()),
        0 <= v < depth.len(),
        d != 0,
        frontier(edges, depth, stack_before),
        forall|u: usize| u != v && stack_before.contains(u) ==> stack_after.contains(u),
        forall|e: int| 0 <= e < edges.len() && (#[trigger] edges[e]).target == v ==> stack_after.contains(edges[e].source),
    ensures
        frontier(edges, depth.update(v, d), stack_after),
{
    let after = depth.update(v, d);
    assert forall|u: int| 0 <= u < after.len() && after[u] == 0 implies #[trigger] waiting(edges, after, stack_after, u) by {
        assert(waiting(edges, depth, stack_before, u));
        if !stack_before.contains(u as usize) {
            let e = choose|e: int| 0 <= e < edges.len() && (#[trigger] edges[e]).source == u && depth[edges[e].target as int] == 0;
            if edges[e].target == v {
                assert(stack_after.contains(edges[e].source));
            } else {
                assert(edges[e].source == u && after[edges[e].target as int] == 0);
            }
        }
    }
}

proof fn lemma_frontier_after_skip(
    edges: Seq<Edge>,
    depth: Seq<i32>,
    stack_before: Seq<usize>,
    stack_after: Seq<usize>,
    v: int,
)
    requires
        depth.len() <= usize::MAX,
        0 <= v < depth.len(),
        frontier(edges, depth, stack_before),
        forall|u: usize| u != v && stack_before.contains(u) ==> stack_after.contains(u),
        depth[v] != 0 || has_unranked_successor(edges, depth, v),
    ensures
        frontier(edges, depth, stack_after),
{
    assert forall|u: int| 0 <= u < depth.len() && depth[u] == 0 implies #[trigger] waiting(edges, depth, stack_after, u) by {
        assert(waiting(edges, depth, stack_before, u));
    }
}

/// Looks at the successors of `v`: whether all have a depth, and the largest
/// depth among them.
fn scan_successors(edges: &Vec<Edge>, successors: &Vec<usize>, depth: &Vec<i32>, v: usize) -> (r: (bool, i32))
    requires
        edges_in_range(edges@, depth@.len()),
        v < depth@.len(),
        successors@ == outgoing(edges@, v as int),
        depths_within(depth@, i32::MAX as int),
    ensures
        r.0 <==> !has_unranked_successor(edges@, depth@, v as int),
        r.0 ==> is_max_successor_depth(edges@, depth@, v as int, r.1 as int),
        r.1 == 0 || exists|u: int| 0 <= u < depth@.len() && depth@[u] == r.1,
{
    let edge_count = edges.len();
    let mut all_known = true;
    let mut best: i32 = 0;
    let mut k: usize = 0;
    proof {
        lemma_outgoing_from(edges@, v as int, 0);
    }
    while k < successors.len()
        invariant
            k <= successors@.len(),
            v < depth@.len(),
            edges_in_range(edges@, depth@.len()),
            successors@ == outgoing(edges@, v as int),
            forall|j: int| 0 <= j < successors@.len() ==> (#[trigger] successors@[j]) < edges@.len() && edges@[successors@[j] as int].source == v,
            depths_within(depth@, i32::MAX as int),
            0 <= best,
            best == 0 || exists|u: int| 0 <= u < depth@.len() && depth@[u] == best,
            all_known <==> forall|j: int| 0 <= j < k ==> depth@[edges@[#[trigger] successors@[j] as int].target as int] != 0,
            forall|j: int| 0 <= j < k ==> depth@[edges@[#[trigger] successors@[j] as int].target as int] <= best,
            best == 0 || exists|j: int| 0 <= j < k && depth@[edges@[#[trigger] successors@[j] as int].target as int] == best,
        decreases successors@.len() - k,
    {
        let target = edges[successors[k]].target;
        let d = depth[target];
        if d == 0 {
            all_known = false;
        } else if d > best {
            best = d;
        }
        k += 1;
    }
    proof {
        if all_known {
            assert forall|e: int| 0 <= e < edges@.len() && (#[trigger] edges@[e]).source == v implies depth@[edges@[e].target as int] <= best && depth@[edges@[e].target as int] != 0 by {
                assert(successors@.contains(e as usize));
                let j = choose|j: int| 0 <= j < successors@.len() && successors@[j] == e as usize;
                assert(depth@[edges@[successors@[j] as int].target as int] <= best);
            }
            if best != 0 {
                let j = choose|j: int| 0 <= j < successors@.len() && depth@[edges@[#[trigger] successors@[j] as int].target as int] == best;
                let e = successors@[j] as int;
                assert(edges@[e].source == v && depth@[edges@[e].target as int] == best);
            }
        } else {
            let j = choose|j: int| 0 <= j < successors@.len() && depth@[edges@[#[trigger] successors@[j] as int].target as int] == 0;
            let e = successors@[j] as int;
            assert(edges@[e].source == v && depth@[edges@[e].target as int] == 0);
        }
    }
    (all_known, best)
}

/// Puts the source of every edge that arrives at `v` on the stack.
fn push_predecessors(edges: &Vec<Edge>, predecessors: &Vec<usize>, stack: &mut Vec<usize>, v: usize, node_count: usize)
    requires
        edges_in_range(edges@, node_count as nat),
        predecessors@ == incoming(edges@, v as int),
        forall|i: int| 0 <= i < old(stack)@.len() ==> #[trigger] old(stack)@[i] < node_count,
    ensures
        forall|i: int| 0 <= i < final(stack)@.len() ==> #[trigger] final(stack)@[i] < node_count,
        forall|u: usize| old(stack)@.contains(u) ==> final(stack)@.contains(u),
        forall|e: int| 0 <= e < edges@.len() && (#[trigger] edges@[e]).target == v ==> final(stack)@.contains(edges@[e].source),
{
    let edge_count = edges.len();
    let mut k: usize = 0;
    proof {
        lemma_incoming_from(edges@, v as int, 0);
    }
    while k < predecessors.len()
        invariant
            k <= predecessors@.len(),
            edges_in_range(edges@, node_count as nat),
            predecessors@ == incoming(edges@, v as int),
            forall|j: int| 0 <= j < predecessors@.len() ==> (#[trigger] predecessors@[j]) < edges@.len() && edges@[predecessors@[j] as int].target == v,
            forall|i: int| 0 <= i < stack@.len() ==> #[trigger] stack@[i] < node_count,
            forall|u: usize| old(stack)@.contains(u) ==> stack@.contains(u),
            forall|j: int| 0 <= j < k ==> stack@.contains(edges@[#[trigger] predecessors@[j] as int].source),
        decreases predecessors@.len() - k,
    {
        let ghost before = stack@;
        let source = edges[predecessors[k]].source;
        stack.push(source);
        proof {
            assert(stack@[before.len() as int] == source);
            assert forall|u: usize| before.contains(u) implies stack@.contains(u) by {
                let i = choose|i: int| 0 <= i < before.len() && before[i] == u;
                assert(stack@[i] == u);
            }
        }
        k += 1;
    }
    proof {
        assert forall|e: int| 0 <= e < edges@.len() && (#[trigger] edges@[e]).target == v implies stack@.contains(edges@[e].source) by {
            assert(predecessors@.contains(e as usize));
            let j = choose|j: int| 0 <= j < predecessors@.len() && predecessors@[j] == e as usize;
            assert(stack@.contains(edges@[predecessors@[j] as int].source));
        }
    }
}

/// A stack that holds every node without successors, and depth zero for all.
fn start_from_sinks(edges: &Vec<Edge>, outgoing_lists: &Vec<Vec<usize>>) -> (r: (Vec<i32>, Vec<usize>))
    requires
        edges_in_range(edges@, outgoing_lists@.len()),
        forall|v: int| 0 <= v < outgoing_lists@.len() ==> (#[trigger] outgoing_lists@[v])@ == outgoing(edges@, v),
    ensures
        r.0@.len() == outgoing_lists@.len(),
        forall|u: int| 0 <= u < r.0@.len() ==> #[trigger] r.0@[u] == 0,
        forall|i: int| 0 <= i < r.1@.len() ==> #[trigger] r.1@[i] < outgoing_lists@.len(),
        frontier(edges@, r.0@, r.1@),
{
    let n = outgoing_lists.len();
    let edge_count = edges.len();
    let mut depth: Vec<i32> = Vec::new();
    let mut stack: Vec<usize> = Vec::new();
    let mut v: usize = 0;
    while v < n
        invariant
            v <= n,
            n == outgoing_lists@.len(),
            depth@.len() == v,
            forall|u: int| 0 <= u < v ==> #[trigger] depth@[u] == 0,
            forall|i: int| 0 <= i < stack@.len() ==> #[trigger] stack@[i] < n,
            forall|u: int| 0 <= u < v && (#[trigger] outgoing_lists@[u])@.len() == 0 ==> stack@.contains(u as usize),
        decreases n - v,
    {
        depth.push(0);
        if outgoing_lists[v].len() == 0 {
            let ghost before = stack@;
            stack.push(v);
            proof {
                assert(stack@[before.len() as int] == v);
                assert forall|u: int| 0 <= u < v + 1 && (#[trigger] outgoing_lists@[u])@.len() == 0 implies stack@.contains(u as usize) by {
                    if u < v {
                        let i = choose|i: int| 0 <= i < before.len() && before[i] == u as usize;
                        assert(stack@[i] == u as usize);
                    }
                }
            }
        }
        v += 1;
    }
    proof {
        assert forall|u: int| 0 <= u < depth@.len() && depth@[u] == 0 implies #[trigger] waiting(edges@, depth@, stack@, u) by {
            if outgoing_lists@[u]@.len() != 0 {
                lemma_outgoing_from(edges@, u, 0);
                let e = outgoing(edges@, u)[0];
                assert(edges@[e as int].source == u);
                assert(depth@[edges@[e as int].target as int] == 0);
            }
        }
    }
    (depth, stack)
}

/// Gives every node its priority, or `None` if the graph has a cycle.
///
/// Starting from the nodes without successors, a node gets its priority as
/// soon as all its successors have theirs; its predecessors are then looked
/// at again.
pub(crate) fn compute_priorities(
    edges: &Vec<Edge>,
    incoming_lists: &Vec<Vec<usize>>,
    outgoing_lists: &Vec<Vec<usize>>,
) -> (priorities: Option<Vec<i32>>)
    requires
        incoming_lists@.len() <= MAX_NODE_COUNT,
        edges_in_range(edges@, incoming_lists@.len()),
        adjacency_matches(incoming_lists@, outgoing_lists@, edges@),
    ensures
        priorities is Some <==> !has_cycle(edges@),
        priorities matches Some(p) ==> {
            &&& p@.len() == incoming_lists@.len()
            &&& priorities_correct(edges@, p@)
            &&& forall|e: int| 0 <= e < edges@.len() ==> p@[(#[trigger] edges@[e]).source as int] > p@[edges@[e].target as int]
            &&& forall|v: int| 0 <= v < p@.len() ==> 1 <= #[trigger] p@[v] <= p@.len()
        },
{
    let n = incoming_lists.len();
    let (mut depth, mut stack) = start_from_sinks(edges, outgoing_lists);
    proof {
        lemma_count_ranked_zeros(depth@);
    }
    let mut assigned: usize = 0;
    while stack.len() > 0
        invariant
            n == incoming_lists@.len(),
            n <= MAX_NODE_COUNT,
            edges_in_range(edges@, n as nat),
            adjacency_matches(incoming_lists@, outgoing_lists@, edges@),
            depth@.len() == n,
            assigned == count_ranked(depth@),
            forall|i: int| 0 <= i < stack@.len() ==> #[trigger] stack@[i] < n,
            depths_within(depth@, assigned as int),
            all_ranked(edges@, depth@),
            frontier(edges@, depth@, stack@),
        decreases n - assigned, stack@.len(),
    {
        proof {
            lemma_count_ranked_bound(depth@);
        }
        let ghost stack_before = stack@;
        let ghost depth_before = depth@;
        let v = stack.pop().unwrap();
        proof {
            assert forall|u: usize| u != v && stack_before.contains(u) implies stack@.contains(u) by {
                let i = choose|i: int| 0 <= i < stack_before.len() && stack_before[i] == u;
                assert(stack@[i] == u);
            }
        }
        if depth[v] == 0 {
            let (all_known, best) = scan_successors(edges, &outgoing_lists[v], &depth, v);
            if all_known {
                proof {
                    lemma_count_ranked_update(depth@, v as int, (best + 1) as i32);
                    lemma_rank_node(edges@, depth@, v as int, best);
                }
                depth[v] = best + 1;
                assigned += 1;
                push_predecessors(edges, &incoming_lists[v], &mut stack, v, n);
                proof {
                    lemma_frontier_after_rank(edges@, depth_before, stack_before, stack@, v as int, (best + 1) as i32);
                }
            } else {
                proof {
                    lemma_frontier_after_skip(edges@, depth@, stack_before, stack@, v as int);
                }
            }
        } else {
            proof {
                lemma_frontier_after_skip(edges@, depth@, stack_before, stack@, v as int);
            }
        }
    }
    let mut v: usize = 0;
    while v < n
        invariant
            v <= n,
            depth@.len() == n,
            edges_in_range(edges@, n as nat),
            stack@.len() == 0,
            forall|u: int| 0 <= u < v ==> #[trigger] depth@[u] != 0,
            frontier(edges@, depth@, stack@),
        decreases n - v,
    {
        if depth[v] == 0 {
            proof {
                assert forall|u: int| 0 <= u < depth@.len() && depth@[u] == 0 implies #[trigger] has_unranked_successor(
                    edges@,
                    depth@,
                    u,
                ) by {
                    assert(waiting(edges@, depth@, stack@, u));
                }
                lemma_stuck_is_cyclic(edges@, depth@, v as int);
            }
            return None;
        }
        v += 1;
    }
    proof {
        assert forall|e: int| 0 <= e < edges@.len() implies depth@[(#[trigger] edges@[e]).source as int] > depth@[edges@[e].target as int] by {
            assert(ranked(edges@, depth@, edges@[e].source as int));
        }
        lemma_descending_is_acyclic(edges@, depth@);
        assert forall|u: int| 0 <= u < depth@.len() implies #[trigger] depth@[u] == 1 + max_successor_priority(edges@, depth@, u, edges@.len() as int) by {
            assert(ranked(edges@, depth@, u));
            lemma_ranked_is_correct(edges@, depth@, u);
        }
        lemma_count_ranked_bound(depth@);
        assert forall|u: int| 0 <= u < depth@.len() implies 1 <= #[trigger] depth@[u] <= depth@.len() by {
            assert(ranked(edges@, depth@, u));
        }
    }
    Some(depth)
}

} // verus!
