//! The master of a run: it keeps the graph, a queue of the tasks that are
//! ready, and what every worker is busy with.  It decides, event by event,
//! which task goes to which worker; sending the tasks and receiving the
//! results is left to the caller.

use crate::fhe_graph::{
    all_computed, in_progress, is_ready, is_task_for, lemma_queue_all, lemma_ready_nodes,
    lemma_ready_successors, predecessor_terms, predecessors_computed, queue_all, ready_nodes,
    ready_successors, reached_by, tasks_match, well_formed_at_start, FheGraph, GraphError,
};
use crate::graph::{edges_in_range, is_source, lemma_outgoing_from, outgoing, Edge, Node};
use crate::priority::Priority;
use crate::task::{IndexedCt, IndexedCtsAndLut};
use vstd::prelude::*;

verus! {

/// Where the master is in a run.
#[derive(Clone, Copy, Debug, PartialEq, Eq, Structural)]
pub enum Phase {
    /// The run has not started.
    Idle,
    /// Tasks wait in the queue; every worker is busy.
    Running,
    /// The queue is empty; results are still awaited.
    Draining,
    /// Every node is computed.
    Finished,
}

/// Why the master refused an event.
#[derive(Clone, Copy, Debug, PartialEq, Eq, Structural)]
pub enum EngineError {
    /// The run was started before.
    AlreadyStarted,
    /// A result came in before the run was started.
    NotStarted,
    /// There is no worker with this rank.
    UnknownWorker { worker: usize },
    /// The worker was not given a task.
    IdleWorker { worker: usize },
    /// The worker was given the task of node `expected` and answers for node
    /// `actual`.
    WrongNode { worker: usize, expected: usize, actual: usize },
    /// The graph refused the operation.
    Graph(GraphError),
}

/// A task and the worker that it is to be sent to.
pub struct Dispatch {
    pub worker: usize,
    pub priority: Priority,
    pub task: IndexedCtsAndLut,
}

/// Task `a` goes before task `b`: it has the higher priority, or the same
/// and the lower node index.
pub open spec fn outranks(a: (Priority, IndexedCtsAndLut), b: (Priority, IndexedCtsAndLut)) -> bool {
    a.0.0 > b.0.0 || (a.0.0 == b.0.0 && a.1.index < b.1.index)
}

/// Position `i` holds the task of `queue` that goes first: none outranks
/// it, and it outranks all that stand before it.
pub open spec fn is_first_in_line(queue: Seq<(Priority, IndexedCtsAndLut)>, i: int) -> bool {
    &&& 0 <= i < queue.len()
    &&& forall|j: int| 0 <= j < queue.len() ==> !outranks(#[trigger] queue[j], queue[i])
    &&& forall|j: int| 0 <= j < i ==> outranks(queue[i], #[trigger] queue[j])
}

/// Takes the task that goes first out of the queue.
pub fn pop_highest(queue: &mut Vec<(Priority, IndexedCtsAndLut)>) -> (r: Option<(Priority, IndexedCtsAndLut)>)
    ensures
        match r {
            Some(task) => exists|i: int| is_first_in_line(old(queue)@, i) && task == old(queue)@[i] && final(queue)@ == old(queue)@.remove(i),
            None => old(queue)@.len() == 0 && final(queue)@ == old(queue)@,
        },
{
    if queue.len() == 0 {
        return None;
    }
    let mut best: usize = 0;
    let mut j: usize = 1;
    while j < queue.len()
        invariant
            1 <= j <= queue@.len(),
            best < j,
            queue@ == old(queue)@,
            forall|i: int| 0 <= i < j ==> !outranks(#[trigger] queue@[i], queue@[best as int]),
            forall|i: int| 0 <= i < best ==> outranks(queue@[best as int], #[trigger] queue@[i]),
        decreases queue@.len() - j,
    {
        let candidate = &queue[j];
        let leader = &queue[best];
        if candidate.0.0 > leader.0.0 || (candidate.0.0 == leader.0.0 && candidate.1.index < leader.1.index) {
            best = j;
        }
        j += 1;
    }
    assert(is_first_in_line(queue@, best as int));
    Some(queue.remove(best))
}

/// The task is queued for node `v`.
pub open spec fn in_queue(queue: Seq<(Priority, IndexedCtsAndLut)>, v: int) -> bool {
    exists|i: int| 0 <= i < queue.len() && (#[trigger] queue[i]).1.index == v
}

/// Some worker is busy with node `v`.
pub open spec fn is_assigned(assigned: Seq<Option<usize>>, v: int) -> bool {
    exists|w: int| 0 <= w < assigned.len() && #[trigger] assigned[w] == Some(v as usize)
}

/// Some worker is busy.
pub open spec fn some_worker_busy(assigned: Seq<Option<usize>>) -> bool {
    exists|w: int| 0 <= w < assigned.len() && #[trigger] assigned[w] is Some
}

/// `task` is what node `v` was handed out with: the terms of its
/// predecessors, the lookup table it had when the run began, and its
/// priority.
pub open spec fn is_task_of(
    task: (Priority, IndexedCtsAndLut),
    initial: Seq<Node>,
    nodes: Seq<Node>,
    edges: Seq<Edge>,
    priorities: Seq<i32>,
    v: int,
) -> bool {
    &&& task.1.index == v
    &&& task.1.cts_and_weights@ == predecessor_terms(nodes, edges, v)
    &&& initial[v] matches Node::ToCompute { lookup_table } && task.1.lut == lookup_table
    &&& task.0.0 == priorities[v]
}

/// The nodes that are computed or still wait are as they were at the start,
/// which was a sound start, and the run is in progress.
pub open spec fn nodes_on_course(initial: Seq<Node>, nodes: Seq<Node>, edges: Seq<Edge>) -> bool {
    &&& initial.len() == nodes.len()
    &&& well_formed_at_start(initial, edges)
    &&& in_progress(nodes, edges)
    &&& forall|v: int| 0 <= v < nodes.len() && (initial[v] is Computed || nodes[v] is ToCompute) ==> #[trigger] nodes[v] == initial[v]
}

/// The queued nodes are those in the queue and those with the workers, each
/// in one place only.
pub open spec fn queued_nodes_placed(
    nodes: Seq<Node>,
    queue: Seq<(Priority, IndexedCtsAndLut)>,
    assigned: Seq<Option<usize>>,
) -> bool {
    &&& forall|v: int| 0 <= v < nodes.len() ==> (#[trigger] nodes[v] is BootstrapQueued <==> in_queue(queue, v) || is_assigned(assigned, v))
    &&& forall|i: int| 0 <= i < queue.len() ==> (#[trigger] queue[i]).1.index < nodes.len() && !is_assigned(assigned, queue[i].1.index as int)
    &&& forall|i: int, j: int| 0 <= i < j < queue.len() ==> (#[trigger] queue[i]).1.index != (#[trigger] queue[j]).1.index
    &&& forall|w: int| 0 <= w < assigned.len() && (#[trigger] assigned[w]) is Some ==> assigned[w]->Some_0 < nodes.len()
    &&& forall|w: int, x: int| 0 <= w < x < assigned.len() && (#[trigger] assigned[w]) is Some ==> assigned[w] != #[trigger] assigned[x]
}

/// Every task in the queue is the task of its node.
pub open spec fn queue_holds_tasks(
    initial: Seq<Node>,
    nodes: Seq<Node>,
    edges: Seq<Edge>,
    priorities: Seq<i32>,
    queue: Seq<(Priority, IndexedCtsAndLut)>,
) -> bool {
    forall|i: int| 0 <= i < queue.len() ==> is_task_of(#[trigger] queue[i], initial, nodes, edges, priorities, queue[i].1.index as int)
}

/// What was committed is, each once, what was to compute and now is
/// computed.
pub open spec fn log_is_exact(initial: Seq<Node>, nodes: Seq<Node>, committed: Seq<usize>) -> bool {
    &&& committed.no_duplicates()
    &&& forall|v: int| 0 <= v < nodes.len() ==> (#[trigger] committed.contains(v as usize) <==> initial[v] is ToCompute && nodes[v] is Computed)
    &&& forall|i: int| 0 <= i < committed.len() ==> #[trigger] committed[i] < nodes.len()
}

/// What ties the queue, the workers and the log to the graph while a run is
/// under way.
pub open spec fn books_balance(
    initial: Seq<Node>,
    nodes: Seq<Node>,
    edges: Seq<Edge>,
    priorities: Seq<i32>,
    queue: Seq<(Priority, IndexedCtsAndLut)>,
    assigned: Seq<Option<usize>>,
    committed: Seq<usize>,
) -> bool {
    &&& nodes.len() <= usize::MAX
    &&& edges.len() <= usize::MAX
    &&& edges_in_range(edges, nodes.len())
    &&& nodes_on_course(initial, nodes, edges)
    &&& queued_nodes_placed(nodes, queue, assigned)
    &&& queue_holds_tasks(initial, nodes, edges, priorities, queue)
    &&& log_is_exact(initial, nodes, committed)
}

/// A task taken from the queue and given to an idle worker leaves the books
/// balanced.
pub proof fn lemma_dispatch_keeps_balance(
    nodes: Seq<Node>,
    queue: Seq<(Priority, IndexedCtsAndLut)>,
    assigned: Seq<Option<usize>>,
    i: int,
    w: int,
)
    requires
        nodes.len() <= usize::MAX,
        queued_nodes_placed(nodes, queue, assigned),
        0 <= i < queue.len(),
        0 <= w < assigned.len(),
        assigned[w] is None,
    ensures
        queued_nodes_placed(nodes, queue.remove(i), assigned.update(w, Some(queue[i].1.index))),
{
    let node = queue[i].1.index;
    let shorter = queue.remove(i);
    let busier = assigned.update(w, Some(node));
    assert(busier[w] == Some(node));
    assert forall|v: int| in_queue(shorter, v) <==> in_queue(queue, v) && v != node by {
        if in_queue(shorter, v) {
            let j = choose|j: int| 0 <= j < shorter.len() && (#[trigger] shorter[j]).1.index == v;
            if j < i {
                assert(queue[j].1.index == v);
            } else {
                assert(queue[j + 1].1.index == v);
            }
        }
        if in_queue(queue, v) && v != node {
            let j = choose|j: int| 0 <= j < queue.len() && (#[trigger] queue[j]).1.index == v;
            if j < i {
                assert(shorter[j].1.index == v);
            } else {
                assert(shorter[j - 1].1.index == v);
            }
        }
    }
    assert forall|v: int| 0 <= v < nodes.len() implies (is_assigned(busier, v) <==> is_assigned(assigned, v) || v == node) by {
        if is_assigned(busier, v) {
            let x = choose|x: int| 0 <= x < busier.len() && #[trigger] busier[x] == Some(v as usize);
            if x != w {
                assert(assigned[x] == Some(v as usize));
            }
        }
        if is_assigned(assigned, v) {
            let x = choose|x: int| 0 <= x < assigned.len() && #[trigger] assigned[x] == Some(v as usize);
            assert(busier[x] == Some(v as usize));
        }
    }
    assert(in_queue(queue, node as int)) by {
        assert(queue[i].1.index == node);
    }
    assert forall|j: int| 0 <= j < shorter.len() implies (#[trigger] shorter[j]).1.index < nodes.len() && !is_assigned(
        busier,
        shorter[j].1.index as int,
    ) by {
        let k = if j < i { j } else { j + 1 };
        assert(shorter[j] == queue[k]);
        assert(queue[k].1.index < nodes.len() && !is_assigned(assigned, queue[k].1.index as int));
        if k < i {
            assert(queue[k].1.index != queue[i].1.index);
        } else {
            assert(queue[i].1.index != queue[k].1.index);
        }
    }
    assert forall|j: int, k: int| 0 <= j < k < shorter.len() implies (#[trigger] shorter[j]).1.index != (#[trigger] shorter[k]).1.index by {
        let j0 = if j < i { j } else { j + 1 };
        let k0 = if k < i { k } else { k + 1 };
        assert(queue[j0].1.index != queue[k0].1.index);
    }
    assert forall|x: int, y: int| 0 <= x < y < busier.len() && (#[trigger] busier[x]) is Some implies busier[x] != #[trigger] busier[y] by {
        assert(!is_assigned(assigned, node as int));
        if x == w {
            if busier[y] == Some(node) {
                assert(assigned[y] == Some(node));
            }
        } else if y == w {
            if busier[x] == Some(node) {
                assert(assigned[x] == Some(node));
            }
        } else {
            assert(assigned[x] is Some);
            assert(assigned[x] != assigned[y]);
        }
    }
    assert forall|x: int| 0 <= x < busier.len() && (#[trigger] busier[x]) is Some implies busier[x]->Some_0 < nodes.len() by {
        if x != w {
            assert(assigned[x] is Some);
        }
    }
}

/// The tasks of a queue joined to another are those of the one or of the
/// other.
pub proof fn lemma_in_joined_queue(
    queue: Seq<(Priority, IndexedCtsAndLut)>,
    more: Seq<(Priority, IndexedCtsAndLut)>,
    v: int,
)
    ensures
        in_queue(queue + more, v) <==> in_queue(queue, v) || in_queue(more, v),
{
    let joined = queue + more;
    if in_queue(joined, v) {
        let i = choose|i: int| 0 <= i < joined.len() && (#[trigger] joined[i]).1.index == v;
        if i < queue.len() {
            assert(queue[i].1.index == v);
        } else {
            assert(more[i - queue.len()].1.index == v);
        }
    }
    if in_queue(queue, v) {
        let i = choose|i: int| 0 <= i < queue.len() && (#[trigger] queue[i]).1.index == v;
        assert(joined[i].1.index == v);
    }
    if in_queue(more, v) {
        let i = choose|i: int| 0 <= i < more.len() && (#[trigger] more[i]).1.index == v;
        assert(joined[queue.len() + i].1.index == v);
    }
}

/// The tasks that match a list of nodes are queued for exactly these nodes.
pub proof fn lemma_matching_tasks(
    tasks: Seq<(Priority, IndexedCtsAndLut)>,
    targets: Seq<int>,
    nodes: Seq<Node>,
    edges: Seq<Edge>,
    priorities: Seq<i32>,
    v: int,
)
    requires
        tasks_match(tasks, targets, nodes, edges, priorities),
    ensures
        in_queue(tasks, v) <==> targets.contains(v),
{
    if in_queue(tasks, v) {
        let i = choose|i: int| 0 <= i < tasks.len() && (#[trigger] tasks[i]).1.index == v;
        assert(is_task_for(tasks[i], nodes, edges, priorities, targets[i]));
        assert(targets[i] == v);
    }
    if targets.contains(v) {
        let i = choose|i: int| 0 <= i < targets.len() && targets[i] == v;
        assert(is_task_for(tasks[i], nodes, edges, priorities, targets[i]));
        assert(tasks[i].1.index == v);
    }
}

/// After a sound start the books balance: the queue holds the tasks of the
/// nodes that were ready, no worker is busy, nothing is committed.
pub proof fn lemma_start_balances(
    initial: Seq<Node>,
    edges: Seq<Edge>,
    priorities: Seq<i32>,
    tasks: Seq<(Priority, IndexedCtsAndLut)>,
    assigned: Seq<Option<usize>>,
)
    requires
        initial.len() <= usize::MAX,
        edges.len() <= usize::MAX,
        edges_in_range(edges, initial.len()),
        well_formed_at_start(initial, edges),
        tasks_match(tasks, ready_nodes(initial, edges, initial.len() as int), initial, edges, priorities),
        in_progress(queue_all(initial, ready_nodes(initial, edges, initial.len() as int)), edges),
        forall|w: int| 0 <= w < assigned.len() ==> #[trigger] assigned[w] is None,
    ensures
        books_balance(
            initial,
            queue_all(initial, ready_nodes(initial, edges, initial.len() as int)),
            edges,
            priorities,
            tasks,
            assigned,
            Seq::<usize>::empty(),
        ),
{
    let targets = ready_nodes(initial, edges, initial.len() as int);
    let nodes = queue_all(initial, targets);
    lemma_ready_nodes(initial, edges, initial.len() as int);
    assert forall|v: int| #[trigger] targets.contains(v) implies 0 <= v < initial.len() && is_ready(initial, edges, v) by {}
    lemma_queue_all(initial, edges, targets);
    assert forall|v: int| 0 <= v < nodes.len() implies (initial[v] is Computed || initial[v] is ToCompute) by {
        if is_source(edges, v) {
            assert(initial[v] is Computed);
        } else {
            assert(initial[v] is ToCompute);
        }
    }
    assert(nodes_on_course(initial, nodes, edges)) by {
        assert forall|v: int| 0 <= v < nodes.len() && (initial[v] is Computed || nodes[v] is ToCompute) implies #[trigger] nodes[v] == initial[v] by {
            if targets.contains(v) {
                assert(is_ready(initial, edges, v));
            }
        }
    }
    assert(queued_nodes_placed(nodes, tasks, assigned)) by {
        assert forall|v: int| 0 <= v < nodes.len() implies (#[trigger] nodes[v] is BootstrapQueued <==> in_queue(tasks, v) || is_assigned(assigned, v)) by {
            lemma_matching_tasks(tasks, targets, initial, edges, priorities, v);
            assert(initial[v] is Computed || initial[v] is ToCompute);
        }
        assert forall|i: int| 0 <= i < tasks.len() implies (#[trigger] tasks[i]).1.index < nodes.len() && !is_assigned(
            assigned,
            tasks[i].1.index as int,
        ) by {
            assert(is_task_for(tasks[i], initial, edges, priorities, targets[i]));
            assert(targets.contains(targets[i]));
        }
        assert forall|i: int, j: int| 0 <= i < j < tasks.len() implies (#[trigger] tasks[i]).1.index != (#[trigger] tasks[j]).1.index by {
            assert(is_task_for(tasks[i], initial, edges, priorities, targets[i]));
            assert(is_task_for(tasks[j], initial, edges, priorities, targets[j]));
        }
    }
    assert(queue_holds_tasks(initial, nodes, edges, priorities, tasks)) by {
        assert forall|i: int| 0 <= i < tasks.len() implies is_task_of(
            #[trigger] tasks[i],
            initial,
            nodes,
            edges,
            priorities,
            tasks[i].1.index as int,
        ) by {
            assert(is_task_for(tasks[i], initial, edges, priorities, targets[i]));
            assert(targets.contains(targets[i]));
            crate::fhe_graph::lemma_same_computed_nodes(initial, nodes, edges, targets[i]);
        }
    }
    assert(log_is_exact(initial, nodes, Seq::<usize>::empty())) by {
        assert forall|v: int| 0 <= v < nodes.len() implies !(initial[v] is ToCompute && nodes[v] is Computed) by {
            if targets.contains(v) {
                assert(is_ready(initial, edges, v));
            }
        }
    }
}

/// After the result of a worker was committed the books balance again: the
/// worker is idle, the tasks of the successors that became ready have joined
/// the queue, and the node is on the log.
pub proof fn lemma_commit_balances(
    initial: Seq<Node>,
    nodes: Seq<Node>,
    edges: Seq<Edge>,
    priorities: Seq<i32>,
    queue: Seq<(Priority, IndexedCtsAndLut)>,
    assigned: Seq<Option<usize>>,
    committed: Seq<usize>,
    worker: int,
    computed: Node,
    tasks: Seq<(Priority, IndexedCtsAndLut)>,
)
    requires
        books_balance(initial, nodes, edges, priorities, queue, assigned, committed),
        0 <= worker < assigned.len(),
        assigned[worker] is Some,
        computed is Computed,
        ({
            let index = assigned[worker]->Some_0 as int;
            let mid = nodes.update(index, computed);
            let out = outgoing(edges, index);
            let targets = ready_successors(mid, edges, out, out.len() as int);
            &&& tasks_match(tasks, targets, mid, edges, priorities)
            &&& in_progress(queue_all(mid, targets), edges)
        }),
    ensures
        ({
            let index = assigned[worker]->Some_0 as int;
            let mid = nodes.update(index, computed);
            let out = outgoing(edges, index);
            let targets = ready_successors(mid, edges, out, out.len() as int);
            books_balance(
                initial,
                queue_all(mid, targets),
                edges,
                priorities,
                queue + tasks,
                assigned.update(worker, None),
                committed.push(index as usize),
            )
        }),
{
    let index = assigned[worker]->Some_0 as int;
    let mid = nodes.update(index, computed);
    let out = outgoing(edges, index);
    let targets = ready_successors(mid, edges, out, out.len() as int);
    let after = queue_all(mid, targets);
    let longer = queue + tasks;
    let freed = assigned.update(worker, None);
    let log = committed.push(index as usize);
    lemma_outgoing_from(edges, index, 0);
    lemma_ready_successors(mid, edges, out, out.len() as int);
    assert(is_assigned(assigned, index)) by {
        assert(assigned[worker] == Some(index as usize));
    }
    assert(nodes[index] is BootstrapQueued);
    assert forall|v: int| #[trigger] targets.contains(v) implies 0 <= v < mid.len() && is_ready(mid, edges, v) by {
        assert(reached_by(edges, out, out.len() as int, v));
        let j = choose|j: int| 0 <= j < out.len() && edges[#[trigger] out[j] as int].target == v;
        assert(out[j] < edges.len());
    }
    lemma_queue_all(mid, edges, targets);
    assert(!targets.contains(index));
    assert forall|v: int| 0 <= v < nodes.len() implies (initial[v] is Computed || initial[v] is ToCompute) by {
        if is_source(edges, v) {
            assert(initial[v] is Computed);
        } else {
            assert(initial[v] is ToCompute);
        }
    }
    assert(initial[index] is ToCompute) by {
        if initial[index] is Computed {
            assert(nodes[index] == initial[index]);
        }
    }
    assert forall|v: int| 0 <= v < nodes.len() implies (is_assigned(freed, v) <==> is_assigned(assigned, v) && v != index) by {
        if is_assigned(freed, v) {
            let x = choose|x: int| 0 <= x < freed.len() && #[trigger] freed[x] == Some(v as usize);
            assert(assigned[x] == Some(v as usize));
            if v == index {
                if x < worker {
                    assert(assigned[x] != assigned[worker]);
                } else {
                    assert(assigned[worker] != assigned[x]);
                }
            }
        }
        if is_assigned(assigned, v) && v != index {
            let x = choose|x: int| 0 <= x < assigned.len() && #[trigger] assigned[x] == Some(v as usize);
            assert(freed[x] == Some(v as usize));
        }
    }
    assert(nodes_on_course(initial, after, edges)) by {
        assert forall|v: int| 0 <= v < after.len() && (initial[v] is Computed || after[v] is ToCompute) implies #[trigger] after[v] == initial[v] by {
            if targets.contains(v) {
                assert(is_ready(mid, edges, v));
            }
            if initial[v] is Computed {
                assert(nodes[v] == initial[v]);
            }
            if after[v] is ToCompute {
                assert(after[v] == mid[v]);
                assert(nodes[v] == initial[v]);
            }
        }
    }
    assert(queued_nodes_placed(after, longer, freed)) by {
        assert forall|v: int| 0 <= v < after.len() implies (#[trigger] after[v] is BootstrapQueued <==> in_queue(longer, v) || is_assigned(freed, v)) by {
            lemma_in_joined_queue(queue, tasks, v);
            lemma_matching_tasks(tasks, targets, mid, edges, priorities, v);
            assert(nodes[v] is BootstrapQueued <==> in_queue(queue, v) || is_assigned(assigned, v));
            if targets.contains(v) {
                assert(is_ready(mid, edges, v));
            }
            if in_queue(queue, v) {
                let i = choose|i: int| 0 <= i < queue.len() && (#[trigger] queue[i]).1.index == v;
                assert(!is_assigned(assigned, queue[i].1.index as int));
            }
        }
        assert forall|i: int| 0 <= i < longer.len() implies (#[trigger] longer[i]).1.index < after.len() && !is_assigned(
            freed,
            longer[i].1.index as int,
        ) by {
            if i < queue.len() {
                assert(longer[i] == queue[i]);
                assert(queue[i].1.index < nodes.len() && !is_assigned(assigned, queue[i].1.index as int));
            } else {
                let t = i - queue.len();
                assert(longer[i] == tasks[t]);
                assert(is_task_for(tasks[t], mid, edges, priorities, targets[t]));
                assert(targets.contains(targets[t]));
                assert(is_ready(mid, edges, targets[t]));
                assert(nodes[targets[t]] is ToCompute);
            }
        }
        assert forall|i: int, j: int| 0 <= i < j < longer.len() implies (#[trigger] longer[i]).1.index != (#[trigger] longer[j]).1.index by {
            if j < queue.len() {
                assert(queue[i].1.index != queue[j].1.index);
            } else if i >= queue.len() {
                let s = i - queue.len();
                let t = j - queue.len();
                assert(is_task_for(tasks[s], mid, edges, priorities, targets[s]));
                assert(is_task_for(tasks[t], mid, edges, priorities, targets[t]));
            } else {
                let t = j - queue.len();
                assert(is_task_for(tasks[t], mid, edges, priorities, targets[t]));
                assert(targets.contains(targets[t]));
                assert(is_ready(mid, edges, targets[t]));
                assert(nodes[targets[t]] is ToCompute);
                assert(in_queue(queue, queue[i].1.index as int));
                assert(nodes[queue[i].1.index as int] is BootstrapQueued);
            }
        }
        assert forall|x: int| 0 <= x < freed.len() && (#[trigger] freed[x]) is Some implies freed[x]->Some_0 < after.len() by {
            assert(assigned[x] is Some);
        }
        assert forall|x: int, y: int| 0 <= x < y < freed.len() && (#[trigger] freed[x]) is Some implies freed[x] != #[trigger] freed[y] by {
            assert(assigned[x] is Some);
            assert(assigned[x] != assigned[y]);
        }
    }
    assert(queue_holds_tasks(initial, after, edges, priorities, longer)) by {
        assert forall|i: int| 0 <= i < longer.len() implies is_task_of(
            #[trigger] longer[i],
            initial,
            after,
            edges,
            priorities,
            longer[i].1.index as int,
        ) by {
            if i < queue.len() {
                let v = queue[i].1.index as int;
                assert(is_task_of(queue[i], initial, nodes, edges, priorities, v));
                assert(in_queue(queue, v));
                assert(nodes[v] is BootstrapQueued);
                assert(nodes[v] is ToCompute <==> !predecessors_computed(nodes, edges, v));
                assert forall|u: int| 0 <= u < nodes.len() && nodes[u] is Computed implies #[trigger] after[u] == nodes[u] by {
                    if targets.contains(u) {
                        assert(is_ready(mid, edges, u));
                    }
                }
                crate::fhe_graph::lemma_terms_persist(nodes, after, edges, v);
            } else {
                let t = i - queue.len();
                assert(longer[i] == tasks[t]);
                assert(is_task_for(tasks[t], mid, edges, priorities, targets[t]));
                assert(targets.contains(targets[t]));
                assert(is_ready(mid, edges, targets[t]));
                crate::fhe_graph::lemma_same_computed_nodes(mid, after, edges, targets[t]);
                assert(nodes[targets[t]] == initial[targets[t]]);
            }
        }
    }
    assert(log_is_exact(initial, after, log)) by {
        assert(!committed.contains(index as usize));
        assert(log[committed.len() as int] == index as usize);
        assert forall|i: int, j: int| 0 <= i < log.len() && 0 <= j < log.len() && i != j implies log[i] != log[j] by {
            if i < committed.len() {
                assert(committed.contains(committed[i]));
            }
            if j < committed.len() {
                assert(committed.contains(committed[j]));
            }
        }
        assert forall|v: int| 0 <= v < after.len() implies (#[trigger] log.contains(v as usize) <==> initial[v] is ToCompute && after[v] is Computed) by {
            assert(committed.contains(v as usize) <==> initial[v] is ToCompute && nodes[v] is Computed);
            if targets.contains(v) {
                assert(is_ready(mid, edges, v));
            }
            if log.contains(v as usize) {
                let i = choose|i: int| 0 <= i < log.len() && log[i] == v as usize;
                if i < committed.len() {
                    assert(committed[i] == v as usize);
                }
            }
            if committed.contains(v as usize) {
                let i = choose|i: int| 0 <= i < committed.len() && committed[i] == v as usize;
                assert(log[i] == v as usize);
            }
        }
    }
}

/// No worker is idle while a task waits.
pub open spec fn workers_kept_busy(queue: Seq<(Priority, IndexedCtsAndLut)>, assigned: Seq<Option<usize>>) -> bool {
    queue.len() > 0 ==> forall|w: int| 0 <= w < assigned.len() ==> #[trigger] assigned[w] is Some
}

/// The log is as long as the nodes that were to compute and now are computed
/// are many.
pub proof fn lemma_log_length(initial: Seq<Node>, nodes: Seq<Node>, committed: Seq<usize>)
    requires
        initial.len() == nodes.len(),
        nodes.len() <= usize::MAX,
        log_is_exact(initial, nodes, committed),
        forall|v: int| 0 <= v < nodes.len() && initial[v] is Computed ==> #[trigger] nodes[v] is Computed,
        forall|v: int| 0 <= v < nodes.len() ==> #[trigger] initial[v] is Computed || initial[v] is ToCompute,
    ensures
        committed.len() + crate::fhe_graph::count_not_computed(nodes) == crate::fhe_graph::count_not_computed(initial),
    decreases nodes.len(),
{
    if nodes.len() == 0 {
        if committed.len() > 0 {
            assert(committed[0] < nodes.len());
        }
    } else {
        let last = (nodes.len() - 1) as int;
        let shorter_initial = initial.drop_last();
        let shorter_nodes = nodes.drop_last();
        if committed.contains(last as usize) {
            let i = choose|i: int| 0 <= i < committed.len() && committed[i] == last as usize;
            let rest = committed.remove(i);
            assert(rest.no_duplicates()) by {
                assert forall|x: int, y: int| 0 <= x < rest.len() && 0 <= y < rest.len() && x != y implies rest[x] != rest[y] by {
                    let x0 = if x < i { x } else { x + 1 };
                    let y0 = if y < i { y } else { y + 1 };
                    assert(rest[x] == committed[x0] && rest[y] == committed[y0]);
                }
            }
            assert forall|v: usize| rest.contains(v) <==> committed.contains(v) && v != last as usize by {
                if rest.contains(v) {
                    let x = choose|x: int| 0 <= x < rest.len() && rest[x] == v;
                    let x0 = if x < i { x } else { x + 1 };
                    assert(committed[x0] == v);
                    assert(x0 != i);
                }
                if committed.contains(v) && v != last as usize {
                    let x = choose|x: int| 0 <= x < committed.len() && committed[x] == v;
                    let x1 = if x < i { x } else { x - 1 };
                    assert(rest[x1] == v);
                }
            }
            assert forall|v: int| 0 <= v < shorter_nodes.len() implies (#[trigger] rest.contains(v as usize) <==> shorter_initial[v] is ToCompute && shorter_nodes[v] is Computed) by {
                assert(committed.contains(v as usize) <==> initial[v] is ToCompute && nodes[v] is Computed);
            }
            assert forall|x: int| 0 <= x < rest.len() implies #[trigger] rest[x] < shorter_nodes.len() by {
                assert(rest.contains(rest[x]));
                let x0 = if x < i { x } else { x + 1 };
                assert(committed[x0] < nodes.len());
            }
            lemma_log_length(shorter_initial, shorter_nodes, rest);
        } else {
            assert forall|v: int| 0 <= v < shorter_nodes.len() implies (#[trigger] committed.contains(v as usize) <==> shorter_initial[v] is ToCompute && shorter_nodes[v] is Computed) by {
                assert(committed.contains(v as usize) <==> initial[v] is ToCompute && nodes[v] is Computed);
            }
            assert forall|x: int| 0 <= x < committed.len() implies #[trigger] committed[x] < shorter_nodes.len() by {
                assert(committed.contains(committed[x]));
                assert(committed[x] < nodes.len());
            }
            assert(initial[last] is Computed ==> nodes[last] is Computed);
            lemma_log_length(shorter_initial, shorter_nodes, committed);
        }
    }
}

/// The tasks of a list of dispatches, each with its priority.
pub open spec fn dispatched_tasks(dispatches: Seq<Dispatch>) -> Seq<(Priority, IndexedCtsAndLut)> {
    dispatches.map_values(|d: Dispatch| (d.priority, d.task))
}

/// `dispatches` hands the tasks of `pool` that go first to the workers that
/// were idle, by rising rank of the worker, one task for each, until the
/// tasks or the idle workers run out; `queue_after` keeps the rest.
pub open spec fn is_fair_assignment(
    pool: Seq<(Priority, IndexedCtsAndLut)>,
    assigned_before: Seq<Option<usize>>,
    queue_after: Seq<(Priority, IndexedCtsAndLut)>,
    assigned_after: Seq<Option<usize>>,
    dispatches: Seq<Dispatch>,
) -> bool {
    &&& assigned_after.len() == assigned_before.len()
    &&& pool.to_multiset() == queue_after.to_multiset().add(dispatched_tasks(dispatches).to_multiset())
    &&& forall|k: int| 0 <= k < dispatches.len() ==> {
        let d = #[trigger] dispatches[k];
        &&& d.worker < assigned_before.len()
        &&& assigned_before[d.worker as int] is None
        &&& assigned_after[d.worker as int] == Some(d.task.index)
    }
    &&& forall|k: int, l: int| 0 <= k < l < dispatches.len() ==> {
        &&& (#[trigger] dispatches[k]).worker < (#[trigger] dispatches[l]).worker
        &&& !outranks((dispatches[l].priority, dispatches[l].task), (dispatches[k].priority, dispatches[k].task))
    }
    &&& forall|w: int| 0 <= w < assigned_before.len() ==> {
        ||| #[trigger] assigned_after[w] == assigned_before[w]
        ||| exists|k: int| 0 <= k < dispatches.len() && (#[trigger] dispatches[k]).worker == w
    }
    &&& forall|k: int, i: int| 0 <= k < dispatches.len() && 0 <= i < queue_after.len() ==> !outranks(
        #[trigger] queue_after[i],
        ((#[trigger] dispatches[k]).priority, dispatches[k].task),
    )
    &&& workers_kept_busy(queue_after, assigned_after)
}

/// Every dispatch carries the task of its node: the ciphertexts of the
/// predecessors of the node as the graph holds them, with the weights of the
/// edges, the lookup table of the node, and its priority.
pub open spec fn dispatches_hold_tasks(engine: Engine, dispatches: Seq<Dispatch>) -> bool {
    forall|k: int| 0 <= k < dispatches.len() ==> is_task_of(
        ((#[trigger] dispatches[k]).priority, dispatches[k].task),
        engine.initial(),
        engine.graph().nodes(),
        engine.graph().edges(),
        engine.graph().priorities(),
        dispatches[k].task.index as int,
    )
}

/// The master of a run.
pub struct Engine {
    graph: FheGraph,
    queue: Vec<(Priority, IndexedCtsAndLut)>,
    assigned: Vec<Option<usize>>,
    started: bool,
    to_compute_at_start: usize,
    initial: Ghost<Seq<Node>>,
    committed: Ghost<Seq<usize>>,
}

impl Engine {
    /// The graph as it is now.
    pub closed spec fn graph(&self) -> FheGraph {
        self.graph
    }

    /// The tasks that wait for a worker.
    pub closed spec fn queue(&self) -> Seq<(Priority, IndexedCtsAndLut)> {
        self.queue@
    }

    /// For every worker, the node it is busy with.
    pub closed spec fn assigned(&self) -> Seq<Option<usize>> {
        self.assigned@
    }

    /// Whether the run was started.
    pub closed spec fn started(&self) -> bool {
        self.started
    }

    /// The nodes as they were when the run was started.
    pub closed spec fn initial(&self) -> Seq<Node> {
        self.initial@
    }

    /// The nodes whose results were committed, in the order in which they
    /// came in.
    pub closed spec fn committed(&self) -> Seq<usize> {
        self.committed@
    }

    /// What holds of the master between two events.
    pub closed spec fn wf(&self) -> bool {
        &&& self.graph.wf()
        &&& self.assigned@.len() >= 1
        &&& if self.started {
            &&& self.committed@.len() + self.graph.not_computed() == self.to_compute_at_start
            &&& books_balance(
                self.initial@,
                self.graph.nodes(),
                self.graph.edges(),
                self.graph.priorities(),
                self.queue@,
                self.assigned@,
                self.committed@,
            )
            &&& workers_kept_busy(self.queue@, self.assigned@)
        } else {
            &&& self.queue@.len() == 0
            &&& self.committed@.len() == 0
            &&& forall|w: int| 0 <= w < self.assigned@.len() ==> #[trigger] self.assigned@[w] is None
        }
    }

    /// What holds of a run under way, whether or not idle workers were
    /// given their tasks yet.
    closed spec fn on_course(&self) -> bool {
        &&& self.graph.wf()
        &&& self.assigned@.len() >= 1
        &&& self.committed@.len() + self.graph.not_computed() == self.to_compute_at_start
        &&& self.started
        &&& books_balance(
            self.initial@,
            self.graph.nodes(),
            self.graph.edges(),
            self.graph.priorities(),
            self.queue@,
            self.assigned@,
            self.committed@,
        )
    }

    /// Gives every idle worker, by rising rank, the task that goes first,
    /// until the queue is empty.
    fn assign_idle(&mut self) -> (dispatches: Vec<Dispatch>)
        requires
            old(self).on_course(),
        ensures
            final(self).wf(),
            final(self).started,
            final(self).graph == old(self).graph,
            final(self).initial@ == old(self).initial@,
            final(self).committed@ == old(self).committed@,
            is_fair_assignment(old(self).queue@, old(self).assigned@, final(self).queue@, final(self).assigned@, dispatches@),
            forall|k: int| 0 <= k < dispatches@.len() ==> is_task_of(
                ((#[trigger] dispatches@[k]).priority, dispatches@[k].task),
                final(self).initial@,
                final(self).graph.nodes(),
                final(self).graph.edges(),
                final(self).graph.priorities(),
                dispatches@[k].task.index as int,
            ),
    {
        broadcast use vstd::seq_lib::group_to_multiset_ensures;

        let worker_count = self.assigned.len();
        let mut dispatches: Vec<Dispatch> = Vec::new();
        let mut w: usize = 0;
        proof {
            assert(dispatched_tasks(dispatches@) =~= Seq::<(Priority, IndexedCtsAndLut)>::empty());
            assert(old(self).queue@.to_multiset() =~= self.queue@.to_multiset().add(
                dispatched_tasks(dispatches@).to_multiset(),
            ));
        }
        while w < worker_count
            invariant
                w <= worker_count,
                worker_count == self.assigned@.len(),
                self.on_course(),
                self.graph == old(self).graph,
                self.initial@ == old(self).initial@,
                self.committed@ == old(self).committed@,
                self.assigned@.len() == old(self).assigned@.len(),
                old(self).queue@.to_multiset() == self.queue@.to_multiset().add(dispatched_tasks(dispatches@).to_multiset()),
                forall|x: int| w <= x < worker_count ==> #[trigger] self.assigned@[x] == old(self).assigned@[x],
                forall|x: int| 0 <= x < w ==> self.queue@.len() == 0 || #[trigger] self.assigned@[x] is Some,
                forall|k: int| 0 <= k < dispatches@.len() ==> {
                    let d = #[trigger] dispatches@[k];
                    &&& d.worker < w
                    &&& old(self).assigned@[d.worker as int] is None
                    &&& self.assigned@[d.worker as int] == Some(d.task.index)
                },
                forall|k: int, l: int| 0 <= k < l < dispatches@.len() ==> {
                    &&& (#[trigger] dispatches@[k]).worker < (#[trigger] dispatches@[l]).worker
                    &&& !outranks(
                        (dispatches@[l].priority, dispatches@[l].task),
                        (dispatches@[k].priority, dispatches@[k].task),
                    )
                },
                forall|x: int| 0 <= x < w ==> {
                    ||| #[trigger] self.assigned@[x] == old(self).assigned@[x]
                    ||| exists|k: int| 0 <= k < dispatches@.len() && (#[trigger] dispatches@[k]).worker == x
                },
                forall|k: int, i: int| 0 <= k < dispatches@.len() && 0 <= i < self.queue@.len() ==> !outranks(
                    #[trigger] self.queue@[i],
                    ((#[trigger] dispatches@[k]).priority, dispatches@[k].task),
                ),
                forall|k: int| 0 <= k < dispatches@.len() ==> is_task_of(
                    ((#[trigger] dispatches@[k]).priority, dispatches@[k].task),
                    self.initial@,
                    self.graph.nodes(),
                    self.graph.edges(),
                    self.graph.priorities(),
                    dispatches@[k].task.index as int,
                ),
            decreases worker_count - w,
        {
            if self.assigned[w].is_none() {
                let ghost queue_before = self.queue@;
                let ghost assigned_before = self.assigned@;
                let ghost dispatches_before = dispatches@;
                match pop_highest(&mut self.queue) {
                    Some((priority, task)) => {
                        let ghost i = choose|i: int| is_first_in_line(queue_before, i) && (priority, task) == queue_before[i] && self.queue@ == queue_before.remove(i);
                        proof {
                            lemma_dispatch_keeps_balance(self.graph.nodes(), queue_before, assigned_before, i, w as int);
                            assert(is_task_of(
                                queue_before[i],
                                self.initial@,
                                self.graph.nodes(),
                                self.graph.edges(),
                                self.graph.priorities(),
                                queue_before[i].1.index as int,
                            ));
                            assert forall|j: int| 0 <= j < self.queue@.len() implies is_task_of(
                                #[trigger] self.queue@[j],
                                self.initial@,
                                self.graph.nodes(),
                                self.graph.edges(),
                                self.graph.priorities(),
                                self.queue@[j].1.index as int,
                            ) && !outranks(self.queue@[j], queue_before[i]) && queue_before.contains(self.queue@[j]) by {
                                let j0 = if j < i { j } else { j + 1 };
                                assert(self.queue@[j] == queue_before[j0]);
                            }
                        }
                        self.assigned[w] = Some(task.index);
                        dispatches.push(Dispatch { worker: w, priority, task });
                        proof {
                            let last = dispatches_before.len() as int;
                            assert(dispatches@[last].worker == w);
                            assert(dispatched_tasks(dispatches@) =~= dispatched_tasks(dispatches_before).push(queue_before[i]));
                            queue_before.to_multiset_ensures();
                            dispatched_tasks(dispatches_before).to_multiset_ensures();
                            assert(queue_before.contains(queue_before[i]));
                            assert(queue_before.to_multiset().count(queue_before[i]) > 0);
                            assert(self.queue@.to_multiset() =~= queue_before.to_multiset().remove(queue_before[i]));
                            assert(old(self).queue@.to_multiset() =~= self.queue@.to_multiset().add(
                                dispatched_tasks(dispatches@).to_multiset(),
                            ));
                            assert forall|k: int, l: int| 0 <= k < l < dispatches@.len() implies {
                                &&& (#[trigger] dispatches@[k]).worker < (#[trigger] dispatches@[l]).worker
                                &&& !outranks(
                                    (dispatches@[l].priority, dispatches@[l].task),
                                    (dispatches@[k].priority, dispatches@[k].task),
                                )
                            } by {
                                if l == last {
                                    assert(dispatches@[k] == dispatches_before[k]);
                                    assert(!outranks(queue_before[i], (dispatches_before[k].priority, dispatches_before[k].task)));
                                } else {
                                    assert(dispatches@[k] == dispatches_before[k]);
                                    assert(dispatches@[l] == dispatches_before[l]);
                                }
                            }
                            assert forall|x: int| 0 <= x < w + 1 implies {
                                ||| #[trigger] self.assigned@[x] == old(self).assigned@[x]
                                ||| exists|k: int| 0 <= k < dispatches@.len() && (#[trigger] dispatches@[k]).worker == x
                            } by {
                                if x < w {
                                    if assigned_before[x] != old(self).assigned@[x] {
                                        let k = choose|k: int| 0 <= k < dispatches_before.len() && (#[trigger] dispatches_before[k]).worker == x;
                                        assert(dispatches@[k].worker == x);
                                    }
                                }
                            }
                            assert forall|k: int, j: int| 0 <= k < dispatches@.len() && 0 <= j < self.queue@.len() implies !outranks(
                                #[trigger] self.queue@[j],
                                ((#[trigger] dispatches@[k]).priority, dispatches@[k].task),
                            ) by {
                                let j0 = if j < i { j } else { j + 1 };
                                assert(self.queue@[j] == queue_before[j0]);
                                if k < last {
                                    assert(dispatches@[k] == dispatches_before[k]);
                                    assert(!outranks(queue_before[j0], (dispatches_before[k].priority, dispatches_before[k].task)));
                                }
                            }
                            assert forall|k: int| 0 <= k < dispatches@.len() implies {
                                let d = #[trigger] dispatches@[k];
                                &&& d.worker < w + 1
                                &&& old(self).assigned@[d.worker as int] is None
                                &&& self.assigned@[d.worker as int] == Some(d.task.index)
                            } by {
                                if k < last {
                                    assert(dispatches@[k] == dispatches_before[k]);
                                }
                            }
                            assert forall|k: int| 0 <= k < dispatches@.len() implies is_task_of(
                                ((#[trigger] dispatches@[k]).priority, dispatches@[k].task),
                                self.initial@,
                                self.graph.nodes(),
                                self.graph.edges(),
                                self.graph.priorities(),
                                dispatches@[k].task.index as int,
                            ) by {
                                if k < last {
                                    assert(dispatches@[k] == dispatches_before[k]);
                                }
                            }
                        }
                    },
                    None => {},
                }
            }
            w += 1;
        }
        dispatches
    }

    /// Starts the run: checks the graph, queues the tasks of the nodes that
    /// are ready, and gives the idle workers theirs.
    pub fn start(&mut self) -> (r: Result<Vec<Dispatch>, EngineError>)
        requires
            old(self).wf(),
        ensures
            final(self).wf(),
            final(self).graph().edges() == old(self).graph().edges(),
            final(self).graph().priorities() == old(self).graph().priorities(),
            final(self).graph().not_computed() == old(self).graph().not_computed(),
            match r {
                Ok(dispatches) => {
                    let start = old(self).graph().nodes();
                    let edges = old(self).graph().edges();
                    let targets = ready_nodes(start, edges, start.len() as int);
                    &&& !old(self).started()
                    &&& final(self).started()
                    &&& well_formed_at_start(start, edges)
                    &&& final(self).initial() == start
                    &&& final(self).committed() == Seq::<usize>::empty()
                    &&& final(self).graph().nodes() == queue_all(start, targets)
                    &&& exists|tasks: Seq<(Priority, IndexedCtsAndLut)>| {
                        &&& #[trigger] tasks_match(tasks, targets, start, edges, old(self).graph().priorities())
                        &&& is_fair_assignment(tasks, old(self).assigned(), final(self).queue(), final(self).assigned(), dispatches@)
                    }
                    &&& dispatches_hold_tasks(*final(self), dispatches@)
                },
                Err(e) => {
                    &&& final(self).started() == old(self).started()
                    &&& final(self).graph().nodes() == old(self).graph().nodes()
                    &&& final(self).queue() == old(self).queue()
                    &&& final(self).assigned() == old(self).assigned()
                    &&& final(self).committed() == old(self).committed()
                    &&& final(self).initial() == old(self).initial()
                    &&& if old(self).started() {
                        e == EngineError::AlreadyStarted
                    } else {
                        &&& !well_formed_at_start(old(self).graph().nodes(), old(self).graph().edges())
                        &&& e matches EngineError::Graph(GraphError::UnexpectedState { index, expected, actual })
                        &&& index < old(self).graph().nodes().len()
                        &&& actual == old(self).graph().nodes()[index as int].state()
                        &&& actual != expected
                    }
                },
            },
    {
        if self.started {
            return Err(EngineError::AlreadyStarted);
        }
        let ghost start = self.graph.nodes();
        proof {
            self.graph.lemma_wf();
        }
        let tasks = match self.graph.init() {
            Ok(tasks) => tasks,
            Err(e) => {
                return Err(EngineError::Graph(e));
            },
        };
        let ghost found = tasks@;
        proof {
            self.graph.lemma_wf();
            lemma_start_balances(start, self.graph.edges(), self.graph.priorities(), tasks@, self.assigned@);
        }
        self.queue = tasks;
        self.started = true;
        self.to_compute_at_start = self.graph.not_computed_nodes_count();
        self.initial = Ghost(start);
        self.committed = Ghost(Seq::empty());
        let dispatches = self.assign_idle();
        proof {
            assert(tasks_match(
                found,
                ready_nodes(start, self.graph.edges(), start.len() as int),
                start,
                self.graph.edges(),
                self.graph.priorities(),
            ));
        }
        Ok(dispatches)
    }

    /// Takes the result that `worker` sends for the node it was given: the
    /// result is committed to the graph, the tasks of the successors that
    /// became ready join the queue, and the idle workers, this one among
    /// them, are given theirs.
    pub fn on_result(&mut self, worker: usize, result: IndexedCt) -> (r: Result<Vec<Dispatch>, EngineError>)
        requires
            old(self).wf(),
        ensures
            final(self).wf(),
            final(self).started() == old(self).started(),
            final(self).initial() == old(self).initial(),
            final(self).graph().edges() == old(self).graph().edges(),
            final(self).graph().priorities() == old(self).graph().priorities(),
            match r {
                Ok(dispatches) => {
                    let index = result.index as int;
                    let edges = old(self).graph().edges();
                    let mid = old(self).graph().nodes().update(index, final(self).graph().nodes()[index]);
                    let out = outgoing(edges, index);
                    let targets = ready_successors(mid, edges, out, out.len() as int);
                    &&& old(self).started()
                    &&& worker < old(self).assigned().len()
                    &&& old(self).assigned()[worker as int] == Some(result.index)
                    &&& index < old(self).graph().nodes().len()
                    &&& final(self).graph().nodes()[index] matches Node::Computed(ct) && *ct == result.ct
                    &&& final(self).graph().nodes() == queue_all(mid, targets)
                    &&& final(self).graph().not_computed() == old(self).graph().not_computed() - 1
                    &&& final(self).committed() == old(self).committed().push(result.index)
                    &&& exists|tasks: Seq<(Priority, IndexedCtsAndLut)>| {
                        &&& #[trigger] tasks_match(tasks, targets, mid, edges, old(self).graph().priorities())
                        &&& is_fair_assignment(
                            old(self).queue() + tasks,
                            old(self).assigned().update(worker as int, None),
                            final(self).queue(),
                            final(self).assigned(),
                            dispatches@,
                        )
                    }
                    &&& dispatches_hold_tasks(*final(self), dispatches@)
                },
                Err(e) => {
                    &&& final(self).graph().nodes() == old(self).graph().nodes()
                    &&& final(self).graph().not_computed() == old(self).graph().not_computed()
                    &&& final(self).queue() == old(self).queue()
                    &&& final(self).assigned() == old(self).assigned()
                    &&& final(self).committed() == old(self).committed()
                    &&& e == if !old(self).started() {
                        EngineError::NotStarted
                    } else if worker >= old(self).assigned().len() {
                        EngineError::UnknownWorker { worker }
                    } else if old(self).assigned()[worker as int] is Some {
                        EngineError::WrongNode {
                            worker,
                            expected: old(self).assigned()[worker as int]->Some_0,
                            actual: result.index,
                        }
                    } else {
                        EngineError::IdleWorker { worker }
                    }
                    &&& old(self).started() && worker < old(self).assigned().len() ==> old(self).assigned()[worker as int] != Some(result.index)
                },
            },
    {
        if !self.started {
            return Err(EngineError::NotStarted);
        }
        if worker >= self.assigned.len() {
            return Err(EngineError::UnknownWorker { worker });
        }
        let index = result.index;
        match self.assigned[worker] {
            None => {
                return Err(EngineError::IdleWorker { worker });
            },
            Some(expected) => {
                if expected != index {
                    return Err(EngineError::WrongNode { worker, expected, actual: index });
                }
            },
        }
        let ghost nodes_before = self.graph.nodes();
        let ghost queue_before = self.queue@;
        let ghost assigned_before = self.assigned@;
        proof {
            self.graph.lemma_wf();
            assert(is_assigned(self.assigned@, index as int)) by {
                assert(self.assigned@[worker as int] == Some(index));
            }
            assert(nodes_before[index as int] is BootstrapQueued);
        }
        let mut tasks = match self.graph.commit_result(result) {
            Ok(tasks) => tasks,
            Err(e) => {
                return Err(EngineError::Graph(e));
            },
        };
        let ghost found = tasks@;
        proof {
            self.graph.lemma_wf();
            lemma_commit_balances(
                self.initial@,
                nodes_before,
                self.graph.edges(),
                self.graph.priorities(),
                queue_before,
                assigned_before,
                self.committed@,
                worker as int,
                self.graph.nodes()[index as int],
                found,
            );
        }
        self.assigned[worker] = None;
        self.queue.append(&mut tasks);
        self.committed = Ghost(self.committed@.push(index));
        let dispatches = self.assign_idle();
        proof {
            let edges = self.graph.edges();
            let mid = nodes_before.update(index as int, self.graph.nodes()[index as int]);
            let out = outgoing(edges, index as int);
            assert(tasks_match(
                found,
                ready_successors(mid, edges, out, out.len() as int),
                mid,
                edges,
                self.graph.priorities(),
            ));
        }
        Ok(dispatches)
    }

    /// Where the run is.
    pub open spec fn spec_phase(&self) -> Phase {
        if !self.started() {
            Phase::Idle
        } else if all_computed(self.graph().nodes()) {
            Phase::Finished
        } else if self.queue().len() > 0 {
            Phase::Running
        } else {
            Phase::Draining
        }
    }

    /// Where the run is.
    #[verifier::when_used_as_spec(spec_phase)]
    pub fn phase(&self) -> (r: Phase)
        requires
            self.wf(),
        ensures
            r == self.spec_phase(),
    {
        if !self.started {
            Phase::Idle
        } else if self.graph.is_finished() {
            Phase::Finished
        } else if self.queue.len() > 0 {
            Phase::Running
        } else {
            Phase::Draining
        }
    }

    /// As long as a run is not finished, the master has a result to wait
    /// for: some worker is busy.  So a run that is waited out ends with every
    /// node computed and the count of the nodes to compute at zero.
    pub proof fn lemma_unfinished_run_has_busy_worker(&self)
        requires
            self.wf(),
            self.started(),
        ensures
            all_computed(self.graph().nodes()) <==> self.graph().not_computed() == 0,
            !all_computed(self.graph().nodes()) ==> some_worker_busy(self.assigned()),
            !some_worker_busy(self.assigned()) ==> self.phase() == Phase::Finished,
            self.phase() == Phase::Running ==> forall|w: int| 0 <= w < self.assigned().len() ==> #[trigger] self.assigned()[w] is Some,
    {
        self.graph.lemma_wf();
        crate::fhe_graph::lemma_count_not_computed_bound(self.graph.nodes());
        if !all_computed(self.graph.nodes()) {
            let u = crate::fhe_graph::lemma_pending_run_has_queued_node(
                self.graph.nodes(),
                self.graph.edges(),
                self.graph.priorities(),
            );
            if in_queue(self.queue@, u) {
                assert(self.assigned@[0] is Some);
            } else {
                let w = choose|w: int| 0 <= w < self.assigned@.len() && #[trigger] self.assigned@[w] == Some(u as usize);
                assert(self.assigned@[w] is Some);
            }
        }
    }

    /// No node is handed out or committed twice: the log of the committed
    /// nodes holds no node twice and only nodes that were to compute at the
    /// start, a node on the log is computed, a node in the queue or with a
    /// worker is not on the log, and at the end of the run the log holds
    /// every node that was to compute.
    pub proof fn lemma_each_node_committed_once(&self)
        requires
            self.wf(),
            self.started(),
        ensures
            self.committed().no_duplicates(),
            self.initial().len() == self.graph().nodes().len(),
            forall|v: int| 0 <= v < self.initial().len() ==> (#[trigger] self.committed().contains(v as usize) <==> self.initial()[v] is ToCompute && self.graph().nodes()[v] is Computed),
            forall|i: int| 0 <= i < self.committed().len() ==> #[trigger] self.committed()[i] < self.initial().len(),
            forall|v: int| 0 <= v < self.initial().len() && (in_queue(self.queue(), v) || is_assigned(self.assigned(), v)) ==> !self.committed().contains(v as usize),
            self.phase() == Phase::Finished ==> forall|v: int| 0 <= v < self.initial().len() ==> (#[trigger] self.committed().contains(v as usize) <==> self.initial()[v] is ToCompute),
            self.committed().len() + self.graph().not_computed() == crate::fhe_graph::count_not_computed(self.initial()),
    {
        self.graph.lemma_wf();
        assert forall|v: int| 0 <= v < self.initial@.len() && (in_queue(self.queue@, v) || is_assigned(self.assigned@, v)) implies !self.committed@.contains(
            v as usize,
        ) by {
            assert(self.graph.nodes()[v] is BootstrapQueued);
        }
        assert forall|v: int| 0 <= v < self.initial@.len() implies #[trigger] self.initial@[v] is Computed || self.initial@[v] is ToCompute by {
            if is_source(self.graph.edges(), v) {
                assert(self.initial@[v] is Computed);
            } else {
                assert(self.initial@[v] is ToCompute);
            }
        }
        assert forall|v: int| 0 <= v < self.initial@.len() && self.initial@[v] is Computed implies #[trigger] self.graph.nodes()[v] is Computed by {
            assert(self.graph.nodes()[v] == self.initial@[v]);
        }
        lemma_log_length(self.initial@, self.graph.nodes(), self.committed@);
    }

    /// The inputs of the run are never touched, and a node that still waits
    /// is as it was at the start.
    pub proof fn lemma_inputs_kept(&self)
        requires
            self.wf(),
            self.started(),
        ensures
            self.graph().wf(),
            self.initial().len() == self.graph().nodes().len(),
            well_formed_at_start(self.initial(), self.graph().edges()),
            in_progress(self.graph().nodes(), self.graph().edges()),
            forall|v: int| 0 <= v < self.initial().len() && (self.initial()[v] is Computed || self.graph().nodes()[v] is ToCompute) ==> #[trigger] self.graph().nodes()[v] == self.initial()[v],
            forall|w: int| 0 <= w < self.assigned().len() && (#[trigger] self.assigned()[w]) is Some ==> {
                &&& self.assigned()[w]->Some_0 < self.graph().nodes().len()
                &&& self.graph().nodes()[self.assigned()[w]->Some_0 as int] is BootstrapQueued
            },
    {
        assert forall|w: int| 0 <= w < self.assigned@.len() && (#[trigger] self.assigned@[w]) is Some implies {
            &&& self.assigned@[w]->Some_0 < self.graph.nodes().len()
            &&& self.graph.nodes()[self.assigned@[w]->Some_0 as int] is BootstrapQueued
        } by {
            assert(is_assigned(self.assigned@, self.assigned@[w]->Some_0 as int));
        }
    }

    /// Every task in the queue is the task of a queued node: it carries the
    /// ciphertexts of the predecessors of the node with the weights of the
    /// edges, the lookup table of the node, and comes with its priority.
    pub proof fn lemma_queue_holds_tasks(&self)
        requires
            self.wf(),
            self.started(),
        ensures
            forall|i: int| 0 <= i < self.queue().len() ==> {
                let v = (#[trigger] self.queue()[i]).1.index as int;
                &&& v < self.graph().nodes().len()
                &&& self.graph().nodes()[v] is BootstrapQueued
                &&& is_task_of(
                    self.queue()[i],
                    self.initial(),
                    self.graph().nodes(),
                    self.graph().edges(),
                    self.graph().priorities(),
                    v,
                )
            },
    {
        assert forall|i: int| 0 <= i < self.queue@.len() implies {
            let v = (#[trigger] self.queue@[i]).1.index as int;
            &&& v < self.graph.nodes().len()
            &&& self.graph.nodes()[v] is BootstrapQueued
            &&& is_task_of(
                self.queue@[i],
                self.initial@,
                self.graph.nodes(),
                self.graph.edges(),
                self.graph.priorities(),
                v,
            )
        } by {
            assert(in_queue(self.queue@, self.queue@[i].1.index as int));
        }
    }

    /// A master for `graph` with `worker_count` workers, all idle.
    pub fn new(graph: FheGraph, worker_count: usize) -> (engine: Engine)
        requires
            graph.wf(),
            worker_count >= 1,
        ensures
            engine.wf(),
            !engine.started(),
            engine.graph() == graph,
            engine.assigned().len() == worker_count,
            forall|w: int| 0 <= w < worker_count ==> #[trigger] engine.assigned()[w] is None,
            engine.queue().len() == 0,
            engine.committed().len() == 0,
    {
        let mut assigned: Vec<Option<usize>> = Vec::new();
        let mut w: usize = 0;
        while w < worker_count
            invariant
                w <= worker_count,
                assigned@.len() == w,
                forall|x: int| 0 <= x < w ==> #[trigger] assigned@[x] is None,
            decreases worker_count - w,
        {
            assigned.push(None);
            w += 1;
        }
        Engine {
            graph,
            queue: Vec::new(),
            assigned,
            started: false,
            to_compute_at_start: 0,
            initial: Ghost(Seq::empty()),
            committed: Ghost(Seq::empty()),
        }
    }

    /// The number of workers.
    pub fn worker_count(&self) -> (n: usize)
        ensures
            n == self.assigned().len(),
    {
        self.assigned.len()
    }

    /// How many results were committed.
    pub fn commit_count(&self) -> (n: usize)
        requires
            self.wf(),
        ensures
            n == self.committed().len(),
    {
        if self.started {
            self.to_compute_at_start - self.graph.not_computed_nodes_count()
        } else {
            0
        }
    }

    /// How many tasks wait for a worker.
    pub fn queue_len(&self) -> (n: usize)
        ensures
            n == self.queue().len(),
    {
        self.queue.len()
    }

    /// The node that `worker` is busy with.
    pub fn assignment(&self, worker: usize) -> (r: Option<usize>)
        ensures
            worker < self.assigned().len() ==> r == self.assigned()[worker as int],
            worker >= self.assigned().len() ==> r is None,
    {
        if worker < self.assigned.len() {
            self.assigned[worker]
        } else {
            None
        }
    }

    /// True once every node is computed.
    pub fn is_finished(&self) -> (r: bool)
        requires
            self.wf(),
        ensures
            r == all_computed(self.graph().nodes()),
            r == (self.graph().not_computed() == 0),
    {
        self.graph.is_finished()
    }

    /// The graph as it is now.
    pub fn graph_ref(&self) -> (r: &FheGraph)
        requires
            self.wf(),
        ensures
            *r == self.graph(),
            r.wf(),
    {
        &self.graph
    }

    /// Ends the run and gives the graph back.
    pub fn into_graph(self) -> (r: FheGraph)
        requires
            self.wf(),
        ensures
            r == self.graph(),
            r.wf(),
    {
        self.graph
    }
}

} // verus!
