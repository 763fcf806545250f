//! A run in one process, with a function in place of the workers.

use crate::ciphertext::Ciphertext;
use crate::engine::{dispatches_hold_tasks, is_task_of, some_worker_busy, Dispatch, Engine, EngineError};
use crate::fhe_graph::{
    all_computed, in_progress, lemma_commit_changes, lemma_terms_persist, predecessors_computed,
    well_formed_at_start, FheGraph, GraphError,
};
use crate::graph::{edges_in_range, Edge, Node};
use crate::priority::Priority;
use crate::task::{IndexedCt, IndexedCtsAndLut};
use vstd::prelude::*;

verus! {

/// The master has one worker, and `pending` holds what it is busy with.
spec fn in_step(engine: Engine, pending: Seq<Dispatch>) -> bool {
    &&& engine.wf()
    &&& engine.started()
    &&& engine.assigned().len() == 1
    &&& pending.len() <= 1
    &&& pending.len() == 1 ==> pending[0].worker == 0 && engine.assigned()[0] == Some(pending[0].task.index)
    &&& pending.len() == 0 ==> engine.assigned()[0] is None
    &&& dispatches_hold_tasks(engine, pending)
}

/// Node `v` holds what `process` made of the task of `v`: of the ciphertexts
/// of its predecessors with the weights of the edges, and of the lookup table
/// that it had at the start.
pub open spec fn is_made_by<F: Fn(IndexedCtsAndLut) -> Ciphertext>(
    process: F,
    initial: Seq<Node>,
    nodes: Seq<Node>,
    edges: Seq<Edge>,
    priorities: Seq<i32>,
    v: int,
) -> bool {
    nodes[v] matches Node::Computed(ct) && exists|task: IndexedCtsAndLut|
        {
            &&& #[trigger] is_task_of((Priority(priorities[v]), task), initial, nodes, edges, priorities, v)
            &&& process.ensures((task,), *ct)
        }
}

/// Every node that was to compute and now is computed holds what `process`
/// made of its task.
pub open spec fn all_made_by<F: Fn(IndexedCtsAndLut) -> Ciphertext>(
    process: F,
    initial: Seq<Node>,
    nodes: Seq<Node>,
    edges: Seq<Edge>,
    priorities: Seq<i32>,
) -> bool {
    forall|v: int| 0 <= v < nodes.len() && initial[v] is ToCompute && nodes[v] is Computed ==> #[trigger] is_made_by(
        process,
        initial,
        nodes,
        edges,
        priorities,
        v,
    )
}

/// A commit of what `process` made of the task of a node keeps what was made
/// before, and adds the node.
proof fn lemma_commit_keeps_made<F: Fn(IndexedCtsAndLut) -> Ciphertext>(
    process: F,
    initial: Seq<Node>,
    before: Seq<Node>,
    after: Seq<Node>,
    edges: Seq<Edge>,
    priorities: Seq<i32>,
    index: int,
    task: (Priority, IndexedCtsAndLut),
)
    requires
        before.len() == after.len(),
        edges_in_range(edges, before.len()),
        edges.len() <= usize::MAX,
        in_progress(before, edges),
        all_made_by(process, initial, before, edges, priorities),
        0 <= index < before.len(),
        before[index] is BootstrapQueued,
        is_task_of(task, initial, before, edges, priorities, index),
        after[index] matches Node::Computed(ct) && process.ensures((task.1,), *ct),
        forall|v: int| 0 <= v < before.len() && before[v] is Computed ==> #[trigger] after[v] == before[v],
        forall|v: int| 0 <= v < before.len() && v != index && after[v] is Computed ==> #[trigger] before[v] is Computed,
    ensures
        all_made_by(process, initial, after, edges, priorities),
{
    assert forall|v: int| 0 <= v < after.len() && initial[v] is ToCompute && after[v] is Computed implies #[trigger] is_made_by(
        process,
        initial,
        after,
        edges,
        priorities,
        v,
    ) by {
        assert(before[v] is ToCompute <==> !predecessors_computed(before, edges, v));
        lemma_terms_persist(before, after, edges, v);
        if v == index {
            assert(is_task_of((Priority(priorities[v]), task.1), initial, after, edges, priorities, v));
        } else {
            assert(before[v] is Computed);
            assert(is_made_by(process, initial, before, edges, priorities, v));
            let made = choose|made: IndexedCtsAndLut|
                {
                    &&& #[trigger] is_task_of((Priority(priorities[v]), made), initial, before, edges, priorities, v)
                    &&& process.ensures((made,), *before[v]->Computed_0)
                };
            assert(is_task_of((Priority(priorities[v]), made), initial, after, edges, priorities, v));
        }
    }
}

/// With one worker, a fair assignment hands out one task at most.
proof fn lemma_one_worker(
    pool: Seq<(crate::priority::Priority, IndexedCtsAndLut)>,
    assigned_before: Seq<Option<usize>>,
    queue_after: Seq<(crate::priority::Priority, IndexedCtsAndLut)>,
    assigned_after: Seq<Option<usize>>,
    dispatches: Seq<Dispatch>,
)
    requires
        assigned_before.len() == 1,
        assigned_before[0] is None,
        crate::engine::is_fair_assignment(pool, assigned_before, queue_after, assigned_after, dispatches),
    ensures
        dispatches.len() <= 1,
        dispatches.len() == 1 ==> dispatches[0].worker == 0 && assigned_after[0] == Some(dispatches[0].task.index),
        dispatches.len() == 0 ==> assigned_after[0] is None,
{
    if dispatches.len() >= 2 {
        assert(dispatches[0].worker < dispatches[1].worker);
        assert(dispatches[1].worker < 1);
    }
    if dispatches.len() == 1 {
        assert(dispatches[0].worker < 1);
    }
    if dispatches.len() == 0 {
        assert(assigned_after[0] == assigned_before[0]);
    }
}

/// Starts a run with one worker.
fn start_alone(graph: FheGraph) -> (r: Result<(Engine, Vec<Dispatch>), EngineError>)
    requires
        graph.wf(),
    ensures
        match r {
            Ok((engine, pending)) => {
                &&& well_formed_at_start(graph.nodes(), graph.edges())
                &&& in_step(engine, pending@)
                &&& engine.initial() == graph.nodes()
                &&& engine.graph().edges() == graph.edges()
                &&& engine.graph().priorities() == graph.priorities()
                &&& forall|v: int| 0 <= v < graph.nodes().len() && graph.nodes()[v] is ToCompute ==> !(#[trigger] engine.graph().nodes()[v] is Computed)
            },
            Err(e) => {
                &&& !well_formed_at_start(graph.nodes(), graph.edges())
                &&& e matches EngineError::Graph(GraphError::UnexpectedState { index, expected, actual })
                &&& index < graph.nodes().len()
                &&& actual == graph.nodes()[index as int].state()
                &&& actual != expected
            },
        },
{
    let mut engine = Engine::new(graph, 1);
    let ghost assigned_before = engine.assigned();
    match engine.start() {
        Ok(pending) => {
            proof {
                let start = graph.nodes();
                let edges = graph.edges();
                let targets = crate::fhe_graph::ready_nodes(start, edges, start.len() as int);
                let tasks = choose|tasks: Seq<(crate::priority::Priority, IndexedCtsAndLut)>| {
                    &&& #[trigger] crate::fhe_graph::tasks_match(tasks, targets, start, edges, graph.priorities())
                    &&& crate::engine::is_fair_assignment(tasks, assigned_before, engine.queue(), engine.assigned(), pending@)
                };
                lemma_one_worker(tasks, assigned_before, engine.queue(), engine.assigned(), pending@);
                engine.lemma_each_node_committed_once();
                assert forall|v: int| 0 <= v < graph.nodes().len() && graph.nodes()[v] is ToCompute implies !(#[trigger] engine.graph().nodes()[v] is Computed) by {
                    assert(!engine.committed().contains(v as usize));
                }
            }
            Ok((engine, pending))
        },
        Err(e) => Err(e),
    }
}

/// Takes the result of the one worker in: `ct` is what `process` made of
/// `task`, the task that the worker was given.
fn step_alone<F: Fn(IndexedCtsAndLut) -> Ciphertext>(
    engine: &mut Engine,
    index: usize,
    ct: Ciphertext,
    Ghost(task): Ghost<(Priority, IndexedCtsAndLut)>,
    process: &F,
) -> (pending: Vec<Dispatch>)
    requires
        old(engine).wf(),
        old(engine).started(),
        old(engine).assigned().len() == 1,
        old(engine).assigned()[0] == Some(index),
        is_task_of(
            task,
            old(engine).initial(),
            old(engine).graph().nodes(),
            old(engine).graph().edges(),
            old(engine).graph().priorities(),
            index as int,
        ),
        process.ensures((task.1,), ct),
        all_made_by(
            *process,
            old(engine).initial(),
            old(engine).graph().nodes(),
            old(engine).graph().edges(),
            old(engine).graph().priorities(),
        ),
    ensures
        in_step(*final(engine), pending@),
        final(engine).initial() == old(engine).initial(),
        final(engine).graph().edges() == old(engine).graph().edges(),
        final(engine).graph().priorities() == old(engine).graph().priorities(),
        final(engine).graph().not_computed() == old(engine).graph().not_computed() - 1,
        all_made_by(
            *process,
            final(engine).initial(),
            final(engine).graph().nodes(),
            final(engine).graph().edges(),
            final(engine).graph().priorities(),
        ),
{
    let worker: usize = 0;
    let ghost assigned_before = engine.assigned();
    let ghost queue_before = engine.queue();
    let ghost nodes_before = engine.graph().nodes();
    proof {
        engine.lemma_inputs_kept();
        engine.graph().lemma_wf();
    }
    let more = engine.on_result(worker, IndexedCt { index, ct }).unwrap();
    proof {
        let edges = engine.graph().edges();
        lemma_commit_changes(nodes_before, edges, index as int, engine.graph().nodes()[index as int]);
        lemma_commit_keeps_made(
            *process,
            engine.initial(),
            nodes_before,
            engine.graph().nodes(),
            edges,
            engine.graph().priorities(),
            index as int,
            task,
        );
        let mid = nodes_before.update(index as int, engine.graph().nodes()[index as int]);
        let out = crate::graph::outgoing(edges, index as int);
        let targets = crate::fhe_graph::ready_successors(mid, edges, out, out.len() as int);
        let tasks = choose|tasks: Seq<(crate::priority::Priority, IndexedCtsAndLut)>| {
            &&& #[trigger] crate::fhe_graph::tasks_match(tasks, targets, mid, edges, engine.graph().priorities())
            &&& crate::engine::is_fair_assignment(
                queue_before + tasks,
                assigned_before.update(worker as int, None),
                engine.queue(),
                engine.assigned(),
                more@,
            )
        };
        lemma_one_worker(
            queue_before + tasks,
            assigned_before.update(worker as int, None),
            engine.queue(),
            engine.assigned(),
            more@,
        );
    }
    more
}

/// Runs a graph to its end in this process: the master hands out one task at
/// a time, in the order of the queue, and `process` stands for the worker:
/// it is handed a task and gives the ciphertext of the node back.
///
/// The run is made exactly if the graph is sound for a start, and then ends
/// with every node computed, the inputs as they were.
pub fn run_to_completion<F: Fn(IndexedCtsAndLut) -> Ciphertext>(graph: FheGraph, process: &F) -> (r: Result<
    FheGraph,
    EngineError,
>)
    requires
        graph.wf(),
        forall|task: IndexedCtsAndLut| process.requires((task,)),
    ensures
        match r {
            Ok(done) => {
                &&& well_formed_at_start(graph.nodes(), graph.edges())
                &&& done.wf()
                &&& all_computed(done.nodes())
                &&& done.not_computed() == 0
                &&& done.edges() == graph.edges()
                &&& done.priorities() == graph.priorities()
                &&& done.nodes().len() == graph.nodes().len()
                &&& forall|v: int| 0 <= v < graph.nodes().len() && graph.nodes()[v] is Computed ==> #[trigger] done.nodes()[v] == graph.nodes()[v]
                &&& forall|v: int| 0 <= v < graph.nodes().len() && graph.nodes()[v] is ToCompute ==> #[trigger] is_made_by(
                    *process,
                    graph.nodes(),
                    done.nodes(),
                    graph.edges(),
                    graph.priorities(),
                    v,
                )
            },
            Err(e) => {
                &&& !well_formed_at_start(graph.nodes(), graph.edges())
                &&& e matches EngineError::Graph(GraphError::UnexpectedState { index, expected, actual })
                &&& index < graph.nodes().len()
                &&& actual == graph.nodes()[index as int].state()
                &&& actual != expected
            },
        },
{
    let (mut engine, mut pending) = match start_alone(graph) {
        Ok(started) => started,
        Err(e) => {
            return Err(e);
        },
    };
    proof {
        assert forall|v: int| 0 <= v < engine.graph().nodes().len() && graph.nodes()[v] is ToCompute && engine.graph().nodes()[v] is Computed implies #[trigger] is_made_by(
            *process,
            graph.nodes(),
            engine.graph().nodes(),
            graph.edges(),
            graph.priorities(),
            v,
        ) by {
            engine.lemma_inputs_kept();
        }
    }
    while pending.len() > 0
        invariant
            in_step(engine, pending@),
            engine.initial() == graph.nodes(),
            engine.graph().edges() == graph.edges(),
            engine.graph().priorities() == graph.priorities(),
            forall|task: IndexedCtsAndLut| process.requires((task,)),
            all_made_by(*process, graph.nodes(), engine.graph().nodes(), graph.edges(), graph.priorities()),
        decreases engine.graph().not_computed(),
    {
        let dispatch = pending.pop().unwrap();
        let index = dispatch.task.index;
        let ghost task = (dispatch.priority, dispatch.task);
        let ct = process(dispatch.task);
        pending = step_alone(&mut engine, index, ct, Ghost(task), process);
    }
    proof {
        engine.lemma_unfinished_run_has_busy_worker();
        engine.lemma_inputs_kept();
        if some_worker_busy(engine.assigned()) {
            let w = choose|w: int| 0 <= w < engine.assigned().len() && #[trigger] engine.assigned()[w] is Some;
            assert(w == 0);
        }
    }
    Ok(engine.into_graph())
}

} // verus!
