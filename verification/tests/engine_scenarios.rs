use fhe_graph::{
    run_to_completion, Ciphertext, CiphertextModulus, Dispatch, Engine, EngineError, FheGraph, GraphError,
    IndexedCt, IndexedCtsAndLut, LweCiphertext, Lut, Node, NodeGraph, NodeState, PBSOrder, Phase, Priority,
};
use std::sync::Arc;

fn ciphertext(body: u64) -> Ciphertext {
    Ciphertext {
        ct: LweCiphertext { data: vec![0, 0, body], ciphertext_modulus: CiphertextModulus { inner: 0 } },
        degree: 1,
        noise_level: 1,
        message_modulus: 4,
        carry_modulus: 4,
        pbs_order: PBSOrder::KeyswitchBootstrap,
    }
}

fn computed(body: u64) -> Node {
    Node::Computed(Arc::new(ciphertext(body)))
}

fn to_compute() -> Node {
    Node::ToCompute { lookup_table: Lut::ExtractMessage }
}

/// One computed root with `leaves` nodes that depend on it alone.
fn star(leaves: usize) -> FheGraph {
    let mut graph = NodeGraph::new();
    let root = graph.add_node(computed(1));
    for _ in 0..leaves {
        let leaf = graph.add_node(to_compute());
        graph.add_edge(root, leaf, 1);
    }
    FheGraph::new(graph).unwrap()
}

/// 0 -> 1 -> 2 -> 3 and 0 -> 4: node 1 heads the longest chain.
fn chain_and_leaf() -> FheGraph {
    let mut graph = NodeGraph::new();
    let root = graph.add_node(computed(1));
    let a = graph.add_node(to_compute());
    let b = graph.add_node(to_compute());
    let c = graph.add_node(to_compute());
    let leaf = graph.add_node(to_compute());
    graph.add_edge(root, leaf, 1);
    graph.add_edge(root, a, 1);
    graph.add_edge(a, b, 1);
    graph.add_edge(b, c, 1);
    FheGraph::new(graph).unwrap()
}

/// What a worker does in these tests: the body of the result is the sum of
/// the bodies of the terms, each times its weight, plus one.
fn process(task: &IndexedCtsAndLut) -> Ciphertext {
    let mut body: u64 = 1;
    for (weight, ct) in task.cts_and_weights.to_vec().iter() {
        body += weight * ct.ct.data[2];
    }
    ciphertext(body)
}

#[test]
fn two_workers_commit_five_leaves_once_each() {
    let mut engine = Engine::new(star(5), 2);
    assert_eq!(engine.phase(), Phase::Idle);
    let first = engine.start().unwrap();
    assert_eq!(first.len(), 2);
    assert_eq!(engine.phase(), Phase::Running);
    assert_eq!(engine.queue_len(), 3);

    let mut in_flight: Vec<Dispatch> = first;
    let mut committed: Vec<usize> = Vec::new();
    let mut served_by: Vec<usize> = vec![0, 0];
    // The worker that was given its task last answers first.
    while let Some(dispatch) = in_flight.pop() {
        let result = IndexedCt { index: dispatch.task.index, ct: process(&dispatch.task) };
        committed.push(dispatch.task.index);
        served_by[dispatch.worker] += 1;
        let more = engine.on_result(dispatch.worker, result).unwrap();
        for next in more.iter() {
            assert_eq!(next.worker, dispatch.worker);
        }
        in_flight.extend(more);
    }
    assert_eq!(engine.phase(), Phase::Finished);
    assert!(engine.is_finished());
    assert_eq!(engine.commit_count(), 5);
    committed.sort();
    assert_eq!(committed, vec![1, 2, 3, 4, 5]);
    assert_eq!(served_by[0] + served_by[1], 5);
    assert!(served_by[0] >= 1 && served_by[1] >= 1);
    let graph = engine.into_graph();
    assert_eq!(graph.not_computed_nodes_count(), 0);
    for index in 0..6 {
        assert!(graph.node(index).unwrap().is_computed());
    }
}

#[test]
fn two_workers_in_turn_commit_five_leaves_once_each() {
    let mut engine = Engine::new(star(5), 2);
    let mut in_flight: std::collections::VecDeque<Dispatch> = engine.start().unwrap().into();
    let mut committed: Vec<usize> = Vec::new();
    // The worker that was given its task first answers first.
    while let Some(dispatch) = in_flight.pop_front() {
        let result = IndexedCt { index: dispatch.task.index, ct: process(&dispatch.task) };
        committed.push(dispatch.task.index);
        in_flight.extend(engine.on_result(dispatch.worker, result).unwrap());
    }
    assert!(engine.is_finished());
    assert_eq!(engine.commit_count(), 5);
    committed.sort();
    assert_eq!(committed, vec![1, 2, 3, 4, 5]);
}

#[test]
fn the_longest_chain_goes_first() {
    let mut engine = Engine::new(chain_and_leaf(), 1);
    let first = engine.start().unwrap();
    // Nodes 1 and 4 are ready; node 1 has priority 3, node 4 priority 1.
    assert_eq!(first.len(), 1);
    assert_eq!(first[0].worker, 0);
    assert_eq!(first[0].task.index, 1);
    assert_eq!(first[0].priority, Priority(3));
    assert_eq!(engine.queue_len(), 1);
    assert_eq!(engine.assignment(0), Some(1));
    assert_eq!(engine.phase(), Phase::Running);

    let second = engine.on_result(0, IndexedCt { index: 1, ct: ciphertext(2) }).unwrap();
    // Node 2 has become ready with priority 2 and goes before node 4.
    assert_eq!(second.len(), 1);
    assert_eq!(second[0].task.index, 2);
    assert_eq!(second[0].priority, Priority(2));

    let third = engine.on_result(0, IndexedCt { index: 2, ct: ciphertext(3) }).unwrap();
    // Nodes 3 and 4 both have priority 1: the lower index goes first.
    assert_eq!(third.len(), 1);
    assert_eq!(third[0].task.index, 3);

    let fourth = engine.on_result(0, IndexedCt { index: 3, ct: ciphertext(4) }).unwrap();
    assert_eq!(fourth.len(), 1);
    assert_eq!(fourth[0].task.index, 4);
    assert_eq!(engine.phase(), Phase::Draining);

    let last = engine.on_result(0, IndexedCt { index: 4, ct: ciphertext(5) }).unwrap();
    assert!(last.is_empty());
    assert_eq!(engine.phase(), Phase::Finished);
    assert_eq!(engine.assignment(0), None);
    assert_eq!(engine.commit_count(), 4);
}

#[test]
fn idle_workers_stay_idle_when_the_queue_is_empty() {
    let mut engine = Engine::new(star(1), 3);
    let first = engine.start().unwrap();
    assert_eq!(first.len(), 1);
    assert_eq!(first[0].worker, 0);
    assert_eq!(engine.phase(), Phase::Draining);
    assert_eq!(engine.assignment(1), None);
    assert_eq!(engine.assignment(2), None);
    assert_eq!(engine.assignment(3), None);
    assert_eq!(engine.worker_count(), 3);
}

#[test]
fn the_master_refuses_what_breaks_the_protocol() {
    let mut engine = Engine::new(star(3), 2);
    assert_eq!(
        engine.on_result(0, IndexedCt { index: 1, ct: ciphertext(2) }).err(),
        Some(EngineError::NotStarted)
    );
    let first = engine.start().unwrap();
    assert_eq!(first[0].task.index, 1);
    assert_eq!(first[1].task.index, 2);
    assert_eq!(engine.start().err(), Some(EngineError::AlreadyStarted));
    assert_eq!(
        engine.on_result(2, IndexedCt { index: 1, ct: ciphertext(2) }).err(),
        Some(EngineError::UnknownWorker { worker: 2 })
    );
    assert_eq!(
        engine.on_result(0, IndexedCt { index: 2, ct: ciphertext(2) }).err(),
        Some(EngineError::WrongNode { worker: 0, expected: 1, actual: 2 })
    );
    assert_eq!(engine.commit_count(), 0);
    let more = engine.on_result(1, IndexedCt { index: 2, ct: ciphertext(2) }).unwrap();
    assert_eq!(more.len(), 1);
    assert_eq!((more[0].worker, more[0].task.index), (1, 3));
    let none = engine.on_result(0, IndexedCt { index: 1, ct: ciphertext(2) }).unwrap();
    assert!(none.is_empty());
    assert_eq!(
        engine.on_result(0, IndexedCt { index: 1, ct: ciphertext(2) }).err(),
        Some(EngineError::IdleWorker { worker: 0 })
    );
    assert_eq!(engine.commit_count(), 2);
}

#[test]
fn a_graph_that_is_no_start_is_not_run() {
    let mut graph = NodeGraph::new();
    let a = graph.add_node(computed(1));
    let b = graph.add_node(Node::BootstrapQueued);
    graph.add_edge(a, b, 1);
    let mut engine = Engine::new(FheGraph::new(graph).unwrap(), 1);
    let refused = EngineError::Graph(GraphError::UnexpectedState {
        index: 1,
        expected: NodeState::ToCompute,
        actual: NodeState::BootstrapQueued,
    });
    assert_eq!(engine.start().err(), Some(refused));
    assert_eq!(engine.phase(), Phase::Idle);
}

#[test]
fn a_single_computed_node_finishes_the_run_at_the_start() {
    let mut graph = NodeGraph::new();
    graph.add_node(computed(1));
    let mut engine = Engine::new(FheGraph::new(graph).unwrap(), 2);
    assert!(engine.start().unwrap().is_empty());
    assert_eq!(engine.phase(), Phase::Finished);
    assert!(engine.is_finished());
}

#[test]
fn a_local_run_computes_every_node() {
    let mut graph = NodeGraph::new();
    let a = graph.add_node(computed(10));
    let b = graph.add_node(to_compute());
    let c = graph.add_node(to_compute());
    let d = graph.add_node(to_compute());
    graph.add_edge(a, b, 1);
    graph.add_edge(a, c, 2);
    graph.add_edge(b, d, 4);
    graph.add_edge(c, d, 1);
    let done = run_to_completion(FheGraph::new(graph).unwrap(), &|task: IndexedCtsAndLut| process(&task)).unwrap();
    assert!(done.is_finished());
    let bodies: Vec<u64> = (0..4).map(|index| done.node(index).unwrap().ct().unwrap().ct.data[2]).collect();
    // b = 10 + 1, c = 2 * 10 + 1, d = 4 * b + c + 1.
    assert_eq!(bodies, vec![10, 11, 21, 66]);
}

#[test]
fn a_local_run_refuses_a_graph_that_is_no_start() {
    let mut graph = NodeGraph::new();
    graph.add_node(to_compute());
    let refused = run_to_completion(FheGraph::new(graph).unwrap(), &|task: IndexedCtsAndLut| process(&task));
    assert_eq!(
        refused.err(),
        Some(EngineError::Graph(GraphError::UnexpectedState {
            index: 0,
            expected: NodeState::Computed,
            actual: NodeState::ToCompute,
        }))
    );
}

/// Runs any graph of tasks to its end, one task at a time, the task handed
/// out last first; returns how many results were committed.
fn drain<G>(graph: &mut G, answer: impl Fn(&G::Task) -> G::Result) -> usize
where
    G: fhe_graph::TaskGraph,
    G::Error: std::fmt::Debug,
{
    let mut ready = fhe_graph::TaskGraph::init(graph).unwrap();
    let mut committed = 0;
    while let Some((_, task)) = ready.pop() {
        ready.extend(fhe_graph::TaskGraph::commit_result(graph, answer(&task)).unwrap());
        committed += 1;
    }
    committed
}

#[test]
fn any_graph_of_tasks_is_run_through_its_three_operations() {
    let mut graph = chain_and_leaf();
    assert!(!fhe_graph::TaskGraph::is_finished(&graph));
    let committed = drain(&mut graph, |task: &IndexedCtsAndLut| IndexedCt { index: task.index, ct: process(task) });
    assert_eq!(committed, 4);
    assert!(fhe_graph::TaskGraph::is_finished(&graph));
    assert_eq!(graph.not_computed_nodes_count(), 0);
    // Every node of the chain adds one to the body of the node before it.
    let bodies: Vec<u64> = (0..5).map(|index| graph.node(index).unwrap().ct().unwrap().ct.data[2]).collect();
    assert_eq!(bodies, vec![1, 2, 3, 4, 2]);
}
