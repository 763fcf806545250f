use fhe_graph::{
    Ciphertext, CiphertextModulus, FheGraph, GraphError, IndexedCt, LweCiphertext, Lut, Node, NodeGraph,
    NodeState, PBSOrder, Priority,
};
use std::sync::Arc;

fn ciphertext(body: u64) -> Ciphertext {
    Ciphertext {
        ct: LweCiphertext { data: vec![1, 2, 3, body], ciphertext_modulus: CiphertextModulus { inner: 0 } },
        degree: 3,
        noise_level: 1,
        message_modulus: 4,
        carry_modulus: 4,
        pbs_order: PBSOrder::KeyswitchBootstrap,
    }
}

fn computed(body: u64) -> Node {
    Node::Computed(Arc::new(ciphertext(body)))
}

fn to_compute(lookup_table: Lut) -> Node {
    Node::ToCompute { lookup_table }
}

/// A -> B, A -> C, B -> D, C -> D, with A computed.
fn diamond() -> FheGraph {
    let mut graph = NodeGraph::new();
    let a = graph.add_node(computed(10));
    let b = graph.add_node(to_compute(Lut::ExtractMessage));
    let c = graph.add_node(to_compute(Lut::ExtractCarry));
    let d = graph.add_node(to_compute(Lut::BivarMulLow));
    assert_eq!(graph.add_edge(a, b, 1), Some(0));
    assert_eq!(graph.add_edge(a, c, 2), Some(1));
    assert_eq!(graph.add_edge(b, d, 4), Some(2));
    assert_eq!(graph.add_edge(c, d, 1), Some(3));
    FheGraph::new(graph).unwrap()
}

fn indices(tasks: &[(Priority, fhe_graph::IndexedCtsAndLut)]) -> Vec<usize> {
    tasks.iter().map(|task| task.1.index).collect()
}

#[test]
fn diamond_priorities_are_chain_lengths() {
    let graph = diamond();
    assert_eq!(graph.priority(0), Some(Priority(3)));
    assert_eq!(graph.priority(1), Some(Priority(2)));
    assert_eq!(graph.priority(2), Some(Priority(2)));
    assert_eq!(graph.priority(3), Some(Priority(1)));
    assert_eq!(graph.priority(4), None);
}

#[test]
fn diamond_runs_to_completion() {
    let mut graph = diamond();
    assert!(!graph.is_finished());
    assert_eq!(graph.not_computed_nodes_count(), 3);

    let first = graph.init().unwrap();
    assert_eq!(indices(&first), vec![1, 2]);
    assert_eq!(first[0].0, Priority(2));
    assert_eq!(first[0].1.cts_and_weights.len(), 1);
    assert_eq!(first[0].1.cts_and_weights.get(0).unwrap().0, 1);
    assert_eq!(first[0].1.cts_and_weights.get(0).unwrap().1.ct.data, vec![1, 2, 3, 10]);
    assert!(first[0].1.cts_and_weights.get(1).is_none());
    assert_eq!(first[1].1.cts_and_weights.get(0).unwrap().0, 2);
    assert_eq!(first[0].1.lut, Lut::ExtractMessage);
    assert_eq!(first[1].1.lut, Lut::ExtractCarry);

    let after_b = graph.commit_result(IndexedCt { index: 1, ct: ciphertext(20) }).unwrap();
    assert!(after_b.is_empty());
    assert!(!graph.is_finished());

    let after_c = graph.commit_result(IndexedCt { index: 2, ct: ciphertext(30) }).unwrap();
    assert_eq!(indices(&after_c), vec![3]);
    assert_eq!(after_c[0].0, Priority(1));
    assert_eq!(after_c[0].1.lut, Lut::BivarMulLow);
    // The edge from C was added last, so its term comes first.
    let terms: Vec<(u64, u64)> =
        after_c[0].1.cts_and_weights.to_vec().iter().map(|(weight, ct)| (*weight, ct.ct.data[3])).collect();
    assert_eq!(terms, vec![(1, 30), (4, 20)]);

    let after_d = graph.commit_result(IndexedCt { index: 3, ct: ciphertext(40) }).unwrap();
    assert!(after_d.is_empty());
    assert!(graph.is_finished());
    assert_eq!(graph.not_computed_nodes_count(), 0);
}

#[test]
fn diamond_commits_in_the_other_order() {
    let mut graph = diamond();
    graph.init().unwrap();
    assert!(graph.commit_result(IndexedCt { index: 2, ct: ciphertext(30) }).unwrap().is_empty());
    let unlocked = graph.commit_result(IndexedCt { index: 1, ct: ciphertext(20) }).unwrap();
    assert_eq!(indices(&unlocked), vec![3]);
    assert!(graph.commit_result(IndexedCt { index: 3, ct: ciphertext(40) }).unwrap().is_empty());
    assert!(graph.is_finished());
}

#[test]
fn single_computed_node_is_finished_at_once() {
    let mut graph = NodeGraph::new();
    graph.add_node(computed(1));
    let mut graph = FheGraph::new(graph).unwrap();
    assert!(graph.init().unwrap().is_empty());
    assert!(graph.is_finished());
    assert_eq!(graph.priority(0), Some(Priority(1)));
}

#[test]
fn a_cycle_is_refused() {
    let mut graph = NodeGraph::new();
    let a = graph.add_node(computed(1));
    let b = graph.add_node(to_compute(Lut::ExtractMessage));
    let c = graph.add_node(to_compute(Lut::ExtractMessage));
    graph.add_edge(a, b, 1);
    graph.add_edge(b, c, 1);
    graph.add_edge(c, b, 1);
    assert!(matches!(FheGraph::new(graph), Err(GraphError::Cyclic)));
}

#[test]
fn a_result_is_committed_only_once() {
    let mut graph = diamond();
    graph.init().unwrap();
    graph.commit_result(IndexedCt { index: 1, ct: ciphertext(20) }).unwrap();
    let again = graph.commit_result(IndexedCt { index: 1, ct: ciphertext(20) });
    assert_eq!(
        again.err(),
        Some(GraphError::UnexpectedState {
            index: 1,
            expected: NodeState::BootstrapQueued,
            actual: NodeState::Computed,
        })
    );
    assert_eq!(graph.not_computed_nodes_count(), 2);
}

#[test]
fn a_result_for_a_node_that_was_not_handed_out_is_refused() {
    let mut graph = diamond();
    graph.init().unwrap();
    let early = graph.commit_result(IndexedCt { index: 3, ct: ciphertext(40) });
    assert_eq!(
        early.err(),
        Some(GraphError::UnexpectedState {
            index: 3,
            expected: NodeState::BootstrapQueued,
            actual: NodeState::ToCompute,
        })
    );
    let nowhere = graph.commit_result(IndexedCt { index: 9, ct: ciphertext(40) });
    assert_eq!(nowhere.err(), Some(GraphError::NodeOutOfRange { index: 9 }));
}

#[test]
fn predecessors_list_fails_on_an_uncomputed_predecessor() {
    let graph = diamond();
    let list = graph.predecessors_list(3);
    // Node C arrives by the edge added last and is looked at first.
    assert_eq!(
        list.err(),
        Some(GraphError::UnexpectedState {
            index: 2,
            expected: NodeState::Computed,
            actual: NodeState::ToCompute,
        })
    );
    assert_eq!(graph.predecessors_list(1).unwrap().len(), 1);
    assert_eq!(graph.predecessors_list(0).unwrap().len(), 0);
    assert_eq!(graph.predecessors_list(7).err(), Some(GraphError::NodeOutOfRange { index: 7 }));
}

#[test]
fn a_node_is_handed_out_only_once() {
    let mut graph = diamond();
    let (priority, task) = graph.build_task(1).unwrap();
    assert_eq!(priority, Priority(2));
    assert_eq!(task.index, 1);
    assert_eq!(
        graph.build_task(1).err(),
        Some(GraphError::UnexpectedState {
            index: 1,
            expected: NodeState::ToCompute,
            actual: NodeState::BootstrapQueued,
        })
    );
}

#[test]
fn init_refuses_an_input_that_is_not_computed() {
    let mut graph = NodeGraph::new();
    let a = graph.add_node(to_compute(Lut::ExtractMessage));
    let b = graph.add_node(to_compute(Lut::ExtractMessage));
    graph.add_edge(a, b, 1);
    let mut graph = FheGraph::new(graph).unwrap();
    let expected = GraphError::UnexpectedState {
        index: 0,
        expected: NodeState::Computed,
        actual: NodeState::ToCompute,
    };
    assert_eq!(graph.assert_finishable().err(), Some(expected));
    assert_eq!(graph.test_graph_init().err(), Some(expected));
    assert_eq!(graph.init().err(), Some(expected));
}

#[test]
fn a_computed_inner_node_is_finishable_but_not_a_start() {
    let mut graph = NodeGraph::new();
    let a = graph.add_node(computed(1));
    let b = graph.add_node(computed(2));
    graph.add_edge(a, b, 1);
    let graph = FheGraph::new(graph).unwrap();
    assert_eq!(graph.assert_finishable(), Ok(()));
    assert_eq!(
        graph.test_graph_init().err(),
        Some(GraphError::UnexpectedState {
            index: 1,
            expected: NodeState::ToCompute,
            actual: NodeState::Computed,
        })
    );
}

#[test]
fn parallel_edges_give_one_task_with_both_terms() {
    let mut graph = NodeGraph::new();
    let a = graph.add_node(computed(1));
    let b = graph.add_node(to_compute(Lut::ExtractMessage));
    let c = graph.add_node(to_compute(Lut::ExtractMessage));
    graph.add_edge(a, b, 1);
    graph.add_edge(b, c, 2);
    graph.add_edge(b, c, 3);
    let mut graph = FheGraph::new(graph).unwrap();
    assert_eq!(indices(&graph.init().unwrap()), vec![1]);
    let unlocked = graph.commit_result(IndexedCt { index: 1, ct: ciphertext(5) }).unwrap();
    assert_eq!(indices(&unlocked), vec![2]);
    let weights: Vec<u64> = unlocked[0].1.cts_and_weights.to_vec().iter().map(|term| term.0).collect();
    assert_eq!(weights, vec![3, 2]);
}

#[test]
fn an_edge_to_a_missing_node_is_not_added() {
    let mut graph = NodeGraph::new();
    let a = graph.add_node(computed(1));
    assert_eq!(graph.add_edge(a, 1, 1), None);
    assert_eq!(graph.add_edge(3, a, 1), None);
    assert_eq!(graph.edge_count(), 0);
    assert_eq!(graph.node_count(), 1);
}

#[test]
fn an_empty_graph_is_finished() {
    let mut graph = FheGraph::new(NodeGraph::new()).unwrap();
    assert_eq!(graph.node_count(), 0);
    assert!(graph.is_finished());
    assert!(graph.init().unwrap().is_empty());
    assert_eq!(graph.assert_finishable(), Ok(()));
    assert_eq!(graph.priority(0), None);
}

#[test]
fn a_node_takes_more_predecessors_than_a_short_list_holds() {
    let mut graph = NodeGraph::new();
    for body in 0..7u64 {
        graph.add_node(computed(body));
    }
    let sum = graph.add_node(to_compute(Lut::ExtractCarry));
    for source in 0..7usize {
        graph.add_edge(source, sum, (source as u64 + 1) * 10);
    }
    let mut graph = FheGraph::new(graph).unwrap();
    for source in 0..7usize {
        assert_eq!(graph.priority(source), Some(Priority(2)));
    }
    let tasks = graph.init().unwrap();
    assert_eq!(indices(&tasks), vec![7]);
    let terms: Vec<(u64, u64)> =
        tasks[0].1.cts_and_weights.to_vec().iter().map(|(weight, ct)| (*weight, ct.ct.data[3])).collect();
    assert_eq!(terms, vec![(70, 6), (60, 5), (50, 4), (40, 3), (30, 2), (20, 1), (10, 0)]);
}

#[test]
fn priorities_count_the_nodes_of_the_longest_chain_below() {
    // 0 -> 1 -> 2 -> 3, 0 -> 3, 4 -> 3, and 5 alone.
    let mut graph = NodeGraph::new();
    let a = graph.add_node(computed(0));
    let b = graph.add_node(to_compute(Lut::ExtractMessage));
    let c = graph.add_node(to_compute(Lut::ExtractMessage));
    let d = graph.add_node(to_compute(Lut::ExtractMessage));
    let e = graph.add_node(computed(4));
    graph.add_node(computed(5));
    graph.add_edge(a, d, 1);
    graph.add_edge(c, d, 1);
    graph.add_edge(a, b, 1);
    graph.add_edge(e, d, 1);
    graph.add_edge(b, c, 1);
    let graph = FheGraph::new(graph).unwrap();
    let priorities: Vec<Priority> = (0..6).map(|index| graph.priority(index).unwrap()).collect();
    assert_eq!(
        priorities,
        vec![Priority(4), Priority(3), Priority(2), Priority(1), Priority(2), Priority(1)]
    );
    assert_eq!(graph.edge_count(), 5);
    assert_eq!(graph.edge(1).unwrap().source, 2);
    assert!(graph.edge(5).is_none());
    let back = graph.into_graph();
    assert_eq!(back.node_count(), 6);
    assert_eq!(back.edge(4).unwrap().target, 2);
}

#[test]
fn a_loop_on_one_node_is_a_cycle() {
    let mut graph = NodeGraph::new();
    let a = graph.add_node(to_compute(Lut::ExtractMessage));
    graph.add_edge(a, a, 1);
    assert!(matches!(FheGraph::new(graph), Err(GraphError::Cyclic)));
}
