//! What a graph of tasks offers to the master that runs it.

use crate::fhe_graph::{
    accepts_result, all_computed, in_progress, is_first_not_in_state, queue_all, ready_nodes,
    ready_successors, state_at_start, successors, tasks_match, well_formed_at_start, FheGraph, GraphError,
};
use crate::graph::{has_edge, outgoing, Node, NodeState};
use crate::priority::Priority;
use crate::task::{IndexedCt, IndexedCtsAndLut};
use vstd::prelude::*;

verus! {

/// A graph whose nodes are computed task by task: it hands out the tasks
/// that are ready, each with its priority, and takes the results back in any
/// order.
pub trait TaskGraph {
    /// What is handed out for a node that is ready.
    type Task;

    /// What comes back for a task.
    type Result;

    /// Why the graph refuses an operation.
    type Error;

    /// What holds of a graph between two operations.
    spec fn valid(&self) -> bool;

    /// The number of results that are still to come.
    spec fn outstanding(&self) -> nat;

    /// A run can start with the graph as it is.
    spec fn startable(&self) -> bool;

    /// The graph as it is takes this result.
    spec fn accepts(&self, result: Self::Result) -> bool;

    /// The tasks that are ready at the start.  They are handed out exactly
    /// if a run can start with the graph; no result comes in by it.
    fn init(&mut self) -> (r: Result<Vec<(Priority, Self::Task)>, Self::Error>)
        requires
            old(self).valid(),
        ensures
            final(self).valid(),
            final(self).outstanding() == old(self).outstanding(),
            r is Ok <==> old(self).startable(),
    ;

    /// Takes one result in and gives the tasks that have become ready by it.
    /// The result is taken exactly if the graph accepts it, and a result that
    /// is refused leaves as many outstanding as there were.
    fn commit_result(&mut self, result: Self::Result) -> (r: Result<Vec<(Priority, Self::Task)>, Self::Error>)
        requires
            old(self).valid(),
        ensures
            final(self).valid(),
            r is Ok <==> old(self).accepts(result),
            r is Ok ==> final(self).outstanding() + 1 == old(self).outstanding(),
            r is Err ==> final(self).outstanding() == old(self).outstanding(),
    ;

    /// True once no result is outstanding.
    fn is_finished(&self) -> (r: bool)
        requires
            self.valid(),
        ensures
            r == (self.outstanding() == 0),
    ;
}

impl TaskGraph for FheGraph {
    type Task = IndexedCtsAndLut;

    type Result = IndexedCt;

    type Error = GraphError;

    open spec fn valid(&self) -> bool {
        self.wf()
    }

    open spec fn outstanding(&self) -> nat {
        self.not_computed()
    }

    open spec fn startable(&self) -> bool {
        well_formed_at_start(self.nodes(), self.edges())
    }

    open spec fn accepts(&self, result: IndexedCt) -> bool {
        accepts_result(self.nodes(), self.edges(), result.index as int)
    }

    /// Starts a run: if every input is computed and every other node still
    /// to compute, hands out, by rising index, every node all of whose
    /// predecessors are computed, and marks it as queued; else names the
    /// first node that is not as a start asks and changes nothing.
    fn init(&mut self) -> (r: Result<Vec<(Priority, IndexedCtsAndLut)>, GraphError>)
        ensures
            final(self).edges() == old(self).edges(),
            final(self).priorities() == old(self).priorities(),
            final(self).not_computed() == old(self).not_computed(),
            match r {
                Ok(tasks) => {
                    let targets = ready_nodes(old(self).nodes(), old(self).edges(), old(self).nodes().len() as int);
                    &&& well_formed_at_start(old(self).nodes(), old(self).edges())
                    &&& tasks_match(tasks@, targets, old(self).nodes(), old(self).edges(), old(self).priorities())
                    &&& final(self).nodes() == queue_all(old(self).nodes(), targets)
                    &&& in_progress(final(self).nodes(), final(self).edges())
                },
                Err(e) => {
                    &&& !well_formed_at_start(old(self).nodes(), old(self).edges())
                    &&& final(self).nodes() == old(self).nodes()
                    &&& e matches GraphError::UnexpectedState { index, expected, actual }
                    &&& index < old(self).nodes().len()
                    &&& expected == state_at_start(old(self).edges(), index as int)
                    &&& actual == old(self).nodes()[index as int].state()
                    &&& actual != expected
                    &&& forall|u: int| 0 <= u < index ==> (#[trigger] old(self).nodes()[u]).state() == state_at_start(old(self).edges(), u)
                },
            },
    {
        FheGraph::init(self)
    }

    /// Takes the result for a queued node: the node becomes computed, one
    /// result less is outstanding, and every successor that thereby has all
    /// its predecessors computed is handed out and marked as queued.  A
    /// result for a node that is not queued, or whose successors do not all
    /// wait, is refused with the node that is at fault, and changes nothing.
    fn commit_result(&mut self, result: IndexedCt) -> (r: Result<Vec<(Priority, IndexedCtsAndLut)>, GraphError>)
        ensures
            final(self).edges() == old(self).edges(),
            final(self).priorities() == old(self).priorities(),
            match r {
                Ok(tasks) => {
                    let index = result.index as int;
                    let mid = old(self).nodes().update(index, final(self).nodes()[index]);
                    let out = outgoing(old(self).edges(), index);
                    let targets = ready_successors(mid, old(self).edges(), out, out.len() as int);
                    &&& accepts_result(old(self).nodes(), old(self).edges(), index)
                    &&& final(self).nodes()[index] matches Node::Computed(ct) && *ct == result.ct
                    &&& tasks_match(tasks@, targets, mid, old(self).edges(), old(self).priorities())
                    &&& final(self).nodes() == queue_all(mid, targets)
                    &&& final(self).not_computed() == old(self).not_computed() - 1
                    &&& in_progress(old(self).nodes(), old(self).edges()) ==> in_progress(final(self).nodes(), final(self).edges())
                },
                Err(e) => {
                    &&& final(self).nodes() == old(self).nodes()
                    &&& final(self).not_computed() == old(self).not_computed()
                    &&& match e {
                        GraphError::NodeOutOfRange { index: at } => at == result.index && at >= old(self).nodes().len(),
                        GraphError::UnexpectedState { index: at, expected, actual } => {
                            &&& result.index < old(self).nodes().len()
                            &&& at < old(self).nodes().len()
                            &&& actual == old(self).nodes()[at as int].state()
                            &&& actual != expected
                            &&& if old(self).nodes()[result.index as int] is BootstrapQueued {
                                &&& has_edge(old(self).edges(), result.index as int, at as int)
                                &&& is_first_not_in_state(
                                    old(self).nodes(),
                                    successors(old(self).edges(), result.index as int),
                                    NodeState::ToCompute,
                                    at,
                                )
                                &&& expected == NodeState::ToCompute
                                &&& !in_progress(old(self).nodes(), old(self).edges())
                            } else {
                                at == result.index && expected == NodeState::BootstrapQueued
                            }
                        },
                        GraphError::Cyclic => false,
                    }
                },
            },
    {
        let ghost before = *self;
        proof {
            self.lemma_wf();
        }
        let r = FheGraph::commit_result(self, result);
        proof {
            if let Err(GraphError::UnexpectedState { index: at, expected, actual }) = r {
                if before.nodes()[result.index as int] is BootstrapQueued {
                    lemma_first_not_waiting(before.nodes(), before.edges(), result.index as int, at);
                }
            }
        }
        r
    }

    fn is_finished(&self) -> (r: bool) {
        FheGraph::is_finished(self)
    }
}

/// A successor that does not wait to be computed is the end of an edge from
/// the node, so the graph does not accept a result for the node.
proof fn lemma_first_not_waiting(nodes: Seq<Node>, edges: Seq<crate::graph::Edge>, index: int, at: usize)
    requires
        edges.len() <= usize::MAX,
        is_first_not_in_state(nodes, successors(edges, index), NodeState::ToCompute, at),
    ensures
        !accepts_result(nodes, edges, index),
{
    crate::graph::lemma_outgoing_from(edges, index, 0);
    let list = successors(edges, index);
    let j = choose|j: int|
        {
            &&& 0 <= j < list.len()
            &&& #[trigger] list[j] == at
            &&& nodes[list[j] as int].state() != NodeState::ToCompute
            &&& forall|i: int| 0 <= i < j ==> nodes[#[trigger] list[i] as int].state() == NodeState::ToCompute
        };
    let e = outgoing(edges, index)[j];
    assert(edges[e as int].source == index);
    assert(edges[e as int].target == at);
}

/// A graph of tasks that is finished has every node computed.
pub proof fn lemma_finished_graph_is_computed(graph: FheGraph)
    requires
        graph.valid(),
        graph.outstanding() == 0,
    ensures
        all_computed(graph.nodes()),
{
    graph.lemma_wf();
    crate::fhe_graph::lemma_count_not_computed_bound(graph.nodes());
}

} // verus!
