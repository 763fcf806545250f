//! Nodes, weighted edges, and the graph as the caller builds it.

use crate::ciphertext::{share, Ciphertext};
use crate::lut::Lut;
use std::sync::Arc;
use vstd::prelude::*;

verus! {

/// One computation step and what is known of its ciphertext.
pub enum Node {
    /// The ciphertext is available.
    Computed(Arc<Ciphertext>),
    /// The node was handed out as a task and its result is awaited.
    BootstrapQueued,
    /// The node still has to be computed, with this lookup table.
    ToCompute { lookup_table: Lut },
}

/// The three states of a node, without their payload.
#[derive(Clone, Copy, Debug, PartialEq, Eq, Structural)]
pub enum NodeState {
    Computed,
    BootstrapQueued,
    ToCompute,
}

impl Node {
    /// The state of the node, without its payload.
    pub open spec fn spec_state(&self) -> NodeState {
        match self {
            Node::Computed(_) => NodeState::Computed,
            Node::BootstrapQueued => NodeState::BootstrapQueued,
            Node::ToCompute { .. } => NodeState::ToCompute,
        }
    }

    /// The ciphertext of a computed node.
    pub fn ct(&self) -> (r: Option<&Arc<Ciphertext>>)
        ensures
            self is Computed ==> r == Some(&self->Computed_0),
            !(self is Computed) ==> r is None,
    {
        match self {
            Node::Computed(ct) => Some(ct),
            _ => None,
        }
    }

    /// The state of the node, without its payload.
    #[verifier::when_used_as_spec(spec_state)]
    pub fn state(&self) -> (r: NodeState)
        ensures
            r == self.spec_state(),
    {
        match self {
            Node::Computed(_) => NodeState::Computed,
            Node::BootstrapQueued => NodeState::BootstrapQueued,
            Node::ToCompute { .. } => NodeState::ToCompute,
        }
    }

    /// Tells whether the ciphertext of the node is available.
    pub fn is_computed(&self) -> (r: bool)
        ensures
            r == (self is Computed),
    {
        match self {
            Node::Computed(_) => true,
            _ => false,
        }
    }
}

impl Clone for Node {
    fn clone(&self) -> (r: Self)
        ensures
            r == *self,
    {
        match self {
            Node::Computed(ct) => Node::Computed(share(ct)),
            Node::BootstrapQueued => Node::BootstrapQueued,
            Node::ToCompute { lookup_table } => Node::ToCompute { lookup_table: *lookup_table },
        }
    }
}

/// A directed edge; `weight` scales the source ciphertext in the sum that
/// the target node bootstraps.
#[derive(Clone, Copy, Debug, PartialEq, Eq, Structural)]
pub struct Edge {
    pub source: usize,
    pub target: usize,
    pub weight: u64,
}

/// Every edge joins two existing nodes.
pub open spec fn edges_in_range(edges: Seq<Edge>, node_count: nat) -> bool {
    forall|e: int| 0 <= e < edges.len() ==> (#[trigger] edges[e]).source < node_count && edges[e].target < node_count
}

/// Some edge leads from `a` to `b`.
pub open spec fn has_edge(edges: Seq<Edge>, a: int, b: int) -> bool {
    exists|e: int| 0 <= e < edges.len() && (#[trigger] edges[e]).source == a && edges[e].target == b
}

/// Some edge leads from node `i` of `walk` to the next.
pub open spec fn is_step(edges: Seq<Edge>, walk: Seq<int>, i: int) -> bool {
    has_edge(edges, walk[i], walk[i + 1])
}

/// `walk` follows an edge at every step.
pub open spec fn is_walk(edges: Seq<Edge>, walk: Seq<int>) -> bool {
    walk.len() >= 1 && forall|i: int| 0 <= i < walk.len() - 1 ==> #[trigger] is_step(edges, walk, i)
}

/// Some walk of at least one edge ends where it began.
pub open spec fn has_cycle(edges: Seq<Edge>) -> bool {
    exists|walk: Seq<int>| walk.len() >= 2 && #[trigger] is_walk(edges, walk) && walk[0] == walk[walk.len() - 1]
}

/// No edge arrives at `v`.
pub open spec fn is_source(edges: Seq<Edge>, v: int) -> bool {
    forall|e: int| 0 <= e < edges.len() ==> (#[trigger] edges[e]).target != v
}

/// No edge leaves `v`.
pub open spec fn is_sink(edges: Seq<Edge>, v: int) -> bool {
    forall|e: int| 0 <= e < edges.len() ==> (#[trigger] edges[e]).source != v
}

/// The indices, from `lo` on, of the edges that arrive at `v`, latest first.
pub open spec fn incoming_from(edges: Seq<Edge>, v: int, lo: int) -> Seq<usize>
    decreases edges.len() - lo,
{
    if lo < 0 || lo >= edges.len() {
        Seq::empty()
    } else if edges[lo].target == v {
        incoming_from(edges, v, lo + 1).push(lo as usize)
    } else {
        incoming_from(edges, v, lo + 1)
    }
}

/// The indices, from `lo` on, of the edges that leave `v`, latest first.
pub open spec fn outgoing_from(edges: Seq<Edge>, v: int, lo: int) -> Seq<usize>
    decreases edges.len() - lo,
{
    if lo < 0 || lo >= edges.len() {
        Seq::empty()
    } else if edges[lo].source == v {
        outgoing_from(edges, v, lo + 1).push(lo as usize)
    } else {
        outgoing_from(edges, v, lo + 1)
    }
}

/// The edges that arrive at `v`, the one added last first.
pub open spec fn incoming(edges: Seq<Edge>, v: int) -> Seq<usize> {
    incoming_from(edges, v, 0)
}

/// The edges that leave `v`, the one added last first.
pub open spec fn outgoing(edges: Seq<Edge>, v: int) -> Seq<usize> {
    outgoing_from(edges, v, 0)
}

/// `incoming_from` holds exactly the edges at `lo` or later that arrive at `v`.
pub proof fn lemma_incoming_from(edges: Seq<Edge>, v: int, lo: int)
    requires
        0 <= lo,
        edges.len() <= usize::MAX,
    ensures
        forall|k: int| 0 <= k < incoming_from(edges, v, lo).len() ==> {
            let e = #[trigger] incoming_from(edges, v, lo)[k];
            lo <= e < edges.len() && edges[e as int].target == v
        },
        forall|e: int| lo <= e < edges.len() && (#[trigger] edges[e]).target == v ==> incoming_from(edges, v, lo).contains(e as usize),
        incoming_from(edges, v, lo).len() <= edges.len() - lo || lo >= edges.len(),
    decreases edges.len() - lo,
{
    if lo < edges.len() {
        lemma_incoming_from(edges, v, lo + 1);
        let rest = incoming_from(edges, v, lo + 1);
        let all = incoming_from(edges, v, lo);
        if edges[lo].target == v {
            assert(all == rest.push(lo as usize));
            assert(all[rest.len() as int] == lo as usize);
            assert forall|e: int| lo <= e < edges.len() && (#[trigger] edges[e]).target == v implies all.contains(e as usize) by {
                if e == lo {
                    assert(all[rest.len() as int] == e as usize);
                } else {
                    assert(rest.contains(e as usize));
                    let k = choose|k: int| 0 <= k < rest.len() && rest[k] == e as usize;
                    assert(all[k] == e as usize);
                }
            }
        }
    }
}

/// `outgoing_from` holds exactly the edges at `lo` or later that leave `v`.
pub proof fn lemma_outgoing_from(edges: Seq<Edge>, v: int, lo: int)
    requires
        0 <= lo,
        edges.len() <= usize::MAX,
    ensures
        forall|k: int| 0 <= k < outgoing_from(edges, v, lo).len() ==> {
            let e = #[trigger] outgoing_from(edges, v, lo)[k];
            lo <= e < edges.len() && edges[e as int].source == v
        },
        forall|e: int| lo <= e < edges.len() && (#[trigger] edges[e]).source == v ==> outgoing_from(edges, v, lo).contains(e as usize),
        outgoing_from(edges, v, lo).len() <= edges.len() - lo || lo >= edges.len(),
    decreases edges.len() - lo,
{
    if lo < edges.len() {
        lemma_outgoing_from(edges, v, lo + 1);
        let rest = outgoing_from(edges, v, lo + 1);
        let all = outgoing_from(edges, v, lo);
        if edges[lo].source == v {
            assert(all == rest.push(lo as usize));
            assert(all[rest.len() as int] == lo as usize);
            assert forall|e: int| lo <= e < edges.len() && (#[trigger] edges[e]).source == v implies all.contains(e as usize) by {
                if e == lo {
                    assert(all[rest.len() as int] == e as usize);
                } else {
                    assert(rest.contains(e as usize));
                    let k = choose|k: int| 0 <= k < rest.len() && rest[k] == e as usize;
                    assert(all[k] == e as usize);
                }
            }
        }
    }
}

/// The most nodes a graph can hold: priorities are `i32` and a chain can be
/// as long as the graph is large.
pub const MAX_NODE_COUNT: usize = 0x7fff_ffff;

/// A graph under construction: nodes in the order they were added, and
/// edges between them.
pub struct NodeGraph {
    nodes: Vec<Node>,
    edges: Vec<Edge>,
}

impl NodeGraph {
    /// The nodes, by index.
    pub closed spec fn nodes(&self) -> Seq<Node> {
        self.nodes@
    }

    /// The edges, in the order in which they were added.
    pub closed spec fn edges(&self) -> Seq<Edge> {
        self.edges@
    }

    /// Edges only ever join nodes of the graph, and the nodes can be
    /// counted in an `i32`.
    pub open spec fn wf(&self) -> bool {
        &&& self.nodes().len() <= MAX_NODE_COUNT
        &&& edges_in_range(self.edges(), self.nodes().len())
    }

    /// The empty graph.
    pub fn new() -> (g: Self)
        ensures
            g.wf(),
            g.nodes() == Seq::<Node>::empty(),
            g.edges() == Seq::<Edge>::empty(),
    {
        NodeGraph { nodes: Vec::new(), edges: Vec::new() }
    }

    /// The number of nodes.
    pub fn node_count(&self) -> (n: usize)
        ensures
            n == self.nodes().len(),
    {
        self.nodes.len()
    }

    /// The number of edges.
    pub fn edge_count(&self) -> (n: usize)
        ensures
            n == self.edges().len(),
    {
        self.edges.len()
    }

    /// Adds a node and returns its index.
    pub fn add_node(&mut self, node: Node) -> (index: usize)
        requires
            old(self).wf(),
            old(self).nodes().len() < MAX_NODE_COUNT,
        ensures
            final(self).wf(),
            index == old(self).nodes().len(),
            final(self).nodes() == old(self).nodes().push(node),
            final(self).edges() == old(self).edges(),
    {
        let index = self.nodes.len();
        self.nodes.push(node);
        index
    }

    /// Adds an edge from `source` to `target` and returns its index, or
    /// `None`, leaving the graph as it was, if either node does not exist.
    pub fn add_edge(&mut self, source: usize, target: usize, weight: u64) -> (index: Option<usize>)
        requires
            old(self).wf(),
        ensures
            final(self).wf(),
            final(self).nodes() == old(self).nodes(),
            match index {
                Some(e) => {
                    &&& source < old(self).nodes().len()
                    &&& target < old(self).nodes().len()
                    &&& e == old(self).edges().len()
                    &&& final(self).edges() == old(self).edges().push(Edge { source, target, weight })
                },
                None => {
                    &&& source >= old(self).nodes().len() || target >= old(self).nodes().len()
                    &&& final(self).edges() == old(self).edges()
                },
            },
    {
        if source >= self.nodes.len() || target >= self.nodes.len() {
            return None;
        }
        let index = self.edges.len();
        self.edges.push(Edge { source, target, weight });
        Some(index)
    }

    /// The node at `index`.
    pub fn node(&self, index: usize) -> (r: Option<&Node>)
        ensures
            index < self.nodes().len() ==> r == Some(&self.nodes()[index as int]),
            index >= self.nodes().len() ==> r is None,
    {
        if index < self.nodes.len() {
            Some(&self.nodes[index])
        } else {
            None
        }
    }

    /// The edge at `index`.
    pub fn edge(&self, index: usize) -> (r: Option<Edge>)
        ensures
            index < self.edges().len() ==> r == Some(self.edges()[index as int]),
            index >= self.edges().len() ==> r is None,
    {
        if index < self.edges.len() {
            Some(self.edges[index])
        } else {
            None
        }
    }

    /// Takes the graph apart.
    pub(crate) fn into_parts(self) -> (r: (Vec<Node>, Vec<Edge>))
        ensures
            r.0@ == self.nodes(),
            r.1@ == self.edges(),
    {
        (self.nodes, self.edges)
    }

    /// Puts a graph together from nodes and edges that fit each other.
    pub(crate) fn from_parts(nodes: Vec<Node>, edges: Vec<Edge>) -> (g: Self)
        requires
            nodes@.len() <= MAX_NODE_COUNT,
            edges_in_range(edges@, nodes@.len()),
        ensures
            g.wf(),
            g.nodes() == nodes@,
            g.edges() == edges@,
    {
        NodeGraph { nodes, edges }
    }
}

} // verus!
