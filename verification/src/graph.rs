//! The contracts under which this crate uses `petgraph`.
//!
//! Nothing in this file is proved: each function below makes one call into
//! `petgraph` and states what that call does, as the crate's source shows it.
//! A graph is described by two sequences, its node weights by node index and its
//! edges in the order in which they were added; a depth-first search by its
//! stack of nodes still to visit and its map of discovered nodes.

use crate::team::TeamTreeNode;
use fixedbitset::FixedBitSet;
use petgraph::graph::Graph;
use petgraph::graph::NodeIndex;
use petgraph::visit::Dfs;
use petgraph::Directed;
use vstd::prelude::*;

verus! {

/// `petgraph::graph::Graph`, of which nothing but the contracts below is known.
#[verifier::external_type_specification]
#[verifier::external_body]
#[verifier::reject_recursive_types(N)]
#[verifier::reject_recursive_types(E)]
#[verifier::reject_recursive_types(Ty)]
#[verifier::reject_recursive_types(Ix)]
pub struct ExGraph<N, E, Ty, Ix>(Graph<N, E, Ty, Ix>);

/// `petgraph::graph::NodeIndex`, the index of a node. The functions below take
/// and return it as a plain number.
#[verifier::external_type_specification]
#[verifier::external_body]
#[verifier::reject_recursive_types(Ix)]
pub struct ExNodeIndex<Ix>(NodeIndex<Ix>);

/// `petgraph::Directed`, the marker of a graph whose edges have a direction.
#[verifier::external_type_specification]
#[verifier::external_body]
pub struct ExDirected(Directed);

/// `fixedbitset::FixedBitSet`, in which a search over a `Graph` keeps its map
/// of discovered nodes.
#[verifier::external_type_specification]
#[verifier::external_body]
pub struct ExFixedBitSet(FixedBitSet);

/// `petgraph::visit::Dfs`, a depth-first search, of which nothing but the
/// contracts below is known.
#[verifier::external_type_specification]
#[verifier::external_body]
#[verifier::reject_recursive_types(N)]
#[verifier::reject_recursive_types(VM)]
pub struct ExDfs<N, VM>(Dfs<N, VM>);

/// The graph that holds a hierarchy of teams.
pub type TeamGraph = Graph<TeamTreeNode, u8, Directed, u32>;

/// A depth-first search over a [`TeamGraph`].
pub type TeamDfs = Dfs<NodeIndex<u32>, FixedBitSet>;

/// The node weights of a graph, by node index.
pub uninterp spec fn graph_nodes(g: Graph<TeamTreeNode, u8, Directed, u32>) -> Seq<TeamTreeNode>;

/// The edges of a graph in the order in which they were added: source, target, weight.
pub uninterp spec fn graph_edges(g: Graph<TeamTreeNode, u8, Directed, u32>) -> Seq<(int, int, u8)>;

/// `Graph::new`: a directed graph without nodes or edges.
#[verifier::external_body]
pub(crate) fn graph_new() -> (g: TeamGraph)
    ensures
        graph_nodes(g) == Seq::<TeamTreeNode>::empty(),
        graph_edges(g) == Seq::<(int, int, u8)>::empty(),
{
    Graph::new()
}

/// `Graph::node_count`: the number of nodes.
#[verifier::external_body]
pub(crate) fn graph_node_count(g: &TeamGraph) -> (count: usize)
    ensures
        count == graph_nodes(*g).len(),
{
    g.node_count()
}

/// `Graph::add_node`: appends a node with the given weight and returns its index.
/// The call panics once the graph holds `u32::MAX` nodes.
#[verifier::external_body]
pub(crate) fn graph_add_node(g: &mut TeamGraph, weight: TeamTreeNode) -> (index: usize)
    requires
        graph_nodes(*old(g)).len() < u32::MAX,
    ensures
        graph_nodes(*final(g)) == graph_nodes(*old(g)).push(weight),
        graph_edges(*final(g)) == graph_edges(*old(g)),
        index == graph_nodes(*old(g)).len(),
{
    g.add_node(weight).index()
}

/// `Graph::add_edge`: appends an edge from node `a` to node `b`. The call panics
/// if either node does not exist, or once the graph holds `u32::MAX` edges.
#[verifier::external_body]
pub(crate) fn graph_add_edge(g: &mut TeamGraph, a: usize, b: usize, weight: u8)
    requires
        a < graph_nodes(*old(g)).len(),
        b < graph_nodes(*old(g)).len(),
        graph_edges(*old(g)).len() < u32::MAX,
    ensures
        graph_nodes(*final(g)) == graph_nodes(*old(g)),
        graph_edges(*final(g)) == graph_edges(*old(g)).push((a as int, b as int, weight)),
{
    g.add_edge(NodeIndex::new(a), NodeIndex::new(b), weight);
}

/// Indexing a graph by a node index: the weight of that node. The call panics
/// if the node does not exist.
#[verifier::external_body]
pub(crate) fn graph_node(g: &TeamGraph, index: usize) -> (weight: &TeamTreeNode)
    requires
        index < graph_nodes(*g).len(),
    ensures
        *weight == graph_nodes(*g)[index as int],
{
    &g[NodeIndex::new(index)]
}

/// The stack of a search: the nodes still to visit, the next one last.
pub uninterp spec fn dfs_stack(d: Dfs<NodeIndex<u32>, FixedBitSet>) -> Seq<int>;

/// The map of discovered nodes of a search: one flag for each node index that it
/// has room for.
pub uninterp spec fn dfs_discovered(d: Dfs<NodeIndex<u32>, FixedBitSet>) -> Seq<bool>;

/// Whether `node` is flagged in a map of discovered nodes. A node beyond the map
/// counts as not discovered.
pub open spec fn is_discovered(seen: Seq<bool>, node: int) -> bool {
    0 <= node < seen.len() && seen[node]
}

/// What is left of `stack` once the discovered nodes on top of it are dropped:
/// its length, which is zero when every node of the stack is discovered.
pub open spec fn undiscovered_top(stack: Seq<int>, seen: Seq<bool>) -> int
    decreases stack.len(),
{
    if stack.len() == 0 {
        0
    } else if is_discovered(seen, stack.last()) {
        undiscovered_top(stack.drop_last(), seen)
    } else {
        stack.len() as int
    }
}

/// The targets of the edges that leave `node` and that `seen` does not flag,
/// the target of the most recently added edge first.
pub open spec fn fresh_successors(
    edges: Seq<(int, int, u8)>,
    node: int,
    seen: Seq<bool>,
) -> Seq<int>
    decreases edges.len(),
{
    if edges.len() == 0 {
        Seq::empty()
    } else {
        let earlier = fresh_successors(edges.drop_last(), node, seen);
        let last = edges.last();
        if last.0 == node && !is_discovered(seen, last.1) {
            seq![last.1] + earlier
        } else {
            earlier
        }
    }
}

/// One step of a search over a graph with the given edges: from the stack and the
/// map before the step to the node it yields, if any, and the stack and the map
/// after it.
pub open spec fn dfs_step(
    edges: Seq<(int, int, u8)>,
    stack: Seq<int>,
    seen: Seq<bool>,
    yielded: Option<usize>,
    next_stack: Seq<int>,
    next_seen: Seq<bool>,
) -> bool {
    let top = undiscovered_top(stack, seen);
    if top == 0 {
        &&& yielded is None
        &&& next_stack == Seq::<int>::empty()
        &&& next_seen == seen
    } else {
        let node = stack[top - 1];
        &&& yielded == Some(node as usize)
        &&& next_seen == seen.update(node, true)
        &&& next_stack == stack.take(top - 1) + fresh_successors(edges, node, next_seen)
    }
}

/// `Dfs::new`: a search that has discovered nothing yet, has room for every
/// node of `g`, and will visit `start` first. `start` is asked to be a node of
/// `g` so that it fits the index type.
#[verifier::external_body]
pub(crate) fn dfs_new(g: &TeamGraph, start: usize) -> (d: TeamDfs)
    requires
        start < graph_nodes(*g).len(),
    ensures
        dfs_stack(d) == seq![start as int],
        dfs_discovered(d) == Seq::new(graph_nodes(*g).len(), |i: int| false),
{
    Dfs::new(g, NodeIndex::new(start))
}

/// `Dfs::next`: pops nodes until one comes up that is not yet discovered, marks
/// it, pushes those of its successors that are not discovered, in the order in
/// which `Graph::neighbors` lists them (most recently added edge first), and
/// yields it; yields nothing once the stack is used up. Marking a node for
/// which the map has no room panics.
#[verifier::external_body]
pub(crate) fn dfs_next(d: &mut TeamDfs, g: &TeamGraph) -> (yielded: Option<usize>)
    requires
        forall|i: int|
            0 <= i < dfs_stack(*old(d)).len() ==> 0 <= #[trigger] dfs_stack(*old(d))[i]
                < dfs_discovered(*old(d)).len(),
    ensures
        dfs_step(
            graph_edges(*g),
            dfs_stack(*old(d)),
            dfs_discovered(*old(d)),
            yielded,
            dfs_stack(*final(d)),
            dfs_discovered(*final(d)),
        ),
{
    match d.next(g) {
        Some(node) => Some(node.index()),
        None => None,
    }
}

} // verus!
