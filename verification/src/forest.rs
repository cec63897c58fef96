//! The hierarchy of teams: a graph with one synthetic root and one node for
//! each team, built from a flat set of records in two passes.

use crate::graph::graph_add_edge;
use crate::graph::graph_add_node;
use crate::graph::graph_edges;
use crate::graph::graph_new;
use crate::graph::graph_node;
use crate::graph::graph_node_count;
use crate::graph::graph_nodes;
use crate::graph::TeamGraph;
use crate::team::all_resolved;
use crate::team::has_id;
use crate::team::is_orphan;
use crate::team::position;
use crate::team::valid_ids;
use crate::team::TeamTreeNode;
use std::collections::HashMap;
use vstd::prelude::*;

verus! {

broadcast use vstd::std_specs::hash::group_hash_axioms;

/// Why a hierarchy could not be built.
#[derive(Debug, Clone, PartialEq, Eq)]
pub enum BuildError {
    /// A team names a parent that is not among the records. Carries the name of
    /// that team.
    UnresolvedParent(String),
}

/// The node that holds the parent of team `i`: node 0, the root, for a team
/// without a parent, and otherwise the node after the parent's place.
pub open spec fn parent_slot(teams: Seq<TeamTreeNode>, i: int) -> int {
    match teams[i].parent_id {
        None => 0,
        Some(p) => position(teams, p) + 1,
    }
}

/// The weight of the edge that leads to team `i`: 0 from the root, 1 from a team.
pub open spec fn edge_weight(teams: Seq<TeamTreeNode>, i: int) -> u8 {
    if teams[i].parent_id is None {
        0
    } else {
        1
    }
}

/// The edges of the hierarchy over `teams`: one for each team, in input order,
/// from the node of its parent to its own node.
pub open spec fn hierarchy_edges(teams: Seq<TeamTreeNode>) -> Seq<(int, int, u8)> {
    Seq::new(teams.len(), |i: int| (parent_slot(teams, i), i + 1, edge_weight(teams, i)))
}

/// Where the parent of a team sits: at node 0 exactly when the team has no
/// parent, and otherwise at the node of the team that carries the parent's
/// identifier.
pub proof fn lemma_parent_slot(teams: Seq<TeamTreeNode>, i: int)
    requires
        valid_ids(teams),
        all_resolved(teams),
        0 <= i < teams.len(),
    ensures
        0 <= parent_slot(teams, i) <= teams.len(),
        teams[i].parent_id is None <==> parent_slot(teams, i) == 0,
        teams[i].parent_id matches Some(p) ==> teams[parent_slot(teams, i) - 1].id == p,
{
    if let Some(p) = teams[i].parent_id {
        assert(!is_orphan(teams, i));
        assert(has_id(teams, p));
    }
}

/// Team `i` is a child of team `v` exactly when its parent sits at the node of `v`.
pub proof fn lemma_child_of(teams: Seq<TeamTreeNode>, i: int, v: int)
    requires
        valid_ids(teams),
        all_resolved(teams),
        0 <= i < teams.len(),
        0 <= v < teams.len(),
    ensures
        teams[i].parent_id == Some(teams[v].id) <==> parent_slot(teams, i) == v + 1,
{
    lemma_parent_slot(teams, i);
    if teams[i].parent_id == Some(teams[v].id) {
        let j = position(teams, teams[v].id);
        assert(teams[j].id == teams[v].id);
        if j < v {
            assert(teams[j].id != teams[v].id);
        } else if v < j {
            assert(teams[v].id != teams[j].id);
        }
    }
}

/// Team `i` is the first, in input order, whose parent is missing.
pub open spec fn first_orphan(teams: Seq<TeamTreeNode>, i: int) -> bool {
    &&& 0 <= i < teams.len()
    &&& is_orphan(teams, i)
    &&& forall|j: int| 0 <= j < i ==> !is_orphan(teams, j)
}

/// `index` maps the identifier of each of the first `upto` teams to its node,
/// and nothing else.
pub open spec fn indexes(index: Map<u64, usize>, teams: Seq<TeamTreeNode>, upto: int) -> bool {
    &&& forall|j: int|
        0 <= j < upto ==> index.contains_key((#[trigger] teams[j]).id) && index[teams[j].id] == j
            + 1
    &&& forall|id: u64|
        (#[trigger] index.contains_key(id)) ==> exists|j: int|
            0 <= j < upto && (#[trigger] teams[j]).id == id
}

/// A hierarchy of teams under one synthetic root.
#[derive(Debug)]
pub struct Forest {
    graph: TeamGraph,
    root: usize,
}

impl View for Forest {
    type V = Seq<TeamTreeNode>;

    /// The teams of the hierarchy, in input order. The root is not among them.
    closed spec fn view(&self) -> Seq<TeamTreeNode> {
        graph_nodes(self.graph).skip(1)
    }
}

impl Forest {
    /// The invariant of a hierarchy: node 0 is the root, the nodes after it are
    /// the teams, identifiers are distinct and none is the root's, every parent
    /// reference leads to a team, and each team has exactly one incoming edge,
    /// which comes from its parent.
    pub closed spec fn wf(&self) -> bool {
        let nodes = graph_nodes(self.graph);
        &&& self.root == 0
        &&& 1 <= nodes.len() <= u32::MAX
        &&& nodes[0].is_root()
        &&& valid_ids(self@)
        &&& all_resolved(self@)
        &&& graph_edges(self.graph) == hierarchy_edges(self@)
    }

    /// The graph that holds the hierarchy.
    pub closed spec fn graph_view(&self) -> TeamGraph {
        self.graph
    }

    /// The graph that holds the hierarchy.
    pub(crate) fn graph(&self) -> (graph: &TeamGraph)
        ensures
            *graph == self.graph_view(),
    {
        &self.graph
    }

    /// The node of the synthetic root.
    pub fn root(&self) -> (root: usize)
        requires
            self.wf(),
        ensures
            root == 0,
    {
        self.root
    }

    /// The number of teams in the hierarchy; the root is not counted.
    pub fn team_count(&self) -> (count: usize)
        requires
            self.wf(),
        ensures
            count == self@.len(),
    {
        graph_node_count(&self.graph) - 1
    }

    /// Team `index` of the hierarchy, in input order.
    pub fn team(&self, index: usize) -> (team: &TeamTreeNode)
        requires
            self.wf(),
            index < self@.len(),
        ensures
            *team == self@[index as int],
    {
        graph_node(&self.graph, index + 1)
    }

    /// What the invariant says of the graph: the root at node 0, then the teams,
    /// and one edge for each team, from the node of its parent.
    pub proof fn lemma_shape(&self)
        requires
            self.wf(),
        ensures
            self@.len() < u32::MAX,
            valid_ids(self@),
            all_resolved(self@),
            graph_nodes(self.graph_view()).len() == self@.len() + 1,
            graph_nodes(self.graph_view())[0].is_root(),
            graph_nodes(self.graph_view()).skip(1) == self@,
            graph_edges(self.graph_view()) == hierarchy_edges(self@),
    {
    }

    /// Builds the hierarchy over `records`, whatever their order. Fails on the
    /// first record, in input order, whose parent is not among them, and then
    /// builds nothing.
    pub fn build(records: &Vec<TeamTreeNode>) -> (result: Result<Forest, BuildError>)
        requires
            records@.len() < u32::MAX,
            valid_ids(records@),
        ensures
            match result {
                Ok(forest) => all_resolved(records@) && forest.wf() && forest@ == records@,
                Err(BuildError::UnresolvedParent(name)) => exists|i: int|
                    first_orphan(records@, i) && name == records@[i].name,
            },
    {
        let n = records.len();
        let mut graph = graph_new();
        let mut flat_index: HashMap<u64, usize> = HashMap::new();
        let root = graph_add_node(&mut graph, TeamTreeNode::root());
        let mut i: usize = 0;
        while i < n
            invariant
                i <= n,
                n == records@.len(),
                n < u32::MAX,
                root == 0,
                graph_nodes(graph).len() == i + 1,
                graph_nodes(graph)[0].is_root(),
                graph_nodes(graph).skip(1) == records@.take(i as int),
                graph_edges(graph).len() == 0,
                valid_ids(records@),
                indexes(flat_index@, records@, i as int),
            decreases n - i,
        {
            let ghost nodes = graph_nodes(graph);
            let ghost index = flat_index@;
            let node = graph_add_node(&mut graph, records[i].duplicate());
            flat_index.insert(records[i].id, node);
            assert(indexes(flat_index@, records@, i as int + 1)) by {
                assert(flat_index@ == index.insert(records@[i as int].id, node));
                assert forall|id: u64| (#[trigger] flat_index@.contains_key(id)) implies exists|
                    j: int,
                | 0 <= j < i + 1 && (#[trigger] records@[j]).id == id by {
                    if id == records@[i as int].id {
                    } else {
                        assert(index.contains_key(id));
                    }
                }
            }
            assert(graph_nodes(graph).skip(1) =~= records@.take(i as int + 1));
            i += 1;
        }
        assert(records@.take(n as int) =~= records@);
        let mut k: usize = 0;
        while k < n
            invariant
                k <= n,
                n == records@.len(),
                n < u32::MAX,
                root == 0,
                valid_ids(records@),
                graph_nodes(graph).len() == n + 1,
                graph_nodes(graph)[0].is_root(),
                graph_nodes(graph).skip(1) == records@,
                graph_edges(graph) == hierarchy_edges(records@).take(k as int),
                indexes(flat_index@, records@, n as int),
                forall|j: int| 0 <= j < k ==> !is_orphan(records@, j),
            decreases n - k,
        {
            let ghost edges = graph_edges(graph);
            assert(graph_nodes(graph)[k as int + 1] == graph_nodes(graph).skip(1)[k as int]);
            let parent_id = graph_node(&graph, k + 1).parent_id;
            match parent_id {
                Some(id) => {
                    match flat_index.get(&id) {
                        Some(parent) => {
                            let parent_node = *parent;
                            proof {
                                let j = choose|j: int|
                                    0 <= j < n && (#[trigger] records@[j]).id == id;
                                assert(position(records@, id) == j);
                            }
                            graph_add_edge(&mut graph, parent_node, k + 1, 1);
                        },
                        None => {
                            let name = graph_node(&graph, k + 1).name.clone();
                            assert(first_orphan(records@, k as int)) by {
                                assert(!has_id(records@, id));
                            }
                            return Err(BuildError::UnresolvedParent(name));
                        },
                    }
                },
                None => {
                    graph_add_edge(&mut graph, root, k + 1, 0);
                },
            }
            assert(graph_edges(graph) =~= hierarchy_edges(records@).take(k as int + 1));
            k += 1;
        }
        assert(hierarchy_edges(records@).take(n as int) =~= hierarchy_edges(records@));
        Ok(Forest { graph, root })
    }
}

} // verus!
