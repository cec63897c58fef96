//! What holds of every hierarchy and of every outline.

use crate::forest::hierarchy_edges;
use crate::forest::lemma_child_of;
use crate::forest::lemma_parent_slot;
use crate::forest::parent_slot;
use crate::forest::Forest;
use crate::graph::graph_edges;
use crate::graph::graph_nodes;
use crate::outline::children_rev;
use crate::outline::indent;
use crate::outline::is_outline_of;
use crate::outline::lemma_children;
use crate::outline::lemma_pigeonhole;
use crate::outline::line_text;
use crate::outline::outline_visits;
use crate::outline::traverse;
use crate::outline::Visit;
use crate::team::all_resolved;
use crate::team::position;
use crate::team::valid_ids;
use crate::team::TeamTreeNode;
use crate::team::ROOT_ID;
use vstd::prelude::*;

verus! {

/// An edge of `edges` leads from node `a` to node `b`.
pub open spec fn joined(edges: Seq<(int, int, u8)>, a: int, b: int) -> bool {
    exists|e: int| 0 <= e < edges.len() && (#[trigger] edges[e]).0 == a && edges[e].1 == b
}

/// `route` starts at the root, node 0, ends at `node`, and follows an edge from
/// each of its nodes to the next.
pub open spec fn is_route_from_root(
    edges: Seq<(int, int, u8)>,
    route: Seq<int>,
    node: int,
) -> bool {
    &&& route.len() >= 1
    &&& route[0] == 0
    &&& route.last() == node
    &&& forall|s: int| 0 <= s < route.len() - 1 ==> joined(edges, #[trigger] route[s], route[s + 1])
}

/// A route of `length` nodes leads from the root to `node`.
pub open spec fn has_route(edges: Seq<(int, int, u8)>, node: int, length: int) -> bool {
    exists|route: Seq<int>| is_route_from_root(edges, route, node) && route.len() == length
}

/// Some route leads from the root to `node`.
pub open spec fn reachable(edges: Seq<(int, int, u8)>, node: int) -> bool {
    exists|route: Seq<int>| is_route_from_root(edges, route, node)
}

/// `rank` gives every team a number above that of its parent, which shows that
/// the parent references of `teams` form no cycle.
pub open spec fn is_ranking(teams: Seq<TeamTreeNode>, rank: Seq<nat>) -> bool {
    &&& rank.len() == teams.len()
    &&& forall|i: int|
        0 <= i < teams.len() && (#[trigger] teams[i]).parent_id is Some ==> rank[position(
            teams,
            teams[i].parent_id->0,
        )] < rank[i]
}

/// A hierarchy has exactly one root, at node 0, and one further node for each
/// team; every team has exactly one incoming edge, and the root has none.
pub proof fn lemma_one_root(forest: Forest)
    requires
        forest.wf(),
    ensures
        graph_nodes(forest.graph_view()).len() == forest@.len() + 1,
        forall|m: int|
            0 <= m < graph_nodes(forest.graph_view()).len() ==> ((#[trigger] graph_nodes(
                forest.graph_view(),
            )[m]).id == ROOT_ID <==> m == 0),
        graph_edges(forest.graph_view()).len() == forest@.len(),
        forall|e: int|
            0 <= e < graph_edges(forest.graph_view()).len() ==> (#[trigger] graph_edges(
                forest.graph_view(),
            )[e]).1 == e + 1,
{
    forest.lemma_shape();
    let nodes = graph_nodes(forest.graph_view());
    assert forall|m: int| 0 <= m < nodes.len() implies ((#[trigger] nodes[m]).id == ROOT_ID <==> m
        == 0) by {
        if m > 0 {
            assert(nodes[m] == nodes.skip(1)[m - 1]);
        }
    }
}

/// In a hierarchy without cycles, every node is reached from the root by a
/// finite route along the edges.
pub proof fn lemma_all_reachable(forest: Forest, rank: Seq<nat>, node: int)
    requires
        forest.wf(),
        is_ranking(forest@, rank),
        0 <= node <= forest@.len(),
    ensures
        reachable(graph_edges(forest.graph_view()), node),
{
    forest.lemma_shape();
    if node == 0 {
        assert(is_route_from_root(graph_edges(forest.graph_view()), seq![0int], 0));
    } else {
        lemma_team_reachable(forest@, rank, node - 1);
    }
}

/// Every team whose ancestors are ranked is reached from the root.
proof fn lemma_team_reachable(teams: Seq<TeamTreeNode>, rank: Seq<nat>, i: int)
    requires
        valid_ids(teams),
        all_resolved(teams),
        is_ranking(teams, rank),
        0 <= i < teams.len(),
    ensures
        reachable(hierarchy_edges(teams), i + 1),
    decreases rank[i],
{
    let edges = hierarchy_edges(teams);
    lemma_parent_slot(teams, i);
    assert(edges[i].0 == parent_slot(teams, i) && edges[i].1 == i + 1);
    match teams[i].parent_id {
        None => {
            let route = seq![0int, i + 1];
            assert(joined(edges, 0, i + 1));
            assert(is_route_from_root(edges, route, i + 1));
        },
        Some(p) => {
            let j = position(teams, p);
            lemma_team_reachable(teams, rank, j);
            let below = j + 1;
            let upper = choose|route: Seq<int>| is_route_from_root(edges, route, below);
            assert(joined(edges, below, i + 1));
            lemma_extend(edges, upper, below, i + 1);
            assert(is_route_from_root(edges, upper.push(i + 1), i + 1));
        },
    }
}

/// A route to a node, followed by an edge that leaves that node, is a route to
/// the node that the edge leads to, and one edge longer.
proof fn lemma_extend(edges: Seq<(int, int, u8)>, route: Seq<int>, from: int, to: int)
    requires
        is_route_from_root(edges, route, from),
        joined(edges, from, to),
    ensures
        is_route_from_root(edges, route.push(to), to),
{
    let longer = route.push(to);
    assert forall|s: int| 0 <= s < longer.len() - 1 implies joined(
        edges,
        #[trigger] longer[s],
        longer[s + 1],
    ) by {
        if s < route.len() - 1 {
            assert(joined(edges, route[s], route[s + 1]));
        }
    }
}

/// Any two routes from the root to one node of a hierarchy have the same length.
pub proof fn lemma_route_unique(teams: Seq<TeamTreeNode>, a: Seq<int>, b: Seq<int>, node: int)
    requires
        is_route_from_root(hierarchy_edges(teams), a, node),
        is_route_from_root(hierarchy_edges(teams), b, node),
    ensures
        a.len() == b.len(),
    decreases a.len(),
{
    let edges = hierarchy_edges(teams);
    if a.len() >= 2 && b.len() >= 2 {
        let sa = a.len() - 2;
        let sb = b.len() - 2;
        assert(joined(edges, a[sa], a[sa + 1]));
        assert(joined(edges, b[sb], b[sb + 1]));
        assert(a[sa] == b[sb]);
        let shorter_a = a.drop_last();
        let shorter_b = b.drop_last();
        assert forall|s: int| 0 <= s < shorter_a.len() - 1 implies joined(
            edges,
            #[trigger] shorter_a[s],
            shorter_a[s + 1],
        ) by {
            assert(joined(edges, a[s], a[s + 1]));
        }
        assert forall|s: int| 0 <= s < shorter_b.len() - 1 implies joined(
            edges,
            #[trigger] shorter_b[s],
            shorter_b[s + 1],
        ) by {
            assert(joined(edges, b[s], b[s + 1]));
        }
        lemma_route_unique(teams, shorter_a, shorter_b, a[sa]);
    } else if a.len() >= 2 {
        let sa = a.len() - 2;
        assert(joined(edges, a[sa], a[sa + 1]));
    } else if b.len() >= 2 {
        let sb = b.len() - 2;
        assert(joined(edges, b[sb], b[sb + 1]));
    }
}

/// The team of the visit is in the set, and a route of `depth + 1` edges leads
/// from the root to it.
pub open spec fn routed(teams: Seq<TeamTreeNode>, visit: Visit) -> bool {
    &&& 0 <= visit.team < teams.len()
    &&& has_route(hierarchy_edges(teams), visit.team + 1, visit.depth as int + 2)
}

/// The children of a visit that has a route have routes one edge longer.
proof fn lemma_children_routed(
    teams: Seq<TeamTreeNode>,
    parent: Option<u64>,
    slot: int,
    depth: nat,
    upper: Seq<int>,
)
    requires
        valid_ids(teams),
        all_resolved(teams),
        is_route_from_root(hierarchy_edges(teams), upper, slot),
        upper.len() == depth + 1,
        forall|i: int|
            0 <= i < teams.len() && (#[trigger] teams[i]).parent_id == parent
                ==> parent_slot(teams, i) == slot,
    ensures
        forall|i: int|
            0 <= i < children_rev(teams, parent, depth, teams.len() as int).len() ==> routed(
                teams,
                #[trigger] children_rev(teams, parent, depth, teams.len() as int)[i],
            ),
{
    let n = teams.len() as int;
    let edges = hierarchy_edges(teams);
    let kids = children_rev(teams, parent, depth, n);
    lemma_children(teams, parent, depth, n);
    assert forall|i: int| 0 <= i < kids.len() implies routed(teams, #[trigger] kids[i]) by {
        let kid = kids[i];
        assert(teams[kid.team].parent_id == parent);
        assert(edges[kid.team].0 == slot && edges[kid.team].1 == kid.team + 1);
        assert(joined(edges, slot, kid.team + 1));
        lemma_extend(edges, upper, slot, kid.team + 1);
        assert(is_route_from_root(edges, upper.push(kid.team + 1), kid.team + 1));
        assert(upper.push(kid.team + 1).len() == kid.depth + 2);
    }
}

/// A walk from visits that have routes yields only visits that have routes.
proof fn lemma_traverse_routed(teams: Seq<TeamTreeNode>, pending: Seq<Visit>, fuel: nat)
    requires
        valid_ids(teams),
        all_resolved(teams),
        forall|i: int| 0 <= i < pending.len() ==> routed(teams, #[trigger] pending[i]),
    ensures
        forall|k: int|
            0 <= k < traverse(teams, pending, fuel).len() ==> routed(
                teams,
                #[trigger] traverse(teams, pending, fuel)[k],
            ),
    decreases fuel,
{
    if fuel > 0 && pending.len() > 0 {
        let n = teams.len() as int;
        let next = pending.last();
        let parent = Some(teams[next.team].id);
        let kids = children_rev(teams, parent, next.depth + 1, n);
        let rest = pending.drop_last() + kids;
        assert(routed(teams, pending[pending.len() - 1]));
        let slot = next.team + 1;
        let length = next.depth as int + 2;
        let upper = choose|route: Seq<int>|
            is_route_from_root(hierarchy_edges(teams), route, slot) && route.len() == length;
        assert forall|i: int| 0 <= i < n && (#[trigger] teams[i]).parent_id == parent
            implies parent_slot(teams, i) == next.team + 1 by {
            lemma_child_of(teams, i, next.team);
        }
        lemma_children_routed(teams, parent, next.team + 1, next.depth + 1, upper);
        assert forall|i: int| 0 <= i < rest.len() implies routed(teams, #[trigger] rest[i]) by {
            if i < pending.len() - 1 {
                assert(rest[i] == pending[i]);
            } else {
                assert(rest[i] == kids[i - (pending.len() - 1)]);
            }
        }
        lemma_traverse_routed(teams, rest, (fuel - 1) as nat);
        let later = traverse(teams, rest, (fuel - 1) as nat);
        assert forall|k: int| 0 <= k < traverse(teams, pending, fuel).len() implies routed(
            teams,
            #[trigger] traverse(teams, pending, fuel)[k],
        ) by {
            if k > 0 {
                assert(traverse(teams, pending, fuel)[k] == later[k - 1]);
            }
        }
    }
}

/// The depth of a visit of the outline is the number of edges, after the first,
/// of any route from the root to its team.
pub proof fn lemma_depth_counts_edges(teams: Seq<TeamTreeNode>, k: int, route: Seq<int>)
    requires
        valid_ids(teams),
        all_resolved(teams),
        0 <= k < outline_visits(teams).len(),
        is_route_from_root(hierarchy_edges(teams), route, outline_visits(teams)[k].team + 1),
    ensures
        route.len() == outline_visits(teams)[k].depth + 2,
{
    lemma_outline_routed(teams);
    let visit = outline_visits(teams)[k];
    assert(routed(teams, visit));
    let slot = visit.team + 1;
    let length = visit.depth as int + 2;
    let found = choose|found: Seq<int>|
        is_route_from_root(hierarchy_edges(teams), found, slot) && found.len() == length;
    lemma_route_unique(teams, route, found, slot);
}

/// The indent of a line of a rendered hierarchy is two spaces for each edge,
/// after the first, of the route from the root to the team of the line: a team
/// directly under the root has no indent, and each level below it adds two
/// spaces, in whatever order the teams were given and visited.
pub proof fn lemma_indent_is_depth(forest: Forest, lines: Seq<String>, k: int, route: Seq<int>)
    requires
        forest.wf(),
        is_outline_of(lines, forest@),
        0 <= k < lines.len(),
        is_route_from_root(
            graph_edges(forest.graph_view()),
            route,
            outline_visits(forest@)[k].team + 1,
        ),
    ensures
        route.len() >= 2,
        lines[k]@ == indent((route.len() - 2) as nat) + seq!['-', ' ']
            + forest@[outline_visits(forest@)[k].team].name@,
        indent((route.len() - 2) as nat).len() == 2 * (route.len() - 2),
{
    forest.lemma_shape();
    lemma_depth_counts_edges(forest@, k, route);
}

/// Every line of an outline stands for a team, to which a route of one edge
/// more than the depth of the line leads from the root. The root, to which the
/// route has no edge, has no line.
pub proof fn lemma_outline_routed(teams: Seq<TeamTreeNode>)
    requires
        valid_ids(teams),
        all_resolved(teams),
    ensures
        forall|k: int|
            0 <= k < outline_visits(teams).len() ==> routed(
                teams,
                #[trigger] outline_visits(teams)[k],
            ),
{
    let n = teams.len() as int;
    let edges = hierarchy_edges(teams);
    assert(is_route_from_root(edges, seq![0int], 0));
    assert forall|i: int| 0 <= i < n && (#[trigger] teams[i]).parent_id == None::<u64>
        implies parent_slot(teams, i) == 0 by {
        lemma_parent_slot(teams, i);
    }
    lemma_children_routed(teams, None, 0, 0, seq![0int]);
    lemma_traverse_routed(teams, children_rev(teams, None, 0, n), teams.len());
}

/// Rendering one hierarchy twice gives the same lines.
pub proof fn lemma_rendering_repeats(forest: Forest, once: Seq<String>, again: Seq<String>)
    requires
        is_outline_of(once, forest@),
        is_outline_of(again, forest@),
    ensures
        once.len() == again.len(),
        forall|k: int| 0 <= k < once.len() ==> (#[trigger] once[k])@ == again[k]@,
{
}

/// Some visit among `visits` is of team `team`.
pub open spec fn has_visit(visits: Seq<Visit>, team: int) -> bool {
    exists|k: int| 0 <= k < visits.len() && (#[trigger] visits[k]).team == team
}

/// Team `child` names team `parent` as its parent.
pub open spec fn is_child(teams: Seq<TeamTreeNode>, child: int, parent: int) -> bool {
    teams[child].parent_id == Some(teams[parent].id)
}

/// Team `team` sits directly under the root, or its parent is among `done`.
spec fn parent_done(teams: Seq<TeamTreeNode>, done: Seq<int>, team: int) -> bool {
    teams[team].parent_id is None || done.contains(parent_slot(teams, team) - 1)
}

/// What holds of a walk in progress, with the teams in `done` visited and the
/// visits in `pending` still to come: no team is in both or twice in either,
/// and the parent of each has been visited.
spec fn walk_inv(teams: Seq<TeamTreeNode>, pending: Seq<Visit>, done: Seq<int>) -> bool {
    &&& forall|i: int| 0 <= i < pending.len() ==> 0 <= (#[trigger] pending[i]).team < teams.len()
    &&& forall|i: int, j: int|
        0 <= i < j < pending.len() ==> (#[trigger] pending[i]).team != (#[trigger] pending[j]).team
    &&& forall|k: int| 0 <= k < done.len() ==> 0 <= #[trigger] done[k] < teams.len()
    &&& forall|a: int, b: int| 0 <= a < b < done.len() ==> #[trigger] done[a] != #[trigger] done[b]
    &&& forall|i: int, k: int|
        0 <= i < pending.len() && 0 <= k < done.len() ==> (#[trigger] pending[i]).team
            != #[trigger] done[k]
    &&& forall|i: int|
        0 <= i < pending.len() ==> parent_done(teams, done, (#[trigger] pending[i]).team)
    &&& forall|k: int| 0 <= k < done.len() ==> parent_done(teams, done, #[trigger] done[k])
}

/// Every child of `parent` among the first `upto` teams is in `children_rev`.
proof fn lemma_children_complete(
    teams: Seq<TeamTreeNode>,
    parent: Option<u64>,
    depth: nat,
    upto: int,
    child: int,
)
    requires
        0 <= child < upto <= teams.len(),
        teams[child].parent_id == parent,
    ensures
        has_visit(children_rev(teams, parent, depth, upto), child),
    decreases upto,
{
    let kids = children_rev(teams, parent, depth, upto);
    if child == upto - 1 {
        assert(kids[0].team == child);
    } else {
        lemma_children_complete(teams, parent, depth, upto - 1, child);
        let earlier = children_rev(teams, parent, depth, upto - 1);
        let k = choose|k: int| 0 <= k < earlier.len() && (#[trigger] earlier[k]).team == child;
        if teams[upto - 1].parent_id == parent {
            assert(kids[k + 1] == earlier[k]);
        } else {
            assert(kids[k] == earlier[k]);
        }
    }
}

/// Taking the next pending visit keeps `walk_inv`: its team joins those
/// visited, and its children, none of which was seen before, join the stack.
proof fn lemma_walk_step(teams: Seq<TeamTreeNode>, pending: Seq<Visit>, done: Seq<int>)
    requires
        valid_ids(teams),
        all_resolved(teams),
        walk_inv(teams, pending, done),
        pending.len() > 0,
    ensures
        done.len() < teams.len(),
        walk_inv(
            teams,
            pending.drop_last() + children_rev(
                teams,
                Some(teams[pending.last().team].id),
                pending.last().depth + 1,
                teams.len() as int,
            ),
            done.push(pending.last().team),
        ),
{
    let n = teams.len() as int;
    let next = pending.last();
    let v = next.team;
    let kids = children_rev(teams, Some(teams[v].id), next.depth + 1, n);
    let rest = pending.drop_last() + kids;
    let more = done.push(v);
    let base = pending.len() - 1;
    assert(pending[base] == next);
    lemma_children(teams, Some(teams[v].id), next.depth + 1, n);
    assert forall|a: int, b: int| 0 <= a < b < more.len() implies #[trigger] more[a]
        != #[trigger] more[b] by {
        if b == done.len() {
            assert(pending[base].team != done[a]);
        } else {
            assert(done[a] != done[b]);
        }
    }
    assert forall|k: int| 0 <= k < more.len() implies 0 <= #[trigger] more[k] < n by {
        if k < done.len() {
            assert(0 <= done[k] < n);
        }
    }
    lemma_pigeonhole(more, n);
    // A child of the team was neither visited nor pending: its parent was not visited.
    assert forall|i: int| 0 <= i < kids.len() implies !done.contains((#[trigger] kids[i]).team)
        && parent_slot(teams, kids[i].team) == v + 1 && (forall|j: int|
        0 <= j < pending.len() ==> (#[trigger] pending[j]).team != kids[i].team) by {
        let c = kids[i].team;
        lemma_child_of(teams, c, v);
        if done.contains(c) {
            let k = choose|k: int| 0 <= k < done.len() && done[k] == c;
            assert(parent_done(teams, done, done[k]));
            let at = choose|at: int| 0 <= at < done.len() && done[at] == v;
            assert(pending[base].team != done[at]);
        }
        assert forall|j: int| 0 <= j < pending.len() implies (#[trigger] pending[j]).team
            != c by {
            if pending[j].team == c {
                assert(parent_done(teams, done, pending[j].team));
                let at = choose|at: int| 0 <= at < done.len() && done[at] == v;
                assert(pending[base].team != done[at]);
            }
        }
    }
    assert forall|i: int| 0 <= i < rest.len() implies 0 <= (#[trigger] rest[i]).team < n
        && parent_done(teams, more, rest[i].team) by {
        if i < base {
            assert(rest[i] == pending[i]);
            assert(parent_done(teams, done, pending[i].team));
            if teams[pending[i].team].parent_id is Some {
                let at = choose|at: int|
                    0 <= at < done.len() && done[at] == parent_slot(
                        teams,
                        pending[i].team,
                    ) - 1;
                assert(more[at] == done[at]);
            }
        } else {
            assert(rest[i] == kids[i - base]);
            assert(more[done.len() as int] == v);
        }
    }
    assert forall|i: int, j: int| 0 <= i < j < rest.len() implies (#[trigger] rest[i]).team != (
    #[trigger] rest[j]).team by {
        if j < base {
            assert(pending[i].team != pending[j].team);
        } else if i < base {
            assert(rest[i] == pending[i]);
            assert(rest[j] == kids[j - base]);
        } else {
            assert(kids[i - base].team > kids[j - base].team);
        }
    }
    assert forall|i: int, k: int| 0 <= i < rest.len() && 0 <= k < more.len() implies (
    #[trigger] rest[i]).team != #[trigger] more[k] by {
        if i < base {
            assert(rest[i] == pending[i]);
            if k < done.len() {
                assert(pending[i].team != done[k]);
            } else {
                assert(pending[i].team != pending[base].team);
            }
        } else {
            assert(rest[i] == kids[i - base]);
            if k < done.len() {
                assert(done.contains(done[k]));
            } else {
                assert(pending[base].team != kids[i - base].team);
            }
        }
    }
    assert forall|k: int| 0 <= k < more.len() implies parent_done(
        teams,
        more,
        #[trigger] more[k],
    ) by {
        let t = more[k];
        if k < done.len() {
            assert(parent_done(teams, done, done[k]));
        } else {
            assert(parent_done(teams, done, pending[base].team));
        }
        if teams[t].parent_id is Some {
            let at = choose|at: int|
                0 <= at < done.len() && done[at] == parent_slot(teams, t) - 1;
            assert(more[at] == done[at]);
        }
    }
}

/// What a walk yields when there is fuel for every team not yet visited: each
/// pending visit, each child of a team it visits, no team twice, and none of
/// the teams visited before.
proof fn lemma_walk(teams: Seq<TeamTreeNode>, pending: Seq<Visit>, done: Seq<int>, fuel: nat)
    requires
        valid_ids(teams),
        all_resolved(teams),
        walk_inv(teams, pending, done),
        fuel + done.len() >= teams.len(),
    ensures
        forall|i: int|
            0 <= i < pending.len() ==> has_visit(
                traverse(teams, pending, fuel),
                (#[trigger] pending[i]).team,
            ),
        forall|k: int, c: int|
            0 <= k < traverse(teams, pending, fuel).len() && 0 <= c < teams.len()
                && #[trigger] is_child(teams, c, traverse(teams, pending, fuel)[k].team)
                ==> has_visit(traverse(teams, pending, fuel), c),
        forall|a: int, b: int|
            0 <= a < b < traverse(teams, pending, fuel).len() ==> (#[trigger] traverse(
                teams,
                pending,
                fuel,
            )[a]).team != (#[trigger] traverse(teams, pending, fuel)[b]).team,
        forall|k: int|
            0 <= k < traverse(teams, pending, fuel).len() ==> !done.contains(
                (#[trigger] traverse(teams, pending, fuel)[k]).team,
            ) && 0 <= traverse(teams, pending, fuel)[k].team < teams.len(),
    decreases fuel,
{
    if pending.len() > 0 {
        let n = teams.len() as int;
        let next = pending.last();
        let parent = Some(teams[next.team].id);
        let kids = children_rev(teams, parent, next.depth + 1, n);
        let rest = pending.drop_last() + kids;
        let more = done.push(next.team);
        let base = pending.len() - 1;
        assert(pending[base] == next);
        lemma_walk_step(teams, pending, done);
        lemma_walk(teams, rest, more, (fuel - 1) as nat);
        let out = traverse(teams, pending, fuel);
        let later = traverse(teams, rest, (fuel - 1) as nat);
        assert(out =~= seq![next] + later);
        assert forall|t: int| has_visit(later, t) implies has_visit(out, t) by {
            let k = choose|k: int| 0 <= k < later.len() && (#[trigger] later[k]).team == t;
            assert(out[k + 1] == later[k]);
        }
        assert forall|i: int| 0 <= i < pending.len() implies has_visit(
            out,
            (#[trigger] pending[i]).team,
        ) by {
            if i == base {
                assert(out[0].team == next.team);
            } else {
                assert(rest[i] == pending[i]);
                assert(has_visit(later, rest[i].team));
            }
        }
        assert forall|k: int, c: int|
            0 <= k < out.len() && 0 <= c < n && #[trigger] is_child(
                teams,
                c,
                out[k].team,
            ) implies has_visit(out, c) by {
            if k == 0 {
                lemma_children_complete(teams, parent, next.depth + 1, n, c);
                let at = choose|at: int| 0 <= at < kids.len() && (#[trigger] kids[at]).team == c;
                assert(rest[base + at] == kids[at]);
                assert(has_visit(later, rest[base + at].team));
            } else {
                assert(out[k] == later[k - 1]);
                assert(is_child(teams, c, later[k - 1].team));
                assert(has_visit(later, c));
            }
        }
        assert forall|k: int| 0 <= k < out.len() implies !done.contains((#[trigger] out[k]).team)
            && 0 <= out[k].team < n by {
            if k == 0 {
                if done.contains(next.team) {
                    let at = choose|at: int| 0 <= at < done.len() && done[at] == next.team;
                    assert(pending[base].team != done[at]);
                }
            } else {
                assert(out[k] == later[k - 1]);
                assert(!more.contains(later[k - 1].team));
                if done.contains(out[k].team) {
                    let at = choose|at: int| 0 <= at < done.len() && done[at] == out[k].team;
                    assert(more[at] == done[at]);
                }
            }
        }
        assert forall|a: int, b: int| 0 <= a < b < out.len() implies (#[trigger] out[a]).team != (
        #[trigger] out[b]).team by {
            assert(out[b] == later[b - 1]);
            if a == 0 {
                assert(!more.contains(later[b - 1].team));
                assert(more[done.len() as int] == next.team);
            } else {
                assert(out[a] == later[a - 1]);
            }
        }
    }
}

/// The walk of the outline starts as `walk_inv` asks.
proof fn lemma_walk_start(teams: Seq<TeamTreeNode>)
    ensures
        walk_inv(teams, children_rev(teams, None, 0, teams.len() as int), Seq::empty()),
{
    lemma_children(teams, None, 0, teams.len() as int);
}

/// No team has two lines in an outline.
pub proof fn lemma_outline_no_repeat(teams: Seq<TeamTreeNode>)
    requires
        valid_ids(teams),
        all_resolved(teams),
    ensures
        forall|a: int, b: int|
            0 <= a < b < outline_visits(teams).len() ==> (#[trigger] outline_visits(teams)[a]).team
                != (#[trigger] outline_visits(teams)[b]).team,
{
    lemma_walk_start(teams);
    lemma_walk(
        teams,
        children_rev(teams, None, 0, teams.len() as int),
        Seq::empty(),
        teams.len(),
    );
}

/// Every team to which a route leads from the root has a line in the outline;
/// so has, in particular, every team directly under the root.
pub proof fn lemma_outline_complete(teams: Seq<TeamTreeNode>, route: Seq<int>, team: int)
    requires
        valid_ids(teams),
        all_resolved(teams),
        0 <= team < teams.len(),
        is_route_from_root(hierarchy_edges(teams), route, team + 1),
    ensures
        has_visit(outline_visits(teams), team),
    decreases route.len(),
{
    let n = teams.len() as int;
    let edges = hierarchy_edges(teams);
    let start = children_rev(teams, None, 0, n);
    lemma_walk_start(teams);
    lemma_walk(teams, start, Seq::empty(), teams.len());
    let before = route.len() - 2;
    assert(joined(edges, route[before], route[before + 1]));
    lemma_parent_slot(teams, team);
    if route[before] == 0 {
        lemma_children_complete(teams, None, 0, n, team);
        let at = choose|at: int| 0 <= at < start.len() && (#[trigger] start[at]).team == team;
        assert(has_visit(outline_visits(teams), start[at].team));
    } else {
        let parent = route[before] - 1;
        let upper = route.drop_last();
        assert forall|s: int| 0 <= s < upper.len() - 1 implies joined(
            edges,
            #[trigger] upper[s],
            upper[s + 1],
        ) by {
            assert(joined(edges, route[s], route[s + 1]));
        }
        lemma_outline_complete(teams, upper, parent);
        lemma_child_of(teams, team, parent);
        let k = choose|k: int|
            0 <= k < outline_visits(teams).len() && (#[trigger] outline_visits(teams)[k]).team
                == parent;
        assert(is_child(teams, team, outline_visits(teams)[k].team));
    }
}

/// The root has no line, though its children have: every line of a rendered
/// hierarchy is the line of a team, which is never node 0, and every team
/// directly under the root has a line, without indent.
pub proof fn lemma_root_has_no_line(forest: Forest, lines: Seq<String>)
    requires
        forest.wf(),
        is_outline_of(lines, forest@),
    ensures
        lines.len() == outline_visits(forest@).len(),
        forall|k: int|
            0 <= k < lines.len() ==> 0 <= (#[trigger] outline_visits(forest@)[k]).team
                < forest@.len() && lines[k]@ == line_text(
                outline_visits(forest@)[k].depth,
                forest@[outline_visits(forest@)[k].team].name@,
            ),
        forall|i: int|
            0 <= i < forest@.len() && (#[trigger] forest@[i]).parent_id is None ==> exists|k: int|
                0 <= k < lines.len() && #[trigger] outline_visits(forest@)[k] == (Visit {
                    team: i,
                    depth: 0,
                }),
{
    forest.lemma_shape();
    let teams = forest@;
    let edges = hierarchy_edges(teams);
    lemma_outline_routed(teams);
    assert forall|k: int| 0 <= k < lines.len() implies 0 <= (#[trigger] outline_visits(
        teams,
    )[k]).team < teams.len() by {
        assert(routed(teams, outline_visits(teams)[k]));
    }
    assert forall|i: int| 0 <= i < teams.len() && (#[trigger] teams[i]).parent_id is None
        implies exists|k: int|
        0 <= k < lines.len() && #[trigger] outline_visits(teams)[k] == (Visit {
            team: i,
            depth: 0,
        }) by {
        lemma_parent_slot(teams, i);
        let route = seq![0int, i + 1];
        assert(edges[i].0 == 0 && edges[i].1 == i + 1);
        assert(joined(edges, 0, i + 1));
        assert(is_route_from_root(edges, route, i + 1));
        lemma_outline_complete(teams, route, i);
        let k = choose|k: int|
            0 <= k < outline_visits(teams).len() && (#[trigger] outline_visits(teams)[k]).team
                == i;
        lemma_depth_counts_edges(teams, k, route);
        assert(outline_visits(teams)[k] == (Visit { team: i, depth: 0 }));
    }
}

/// The place in `visits` of a visit of team `team`.
spec fn visit_of(visits: Seq<Visit>, team: int) -> int {
    choose|k: int| 0 <= k < visits.len() && (#[trigger] visits[k]).team == team
}

/// A rendered hierarchy without cycles has exactly one line for each team.
pub proof fn lemma_one_line_per_team(forest: Forest, rank: Seq<nat>, lines: Seq<String>)
    requires
        forest.wf(),
        is_ranking(forest@, rank),
        is_outline_of(lines, forest@),
    ensures
        lines.len() == forest@.len(),
        forall|i: int| 0 <= i < forest@.len() ==> has_visit(outline_visits(forest@), i),
        forall|a: int, b: int|
            0 <= a < b < lines.len() ==> (#[trigger] outline_visits(forest@)[a]).team != (
            #[trigger] outline_visits(forest@)[b]).team,
{
    forest.lemma_shape();
    let teams = forest@;
    let n = teams.len() as int;
    let edges = hierarchy_edges(teams);
    let visits = outline_visits(teams);
    lemma_outline_no_repeat(teams);
    lemma_outline_routed(teams);
    assert forall|i: int| 0 <= i < n implies has_visit(visits, i) by {
        lemma_team_reachable(teams, rank, i);
        let slot = i + 1;
        let route = choose|route: Seq<int>| is_route_from_root(edges, route, slot);
        lemma_outline_complete(teams, route, i);
    }
    // No more lines than teams: the teams of the lines are distinct.
    let visited = Seq::new(visits.len(), |k: int| visits[k].team);
    assert forall|k: int| 0 <= k < visited.len() implies 0 <= #[trigger] visited[k] < n by {
        assert(routed(teams, visits[k]));
    }
    lemma_pigeonhole(visited, n);
    // No fewer: distinct teams are visited at distinct places.
    let places = Seq::new(teams.len(), |i: int| visit_of(visits, i));
    assert forall|i: int| 0 <= i < places.len() implies 0 <= #[trigger] places[i]
        < visits.len() && visits[places[i]].team == i by {
        assert(has_visit(visits, i));
    }
    assert forall|i: int, j: int| 0 <= i < j < places.len() implies #[trigger] places[i]
        != #[trigger] places[j] by {
        assert(visits[places[i]].team == i);
        assert(visits[places[j]].team == j);
    }
    lemma_pigeonhole(places, visits.len() as int);
}

} // verus!
