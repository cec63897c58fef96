//! Rendering a hierarchy as an outline: a depth-first search over the graph,
//! with the depth of each team read off a stack of its ancestors' identifiers.

use crate::forest::first_orphan;
use crate::forest::hierarchy_edges;
use crate::forest::lemma_child_of;
use crate::forest::lemma_parent_slot;
use crate::forest::parent_slot;
use crate::forest::BuildError;
use crate::forest::Forest;
use crate::graph::dfs_discovered;
use crate::graph::dfs_new;
use crate::graph::dfs_next;
use crate::graph::dfs_stack;
use crate::graph::fresh_successors;
use crate::graph::graph_edges;
use crate::graph::graph_node;
use crate::graph::graph_nodes;
use crate::graph::is_discovered;
use crate::graph::undiscovered_top;
use crate::outline::children_rev;
use crate::outline::format_line;
use crate::outline::is_outline_of;
use crate::outline::lemma_children;
use crate::outline::lemma_pigeonhole;
use crate::outline::line_text;
use crate::outline::outline_visits;
use crate::outline::traverse;
use crate::outline::Visit;
use crate::team::all_resolved;
use crate::team::lemma_same_team;
use crate::team::valid_ids;
use crate::team::TeamTreeNode;
use vstd::prelude::*;

verus! {

/// The successors that a search pushes for the node `slot` are the children of
/// `parent`, in the same order, as long as `slot` is where the parent of those
/// children sits and none of them is discovered.
proof fn lemma_successors(
    teams: Seq<TeamTreeNode>,
    parent: Option<u64>,
    slot: int,
    depth: nat,
    seen: Seq<bool>,
    upto: int,
)
    requires
        0 <= upto <= teams.len(),
        forall|i: int|
            0 <= i < upto ==> ((#[trigger] teams[i]).parent_id == parent <==> parent_slot(teams, i)
                == slot),
        forall|i: int|
            0 <= i < upto && (#[trigger] teams[i]).parent_id == parent ==> !is_discovered(
                seen,
                i + 1,
            ),
    ensures
        fresh_successors(hierarchy_edges(teams).take(upto), slot, seen).len() == children_rev(
            teams,
            parent,
            depth,
            upto,
        ).len(),
        forall|i: int|
            0 <= i < children_rev(teams, parent, depth, upto).len() ==> #[trigger] fresh_successors(
                hierarchy_edges(teams).take(upto),
                slot,
                seen,
            )[i] == children_rev(teams, parent, depth, upto)[i].team + 1,
    decreases upto,
{
    if upto > 0 {
        lemma_successors(teams, parent, slot, depth, seen, upto - 1);
        let edges = hierarchy_edges(teams).take(upto);
        assert(edges.drop_last() =~= hierarchy_edges(teams).take(upto - 1));
        assert(edges.last().0 == parent_slot(teams, upto - 1));
        assert(edges.last().1 == upto);
        assert(teams[upto - 1].parent_id == parent <==> parent_slot(teams, upto - 1) == slot);
    }
}

/// The search has discovered node `m`.
spec fn reached(seen: Seq<bool>, m: int) -> bool {
    seen[m]
}

/// What holds of the stack of a search between two visits. `pending` says, for
/// each node on the stack, which team it is: none of them is discovered or
/// there twice, and the parent of each is discovered.
spec fn stack_inv(
    teams: Seq<TeamTreeNode>,
    stack: Seq<int>,
    seen: Seq<bool>,
    pending: Seq<Visit>,
) -> bool {
    let n = teams.len();
    &&& seen.len() == n + 1
    &&& seen[0]
    &&& stack.len() == pending.len()
    &&& forall|i: int|
        0 <= i < pending.len() ==> {
            let t = (#[trigger] pending[i]).team;
            &&& 0 <= t < n
            &&& stack[i] == t + 1
            &&& !seen[t + 1]
            &&& seen[parent_slot(teams, t)]
        }
    &&& forall|i: int, j: int|
        0 <= i < j < pending.len() ==> (#[trigger] pending[i]).team != (#[trigger] pending[j]).team
}

/// The parent of every discovered team is discovered.
spec fn reach_inv(teams: Seq<TeamTreeNode>, seen: Seq<bool>) -> bool {
    forall|m: int|
        1 <= m <= teams.len() && #[trigger] reached(seen, m) ==> seen[parent_slot(teams, m - 1)]
}

/// The visits so far are of distinct teams, each of them discovered.
spec fn done_inv(teams: Seq<TeamTreeNode>, seen: Seq<bool>, done: Seq<Visit>) -> bool {
    &&& done.len() <= teams.len()
    &&& forall|k: int|
        0 <= k < done.len() ==> 0 <= (#[trigger] done[k]).team < teams.len() && seen[done[k].team
            + 1]
    &&& forall|a: int, b: int|
        0 <= a < b < done.len() ==> (#[trigger] done[a]).team != (#[trigger] done[b]).team
}

/// What holds of a search between two visits: the three invariants above, and
/// the visits so far, followed by what the walk from `pending` still yields,
/// are the outline.
spec fn search_inv(
    teams: Seq<TeamTreeNode>,
    stack: Seq<int>,
    seen: Seq<bool>,
    pending: Seq<Visit>,
    done: Seq<Visit>,
) -> bool {
    &&& stack_inv(teams, stack, seen, pending)
    &&& reach_inv(teams, seen)
    &&& done_inv(teams, seen, done)
    &&& done + traverse(teams, pending, (teams.len() - done.len()) as nat) == outline_visits(teams)
}

/// What holds of the path from the root to the team visited last. `path` lists
/// the teams on it, from the one under the root down. No team is on it twice,
/// the stack holds deeper teams above shallower ones, and the parent of each
/// team on the stack is on the path, one level above that team's depth.
spec fn path_inv(
    teams: Seq<TeamTreeNode>,
    seen: Seq<bool>,
    pending: Seq<Visit>,
    path: Seq<int>,
) -> bool {
    &&& forall|a: int|
        0 <= a < path.len() ==> 0 <= #[trigger] path[a] < teams.len() && seen[path[a] + 1]
    &&& forall|a: int, b: int| 0 <= a < b < path.len() ==> #[trigger] path[a] != #[trigger] path[b]
    &&& forall|i: int, j: int|
        0 <= i <= j < pending.len() ==> (#[trigger] pending[i]).depth <= (
        #[trigger] pending[j]).depth
    &&& forall|i: int|
        0 <= i < pending.len() ==> {
            let e = #[trigger] pending[i];
            &&& e.depth <= path.len()
            &&& e.depth == 0 ==> teams[e.team].parent_id is None
            &&& e.depth > 0 ==> teams[e.team].parent_id == Some(teams[path[e.depth - 1]].id)
        }
}

/// The stack of ancestors holds the identifiers of the teams on the path but
/// the last, and `current` is the node of the last, or the root before any visit.
spec fn tracks(
    teams: Seq<TeamTreeNode>,
    path: Seq<int>,
    ancestors: Seq<u64>,
    current: int,
) -> bool {
    if path.len() == 0 {
        ancestors.len() == 0 && current == 0
    } else {
        &&& ancestors.len() == path.len() - 1
        &&& forall|a: int| 0 <= a < ancestors.len() ==> #[trigger] ancestors[a] == teams[path[a]].id
        &&& current == path.last() + 1
    }
}

/// Each line is the text of the visit at its place.
spec fn lines_match(lines: Seq<String>, done: Seq<Visit>, teams: Seq<TeamTreeNode>) -> bool {
    &&& lines.len() == done.len()
    &&& forall|k: int|
        0 <= k < lines.len() ==> (#[trigger] lines[k])@ == line_text(
            done[k].depth,
            teams[done[k].team].name@,
        )
}

/// The state of a search right after it has yielded the root.
proof fn lemma_start(teams: Seq<TeamTreeNode>, stack: Seq<int>, seen: Seq<bool>)
    requires
        valid_ids(teams),
        all_resolved(teams),
        seen == Seq::new(teams.len() + 1, |i: int| false).update(0, true),
        stack == fresh_successors(hierarchy_edges(teams), 0, seen),
    ensures
        search_inv(
            teams,
            stack,
            seen,
            children_rev(teams, None, 0, teams.len() as int),
            Seq::empty(),
        ),
        path_inv(teams, seen, children_rev(teams, None, 0, teams.len() as int), Seq::empty()),
{
    let n = teams.len() as int;
    let pending = children_rev(teams, None, 0, n);
    assert forall|i: int| 0 <= i < n implies ((#[trigger] teams[i]).parent_id == None::<u64>
        <==> parent_slot(teams, i) == 0) by {
        lemma_parent_slot(teams, i);
    }
    assert(hierarchy_edges(teams).take(n) =~= hierarchy_edges(teams));
    lemma_successors(teams, None, 0, 0, seen, n);
    lemma_children(teams, None, 0, n);
    assert(Seq::<Visit>::empty() + traverse(teams, pending, n as nat) =~= outline_visits(teams));
    assert forall|i: int| 0 <= i < pending.len() implies {
        let t = (#[trigger] pending[i]).team;
        &&& 0 <= t < n
        &&& stack[i] == t + 1
        &&& !seen[t + 1]
        &&& seen[parent_slot(teams, t)]
    } by {
        lemma_parent_slot(teams, pending[i].team);
    }
}

/// Yielding the team on top of the stack keeps `stack_inv`: the children of
/// the team take its place on the stack.
proof fn lemma_visit_stack(
    teams: Seq<TeamTreeNode>,
    stack: Seq<int>,
    seen: Seq<bool>,
    pending: Seq<Visit>,
    next_stack: Seq<int>,
    next_seen: Seq<bool>,
)
    requires
        valid_ids(teams),
        all_resolved(teams),
        stack_inv(teams, stack, seen, pending),
        reach_inv(teams, seen),
        pending.len() > 0,
        next_seen == seen.update(pending.last().team + 1, true),
        next_stack == stack.drop_last() + fresh_successors(
            hierarchy_edges(teams),
            pending.last().team + 1,
            next_seen,
        ),
    ensures
        stack_inv(
            teams,
            next_stack,
            next_seen,
            pending.drop_last() + children_rev(
                teams,
                Some(teams[pending.last().team].id),
                pending.last().depth + 1,
                teams.len() as int,
            ),
        ),
{
    let n = teams.len() as int;
    let top = pending.last();
    let v = top.team;
    let parent = Some(teams[v].id);
    let kids = children_rev(teams, parent, top.depth + 1, n);
    let next_pending = pending.drop_last() + kids;
    let base = pending.len() - 1;
    assert(pending[base] == top);
    assert forall|i: int| 0 <= i < n implies ((#[trigger] teams[i]).parent_id == parent
        <==> parent_slot(teams, i) == v + 1) by {
        lemma_child_of(teams, i, v);
    }
    assert forall|i: int| 0 <= i < n && (#[trigger] teams[i]).parent_id == parent
        implies !is_discovered(next_seen, i + 1) by {
        lemma_child_of(teams, i, v);
        if seen[i + 1] {
            assert(reached(seen, i + 1));
        }
    }
    assert(hierarchy_edges(teams).take(n) =~= hierarchy_edges(teams));
    lemma_successors(teams, parent, v + 1, top.depth + 1, next_seen, n);
    lemma_children(teams, parent, top.depth + 1, n);
    let fresh = fresh_successors(hierarchy_edges(teams), v + 1, next_seen);
    assert forall|i: int| 0 <= i < next_pending.len() implies {
        let t = (#[trigger] next_pending[i]).team;
        &&& 0 <= t < n
        &&& next_stack[i] == t + 1
        &&& !next_seen[t + 1]
        &&& next_seen[parent_slot(teams, t)]
    } by {
        lemma_parent_slot(teams, next_pending[i].team);
        if i < base {
            assert(next_pending[i] == pending[i]);
            assert(pending[i].team != pending[base].team);
            assert(next_stack[i] == stack[i]);
        } else {
            assert(next_pending[i] == kids[i - base]);
            assert(next_stack[i] == fresh[i - base]);
            assert(fresh[i - base] == kids[i - base].team + 1);
            lemma_child_of(teams, kids[i - base].team, v);
            if seen[kids[i - base].team + 1] {
                assert(reached(seen, kids[i - base].team + 1));
            }
        }
    }
    assert forall|i: int, j: int| 0 <= i < j < next_pending.len() implies (
    #[trigger] next_pending[i]).team != (#[trigger] next_pending[j]).team by {
        if j < base {
            assert(pending[i].team != pending[j].team);
        } else if i < base {
            assert(next_pending[i] == pending[i]);
            assert(next_pending[j] == kids[j - base]);
            lemma_child_of(teams, kids[j - base].team, v);
            assert(seen[parent_slot(teams, pending[i].team)]);
        } else {
            assert(kids[i - base].team > kids[j - base].team);
        }
    }
}

/// Discovering a team whose parent is discovered keeps `reach_inv`.
proof fn lemma_visit_reach(teams: Seq<TeamTreeNode>, seen: Seq<bool>, next_seen: Seq<bool>, v: int)
    requires
        valid_ids(teams),
        all_resolved(teams),
        reach_inv(teams, seen),
        seen.len() == teams.len() + 1,
        0 <= v < teams.len(),
        seen[parent_slot(teams, v)],
        next_seen == seen.update(v + 1, true),
    ensures
        reach_inv(teams, next_seen),
{
    assert forall|m: int| 1 <= m <= teams.len() && #[trigger] reached(next_seen, m)
        implies next_seen[parent_slot(teams, m - 1)] by {
        lemma_parent_slot(teams, m - 1);
        if m != v + 1 {
            assert(reached(seen, m));
        }
    }
}

/// Visiting a team that was not discovered keeps `done_inv`, and there was
/// room for the visit.
proof fn lemma_visit_done(
    teams: Seq<TeamTreeNode>,
    seen: Seq<bool>,
    next_seen: Seq<bool>,
    done: Seq<Visit>,
    top: Visit,
)
    requires
        done_inv(teams, seen, done),
        seen.len() == teams.len() + 1,
        0 <= top.team < teams.len(),
        !seen[top.team + 1],
        next_seen == seen.update(top.team + 1, true),
    ensures
        done.len() < teams.len(),
        done_inv(teams, next_seen, done.push(top)),
{
    let n = teams.len() as int;
    let next_done = done.push(top);
    let visited = Seq::new(next_done.len(), |k: int| next_done[k].team);
    assert forall|a: int, b: int| 0 <= a < b < visited.len() implies #[trigger] visited[a]
        != #[trigger] visited[b] by {
        if b == done.len() {
            assert(seen[done[a].team + 1]);
        } else {
            assert(done[a].team != done[b].team);
        }
    }
    assert forall|k: int| 0 <= k < visited.len() implies 0 <= #[trigger] visited[k] < n by {
        if k < done.len() {
            assert(0 <= done[k].team < n);
        }
    }
    lemma_pigeonhole(visited, n);
    assert forall|k: int| 0 <= k < next_done.len() implies 0 <= (#[trigger] next_done[k]).team < n
        && next_seen[next_done[k].team + 1] by {
        if k < done.len() {
            assert(seen[done[k].team + 1]);
        }
    }
    assert forall|a: int, b: int| 0 <= a < b < next_done.len() implies (
    #[trigger] next_done[a]).team != (#[trigger] next_done[b]).team by {
        assert(visited[a] != visited[b]);
    }
}

/// A search that yields the team on top of its stack keeps `search_inv`.
proof fn lemma_visit(
    teams: Seq<TeamTreeNode>,
    stack: Seq<int>,
    seen: Seq<bool>,
    pending: Seq<Visit>,
    done: Seq<Visit>,
    next_stack: Seq<int>,
    next_seen: Seq<bool>,
)
    requires
        valid_ids(teams),
        all_resolved(teams),
        search_inv(teams, stack, seen, pending, done),
        pending.len() > 0,
        next_seen == seen.update(pending.last().team + 1, true),
        next_stack == stack.drop_last() + fresh_successors(
            hierarchy_edges(teams),
            pending.last().team + 1,
            next_seen,
        ),
    ensures
        done.len() < teams.len(),
        search_inv(
            teams,
            next_stack,
            next_seen,
            pending.drop_last() + children_rev(
                teams,
                Some(teams[pending.last().team].id),
                pending.last().depth + 1,
                teams.len() as int,
            ),
            done.push(pending.last()),
        ),
{
    let n = teams.len() as int;
    let top = pending.last();
    let next_pending = pending.drop_last() + children_rev(
        teams,
        Some(teams[top.team].id),
        top.depth + 1,
        n,
    );
    let next_done = done.push(top);
    lemma_visit_stack(teams, stack, seen, pending, next_stack, next_seen);
    lemma_visit_reach(teams, seen, next_seen, top.team);
    lemma_visit_done(teams, seen, next_seen, done, top);
    assert(next_done + traverse(teams, next_pending, (n - next_done.len()) as nat) =~= done
        + traverse(teams, pending, (n - done.len()) as nat));
}

/// Visiting the team on top of the stack keeps `path_inv`: the path is cut back
/// to the depth of that team, which then becomes its last member.
proof fn lemma_descend(
    teams: Seq<TeamTreeNode>,
    seen: Seq<bool>,
    next_seen: Seq<bool>,
    pending: Seq<Visit>,
    path: Seq<int>,
)
    requires
        path_inv(teams, seen, pending, path),
        pending.len() > 0,
        seen.len() == teams.len() + 1,
        0 <= pending.last().team < teams.len(),
        !seen[pending.last().team + 1],
        next_seen == seen.update(pending.last().team + 1, true),
    ensures
        path_inv(
            teams,
            next_seen,
            pending.drop_last() + children_rev(
                teams,
                Some(teams[pending.last().team].id),
                pending.last().depth + 1,
                teams.len() as int,
            ),
            path.take(pending.last().depth as int).push(pending.last().team),
        ),
{
    let n = teams.len() as int;
    let top = pending.last();
    let d = top.depth as int;
    let kids = children_rev(teams, Some(teams[top.team].id), top.depth + 1, n);
    let next_pending = pending.drop_last() + kids;
    let next_path = path.take(d).push(top.team);
    let base = pending.len() - 1;
    lemma_children(teams, Some(teams[top.team].id), top.depth + 1, n);
    assert(pending[base] == top);
    assert forall|a: int| 0 <= a < next_path.len() implies 0 <= #[trigger] next_path[a] < n
        && next_seen[next_path[a] + 1] by {
        if a < d {
            assert(next_path[a] == path[a]);
        }
    }
    assert forall|a: int, b: int| 0 <= a < b < next_path.len() implies #[trigger] next_path[a]
        != #[trigger] next_path[b] by {
        assert(next_path[a] == path[a]);
        if b < d {
            assert(next_path[b] == path[b]);
        } else {
            assert(seen[path[a] + 1]);
        }
    }
    assert forall|i: int, j: int| 0 <= i <= j < next_pending.len() implies (
    #[trigger] next_pending[i]).depth <= (#[trigger] next_pending[j]).depth by {
        if j < base {
            assert(pending[i].depth <= pending[j].depth);
        } else if i < base {
            assert(next_pending[i] == pending[i]);
            assert(pending[i].depth <= pending[base].depth);
            assert(next_pending[j] == kids[j - base]);
        } else {
            assert(next_pending[i] == kids[i - base]);
            assert(next_pending[j] == kids[j - base]);
        }
    }
    assert forall|i: int| 0 <= i < next_pending.len() implies {
        let e = #[trigger] next_pending[i];
        &&& e.depth <= next_path.len()
        &&& e.depth == 0 ==> teams[e.team].parent_id is None
        &&& e.depth > 0 ==> teams[e.team].parent_id == Some(teams[next_path[e.depth - 1]].id)
    } by {
        if i < base {
            assert(next_pending[i] == pending[i]);
            assert(pending[i].depth <= pending[base].depth);
            if pending[i].depth > 0 {
                assert(next_path[pending[i].depth - 1] == path[pending[i].depth - 1]);
            }
        } else {
            assert(next_pending[i] == kids[i - base]);
            assert(next_path[d] == top.team);
        }
    }
}

/// Renders the hierarchy as an outline, one line for each team that the
/// depth-first search from the root reaches, children in input order. The root
/// itself has no line. The indent of a line is read off a stack that holds the
/// identifiers of the ancestors of the team visited last.
pub fn print_nested_tree(forest: &Forest) -> (lines: Vec<String>)
    requires
        forest.wf(),
    ensures
        is_outline_of(lines@, forest@),
        lines@.len() <= forest@.len(),
{
    let graph = forest.graph();
    let root = forest.root();
    let ghost teams = forest@;
    let ghost n = teams.len() as int;
    proof {
        forest.lemma_shape();
    }
    let mut lines: Vec<String> = Vec::new();
    let mut ancestors: Vec<u64> = Vec::new();
    let mut current: usize = root;
    let mut dfs = dfs_new(graph, root);
    let ghost unseen = dfs_discovered(dfs);
    // The search yields the root first; it stands for no team and has no line.
    let _ = dfs_next(&mut dfs, graph);
    let ghost mut pending = children_rev(teams, None, 0, n);
    let ghost mut done = Seq::<Visit>::empty();
    let ghost mut path = Seq::<int>::empty();
    proof {
        assert(undiscovered_top(seq![0int], unseen) == 1);
        assert(seq![0int].take(0) + fresh_successors(
            hierarchy_edges(teams),
            0,
            dfs_discovered(dfs),
        ) =~= fresh_successors(hierarchy_edges(teams), 0, dfs_discovered(dfs)));
        lemma_start(teams, dfs_stack(dfs), dfs_discovered(dfs));
    }
    loop
        invariant
            n == teams.len(),
            n < u32::MAX,
            valid_ids(teams),
            all_resolved(teams),
            graph_nodes(*graph).len() == n + 1,
            graph_nodes(*graph).skip(1) == teams,
            graph_edges(*graph) == hierarchy_edges(teams),
            search_inv(teams, dfs_stack(dfs), dfs_discovered(dfs), pending, done),
            path_inv(teams, dfs_discovered(dfs), pending, path),
            tracks(teams, path, ancestors@, current as int),
            lines_match(lines@, done, teams),
        ensures
            pending.len() == 0,
            search_inv(teams, dfs_stack(dfs), dfs_discovered(dfs), pending, done),
            lines_match(lines@, done, teams),
        decreases n - done.len(),
    {
        let ghost stack = dfs_stack(dfs);
        let ghost seen = dfs_discovered(dfs);
        proof {
            if pending.len() > 0 {
                assert(!is_discovered(seen, stack.last())) by {
                    assert(stack.last() == pending[pending.len() - 1].team + 1);
                }
                assert(undiscovered_top(stack, seen) == stack.len());
            } else {
                assert(undiscovered_top(stack, seen) == 0);
            }
            assert forall|i: int| 0 <= i < stack.len() implies 0 <= #[trigger] stack[i]
                < seen.len() by {
                assert(stack[i] == pending[i].team + 1);
            }
        }
        let yielded = dfs_next(&mut dfs, graph);
        let node = match yielded {
            Some(node) => node,
            None => {
                break ;
            },
        };
        let ghost top = pending.last();
        proof {
            assert(stack.take(stack.len() - 1) =~= stack.drop_last());
            lemma_visit(teams, stack, seen, pending, done, dfs_stack(dfs), dfs_discovered(dfs));
            lemma_descend(teams, seen, dfs_discovered(dfs), pending, path);
            assert(graph_nodes(*graph)[node as int] == graph_nodes(*graph).skip(1)[top.team]);
            if path.len() > 0 {
                let last = path.last();
                assert(graph_nodes(*graph)[current as int] == graph_nodes(*graph).skip(1)[last]);
            }
        }
        let team = graph_node(graph, node);
        let previous_id = graph_node(graph, current).id;
        match team.parent_id {
            None => {
                ancestors.clear();
            },
            Some(parent_id) => {
                if previous_id == parent_id {
                    proof {
                        lemma_same_team(teams, path.last(), path[top.depth - 1]);
                    }
                    ancestors.push(previous_id);
                } else {
                    while ancestors.len() > 0 && ancestors[ancestors.len() - 1] != parent_id
                        invariant
                            valid_ids(teams),
                            1 <= top.depth <= ancestors.len() < path.len(),
                            parent_id == teams[path[top.depth - 1]].id,
                            forall|a: int|
                                0 <= a < ancestors.len() ==> #[trigger] ancestors[a]
                                    == teams[path[a]].id,
                            forall|a: int|
                                0 <= a < path.len() ==> 0 <= #[trigger] path[a] < teams.len(),
                            forall|a: int, b: int|
                                0 <= a < b < path.len() ==> #[trigger] path[a]
                                    != #[trigger] path[b],
                        ensures
                            ancestors.len() == top.depth,
                            forall|a: int|
                                0 <= a < ancestors.len() ==> #[trigger] ancestors[a]
                                    == teams[path[a]].id,
                        decreases ancestors.len(),
                    {
                        proof {
                            lemma_same_team(teams, path[ancestors.len() - 1], path[top.depth - 1]);
                        }
                        ancestors.pop();
                    }
                    proof {
                        lemma_same_team(teams, path[ancestors.len() - 1], path[top.depth - 1]);
                    }
                }
            },
        }
        let line = format_line(ancestors.len(), team.name.as_str());
        lines.push(line);
        current = node;
        proof {
            done = done.push(top);
            pending = pending.drop_last() + children_rev(
                teams,
                Some(teams[top.team].id),
                top.depth + 1,
                n,
            );
            path = path.take(top.depth as int).push(top.team);
        }
    }
    proof {
        assert(done =~= done + traverse(teams, pending, (n - done.len()) as nat));
    }
    lines
}

/// Builds the hierarchy over `records` and renders it: the lines of the
/// outline, or the failure of the build.
pub fn print_team_tree(records: &Vec<TeamTreeNode>) -> (result: Result<Vec<String>, BuildError>)
    requires
        records@.len() < u32::MAX,
        valid_ids(records@),
    ensures
        match result {
            Ok(lines) => all_resolved(records@) && is_outline_of(lines@, records@),
            Err(BuildError::UnresolvedParent(name)) => exists|i: int|
                first_orphan(records@, i) && name == records@[i].name,
        },
{
    match Forest::build(records) {
        Ok(forest) => Ok(print_nested_tree(&forest)),
        Err(error) => Err(error),
    }
}

} // verus!
