//! What the outline of a hierarchy is: the order in which its teams are
//! visited, the depth of each, and the text of each line.

use crate::team::TeamTreeNode;
use vstd::prelude::*;
use vstd::string::StringExecFns;

verus! {

/// The visit of one team: its place among the teams and its depth, which is 0
/// for a team directly under the root.
pub struct Visit {
    pub team: int,
    pub depth: nat,
}

/// The children of `parent` among the first `upto` teams, the latest first,
/// each as a visit at `depth`.
pub open spec fn children_rev(
    teams: Seq<TeamTreeNode>,
    parent: Option<u64>,
    depth: nat,
    upto: int,
) -> Seq<Visit>
    decreases upto,
{
    if upto <= 0 {
        Seq::empty()
    } else {
        let earlier = children_rev(teams, parent, depth, upto - 1);
        if teams[upto - 1].parent_id == parent {
            seq![Visit { team: upto - 1, depth }] + earlier
        } else {
            earlier
        }
    }
}

/// The depth-first walk from a stack of pending visits, the next one last: the
/// next visit, then its children in input order one level deeper, then the
/// rest. `fuel` bounds the number of visits.
pub open spec fn traverse(teams: Seq<TeamTreeNode>, pending: Seq<Visit>, fuel: nat) -> Seq<Visit>
    decreases fuel,
{
    if fuel == 0 || pending.len() == 0 {
        Seq::empty()
    } else {
        let next = pending.last();
        let below = children_rev(
            teams,
            Some(teams[next.team].id),
            next.depth + 1,
            teams.len() as int,
        );
        seq![next] + traverse(teams, pending.drop_last() + below, (fuel - 1) as nat)
    }
}

/// The visits of the outline of `teams`: depth first from the teams directly
/// under the root, children in input order.
pub open spec fn outline_visits(teams: Seq<TeamTreeNode>) -> Seq<Visit> {
    traverse(teams, children_rev(teams, None, 0, teams.len() as int), teams.len())
}

/// Two spaces for each level of depth.
pub open spec fn indent(depth: nat) -> Seq<char> {
    Seq::new(2 * depth, |i: int| ' ')
}

/// The text of one line of the outline: the indent, a dash, a space, the name.
pub open spec fn line_text(depth: nat, name: Seq<char>) -> Seq<char> {
    indent(depth) + seq!['-', ' '] + name
}

/// The outline of `teams`: one line for each visit.
pub open spec fn outline(teams: Seq<TeamTreeNode>) -> Seq<Seq<char>> {
    outline_visits(teams).map_values(|v: Visit| line_text(v.depth, teams[v.team].name@))
}

/// `lines` holds exactly the outline of `teams`.
pub open spec fn is_outline_of(lines: Seq<String>, teams: Seq<TeamTreeNode>) -> bool {
    &&& lines.len() == outline(teams).len()
    &&& forall|k: int| 0 <= k < lines.len() ==> (#[trigger] lines[k])@ == outline(teams)[k]
}

/// One line of the outline.
pub fn format_line(depth: usize, name: &str) -> (line: String)
    ensures
        line@ == line_text(depth as nat, name@),
{
    let mut line = String::new();
    let mut level: usize = 0;
    while level < depth
        invariant
            level <= depth,
            line@ == indent(level as nat),
        decreases depth - level,
    {
        line.append("  ");
        proof {
            reveal_strlit("  ");
            assert(line@ =~= indent((level + 1) as nat));
        }
        level += 1;
    }
    line.append("- ");
    line.append(name);
    proof {
        reveal_strlit("- ");
        assert(line@ =~= line_text(depth as nat, name@));
    }
    line
}

/// What `children_rev` holds: children of `parent` only, each once, at `depth`.
pub proof fn lemma_children(teams: Seq<TeamTreeNode>, parent: Option<u64>, depth: nat, upto: int)
    requires
        0 <= upto <= teams.len(),
    ensures
        children_rev(teams, parent, depth, upto).len() <= upto,
        forall|i: int|
            0 <= i < children_rev(teams, parent, depth, upto).len() ==> {
                let kid = #[trigger] children_rev(teams, parent, depth, upto)[i];
                &&& kid.depth == depth
                &&& 0 <= kid.team < upto
                &&& teams[kid.team].parent_id == parent
            },
        forall|i: int, j: int|
            0 <= i < j < children_rev(teams, parent, depth, upto).len() ==> (
            #[trigger] children_rev(teams, parent, depth, upto)[i]).team > (
            #[trigger] children_rev(teams, parent, depth, upto)[j]).team,
    decreases upto,
{
    if upto > 0 {
        lemma_children(teams, parent, depth, upto - 1);
    }
}

/// A sequence of distinct numbers below `n` has at most `n` members.
pub proof fn lemma_pigeonhole(s: Seq<int>, n: int)
    requires
        0 <= n,
        forall|k: int| 0 <= k < s.len() ==> 0 <= #[trigger] s[k] < n,
        forall|a: int, b: int| 0 <= a < b < s.len() ==> #[trigger] s[a] != #[trigger] s[b],
    ensures
        s.len() <= n,
{
    if s.len() > 0 {
        assert(s.no_duplicates());
        s.unique_seq_to_set();
        vstd::set_lib::lemma_int_range(0, n);
        assert(s.to_set().subset_of(vstd::set_lib::set_int_range(0, n))) by {
            assert forall|x: int| s.to_set().contains(x) implies vstd::set_lib::set_int_range(
                0,
                n,
            ).contains(x) by {
                let k = choose|k: int| 0 <= k < s.len() && s[k] == x;
                assert(0 <= s[k] < n);
            }
        }
        vstd::set_lib::lemma_len_subset(s.to_set(), vstd::set_lib::set_int_range(0, n));
    }
}

} // verus!
