//! Team records and the predicates that say when a set of records is usable.

use std::collections::HashSet;
use vstd::prelude::*;

verus! {

broadcast use vstd::std_specs::hash::group_hash_axioms;

/// Identifier reserved for the synthetic root; no fetched team carries it.
pub const ROOT_ID: u64 = 0;

/// One team of the directory, or the synthetic root that anchors the hierarchy.
#[derive(Debug, Clone, PartialEq, Eq)]
pub struct TeamTreeNode {
    pub id: u64,
    pub name: String,
    pub is_private: bool,
    /// `None` for a team that sits directly under the root.
    pub parent_id: Option<u64>,
}

/// The label of the synthetic root.
pub open spec fn root_label() -> Seq<char> {
    "Root (Not a team)"@
}

impl TeamTreeNode {
    /// Whether this node has the shape of the synthetic root.
    pub open spec fn is_root(self) -> bool {
        &&& self.id == ROOT_ID
        &&& self.name@ == root_label()
        &&& self.is_private
        &&& self.parent_id is None
    }

    /// The synthetic root: reserved identifier, fixed label, no parent.
    pub fn root() -> (node: TeamTreeNode)
        ensures
            node.is_root(),
    {
        TeamTreeNode {
            id: ROOT_ID,
            name: "Root (Not a team)".to_owned(),
            is_private: true,
            parent_id: None,
        }
    }

    /// A copy of this node, field for field.
    pub fn duplicate(&self) -> (copy: TeamTreeNode)
        ensures
            copy == *self,
    {
        TeamTreeNode {
            id: self.id,
            name: self.name.clone(),
            is_private: self.is_private,
            parent_id: self.parent_id,
        }
    }
}

/// Some team among `teams` carries `id`.
pub open spec fn has_id(teams: Seq<TeamTreeNode>, id: u64) -> bool {
    exists|j: int| 0 <= j < teams.len() && (#[trigger] teams[j]).id == id
}

/// The place among `teams` of the team that carries `id`.
pub open spec fn position(teams: Seq<TeamTreeNode>, id: u64) -> int {
    choose|j: int| 0 <= j < teams.len() && (#[trigger] teams[j]).id == id
}

/// No two teams share an identifier, and none uses the root's.
pub open spec fn valid_ids(teams: Seq<TeamTreeNode>) -> bool {
    &&& forall|i: int, j: int|
        0 <= i < j < teams.len() ==> (#[trigger] teams[i]).id != (#[trigger] teams[j]).id
    &&& forall|i: int| 0 <= i < teams.len() ==> (#[trigger] teams[i]).id != ROOT_ID
}

/// Two teams with the same identifier are one team.
pub proof fn lemma_same_team(teams: Seq<TeamTreeNode>, i: int, j: int)
    requires
        valid_ids(teams),
        0 <= i < teams.len(),
        0 <= j < teams.len(),
    ensures
        teams[i].id == teams[j].id ==> i == j,
{
    if i < j {
        assert(teams[i].id != teams[j].id);
    } else if j < i {
        assert(teams[j].id != teams[i].id);
    }
}

/// Team `i` names a parent that is not among `teams`.
pub open spec fn is_orphan(teams: Seq<TeamTreeNode>, i: int) -> bool {
    teams[i].parent_id matches Some(p) && !has_id(teams, p)
}

/// Every parent reference leads to a team of the set.
pub open spec fn all_resolved(teams: Seq<TeamTreeNode>) -> bool {
    forall|i: int| 0 <= i < teams.len() ==> !is_orphan(teams, i)
}

/// Whether the identifiers of `records` are distinct and none is the root's.
pub fn has_valid_ids(records: &Vec<TeamTreeNode>) -> (valid: bool)
    ensures
        valid == valid_ids(records@),
{
    let mut ids: HashSet<u64> = HashSet::new();
    let mut i: usize = 0;
    while i < records.len()
        invariant
            i <= records.len(),
            valid_ids(records@.take(i as int)),
            forall|id: u64| (#[trigger] ids@.contains(id)) <==> has_id(records@.take(i as int), id),
        decreases records.len() - i,
    {
        let id = records[i].id;
        let ghost before = records@.take(i as int);
        let ghost after = records@.take(i as int + 1);
        if id == ROOT_ID {
            assert(records@[i as int].id == ROOT_ID);
            return false;
        }
        let fresh = ids.insert(id);
        if !fresh {
            proof {
                let j = choose|j: int| 0 <= j < before.len() && (#[trigger] before[j]).id == id;
                assert(records@[j].id == records@[i as int].id);
            }
            return false;
        }
        proof {
            assert forall|a: int, b: int| 0 <= a < b < after.len() implies (#[trigger] after[a]).id
                != (#[trigger] after[b]).id by {
                if b == i {
                    if after[a].id == id {
                        assert(before[a].id == id);
                        assert(has_id(before, id));
                    }
                } else {
                    assert(before[a].id != before[b].id);
                }
            }
            assert forall|a: int| 0 <= a < after.len() implies (#[trigger] after[a]).id
                != ROOT_ID by {
                if a < i {
                    assert(before[a].id != ROOT_ID);
                }
            }
            assert forall|other: u64| (#[trigger] ids@.contains(other)) <==> has_id(
                after,
                other,
            ) by {
                if has_id(after, other) {
                    let j = choose|j: int|
                        0 <= j < after.len() && (#[trigger] after[j]).id == other;
                    if j < i {
                        assert(before[j].id == other);
                    }
                }
                if has_id(before, other) {
                    let j = choose|j: int|
                        0 <= j < before.len() && (#[trigger] before[j]).id == other;
                    assert(after[j].id == other);
                }
                if other == id {
                    assert(after[i as int].id == other);
                }
            }
        }
        i += 1;
    }
    assert(records@.take(i as int) =~= records@);
    true
}

} // verus!
