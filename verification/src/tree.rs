//! What a finished run must have built: the spanning-tree laws over the
//! final reports of all processes.
//!
//! A *report* is the algorithmic state a process holds when it
//! terminates.  `spanning_tree_ok` says the parent pointers of a family
//! of reports form a tree rooted at the leader, `mutual_agreement` says
//! parents and children agree edge by edge, and
//! `lemma_parent_chain_reaches_leader` proves that in a well-formed
//! family every parent chain climbs to the leader in exactly the
//! node's depth — so the pointers admit no cycle.  The checkers at the
//! bottom decide the two predicates, exactly.

use vstd::prelude::*;

use crate::node::{Node, NodeModel};

verus! {

/// The models of a family of reports.
pub open spec fn models(s: Seq<Node>) -> Seq<NodeModel> {
    s.map_values(|n: Node| n.model())
}

/// No two reports claim the same vertex id.
pub open spec fn ids_unique(ms: Seq<NodeModel>) -> bool {
    forall|i: int, j: int| 0 <= i < j < ms.len() ==> ms[i].id != ms[j].id
}

/// Some report claims id `id`.
pub open spec fn has_id(ms: Seq<NodeModel>, id: i32) -> bool {
    exists|i: int| 0 <= i < ms.len() && ms[i].id == id
}

/// The position of id `id`'s report.
pub open spec fn index_of(ms: Seq<NodeModel>, id: i32) -> int {
    choose|i: int| 0 <= i < ms.len() && ms[i].id == id
}

/// One report's parent pointer is proper: the leader has none; every
/// other node has exactly one, itself reported, and sits exactly one
/// layer below it — depth 1 when the parent is the leader, whose own
/// `layer` field counts phases, not depth.
pub open spec fn parent_ok(ms: Seq<NodeModel>, m: NodeModel, leader: i32) -> bool {
    if m.id == leader {
        m.parent is None
    } else {
        match m.parent {
            None => false,
            Some(p) => {
                &&& has_id(ms, p)
                &&& m.layer >= 1
                &&& if p == leader {
                    m.layer == 1
                } else {
                    m.layer == ms[index_of(ms, p)].layer + 1
                }
            },
        }
    }
}

/// The parent pointers of the family form a tree rooted at the leader:
/// ids are distinct, the leader is present and parentless, and every
/// other report hangs exactly one layer under its parent.  By
/// `lemma_parent_chain_reaches_leader` this excludes cycles and
/// stragglers hanging under no root.
pub open spec fn spanning_tree_ok(ms: Seq<NodeModel>, leader: i32) -> bool {
    &&& ids_unique(ms)
    &&& has_id(ms, leader)
    &&& forall|i: int| 0 <= i < ms.len() ==> parent_ok(ms, #[trigger] ms[i], leader)
}

/// The id reached from `id` by following `n` parent pointers, or
/// `None` where a pointer is missing or leaves the family.
pub open spec fn ancestor(ms: Seq<NodeModel>, id: i32, n: nat) -> Option<i32>
    decreases n,
{
    if n == 0 {
        Some(id)
    } else if has_id(ms, id) {
        match ms[index_of(ms, id)].parent {
            Some(p) => ancestor(ms, p, (n - 1) as nat),
            None => None,
        }
    } else {
        None
    }
}

/// The tree law in chain form: in a well-formed family, every
/// non-leader report's parent chain reaches the leader in exactly
/// `layer` steps.  In particular following parents never loops, and
/// every vertex hangs under the leader.
pub proof fn lemma_parent_chain_reaches_leader(ms: Seq<NodeModel>, leader: i32, i: int)
    requires
        spanning_tree_ok(ms, leader),
        0 <= i < ms.len(),
        ms[i].id != leader,
    ensures
        ms[i].layer >= 1,
        ancestor(ms, ms[i].id, ms[i].layer as nat) == Some(leader),
    decreases ms[i].layer,
{
    let m = ms[i];
    assert(parent_ok(ms, m, leader));
    assert(has_id(ms, m.id));
    let w = index_of(ms, m.id);
    assert(0 <= w < ms.len() && ms[w].id == m.id);
    assert(w == i);
    match m.parent {
        Some(p) => {
            if p == leader {
                assert(ancestor(ms, p, (m.layer - 1) as nat) == Some(leader));
            } else {
                let j = index_of(ms, p);
                assert(0 <= j < ms.len() && ms[j].id == p);
                lemma_parent_chain_reaches_leader(ms, leader, j);
                assert((m.layer - 1) as nat == ms[j].layer as nat);
            }
        },
        None => {
            assert(false);
        },
    }
}

/// A report's parent, if any, lists it as a child.
pub open spec fn child_listed(ms: Seq<NodeModel>, m: NodeModel) -> bool {
    match m.parent {
        Some(p) => has_id(ms, p) && ms[index_of(ms, p)].children.contains(m.id),
        None => true,
    }
}

/// Every child a report lists claims it back as parent.
pub open spec fn children_claimed(ms: Seq<NodeModel>, m: NodeModel) -> bool {
    forall|c: int|
        0 <= c < m.children.len() ==> {
            let cid = #[trigger] m.children[c];
            has_id(ms, cid) && ms[index_of(ms, cid)].parent == Some(m.id)
        }
}

/// Mutual agreement on tree edges: for every edge recorded on either
/// side — a parent pointer or a children entry — the other side
/// records it too.
pub open spec fn mutual_agreement(ms: Seq<NodeModel>) -> bool {
    &&& ids_unique(ms)
    &&& forall|i: int|
        0 <= i < ms.len() ==> (child_listed(ms, #[trigger] ms[i]) && children_claimed(ms, ms[i]))
}

/// The position of the report claiming id `id`, if one does.
fn find_by_id(nodes: &Vec<Node>, id: i32) -> (r: Option<usize>)
    ensures
        match r {
            Some(j) => j < nodes@.len() && models(nodes@)[j as int].id == id,
            None => !has_id(models(nodes@), id),
        },
{
    let mut j: usize = 0;
    while j < nodes.len()
        invariant
            j <= nodes@.len(),
            forall|m: int| 0 <= m < j ==> models(nodes@)[m].id != id,
        decreases nodes@.len() - j,
    {
        if nodes[j].id == id {
            proof {
                assert(models(nodes@)[j as int].id == id);
            }
            return Some(j);
        }
        proof {
            assert(models(nodes@)[j as int].id == nodes@[j as int].id);
        }
        j = j + 1;
    }
    None
}

/// True exactly when no two reports claim the same id.
pub fn check_ids_unique(nodes: &Vec<Node>) -> (r: bool)
    ensures
        r == ids_unique(models(nodes@)),
{
    let ghost ms = models(nodes@);
    let n = nodes.len();
    let mut i: usize = 0;
    while i < n
        invariant
            i <= n,
            n == nodes@.len(),
            ms == models(nodes@),
            forall|a: int, b: int| 0 <= a < b < ms.len() && a < i ==> ms[a].id != ms[b].id,
        decreases n - i,
    {
        let mut j: usize = i + 1;
        while j < n
            invariant
                i < j <= n,
                n == nodes@.len(),
                ms == models(nodes@),
                forall|b: int| i < b < j ==> ms[i as int].id != ms[b].id,
            decreases n - j,
        {
            if nodes[i].id == nodes[j].id {
                proof {
                    assert(ms[i as int].id == ms[j as int].id);
                }
                return false;
            }
            proof {
                assert(ms[j as int].id == nodes@[j as int].id);
                assert(ms[i as int].id == nodes@[i as int].id);
            }
            j = j + 1;
        }
        i = i + 1;
    }
    true
}

/// Decide `spanning_tree_ok` for a family of final reports.
pub fn check_spanning_tree(nodes: &Vec<Node>, leader: i32) -> (r: bool)
    ensures
        r == spanning_tree_ok(models(nodes@), leader),
{
    let ghost ms = models(nodes@);
    if !check_ids_unique(nodes) {
        return false;
    }
    if find_by_id(nodes, leader).is_none() {
        return false;
    }
    proof {
        assert(has_id(ms, leader));
    }
    let n = nodes.len();
    let mut i: usize = 0;
    while i < n
        invariant
            i <= n,
            n == nodes@.len(),
            ms == models(nodes@),
            ids_unique(ms),
            has_id(ms, leader),
            forall|m: int| 0 <= m < i ==> parent_ok(ms, #[trigger] ms[m], leader),
        decreases n - i,
    {
        proof {
            assert(ms[i as int].id == nodes@[i as int].id);
            assert(ms[i as int].parent == nodes@[i as int].parent);
            assert(ms[i as int].layer == nodes@[i as int].layer);
        }
        if nodes[i].id == leader {
            if nodes[i].parent.is_some() {
                proof {
                    assert(!parent_ok(ms, ms[i as int], leader));
                }
                return false;
            }
        } else {
            let p = match nodes[i].parent {
                None => {
                    proof {
                        assert(!parent_ok(ms, ms[i as int], leader));
                    }
                    return false;
                },
                Some(p) => p,
            };
            let j = match find_by_id(nodes, p) {
                None => {
                    proof {
                        assert(!parent_ok(ms, ms[i as int], leader));
                    }
                    return false;
                },
                Some(j) => j,
            };
            proof {
                let w = index_of(ms, p);
                assert(0 <= w < ms.len() && ms[w].id == p);
                assert(w == j);
                assert(ms[j as int].layer == nodes@[j as int].layer);
            }
            let depth_ok = if nodes[i].layer < 1 {
                false
            } else if p == leader {
                nodes[i].layer == 1
            } else {
                nodes[i].layer - 1 == nodes[j].layer
            };
            if !depth_ok {
                proof {
                    assert(!parent_ok(ms, ms[i as int], leader));
                }
                return false;
            }
            proof {
                assert(parent_ok(ms, ms[i as int], leader));
            }
        }
        i = i + 1;
    }
    true
}

/// Decide `mutual_agreement` for a family of final reports.
pub fn check_mutual_agreement(nodes: &Vec<Node>) -> (r: bool)
    ensures
        r == mutual_agreement(models(nodes@)),
{
    let ghost ms = models(nodes@);
    if !check_ids_unique(nodes) {
        return false;
    }
    let n = nodes.len();
    let mut i: usize = 0;
    while i < n
        invariant
            i <= n,
            n == nodes@.len(),
            ms == models(nodes@),
            ids_unique(ms),
            forall|m: int|
                0 <= m < i ==> (child_listed(ms, #[trigger] ms[m]) && children_claimed(
                    ms,
                    ms[m],
                )),
        decreases n - i,
    {
        proof {
            assert(ms[i as int].id == nodes@[i as int].id);
            assert(ms[i as int].parent == nodes@[i as int].parent);
            assert(ms[i as int].children == nodes@[i as int].children@);
        }
        if let Some(p) = nodes[i].parent {
            let j = match find_by_id(nodes, p) {
                None => {
                    proof {
                        assert(!child_listed(ms, ms[i as int]));
                    }
                    return false;
                },
                Some(j) => j,
            };
            proof {
                let w = index_of(ms, p);
                assert(0 <= w < ms.len() && ms[w].id == p);
                assert(w == j);
                assert(ms[j as int].children == nodes@[j as int].children@);
            }
            if !crate::node::vec_contains(&nodes[j].children, nodes[i].id) {
                proof {
                    assert(!child_listed(ms, ms[i as int]));
                }
                return false;
            }
        }
        let mut c: usize = 0;
        while c < nodes[i].children.len()
            invariant
                i < n,
                c <= nodes@[i as int].children@.len(),
                n == nodes@.len(),
                ms == models(nodes@),
                ids_unique(ms),
                ms[i as int].children == nodes@[i as int].children@,
                ms[i as int].id == nodes@[i as int].id,
                forall|m: int|
                    0 <= m < c ==> {
                        let cid = #[trigger] ms[i as int].children[m];
                        has_id(ms, cid) && ms[index_of(ms, cid)].parent == Some(
                            ms[i as int].id,
                        )
                    },
            decreases nodes@[i as int].children@.len() - c,
        {
            let cid = nodes[i].children[c];
            let j = match find_by_id(nodes, cid) {
                None => {
                    proof {
                        assert(ms[i as int].children[c as int] == cid);
                        assert(!children_claimed(ms, ms[i as int]));
                    }
                    return false;
                },
                Some(j) => j,
            };
            proof {
                let w = index_of(ms, cid);
                assert(0 <= w < ms.len() && ms[w].id == cid);
                assert(w == j);
                assert(ms[j as int].parent == nodes@[j as int].parent);
            }
            let claimed = match nodes[j].parent {
                Some(q) => q == nodes[i].id,
                None => false,
            };
            if !claimed {
                proof {
                    assert(ms[i as int].children[c as int] == cid);
                    assert(ms[index_of(ms, cid)].parent != Some(ms[i as int].id));
                    assert(!children_claimed(ms, ms[i as int]));
                }
                return false;
            }
            c = c + 1;
        }
        i = i + 1;
    }
    true
}

} // verus!
