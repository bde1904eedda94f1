//! Per-process node state and its primitive send operations.
//!
//! A `Node` holds exactly the algorithmic variables of one process: its
//! identity, its adjacency, the tree variables (`free`, `parent`,
//! `children`, `layer`), the per-phase tallies, and an outbox.  The
//! state machines mutate the node and append the messages to transmit
//! to the outbox; the unverified shell around the library drains the
//! outbox onto the sockets, so that for a given link all sends are
//! ordered by the single handler.
//!
//! The tallies and the child set are kept as vectors with unique
//! keys/elements; their mathematical reading is given by the spec
//! functions below.

use vstd::prelude::*;

use crate::message::Message;

verus! {

/// The per-vertex record produced by the configuration parser: where
/// the vertex listens and which weighted edges touch it.
#[derive(Debug, PartialEq, Eq)]
pub struct NodeData {
    pub ip: String,
    pub port: i32,
    /// `(neighbor id, weight)` pairs, sorted by weight.
    pub edges: Vec<(i32, i32)>,
    /// Neighbor ids in the order their edges appear in the configuration.
    pub neighbors: Vec<i32>,
}

/// `s` holds no element twice.
pub open spec fn no_dups(s: Seq<i32>) -> bool {
    forall|i: int, j: int| 0 <= i < j < s.len() ==> s[i] != s[j]
}

/// Every key of the tally `s` occurs once.
pub open spec fn tally_unique(s: Seq<(i32, bool)>) -> bool {
    forall|i: int, j: int| 0 <= i < j < s.len() ==> s[i].0 != s[j].0
}

/// The tally `s` has an entry for `k`.
pub open spec fn tally_has(s: Seq<(i32, bool)>, k: i32) -> bool {
    exists|i: int| 0 <= i < s.len() && s[i].0 == k
}

/// The tally `s` with `k` bound to `v`: the existing entry for `k` is
/// overwritten in place, or a new entry is appended.
pub open spec fn tally_put(s: Seq<(i32, bool)>, k: i32, v: bool) -> Seq<(i32, bool)> {
    if tally_has(s, k) {
        s.update(choose|i: int| 0 <= i < s.len() && s[i].0 == k, (k, v))
    } else {
        s.push((k, v))
    }
}

/// Some entry of the tally records `true`.
pub open spec fn tally_any(s: Seq<(i32, bool)>) -> bool {
    exists|i: int| 0 <= i < s.len() && s[i].1
}

/// The element sequence `s` seen as a set, with `x` added: appended if
/// absent, untouched otherwise.
pub open spec fn seq_insert(s: Seq<i32>, x: i32) -> Seq<i32> {
    if s.contains(x) {
        s
    } else {
        s.push(x)
    }
}

/// The element sequence `s` with `x` removed (it occurs at most once).
pub open spec fn seq_remove(s: Seq<i32>, x: i32) -> Seq<i32> {
    if s.contains(x) {
        s.remove(choose|i: int| 0 <= i < s.len() && s[i] == x)
    } else {
        s
    }
}

/// The mathematical image of a node: the algorithmic variables, free of
/// the outbox.  The state machines are specified as functions over this
/// model.
#[verifier::ext_equal]
pub struct NodeModel {
    pub id: i32,
    pub leader: i32,
    pub free: bool,
    pub parent: Option<i32>,
    pub children: Seq<i32>,
    pub neighbors: Seq<i32>,
    pub layer: i32,
    pub starting_node: bool,
    pub phase_complete: Seq<(i32, bool)>,
    pub acks: Seq<(i32, bool)>,
}

impl NodeModel {
    /// The node invariant, held at every quiescent point between
    /// messages:
    /// - a node is free exactly when it has no parent and is not the
    ///   leader;
    /// - the parent, the children and the tally keys all lie in the
    ///   adjacency;
    /// - the child set and the tally keys are duplicate-free.
    pub open spec fn inv(self) -> bool {
        &&& self.free <==> (self.parent is None && self.id != self.leader)
        &&& match self.parent {
            Some(p) => self.neighbors.contains(p),
            None => true,
        }
        &&& forall|i: int|
            0 <= i < self.children.len() ==> self.neighbors.contains(#[trigger] self.children[i])
        &&& no_dups(self.children)
        &&& tally_unique(self.acks)
        &&& forall|i: int|
            0 <= i < self.acks.len() ==> self.neighbors.contains(#[trigger] self.acks[i].0)
        &&& tally_unique(self.phase_complete)
        &&& forall|i: int|
            0 <= i < self.phase_complete.len() ==> self.neighbors.contains(
                #[trigger] self.phase_complete[i].0,
            )
    }
}

/// The messages a broadcast queues: one copy of `msg` per neighbor, in
/// adjacency order, skipping the parent.
pub open spec fn bcast_targets(neighbors: Seq<i32>, parent: Option<i32>, msg: Message) -> Seq<
    (i32, Message),
>
    decreases neighbors.len(),
{
    if neighbors.len() == 0 {
        Seq::empty()
    } else {
        let rest = bcast_targets(neighbors.drop_last(), parent, msg);
        if parent == Some(neighbors.last()) {
            rest
        } else {
            rest.push((neighbors.last(), msg))
        }
    }
}

/// The messages a tree broadcast queues: one copy of `msg` per child,
/// in child order.
pub open spec fn tree_targets(children: Seq<i32>, msg: Message) -> Seq<(i32, Message)>
    decreases children.len(),
{
    if children.len() == 0 {
        Seq::empty()
    } else {
        tree_targets(children.drop_last(), msg).push((children.last(), msg))
    }
}

/// Every queued broadcast entry carries exactly `msg`, and its target
/// is a non-parent neighbor.
pub proof fn lemma_bcast_targets_shape(neighbors: Seq<i32>, parent: Option<i32>, msg: Message)
    ensures
        forall|i: int|
            0 <= i < bcast_targets(neighbors, parent, msg).len() ==> {
                let e = #[trigger] bcast_targets(neighbors, parent, msg)[i];
                &&& e.1 == msg
                &&& neighbors.contains(e.0)
                &&& parent != Some(e.0)
            },
    decreases neighbors.len(),
{
    if neighbors.len() > 0 {
        lemma_bcast_targets_shape(neighbors.drop_last(), parent, msg);
        assert forall|i: int|
            0 <= i < neighbors.drop_last().len() implies neighbors.contains(
            #[trigger] neighbors.drop_last()[i],
        ) by {
            assert(neighbors.drop_last()[i] == neighbors[i]);
        }
        assert(neighbors.contains(neighbors.last()));
    }
}

/// Every queued tree-broadcast entry carries exactly `msg`, and its
/// target is a child.
pub proof fn lemma_tree_targets_shape(children: Seq<i32>, msg: Message)
    ensures
        tree_targets(children, msg).len() == children.len(),
        forall|i: int|
            0 <= i < tree_targets(children, msg).len() ==> {
                let e = #[trigger] tree_targets(children, msg)[i];
                &&& e.1 == msg
                &&& children.contains(e.0)
            },
    decreases children.len(),
{
    if children.len() > 0 {
        lemma_tree_targets_shape(children.drop_last(), msg);
        assert forall|i: int|
            0 <= i < children.drop_last().len() implies children.contains(
            #[trigger] children.drop_last()[i],
        ) by {
            assert(children.drop_last()[i] == children[i]);
        }
        assert(children.contains(children.last()));
    }
}

/// The state of one process.  `leader` is carried as ghost information
/// only: the running code never consults it, but the invariant ties the
/// `free` flag to it.
pub struct Node {
    pub id: i32,
    pub leader: Ghost<i32>,
    pub free: bool,
    pub parent: Option<i32>,
    pub children: Vec<i32>,
    pub neighbors: Vec<i32>,
    pub layer: i32,
    pub starting_node: bool,
    pub phase_complete_received: Vec<(i32, bool)>,
    pub acks_received: Vec<(i32, bool)>,
    /// Messages queued for transmission, oldest first.  The shell
    /// around the library writes them to the peer sockets in this
    /// order.
    pub outbox: Vec<(i32, Message)>,
}

impl Node {
    /// The mathematical image of this node.
    pub open spec fn model(self) -> NodeModel {
        NodeModel {
            id: self.id,
            leader: self.leader@,
            free: self.free,
            parent: self.parent,
            children: self.children@,
            neighbors: self.neighbors@,
            layer: self.layer,
            starting_node: self.starting_node,
            phase_complete: self.phase_complete_received@,
            acks: self.acks_received@,
        }
    }

    /// The node invariant, on the model.
    pub open spec fn inv(self) -> bool {
        self.model().inv()
    }

    /// A fresh node: the leader starts claimed at depth 0 and is the
    /// first starting node; every other node starts free at the
    /// sentinel depth -1.  All tallies, the child set and the outbox
    /// start empty.
    pub fn new(id: i32, neighbors: Vec<i32>, leader: i32) -> (r: Node)
        ensures
            r.id == id,
            r.leader@ == leader,
            r.free == (leader != id),
            r.parent is None,
            r.children@ == Seq::<i32>::empty(),
            r.neighbors@ == neighbors@,
            r.layer == (if id == leader { 0i32 } else { -1i32 }),
            r.starting_node == (id == leader),
            r.phase_complete_received@ == Seq::<(i32, bool)>::empty(),
            r.acks_received@ == Seq::<(i32, bool)>::empty(),
            r.outbox@ == Seq::<(i32, Message)>::empty(),
            r.inv(),
    {
        Node {
            id,
            leader: Ghost(leader),
            free: leader != id,
            parent: None,
            children: Vec::new(),
            neighbors,
            layer: if id == leader { 0 } else { -1 },
            starting_node: id == leader,
            phase_complete_received: Vec::new(),
            acks_received: Vec::new(),
            outbox: Vec::new(),
        }
    }

    /// Queue `msg` for transmission to `to`.  Only the outbox changes.
    pub fn send(&mut self, to: i32, msg: Message)
        ensures
            final(self).model() == old(self).model(),
            final(self).outbox@ == old(self).outbox@.push((to, msg)),
    {
        self.outbox.push((to, msg));
    }

    /// Queue `msg` for every neighbor except the current parent, in
    /// adjacency order.  Only the outbox changes.
    pub fn broadcast(&mut self, msg: Message)
        ensures
            final(self).model() == old(self).model(),
            final(self).outbox@ == old(self).outbox@ + bcast_targets(
                old(self).neighbors@,
                old(self).parent,
                msg,
            ),
    {
        let n = self.neighbors.len();
        let mut i: usize = 0;
        while i < n
            invariant
                n == self.neighbors.len(),
                i <= n,
                self.model() == old(self).model(),
                self.outbox@ == old(self).outbox@ + bcast_targets(
                    self.neighbors@.take(i as int),
                    self.parent,
                    msg,
                ),
            decreases n - i,
        {
            let neighbor = self.neighbors[i];
            let skip = match self.parent {
                Some(p) => p == neighbor,
                None => false,
            };
            if !skip {
                self.outbox.push((neighbor, msg));
            }
            proof {
                assert(self.neighbors@.take(i + 1).drop_last() =~= self.neighbors@.take(i as int));
                assert(self.neighbors@.take(i + 1).last() == self.neighbors@[i as int]);
            }
            i = i + 1;
        }
        proof {
            assert(self.neighbors@.take(n as int) =~= self.neighbors@);
        }
    }

    /// Queue `msg` for every current child, in child order.  Only the
    /// outbox changes.
    pub fn broadcast_tree(&mut self, msg: Message)
        ensures
            final(self).model() == old(self).model(),
            final(self).outbox@ == old(self).outbox@ + tree_targets(old(self).children@, msg),
    {
        let n = self.children.len();
        let mut i: usize = 0;
        while i < n
            invariant
                n == self.children.len(),
                i <= n,
                self.model() == old(self).model(),
                self.outbox@ == old(self).outbox@ + tree_targets(
                    self.children@.take(i as int),
                    msg,
                ),
            decreases n - i,
        {
            let child = self.children[i];
            self.outbox.push((child, msg));
            proof {
                assert(self.children@.take(i + 1).drop_last() =~= self.children@.take(i as int));
                assert(self.children@.take(i + 1).last() == self.children@[i as int]);
            }
            i = i + 1;
        }
        proof {
            assert(self.children@.take(n as int) =~= self.children@);
        }
    }
}

/// True exactly when `x` occurs in `v`.
pub fn vec_contains(v: &Vec<i32>, x: i32) -> (r: bool)
    ensures
        r == v@.contains(x),
{
    let mut i: usize = 0;
    while i < v.len()
        invariant
            i <= v@.len(),
            forall|j: int| 0 <= j < i ==> v@[j] != x,
        decreases v@.len() - i,
    {
        if v[i] == x {
            return true;
        }
        i = i + 1;
    }
    false
}

/// Add `x` to the duplicate-free element vector `v`.
pub(crate) fn set_insert(v: &mut Vec<i32>, x: i32)
    ensures
        final(v)@ == seq_insert(old(v)@, x),
{
    if !vec_contains(v, x) {
        v.push(x);
    }
}

/// Remove `x` from the duplicate-free element vector `v`.
pub(crate) fn set_remove(v: &mut Vec<i32>, x: i32)
    requires
        no_dups(old(v)@),
    ensures
        final(v)@ == seq_remove(old(v)@, x),
{
    let mut i: usize = 0;
    while i < v.len()
        invariant
            i <= v@.len(),
            no_dups(v@),
            *v == *old(v),
            forall|j: int| 0 <= j < i ==> v@[j] != x,
        decreases v@.len() - i,
    {
        if v[i] == x {
            v.remove(i);
            proof {
                let w = choose|n: int| 0 <= n < old(v)@.len() && old(v)@[n] == x;
                assert(w == i);
            }
            return;
        }
        i = i + 1;
    }
    proof {
        assert(!old(v)@.contains(x));
    }
}

/// Record `k`'s response `b` in the tally `v`, overwriting any earlier
/// entry for `k`.
pub(crate) fn tally_insert(v: &mut Vec<(i32, bool)>, k: i32, b: bool)
    requires
        tally_unique(old(v)@),
    ensures
        final(v)@ == tally_put(old(v)@, k, b),
        tally_unique(final(v)@),
{
    let mut i: usize = 0;
    while i < v.len()
        invariant
            i <= v@.len(),
            tally_unique(v@),
            *v == *old(v),
            forall|j: int| 0 <= j < i ==> v@[j].0 != k,
        decreases v@.len() - i,
    {
        if v[i].0 == k {
            let entry = &mut v[i];
            *entry = (k, b);
            proof {
                let w = choose|n: int| 0 <= n < old(v)@.len() && old(v)@[n].0 == k;
                assert(w == i);
                assert(v@ =~= old(v)@.update(i as int, (k, b)));
                assert forall|a: int, c: int|
                    0 <= a < c < v@.len() implies v@[a].0 != v@[c].0 by {
                    assert(old(v)@[a].0 != old(v)@[c].0);
                }
            }
            return;
        }
        i = i + 1;
    }
    v.push((k, b));
    proof {
        assert(!tally_has(old(v)@, k));
    }
}

/// True exactly when some tally entry records `true`.
pub fn tally_any_true(v: &Vec<(i32, bool)>) -> (r: bool)
    ensures
        r == tally_any(v@),
{
    let mut i: usize = 0;
    while i < v.len()
        invariant
            i <= v@.len(),
            forall|j: int| 0 <= j < i ==> !v@[j].1,
        decreases v@.len() - i,
    {
        if v[i].1 {
            return true;
        }
        i = i + 1;
    }
    false
}

} // verus!
