//! The phase-synchronized BFS state machines.
//!
//! Each variant is given twice: as a total spec-level transition
//! function from a node model and an incoming `(sender, message)` pair
//! to the successor model, the queued messages and a termination
//! decision; and as an executable handler whose contract says it
//! computes exactly that transition and preserves the node invariant.
//!
//! The layered variant attaches one new tree layer per root-coordinated
//! phase; the hybrid variant attaches up to `layers_per_phase` layers
//! per phase by letting `Search` waves cascade, which forces the
//! re-parenting rule (a strictly shallower claim wins) and the
//! wave-collapse `Ack` of non-originating nodes.  A node that opens a
//! wave toward no one — its parent is its only neighbor — owes no
//! responses and completes its wave on the spot; without this a
//! path-end frontier would stall the whole phase.

use vstd::prelude::*;

use crate::message::Message;
use crate::node::{
    bcast_targets, no_dups, seq_insert, seq_remove, set_insert, set_remove, tally_any,
    tally_any_true, tally_has, tally_insert, tally_put, tally_unique, tree_targets, Node,
    NodeModel,
};

verus! {

/// The outcome of one handler invocation: the successor state, the
/// messages queued by it (oldest first), and whether the process is to
/// stop.
#[verifier::ext_equal]
pub struct Step {
    pub node: NodeModel,
    pub out: Seq<(i32, Message)>,
    pub terminate: bool,
}

/// The number of responses that completes a wave at a node: one per
/// neighbor, the parent excepted.
pub open spec fn responses_needed(pre: NodeModel) -> int {
    if pre.parent is Some {
        pre.neighbors.len() - 1
    } else {
        pre.neighbors.len() as int
    }
}

/// A node whose wave is complete reports to its parent `p`: the
/// originator of the cascade clears its starting flag and sends
/// `PhaseComplete(some response was an ack)` — its one owed report —
/// while a non-originating node collapses the wave with a plain `Ack`.
/// The response tally is cleared either way.
pub open spec fn wave_completion(m: NodeModel, p: i32) -> (NodeModel, Seq<(i32, Message)>) {
    let added = tally_any(m.acks);
    if m.starting_node {
        (
            NodeModel { acks: Seq::empty(), starting_node: false, ..m },
            seq![(p, Message::PhaseComplete(added))],
        )
    } else {
        (NodeModel { acks: Seq::empty(), ..m }, seq![(p, Message::Ack)])
    }
}

/// Hybrid reaction to `Search(l, max_layer)` from `sender`: a free node,
/// or one that found a strictly shorter path (`layer > l + 1`), accepts
/// `sender` as parent at depth `l + 1`, releasing any previous parent
/// with a `Reject`; it then cascades the wave while the next depth
/// still fits under `max_layer`, and otherwise accepts upward at once.
/// A cascade toward no one (the parent was the only neighbor) completes
/// on the spot.  Every other node declines.
pub open spec fn search_step_hybrid(pre: NodeModel, sender: i32, l: i32, max_layer: i32) -> Step {
    if pre.free || pre.layer > l + 1 {
        let new_layer = (l + 1) as i32;
        let release = match pre.parent {
            Some(p) => seq![(p, Message::Reject)],
            None => Seq::<(i32, Message)>::empty(),
        };
        let post = NodeModel { free: false, layer: new_layer, parent: Some(sender), ..pre };
        if new_layer + 1 <= max_layer {
            let out = release + bcast_targets(
                post.neighbors,
                post.parent,
                Message::Search(new_layer, max_layer),
            );
            if post.acks.len() == post.neighbors.len() - 1 {
                let done = wave_completion(post, sender);
                Step { node: done.0, out: out + done.1, terminate: false }
            } else {
                Step { node: post, out, terminate: false }
            }
        } else {
            Step { node: post, out: release.push((sender, Message::Ack)), terminate: false }
        }
    } else {
        Step { node: pre, out: seq![(sender, Message::Reject)], terminate: false }
    }
}

/// Hybrid reaction to `Ack` (`is_ack`) or `Reject` (`!is_ack`) from
/// `sender`: the response is tallied; an `Ack` records `sender` as a
/// child and a `Reject` revokes it (a re-parented node takes its
/// subtree with it).  When the tally covers all non-parent neighbors
/// the wave is complete here: a node with a parent reports as
/// `wave_completion` says, and the root opens the next phase `k` layers
/// deeper.  The tally is cleared on completion.
pub open spec fn response_step_hybrid(pre: NodeModel, sender: i32, is_ack: bool, k: i32) -> Step {
    let acks = tally_put(pre.acks, sender, is_ack);
    let children = if is_ack {
        seq_insert(pre.children, sender)
    } else {
        seq_remove(pre.children, sender)
    };
    let mid = NodeModel { children, acks, ..pre };
    if acks.len() == responses_needed(pre) {
        match pre.parent {
            Some(p) => {
                let done = wave_completion(mid, p);
                Step { node: done.0, out: done.1, terminate: false }
            },
            None => {
                let new_layer = (pre.layer + k) as i32;
                let post = NodeModel { children, acks: Seq::empty(), layer: new_layer, ..pre };
                Step {
                    node: post,
                    out: tree_targets(children, Message::NewPhase(new_layer)),
                    terminate: false,
                }
            },
        }
    } else {
        Step { node: mid, out: Seq::empty(), terminate: false }
    }
}

/// Hybrid reaction to `NewPhase(l)`: a node on the frontier (`layer ==
/// l`) becomes a starting node and opens a `Search` wave bounded by
/// `l + k` — completing it at once if it has no one to search; an
/// interior node passes the order down the tree; a leaf off the
/// frontier reports `PhaseComplete(false)` at once.
pub open spec fn new_phase_step_hybrid(pre: NodeModel, l: i32, k: i32) -> Step {
    if pre.layer == l {
        let post = NodeModel { starting_node: true, ..pre };
        let out = bcast_targets(pre.neighbors, pre.parent, Message::Search(l, (l + k) as i32));
        match pre.parent {
            Some(p) => if pre.acks.len() == pre.neighbors.len() - 1 {
                let done = wave_completion(post, p);
                Step { node: done.0, out: out + done.1, terminate: false }
            } else {
                Step { node: post, out, terminate: false }
            },
            None => Step { node: post, out, terminate: false },
        }
    } else if pre.children.len() > 0 {
        Step { node: pre, out: tree_targets(pre.children, Message::NewPhase(l)), terminate: false }
    } else {
        match pre.parent {
            Some(p) => Step {
                node: pre,
                out: seq![(p, Message::PhaseComplete(false))],
                terminate: false,
            },
            None => Step { node: pre, out: Seq::empty(), terminate: false },
        }
    }
}

/// Reaction to `PhaseComplete(added)` from a child (both variants; the
/// layered one passes `k == 1`): the report is tallied; once every
/// child has reported, a node with a parent forwards the aggregate
/// upward, while the root either opens the next phase `k` layers
/// deeper (some node was attached) or broadcasts `Terminate` and stops
/// (none was).
pub open spec fn phase_complete_step(pre: NodeModel, sender: i32, added: bool, k: i32) -> Step {
    let tally = tally_put(pre.phase_complete, sender, added);
    if tally.len() == pre.children.len() {
        let any_added = tally_any(tally);
        match pre.parent {
            Some(p) => Step {
                node: NodeModel { phase_complete: Seq::empty(), ..pre },
                out: seq![(p, Message::PhaseComplete(any_added))],
                terminate: false,
            },
            None => if any_added {
                let new_layer = (pre.layer + k) as i32;
                let post = NodeModel { phase_complete: Seq::empty(), layer: new_layer, ..pre };
                Step {
                    node: post,
                    out: tree_targets(pre.children, Message::NewPhase(new_layer)),
                    terminate: false,
                }
            } else {
                Step {
                    node: NodeModel { phase_complete: tally, ..pre },
                    out: bcast_targets(pre.neighbors, pre.parent, Message::Terminate),
                    terminate: true,
                }
            },
        }
    } else {
        Step {
            node: NodeModel { phase_complete: tally, ..pre },
            out: Seq::empty(),
            terminate: false,
        }
    }
}

/// The hybrid transition on one incoming `(sender, msg)` pair with
/// `k` layers per phase.  `Terminate` is relayed to all non-parent
/// neighbors and stops the node; `Connect` never reaches the handler.
pub open spec fn hybrid_step(pre: NodeModel, sender: i32, msg: Message, k: i32) -> Step {
    match msg {
        Message::Search(l, max_layer) => search_step_hybrid(pre, sender, l, max_layer),
        Message::Ack => response_step_hybrid(pre, sender, true, k),
        Message::Reject => response_step_hybrid(pre, sender, false, k),
        Message::NewPhase(l) => new_phase_step_hybrid(pre, l, k),
        Message::PhaseComplete(added) => phase_complete_step(pre, sender, added, k),
        Message::Terminate => Step {
            node: pre,
            out: bcast_targets(pre.neighbors, pre.parent, Message::Terminate),
            terminate: true,
        },
        Message::Connect(_) => Step { node: pre, out: Seq::empty(), terminate: false },
    }
}

/// How `tally_put` relates to the tally it extends: keys stay unique,
/// the length grows exactly when the key was new, and every key was
/// already present or is the inserted one.
pub proof fn lemma_tally_put_props(s: Seq<(i32, bool)>, k: i32, v: bool)
    requires
        tally_unique(s),
    ensures
        tally_unique(tally_put(s, k, v)),
        tally_put(s, k, v).len() == if tally_has(s, k) {
            s.len() as int
        } else {
            s.len() + 1 as int
        },
        forall|i: int|
            0 <= i < tally_put(s, k, v).len() ==> (#[trigger] tally_put(s, k, v)[i].0 == k
                || tally_has(s, tally_put(s, k, v)[i].0)),
{
    if tally_has(s, k) {
        let w = choose|i: int| 0 <= i < s.len() && s[i].0 == k;
        let t = s.update(w, (k, v));
        assert forall|a: int, c: int| 0 <= a < c < t.len() implies t[a].0 != t[c].0 by {
            assert(s[a].0 != s[c].0);
        }
        assert forall|i: int|
            0 <= i < t.len() implies (#[trigger] t[i].0 == k || tally_has(s, t[i].0)) by {
            if i != w {
                assert(s[i].0 == t[i].0);
            }
        }
    }
}

/// `seq_insert` keeps an element vector duplicate-free and adds at most
/// the inserted element.
pub proof fn lemma_seq_insert_props(s: Seq<i32>, x: i32)
    requires
        no_dups(s),
    ensures
        no_dups(seq_insert(s, x)),
        forall|i: int|
            0 <= i < seq_insert(s, x).len() ==> (#[trigger] seq_insert(s, x)[i] == x || s.contains(
                seq_insert(s, x)[i],
            )),
{
}

/// `seq_remove` keeps an element vector duplicate-free and adds
/// nothing.
pub proof fn lemma_seq_remove_props(s: Seq<i32>, x: i32)
    requires
        no_dups(s),
    ensures
        no_dups(seq_remove(s, x)),
        forall|i: int| 0 <= i < seq_remove(s, x).len() ==> s.contains(#[trigger] seq_remove(s, x)[i]),
{
    if s.contains(x) {
        let w = choose|i: int| 0 <= i < s.len() && s[i] == x;
        let t = s.remove(w);
        assert forall|i: int| 0 <= i < t.len() implies s.contains(#[trigger] t[i]) by {
            if i < w {
                assert(t[i] == s[i]);
            } else {
                assert(t[i] == s[i + 1]);
            }
        }
        assert forall|a: int, c: int| 0 <= a < c < t.len() implies t[a] != t[c] by {
            if c < w {
                assert(t[a] == s[a] && t[c] == s[c]);
            } else if a >= w {
                assert(t[a] == s[a + 1] && t[c] == s[c + 1]);
            } else {
                assert(t[a] == s[a] && t[c] == s[c + 1]);
            }
        }
    }
}

/// The hybrid transition preserves the node invariant whenever the
/// message comes in over one of the node's own links.
pub proof fn lemma_hybrid_step_inv(pre: NodeModel, sender: i32, msg: Message, k: i32)
    requires
        pre.inv(),
        pre.neighbors.contains(sender),
    ensures
        hybrid_step(pre, sender, msg, k).node.inv(),
{
    match msg {
        Message::Ack => {
            lemma_tally_put_props(pre.acks, sender, true);
            lemma_seq_insert_props(pre.children, sender);
        },
        Message::Reject => {
            lemma_tally_put_props(pre.acks, sender, false);
            lemma_seq_remove_props(pre.children, sender);
        },
        Message::PhaseComplete(added) => {
            lemma_tally_put_props(pre.phase_complete, sender, added);
        },
        _ => {},
    }
}

/// Report completion of this node's wave to `parent` and clear the
/// response tally, exactly as `wave_completion` says.
fn finish_wave(node: &mut Node, parent: i32)
    ensures
        final(node).model() == wave_completion(old(node).model(), parent).0,
        final(node).outbox@ == old(node).outbox@ + wave_completion(old(node).model(), parent).1,
{
    let child_added = tally_any_true(&node.acks_received);
    if node.starting_node {
        node.starting_node = false;
        node.send(parent, Message::PhaseComplete(child_added));
    } else {
        node.send(parent, Message::Ack);
    }
    node.acks_received.clear();
}

/// React to one incoming message under the hybrid discipline: mutate
/// the node exactly as the spec-level transition says, queue exactly
/// the messages it says, in its order, and return its termination
/// decision.  `id` is the sender of `msg`.
pub fn handle_message_hybrid_bfs(
    node: &mut Node,
    msg: Message,
    id: i32,
    layers_per_phase: i32,
) -> (terminate: bool)
    requires
        old(node).inv(),
        old(node).neighbors@.contains(id),
        !(msg is Connect),
        i32::MIN <= old(node).layer + layers_per_phase <= i32::MAX,
        msg matches Message::Search(l, _) ==> l <= i32::MAX - 2,
        msg matches Message::NewPhase(l) ==> i32::MIN <= l + layers_per_phase <= i32::MAX,
    ensures
        final(node).model() == hybrid_step(old(node).model(), id, msg, layers_per_phase).node,
        final(node).outbox@ == old(node).outbox@ + hybrid_step(
            old(node).model(),
            id,
            msg,
            layers_per_phase,
        ).out,
        terminate == hybrid_step(old(node).model(), id, msg, layers_per_phase).terminate,
        final(node).inv(),
{
    proof {
        lemma_hybrid_step_inv(old(node).model(), id, msg, layers_per_phase);
    }
    match msg {
        Message::Search(layer, max_layer) => {
            if node.free || node.layer > layer + 1 {
                node.free = false;
                node.layer = layer + 1;
                if let Some(parent) = node.parent {
                    node.send(parent, Message::Reject);
                }
                node.parent = Some(id);
                if node.layer + 1 <= max_layer {
                    node.broadcast(Message::Search(node.layer, max_layer));
                    proof {
                        assert(node.neighbors@.len() >= 1);
                    }
                    if node.acks_received.len() == node.neighbors.len() - 1 {
                        finish_wave(node, id);
                    }
                } else {
                    node.send(id, Message::Ack);
                }
            } else {
                node.send(id, Message::Reject);
            }
            false
        },
        Message::Ack | Message::Reject => {
            let is_ack = msg == Message::Ack;
            proof {
                assert(tally_unique(node.acks_received@));
            }
            tally_insert(&mut node.acks_received, id, is_ack);
            if is_ack {
                set_insert(&mut node.children, id);
            } else {
                set_remove(&mut node.children, id);
            }
            let complete = if node.parent.is_some() {
                proof {
                    assert(node.neighbors@.len() >= 1);
                }
                node.acks_received.len() == node.neighbors.len() - 1
            } else {
                node.acks_received.len() == node.neighbors.len()
            };
            if complete {
                if let Some(parent) = node.parent {
                    finish_wave(node, parent);
                } else {
                    node.layer = node.layer + layers_per_phase;
                    node.broadcast_tree(Message::NewPhase(node.layer));
                    node.acks_received.clear();
                }
            }
            false
        },
        Message::NewPhase(layer) => {
            if node.layer == layer {
                node.starting_node = true;
                node.broadcast(Message::Search(layer, layer + layers_per_phase));
                if let Some(parent) = node.parent {
                    proof {
                        assert(node.neighbors@.len() >= 1);
                    }
                    if node.acks_received.len() == node.neighbors.len() - 1 {
                        finish_wave(node, parent);
                    }
                }
            } else if !node.children.is_empty() {
                node.broadcast_tree(Message::NewPhase(layer));
            } else if let Some(parent) = node.parent {
                node.send(parent, Message::PhaseComplete(false));
            }
            false
        },
        Message::PhaseComplete(child_added) => {
            proof {
                assert(tally_unique(node.phase_complete_received@));
            }
            tally_insert(&mut node.phase_complete_received, id, child_added);
            if node.phase_complete_received.len() == node.children.len() {
                let any_added = tally_any_true(&node.phase_complete_received);
                if let Some(parent) = node.parent {
                    node.send(parent, Message::PhaseComplete(any_added));
                } else {
                    if any_added {
                        node.layer = node.layer + layers_per_phase;
                        node.broadcast_tree(Message::NewPhase(node.layer));
                    } else {
                        node.broadcast(Message::Terminate);
                        return true;
                    }
                }
                node.phase_complete_received.clear();
            }
            false
        },
        Message::Terminate => {
            node.broadcast(Message::Terminate);
            true
        },
        Message::Connect(_) => {
            proof {
                assert(false);
            }
            false
        },
    }
}

/// Layered reaction to `Search(l, _)` from `sender`: only a free node
/// accepts, at depth `l + 1`, and answers `Ack` at once — the wave
/// never cascades, so one phase attaches exactly one layer.  The bound
/// carried by the message is ignored.
pub open spec fn search_step_layered(pre: NodeModel, sender: i32, l: i32) -> Step {
    if pre.free {
        let post = NodeModel { free: false, layer: (l + 1) as i32, parent: Some(sender), ..pre };
        Step { node: post, out: seq![(sender, Message::Ack)], terminate: false }
    } else {
        Step { node: pre, out: seq![(sender, Message::Reject)], terminate: false }
    }
}

/// Layered reaction to `Ack`/`Reject` from `sender`: the response is
/// tallied and an `Ack` records a child (a `Reject` revokes nothing:
/// without re-parenting no recorded child is ever released).  When all
/// non-parent neighbors have responded, the node reports
/// `PhaseComplete(any ack)` upward — every response collector is the
/// originator of its wave here, so the starting flag is simply cleared
/// in step with the hybrid variant — and the root opens the next phase
/// one layer deeper.
pub open spec fn response_step_layered(pre: NodeModel, sender: i32, is_ack: bool) -> Step {
    let responses = tally_put(pre.acks, sender, is_ack);
    let children = if is_ack {
        seq_insert(pre.children, sender)
    } else {
        pre.children
    };
    if responses.len() == responses_needed(pre) {
        match pre.parent {
            Some(p) => Step {
                node: NodeModel { children, acks: Seq::empty(), starting_node: false, ..pre },
                out: seq![(p, Message::PhaseComplete(tally_any(responses)))],
                terminate: false,
            },
            None => {
                let new_layer = (pre.layer + 1) as i32;
                let post = NodeModel { children, acks: Seq::empty(), layer: new_layer, ..pre };
                Step {
                    node: post,
                    out: tree_targets(children, Message::NewPhase(new_layer)),
                    terminate: false,
                }
            },
        }
    } else {
        Step {
            node: NodeModel { children, acks: responses, ..pre },
            out: Seq::empty(),
            terminate: false,
        }
    }
}

/// Layered reaction to `NewPhase(l)`: as in the hybrid variant, but a
/// frontier node opens a wave that reaches exactly one layer
/// (`max_layer == l + 1`), completing it at once if it has no one to
/// search.
pub open spec fn new_phase_step_layered(pre: NodeModel, l: i32) -> Step {
    if pre.layer == l {
        let post = NodeModel { starting_node: true, ..pre };
        let out = bcast_targets(pre.neighbors, pre.parent, Message::Search(l, (l + 1) as i32));
        match pre.parent {
            Some(p) => if pre.acks.len() == pre.neighbors.len() - 1 {
                let done = wave_completion(post, p);
                Step { node: done.0, out: out + done.1, terminate: false }
            } else {
                Step { node: post, out, terminate: false }
            },
            None => Step { node: post, out, terminate: false },
        }
    } else if pre.children.len() > 0 {
        Step { node: pre, out: tree_targets(pre.children, Message::NewPhase(l)), terminate: false }
    } else {
        match pre.parent {
            Some(p) => Step {
                node: pre,
                out: seq![(p, Message::PhaseComplete(false))],
                terminate: false,
            },
            None => Step { node: pre, out: Seq::empty(), terminate: false },
        }
    }
}

/// The layered transition on one incoming `(sender, msg)` pair: one new
/// tree layer per phase.
pub open spec fn layered_step(pre: NodeModel, sender: i32, msg: Message) -> Step {
    match msg {
        Message::Search(l, _) => search_step_layered(pre, sender, l),
        Message::Ack => response_step_layered(pre, sender, true),
        Message::Reject => response_step_layered(pre, sender, false),
        Message::NewPhase(l) => new_phase_step_layered(pre, l),
        Message::PhaseComplete(added) => phase_complete_step(pre, sender, added, 1),
        Message::Terminate => Step {
            node: pre,
            out: bcast_targets(pre.neighbors, pre.parent, Message::Terminate),
            terminate: true,
        },
        Message::Connect(_) => Step { node: pre, out: Seq::empty(), terminate: false },
    }
}

/// The layered transition preserves the node invariant whenever the
/// message comes in over one of the node's own links.
pub proof fn lemma_layered_step_inv(pre: NodeModel, sender: i32, msg: Message)
    requires
        pre.inv(),
        pre.neighbors.contains(sender),
    ensures
        layered_step(pre, sender, msg).node.inv(),
{
    match msg {
        Message::Ack => {
            lemma_tally_put_props(pre.acks, sender, true);
            lemma_seq_insert_props(pre.children, sender);
        },
        Message::Reject => {
            lemma_tally_put_props(pre.acks, sender, false);
        },
        Message::PhaseComplete(added) => {
            lemma_tally_put_props(pre.phase_complete, sender, added);
        },
        _ => {},
    }
}

/// React to one incoming message under the layered discipline: mutate
/// the node exactly as the spec-level transition says, queue exactly
/// the messages it says, in its order, and return its termination
/// decision.  `id` is the sender of `msg`.
pub fn handle_message_layered_bfs(node: &mut Node, msg: Message, id: i32) -> (terminate: bool)
    requires
        old(node).inv(),
        old(node).neighbors@.contains(id),
        !(msg is Connect),
        old(node).layer < i32::MAX,
        msg matches Message::Search(l, _) ==> l < i32::MAX,
        msg matches Message::NewPhase(l) ==> l < i32::MAX,
    ensures
        final(node).model() == layered_step(old(node).model(), id, msg).node,
        final(node).outbox@ == old(node).outbox@ + layered_step(old(node).model(), id, msg).out,
        terminate == layered_step(old(node).model(), id, msg).terminate,
        final(node).inv(),
{
    proof {
        lemma_layered_step_inv(old(node).model(), id, msg);
    }
    match msg {
        Message::Search(layer, _) => {
            if node.free {
                node.free = false;
                node.layer = layer + 1;
                node.parent = Some(id);
                node.send(id, Message::Ack);
            } else {
                node.send(id, Message::Reject);
            }
            false
        },
        Message::Ack | Message::Reject => {
            let is_ack = msg == Message::Ack;
            proof {
                assert(tally_unique(node.acks_received@));
            }
            tally_insert(&mut node.acks_received, id, is_ack);
            if is_ack {
                set_insert(&mut node.children, id);
            }
            let complete = if node.parent.is_some() {
                proof {
                    assert(node.neighbors@.len() >= 1);
                }
                node.acks_received.len() == node.neighbors.len() - 1
            } else {
                node.acks_received.len() == node.neighbors.len()
            };
            if complete {
                if let Some(parent) = node.parent {
                    let child_added = tally_any_true(&node.acks_received);
                    node.starting_node = false;
                    node.send(parent, Message::PhaseComplete(child_added));
                } else {
                    node.layer = node.layer + 1;
                    node.broadcast_tree(Message::NewPhase(node.layer));
                }
                node.acks_received.clear();
            }
            false
        },
        Message::NewPhase(layer) => {
            if node.layer == layer {
                node.starting_node = true;
                node.broadcast(Message::Search(layer, layer + 1));
                if let Some(parent) = node.parent {
                    proof {
                        assert(node.neighbors@.len() >= 1);
                    }
                    if node.acks_received.len() == node.neighbors.len() - 1 {
                        finish_wave(node, parent);
                    }
                }
            } else if !node.children.is_empty() {
                node.broadcast_tree(Message::NewPhase(layer));
            } else if let Some(parent) = node.parent {
                node.send(parent, Message::PhaseComplete(false));
            }
            false
        },
        Message::PhaseComplete(child_added) => {
            proof {
                assert(tally_unique(node.phase_complete_received@));
            }
            tally_insert(&mut node.phase_complete_received, id, child_added);
            if node.phase_complete_received.len() == node.children.len() {
                let any_added = tally_any_true(&node.phase_complete_received);
                if let Some(parent) = node.parent {
                    node.send(parent, Message::PhaseComplete(any_added));
                } else {
                    if any_added {
                        node.layer = node.layer + 1;
                        node.broadcast_tree(Message::NewPhase(node.layer));
                    } else {
                        node.broadcast(Message::Terminate);
                        return true;
                    }
                }
                node.phase_complete_received.clear();
            }
            false
        },
        Message::Terminate => {
            node.broadcast(Message::Terminate);
            true
        },
        Message::Connect(_) => {
            proof {
                assert(false);
            }
            false
        },
    }
}

/// With one layer per phase the hybrid variant takes, step for step,
/// exactly the layered variant's transitions: same successor state,
/// same messages, same termination decision.  The hypotheses are the
/// shapes a one-layer run maintains: every `Search` carries the bound
/// `l + 1`; no claimed node ever sees a strictly shorter path (a wave
/// reaches one layer, so re-parenting never arises); every response
/// collector originated its wave; and a `Reject` never comes from a
/// recorded child (no re-parenting revokes one).
pub proof fn lemma_hybrid_one_layer_matches_layered(pre: NodeModel, sender: i32, msg: Message)
    requires
        pre.inv(),
        msg matches Message::Search(l, max_layer) ==> max_layer == l + 1 && (pre.free
            || pre.layer <= l + 1),
        (msg is Ack || msg is Reject) ==> pre.starting_node,
        msg is Reject ==> !pre.children.contains(sender),
    ensures
        hybrid_step(pre, sender, msg, 1) == layered_step(pre, sender, msg),
{
    let h = hybrid_step(pre, sender, msg, 1);
    let l = layered_step(pre, sender, msg);
    match msg {
        Message::Search(sl, max_layer) => {
            if pre.free {
                assert(pre.parent is None);
                assert(h.out =~= l.out);
            }
            assert(h =~~= l);
        },
        Message::Reject => {
            assert(seq_remove(pre.children, sender) == pre.children);
            assert(h =~~= l);
        },
        _ => {
            assert(h =~~= l);
        },
    }
}

/// The condition under which a node decides, on its own, to stop: it
/// has no parent, and the incoming `PhaseComplete` completes its
/// children's tally with no attachment reported anywhere.
pub open spec fn root_stops(pre: NodeModel, sender: i32, msg: Message) -> bool {
    &&& pre.parent is None
    &&& match msg {
        Message::PhaseComplete(added) => {
            let tally = tally_put(pre.phase_complete, sender, added);
            tally.len() == pre.children.len() && !tally_any(tally)
        },
        _ => false,
    }
}

/// Where a `Terminate` can come from: a hybrid step queues one only if
/// the step itself stops, and a step stops exactly on relaying a
/// received `Terminate` or — at the root, the one node that has no
/// parent yet is not free — when the full tally of its children
/// reports that no node was attached during the phase.  The terminating
/// broadcast cascade therefore originates at the leader alone.
pub proof fn lemma_terminate_origination(pre: NodeModel, sender: i32, msg: Message, k: i32)
    ensures
        ({
            let st = hybrid_step(pre, sender, msg, k);
            &&& (st.terminate <==> (msg is Terminate || root_stops(pre, sender, msg)))
            &&& forall|i: int|
                0 <= i < st.out.len() && (#[trigger] st.out[i]).1 is Terminate ==> st.terminate
        }),
{
    let st = hybrid_step(pre, sender, msg, k);
    match msg {
        Message::Search(l, max_layer) => {
            crate::node::lemma_bcast_targets_shape(
                pre.neighbors,
                Some(sender),
                Message::Search((l + 1) as i32, max_layer),
            );
        },
        Message::Ack => {
            lemma_tree_targets_not_terminate(pre, sender, true, k);
        },
        Message::Reject => {
            lemma_tree_targets_not_terminate(pre, sender, false, k);
        },
        Message::NewPhase(l) => {
            crate::node::lemma_bcast_targets_shape(
                pre.neighbors,
                pre.parent,
                Message::Search(l, (l + k) as i32),
            );
            crate::node::lemma_tree_targets_shape(pre.children, Message::NewPhase(l));
        },
        Message::PhaseComplete(added) => {
            let tally = tally_put(pre.phase_complete, sender, added);
            if tally.len() == pre.children.len() && pre.parent is None && tally_any(tally) {
                crate::node::lemma_tree_targets_shape(
                    pre.children,
                    Message::NewPhase((pre.layer + k) as i32),
                );
            }
        },
        _ => {},
    }
}

/// The layered counterpart: a layered step, too, queues a `Terminate`
/// only if it stops, and stops exactly on relaying one or when the
/// root's full tally reports no attachment.
pub proof fn lemma_terminate_origination_layered(pre: NodeModel, sender: i32, msg: Message)
    ensures
        ({
            let st = layered_step(pre, sender, msg);
            &&& (st.terminate <==> (msg is Terminate || root_stops(pre, sender, msg)))
            &&& forall|i: int|
                0 <= i < st.out.len() && (#[trigger] st.out[i]).1 is Terminate ==> st.terminate
        }),
{
    match msg {
        Message::Ack => {
            crate::node::lemma_tree_targets_shape(
                seq_insert(pre.children, sender),
                Message::NewPhase((pre.layer + 1) as i32),
            );
        },
        Message::Reject => {
            crate::node::lemma_tree_targets_shape(
                pre.children,
                Message::NewPhase((pre.layer + 1) as i32),
            );
        },
        Message::NewPhase(l) => {
            crate::node::lemma_bcast_targets_shape(
                pre.neighbors,
                pre.parent,
                Message::Search(l, (l + 1) as i32),
            );
            crate::node::lemma_tree_targets_shape(pre.children, Message::NewPhase(l));
        },
        Message::PhaseComplete(added) => {
            let tally = tally_put(pre.phase_complete, sender, added);
            if tally.len() == pre.children.len() && pre.parent is None && tally_any(tally) {
                crate::node::lemma_tree_targets_shape(
                    pre.children,
                    Message::NewPhase((pre.layer + 1) as i32),
                );
            }
        },
        _ => {},
    }
}

proof fn lemma_tree_targets_not_terminate(pre: NodeModel, sender: i32, is_ack: bool, k: i32)
    ensures
        forall|i: int|
            0 <= i < response_step_hybrid(pre, sender, is_ack, k).out.len() ==> !((
            #[trigger] response_step_hybrid(pre, sender, is_ack, k).out[i]).1 is Terminate),
{
    let children = if is_ack {
        seq_insert(pre.children, sender)
    } else {
        seq_remove(pre.children, sender)
    };
    crate::node::lemma_tree_targets_shape(
        children,
        Message::NewPhase((pre.layer + k) as i32),
    );
}

} // verus!
