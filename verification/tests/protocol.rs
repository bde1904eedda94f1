// System-level runs of the BFS state machines over an in-process
// network: every node is a `Node`, every link a pair of FIFO queues,
// and a deterministic scheduler (lowest receiver id first, then lowest
// sender id) delivers one message at a time, exactly as the
// per-process handler would see them arrive.

use std::collections::VecDeque;

use bfs_tree::bfs::{handle_message_hybrid_bfs, handle_message_layered_bfs};
use bfs_tree::message::Message;
use bfs_tree::node::Node;

struct Sim {
    nodes: Vec<Node>,
    alive: Vec<bool>,
    queues: Vec<Vec<VecDeque<Message>>>,
    log: Vec<(i32, i32, Message)>,
    k: i32,
    layered: bool,
}

impl Sim {
    fn new(n: usize, edges: &[(i32, i32)], leader: i32, k: i32, layered: bool) -> Sim {
        let mut neighbors: Vec<Vec<i32>> = vec![Vec::new(); n];
        for &(u, v) in edges {
            neighbors[(u - 1) as usize].push(v);
            neighbors[(v - 1) as usize].push(u);
        }
        let mut nodes = Vec::new();
        for id in 1..=(n as i32) {
            nodes.push(Node::new(id, neighbors[(id - 1) as usize].clone(), leader));
        }
        Sim {
            nodes,
            alive: vec![true; n],
            queues: vec![vec![VecDeque::new(); n]; n],
            log: Vec::new(),
            k,
            layered,
        }
    }

    fn drain_outbox(&mut self, idx: usize) {
        let outbox = std::mem::take(&mut self.nodes[idx].outbox);
        for (dest, m) in outbox {
            self.queues[idx][(dest - 1) as usize].push_back(m);
        }
    }

    fn next_message(&self) -> Option<(usize, usize)> {
        let n = self.nodes.len();
        for to in 0..n {
            for from in 0..n {
                if !self.queues[from][to].is_empty() {
                    return Some((from, to));
                }
            }
        }
        None
    }

    fn run(&mut self) {
        let leader_idx = self
            .nodes
            .iter()
            .position(|nd| !nd.free && nd.parent.is_none())
            .expect("a leader exists");
        self.nodes[leader_idx].broadcast(Message::Search(0, self.k));
        self.drain_outbox(leader_idx);
        let mut steps: usize = 0;
        while let Some((from, to)) = self.next_message() {
            steps += 1;
            assert!(steps < 100_000, "simulation did not quiesce");
            let msg = self.queues[from][to].pop_front().unwrap();
            if !self.alive[to] {
                continue;
            }
            let sender = (from + 1) as i32;
            self.log.push((sender, (to + 1) as i32, msg));
            let term = if self.layered {
                handle_message_layered_bfs(&mut self.nodes[to], msg, sender)
            } else {
                handle_message_hybrid_bfs(&mut self.nodes[to], msg, sender, self.k)
            };
            self.drain_outbox(to);
            if term {
                self.alive[to] = false;
            }
        }
    }

    fn node(&self, id: i32) -> &Node {
        &self.nodes[(id - 1) as usize]
    }

    fn children_sorted(&self, id: i32) -> Vec<i32> {
        let mut c = self.node(id).children.clone();
        c.sort();
        c
    }

    fn sent_by(&self, from: i32, pred: fn(&Message) -> bool) -> usize {
        self.log.iter().filter(|(f, _, m)| *f == from && pred(m)).count()
    }

    fn delivered(&self, from: i32, to: i32, pred: fn(&Message) -> bool) -> usize {
        self.log.iter().filter(|(f, t, m)| *f == from && *t == to && pred(m)).count()
    }
}

fn run_bfs(n: usize, edges: &[(i32, i32)], leader: i32, k: i32) -> Sim {
    let mut sim = Sim::new(n, edges, leader, k, false);
    sim.run();
    sim
}

fn run_bfs_layered(n: usize, edges: &[(i32, i32)], leader: i32) -> Sim {
    let mut sim = Sim::new(n, edges, leader, 1, true);
    sim.run();
    sim
}

// The tree laws, decided by the library's verified checkers: the
// parent pointers form a tree rooted at the leader, and parents and
// children agree edge by edge.
fn assert_tree_laws(sim: &Sim, leader: i32) {
    assert!(bfs_tree::tree::check_spanning_tree(&sim.nodes, leader));
    assert!(bfs_tree::tree::check_mutual_agreement(&sim.nodes));
}

#[test]
fn path4_layered_tree() {
    let sim = run_bfs(4, &[(1, 2), (2, 3), (3, 4)], 1, 1);
    assert_eq!(sim.node(1).parent, None);
    assert_eq!(sim.node(2).parent, Some(1));
    assert_eq!(sim.node(3).parent, Some(2));
    assert_eq!(sim.node(4).parent, Some(3));
    assert_eq!(sim.node(2).layer, 1);
    assert_eq!(sim.node(3).layer, 2);
    assert_eq!(sim.node(4).layer, 3);
    assert_eq!(sim.children_sorted(1), vec![2]);
    assert_eq!(sim.children_sorted(2), vec![3]);
    assert_eq!(sim.children_sorted(3), vec![4]);
    assert_eq!(sim.children_sorted(4), Vec::<i32>::new());
    assert_tree_laws(&sim, 1);
    assert!(sim.alive.iter().all(|a| !a), "every process terminates");
}

#[test]
fn path4_single_phase_k3() {
    let sim = run_bfs(4, &[(1, 2), (2, 3), (3, 4)], 1, 3);
    assert_eq!(sim.node(2).parent, Some(1));
    assert_eq!(sim.node(3).parent, Some(2));
    assert_eq!(sim.node(4).parent, Some(3));
    assert_eq!(
        (sim.node(2).layer, sim.node(3).layer, sim.node(4).layer),
        (1, 2, 3)
    );
    // A single phase suffices: the leader issues NewPhase once, for the
    // follow-up phase that reports no attachment and terminates.
    assert_eq!(sim.sent_by(1, |m| matches!(m, Message::NewPhase(_))), 1);
    assert_tree_laws(&sim, 1);
    assert!(sim.alive.iter().all(|a| !a));
}

#[test]
fn cycle4_depths_and_tiebreak() {
    let sim = run_bfs(4, &[(1, 2), (2, 3), (3, 4), (4, 1)], 1, 1);
    assert_eq!(sim.node(1).parent, None, "the leader reports depth 0 as the root");
    assert_eq!(sim.node(2).layer, 1);
    assert_eq!(sim.node(3).layer, 2);
    assert_eq!(sim.node(4).layer, 1);
    assert_eq!(sim.node(2).parent, Some(1));
    assert_eq!(sim.node(4).parent, Some(1));
    let parent_of_3 = sim.node(3).parent.unwrap();
    assert!(
        parent_of_3 == 2 || parent_of_3 == 4,
        "node 3 is claimed by one of its depth-1 neighbors"
    );
    assert_tree_laws(&sim, 1);
    assert!(sim.alive.iter().all(|a| !a));
}

#[test]
fn complete_graph_k5() {
    let edges = [
        (1, 2),
        (1, 3),
        (1, 4),
        (1, 5),
        (2, 3),
        (2, 4),
        (2, 5),
        (3, 4),
        (3, 5),
        (4, 5),
    ];
    let sim = run_bfs(5, &edges, 3, 2);
    assert_eq!(sim.node(3).parent, None, "the leader reports depth 0 as the root");
    for id in [1, 2, 4, 5] {
        assert_eq!(sim.node(id).layer, 1);
        assert_eq!(sim.node(id).parent, Some(3));
    }
    assert_eq!(sim.children_sorted(3), vec![1, 2, 4, 5]);
    assert_tree_laws(&sim, 3);
    assert!(sim.alive.iter().all(|a| !a));
}

#[test]
fn star_with_back_edge_cross_edge_rejected() {
    let sim = run_bfs(5, &[(1, 2), (1, 3), (1, 4), (1, 5), (2, 3)], 1, 1);
    for id in [2, 3, 4, 5] {
        assert_eq!(sim.node(id).parent, Some(1));
        assert_eq!(sim.node(id).layer, 1);
    }
    // The back edge (2,3) is a cross edge: Search crosses it in both
    // directions and is declined both times.
    assert_eq!(sim.delivered(2, 3, |m| matches!(m, Message::Search(_, _))), 1);
    assert_eq!(sim.delivered(3, 2, |m| matches!(m, Message::Search(_, _))), 1);
    assert_eq!(sim.delivered(3, 2, |m| matches!(m, Message::Reject)), 1);
    assert_eq!(sim.delivered(2, 3, |m| matches!(m, Message::Reject)), 1);
    assert_tree_laws(&sim, 1);
    assert!(sim.alive.iter().all(|a| !a));
}

#[test]
fn path5_two_phases_k2() {
    let sim = run_bfs(5, &[(1, 2), (2, 3), (3, 4), (4, 5)], 1, 2);
    for (id, (p, l)) in [(2, (1, 1)), (3, (2, 2)), (4, (3, 3)), (5, (4, 4))] {
        assert_eq!(sim.node(id).parent, Some(p));
        assert_eq!(sim.node(id).layer, l);
    }
    // Phase 2 opens at depth 2 and the follow-up phase at depth 4.
    assert_eq!(sim.delivered(1, 2, |m| matches!(m, Message::NewPhase(2))), 1);
    assert_eq!(sim.delivered(1, 2, |m| matches!(m, Message::NewPhase(4))), 1);
    assert_eq!(sim.sent_by(1, |m| matches!(m, Message::NewPhase(_))), 2);
    assert_tree_laws(&sim, 1);
    assert!(sim.alive.iter().all(|a| !a));
}

#[test]
fn terminate_originates_at_leader_and_reaches_all_once() {
    let sim = run_bfs(4, &[(1, 2), (2, 3), (3, 4)], 1, 1);
    let total_from_leader = sim.sent_by(1, |m| matches!(m, Message::Terminate));
    assert_eq!(total_from_leader, 1, "the leader broadcasts Terminate exactly once");
    for id in [2, 3, 4] {
        let received = sim
            .log
            .iter()
            .filter(|(_, t, m)| *t == id && matches!(m, Message::Terminate))
            .count();
        assert_eq!(received, 1, "each process is reached by exactly one Terminate");
    }
}

#[test]
fn layered_variant_builds_same_tree_as_hybrid_k1() {
    let edges = [(1, 2), (2, 3), (3, 4), (4, 1), (2, 4)];
    let hybrid = run_bfs(4, &edges, 1, 1);
    let layered = run_bfs_layered(4, &edges, 1);
    for id in 1..=4 {
        assert_eq!(hybrid.node(id).parent, layered.node(id).parent);
        assert_eq!(hybrid.node(id).layer, layered.node(id).layer);
        assert_eq!(hybrid.children_sorted(id), layered.children_sorted(id));
    }
}

#[test]
fn layered_variant_path4() {
    let sim = run_bfs_layered(4, &[(1, 2), (2, 3), (3, 4)], 1);
    assert_eq!(sim.node(2).parent, Some(1));
    assert_eq!(sim.node(3).parent, Some(2));
    assert_eq!(sim.node(4).parent, Some(3));
    assert_eq!(sim.node(4).layer, 3);
    assert_tree_laws(&sim, 1);
    assert!(sim.alive.iter().all(|a| !a));
}

#[test]
fn search_claims_free_node() {
    let mut node = Node::new(2, vec![1, 3], 1);
    assert!(node.free);
    let term = handle_message_hybrid_bfs(&mut node, Message::Search(0, 1), 1, 1);
    assert!(!term);
    assert!(!node.free);
    assert_eq!(node.parent, Some(1));
    assert_eq!(node.layer, 1);
    // The bound is reached, so the node accepts upward at once.
    assert_eq!(node.outbox, vec![(1, Message::Ack)]);
}

#[test]
fn search_rejected_by_claimed_node() {
    let mut node = Node::new(2, vec![1, 3], 1);
    handle_message_hybrid_bfs(&mut node, Message::Search(0, 1), 1, 1);
    node.outbox.clear();
    let term = handle_message_hybrid_bfs(&mut node, Message::Search(0, 1), 3, 1);
    assert!(!term);
    assert_eq!(node.parent, Some(1), "the first claim stands");
    assert_eq!(node.outbox, vec![(3, Message::Reject)]);
}

#[test]
fn shorter_path_reparents_and_releases_old_parent() {
    let mut node = Node::new(2, vec![1, 3], 1);
    // Claimed deep in the tree by node 3 during a wide phase...
    handle_message_hybrid_bfs(&mut node, Message::Search(4, 6), 3, 3);
    node.outbox.clear();
    assert_eq!(node.parent, Some(3));
    assert_eq!(node.layer, 5);
    // ...then found at depth 1 by the leader in the same phase.
    let term = handle_message_hybrid_bfs(&mut node, Message::Search(0, 6), 1, 3);
    assert!(!term);
    assert_eq!(node.parent, Some(1));
    assert_eq!(node.layer, 1);
    assert_eq!(node.outbox[0], (3, Message::Reject), "the old parent is released first");
    assert!(
        node.outbox[1..]
            .iter()
            .all(|(to, m)| *to == 3 && matches!(m, Message::Search(1, 6))),
        "the wave cascades to the non-parent neighbors"
    );
}

#[test]
fn terminate_is_relayed_and_stops_the_node() {
    let mut node = Node::new(2, vec![1, 3], 1);
    handle_message_hybrid_bfs(&mut node, Message::Search(0, 1), 1, 1);
    node.outbox.clear();
    let term = handle_message_hybrid_bfs(&mut node, Message::Terminate, 1, 1);
    assert!(term);
    assert_eq!(node.outbox, vec![(3, Message::Terminate)]);
}

#[test]
fn tree_checker_rejects_a_parent_cycle() {
    let mut a = Node::new(2, vec![3], 1);
    let mut b = Node::new(3, vec![2], 1);
    let root = Node::new(1, vec![], 1);
    a.free = false;
    a.parent = Some(3);
    a.layer = 1;
    b.free = false;
    b.parent = Some(2);
    b.layer = 2;
    let family = vec![root, a, b];
    assert!(!bfs_tree::tree::check_spanning_tree(&family, 1));
}

#[test]
fn tree_checker_rejects_a_wrong_depth() {
    let root = Node::new(1, vec![2], 1);
    let mut a = Node::new(2, vec![1], 1);
    a.free = false;
    a.parent = Some(1);
    a.layer = 2;
    assert!(!bfs_tree::tree::check_spanning_tree(&vec![root, a], 1));
}

#[test]
fn agreement_checker_rejects_an_unlisted_child() {
    let root = Node::new(1, vec![2], 1);
    let mut a = Node::new(2, vec![1], 1);
    a.free = false;
    a.parent = Some(1);
    a.layer = 1;
    // The root never recorded node 2 as a child.
    let family = vec![root, a];
    assert!(!bfs_tree::tree::check_mutual_agreement(&family));
    assert!(bfs_tree::tree::check_spanning_tree(&family, 1));
}
