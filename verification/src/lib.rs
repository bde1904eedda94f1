//! A distributed breadth-first spanning-tree library.
//!
//! Each graph vertex runs one process; the processes exchange framed
//! protocol messages over reliable ordered point-to-point links and
//! cooperatively build a BFS tree rooted at a designated leader.  This
//! crate holds the verified core: the wire codec, the per-node state,
//! the phase-synchronized state machines (layered and hybrid), the
//! configuration-file grammar, and the spanning-tree laws with their
//! checkers.  Socket handling, threads and printing live outside the
//! library and drive it through plain values.

pub mod bfs;
pub mod config;
pub mod message;
pub mod node;
pub mod tree;
