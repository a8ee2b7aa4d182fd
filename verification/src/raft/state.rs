//! Raft role state definitions.

use vstd::prelude::*;

verus! {

/// The role a node plays in its current term.
#[derive(Debug, Clone, Copy, PartialEq, Eq, Structural)]
pub enum RaftState {
    Follower,
    Candidate,
    Leader,
}

} // verus!
