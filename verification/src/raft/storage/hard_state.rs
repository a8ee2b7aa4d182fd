//! Durable Raft election metadata.

use vstd::prelude::*;

use crate::config::NodeId;

verus! {

/// Persistent state required to preserve Raft election safety across restarts.
///
/// Storage must write this state before the node sends a response that relies
/// on its term or recorded vote.
#[derive(Debug, Clone, Copy, PartialEq, Eq, Structural)]
pub struct HardState {
    pub current_term: u64,
    pub voted_for: Option<NodeId>,
}

impl HardState {
    /// The state of a node that never took part in an election.
    pub open spec fn initial() -> HardState {
        HardState { current_term: 0, voted_for: None }
    }
}

impl Default for HardState {
    fn default() -> (r: Self)
        ensures
            r == HardState::initial(),
    {
        HardState { current_term: 0, voted_for: None }
    }
}

} // verus!
