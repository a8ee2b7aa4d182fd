//! The Raft node.

use ferrite::config::NodeId;
use ferrite::raft::state::RaftState;
use ferrite::raft::storage::Recovered;
use ferrite::raft::{
    HardState, LogEntry, RaftLog, RaftNode, RaftRpc, RequestVoteRequest, Snapshot, SnapshotMeta,
};
use ferrite::rng::NodeRng;

fn node(id: NodeId) -> RaftNode {
    RaftNode::new(id, vec![2, 3])
}

#[test]
fn id_returns_the_configured_node_id() {
    assert_eq!(node(1).id(), 1);
}

#[test]
fn recover_restores_durable_state_and_resets_volatile_state() {
    let mut log = RaftLog::new();
    log.install_snapshot(2, 1);
    log.append(LogEntry::new(3, 2, b"c".to_vec())).unwrap();
    let snapshot = Snapshot::new(SnapshotMeta::new(2, 1), b"sm".to_vec());

    let node = RaftNode::recover(
        1,
        vec![2, 3],
        NodeRng::seed_from_u64(1),
        Recovered {
            hard_state: HardState {
                current_term: 4,
                voted_for: Some(3),
            },
            log: log.clone(),
            snapshot: Some(snapshot.clone()),
        },
    );

    assert_eq!(node.current_term, 4);
    assert_eq!(node.voted_for, Some(3));
    assert_eq!(node.log, log);
    assert_eq!(node.snapshot, Some(snapshot));
    assert_eq!(node.state, RaftState::Follower);
    assert_eq!(node.leader_id, None);
    // Everything up to the snapshot is applied; nothing past it is known committed.
    assert_eq!(node.commit_index, 2);
    assert_eq!(node.last_applied, 2);
    assert!(node.next_index.is_empty() && node.match_index.is_empty());
    assert!(node.pending_snapshot.is_none());
}

#[test]
fn tick_does_not_panic() {
    let mut node = node(1);
    node.on_tick();
}

#[test]
fn rpc_and_client_command_are_unimplemented_but_safe() {
    let mut node = node(1);

    let _ = node.handle_rpc(
        2,
        RaftRpc::RequestVote(RequestVoteRequest {
            term: 1,
            candidate_id: 2,
            last_log_index: 0,
            last_log_term: 0,
        }),
    );
    node.handle_client_command(vec![1]);
}
