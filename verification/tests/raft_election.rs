//! Elections.

use ferrite::raft::election::{
    handle_request_vote_response, is_log_up_to_date, on_tick, quorum, reset_timeout, ElectionAction,
    ElectionState,
};
use ferrite::raft::replication::handle_append_entries_response;
use ferrite::raft::state::RaftState;
use ferrite::raft::{
    AppendEntriesRequest, AppendEntriesResponse, LogEntry, RaftNode, RaftRpc, RequestVoteResponse,
};
use ferrite::rng::NodeRng;

fn candidate_with_self_vote(id: u64, peers: Vec<u64>, term: u64) -> RaftNode {
    let mut node = RaftNode::new(id, peers);
    node.current_term = term;
    node.state = RaftState::Candidate;
    node.voted_for = Some(id);
    node.election.votes_granted.clear();
    node.election.votes_granted.insert(id);
    node
}

fn vote_ok(term: u64) -> RequestVoteResponse {
    RequestVoteResponse {
        term,
        vote_granted: true,
    }
}

fn ae_sends(actions: &[ElectionAction]) -> Vec<(u64, &AppendEntriesRequest)> {
    actions
        .iter()
        .filter_map(|a| match a {
            ElectionAction::Send {
                to,
                rpc: RaftRpc::AppendEntries(req),
            } => Some((*to, req)),
            _ => None,
        })
        .collect()
}

/// Piece 2: winning an election appends a blank current-term entry and
/// replicates it immediately via AppendEntries.
#[test]
fn become_leader_appends_current_term_noop_and_replicates() {
    let mut node = candidate_with_self_vote(1, vec![2, 3], 4);
    // Prior-term residue that cannot commit by majority alone (Figure 8).
    node.log
        .append(LogEntry::new(1, 2, b"old".to_vec()))
        .unwrap();
    node.log
        .append(LogEntry::new(2, 3, b"old2".to_vec()))
        .unwrap();
    node.commit_index = 0;

    let actions = handle_request_vote_response(&mut node, 2, vote_ok(4));

    assert_eq!(node.state, RaftState::Leader);
    assert_eq!(node.leader_id, Some(1));
    assert!(
        actions
            .iter()
            .any(|a| matches!(a, ElectionAction::PromoteLeader))
    );

    // No-op sits at the tail: empty command, leader's term, index 3.
    assert_eq!(node.log.last_index(), 3);
    let noop = node.log.entry(3).unwrap();
    assert_eq!(noop.term, 4);
    assert!(noop.command.is_empty());
    // Prior entries untouched.
    assert_eq!(node.log.entry(1).unwrap().command, b"old");
    assert_eq!(node.log.entry(2).unwrap().command, b"old2");

    // next_index points at the no-op; match_index starts at 0.
    assert_eq!(node.next_index[&2], 3);
    assert_eq!(node.next_index[&3], 3);
    assert_eq!(node.match_index[&2], 0);
    assert_eq!(node.match_index[&3], 0);

    let sends = ae_sends(&actions);
    assert_eq!(sends.len(), 2, "one AE per peer, got {sends:?}");
    for (to, req) in sends {
        assert!(to == 2 || to == 3);
        assert_eq!(req.term, 4);
        assert_eq!(req.leader_id, 1);
        assert_eq!(req.prev_log_index, 2);
        assert_eq!(req.prev_log_term, 3);
        assert_eq!(req.leader_commit, 0);
        assert_eq!(req.entries.len(), 1);
        assert_eq!(req.entries[0].index, 3);
        assert_eq!(req.entries[0].term, 4);
        assert!(req.entries[0].command.is_empty());
    }
}

#[test]
fn become_leader_noop_on_empty_log_starts_at_index_one() {
    let mut node = candidate_with_self_vote(1, vec![2, 3], 1);
    let actions = handle_request_vote_response(&mut node, 2, vote_ok(1));

    assert_eq!(node.log.last_index(), 1);
    let noop = node.log.entry(1).unwrap();
    assert_eq!(noop.term, 1);
    assert!(noop.command.is_empty());
    assert_eq!(node.next_index[&2], 1);
    assert_eq!(node.match_index[&2], 0);

    let sends = ae_sends(&actions);
    assert_eq!(sends.len(), 2);
    for (_to, req) in sends {
        assert_eq!(req.prev_log_index, 0);
        assert_eq!(req.prev_log_term, 0);
        assert_eq!(req.entries, vec![LogEntry::new(1, 1, vec![])]);
    }

    // The no-op is persisted before the first AppendEntries carrying it.
    let persist = actions.iter().position(|a| {
        *a == ElectionAction::PersistLog {
            truncate_from: None,
            entries: vec![LogEntry::new(1, 1, vec![])],
        }
    });
    let first_send = actions
        .iter()
        .position(|a| matches!(a, ElectionAction::Send { .. }));
    assert!(
        matches!((persist, first_send), (Some(p), Some(s)) if p < s),
        "no-op PersistLog must precede the first Send: {actions:?}"
    );
}

#[test]
fn single_node_cluster_becomes_leader_with_noop_on_election_start() {
    // peers empty → self-vote alone is a quorum; start_election → become_leader.
    let mut node = RaftNode::new(1, vec![]);
    node.current_term = 0;
    node.election.set_election_timeout(1);
    // First tick expires the timer.
    let actions = on_tick(&mut node);

    assert_eq!(node.state, RaftState::Leader);
    assert_eq!(node.current_term, 1);
    assert_eq!(node.log.last_index(), 1);
    assert!(node.log.entry(1).unwrap().command.is_empty());
    assert_eq!(node.log.entry(1).unwrap().term, 1);
    assert!(
        actions
            .iter()
            .any(|a| matches!(a, ElectionAction::PromoteLeader))
    );
    // No peers → no AppendEntries Sends.
    assert!(ae_sends(&actions).is_empty());
}

#[test]
fn quorum_ignores_this_node_appearing_in_its_own_peer_list() {
    // A config that lists every member, this node included, is the obvious
    // way to write one. Counting the self-entry as a fourth voter in a
    // three-node cluster would demand unanimity to elect while commit still
    // needed two — the cluster would stop electing as soon as one node died.
    let with_self = RaftNode::new(1, vec![1, 2, 3]);
    let without_self = RaftNode::new(1, vec![2, 3]);

    assert_eq!(quorum(&with_self), 2);
    assert_eq!(quorum(&without_self), 2);
}

#[test]
fn vote_below_quorum_does_not_append_noop() {
    let mut node = candidate_with_self_vote(1, vec![2, 3, 4, 5], 2);
    // 5-node cluster needs 3 votes; self + one grant is not enough.
    let actions = handle_request_vote_response(&mut node, 2, vote_ok(2));

    assert_eq!(node.state, RaftState::Candidate);
    assert_eq!(node.log.last_index(), 0);
    assert!(actions.is_empty());
    assert!(node.next_index.is_empty());
}

/// Piece 2 + 1: after the no-op is majority-acked, commit can advance and
/// previous-term entries become committed indirectly.
#[test]
fn noop_majority_enables_commit_of_prior_term_entries() {
    let mut node = candidate_with_self_vote(1, vec![2, 3], 5);
    node.log.append(LogEntry::new(1, 2, b"a".to_vec())).unwrap();
    node.log.append(LogEntry::new(2, 4, b"b".to_vec())).unwrap();
    node.commit_index = 0;
    node.last_applied = 0;

    handle_request_vote_response(&mut node, 2, vote_ok(5));
    assert_eq!(node.log.last_index(), 3); // no-op at 3
    assert_eq!(node.commit_index, 0); // not yet replicated

    // One follower acks through the no-op → majority (leader + peer 2).
    let actions = handle_append_entries_response(
        &mut node,
        2,
        AppendEntriesResponse {
            term: 5,
            success: true,
            match_index: 3,
        },
    );

    assert_eq!(node.commit_index, 3);
    assert_eq!(node.last_applied, 3);
    let applied: Vec<_> = actions
        .iter()
        .filter_map(|a| match a {
            ElectionAction::ApplyCommittedEntries { entry } => {
                Some((entry.index, entry.term, entry.command.clone()))
            }
            _ => None,
        })
        .collect();
    assert_eq!(
        applied,
        vec![
            (1, 2, b"a".to_vec()),
            (2, 4, b"b".to_vec()),
            (3, 5, vec![]), // no-op
        ]
    );
}

#[test]
fn reset_uses_the_nodes_selected_timeout() {
    let mut state = ElectionState::new(5);

    assert!(!state.tick());
    state.set_election_timeout(3);

    assert!(!state.tick());
    assert!(!state.tick());
    assert!(state.tick());
}

#[test]
fn log_up_to_date_prefers_higher_term() {
    assert!(is_log_up_to_date(2, 1, 1, 100));
    assert!(!is_log_up_to_date(1, 100, 2, 1));
}

#[test]
fn log_up_to_date_uses_index_when_terms_equal() {
    assert!(is_log_up_to_date(1, 5, 1, 5));
    assert!(is_log_up_to_date(1, 6, 1, 5));
    assert!(!is_log_up_to_date(1, 4, 1, 5));
}

#[test]
fn reset_timeout_is_deterministic_for_same_seed() {
    let mut a = NodeRng::seed_from_u64(42);
    let mut b = NodeRng::seed_from_u64(42);
    let mut sa = ElectionState::new(1);
    let mut sb = ElectionState::new(1);

    reset_timeout(&mut sa, 10, 20, &mut a);
    reset_timeout(&mut sb, 10, 20, &mut b);
    assert_eq!(sa, sb);

    reset_timeout(&mut sa, 10, 20, &mut a);
    reset_timeout(&mut sb, 10, 20, &mut b);
    assert_eq!(sa, sb);
}
