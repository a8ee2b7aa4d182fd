//! Laws of a single node on concrete inputs.

use ferrite::raft::driver::{Input, Output};
use ferrite::raft::state::RaftState;
use ferrite::raft::{
    AppendEntriesRequest, AppendEntriesResponse, InstallSnapshotRequest, InstallSnapshotResponse,
    LogEntry, RaftNode, RaftRpc, RequestVoteRequest, RequestVoteResponse, Snapshot, SnapshotMeta,
};
use ferrite::sim::network::InFlight;

fn node() -> RaftNode {
    let mut node = RaftNode::new(1, vec![1, 2, 3]);
    node.current_term = 5;
    for index in 1..=4 {
        node.log.append(LogEntry::new(index, index, vec![index as u8])).unwrap();
    }
    node.commit_index = 2;
    node.last_applied = 2;
    node
}

/// One message of each kind, of the given term.
fn messages(term: u64) -> Vec<RaftRpc> {
    vec![
        RaftRpc::RequestVote(RequestVoteRequest {
            term,
            candidate_id: 2,
            last_log_index: 9,
            last_log_term: 9,
        }),
        RaftRpc::RequestVoteResponse(RequestVoteResponse { term, vote_granted: true }),
        RaftRpc::AppendEntries(AppendEntriesRequest {
            term,
            leader_id: 2,
            prev_log_index: 4,
            prev_log_term: 4,
            entries: vec![LogEntry::new(5, term, vec![5])],
            leader_commit: 5,
        }),
        RaftRpc::AppendEntriesResponse(AppendEntriesResponse {
            term,
            success: true,
            match_index: 4,
        }),
        RaftRpc::InstallSnapshot(InstallSnapshotRequest {
            term,
            leader_id: 2,
            last_included_index: 3,
            last_included_term: 3,
            offset: 0,
            data: vec![1],
            done: true,
        }),
        RaftRpc::InstallSnapshotResponse(InstallSnapshotResponse { term }),
    ]
}

#[test]
fn messages_of_an_earlier_term_change_nothing() {
    for rpc in messages(4) {
        let mut stepped = node();
        let replies = stepped.step(Input::Message { from: 2, rpc });
        assert!(stepped == node());
        assert!(replies.len() <= 1);
        for reply in replies {
            match reply {
                Output::Send { to: 2, rpc: RaftRpc::RequestVoteResponse(r) } => {
                    assert_eq!((r.term, r.vote_granted), (5, false));
                }
                Output::Send { to: 2, rpc: RaftRpc::AppendEntriesResponse(r) } => {
                    assert_eq!((r.term, r.success, r.match_index), (5, false, 0));
                }
                Output::Send { to: 2, rpc: RaftRpc::InstallSnapshotResponse(r) } => {
                    assert_eq!(r.term, 5);
                }
                other => panic!("{other:?}"),
            }
        }
    }
}

#[test]
fn messages_of_a_later_term_make_a_follower() {
    for rpc in messages(8) {
        for state in [RaftState::Follower, RaftState::Candidate, RaftState::Leader] {
            let mut stepped = node();
            stepped.state = state;
            let outputs = stepped.step(Input::Message { from: 2, rpc: rpc.clone() });
            assert_eq!(stepped.current_term, 8);
            assert_eq!(stepped.state, RaftState::Follower);
            let persisted = outputs
                .iter()
                .filter_map(|o| match o {
                    Output::Persist(h) => Some(*h),
                    _ => None,
                })
                .last()
                .unwrap();
            assert_eq!(persisted.current_term, 8);
            assert_eq!(persisted.voted_for, stepped.voted_for);
        }
    }
}

#[test]
fn a_vote_is_kept_within_its_term() {
    let mut voter = node();
    voter.voted_for = Some(3);
    for rpc in messages(5) {
        voter.step(Input::Message { from: 2, rpc });
        if voter.current_term == 5 {
            assert_eq!(voter.voted_for, Some(3));
        }
    }
}

#[test]
fn a_leader_only_appends() {
    let mut leader = node();
    leader.state = RaftState::Leader;
    let before: Vec<LogEntry> = leader.log.entries_from(1);
    leader.step(Input::ClientCommands(vec![b"x".to_vec(), b"y".to_vec()]));
    let after = leader.log.entries_from(1);
    assert_eq!(after.len(), before.len() + 2);
    assert_eq!(after[..before.len()], before[..]);
    assert_eq!((after[4].index, after[4].term), (5, 5));
    assert_eq!((after[5].index, after[5].term), (6, 5));
}

#[test]
fn a_leader_commits_only_its_own_term_by_counting() {
    let mut leader = node();
    leader.state = RaftState::Leader;
    // Everyone holds the fourth entry, but it is of an earlier term.
    let ack = |match_index| Input::Message {
        from: 2,
        rpc: RaftRpc::AppendEntriesResponse(AppendEntriesResponse {
            term: 5,
            success: true,
            match_index,
        }),
    };
    leader.step(ack(4));
    assert_eq!(leader.commit_index, 2);
    leader.step(Input::ClientCommand(b"x".to_vec()));
    let outputs = leader.step(ack(5));
    assert_eq!(leader.commit_index, 5);
    let applied: Vec<u64> = outputs
        .iter()
        .filter_map(|o| match o {
            Output::Apply(e) => Some(e.index),
            _ => None,
        })
        .collect();
    assert_eq!(applied, vec![3, 4, 5]);
    assert_eq!(leader.last_applied, 5);
}

#[test]
fn commitment_never_falls() {
    // The announced commitment lies beyond what the entries leave of the log.
    let mut follower = node();
    follower.commit_index = 4;
    follower.step(Input::Message {
        from: 2,
        rpc: RaftRpc::AppendEntries(AppendEntriesRequest {
            term: 5,
            leader_id: 2,
            prev_log_index: 1,
            prev_log_term: 1,
            entries: vec![LogEntry::new(2, 5, vec![])],
            leader_commit: 9,
        }),
    });
    assert_eq!(follower.log.last_index(), 2);
    assert_eq!(follower.commit_index, 4);

    // Nor does it fall where less is announced than is known.
    let mut ahead = node();
    ahead.commit_index = 3;
    ahead.step(Input::Message {
        from: 2,
        rpc: RaftRpc::AppendEntries(AppendEntriesRequest {
            term: 5,
            leader_id: 2,
            prev_log_index: 1,
            prev_log_term: 1,
            entries: vec![],
            leader_commit: 1,
        }),
    });
    assert_eq!(ahead.commit_index, 3);
}

#[test]
fn whatever_comes_the_log_has_no_gap() {
    for term in 1..8 {
        for rpc in messages(term) {
            let mut receiver = node();
            receiver.step(Input::Message { from: 2, rpc });
            let first = receiver.log.start_index();
            let last = receiver.log.last_index();
            for index in first..=last {
                assert_eq!(receiver.log.entry(index).unwrap().index, index);
            }
            assert!(receiver.log.entry(last + 1).is_err());
        }
    }
}

#[test]
fn inputs_and_outputs_are_cloned_whole() {
    for rpc in messages(5) {
        let message = InFlight { from: 2, to: 1, rpc: rpc.clone() };
        assert_eq!(message.clone(), message);
        let input = Input::Message { from: 2, rpc };
        assert_eq!(input.clone(), input);
        for output in node().step(input) {
            assert_eq!(output.clone(), output);
        }
    }
    for input in [
        Input::Tick,
        Input::ClientCommand(b"a".to_vec()),
        Input::ClientCommands(vec![b"a".to_vec(), vec![], b"bc".to_vec()]),
        Input::SnapshotTaken(Snapshot::new(SnapshotMeta::new(2, 1), b"sm".to_vec())),
        Input::SnapshotPersisted(SnapshotMeta::new(2, 1)),
    ] {
        assert_eq!(input.clone(), input);
    }
    let mut leader = node();
    leader.state = RaftState::Leader;
    let outputs = leader.step(Input::ClientCommand(b"a".to_vec()));
    assert!(!outputs.is_empty());
    assert_eq!(outputs.clone(), outputs);
}

#[test]
fn equality_is_about_consensus_state() {
    let a = node();
    let mut b = node();
    b.rng = ferrite::rng::NodeRng::seed_from_u64(99);
    b.compaction_threshold = 7;
    assert!(a == b);
    b.match_index.insert(2, 1);
    assert!(a != b);
    let mut c = node();
    c.election.votes_granted.insert(2);
    assert!(a != c);
    let mut d = node();
    d.log.append(LogEntry::new(5, 5, vec![])).unwrap();
    assert!(a != d);
    let mut e = node();
    e.peers = vec![1, 2];
    assert!(a != e);
    let mut f = node();
    f.voted_for = Some(2);
    assert!(a != f);
}

#[test]
fn a_node_without_peers_leads_at_once() {
    let mut alone = RaftNode::new(7, vec![7]);
    alone.election.ticks_remaining = 1;
    let outputs = alone.step(Input::Tick);
    assert_eq!(alone.state, RaftState::Leader);
    assert_eq!(alone.current_term, 1);
    assert_eq!(alone.log.last_index(), 1);
    assert!(matches!(outputs[0], Output::Persist(_)));
    assert!(matches!(outputs[1], Output::PersistLog { .. }));
    assert_eq!(outputs.len(), 2);
}
