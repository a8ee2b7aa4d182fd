//! Runtime checks of safety.

use ferrite::config::NodeId;
use ferrite::raft::invariants::{assert_log_matching, InvariantChecker, Violation};
use ferrite::raft::log::RaftLog;
use ferrite::raft::state::RaftState;
use ferrite::raft::{LogEntry, RaftNode};

fn checked(outcome: Result<(), Violation>) {
    if let Err(violation) = outcome {
        panic!("{}", violation.message());
    }
}

#[test]
fn matching_index_and_term_implies_equal_prefix() {
    let mut a = RaftLog::new();
    let mut b = RaftLog::new();
    for e in [
        LogEntry::new(1, 1, b"x".to_vec()),
        LogEntry::new(2, 1, b"y".to_vec()),
    ] {
        a.append(e.clone()).unwrap();
        b.append(e).unwrap();
    }
    checked(assert_log_matching(&[&a, &b]));
}

#[test]
#[should_panic(expected = "log matching violated at index 1")]
fn matching_witness_with_divergent_prefix_is_rejected() {
    let mut a = RaftLog::new();
    let mut b = RaftLog::new();
    a.append(LogEntry::new(1, 1, b"x".to_vec())).unwrap();
    b.append(LogEntry::new(1, 1, b"other".to_vec())).unwrap();
    for log in [&mut a, &mut b] {
        log.append(LogEntry::new(2, 2, b"y".to_vec())).unwrap();
    }
    checked(assert_log_matching(&[&a, &b]));
}

fn node(id: NodeId, term: u64) -> RaftNode {
    let mut node = RaftNode::new(id, vec![1, 2, 3].into_iter().filter(|&p| p != id).collect());
    node.current_term = term;
    node
}

#[test]
fn healthy_history_passes_every_check() {
    let mut checker = InvariantChecker::new();
    let mut leader = node(1, 1);
    leader.voted_for = Some(1);
    leader.state = RaftState::Leader;
    let mut follower = node(2, 1);
    follower.voted_for = Some(1);
    checked(checker.observe(&[&leader, &follower]));

    // A later term may have a different leader and different votes.
    leader.state = RaftState::Follower;
    leader.current_term = 2;
    leader.voted_for = Some(2);
    follower.current_term = 2;
    follower.voted_for = Some(2);
    follower.state = RaftState::Leader;
    checked(checker.observe(&[&leader, &follower]));
}

#[test]
#[should_panic(expected = "election safety violated")]
fn two_leaders_in_one_term_are_rejected() {
    let mut checker = InvariantChecker::new();
    let mut first = node(1, 3);
    first.state = RaftState::Leader;
    checked(checker.observe(&[&first]));

    // Node 1 steps down, but node 2 must still not lead the same term.
    first.state = RaftState::Follower;
    let mut second = node(2, 3);
    second.state = RaftState::Leader;
    checked(checker.observe(&[&first, &second]));
}

#[test]
#[should_panic(expected = "term monotonicity violated: node 1 went from term 4 to 3")]
fn decreasing_term_is_rejected() {
    let mut checker = InvariantChecker::new();
    let mut n = node(1, 4);
    checked(checker.observe(&[&n]));
    n.current_term = 3;
    checked(checker.observe(&[&n]));
}

#[test]
#[should_panic(expected = "vote once violated: node 1 voted for 2 and then 3 in term 1")]
fn second_vote_in_one_term_is_rejected() {
    let mut checker = InvariantChecker::new();
    let mut n = node(1, 1);
    n.voted_for = Some(2);
    checked(checker.observe(&[&n]));
    n.voted_for = Some(3);
    checked(checker.observe(&[&n]));
}

#[test]
#[should_panic(expected = "commit index 1 exceeds last log index 0 on node 1")]
fn commit_index_past_log_end_is_rejected() {
    let mut n = node(1, 1);
    n.commit_index = 1;
    checked(InvariantChecker::new().observe(&[&n]));
}
