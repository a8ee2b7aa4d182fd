//! The snapshot protocol.

use ferrite::raft::driver::{Input, Output};
use ferrite::raft::election::ElectionAction;
use ferrite::raft::replication::send_append_entries;
use ferrite::raft::snapshot::{
    handle_install_snapshot_request, on_snapshot_persisted, on_snapshot_taken, should_snapshot,
};
use ferrite::raft::state::RaftState;
use ferrite::raft::{
    InstallSnapshotRequest, LogEntry, RaftNode, RaftRpc, Snapshot, SnapshotMeta,
};

fn leader_with_entries(n: u64, threshold: u64) -> RaftNode {
    let mut node = RaftNode::new(1, vec![2, 3]);
    node.state = RaftState::Leader;
    node.current_term = 1;
    node.leader_id = Some(1);
    node.compaction_threshold = threshold;
    for i in 1..=n {
        node.log
            .append(LogEntry::new(i, 1, format!("c{i}").into_bytes()))
            .unwrap();
    }
    node.commit_index = n;
    node.last_applied = n;
    node
}

#[test]
fn should_snapshot_uses_applied_since_last_included() {
    let mut node = leader_with_entries(5, 3);
    assert!(should_snapshot(&node));
    node.log.compact(3, 1);
    node.snapshot = Some(Snapshot::new(SnapshotMeta::new(3, 1), vec![1]));
    assert!(!should_snapshot(&node));
    node.last_applied = 6;
    assert!(should_snapshot(&node));
}

#[test]
fn on_snapshot_taken_persists_before_trim() {
    let mut node = leader_with_entries(5, 3);
    let snap = Snapshot::new(SnapshotMeta::new(4, 1), b"sm".to_vec());
    let actions = on_snapshot_taken(&mut node, snap.clone());
    assert_eq!(actions, vec![ElectionAction::PersistSnapshot(snap.clone())]);
    // Prefix still present until persist is confirmed.
    assert_eq!(node.log.last_included_index(), 0);
    assert_eq!(node.log.start_index(), 1);

    let follow = on_snapshot_persisted(&mut node, snap.meta);
    assert!(follow.is_empty());
    assert_eq!(node.log.last_included_index(), 4);
    assert_eq!(node.log.start_index(), 5);
    assert_eq!(node.log.last_index(), 5);
}

#[test]
fn install_snapshot_rejects_offset_gap() {
    let mut node = RaftNode::new(2, vec![1, 3]);
    node.current_term = 1;
    let req = InstallSnapshotRequest {
        term: 1,
        leader_id: 1,
        last_included_index: 2,
        last_included_term: 1,
        offset: 5,
        data: b"nope".to_vec(),
        done: true,
    };
    let actions = handle_install_snapshot_request(&mut node, 1, req);
    assert!(
        !actions
            .iter()
            .any(|a| matches!(a, ElectionAction::ApplySnapshot(_))),
        "gap must not apply: {actions:?}"
    );
    assert!(node.pending_snapshot.is_none());
}

#[test]
fn install_snapshot_done_applies_and_persists() {
    let mut node = RaftNode::new(2, vec![1, 3]);
    node.current_term = 1;
    node.log.append(LogEntry::new(1, 1, b"a".to_vec())).unwrap();
    let req = InstallSnapshotRequest {
        term: 1,
        leader_id: 1,
        last_included_index: 2,
        last_included_term: 1,
        offset: 0,
        data: b"full".to_vec(),
        done: true,
    };
    let actions = handle_install_snapshot_request(&mut node, 1, req);
    assert!(matches!(
        actions.as_slice(),
        [
            ElectionAction::PersistSnapshot(_),
            ElectionAction::ApplySnapshot(_),
            ElectionAction::Send { .. },
        ]
    ));
    assert_eq!(node.log.last_included_index(), 2);
    assert_eq!(node.last_applied, 2);
}

#[test]
fn install_over_conflicting_log_persists_truncate_after_snapshot() {
    let mut node = RaftNode::new(2, vec![1, 3]);
    node.current_term = 3;
    for entry in [
        LogEntry::new(1, 1, b"a".to_vec()),
        LogEntry::new(2, 2, b"stale".to_vec()),
        LogEntry::new(3, 2, b"stale".to_vec()),
    ] {
        node.log.append(entry).unwrap();
    }
    let req = InstallSnapshotRequest {
        term: 3,
        leader_id: 1,
        last_included_index: 2,
        last_included_term: 3,
        offset: 0,
        data: b"full".to_vec(),
        done: true,
    };

    let actions = handle_install_snapshot_request(&mut node, 1, req);

    // Snapshot first, then the durable discard, then apply and ack.
    assert!(
        matches!(
            actions.as_slice(),
            [
                ElectionAction::PersistSnapshot(_),
                ElectionAction::PersistLog {
                    truncate_from: Some(2),
                    entries,
                },
                ElectionAction::ApplySnapshot(_),
                ElectionAction::Send { .. },
            ] if entries.is_empty()
        ),
        "got {actions:?}"
    );
    assert_eq!(node.log.last_index(), 2);
}

#[test]
fn chunks_that_come_twice_or_astray_install_what_was_sent() {
    let chunk = |offset: u64, data: &[u8], done: bool| InstallSnapshotRequest {
        term: 1,
        leader_id: 1,
        last_included_index: 2,
        last_included_term: 1,
        offset,
        data: data.to_vec(),
        done,
    };
    let mut node = RaftNode::new(2, vec![1, 3]);
    node.current_term = 1;
    let mut persisted = Vec::new();
    let mut installed = Vec::new();
    for request in [
        chunk(4, b"efgh", false), // before the first
        chunk(0, b"abcd", false),
        chunk(0, b"abcd", false), // again
        chunk(8, b"ij", true),    // too early
        chunk(4, b"efgh", false),
        chunk(4, b"efgh", false), // again
        chunk(8, b"ij", true),
        chunk(8, b"ij", true), // again
        chunk(0, b"abcd", false),
    ] {
        for action in handle_install_snapshot_request(&mut node, 1, request) {
            assert_eq!(action.clone(), action);
            match action {
                ElectionAction::PersistSnapshot(s) => persisted.push(s),
                ElectionAction::ApplySnapshot(s) => installed.push(s),
                _ => {}
            }
        }
    }
    let whole = Snapshot::new(SnapshotMeta::new(2, 1), b"abcdefghij".to_vec());
    assert_eq!(persisted, vec![whole.clone()]);
    assert_eq!(installed, vec![whole]);
    assert_eq!(node.last_applied, 2);
    assert_eq!(node.log.last_included_index(), 2);
}

/// A leader of term 2 that has compacted to 2, holds entry 3, and has heard
/// nothing of member 2.
fn compacted_leader() -> RaftNode {
    let mut node = RaftNode::new(1, vec![2, 3]);
    node.state = RaftState::Leader;
    node.current_term = 2;
    node.leader_id = Some(1);
    for index in 1..=3 {
        node.log.append(LogEntry::new(index, 2, vec![index as u8])).unwrap();
    }
    node.commit_index = 3;
    node.last_applied = 2;
    let snapshot = Snapshot::new(SnapshotMeta::new(2, 2), b"sm".to_vec());
    on_snapshot_taken(&mut node, snapshot);
    on_snapshot_persisted(&mut node, SnapshotMeta::new(2, 2));
    assert_eq!(node.log.last_included_index(), 2);
    node.last_applied = 3;
    node.next_index.insert(2, 1);
    node.next_index.insert(3, 4);
    node
}

#[test]
fn every_broadcast_sends_the_snapshot_to_a_member_behind_it() {
    let beat = {
        let mut node = compacted_leader();
        node.heartbeat_ticks = 1;
        node.step(Input::Tick)
    };
    let command = compacted_leader().step(Input::ClientCommand(b"x".to_vec()));
    for outputs in [beat, command] {
        let sent: Vec<(u64, RaftRpc)> = outputs
            .into_iter()
            .filter_map(|output| match output {
                Output::Send { to, rpc } => Some((to, rpc)),
                _ => None,
            })
            .collect();
        assert_eq!(sent.len(), 2);
        assert!(
            matches!(
                &sent[0],
                (2, RaftRpc::InstallSnapshot(m)) if m.last_included_index == 2
                    && m.last_included_term == 2
                    && m.data == b"sm"
                    && m.done
            ),
            "{sent:?}"
        );
        // A member that is up to date gets entries.
        assert!(matches!(
            &sent[1],
            (3, RaftRpc::AppendEntries(m)) if m.prev_log_index == 3 && m.prev_log_term == 2
        ));
    }
}

#[test]
fn append_entries_never_starts_before_the_log_does() {
    let node = compacted_leader();
    match send_append_entries(&node, 2) {
        ElectionAction::Send { to: 2, rpc: RaftRpc::AppendEntries(m) } => {
            assert_eq!((m.prev_log_index, m.prev_log_term), (2, 2));
            assert_eq!(m.entries.len(), 1);
            assert_eq!(m.entries[0].index, 3);
        }
        other => panic!("{other:?}"),
    }
}

#[test]
fn a_stale_log_is_not_mixed_with_a_compacted_leaders_entries() {
    let mut leader = compacted_leader();
    leader.heartbeat_ticks = 1;
    let mut stale = RaftNode::new(2, vec![1, 3]);
    stale.current_term = 1;
    for index in 1..=3 {
        stale.log.append(LogEntry::new(index, 1, b"stale".to_vec())).unwrap();
    }
    let mut applied = Vec::new();
    let mut installed = Vec::new();
    for output in leader.step(Input::Tick) {
        if let Output::Send { to: 2, rpc } = output {
            for effect in stale.step(Input::Message { from: 1, rpc }) {
                match effect {
                    Output::Apply(entry) => applied.push(entry),
                    Output::ApplySnapshot(snapshot) => installed.push(snapshot.data),
                    _ => {}
                }
            }
        }
    }
    assert!(applied.is_empty());
    assert_eq!(installed, vec![b"sm".to_vec()]);
    assert_eq!(stale.log.last_index(), 2);
    assert!(stale.log.contains(2, 2));
    assert_eq!(stale.commit_index, 2);
}
