//! Rebuilding a log.

use ferrite::error::StorageError;
use ferrite::raft::storage::{replay, LogOp};
use ferrite::raft::{LogEntry, SnapshotMeta};

fn entry(index: u64, term: u64) -> LogEntry {
    LogEntry::new(index, term, format!("c{index}").into_bytes())
}

#[test]
fn replay_plain_appends() {
    let ops = vec![
        LogOp::Append(entry(1, 1)),
        LogOp::Append(entry(2, 1)),
        LogOp::Append(entry(3, 1)),
    ];
    let log = replay(&ops, None).unwrap();
    assert_eq!(log.last_index(), 3);
}

#[test]
fn replay_conflict_truncate_then_new_entries() {
    let ops = vec![
        LogOp::Append(entry(1, 1)),
        LogOp::Append(entry(2, 1)),
        LogOp::Append(entry(3, 1)),
        LogOp::TruncateFrom(2),
        LogOp::Append(entry(2, 2)),
        LogOp::Append(entry(3, 2)),
    ];
    let log = replay(&ops, None).unwrap();
    assert_eq!(log.last_index(), 3);
    assert_eq!(log.term_at(2), Ok(2));
    assert_eq!(log.term_at(3), Ok(2));
}

#[test]
fn replay_snapshot_boundary_match_keeps_tail() {
    let snap = SnapshotMeta::new(3, 1);
    let ops = vec![
        LogOp::Append(entry(1, 1)),
        LogOp::Append(entry(2, 1)),
        LogOp::Append(entry(3, 1)),
        LogOp::Append(entry(4, 1)),
    ];
    let log = replay(&ops, Some(&snap)).unwrap();
    assert_eq!(log.last_included_index(), 3);
    assert_eq!(log.last_index(), 4);
}

#[test]
fn replay_snapshot_boundary_conflict_drops_tail() {
    let snap = SnapshotMeta::new(3, 2); // different term
    let ops = vec![
        LogOp::Append(entry(1, 1)),
        LogOp::Append(entry(2, 1)),
        LogOp::Append(entry(3, 1)), // term 1, but snap says term 2
        LogOp::Append(entry(4, 1)),
    ];
    let log = replay(&ops, Some(&snap)).unwrap();
    assert_eq!(log.last_included_index(), 3);
    assert_eq!(log.last_index(), 3); // stale tail dropped
}

#[test]
fn replay_gap_is_corruption() {
    let ops = vec![
        LogOp::Append(entry(1, 1)),
        LogOp::Append(entry(3, 1)), // gap: missing index 2
    ];
    let result = replay(&ops, None);
    assert!(matches!(result, Err(StorageError::Corruption { .. })));
}
