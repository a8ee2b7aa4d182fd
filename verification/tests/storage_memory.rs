//! In-memory storage.

use ferrite::raft::storage::{HardState, LogOp, MemoryStorage, Storage, WriteBatch};
use ferrite::raft::{LogEntry, Snapshot, SnapshotMeta};

fn entry(index: u64) -> LogEntry {
    LogEntry::new(index, 1, format!("c{index}").into_bytes())
}

fn batch_append(entries: impl IntoIterator<Item = LogEntry>) -> WriteBatch {
    WriteBatch {
        hard_state: None,
        log: entries.into_iter().map(LogOp::Append).collect(),
        snapshot: None,
    }
}

#[test]
fn empty_batch_is_noop_and_no_sync() {
    let mut s = MemoryStorage::default();
    s.commit(&WriteBatch::default()).unwrap();
    assert_eq!(s.sync_count(), 0);
}

#[test]
fn commit_then_recover_returns_same_entries() {
    let mut s = MemoryStorage::default();
    s.commit(&batch_append([entry(1), entry(2), entry(3)]))
        .unwrap();
    let r = s.recover().unwrap();
    assert_eq!(r.log.last_index(), 3);
    assert_eq!(r.hard_state.current_term, 0);
    assert!(r.snapshot.is_none());
}

#[test]
fn hard_state_survives_recover() {
    let mut s = MemoryStorage::default();
    let hs = HardState {
        current_term: 5,
        voted_for: Some(2),
    };
    s.commit(&WriteBatch {
        hard_state: Some(hs.clone()),
        log: vec![],
        snapshot: None,
    })
    .unwrap();
    let r = s.recover().unwrap();
    assert_eq!(r.hard_state, hs);
}

#[test]
fn snapshot_survives_recover() {
    let mut s = MemoryStorage::default();
    let snap = Snapshot::new(SnapshotMeta::new(3, 1), b"sm".to_vec());
    s.commit(&WriteBatch {
        hard_state: None,
        log: vec![],
        snapshot: Some(snap.clone()),
    })
    .unwrap();
    let r = s.recover().unwrap();
    assert_eq!(r.snapshot, Some(snap));
    assert_eq!(r.log.last_included_index(), 3);
}

#[test]
fn sync_count_increments_once_per_non_empty_batch() {
    let mut s = MemoryStorage::default();
    s.commit(&batch_append([entry(1)])).unwrap();
    s.commit(&batch_append([entry(2)])).unwrap();
    assert_eq!(s.sync_count(), 2);
}

#[test]
fn byte_corruption_in_non_final_record_returns_corruption_error() {
    let mut s = MemoryStorage::default();
    s.commit(&batch_append([entry(1), entry(2)])).unwrap();
    // Flip a byte inside the first record's payload (offset 9 = kind + first byte).
    s.log_bytes_mut()[9] ^= 0xFF;
    let result = s.recover();
    assert!(result.is_err());
}

#[test]
fn commit_failure_injected() {
    let mut s = MemoryStorage::default();
    s.fail_next_commits(1);
    s.commit(&batch_append([entry(1), entry(2), entry(3)]))
        .unwrap_err();
    assert_eq!(s.sync_count(), 0);
    // Subsequent commit succeeds after the injected failure is consumed.
    s.commit(&batch_append([entry(1)])).unwrap();
    assert_eq!(s.sync_count(), 1);
}
