//! The Raft log.

use ferrite::raft::log::{AppendOutcome, LogIndexError, LogLookupError};
use ferrite::raft::{LogEntry, RaftLog};

fn entry(index: u64, term: u64, command: &[u8]) -> LogEntry {
    LogEntry::new(index, term, command.to_vec())
}

#[test]
fn empty_log_has_a_valid_empty_prefix() {
    let log = RaftLog::new();

    assert_eq!(log.last_index(), 0);
    assert_eq!(log.last_term(), 0);
    assert_eq!(log.next_index(), 1);
    assert!(log.contains(0, 0));
    assert_eq!(
        log.entry(0),
        Err(LogLookupError::OutOfRange {
            requested: 0,
            last_index: 0,
        })
    );
}

#[test]
fn out_of_range_lookup_reports_the_last_index() {
    let mut log = RaftLog::new();
    log.append(entry(1, 1, b"one")).unwrap();

    assert_eq!(
        log.entry(5),
        Err(LogLookupError::OutOfRange {
            requested: 5,
            last_index: 1,
        })
    );
    assert_eq!(
        log.term_at(5),
        Err(LogLookupError::OutOfRange {
            requested: 5,
            last_index: 1,
        })
    );
}

#[test]
fn compacted_lookup_reports_the_start_index() {
    let mut log = RaftLog::new();
    for item in [
        entry(1, 1, b"one"),
        entry(2, 1, b"two"),
        entry(3, 2, b"three"),
    ] {
        log.append(item).unwrap();
    }

    log.compact(2, 1);

    assert_eq!(log.start_index(), 3);
    assert_eq!(log.last_index(), 3);
    assert_eq!(log.entries_from(1), vec![entry(3, 2, b"three")]);
    assert_eq!(
        log.entry(2),
        Err(LogLookupError::CompactedAway {
            requested: 2,
            start_index: 3,
        })
    );
    assert_eq!(
        log.term_at(1),
        Err(LogLookupError::CompactedAway {
            requested: 1,
            start_index: 3,
        })
    );
    assert_eq!(log.entry(3).unwrap().command, b"three");
}

#[test]
fn append_rejects_gaps_and_duplicate_indexes() {
    let mut log = RaftLog::new();

    assert_eq!(
        log.append(entry(2, 1, b"gap")),
        Err(LogIndexError {
            expected: 1,
            actual: 2,
        })
    );
    log.append(entry(1, 1, b"one")).unwrap();
    assert_eq!(
        log.append(entry(1, 1, b"duplicate")),
        Err(LogIndexError {
            expected: 2,
            actual: 1,
        })
    );
}

#[test]
fn shorter_follower_appends_missing_leader_suffix() {
    let mut log = RaftLog::new();
    log.append(entry(1, 1, b"one")).unwrap();

    let outcome = log
        .append_from_leader(&[entry(2, 1, b"two"), entry(3, 2, b"three")])
        .unwrap();

    // Pure append: nothing local was removed.
    assert_eq!(
        outcome,
        AppendOutcome {
            truncated_from: None,
            appended: vec![entry(2, 1, b"two"), entry(3, 2, b"three")],
        }
    );
    assert_eq!(log.last_index(), 3);
    assert_eq!(log.last_term(), 2);
    assert_eq!(
        log.entries_from(1),
        vec![
            entry(1, 1, b"one"),
            entry(2, 1, b"two"),
            entry(3, 2, b"three")
        ]
    );
}

#[test]
fn term_conflict_replaces_the_local_suffix() {
    let mut log = RaftLog::new();
    for item in [
        entry(1, 1, b"one"),
        entry(2, 1, b"two"),
        entry(3, 2, b"old"),
    ] {
        log.append(item).unwrap();
    }

    let outcome = log
        .append_from_leader(&[
            entry(2, 1, b"two"),
            entry(3, 3, b"new"),
            entry(4, 3, b"four"),
        ])
        .unwrap();

    // The matching entry 2 is skipped; the conflict at 3 truncates.
    assert_eq!(
        outcome,
        AppendOutcome {
            truncated_from: Some(3),
            appended: vec![entry(3, 3, b"new"), entry(4, 3, b"four")],
        }
    );

    assert_eq!(
        log.entries_from(1),
        vec![
            entry(1, 1, b"one"),
            entry(2, 1, b"two"),
            entry(3, 3, b"new"),
            entry(4, 3, b"four")
        ]
    );
}

#[test]
fn invalid_leader_batch_does_not_mutate_the_log() {
    let mut log = RaftLog::new();
    log.append(entry(1, 1, b"one")).unwrap();

    assert_eq!(
        log.append_from_leader(&[entry(2, 2, b"two"), entry(4, 2, b"gap")]),
        Err(LogIndexError {
            expected: 3,
            actual: 4,
        })
    );
    assert_eq!(log.entries_from(1), vec![entry(1, 1, b"one")]);
}

#[test]
fn truncate_below_the_start_index_is_rejected() {
    let mut log = RaftLog::new();
    for item in [
        entry(1, 1, b"one"),
        entry(2, 1, b"two"),
        entry(3, 2, b"three"),
    ] {
        log.append(item).unwrap();
    }
    log.compact(2, 1);

    assert_eq!(
        log.truncate_from(1),
        Err(LogIndexError {
            expected: 3,
            actual: 1,
        })
    );
    assert_eq!(log.last_index(), 3);
    assert_eq!(log.entry(3).unwrap().command, b"three");
}

#[test]
fn truncate_from_the_zero_sentinel_is_rejected() {
    let mut log = RaftLog::new();
    log.append(entry(1, 1, b"one")).unwrap();

    assert_eq!(
        log.truncate_from(0),
        Err(LogIndexError {
            expected: 1,
            actual: 0,
        })
    );
    assert_eq!(log.entries_from(1), vec![entry(1, 1, b"one")]);
}

#[test]
fn leader_batch_below_the_start_index_does_not_wipe_the_log() {
    let mut log = RaftLog::new();
    for item in [
        entry(1, 1, b"one"),
        entry(2, 1, b"two"),
        entry(3, 2, b"three"),
    ] {
        log.append(item).unwrap();
    }
    log.compact(2, 1);

    assert_eq!(
        log.append_from_leader(&[entry(1, 9, b"stale")]),
        Err(LogIndexError {
            expected: 3,
            actual: 1,
        })
    );
    assert_eq!(log.last_index(), 3);
    assert_eq!(log.entry(3).unwrap().command, b"three");
}

#[test]
fn compacted_boundary_exposes_last_included_term() {
    let mut log = RaftLog::new();
    for item in [
        entry(1, 1, b"one"),
        entry(2, 2, b"two"),
        entry(3, 2, b"three"),
    ] {
        log.append(item).unwrap();
    }
    log.compact(2, 2);

    assert_eq!(log.last_included_index(), 2);
    assert_eq!(log.last_included_term(), 2);
    assert_eq!(log.start_index(), 3);
    assert_eq!(log.term_at(2), Ok(2));
    assert_eq!(log.last_term(), 2);
    assert!(log.contains(2, 2));
}

#[test]
fn fully_compacted_log_reports_included_term_as_last_term() {
    let mut log = RaftLog::new();
    log.append(entry(1, 4, b"one")).unwrap();
    log.append(entry(2, 5, b"two")).unwrap();
    log.compact(2, 5);

    assert_eq!(log.start_index(), 3);
    assert_eq!(log.last_index(), 2);
    assert_eq!(log.last_term(), 5);
    assert_eq!(log.term_at(2), Ok(5));
}

#[test]
fn install_snapshot_keeps_matching_suffix() {
    let mut log = RaftLog::new();
    for item in [
        entry(1, 1, b"one"),
        entry(2, 1, b"two"),
        entry(3, 2, b"three"),
        entry(4, 2, b"four"),
    ] {
        log.append(item).unwrap();
    }

    log.install_snapshot(2, 1);
    assert_eq!(log.start_index(), 3);
    assert_eq!(
        log.entries_from(1),
        vec![entry(3, 2, b"three"), entry(4, 2, b"four")]
    );
}

#[test]
fn install_snapshot_discards_conflicting_log() {
    let mut log = RaftLog::new();
    for item in [
        entry(1, 1, b"one"),
        entry(2, 9, b"conflict"),
        entry(3, 9, b"tail"),
    ] {
        log.append(item).unwrap();
    }

    log.install_snapshot(2, 1);
    assert_eq!(log.start_index(), 3);
    assert_eq!(log.last_included_term(), 1);
    assert_eq!(log.last_index(), 2);
    assert!(log.entry(3).is_err());
}
