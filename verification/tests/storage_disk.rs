//! Segment-file storage, on files kept in memory.

use std::collections::BTreeMap;

use ferrite::error::StorageError;
use ferrite::raft::storage::disk::{
    load_order, parse_segment_name, recover_from, segment_file_name, DiskAction,
};
use ferrite::raft::storage::{
    record, DiskStorage, HardState, LogOp, MemoryStorage, Recovered, Storage, WriteBatch,
};
use ferrite::raft::{LogEntry, Snapshot, SnapshotMeta};

/// The files of a data directory.
#[derive(Clone, Default)]
struct Files {
    hard_state: Option<Vec<u8>>,
    snapshot: Option<Vec<u8>>,
    log: BTreeMap<String, Vec<u8>>,
}

/// A backend that carries its steps out on files in memory.
struct Backend {
    state: DiskStorage,
}

impl Backend {
    fn open(files: &mut Files) -> Result<Backend, StorageError> {
        let mut state = DiskStorage::new("data".to_owned());
        let found: Vec<u64> = files
            .log
            .keys()
            .rev()
            .filter_map(|name| parse_segment_name(name))
            .collect();
        let seqs = load_order(found);
        let last = seqs.last().copied();
        for seq in seqs {
            let bytes = files.log.get_mut(&segment_file_name(seq)).unwrap();
            if let Some(len) = state.load_segment(seq, bytes, Some(seq) == last)? {
                bytes.truncate(len);
            }
        }
        Ok(Backend { state })
    }

    fn set_rotate_threshold(&mut self, bytes: u64) {
        self.state.set_rotate_threshold(bytes);
    }

    fn commit(&mut self, files: &mut Files, batch: &WriteBatch) {
        self.commit_some(files, batch, usize::MAX);
    }

    /// Carries out the first `limit` steps of a commit, and returns how many
    /// there were.
    fn commit_some(&mut self, files: &mut Files, batch: &WriteBatch, limit: usize) -> usize {
        let steps = self.state.plan_commit(batch);
        let done = steps.len().min(limit);
        for step in steps.into_iter().take(limit) {
            match &step {
                DiskAction::WriteSnapshot { bytes } => files.snapshot = Some(bytes.clone()),
                DiskAction::WriteHardState { bytes } => files.hard_state = Some(bytes.clone()),
                DiskAction::RemoveSegment { seq } => {
                    assert!(files.log.remove(&segment_file_name(*seq)).is_some());
                }
                DiskAction::OpenSegment { seq } => {
                    let name = segment_file_name(*seq);
                    assert!(files.log.insert(name, Vec::new()).is_none());
                }
                DiskAction::AppendRecord { seq, bytes, .. } => files
                    .log
                    .get_mut(&segment_file_name(*seq))
                    .unwrap()
                    .extend_from_slice(bytes),
                DiskAction::Rotate { .. } | DiskAction::SyncSegment { .. } => {}
            }
            self.state.completed(&step);
        }
        done
    }

    fn recover(&self, files: &Files) -> Result<Recovered, StorageError> {
        let segments = self
            .state
            .segments_to_read()
            .into_iter()
            .map(|seq| files.log[&segment_file_name(seq)].clone())
            .collect();
        recover_from(&files.hard_state, &files.snapshot, &segments)
    }
}

fn open(files: &mut Files) -> Backend {
    Backend::open(files).expect("open DiskStorage")
}

fn entry(index: u64) -> LogEntry {
    LogEntry::new(index, 1, format!("cmd{index}").into_bytes())
}

fn append_batch(entries: impl IntoIterator<Item = LogEntry>) -> WriteBatch {
    WriteBatch {
        hard_state: None,
        log: entries.into_iter().map(LogOp::Append).collect(),
        snapshot: None,
    }
}

// ── snapshot + GC + reopen ────────────────────────────────────────────────

#[test]
fn snapshot_gc_and_reopen_returns_same_state() {
    let mut files = Files::default();
    let mut s = open(&mut files);
    s.set_rotate_threshold(256); // small threshold to force rotation

    // Write entries 1-5 across multiple segments.
    for i in 1u64..=5 {
        s.commit(&mut files, &append_batch([entry(i)]));
    }

    // Snapshot covering up to index 3; this should GC the segments for 1-3.
    let snap = Snapshot::new(SnapshotMeta::new(3, 1), b"sm-state".to_vec());
    s.commit(&mut files, &WriteBatch {
        snapshot: Some(snap.clone()),
        log: vec![],
        hard_state: None,
    });

    // Reopen to simulate a restart.
    let s2 = open(&mut files);
    let r = s2.recover(&files).unwrap();

    assert_eq!(
        r.log.last_included_index(),
        3,
        "snapshot boundary must be 3"
    );
    // Entries above the snapshot must still be present.
    assert!(r.log.last_index() >= 4, "entries 4 and 5 must survive GC");
    assert_eq!(r.snapshot, Some(snap), "recovered snapshot must match");
}

// ── GC differential vs the no-GC memory backend ───────────────────────────

/// `MemoryStorage` never discards log records, so its `recover()` is the
/// oracle for what segment GC must preserve. Any divergence is a GC bug.
#[test]
fn disk_gc_never_diverges_from_memory_backend() {
    let mut checked = 0u32;
    for old_len in 2u64..=6 {
        for trunc in 1..=old_len {
            for new_len in 0u64..=3 {
                let final_last = trunc - 1 + new_len;
                if final_last == 0 {
                    continue;
                }
                // Old branch (term 1), then a conflict truncate, then a new
                // branch at term 2: the old branch must not come back.
                let mut ops: Vec<LogOp> = (1..=old_len)
                    .map(|i| LogOp::Append(LogEntry::new(i, 1, vec![b'o'])))
                    .collect();
                ops.push(LogOp::TruncateFrom(trunc));
                for k in 0..new_len {
                    ops.push(LogOp::Append(LogEntry::new(trunc + k, 2, vec![b'n'])));
                }

                for snap_idx in 1..=final_last {
                    let snap_term = if snap_idx >= trunc { 2 } else { 1 };
                    let snap =
                        Snapshot::new(SnapshotMeta::new(snap_idx, snap_term), b"sm".to_vec());

                    let mut files = Files::default();
                    let mut disk = open(&mut files);
                    disk.set_rotate_threshold(1); // one op per segment
                    let mut mem = MemoryStorage::default();

                    // Same batch sequence into both backends.
                    for op in &ops {
                        let b = WriteBatch {
                            hard_state: None,
                            log: vec![op.clone()],
                            snapshot: None,
                        };
                        disk.commit(&mut files, &b);
                        mem.commit(&b).unwrap();
                    }
                    let snap_batch = WriteBatch {
                        hard_state: None,
                        log: vec![],
                        snapshot: Some(snap.clone()),
                    };
                    disk.commit(&mut files, &snap_batch);
                    mem.commit(&snap_batch).unwrap();

                    // Reopen disk to force a full segment rescan (a real restart).
                    let disk2 = open(&mut files);
                    let got = disk2.recover(&files).unwrap();
                    let want = mem.recover().unwrap();

                    assert_eq!(
                        got, want,
                        "GC diverged: old_len={old_len} trunc={trunc} \
                         new_len={new_len} snap_idx={snap_idx}"
                    );
                    checked += 1;
                }
            }
        }
    }
    assert!(checked > 100, "expected a meaningful number of cases");
}

/// A snapshot whose term conflicts with the local entry at that index (the
/// follower InstallSnapshot case) must not resurrect the superseded branch,
/// even with no accompanying `TruncateFrom` in the stream.
///
/// Regression: GC used to delete the segment holding the entry *at* the
/// boundary, so `replay` saw `None` there, concluded "already compacted",
/// and kept a tail belonging to the branch the snapshot replaced.
#[test]
fn conflicting_snapshot_does_not_resurrect_superseded_branch() {
    let ops: Vec<LogOp> = (1..=5)
        .map(|i| LogOp::Append(LogEntry::new(i, 1, vec![b'o'])))
        .collect();
    // Snapshot at index 4 but term 9 — conflicts with the local 4@term1.
    let snap = Snapshot::new(SnapshotMeta::new(4, 9), b"sm".to_vec());

    let mut files = Files::default();
    let mut disk = open(&mut files);
    disk.set_rotate_threshold(1);
    let mut mem = MemoryStorage::default();

    for op in &ops {
        let b = WriteBatch {
            hard_state: None,
            log: vec![op.clone()],
            snapshot: None,
        };
        disk.commit(&mut files, &b);
        mem.commit(&b).unwrap();
    }
    let sb = WriteBatch {
        hard_state: None,
        log: vec![],
        snapshot: Some(snap),
    };
    disk.commit(&mut files, &sb);
    mem.commit(&sb).unwrap();

    let disk2 = open(&mut files);
    let got = disk2.recover(&files).unwrap();
    let want = mem.recover().unwrap();
    assert_eq!(
        got.log.last_index(),
        want.log.last_index(),
        "disk last_index={} but memory oracle says {}",
        got.log.last_index(),
        want.log.last_index()
    );
}

// ── hard state atomicity ──────────────────────────────────────────────────

#[test]
fn hard_state_persists_and_recovers() {
    let mut files = Files::default();
    let mut s = open(&mut files);
    let hs = HardState {
        current_term: 7,
        voted_for: Some(2),
    };
    s.commit(&mut files, &WriteBatch {
        hard_state: Some(hs.clone()),
        log: vec![],
        snapshot: None,
    });

    let s2 = open(&mut files);
    let r = s2.recover(&files).unwrap();
    assert_eq!(r.hard_state, hs);
}

#[test]
fn truncate_then_snapshot_gc_does_not_resurrect_suffix() {
    let mut files = Files::default();
    let mut s = open(&mut files);
    s.set_rotate_threshold(64);

    // Branch A: entries 1..4 term 1 across segments.
    for i in 1u64..=4 {
        s.commit(&mut files, &WriteBatch {
            hard_state: None,
            log: vec![LogOp::Append(LogEntry::new(
                i,
                1,
                format!("a{i}").into_bytes(),
            ))],
            snapshot: None,
        });
    }
    // Conflict truncate + new branch at index 3 term 2.
    s.commit(&mut files, &WriteBatch {
        hard_state: None,
        log: vec![
            LogOp::TruncateFrom(3),
            LogOp::Append(LogEntry::new(3, 2, b"b3".to_vec())),
            LogOp::Append(LogEntry::new(4, 2, b"b4".to_vec())),
        ],
        snapshot: None,
    });

    // Snapshot covering up to 4 on the new branch.
    let snap = Snapshot::new(SnapshotMeta::new(4, 2), b"sm".to_vec());
    s.commit(&mut files, &WriteBatch {
        hard_state: None,
        log: vec![],
        snapshot: Some(snap.clone()),
    });

    let r = open(&mut files).recover(&files).unwrap();
    assert_eq!(r.snapshot.as_ref().map(|s| s.meta.clone()), Some(snap.meta));
    assert_eq!(r.log.last_included_index(), 4);
    assert_eq!(r.log.last_included_term(), 2);
    // Must not resurrect pre-truncate term-1 entries above the boundary.
    assert_eq!(r.log.last_index(), 4);
    assert!(
        r.log.entry(5).is_err(),
        "no resurrected suffix after truncate+snapshot GC"
    );
}

#[test]
fn truncate_from_is_durable_across_reopen() {
    let mut files = Files::default();
    let mut s = open(&mut files);
    s.commit(&mut files, &append_batch([entry(1), entry(2), entry(3)]));
    s.commit(&mut files, &WriteBatch {
        hard_state: None,
        log: vec![
            LogOp::TruncateFrom(2),
            LogOp::Append(LogEntry::new(2, 2, b"new".to_vec())),
        ],
        snapshot: None,
    });

    let r = open(&mut files).recover(&files).unwrap();
    assert_eq!(r.log.last_index(), 2);
    assert_eq!(r.log.term_at(2).unwrap(), 2);
}

#[test]
fn torn_tail_at_every_byte_returns_clean_prefix() {
    let mut files = Files::default();
    let mut s = open(&mut files);
    // Write entry 1 (will be complete), then entry 2 (will be partially written).
    s.commit(&mut files, &append_batch([entry(1), entry(2)]));
    assert_eq!(files.log.len(), 1);
    let name = files.log.keys().next().unwrap().clone();

    let full_bytes = files.log[&name].clone();
    // Encode just entry(1) to find where it ends.
    let mut first_only = Vec::new();
    record::encode(&LogOp::Append(entry(1)), &mut first_only).unwrap();
    let first_end = first_only.len();

    // Cutting anywhere inside the second record yields only entry 1 on reopen.
    for cut in first_end..full_bytes.len() {
        files.log.insert(name.clone(), full_bytes[..cut].to_vec());
        let s2 = open(&mut files);
        let r = s2.recover(&files).unwrap();
        assert_eq!(r.log.last_index(), 1, "cut at {cut}: expected last_index=1");
        assert_eq!(files.log[&name].len(), first_end);
    }
}

#[test]
fn corruption_in_non_final_record_of_last_segment_errors_on_open() {
    let mut files = Files::default();
    let mut s = open(&mut files);
    s.commit(&mut files, &append_batch([entry(1), entry(2)]));

    // Flip a byte inside the first record's payload (offset 9 = kind + first byte).
    files.log.values_mut().next().unwrap()[9] ^= 0xFF;

    let result = Backend::open(&mut files);
    assert!(matches!(
        result.err(),
        Some(StorageError::Corruption {
            segment: None,
            offset: 0
        })
    ));
}

#[test]
fn torn_tail_before_the_last_segment_is_corruption() {
    let mut files = Files::default();
    let mut s = open(&mut files);
    s.set_rotate_threshold(1);
    s.commit(&mut files, &append_batch([entry(1), entry(2)]));
    assert_eq!(files.log.len(), 2);
    let first = files.log.values_mut().next().unwrap();
    first.truncate(20);

    let result = Backend::open(&mut files);
    assert!(matches!(
        result.err(),
        Some(StorageError::Corruption {
            segment: Some(1),
            offset: 0
        })
    ));
}

#[test]
fn segment_rotation_and_full_recovery() {
    let mut files = Files::default();
    let mut s = open(&mut files);
    s.set_rotate_threshold(128); // force frequent rotation

    // Write 15 entries; each ~50+ bytes, so we get multiple segments.
    for i in 1u64..=15 {
        s.commit(&mut files, &append_batch([entry(i)]));
    }

    let seg_count = files.log.len();
    assert!(seg_count > 1, "expected multiple segments, got {seg_count}");

    let s2 = open(&mut files);
    let r = s2.recover(&files).unwrap();
    assert_eq!(r.log.last_index(), 15, "all entries must be recovered");
}

#[test]
fn a_segment_number_is_not_used_again_after_an_empty_last_segment() {
    // A crash between the opening of a segment and its first record.
    let mut files = Files::default();
    let mut s = open(&mut files);
    s.set_rotate_threshold(1);
    s.commit(&mut files, &append_batch([entry(1)]));
    s.commit_some(&mut files, &append_batch([entry(2)]), 2);
    assert_eq!(files.log.len(), 2);
    assert!(files.log[&segment_file_name(2)].is_empty());

    // A record larger than the threshold goes to a segment of its own.
    let mut s = open(&mut files);
    s.set_rotate_threshold(1);
    assert_eq!(s.state.next_seq(), 3);
    s.commit(&mut files, &append_batch([entry(2)]));
    s.commit(&mut files, &append_batch([entry(3)]));
    let names: Vec<_> = files.log.keys().cloned().collect();
    let mut sorted = names.clone();
    sorted.dedup();
    assert_eq!(names, sorted);
    assert_eq!(s.recover(&files).unwrap().log.last_index(), 3);

    let again = open(&mut files);
    let r = again.recover(&files).unwrap();
    assert_eq!(r.log.last_index(), 3);
    assert_eq!(r.log.entry(2).unwrap(), &entry(2));
    assert_eq!(r.clone(), r);
}

#[test]
fn a_batch_is_written_in_fixed_order_with_its_syncs() {
    let mut files = Files::default();
    let mut s = open(&mut files);
    s.set_rotate_threshold(1);
    s.commit(&mut files, &append_batch([entry(1), entry(2)]));
    // One sync for the full segment, one for the last.
    assert_eq!(s.state.sync_count(), 2);

    let batch = WriteBatch {
        hard_state: Some(HardState {
            current_term: 1,
            voted_for: None,
        }),
        log: vec![LogOp::Append(entry(3))],
        snapshot: Some(Snapshot::new(SnapshotMeta::new(2, 1), b"sm".to_vec())),
    };
    let steps = s.state.plan_commit(&batch);
    assert!(matches!(steps[0], DiskAction::WriteSnapshot { .. }));
    assert!(matches!(steps[1], DiskAction::RemoveSegment { seq: 1 }));
    assert!(matches!(steps[2], DiskAction::WriteHardState { .. }));
    assert!(matches!(steps[3], DiskAction::Rotate { seq: 2 }));
    assert!(matches!(steps[4], DiskAction::OpenSegment { seq: 3 }));
    assert!(matches!(steps[5], DiskAction::AppendRecord { seq: 3, touched: 3, .. }));
    assert!(matches!(steps[6], DiskAction::SyncSegment { seq: 3 }));
    assert_eq!(steps.len(), 7);
    assert!(s.state.plan_commit(&WriteBatch::default()).is_empty());
}

#[test]
fn segment_names_are_found_again() {
    assert_eq!(segment_file_name(7), "00000000000000000007.seg");
    assert_eq!(segment_file_name(u64::MAX), "18446744073709551615.seg");
    assert_eq!(parse_segment_name("00000000000000000007.seg"), Some(7));
    assert_eq!(parse_segment_name("18446744073709551615.seg"), Some(u64::MAX));
    assert_eq!(parse_segment_name("18446744073709551616.seg"), None);
    assert_eq!(parse_segment_name("7.tmp"), None);
    assert_eq!(parse_segment_name(".seg"), None);
    assert_eq!(parse_segment_name("seg"), None);
}

// ── a crash after any step ────────────────────────────────────────────────

#[test]
fn a_crash_after_any_step_leaves_what_was_done() {
    let mut files = Files::default();
    let mut s = open(&mut files);
    s.set_rotate_threshold(128);
    for i in 1u64..=6 {
        s.commit(&mut files, &append_batch([entry(i)]));
    }
    let before = s.recover(&files).unwrap();
    let snapshot = Snapshot::new(SnapshotMeta::new(4, 1), b"state".to_vec());
    let batch = WriteBatch {
        hard_state: Some(HardState { current_term: 9, voted_for: Some(2) }),
        log: vec![
            LogOp::TruncateFrom(6),
            LogOp::Append(LogEntry::new(6, 9, b"x".to_vec())),
            LogOp::Append(LogEntry::new(7, 9, b"y".to_vec())),
        ],
        snapshot: Some(snapshot.clone()),
    };
    let mut last = None;
    for limit in 0.. {
        let mut crashed = files.clone();
        let mut backend = open(&mut crashed);
        backend.set_rotate_threshold(128);
        let done = backend.commit_some(&mut crashed, &batch, limit);
        let reopened = open(&mut crashed);
        let r = reopened.recover(&crashed).unwrap();
        if limit == 0 {
            assert_eq!(r.log, before.log);
            assert_eq!(r.hard_state, before.hard_state);
            assert_eq!(r.snapshot, None);
        } else {
            // The snapshot is there first, then the election state, then the log.
            assert_eq!(r.snapshot, Some(snapshot.clone()));
            assert_eq!(r.log.last_included_index(), 4);
            if r.log.last_index() != 6 || r.log.last_term() == 9 {
                assert_eq!(r.hard_state.current_term, 9);
            }
        }
        if done < limit {
            last = Some(r);
            break;
        }
    }
    let last = last.unwrap();
    assert_eq!(last.hard_state, HardState { current_term: 9, voted_for: Some(2) });
    assert_eq!(last.log.last_index(), 7);
    assert_eq!(last.log.term_at(5).unwrap(), 1);
    assert_eq!(last.log.term_at(6).unwrap(), 9);
    assert_eq!(last.log.entry(7).unwrap().command, b"y");
}

#[test]
fn disk_and_memory_recover_the_same() {
    let mut files = Files::default();
    let mut disk = open(&mut files);
    disk.set_rotate_threshold(100);
    let mut memory = MemoryStorage::default();
    let batches = vec![
        append_batch((1..=4).map(entry)),
        WriteBatch {
            hard_state: Some(HardState { current_term: 2, voted_for: None }),
            log: vec![LogOp::TruncateFrom(3), LogOp::Append(LogEntry::new(3, 2, b"z".to_vec()))],
            snapshot: None,
        },
        WriteBatch {
            hard_state: None,
            log: vec![],
            snapshot: Some(Snapshot::new(SnapshotMeta::new(2, 1), b"s".to_vec())),
        },
        append_batch([LogEntry::new(4, 2, b"w".to_vec())]),
    ];
    for batch in &batches {
        disk.commit(&mut files, batch);
        memory.commit(batch).unwrap();
        let reopened = open(&mut files);
        let a = reopened.recover(&files).unwrap();
        let b = memory.recover().unwrap();
        assert_eq!(a.log, b.log);
        assert_eq!(a.hard_state, b.hard_state);
        assert_eq!(a.snapshot, b.snapshot);
    }
}

#[test]
fn segments_are_loaded_in_ascending_order() {
    assert_eq!(load_order(vec![]), Vec::<u64>::new());
    assert_eq!(load_order(vec![7]), vec![7]);
    assert_eq!(load_order(vec![3, 1, u64::MAX, 2, 3, 0]), vec![0, 1, 2, 3, 3, u64::MAX]);
}

/// A node is found again while its snapshot is written and its log not trimmed
/// yet, whatever it appends in between.
#[test]
fn a_restart_before_the_log_is_trimmed_finds_the_trimmed_log() {
    let mut files = Files::default();
    let mut s = open(&mut files);
    s.commit(&mut files, &append_batch((1..=4).map(entry)));
    let snapshot = Snapshot::new(SnapshotMeta::new(3, 1), b"sm".to_vec());
    s.commit(
        &mut files,
        &WriteBatch { hard_state: None, log: vec![], snapshot: Some(snapshot.clone()) },
    );
    s.commit(&mut files, &append_batch([entry(5)]));
    let r = open(&mut files).recover(&files).unwrap();
    assert_eq!(r.snapshot, Some(snapshot));
    assert_eq!(r.log.start_index(), 4);
    assert_eq!(r.log.last_index(), 5);
    assert_eq!(r.log.entry(5).unwrap(), &entry(5));
}
