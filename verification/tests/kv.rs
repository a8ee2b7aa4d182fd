//! The key-value state machine.

use ferrite::kv::idempotency;
use ferrite::kv::{CasOutcome, ClientRequest, Command, CommandResult, KvStateMachine};
use ferrite::raft::LogEntry;

/// An entry with no originating client, so it is never deduplicated.
fn entry(index: u64, command: Command) -> LogEntry {
    LogEntry::new(
        index,
        1,
        ClientRequest::internal(command).encode().expect("encode"),
    )
}

/// An entry issued by `client_id` as its `seq_num`-th request.
fn client_entry(index: u64, client_id: u64, seq_num: u64, command: Command) -> LogEntry {
    client_entry_in_term(index, 1, client_id, seq_num, command)
}

/// As [`client_entry`], but committed under an explicit leader term.
fn client_entry_in_term(
    index: u64,
    term: u64,
    client_id: u64,
    seq_num: u64,
    command: Command,
) -> LogEntry {
    LogEntry::new(
        index,
        term,
        ClientRequest::new(client_id, seq_num, command)
            .encode()
            .expect("encode"),
    )
}

#[test]
fn set_is_readable_after_apply() {
    let mut sm = KvStateMachine::new();
    let result = sm
        .apply(&entry(
            1,
            Command::Put {
                key: b"k".to_vec(),
                value: b"v".to_vec(),
            },
        ))
        .expect("apply");

    assert_eq!(
        result,
        CommandResult::Put {
            previous: None,
            version: 1,
        }
    );
    assert_eq!(sm.get(b"k"), Some(b"v".as_slice()));
    assert_eq!(sm.version(b"k"), Some(1));
}

#[test]
fn delete_on_absent_key_is_noop() {
    let mut sm = KvStateMachine::new();
    let result = sm
        .apply(&entry(
            1,
            Command::Delete {
                key: b"missing".to_vec(),
            },
        ))
        .expect("apply");

    assert_eq!(result, CommandResult::Delete { previous: None });
    assert!(sm.get(b"missing").is_none());
}

#[test]
fn cas_compares_versions_and_has_one_winner() {
    let mut sm = KvStateMachine::new();
    sm.apply_command(Command::Put {
        key: b"k".to_vec(),
        value: b"v1".to_vec(),
    })
    .expect("set");
    assert_eq!(sm.version(b"k"), Some(1));

    let first = sm
        .apply_command(Command::Cas {
            key: b"k".to_vec(),
            expected_version: Some(1),
            value: Some(b"v2".to_vec()),
        })
        .expect("cas 1");
    let second = sm
        .apply_command(Command::Cas {
            key: b"k".to_vec(),
            expected_version: Some(1),
            value: Some(b"v3".to_vec()),
        })
        .expect("cas 2");

    assert_eq!(
        first,
        CommandResult::Cas {
            outcome: CasOutcome::Applied {
                previous: Some(b"v1".to_vec()),
                version: Some(2),
            },
        }
    );
    assert_eq!(
        second,
        CommandResult::Cas {
            outcome: CasOutcome::Failed {
                actual_version: Some(2),
                actual_value: Some(b"v2".to_vec()),
            },
        }
    );
    assert_eq!(sm.get(b"k"), Some(b"v2".as_slice()));
    assert_eq!(sm.version(b"k"), Some(2));
}

#[test]
fn cas_create_if_absent_and_delete_if_matches() {
    let mut sm = KvStateMachine::new();

    let create = sm
        .apply_command(Command::Cas {
            key: b"k".to_vec(),
            expected_version: None,
            value: Some(b"created".to_vec()),
        })
        .expect("create");
    assert_eq!(
        create,
        CommandResult::Cas {
            outcome: CasOutcome::Applied {
                previous: None,
                version: Some(1),
            },
        }
    );
    assert_eq!(sm.get(b"k"), Some(b"created".as_slice()));
    assert_eq!(sm.version(b"k"), Some(1));

    let create_conflict = sm
        .apply_command(Command::Cas {
            key: b"k".to_vec(),
            expected_version: None,
            value: Some(b"other".to_vec()),
        })
        .expect("create conflict");
    assert_eq!(
        create_conflict,
        CommandResult::Cas {
            outcome: CasOutcome::Failed {
                actual_version: Some(1),
                actual_value: Some(b"created".to_vec()),
            },
        }
    );

    let delete = sm
        .apply_command(Command::Cas {
            key: b"k".to_vec(),
            expected_version: Some(1),
            value: None,
        })
        .expect("delete");
    assert_eq!(
        delete,
        CommandResult::Cas {
            outcome: CasOutcome::Applied {
                previous: Some(b"created".to_vec()),
                version: None,
            },
        }
    );
    assert!(sm.get(b"k").is_none());
    assert!(sm.version(b"k").is_none());
}

#[test]
fn snapshot_is_deterministic_across_machines() {
    let commands = [
        Command::Put {
            key: b"b".to_vec(),
            value: b"2".to_vec(),
        },
        Command::Put {
            key: b"a".to_vec(),
            value: b"1".to_vec(),
        },
        Command::Delete { key: b"b".to_vec() },
        Command::Cas {
            key: b"c".to_vec(),
            expected_version: None,
            value: Some(b"3".to_vec()),
        },
    ];

    let mut snapshots = Vec::new();
    for _ in 0..3 {
        let mut sm = KvStateMachine::new();
        for (i, command) in commands.iter().cloned().enumerate() {
            sm.apply(&entry((i as u64) + 1, command)).expect("apply");
        }
        snapshots.push(sm.snapshot().expect("snapshot"));
    }

    assert_eq!(snapshots[0], snapshots[1]);
    assert_eq!(snapshots[1], snapshots[2]);
}

#[test]
fn snapshot_restore_round_trips() {
    let mut sm = KvStateMachine::new();
    sm.apply_command(Command::Put {
        key: b"k".to_vec(),
        value: b"v".to_vec(),
    })
    .expect("set");
    sm.apply_command(Command::Put {
        key: b"x".to_vec(),
        value: b"y".to_vec(),
    })
    .expect("set");

    let bytes = sm.snapshot().expect("snapshot");
    let mut restored = KvStateMachine::new();
    restored.restore(&bytes).expect("restore");

    assert_eq!(sm, restored);
    assert_eq!(restored.get(b"k"), Some(b"v".as_slice()));
    assert_eq!(restored.version(b"k"), Some(1));
    assert_eq!(restored.get(b"x"), Some(b"y".as_slice()));
}

#[test]
fn empty_log_entry_is_noop() {
    let mut sm = KvStateMachine::new();
    sm.apply_command(Command::Put {
        key: b"k".to_vec(),
        value: b"v".to_vec(),
    })
    .expect("set");

    let result = sm
        .apply(&LogEntry::new(2, 1, Vec::new()))
        .expect("apply empty");
    assert_eq!(result, CommandResult::Noop);
    assert_eq!(sm.get(b"k"), Some(b"v".as_slice()));
}

#[test]
fn retried_request_replays_cached_result_without_reapplying() {
    let mut sm = KvStateMachine::new();
    let set = || Command::Put {
        key: b"k".to_vec(),
        value: b"v".to_vec(),
    };

    let first = sm.apply(&client_entry(1, 7, 1, set())).expect("first");
    // Same (client_id, seq_num) arriving as a fresh log entry: a retry whose
    // response was lost, not a new request.
    let retry = sm.apply(&client_entry(2, 7, 1, set())).expect("retry");

    assert_eq!(first, retry);
    // Re-applying would have bumped the version to 2.
    assert_eq!(sm.version(b"k"), Some(1));
}

#[test]
fn retried_cas_returns_its_original_outcome() {
    let mut sm = KvStateMachine::new();
    sm.apply(&entry(
        1,
        Command::Put {
            key: b"k".to_vec(),
            value: b"v1".to_vec(),
        },
    ))
    .expect("seed");

    let cas = || Command::Cas {
        key: b"k".to_vec(),
        expected_version: Some(1),
        value: Some(b"v2".to_vec()),
    };
    let original = sm.apply(&client_entry(2, 7, 1, cas())).expect("cas");
    assert_eq!(
        original,
        CommandResult::Cas {
            outcome: CasOutcome::Applied {
                previous: Some(b"v1".to_vec()),
                version: Some(2),
            },
        }
    );

    // Re-evaluating would now compare Some(1) against the stored 2 and fail.
    let retry = sm.apply(&client_entry(3, 7, 1, cas())).expect("retry");
    assert_eq!(original, retry);
    assert_eq!(sm.version(b"k"), Some(2));
}

#[test]
fn deduplication_survives_a_leader_change() {
    let mut sm = KvStateMachine::new();
    let set = || Command::Put {
        key: b"k".to_vec(),
        value: b"v".to_vec(),
    };

    let under_first_leader = sm
        .apply(&client_entry_in_term(1, 1, 7, 1, set()))
        .expect("term 1");
    let retried_under_next_leader = sm
        .apply(&client_entry_in_term(2, 5, 7, 1, set()))
        .expect("term 5");

    assert_eq!(under_first_leader, retried_under_next_leader);
    assert_eq!(sm.version(b"k"), Some(1));
}

#[test]
fn restored_node_deduplicates_a_request_it_never_saw_live() {
    let mut live = KvStateMachine::new();
    let set = || Command::Put {
        key: b"k".to_vec(),
        value: b"v".to_vec(),
    };
    let original = live.apply(&client_entry(1, 7, 1, set())).expect("apply");

    let mut restored = KvStateMachine::new();
    restored
        .restore(&live.snapshot().expect("snapshot"))
        .expect("restore");
    assert_eq!(live, restored);

    // The restored node never applied entry 1 itself; the table came in with
    // the snapshot.
    let retry = restored
        .apply(&client_entry(2, 7, 1, set()))
        .expect("retry");
    assert_eq!(original, retry);
    assert_eq!(restored.version(b"k"), Some(1));
}

#[test]
fn stale_sequence_number_is_not_reapplied() {
    let mut sm = KvStateMachine::new();
    sm.apply(&client_entry(
        1,
        7,
        1,
        Command::Put {
            key: b"k".to_vec(),
            value: b"v1".to_vec(),
        },
    ))
    .expect("seq 1");
    sm.apply(&client_entry(
        2,
        7,
        2,
        Command::Put {
            key: b"k".to_vec(),
            value: b"v2".to_vec(),
        },
    ))
    .expect("seq 2");

    // Only the newest result is cached, so seq 1 cannot be answered — but it
    // must not take effect either.
    let stale = sm
        .apply(&client_entry(
            3,
            7,
            1,
            Command::Put {
                key: b"k".to_vec(),
                value: b"v1".to_vec(),
            },
        ))
        .expect("stale");

    assert_eq!(stale, CommandResult::Noop);
    assert_eq!(sm.get(b"k"), Some(b"v2".as_slice()));
    assert_eq!(sm.version(b"k"), Some(2));
}

#[test]
fn dedup_tables_stay_identical_across_nodes_through_gc() {
    // Enough entries to cross SESSION_TTL_ENTRIES and sweep many times.
    let total = idempotency::SESSION_TTL_ENTRIES + 3 * idempotency::GC_INTERVAL_ENTRIES;

    let mut snapshots = Vec::new();
    for _ in 0..3 {
        let mut sm = KvStateMachine::new();
        for index in 1..=total {
            sm.apply(&client_entry(
                index,
                index,
                1,
                Command::Put {
                    key: index.to_be_bytes().to_vec(),
                    value: b"v".to_vec(),
                },
            ))
            .expect("apply");
        }
        assert!(
            sm.idempotency.len() < total as usize,
            "gc never evicted anything"
        );
        snapshots.push(sm.snapshot().expect("snapshot"));
    }

    assert_eq!(snapshots[0], snapshots[1]);
    assert_eq!(snapshots[1], snapshots[2]);
}

#[test]
fn gc_bounds_the_table_without_evicting_a_retrying_client() {
    const CLIENTS: u64 = 10_000;
    const RETRIER: u64 = 0;

    let mut sm = KvStateMachine::new();
    let retried = sm
        .apply(&client_entry(
            1,
            RETRIER,
            1,
            Command::Put {
                key: b"retried".to_vec(),
                value: b"v".to_vec(),
            },
        ))
        .expect("retrier first attempt");

    let mut index = 1;
    for client in 1..=CLIENTS {
        index += 1;
        sm.apply(&client_entry(
            index,
            client,
            1,
            Command::Put {
                key: client.to_be_bytes().to_vec(),
                value: b"v".to_vec(),
            },
        ))
        .expect("one-shot client");

        // The retrier keeps resending, well past SESSION_TTL_ENTRIES.
        if client % 64 == 0 {
            index += 1;
            let replay = sm
                .apply(&client_entry(
                    index,
                    RETRIER,
                    1,
                    Command::Put {
                        key: b"retried".to_vec(),
                        value: b"v".to_vec(),
                    },
                ))
                .expect("retry");
            assert_eq!(replay, retried, "retrier was evicted mid-retry");
        }
    }

    assert!(
        sm.idempotency.len() < CLIENTS as usize,
        "table grew to every client seen: {}",
        sm.idempotency.len()
    );
    assert!(
        sm.idempotency.contains_key(&RETRIER),
        "a client still retrying was evicted"
    );
    assert_eq!(sm.version(b"retried"), Some(1));
}

// ── versions ──────────────────────────────────────────────────────────────

#[test]
fn a_key_that_is_there_has_a_version_above_zero() {
    let key = b"k".to_vec();
    let mut sm = KvStateMachine::new();
    assert_eq!(sm.version(b"k"), None);
    let steps = [
        Command::Cas { key: key.clone(), expected_version: None, value: Some(b"a".to_vec()) },
        Command::Put { key: key.clone(), value: b"b".to_vec() },
        Command::Delete { key: key.clone() },
        Command::Put { key: key.clone(), value: b"c".to_vec() },
    ];
    let expected = [Some(1), Some(2), None, Some(1)];
    for (step, version) in steps.into_iter().zip(expected) {
        sm.apply_command(step).expect("apply");
        assert_eq!(sm.version(b"k"), version);
        // The same through a snapshot.
        let mut restored = KvStateMachine::new();
        restored.restore(&sm.snapshot().expect("snapshot")).expect("restore");
        assert_eq!(restored, sm);
        assert_eq!(restored.version(b"k"), version);
    }
}

#[test]
fn what_the_table_says_is_cloned_whole() {
    for said in [
        idempotency::Dedup::Fresh,
        idempotency::Dedup::Stale,
        idempotency::Dedup::Replay(CommandResult::Put {
            previous: Some(b"a".to_vec()),
            version: 3,
        }),
    ] {
        assert_eq!(said.clone(), said);
    }
}

// ── retries ───────────────────────────────────────────────────────────────

#[test]
fn a_retry_within_the_time_to_live_gets_the_same_answer() {
    let put = |value: &str| Command::Put { key: b"k".to_vec(), value: value.into() };
    let mut sm = KvStateMachine::new();
    let first = sm.apply(&client_entry(1, 7, 3, put("a"))).expect("apply");
    for index in 2..=1 + idempotency::SESSION_TTL_ENTRIES {
        // Others write the key, and the client's older requests come in late.
        if index % 2 == 0 {
            sm.apply(&client_entry(index, 8, index, put("b"))).expect("apply");
        } else {
            sm.apply(&client_entry(index, 9, 1, put("c"))).expect("apply");
        }
    }
    let before = sm.get(b"k").map(<[u8]>::to_vec);
    let retry = sm
        .apply(&client_entry(2 + idempotency::SESSION_TTL_ENTRIES, 7, 3, put("d")))
        .expect("apply");
    assert_eq!(retry, first);
    assert_eq!(sm.get(b"k").map(<[u8]>::to_vec), before);
}
