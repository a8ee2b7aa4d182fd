//! How errors are reported.

use ferrite::error::{Error, KvError, RaftError, StorageError, TransportError};
use ferrite::raft::invariants::Violation;

#[test]
fn every_error_reads_well() {
    let cases = vec![
        (Error::Raft(RaftError::Internal("a".to_owned())), "raft error: a"),
        (Error::Kv(KvError::Internal("b".to_owned())), "key-value error: b"),
        (
            Error::Transport(TransportError::Internal("c".to_owned())),
            "transport error: c",
        ),
        (
            Error::Storage(StorageError::Io("d".to_owned())),
            "storage i/o error: d",
        ),
        (
            Error::Storage(StorageError::Corruption { segment: None, offset: 12 }),
            "storage corruption at offset 12",
        ),
        (
            Error::Storage(StorageError::Corruption { segment: Some(3), offset: 40 }),
            "storage corruption at offset 40 of segment 3",
        ),
        (
            Error::Storage(StorageError::Internal("e".to_owned())),
            "storage error: e",
        ),
    ];
    for (error, text) in cases {
        assert_eq!(error.message(), text);
    }
}

#[test]
fn every_violation_reads_well() {
    let cases = vec![
        (
            Violation::LogMatching { index: 2, witness: 5 },
            "log matching violated at index 2 (witness index 5)",
        ),
        (
            Violation::TermMonotonicity { id: 1, previous: 7, term: 6 },
            "term monotonicity violated: node 1 went from term 7 to 6",
        ),
        (
            Violation::ElectionSafety { first: 1, second: 2, term: 3 },
            "election safety violated: nodes 1 and 2 both led term 3",
        ),
        (
            Violation::VoteOnce { id: 4, first: 1, second: 2, term: 9 },
            "vote once violated: node 4 voted for 1 and then 2 in term 9",
        ),
        (
            Violation::CommitBeyondLog { id: 4, commit_index: 8, last_index: 7 },
            "commit index 8 exceeds last log index 7 on node 4",
        ),
        (
            Violation::CascadeExceeded { limit: 100_000 },
            "message cascade exceeded 100000 deliveries in one tick",
        ),
    ];
    for (violation, text) in cases {
        assert_eq!(violation.message(), text);
    }
}
