//! Laws of the log on concrete values.

use ferrite::raft::{LogEntry, RaftLog};

fn entry(index: u64, term: u64, command: &[u8]) -> LogEntry {
    LogEntry::new(index, term, command.to_vec())
}

fn log_of(terms: &[u64]) -> RaftLog {
    let mut log = RaftLog::new();
    for (i, term) in terms.iter().enumerate() {
        let index = i as u64 + 1;
        log.append(entry(index, *term, &index.to_le_bytes())).unwrap();
    }
    log
}

/// Terms of logs of every length up to six, with up to three changes of term.
fn term_lists() -> Vec<Vec<u64>> {
    let mut lists = vec![vec![]];
    for len in 1..=6usize {
        for a in 0..=len {
            for b in a..=len {
                let mut terms = Vec::new();
                for i in 0..len {
                    terms.push(if i < a {
                        1
                    } else if i < b {
                        3
                    } else {
                        4
                    });
                }
                lists.push(terms);
            }
        }
    }
    lists
}

#[test]
fn append_then_read_round_trips() {
    for terms in term_lists() {
        let log = log_of(&terms);
        assert_eq!(log.last_index(), terms.len() as u64);
        for (i, term) in terms.iter().enumerate() {
            let index = i as u64 + 1;
            assert_eq!(log.entry(index).unwrap(), &entry(index, *term, &index.to_le_bytes()));
        }
        assert!(log.entry(terms.len() as u64 + 1).is_err());
    }
}

#[test]
fn term_at_agrees_with_what_was_appended() {
    for terms in term_lists() {
        let log = log_of(&terms);
        assert_eq!(log.term_at(0).unwrap(), 0);
        for (i, term) in terms.iter().enumerate() {
            assert_eq!(log.term_at(i as u64 + 1).unwrap(), *term);
            assert!(log.contains(i as u64 + 1, *term));
            assert!(!log.contains(i as u64 + 1, term + 1));
        }
        assert_eq!(log.last_term(), terms.last().copied().unwrap_or(0));
    }
}

#[test]
fn truncate_from_removes_exactly_the_suffix() {
    for terms in term_lists() {
        let len = terms.len() as u64;
        for cut in 1..40 {
            let mut log = log_of(&terms);
            log.truncate_from(cut).unwrap();
            let kept = (cut - 1).min(len);
            assert_eq!(log.last_index(), kept);
            for index in 1..=kept {
                let fetched = log.entry(index).unwrap();
                assert_eq!(fetched.term, terms[index as usize - 1]);
                assert_eq!(fetched.command, index.to_le_bytes());
            }
            for index in kept + 1..=len {
                assert!(log.entry(index).is_err());
            }
        }
    }
}

#[test]
fn compaction_keeps_the_suffix() {
    let mut log = log_of(&[1, 1, 3, 3, 4]);
    log.compact(3, 3);
    assert_eq!(log.start_index(), 4);
    assert_eq!(log.last_included_index(), 3);
    assert_eq!(log.last_included_term(), 3);
    assert_eq!(log.term_at(3).unwrap(), 3);
    assert!(log.entry(3).is_err());
    assert_eq!(log.term_at(4).unwrap(), 3);
    assert_eq!(log.term_at(5).unwrap(), 4);
    assert_eq!(log.last_index(), 5);
    assert_eq!(log.last_term(), 4);
}

#[test]
fn merge_is_all_or_nothing_and_idempotent() {
    // The second entry differs: it goes with all behind it.
    let mut log = log_of(&[1, 1, 1, 1]);
    let incoming = vec![entry(2, 3, b"b"), entry(3, 3, b"c")];
    let outcome = log.append_from_leader(&incoming).unwrap();
    assert_eq!(outcome.truncated_from, Some(2));
    assert_eq!(outcome.appended, incoming);
    assert_eq!(outcome.clone(), outcome);
    assert_eq!(log.last_index(), 3);
    assert_eq!(log.term_at(1).unwrap(), 1);
    assert_eq!(log.term_at(2).unwrap(), 3);

    let before = log.clone();
    let again = log.append_from_leader(&incoming).unwrap();
    assert!(again.is_empty());
    assert_eq!(log, before);

    // A gap behind the tail is refused, and nothing changes.
    let gap = vec![entry(6, 3, b"x")];
    let error = log.append_from_leader(&gap).unwrap_err();
    assert_eq!((error.expected, error.actual), (4, 6));
    assert_eq!(log, before);
}

#[test]
fn log_errors_read_well() {
    let mut log = log_of(&[1, 1, 3]);
    assert_eq!(
        log.append(entry(9, 3, b"")).unwrap_err().message(),
        "expected contiguous log index 4, received 9"
    );
    assert_eq!(
        log.entry(7).unwrap_err().message(),
        "log index 7 is out of range (last index is 3)"
    );
    log.compact(2, 1);
    assert_eq!(
        log.entry(1).unwrap_err().message(),
        "log index 1 was compacted away (log starts at 3)"
    );
}
