//! Record framing.

use ferrite::config::NodeId;
use ferrite::error::StorageError;
use ferrite::raft::storage::record::{
    decode, decode_hard_state, decode_snapshot, encode, encode_hard_state, encode_snapshot,
};
use ferrite::raft::storage::{HardState, LogOp};
use ferrite::raft::{LogEntry, Snapshot, SnapshotMeta};

fn sample_entry(index: u64) -> LogEntry {
    LogEntry::new(index, 1, format!("cmd{index}").into_bytes())
}

fn encode_ops(ops: &[LogOp]) -> Vec<u8> {
    let mut buf = Vec::new();
    for op in ops {
        encode(op, &mut buf).unwrap();
    }
    buf
}

#[test]
fn round_trip_append_and_truncate() {
    let ops = vec![
        LogOp::Append(sample_entry(1)),
        LogOp::Append(sample_entry(2)),
        LogOp::TruncateFrom(2),
        LogOp::Append(sample_entry(2)),
    ];
    let buf = encode_ops(&ops);
    let decoded = decode(&buf).unwrap();
    assert_eq!(decoded.valid_len, buf.len());
    assert_eq!(decoded.ops.len(), 4);
}

#[test]
fn torn_tail_at_every_offset_in_last_record() {
    let ops = vec![
        LogOp::Append(sample_entry(1)),
        LogOp::Append(sample_entry(2)),
    ];
    let buf = encode_ops(&ops);

    // Find where the first record ends.
    let first_record_len = {
        let _d = decode(&buf).unwrap();
        // Encode just the first op to find its size.
        let mut first = Vec::new();
        encode(&ops[0], &mut first).unwrap();
        first.len()
    };

    // Cutting anywhere inside the second record must return only the first op.
    for cut in first_record_len..buf.len() {
        let partial = &buf[..cut];
        let d = decode(partial).unwrap();
        assert_eq!(d.ops.len(), 1, "cut at {cut}");
        assert_eq!(d.valid_len, first_record_len, "cut at {cut}");
    }
}

#[test]
fn corruption_in_non_final_record_returns_error() {
    let ops = vec![
        LogOp::Append(sample_entry(1)),
        LogOp::Append(sample_entry(2)),
    ];
    let mut buf = encode_ops(&ops);

    // Flip a payload byte inside the first record (offset 9 is kind + first payload byte).
    buf[9] ^= 0xFF;

    let result = decode(&buf);
    assert!(
        matches!(result, Err(StorageError::Corruption { .. })),
        "expected Corruption, got {result:?}"
    );
}

#[test]
fn hard_state_round_trip() {
    let hs = HardState {
        current_term: 7,
        voted_for: Some(3 as NodeId),
    };
    let mut buf = Vec::new();
    encode_hard_state(&hs, &mut buf).unwrap();
    let recovered = decode_hard_state(&buf).unwrap();
    assert_eq!(hs, recovered);
}

#[test]
fn snapshot_round_trip() {
    let snap = Snapshot::new(SnapshotMeta::new(5, 2), b"state".to_vec());
    let mut buf = Vec::new();
    encode_snapshot(&snap, &mut buf).unwrap();
    let recovered = decode_snapshot(&buf).unwrap();
    assert_eq!(snap, recovered);
}

#[test]
fn a_damaged_record_is_named_by_its_start_unless_it_is_the_last() {
    let ops = vec![
        LogOp::Append(sample_entry(1)),
        LogOp::TruncateFrom(1),
        LogOp::Append(sample_entry(1)),
    ];
    let buf = encode_ops(&ops);
    let starts: Vec<usize> = (0..=3).map(|j| encode_ops(&ops[..j]).len()).collect();
    for j in 0..3 {
        // Every byte behind the length: the checksum, the kind and the payload.
        for at in starts[j] + 4..starts[j + 1] {
            let mut damaged = buf.clone();
            damaged[at] ^= 0x40;
            if j < 2 {
                assert!(
                    matches!(
                        decode(&damaged),
                        Err(StorageError::Corruption { segment: None, offset }) if offset == starts[j] as u64
                    ),
                    "byte {at}"
                );
            } else {
                let d = decode(&damaged).unwrap();
                assert_eq!(d.ops.len(), 2, "byte {at}");
                assert_eq!(d.valid_len, starts[2], "byte {at}");
            }
        }
    }
}

#[test]
fn broken_state_files_are_rejected() {
    let snap = Snapshot::new(SnapshotMeta::new(5, 2), b"state".to_vec());
    let mut snapshot = Vec::new();
    encode_snapshot(&snap, &mut snapshot).unwrap();
    let hs = HardState {
        current_term: 7,
        voted_for: None,
    };
    let mut hard_state = Vec::new();
    encode_hard_state(&hs, &mut hard_state).unwrap();

    for cut in 0..snapshot.len() {
        assert!(decode_snapshot(&snapshot[..cut]).is_err(), "cut at {cut}");
    }
    for cut in 0..hard_state.len() {
        assert!(decode_hard_state(&hard_state[..cut]).is_err(), "cut at {cut}");
    }
    for at in 4..snapshot.len() {
        let mut damaged = snapshot.clone();
        damaged[at] ^= 1;
        assert!(decode_snapshot(&damaged).is_err(), "byte {at}");
    }
    for at in 4..hard_state.len() {
        let mut damaged = hard_state.clone();
        damaged[at] ^= 1;
        assert!(decode_hard_state(&damaged).is_err(), "byte {at}");
    }
    // A file of the other kind is no better.
    assert!(decode_snapshot(&hard_state).is_err());
    assert!(decode_hard_state(&snapshot).is_err());
}
