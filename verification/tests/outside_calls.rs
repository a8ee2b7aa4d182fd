//! Where the library goes through other crates: its results beside theirs.

use ferrite::codec::DecodeError;
use ferrite::config::{Config, ConfigError};
use ferrite::kv::command::{CasOutcome, Command, CommandResult};
use ferrite::kv::idempotency::ClientRequest;
use ferrite::raft::election::{reset_timeout, ElectionState};
use ferrite::raft::storage::crc::POLYNOMIAL;
use ferrite::raft::storage::record::{encode, encode_hard_state, encode_snapshot};
use ferrite::raft::storage::{HardState, LogOp};
use ferrite::raft::{LogEntry, Snapshot, SnapshotMeta};
use ferrite::rng::NodeRng;
use ferrite::sim::node_rng;
use rand::{Rng, RngCore, SeedableRng};
use rand_chacha::ChaCha8Rng;

/// The frame of a record, put together from its parts.
fn framed(kind: u8, payload: &[u8]) -> Vec<u8> {
    let mut checked = vec![kind];
    checked.extend_from_slice(payload);
    let mut bytes = (checked.len() as u32).to_le_bytes().to_vec();
    bytes.extend_from_slice(&crc32c::crc32c(&checked).to_le_bytes());
    bytes.extend_from_slice(&checked);
    bytes
}

#[test]
fn records_are_framed_with_length_and_checksum() {
    let entry = LogEntry::new(7, 2, b"123456789".to_vec());
    let mut bytes = Vec::new();
    encode(&LogOp::Append(entry), &mut bytes).unwrap();
    let payload = bincode::serialize(&(7u64, 2u64, b"123456789".to_vec())).unwrap();
    assert_eq!(bytes, framed(bytes[8], &payload));

    let mut bytes = Vec::new();
    encode(&LogOp::TruncateFrom(5), &mut bytes).unwrap();
    assert_eq!(bytes, framed(bytes[8], &bincode::serialize(&5u64).unwrap()));

    let mut bytes = Vec::new();
    encode_hard_state(&HardState { current_term: 3, voted_for: Some(9) }, &mut bytes).unwrap();
    assert_eq!(bytes, framed(bytes[8], &bincode::serialize(&(3u64, Some(9u64))).unwrap()));

    let mut bytes = Vec::new();
    let snapshot = Snapshot {
        meta: SnapshotMeta { last_included_index: 4, last_included_term: 2 },
        data: vec![1, 2, 3],
    };
    encode_snapshot(&snapshot, &mut bytes).unwrap();
    assert_eq!(
        bytes,
        framed(bytes[8], &bincode::serialize(&(4u64, 2u64, vec![1u8, 2, 3])).unwrap())
    );
}

#[test]
fn checksum_is_castagnoli() {
    // The check value of the algorithm, over a kind byte and eight more.
    assert_eq!(crc32c::crc32c(b"123456789"), 0xe306_9283);
    let mut bytes = Vec::new();
    ferrite::raft::storage::record::write_framed(b'1', &b"23456789".to_vec(), &mut bytes);
    assert_eq!(bytes[0..4], 9u32.to_le_bytes());
    assert_eq!(bytes[4..8], 0xe306_9283u32.to_le_bytes());
    assert_eq!(&bytes[8..], b"123456789");
}

#[test]
fn commands_are_encoded_as_bincode_does() {
    let get = Command::Get { key: b"k".to_vec() };
    let mut expected = bincode::serialize(&0u32).unwrap();
    expected.extend(bincode::serialize(&b"k".to_vec()).unwrap());
    let encoded = get.encode().unwrap();
    assert_eq!(encoded.len(), expected.len());
    assert_eq!(encoded[4..], expected[4..]);
    assert_eq!(Command::decode(&encoded).unwrap(), get);

    let put = Command::Put { key: b"key".to_vec(), value: b"value".to_vec() };
    let encoded = put.encode().unwrap();
    assert_eq!(
        encoded[4..],
        bincode::serialize(&(b"key".to_vec(), b"value".to_vec())).unwrap()[..]
    );
}

#[test]
fn encoding_does_not_hand_its_input_back() {
    let command = Command::Delete { key: vec![9, 8, 7] };
    let encoded = command.encode().unwrap();
    assert_ne!(encoded, vec![9, 8, 7]);
    assert_eq!(encoded[4..12], 3u64.to_le_bytes());
    assert_eq!(encoded[12..], [9, 8, 7]);
}

/// The text of an error as a decoder of the same layout reports it.
fn reported(error: DecodeError) -> String {
    let mut text = String::new();
    error.push_message(&mut text);
    text
}

#[test]
fn decode_errors_read_as_bincodes_own() {
    let short = bincode::deserialize::<u64>(&[1, 2, 3]).unwrap_err();
    assert_eq!(reported(DecodeError::UnexpectedEnd), short.to_string());

    let tag = bincode::deserialize::<Option<u64>>(&[7]).unwrap_err();
    assert_eq!(reported(DecodeError::OptionTag { tag: 7 }), tag.to_string());

    assert_eq!(
        reported(DecodeError::Variant { found: 9, count: 2 }),
        "invalid value: integer `9`, expected variant index 0 <= i < 2"
    );
}

#[test]
fn damaged_commands_are_reported() {
    let error = Command::decode(&[]).unwrap_err();
    assert_eq!(
        format!("{error:?}"),
        "Internal(\"command decode failed: io error: unexpected end of file\")"
    );
    let error = Command::decode(&[200, 0, 0, 0]).unwrap_err();
    assert!(format!("{error:?}").contains("invalid value: integer `200`"), "{error:?}");
    let error = ClientRequest::decode(&[5]).unwrap_err();
    assert!(format!("{error:?}").contains("tag for enum is not valid, found 5"), "{error:?}");
}

#[test]
fn streams_are_those_of_the_generator() {
    for seed in [0u64, 1, 42, u64::MAX] {
        let mut ours = NodeRng::seed_from_u64(seed);
        let mut theirs = ChaCha8Rng::seed_from_u64(seed);
        for _ in 0..20 {
            assert_eq!(ours.gen_range(150, 300), theirs.gen_range(150..=300));
            assert_eq!(ours.next_u64(), theirs.next_u64());
            assert_eq!(ours.gen_range(0, u64::MAX), theirs.gen_range(0..=u64::MAX));
            assert_eq!(ours.gen_range(7, 7), theirs.gen_range(7..=7));
        }
    }
    let mut ours = NodeRng::from_seed([3; 32]);
    let mut theirs = ChaCha8Rng::from_seed([3; 32]);
    assert_eq!(ours.next_u64(), theirs.next_u64());
}

#[test]
fn timeouts_are_drawn_from_the_stream() {
    let mut rng = NodeRng::seed_from_u64(9);
    let mut state = ElectionState::new(10);
    reset_timeout(&mut state, 150, 300, &mut rng);
    let mut theirs = ChaCha8Rng::seed_from_u64(9);
    let expected: u64 = theirs.gen_range(150..=300);
    assert_eq!(state.election_timeout_ticks, expected);
    assert_eq!(state.ticks_remaining, expected);

    // A window of one choice draws nothing.
    reset_timeout(&mut state, 200, 200, &mut rng);
    assert_eq!(state.election_timeout_ticks, 200);
    assert_eq!(rng.next_u64(), theirs.next_u64());
}

#[test]
fn node_streams_depend_on_seed_and_node() {
    let first = node_rng(1, 1).next_u64();
    assert_eq!(first, node_rng(1, 1).next_u64());
    assert_ne!(first, node_rng(1, 2).next_u64());
    assert_ne!(first, node_rng(2, 1).next_u64());
}

#[test]
fn invalid_input_is_quoted_as_debug_does() {
    let mut raw = ferrite::config::RawConfig::default();
    raw.storage.backend = Some("a\"b\n".to_owned());
    let error = ferrite::config::validate(raw).unwrap_err();
    let text = error.message();
    assert!(text.contains(&format!("{:?}", "a\"b\n")), "{text}");
}

#[test]
fn results_of_commands_survive_encoding() {
    let results = vec![
        CommandResult::Noop,
        CommandResult::Get { value: None, version: None },
        CommandResult::Get { value: Some(b"v".to_vec()), version: Some(3) },
        CommandResult::Put { previous: Some(b"u".to_vec()), version: 4 },
        CommandResult::Delete { previous: None },
        CommandResult::Cas {
            outcome: CasOutcome::Applied { previous: None, version: Some(1) },
        },
        CommandResult::Cas {
            outcome: CasOutcome::Failed { actual_version: Some(2), actual_value: None },
        },
    ];
    for result in results {
        let mut bytes = Vec::new();
        ferrite::kv::command::put_result(&mut bytes, &result);
        let (read, end) = ferrite::kv::command::read_result(&bytes, 0).unwrap();
        assert_eq!(read, result);
        assert_eq!(end, bytes.len());
    }
}

#[test]
fn unparsed_files_keep_their_error() {
    let error = Config::from_toml_str(
        Err(ConfigError::Toml("expected `=`".to_owned())),
        ferrite::config::Overrides::default(),
    )
    .unwrap_err();
    assert!(matches!(&error, ConfigError::Toml(text) if text == "expected `=`"));
}

/// The remainder of the division by the Castagnoli polynomial, bit by bit.
fn divided(data: &[u8]) -> u32 {
    let mut register = !0u32;
    for byte in data {
        register ^= u32::from(*byte);
        for _ in 0..8 {
            let low = register & 1;
            register >>= 1;
            if low == 1 {
                register ^= POLYNOMIAL;
            }
        }
    }
    !register
}

#[test]
fn the_checksum_is_the_remainder_of_a_division() {
    assert_eq!(divided(b""), 0);
    assert_eq!(divided(b"123456789"), 0xe306_9283);
    for len in [1usize, 7, 8, 9, 63, 64, 200, 5000] {
        let data: Vec<u8> = (0..len).map(|i| (i * 31 + 7) as u8).collect();
        let mut bytes = Vec::new();
        encode(&LogOp::Append(LogEntry::new(1, 1, data)), &mut bytes).unwrap();
        let stored = u32::from_le_bytes(bytes[4..8].try_into().unwrap());
        assert_eq!(stored, divided(&bytes[8..]), "{len} bytes");
    }
}
