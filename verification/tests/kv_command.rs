//! Command serialization.

use ferrite::kv::Command;

fn round_trip(command: &Command) {
    let encoded = command.encode().expect("encode");
    let decoded = Command::decode(&encoded).expect("decode");
    assert_eq!(command, &decoded);
}

#[test]
fn command_round_trips_every_variant() {
    round_trip(&Command::Get { key: b"k".to_vec() });
    round_trip(&Command::Put {
        key: b"k".to_vec(),
        value: b"v".to_vec(),
    });
    round_trip(&Command::Delete { key: b"k".to_vec() });
    round_trip(&Command::Cas {
        key: b"k".to_vec(),
        expected_version: Some(1),
        value: Some(b"new".to_vec()),
    });
    round_trip(&Command::Cas {
        key: b"k".to_vec(),
        expected_version: None,
        value: None,
    });
}

#[test]
fn command_round_trips_empty_and_large_values() {
    round_trip(&Command::Put {
        key: Vec::new(),
        value: Vec::new(),
    });
    round_trip(&Command::Put {
        key: vec![0_u8; 64],
        value: vec![0xAB; 64 * 1024],
    });
    round_trip(&Command::Cas {
        key: b"large".to_vec(),
        expected_version: Some(7),
        value: Some(vec![2_u8; 8 * 1024]),
    });
}
