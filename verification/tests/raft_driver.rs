//! The driver contract.

use ferrite::raft::driver::{Input, Output};
use ferrite::raft::state::RaftState;
use ferrite::raft::{LogEntry, RaftNode, RaftRpc};

#[test]
fn client_command_to_a_follower_redirects_instead_of_appending() {
    let mut node = RaftNode::new(1, vec![2, 3]);

    let outs = node.step(Input::ClientCommand(b"w".to_vec()));

    // A follower must not append, and the driver needs the hint in order to
    // answer the client. Dropping this output is how a KV service ends up
    // silently timing out instead of redirecting.
    assert_eq!(outs, vec![Output::Redirect { leader_hint: None }]);
}

#[test]
fn client_commands_batch_one_persist_log_then_sends() {
    let mut node = RaftNode::new(1, vec![2, 3]);
    node.state = RaftState::Leader;
    node.current_term = 1;
    node.leader_id = Some(1);
    for &p in &[2u64, 3] {
        node.next_index.insert(p, 1);
        node.match_index.insert(p, 0);
    }

    let outs = node.step(Input::ClientCommands(vec![b"a".to_vec(), b"b".to_vec()]));

    let persist = outs
        .iter()
        .find_map(|o| match o {
            Output::PersistLog {
                truncate_from,
                entries,
            } => Some((truncate_from, entries)),
            _ => None,
        })
        .expect("batch must emit PersistLog");
    assert_eq!(*persist.0, None);
    assert_eq!(
        persist.1,
        &vec![
            LogEntry::new(1, 1, b"a".to_vec()),
            LogEntry::new(2, 1, b"b".to_vec()),
        ]
    );
    assert_eq!(
        outs.iter()
            .filter(|o| matches!(o, Output::PersistLog { .. }))
            .count(),
        1
    );
    let ae_sends = outs
        .iter()
        .filter(|o| {
            matches!(
                o,
                Output::Send {
                    rpc: RaftRpc::AppendEntries(_),
                    ..
                }
            )
        })
        .count();
    assert_eq!(ae_sends, 2);
    // PersistLog must precede every Send.
    let persist_pos = outs
        .iter()
        .position(|o| matches!(o, Output::PersistLog { .. }))
        .unwrap();
    let first_send = outs
        .iter()
        .position(|o| matches!(o, Output::Send { .. }))
        .unwrap();
    assert!(persist_pos < first_send);
}
