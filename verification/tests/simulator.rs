//! The simulator.

use ferrite::config::NodeId;
use ferrite::kv::{ClientRequest, Command};
use ferrite::raft::state::RaftState;
use ferrite::raft::{RaftNode, RaftRpc, RequestVoteRequest, RequestVoteResponse};
use ferrite::rng::NodeRng;
use ferrite::sim::clock::Clock;
use ferrite::sim::trace::TraceEventKind;
use ferrite::sim::{node_rng, Input, Output, SimNode, Simulator};

/// Minimal node used to prove the simulator tick and stream plumbing.
struct EchoNode {
    id: NodeId,
    rng: NodeRng,
}

impl EchoNode {
    /// Constructs an echo node with an independent deterministic stream.
    fn new(root_seed: u64, id: NodeId) -> Self {
        Self {
            id,
            rng: node_rng(root_seed, id),
        }
    }
}

impl SimNode for EchoNode {
    fn id(&self) -> NodeId {
        self.id
    }

    fn step(&mut self, input: Input) -> Vec<Output> {
        match input {
            Input::Tick => vec![Output::Echo {
                payload: self.rng.next_u64().to_le_bytes().to_vec(),
            }],
            _ => Vec::new(),
        }
    }

    fn raft(&self) -> Option<&RaftNode> {
        None
    }
}

fn echo_nodes(seed: u64, ids: &[u64]) -> Vec<EchoNode> {
    ids.iter().map(|&id| EchoNode::new(seed, id)).collect()
}

struct OrderedOutputNode {
    id: u64,
}

impl SimNode for OrderedOutputNode {
    fn raft(&self) -> Option<&RaftNode> {
        None
    }

    fn id(&self) -> u64 {
        self.id
    }

    fn step(&mut self, input: Input) -> Vec<Output> {
        match input {
            Input::Tick => vec![
                Output::Echo { payload: vec![1] },
                Output::Echo { payload: vec![2] },
            ],
            _ => Vec::new(),
        }
    }
}

/// Node that replies to any RequestVote with a fixed response, for delivery tests.
struct BounceNode {
    id: u64,
}

impl SimNode for BounceNode {
    fn raft(&self) -> Option<&RaftNode> {
        None
    }

    fn id(&self) -> u64 {
        self.id
    }

    fn step(&mut self, input: Input) -> Vec<Output> {
        match input {
            Input::Tick if self.id == 1 => vec![Output::Send {
                to: 2,
                rpc: RaftRpc::RequestVote(RequestVoteRequest {
                    term: 1,
                    candidate_id: 1,
                    last_log_index: 0,
                    last_log_term: 0,
                }),
            }],
            Input::Message {
                from,
                rpc: RaftRpc::RequestVote(_),
            } => vec![Output::Send {
                to: from,
                rpc: RaftRpc::RequestVoteResponse(RequestVoteResponse {
                    term: 1,
                    vote_granted: true,
                }),
            }],
            _ => Vec::new(),
        }
    }
}

#[test]
fn run_uses_zero_based_ticks_and_steps_nodes_in_ascending_order() {
    let mut simulator = Simulator::new(9, echo_nodes(9, &[3, 1, 2]));
    let (stepped_ids, final_event_tick) = {
        let trace = simulator.run(1);
        let stepped_ids: Vec<_> = trace
            .events()
            .iter()
            .filter(|event| event.kind() == TraceEventKind::NodeStep)
            .map(|event| event.node())
            .collect();
        let final_event_tick = trace.events().last().map(|event| event.tick());
        (stepped_ids, final_event_tick)
    };

    assert_eq!(simulator.clock().now(), 1);
    assert_eq!(stepped_ids, vec![Some(1), Some(2), Some(3)]);
    assert_eq!(final_event_tick, Some(0));
}

#[test]
fn registration_order_does_not_change_trace() {
    let mut first = Simulator::new(12, echo_nodes(12, &[3, 1, 2]));
    let mut second = Simulator::new(12, echo_nodes(12, &[1, 2, 3]));

    assert_eq!(first.run(3).canonical(), second.run(3).canonical());
}

#[test]
fn drains_each_nodes_outputs_before_stepping_the_next_node() {
    let mut simulator = Simulator::new(
        1,
        vec![OrderedOutputNode { id: 2 }, OrderedOutputNode { id: 1 }],
    );

    assert_eq!(
        simulator.run(1).canonical(),
        "tick=0 kind=sim_start node=- payload=seed:1,nodes:1,2\n\
         tick=0 kind=tick_start node=- payload=-\n\
         tick=0 kind=node_step node=1 payload=-\n\
         tick=0 kind=echo node=1 payload=hex:01\n\
         tick=0 kind=echo node=1 payload=hex:02\n\
         tick=0 kind=node_step node=2 payload=-\n\
         tick=0 kind=echo node=2 payload=hex:01\n\
         tick=0 kind=echo node=2 payload=hex:02\n\
         tick=0 kind=tick_end node=- payload=-\n"
    );
}

#[test]
fn delivers_send_outputs_as_messages_same_tick() {
    let mut simulator = Simulator::new(1, vec![BounceNode { id: 1 }, BounceNode { id: 2 }]);

    let trace = simulator.run(1);
    let kinds: Vec<_> = trace
        .events()
        .iter()
        .filter(|e| matches!(e.kind(), TraceEventKind::Send | TraceEventKind::Deliver))
        .map(|e| (e.kind(), e.node()))
        .collect();

    // Node 1 sends RequestVote → deliver to 2 → 2 replies → deliver to 1.
    assert!(
        kinds
            .iter()
            .any(|(k, n)| *k == TraceEventKind::Send && *n == Some(1)),
        "expected send from 1, got {kinds:?}"
    );
    assert!(
        kinds
            .iter()
            .any(|(k, n)| *k == TraceEventKind::Deliver && *n == Some(2)),
        "expected deliver to 2, got {kinds:?}"
    );
    assert!(
        kinds
            .iter()
            .any(|(k, n)| *k == TraceEventKind::Send && *n == Some(2)),
        "expected reply send from 2, got {kinds:?}"
    );
    assert!(
        kinds
            .iter()
            .any(|(k, n)| *k == TraceEventKind::Deliver && *n == Some(1)),
        "expected deliver reply to 1, got {kinds:?}"
    );
}

#[test]
fn same_seed_is_deterministic_for_one_hundred_seeds() {
    for seed in 0..100 {
        let mut first = Simulator::new(seed, echo_nodes(seed, &[1, 2, 3]));
        let mut second = Simulator::new(seed, echo_nodes(seed, &[1, 2, 3]));

        assert_eq!(first.run(4).canonical(), second.run(4).canonical());
    }
}


#[test]
fn different_seeds_produce_different_canonical_traces() {
    let mut first = Simulator::new(1, echo_nodes(1, &[1, 2, 3]));
    let mut second = Simulator::new(2, echo_nodes(2, &[1, 2, 3]));

    assert_ne!(first.run(1).canonical(), second.run(1).canonical());
}

#[test]
fn adding_a_node_does_not_change_existing_rng_streams() {
    let mut two_nodes = Simulator::new(42, echo_nodes(42, &[1, 2]));
    let mut three_nodes = Simulator::new(42, echo_nodes(42, &[1, 2, 3]));

    two_nodes.run(3);
    three_nodes.run(3);

    let two_node_echoes: Vec<_> = two_nodes
        .trace()
        .events()
        .iter()
        .filter(|event| event.kind() == TraceEventKind::Echo)
        .map(|event| (event.node(), event.payload().cloned()))
        .collect();
    let three_node_echoes: Vec<_> = three_nodes
        .trace()
        .events()
        .iter()
        .filter(|event| {
            event.kind() == TraceEventKind::Echo && matches!(event.node(), Some(1 | 2))
        })
        .map(|event| (event.node(), event.payload().cloned()))
        .collect();

    assert_eq!(two_node_echoes, three_node_echoes);
}

#[test]
fn node_rng_is_repeatable_and_independent_by_node_id() {
    let mut first = node_rng(44, 1);
    let mut second = node_rng(44, 1);
    let mut other_node = node_rng(44, 2);

    assert_eq!(first.next_u64(), second.next_u64());
    assert_ne!(first.next_u64(), other_node.next_u64());
}

#[test]
fn display_trace_is_legible_for_a_short_echo_run() {
    let mut simulator = Simulator::new(3, echo_nodes(3, &[3, 1, 2]));
    let pretty = simulator.run(1).pretty();

    assert!(pretty.contains("tick 0"));
    assert!(pretty.contains("node 1"));
    assert!(pretty.contains("node 2"));
    assert!(pretty.contains("node 3"));
}

#[test]
fn large_run_completes_with_only_logical_time() {
    let mut simulator = Simulator::new(5, echo_nodes(5, &[1, 2, 3]));

    simulator.run(10_000);

    assert_eq!(simulator.clock().now(), 10_000);
    assert_eq!(simulator.trace().len(), 80_001);
}

#[test]
fn raft_cluster_elects_leader_with_message_delivery() {
    let seed = 1_u64;
    let ids = [1_u64, 2, 3];
    let nodes: Vec<RaftNode> = ids
        .iter()
        .map(|&id| {
            let peers: Vec<_> = ids.iter().copied().filter(|&p| p != id).collect();
            RaftNode::with_rng(id, peers, node_rng(seed, id))
        })
        .collect();

    let mut sim = Simulator::new(seed, nodes);
    sim.run(600);

    let leaders: Vec<_> = sim
        .nodes()
        .iter()
        .filter(|(_, n)| n.state() == RaftState::Leader)
        .map(|(&id, _)| id)
        .collect();
    assert_eq!(leaders.len(), 1, "expected one leader, got {leaders:?}");
}

fn elected_raft_cluster(seed: u64, node_ids: &[u64]) -> (Simulator<RaftNode>, u64) {
    let nodes = node_ids
        .iter()
        .copied()
        .map(|node_id| {
            let peers = node_ids
                .iter()
                .copied()
                .filter(|&peer| peer != node_id)
                .collect();
            RaftNode::with_rng(node_id, peers, node_rng(seed, node_id))
        })
        .collect();
    let mut simulator = Simulator::new(seed, nodes);

    for _ in 0..600 {
        simulator.run(1);
        let leaders: Vec<_> = simulator
            .nodes()
            .iter()
            .filter(|(_, node)| node.state() == RaftState::Leader)
            .map(|(&node_id, _)| node_id)
            .collect();
        if let [leader_id] = leaders.as_slice() {
            return (simulator, *leader_id);
        }
    }

    panic!("cluster {node_ids:?} did not elect exactly one leader");
}

fn assert_committed_cas_is_visible_on_every_node(node_ids: &[u64]) {
    let (mut simulator, leader_id) = elected_raft_cluster(41, node_ids);
    let key = b"cas-key".to_vec();

    let set = ClientRequest::new(
        1,
        1,
        Command::Put {
            key: key.clone(),
            value: b"before".to_vec(),
        },
    );
    simulator.step_node(
        leader_id,
        Input::ClientCommand(set.encode().expect("encode set")),
    );
    simulator.run(200);

    // Two distinct clients race. Both commands carry version 1, and Raft
    // commits them in log order, so only the first can transition the key to
    // version 2.
    for (client_id, value) in [(2, b"first".to_vec()), (3, b"second".to_vec())] {
        let cas = ClientRequest::new(
            client_id,
            1,
            Command::Cas {
                key: key.clone(),
                expected_version: Some(1),
                value: Some(value),
            },
        );
        simulator.step_node(
            leader_id,
            Input::ClientCommand(cas.encode().expect("encode CAS")),
        );
    }
    simulator.run(300);

    let snapshots: Vec<_> = simulator
        .state_machines()
        .values()
        .map(|state_machine| {
            assert_eq!(state_machine.get(&key), Some(b"first".as_slice()));
            assert_eq!(state_machine.version(&key), Some(2));
            state_machine.snapshot().expect("snapshot")
        })
        .collect();
    assert!(snapshots.windows(2).all(|pair| pair[0] == pair[1]));
}

#[test]
#[should_panic(expected = "vote once violated: node 1 voted for 2 and then 3 in term 1")]
fn invariant_hook_catches_an_injected_double_vote() {
    let ids = [1_u64, 2, 3];
    let nodes = ids
        .iter()
        .map(|&id| {
            let peers = ids.iter().copied().filter(|&p| p != id).collect();
            RaftNode::with_rng(id, peers, node_rng(7, id))
        })
        .collect();
    let mut simulator = Simulator::new(7, nodes);
    simulator.step_node(
        1,
        Input::Message {
            from: 2,
            rpc: RaftRpc::RequestVote(RequestVoteRequest {
                term: 1,
                candidate_id: 2,
                last_log_index: 0,
                last_log_term: 0,
            }),
        },
    );

    // Corrupt node 1 behind the protocol's back; the next step must catch it.
    simulator.cluster.nodes.get_mut(&1).expect("node 1").voted_for = Some(3);
    simulator.run(1);
    if let Some(violation) = simulator.violation() {
        panic!("{}", violation.message());
    }
}

#[test]
fn committed_write_and_cas_are_visible_on_every_node_in_a_two_node_cluster() {
    assert_committed_cas_is_visible_on_every_node(&[1, 2]);
}

#[test]
fn committed_write_and_cas_are_visible_on_every_node_in_a_three_node_cluster() {
    assert_committed_cas_is_visible_on_every_node(&[1, 2, 3]);
}

#[test]
fn an_isolated_leader_is_replaced_and_catches_up() {
    let (mut simulator, old) = elected_raft_cluster(7, &[1, 2, 3]);
    simulator.isolate_node(old);
    simulator.run(800);
    let replaced: Vec<u64> = simulator
        .nodes()
        .iter()
        .filter(|(&id, node)| id != old && node.state() == RaftState::Leader)
        .map(|(&id, _)| id)
        .collect();
    assert_eq!(replaced.len(), 1);
    let new = replaced[0];
    let put = ClientRequest::new(
        1,
        1,
        Command::Put { key: b"k".to_vec(), value: b"v".to_vec() },
    );
    simulator.step_node(new, Input::ClientCommand(put.encode().unwrap()));
    simulator.run(100);
    assert_eq!(simulator.state_machine(new).unwrap().get(b"k"), Some(&b"v"[..]));
    assert_eq!(simulator.state_machine(old).unwrap().get(b"k"), None);

    simulator.connect_node(old);
    simulator.run(800);
    assert_eq!(simulator.violation(), None);
    for id in [1, 2, 3] {
        assert_eq!(simulator.state_machine(id).unwrap().get(b"k"), Some(&b"v"[..]));
    }
}

#[test]
fn crashes_and_restarts_break_nothing() {
    for seed in 0..5 {
        let (mut simulator, leader) = elected_raft_cluster(seed, &[1, 2, 3]);
        let put = |n: u64| {
            let command = Command::Put { key: b"k".to_vec(), value: n.to_le_bytes().to_vec() };
            Input::ClientCommand(ClientRequest::new(1, n, command).encode().unwrap())
        };
        simulator.step_node(leader, put(1));
        simulator.run(60);
        let durable = simulator.recovered(leader).unwrap();
        assert_eq!(durable.log, simulator.nodes()[&leader].log);
        simulator.crash_node(leader);
        simulator.run(700);
        assert!(simulator.restart_node(leader));
        assert_eq!(simulator.nodes()[&leader].log, durable.log);
        assert_eq!(simulator.nodes()[&leader].current_term, durable.hard_state.current_term);
        simulator.run(700);
        assert_eq!(simulator.violation(), None);
        let expected = 1u64.to_le_bytes();
        for id in [1, 2, 3] {
            assert_eq!(simulator.state_machine(id).unwrap().get(b"k"), Some(&expected[..]));
        }
    }
}

/// Nodes that compact every few entries, with one down while the others compact
/// past it, and one that crashes and comes back in between.
#[test]
fn compaction_keeps_a_simulation_safe() {
    for seed in 0..6 {
        let ids = [1_u64, 2, 3];
        let nodes: Vec<RaftNode> = ids
            .iter()
            .map(|&id| {
                let mut node = RaftNode::with_rng(id, ids.to_vec(), node_rng(seed, id));
                node.compaction_threshold = 3;
                node
            })
            .collect();
        let mut sim = Simulator::new(seed, nodes);
        let leader_of = |sim: &Simulator<RaftNode>| {
            sim.nodes()
                .iter()
                .find(|(_, node)| node.state == RaftState::Leader)
                .map(|(id, _)| *id)
        };
        sim.run(600);
        let leader = leader_of(&sim).expect("a leader");
        let lagging = ids.into_iter().find(|id| *id != leader).unwrap();
        let other = ids.into_iter().find(|id| *id != leader && *id != lagging).unwrap();
        sim.crash_node(lagging);
        for i in 0..10_u8 {
            let command = ClientRequest::internal(Command::Put {
                key: vec![i],
                value: vec![i, i],
            });
            sim.step_node(leader, Input::ClientCommand(command.encode().unwrap()));
            sim.run(60);
            if i == 5 {
                sim.crash_node(other);
                assert!(sim.restart_node(other));
                sim.run(60);
            }
        }
        assert!(sim.nodes()[&leader].log.last_included_index() >= 3);
        assert!(sim.restart_node(lagging));
        sim.run(1500);
        assert_eq!(sim.violation(), None, "seed {seed}");
        assert!(sim.nodes()[&lagging].log.last_included_index() >= 3);
        let leader = leader_of(&sim).expect("a leader");
        let store = sim.state_machine(leader).unwrap();
        assert_eq!(store.get(&[9]), Some([9, 9].as_slice()), "seed {seed}");
        for id in ids {
            assert_eq!(sim.state_machine(id).unwrap(), store, "seed {seed}, node {id}");
        }
    }
}
