//! Laws of a cluster on concrete histories: nodes driven by hand, messages lost,
//! repeated and reordered, and nodes that crash and come back.

use std::collections::BTreeMap;

use ferrite::kv::command::Command;
use ferrite::kv::idempotency::ClientRequest;
use ferrite::kv::KvStateMachine;
use ferrite::raft::driver::{Input, Output};
use ferrite::raft::invariants::InvariantChecker;
use ferrite::raft::state::RaftState;
use ferrite::raft::storage::{LogOp, MemoryStorage, Storage, WriteBatch};
use ferrite::raft::{LogEntry, RaftNode, RaftRpc, Snapshot, SnapshotMeta};
use ferrite::rng::NodeRng;

struct Member {
    node: RaftNode,
    storage: MemoryStorage,
    store: KvStateMachine,
    applied: Vec<LogEntry>,
}

/// A cluster and the messages on their way.
struct Cluster {
    members: BTreeMap<u64, Member>,
    wire: Vec<(u64, u64, RaftRpc)>,
    checker: InvariantChecker,
    leaders: BTreeMap<u64, u64>,
}

impl Cluster {
    fn new(ids: &[u64]) -> Self {
        let members = ids
            .iter()
            .map(|id| {
                let node = RaftNode::with_rng(*id, ids.to_vec(), NodeRng::seed_from_u64(*id));
                let member = Member {
                    node,
                    storage: MemoryStorage::default(),
                    store: KvStateMachine::new(),
                    applied: Vec::new(),
                };
                (*id, member)
            })
            .collect();
        Cluster {
            members,
            wire: Vec::new(),
            checker: InvariantChecker::new(),
            leaders: BTreeMap::new(),
        }
    }

    /// Feeds an input to a node and does what it asks for, writes first.
    fn feed(&mut self, id: u64, input: Input) {
        let mut inputs = vec![input];
        while let Some(input) = inputs.pop() {
            let member = self.members.get_mut(&id).unwrap();
            let term = member.node.current_term;
            let commit = member.node.commit_index;
            let outputs = member.node.step(input);
            assert!(member.node.current_term >= term);
            assert!(member.node.commit_index >= commit);
            let mut batch = WriteBatch::default();
            let mut visible = false;
            let mut rest = Vec::new();
            for output in outputs {
                match output {
                    Output::Persist(hard_state) => {
                        assert!(!visible, "a write behind something visible");
                        batch.hard_state = Some(hard_state);
                    }
                    Output::PersistLog { truncate_from, entries } => {
                        assert!(!visible, "a write behind something visible");
                        if let Some(index) = truncate_from {
                            batch.log.push(LogOp::TruncateFrom(index));
                        }
                        batch.log.extend(entries.into_iter().map(LogOp::Append));
                    }
                    Output::PersistSnapshot(snapshot) => {
                        assert!(!visible, "a write behind something visible");
                        inputs.push(Input::SnapshotPersisted(snapshot.meta));
                        batch.snapshot = Some(snapshot);
                    }
                    Output::Send { .. } | Output::Apply(_) | Output::ApplySnapshot(_) => {
                        visible = true;
                        rest.push(output);
                    }
                    other => rest.push(other),
                }
            }
            member.storage.commit(&batch).unwrap();
            for output in rest {
                match output {
                    Output::Send { to, rpc } => self.wire.push((id, to, rpc)),
                    Output::Apply(entry) => {
                        let expected = member.applied.last().map_or(entry.index, |e| e.index + 1);
                        assert_eq!(entry.index, expected);
                        member.store.apply(&entry).unwrap();
                        member.applied.push(entry);
                    }
                    Output::ApplySnapshot(snapshot) => {
                        member.store.restore(&snapshot.data).unwrap();
                        member.applied.clear();
                    }
                    Output::RequestSnapshot { last_included_index, last_included_term } => {
                        let data = member.store.snapshot().unwrap();
                        let meta = SnapshotMeta { last_included_index, last_included_term };
                        inputs.push(Input::SnapshotTaken(Snapshot { meta, data }));
                    }
                    _ => {}
                }
            }
        }
        self.check();
    }

    fn check(&mut self) {
        let nodes: Vec<&RaftNode> = self.members.values().map(|m| &m.node).collect();
        self.checker.observe(&nodes).unwrap();
        for node in nodes {
            if node.state == RaftState::Leader {
                let leader = self.leaders.entry(node.current_term).or_insert(node.id);
                assert_eq!(*leader, node.id);
            }
        }
        self.check_durable();
        self.check_stores();
    }

    /// What is durable is what the node goes by.
    fn check_durable(&self) {
        for member in self.members.values() {
            let recovered = member.storage.recover().unwrap();
            assert_eq!(recovered.hard_state.current_term, member.node.current_term);
            assert_eq!(recovered.hard_state.voted_for, member.node.voted_for);
            assert_eq!(recovered.log, member.node.log);
        }
    }

    /// Who applied as much holds the same.
    fn check_stores(&self) {
        let members: Vec<&Member> = self.members.values().collect();
        for a in &members {
            for b in &members {
                if a.node.last_applied == b.node.last_applied {
                    assert_eq!(a.store.snapshot().unwrap(), b.store.snapshot().unwrap());
                }
                for entry in &a.applied {
                    for other in &b.applied {
                        assert!(entry.index != other.index || entry == other);
                    }
                }
            }
        }
    }

    /// Delivers what is on its way, with the choices of a stream: some messages
    /// are lost, some come twice, and all come in any order.
    fn deliver(&mut self, rng: &mut NodeRng, rounds: usize) {
        for _ in 0..rounds {
            if self.wire.is_empty() {
                return;
            }
            let last = self.wire.len() as u64 - 1;
            let at = rng.gen_range(0, last) as usize;
            let (from, to, rpc) = self.wire.swap_remove(at);
            match rng.gen_range(0, 9) {
                0 => continue,
                1 => self.wire.push((from, to, rpc.clone())),
                _ => {}
            }
            if self.members.contains_key(&to) {
                self.feed(to, Input::Message { from, rpc });
            }
        }
    }

    /// Delivers everything, in order, until nothing is on its way.
    fn settle(&mut self) {
        for _ in 0..10_000 {
            if self.wire.is_empty() {
                return;
            }
            let (from, to, rpc) = self.wire.remove(0);
            self.feed(to, Input::Message { from, rpc });
        }
        panic!("messages never end");
    }

    fn elect(&mut self, id: u64) {
        for _ in 0..1_000 {
            if self.members[&id].node.state == RaftState::Leader {
                return;
            }
            self.feed(id, Input::Tick);
            self.settle();
        }
        panic!("no leader");
    }

    fn restart(&mut self, id: u64) {
        let member = self.members.get_mut(&id).unwrap();
        let recovered = member.storage.recover().unwrap();
        let mut store = KvStateMachine::new();
        if let Some(snapshot) = &recovered.snapshot {
            store.restore(&snapshot.data).unwrap();
        }
        let threshold = member.node.compaction_threshold;
        let peers = member.node.peers.clone();
        let rng = NodeRng::seed_from_u64(id + 100);
        member.node = RaftNode::recover(id, peers, rng, recovered);
        member.node.compaction_threshold = threshold;
        member.store = store;
        member.applied.clear();
        self.check();
    }

    fn put(&mut self, id: u64, n: u64) {
        let command = Command::Put {
            key: format!("key{}", n % 5).into_bytes(),
            value: format!("value{n}").into_bytes(),
        };
        let request = ClientRequest::new(1, n, command).encode().unwrap();
        self.feed(id, Input::ClientCommand(request));
    }
}

#[test]
fn a_majority_commits_and_everyone_applies_the_same() {
    let mut cluster = Cluster::new(&[1, 2, 3]);
    cluster.elect(1);
    for n in 1..=10 {
        cluster.put(1, n);
    }
    cluster.settle();
    for _ in 0..60 {
        cluster.feed(1, Input::Tick);
    }
    cluster.settle();
    for member in cluster.members.values() {
        assert_eq!(member.node.commit_index, 11);
        assert_eq!(member.node.last_applied, 11);
        assert_eq!(member.store.get(b"key0"), Some(&b"value10"[..]));
    }
}

#[test]
fn histories_with_losses_crashes_and_elections_stay_safe() {
    for seed in 0..8 {
        let mut rng = NodeRng::seed_from_u64(seed);
        let mut cluster = Cluster::new(&[1, 2, 3]);
        let mut n = 0;
        for _ in 0..400 {
            let id = rng.gen_range(1, 3);
            match rng.gen_range(0, 19) {
                0 => cluster.restart(id),
                1..=4 => {
                    n += 1;
                    cluster.put(id, n);
                }
                5..=7 => {
                    for _ in 0..rng.gen_range(1, 200) {
                        cluster.feed(id, Input::Tick);
                    }
                }
                _ => cluster.deliver(&mut rng, 6),
            }
        }
    }
}

#[test]
fn committed_entries_outlive_their_leader() {
    let mut cluster = Cluster::new(&[1, 2, 3]);
    cluster.elect(1);
    cluster.put(1, 1);
    cluster.settle();
    let committed = cluster.members[&1].node.commit_index;
    assert_eq!(committed, 2);
    let entry = cluster.members[&1].node.log.entry(2).unwrap().clone();

    // The old leader is gone: another one holds what it committed.
    let gone = cluster.members.remove(&1).unwrap();
    cluster.wire.clear();
    for _ in 0..1_000 {
        if cluster.members[&2].node.state == RaftState::Leader {
            break;
        }
        cluster.feed(2, Input::Tick);
        for (from, to, rpc) in std::mem::take(&mut cluster.wire) {
            if to != 1 {
                cluster.feed(to, Input::Message { from, rpc });
            }
        }
    }
    let leader = &cluster.members[&2].node;
    assert_eq!(leader.state, RaftState::Leader);
    assert!(leader.current_term > gone.node.current_term);
    assert_eq!(leader.log.entry(2).unwrap(), &entry);
}

#[test]
fn a_lagging_node_catches_up_by_snapshot() {
    let mut cluster = Cluster::new(&[1, 2, 3]);
    for member in cluster.members.values_mut() {
        member.node.compaction_threshold = 5;
    }
    cluster.elect(1);
    // The third node hears nothing while the others fill and trim their logs.
    for n in 1..=12 {
        cluster.put(1, n);
        for (from, to, rpc) in std::mem::take(&mut cluster.wire) {
            if to != 3 && from != 3 {
                cluster.feed(to, Input::Message { from, rpc });
            }
        }
        for (from, to, rpc) in std::mem::take(&mut cluster.wire) {
            if to != 3 && from != 3 {
                cluster.feed(to, Input::Message { from, rpc });
            }
        }
    }
    for _ in 0..3 {
        cluster.feed(1, Input::Tick);
    }
    let leader = &cluster.members[&1].node;
    assert!(leader.log.start_index() > 1);
    assert!(cluster.members[&3].node.log.last_index() < leader.log.last_included_index());

    for _ in 0..200 {
        cluster.feed(1, Input::Tick);
        cluster.settle();
    }
    let leader = &cluster.members[&1];
    let follower = &cluster.members[&3];
    assert_eq!(follower.node.last_applied, leader.node.last_applied);
    assert_eq!(follower.store.snapshot().unwrap(), leader.store.snapshot().unwrap());
    assert!(follower.node.log.start_index() > 1);

    // What the snapshot left is there after a crash, too.
    let before = cluster.members[&3].node.log.clone();
    cluster.restart(3);
    assert_eq!(cluster.members[&3].node.log, before);
}
