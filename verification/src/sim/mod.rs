//! Single-threaded deterministic simulator harness.
//!
//! A global step enters logical tick `t`, steps nodes in ascending [`NodeId`]
//! order, drains each node's outputs in returned order, delivers queued
//! messages to completion within the same tick, records `TickEnd`, and then
//! advances the clock to `t + 1`. Nodes never receive the clock.
//!
//! Safety is checked after every step. A violation stops the simulation where it
//! is; [`Simulator::violation`] tells what broke.

pub mod clock;
pub mod io;
pub mod laws;
pub mod model;
pub mod network;
pub mod raft_node;
pub mod roster;
pub mod scenario;
pub mod schedules;
pub mod seeds;
pub mod trace;
pub mod transcripts;
pub mod votes;
pub mod workings;

pub use io::{Input, Output};

use std::collections::BTreeMap;

use vstd::bytes::{spec_u64_to_le_bytes, u64_to_le_bytes};
use vstd::prelude::*;

use crate::config::NodeId;
use crate::kv::{kv_of, KvStateMachine, KvView};
use crate::maps::{ascending_keys, keys_in_order};
use crate::raft::driver::{outputs_view, InputView, OutputView};
use crate::raft::invariants::{node_list_view, InvariantChecker, Violation};
use crate::raft::log::{entries_view, next_up, LogEntry};
use crate::raft::snapshot::{Snapshot, SnapshotMeta};
use crate::raft::storage::memory::MemoryView;
use crate::raft::storage::record::{ops_view, LogOp, LogOpView};
use crate::raft::storage::{
    log_ops, BatchView, HardState, MemoryStorage, Recovered, RecoveredView, Storage, WriteBatch,
};
use crate::raft::{NodeView, RaftNode};
use crate::rng::{NodeRng, NodeRngView};
use crate::seqs::lists;
use clock::{Clock, SimClock};
use model::{
    deliver, handle, handle_all, models_by_id, rafts_among, sim_run, sim_start, sim_step,
    tick_nodes, tick_once, ClusterView, DrainView, NodeModel, SimView, FOLLOW_UP_DEPTH,
    MAX_DELIVERIES_PER_TICK,
};
use network::Network;
use trace::{Trace, TraceEvent, TraceEventKind, TracePayload};

verus! {

broadcast use vstd::std_specs::btree::group_btree_axioms;

/// Synchronous simulated node driven by [`Simulator`].
pub trait SimNode: Sized {
    /// What the node is in a model: a fixture without state, unless said
    /// otherwise.
    open spec fn model(&self) -> NodeModel {
        NodeModel::Other(Seq::empty())
    }

    /// The identity of a node.
    open spec fn id_of(model: NodeModel) -> NodeId {
        1
    }

    /// The node after `input`, and its outputs: a function of the node and the
    /// input alone.
    open spec fn next(model: NodeModel, input: InputView) -> (NodeModel, Seq<OutputView>) {
        (model, Seq::empty())
    }

    /// Returns this node's non-zero stable identifier.
    fn id(&self) -> (r: NodeId)
        ensures
            r == Self::id_of(self.model()),
    ;

    /// Handles one driver input and returns ordered outputs to be drained.
    fn step(&mut self, input: Input) -> (r: Vec<Output>)
        ensures
            (final(self).model(), outputs_view(r@)) == Self::next(old(self).model(), input@),
    ;

    /// Exposes Raft state to the driver's invariant hook; non-Raft nodes give
    /// `None`.
    fn raft(&self) -> (r: Option<&RaftNode>)
        ensures
            match r {
                Some(node) => self.model() == NodeModel::Raft(node@),
                None => self.model() is Other,
            },
    ;
}

// ── Seeds ───────────────────────────────────────────────────────────────────

/// `x` with its bits moved left by `k`, those that leave coming back in.
pub open spec fn rotated_left(x: u64, k: u64) -> u64 {
    (x << k) | (x >> ((64 - k) as u64))
}

/// `x` with its bits moved right by `k`, those that leave coming back in.
pub open spec fn rotated_right(x: u64, k: u64) -> u64 {
    (x >> k) | (x << ((64 - k) as u64))
}

/// One step of the splitmix64 generator.
pub open spec fn splitmix(value: u64) -> u64 {
    let a = value.wrapping_add(0x9e37_79b9_7f4a_7c15);
    let b = (a ^ (a >> 30)).wrapping_mul(0xbf58_476d_1ce4_e5b9);
    let c = (b ^ (b >> 27)).wrapping_mul(0x94d0_49bb_1331_11eb);
    c ^ (c >> 31)
}

/// The seed of a node's stream.
pub open spec fn node_seed(root_seed: u64, node_id: NodeId) -> Seq<u8> {
    spec_u64_to_le_bytes(splitmix(root_seed ^ rotated_left(node_id, 17))) + spec_u64_to_le_bytes(
        splitmix(rotated_left(root_seed, 23) ^ node_id),
    ) + spec_u64_to_le_bytes(
        splitmix(root_seed ^ rotated_right(node_id, 11) ^ 0x9e37_79b9_7f4a_7c15),
    ) + spec_u64_to_le_bytes(
        splitmix(rotated_right(root_seed, 29) ^ node_id ^ 0xd1b5_4a32_d192_ed03),
    )
}

fn rotate_left(x: u64, k: u64) -> (r: u64)
    requires
        0 < k < 64,
    ensures
        r == rotated_left(x, k),
{
    (x << k) | (x >> (64 - k))
}

fn rotate_right(x: u64, k: u64) -> (r: u64)
    requires
        0 < k < 64,
    ensures
        r == rotated_right(x, k),
{
    (x >> k) | (x << (64 - k))
}

fn splitmix64(value: u64) -> (r: u64)
    ensures
        r == splitmix(value),
{
    let a: u64 = value.wrapping_add(0x9e37_79b9_7f4a_7c15);
    let b: u64 = (a ^ (a >> 30)).wrapping_mul(0xbf58_476d_1ce4_e5b9);
    let c: u64 = (b ^ (b >> 27)).wrapping_mul(0x94d0_49bb_1331_11eb);
    c ^ (c >> 31)
}

/// Derives a stable, independent ChaCha8 stream for one node.
///
/// The 32-byte seed consists of four little-endian [`splitmix64`] values over
/// the root seed, node ID, and fixed domain constants. This exact derivation is
/// a replay protocol: changing it changes the result for recorded seeds.
pub fn node_rng(root_seed: u64, node_id: NodeId) -> (r: NodeRng)
    requires
        node_id != 0,
    ensures
        r@ == NodeRngView::of_seed(node_seed(root_seed, node_id)),
{
    let mut bytes: Vec<u8> = u64_to_le_bytes(splitmix64(root_seed ^ rotate_left(node_id, 17)));
    let mut second = u64_to_le_bytes(splitmix64(rotate_left(root_seed, 23) ^ node_id));
    let mut third = u64_to_le_bytes(
        splitmix64(root_seed ^ rotate_right(node_id, 11) ^ 0x9e37_79b9_7f4a_7c15),
    );
    let mut fourth = u64_to_le_bytes(
        splitmix64(rotate_right(root_seed, 29) ^ node_id ^ 0xd1b5_4a32_d192_ed03),
    );
    bytes.append(&mut second);
    bytes.append(&mut third);
    bytes.append(&mut fourth);
    let mut seed: [u8; 32] = [0;32];
    let mut i: usize = 0;
    while i < 32
        invariant
            i <= 32,
            bytes@.len() == 32,
            forall|j: int| 0 <= j < i ==> seed@[j] == bytes@[j],
        decreases 32 - i,
    {
        seed[i] = bytes[i];
        i += 1;
    }
    assert(seed@ =~= node_seed(root_seed, node_id));
    NodeRng::from_seed(seed)
}

// ── Cluster ─────────────────────────────────────────────────────────────────

/// Everything in a simulation but its clock.
pub struct Cluster<N> {
    pub nodes: BTreeMap<NodeId, N>,
    /// Application state owned by the simulator boundary, one per Raft node.
    pub state_machines: BTreeMap<NodeId, KvStateMachine>,
    /// What survives a crash, one per node.
    pub storages: BTreeMap<NodeId, MemoryStorage>,
    pub network: Network,
    /// Hard state last handed to storage per node (sim-side bookkeeping).
    pub persisted: BTreeMap<NodeId, HardState>,
    pub trace: Trace,
    /// Safety history checked after every step and delivery.
    pub invariants: InvariantChecker,
    /// What broke, if anything did.
    pub violation: Option<Violation>,
}

/// What simulated nodes are in a model.
pub open spec fn nodes_view<N: SimNode>(nodes: Map<NodeId, N>) -> Map<NodeId, NodeModel> {
    Map::new(|id: NodeId| nodes.contains_key(id), |id: NodeId| nodes[id].model())
}

/// What state machines hold.
pub open spec fn machines_view(machines: Map<NodeId, KvStateMachine>) -> Map<NodeId, KvView> {
    Map::new(|id: NodeId| machines.contains_key(id), |id: NodeId| machines[id]@)
}

/// What storages hold.
pub open spec fn storages_view(storages: Map<NodeId, MemoryStorage>) -> Map<NodeId, MemoryView> {
    Map::new(|id: NodeId| storages.contains_key(id), |id: NodeId| storages[id]@)
}

/// What inputs hold, in order.
pub open spec fn inputs_view(inputs: Seq<Input>) -> Seq<InputView> {
    Seq::new(inputs.len(), |i: int| inputs[i]@)
}

impl<N: SimNode> View for Cluster<N> {
    type V = ClusterView;

    open spec fn view(&self) -> ClusterView {
        ClusterView {
            nodes: nodes_view(self.nodes@),
            state_machines: machines_view(self.state_machines@),
            storages: storages_view(self.storages@),
            network: self.network@,
            persisted: self.persisted@,
            trace: self.trace@,
            history: self.invariants@,
            violation: self.violation,
        }
    }
}

impl<N: SimNode> Cluster<N> {
    /// Records an event.
    fn record(
        &mut self,
        tick: u64,
        kind: TraceEventKind,
        node: Option<NodeId>,
        payload: Option<TracePayload>,
    )
        ensures
            final(self)@ == old(self)@.record(tick, kind, node, trace::payload_view(payload)),
    {
        self.trace.record(TraceEvent::new(tick, kind, node, payload));
    }

    /// Checks Raft safety invariants over every Raft node.
    fn check_invariants(&mut self)
        ensures
            final(self)@ == old(self)@.check(),
    {
        let ghost before = self@;
        let ids = ascending_keys(&self.nodes);
        assert(before.nodes.dom() =~= self.nodes@.dom());
        let mut rafts: Vec<&RaftNode> = Vec::new();
        let mut i: usize = 0;
        assert(node_list_view(rafts@) =~= rafts_among(ids@.take(0), before.nodes));
        while i < ids.len()
            invariant
                i <= ids@.len(),
                lists(ids@, self.nodes@.dom()),
                before.nodes == nodes_view(self.nodes@),
                node_list_view(rafts@) == rafts_among(ids@.take(i as int), before.nodes),
            decreases ids@.len() - i,
        {
            let id: NodeId = ids[i];
            assert(ids@.contains(id));
            assert(self.nodes@.dom().contains(id));
            let ghost held = node_list_view(rafts@);
            proof {
                assert(ids@.take(i + 1).drop_last() =~= ids@.take(i as int));
                assert(ids@.take(i + 1).last() == id);
            }
            match self.nodes.get(&id) {
                Some(node) => {
                    assert(before.nodes[id] == node.model());
                    match node.raft() {
                        Some(raft) => {
                            rafts.push(raft);
                            assert(node_list_view(rafts@) =~= held.push(raft@));
                        },
                        None => {},
                    }
                },
                None => {
                    assert(false);
                },
            }
            i += 1;
        }
        assert(ids@.take(i as int) =~= ids@);
        let outcome = self.invariants.observe(rafts.as_slice());
        self.violation = match outcome {
            Ok(_) => None,
            Err(v) => Some(v),
        };
        assert(self@ =~= before.check());
    }

    /// Makes a batch durable, and says whether storage took it.
    fn flush(&mut self, from: NodeId, batch: &WriteBatch) -> (r: bool)
        ensures
            ({
                let d = DrainView {
                    cluster: old(self)@,
                    batch: batch@,
                    follow_ups: Seq::empty(),
                    stopped: false,
                }.flush(from);
                final(self)@ == d.cluster && r == !d.stopped
            }),
    {
        let ghost before = self@;
        if batch.is_empty() {
            return true;
        }
        let mut storage = match self.storages.remove(&from) {
            Some(storage) => storage,
            None => MemoryStorage::default(),
        };
        assert(storage@ == before.storage(from));
        let committed = storage.commit(batch);
        let ghost stored = storage@;
        self.storages.insert(from, storage);
        assert(self@.storages =~= before.storages.insert(from, stored));
        committed.is_ok()
    }

    /// Drains one output; see [`Output`] for the durability rules. `false` where
    /// storage refused a write, so that nothing more may be done.
    fn drain_output(
        &mut self,
        tick: u64,
        from: NodeId,
        output: Output,
        batch: &mut WriteBatch,
        follow_ups: &mut Vec<Input>,
    ) -> (r: bool)
        ensures
            (DrainView {
                cluster: final(self)@,
                batch: final(batch)@,
                follow_ups: inputs_view(final(follow_ups)@),
                stopped: !r,
            }) == (DrainView {
                cluster: old(self)@,
                batch: old(batch)@,
                follow_ups: inputs_view(old(follow_ups)@),
                stopped: false,
            }).drain(tick, from, output@),
    {
        let ghost d0 = DrainView {
            cluster: self@,
            batch: batch@,
            follow_ups: inputs_view(follow_ups@),
            stopped: false,
        };
        let ghost out = output@;
        match output {
            Output::Echo { payload } => {
                self.record(
                    tick,
                    TraceEventKind::Echo,
                    Some(from),
                    Some(TracePayload::Bytes(payload)),
                );
                true
            },
            Output::Persist(hard_state) => {
                self.persisted.insert(from, hard_state);
                batch.hard_state = Some(hard_state);
                assert(self@ =~= d0.drain(tick, from, out).cluster);
                assert(batch@ =~= d0.drain(tick, from, out).batch);
                true
            },
            Output::PersistLog { truncate_from, entries } => {
                push_log_ops(&mut batch.log, truncate_from, entries);
                assert(batch@ =~= d0.drain(tick, from, out).batch);
                true
            },
            Output::PersistSnapshot(snapshot) => {
                let meta = snapshot.meta;
                let ghost held = follow_ups@;
                batch.snapshot = Some(snapshot);
                let input = Input::SnapshotPersisted(meta);
                follow_ups.push(input);
                assert(inputs_view(follow_ups@) =~= inputs_view(held).push(
                    InputView::SnapshotPersisted(meta),
                ));
                assert(batch@ =~= d0.drain(tick, from, out).batch);
                true
            },
            Output::Redirect { leader_hint } => true,
            Output::Send { to, rpc } => {
                if !self.flush_batch(from, batch) {
                    return false;
                }
                self.record(tick, TraceEventKind::Send, Some(from), None);
                self.network.enqueue(from, to, rpc);
                true
            },
            Output::Apply(entry) => {
                if !self.flush_batch(from, batch) {
                    return false;
                }
                let ghost mid = self@;
                match self.state_machines.remove(&from) {
                    Some(machine) => {
                        let mut machine = machine;
                        // An entry that is no command changes nothing.
                        let _ = machine.apply(&entry);
                        let ghost applied = machine@;
                        self.state_machines.insert(from, machine);
                        assert(self@.state_machines =~= mid.state_machines.insert(from, applied));
                    },
                    None => {
                        assert(self@.state_machines =~= mid.state_machines);
                    },
                }
                assert(self@ =~= d0.drain(tick, from, out).cluster);
                true
            },
            Output::ApplySnapshot(snapshot) => {
                if !self.flush_batch(from, batch) {
                    return false;
                }
                let ghost mid = self@;
                match self.state_machines.remove(&from) {
                    Some(machine) => {
                        let mut machine = machine;
                        // Bytes that are no snapshot change nothing.
                        let _ = machine.restore(snapshot.data.as_slice());
                        let ghost applied = machine@;
                        self.state_machines.insert(from, machine);
                        assert(self@.state_machines =~= mid.state_machines.insert(from, applied));
                    },
                    None => {
                        assert(self@.state_machines =~= mid.state_machines);
                    },
                }
                assert(self@ =~= d0.drain(tick, from, out).cluster);
                true
            },
            Output::RequestSnapshot { last_included_index, last_included_term } => {
                if !self.flush_batch(from, batch) {
                    return false;
                }
                match self.state_machines.get(&from) {
                    Some(machine) => {
                        let meta = SnapshotMeta::new(last_included_index, last_included_term);
                        match machine.snapshot() {
                            Ok(data) => {
                                let ghost held = follow_ups@;
                                let input = Input::SnapshotTaken(Snapshot::new(meta, data));
                                let ghost added = input@;
                                follow_ups.push(input);
                                assert(inputs_view(follow_ups@) =~= inputs_view(held).push(added));
                            },
                            Err(_) => {},
                        }
                    },
                    None => {},
                }
                true
            },
        }
    }

    /// Makes the writes so far durable, and says whether storage took them.
    fn flush_batch(&mut self, from: NodeId, batch: &mut WriteBatch) -> (r: bool)
        ensures
            ({
                let d = DrainView {
                    cluster: old(self)@,
                    batch: old(batch)@,
                    follow_ups: Seq::empty(),
                    stopped: false,
                }.flush(from);
                final(self)@ == d.cluster && final(batch)@ == d.batch && r == !d.stopped
            }),
    {
        if batch.is_empty() {
            return true;
        }
        let taken: bool = self.flush(from, batch);
        *batch = WriteBatch::default();
        taken
    }

    /// Hands one input to a node, and drains what it owes.
    fn handle_input(&mut self, tick: u64, id: NodeId, input: Input, depth: u64)
        ensures
            final(self)@ == handle::<N>(old(self)@, tick, id, input@, depth as nat),
        decreases depth, 1nat, 0nat,
    {
        let ghost before = self@;
        let ghost given = input@;
        let mut node = match self.nodes.remove(&id) {
            Some(node) => node,
            None => {
                assert(self@ =~= before);
                return;
            },
        };
        assert(before.nodes[id] == node.model());
        let outputs = node.step(input);
        let ghost model = node.model();
        let ghost outs = outputs_view(outputs@);
        self.nodes.insert(id, node);
        assert(self@ =~= ClusterView { nodes: before.nodes.insert(id, model), ..before });
        self.check_invariants();
        if self.violation.is_some() {
            return;
        }
        let mut batch = WriteBatch::default();
        let mut follow_ups: Vec<Input> = Vec::new();
        let taken: bool = self.drain_outputs(tick, id, outputs, &mut batch, &mut follow_ups);
        if !taken {
            let ghost drained = DrainView::start(
                ClusterView { nodes: before.nodes.insert(id, model), ..before }.check(),
            ).drain_all(tick, id, outs);
            assert(drained.flush(id) == drained);
            return;
        }
        if !self.flush_batch(id, &mut batch) {
            return;
        }
        self.handle_inputs(tick, id, follow_ups, depth);
    }

    /// Drains ordered outputs from `from`, enqueuing sends onto the network.
    fn drain_outputs(
        &mut self,
        tick: u64,
        from: NodeId,
        outputs: Vec<Output>,
        batch: &mut WriteBatch,
        follow_ups: &mut Vec<Input>,
    ) -> (r: bool)
        requires
            old(batch)@ == BatchView::empty(),
            old(follow_ups)@.len() == 0,
        ensures
            (DrainView {
                cluster: final(self)@,
                batch: final(batch)@,
                follow_ups: inputs_view(final(follow_ups)@),
                stopped: !r,
            }) == DrainView::start(old(self)@).drain_all(tick, from, outputs_view(outputs@)),
    {
        let ghost start = DrainView::start(self@);
        let ghost all = outputs_view(outputs@);
        let mut taken: bool = true;
        assert(inputs_view(follow_ups@) =~= Seq::empty());
        for output in iter: outputs
            invariant
                iter.seq() == outputs@,
                all == outputs_view(outputs@),
                (DrainView {
                    cluster: self@,
                    batch: batch@,
                    follow_ups: inputs_view(follow_ups@),
                    stopped: !taken,
                }) == start.drain_all(tick, from, all.take(iter.index())),
        {
            let ghost i = iter.index();
            proof {
                assert(all.take(i + 1).drop_last() =~= all.take(i));
                assert(all.take(i + 1).last() == output@);
            }
            if taken {
                taken = self.drain_output(tick, from, output, batch, follow_ups);
            }
        }
        assert(all.take(outputs@.len() as int) =~= all);
        taken
    }

    /// Hands follow-up inputs to a node, one after another.
    fn handle_inputs(&mut self, tick: u64, id: NodeId, inputs: Vec<Input>, depth: u64)
        ensures
            final(self)@ == handle_all::<N>(
                old(self)@,
                tick,
                id,
                inputs_view(inputs@),
                depth as nat,
            ),
        decreases depth, 0nat, 0nat,
    {
        if depth == 0 {
            return;
        }
        let ghost before = self@;
        let ghost all = inputs_view(inputs@);
        assert(all.skip(0) =~= all);
        for input in iter: inputs
            invariant
                depth > 0,
                iter.seq() == inputs@,
                all == inputs_view(inputs@),
                handle_all::<N>(before, tick, id, all, depth as nat) == handle_all::<N>(
                    self@,
                    tick,
                    id,
                    all.skip(iter.index()),
                    depth as nat,
                ),
        {
            let ghost i = iter.index();
            proof {
                assert(all.skip(i)[0] == input@);
                assert(all.skip(i).skip(1) =~= all.skip(i + 1));
            }
            if self.violation.is_none() {
                self.handle_input(tick, id, input, depth - 1);
            }
        }
        assert(all.skip(inputs@.len() as int).len() == 0);
    }

    /// Delivers every queued message, draining any effects produced by delivery.
    fn deliver_pending(&mut self, tick: u64)
        ensures
            final(self)@ == deliver::<N>(old(self)@, tick, MAX_DELIVERIES_PER_TICK as nat),
    {
        let ghost before = self@;
        // Bound cascades to avoid infinite loops on buggy handlers.
        let mut fuel: u64 = MAX_DELIVERIES_PER_TICK;
        loop
            invariant
                deliver::<N>(before, tick, MAX_DELIVERIES_PER_TICK as nat) == deliver::<N>(
                    self@,
                    tick,
                    fuel as nat,
                ),
            ensures
                self@ == deliver::<N>(before, tick, MAX_DELIVERIES_PER_TICK as nat),
            decreases fuel,
        {
            if self.violation.is_some() {
                break ;
            }
            let ghost mid = self@;
            let message = match self.network.pop_front() {
                Some(message) => message,
                None => {
                    break ;
                },
            };
            if fuel == 0 {
                self.violation = Some(
                    Violation::CascadeExceeded { limit: MAX_DELIVERIES_PER_TICK },
                );
                assert(self@ =~= deliver::<N>(mid, tick, 0));
                break ;
            }
            fuel -= 1;
            if !self.nodes.contains_key(&message.to) {
                self.record(tick, TraceEventKind::Drop, Some(message.from), None);
                continue ;
            }
            self.record(tick, TraceEventKind::Deliver, Some(message.to), None);
            self.handle_input(
                tick,
                message.to,
                Input::Message { from: message.from, rpc: message.rpc },
                FOLLOW_UP_DEPTH,
            );
        }
    }

    /// Steps every node on the clock's tick, draining outputs immediately.
    fn tick_all(&mut self, tick: u64)
        ensures
            final(self)@ == tick_nodes::<N>(old(self)@, tick, keys_in_order(old(self)@.nodes)),
    {
        let ghost before = self@;
        let node_ids = ascending_keys(&self.nodes);
        assert(before.nodes.dom() =~= self.nodes@.dom());
        let mut i: usize = 0;
        while i < node_ids.len()
            invariant
                i <= node_ids@.len(),
                self@ == tick_nodes::<N>(before, tick, node_ids@.take(i as int)),
            decreases node_ids@.len() - i,
        {
            let node_id: NodeId = node_ids[i];
            i += 1;
            proof {
                assert(node_ids@.take(i as int).drop_last() =~= node_ids@.take(i - 1));
                assert(node_ids@.take(i as int).last() == node_id);
            }
            if self.violation.is_none() {
                self.record(tick, TraceEventKind::NodeStep, Some(node_id), None);
                self.handle_input(tick, node_id, Input::Tick, FOLLOW_UP_DEPTH);
            }
        }
        assert(node_ids@.take(i as int) =~= node_ids@);
    }

    /// One global step of the whole cluster.
    fn tick_once(&mut self, tick: u64)
        ensures
            final(self)@ == tick_once::<N>(old(self)@, tick),
    {
        proof {
            reveal(tick_once);
        }
        self.record(tick, TraceEventKind::TickStart, None, None);
        // Phase 1: step every node on Tick.
        self.tick_all(tick);
        // Phase 2: deliver all queued messages (and any cascading replies)
        // within the same logical tick, FIFO.
        self.deliver_pending(tick);
        if self.violation.is_none() {
            self.record(tick, TraceEventKind::TickEnd, None, None);
        }
    }
}

/// Appends the mutations that a log output stands for.
fn push_log_ops(log: &mut Vec<LogOp>, truncate_from: Option<u64>, entries: Vec<LogEntry>)
    ensures
        ops_view(final(log)@) == ops_view(old(log)@) + log_ops(
            truncate_from,
            entries_view(entries@),
        ),
{
    let ghost before = ops_view(log@);
    let ghost all = entries_view(entries@);
    let ghost head = match truncate_from {
        Some(index) => seq![LogOpView::TruncateFrom(index)],
        None => Seq::empty(),
    };
    match truncate_from {
        Some(index) => log.push(LogOp::TruncateFrom(index)),
        None => {},
    }
    assert(ops_view(log@) =~= before + head);
    for entry in iter: entries
        invariant
            iter.seq() == entries@,
            all == entries_view(entries@),
            ops_view(log@) =~= before + head + Seq::new(
                iter.index() as nat,
                |i: int| LogOpView::Append(all[i]),
            ),
    {
        let ghost held = ops_view(log@);
        let ghost added = entry@;
        log.push(LogOp::Append(entry));
        assert(ops_view(log@) =~= held.push(LogOpView::Append(added)));
    }
    assert(ops_view(log@) =~= before + log_ops(truncate_from, all));
}

// ── Simulator ───────────────────────────────────────────────────────────────

/// Driver-owned deterministic simulation state.
pub struct Simulator<N> {
    clock: SimClock,
    root_seed: u64,
    pub cluster: Cluster<N>,
    /// The peers of the nodes that are down.
    down: BTreeMap<NodeId, Vec<NodeId>>,
    /// How many times a node was restarted.
    boots: u64,
}

/// The peers of nodes.
pub open spec fn down_view(down: Map<NodeId, Vec<NodeId>>) -> Map<NodeId, Seq<NodeId>> {
    Map::new(|id: NodeId| down.contains_key(id), |id: NodeId| down[id]@)
}

impl<N: SimNode> View for Simulator<N> {
    type V = SimView;

    closed spec fn view(&self) -> SimView {
        SimView {
            tick: self.clock@,
            seed: self.root_seed,
            cluster: self.cluster@,
            down: down_view(self.down@),
            boots: self.boots,
        }
    }
}

/// What nodes are in a model, in order.
pub open spec fn models_view<N: SimNode>(nodes: Seq<N>) -> Seq<NodeModel> {
    Seq::new(nodes.len(), |i: int| nodes[i].model())
}

/// Whether every node has an id of its own, other than zero.
pub open spec fn ids_are_distinct<N: SimNode>(models: Seq<NodeModel>) -> bool {
    &&& forall|i: int| 0 <= i < models.len() ==> N::id_of(#[trigger] models[i]) != 0
    &&& forall|i: int, j: int|
        0 <= i < j < models.len() ==> N::id_of(#[trigger] models[i]) != N::id_of(
            #[trigger] models[j],
        )
}

impl<N: SimNode> Simulator<N> {
    /// Registers nodes and records simulation metadata at logical tick zero.
    ///
    /// Node IDs must be non-zero and unique. `BTreeMap` fixes execution and
    /// metadata order regardless of registration order.
    pub fn new(seed: u64, nodes: Vec<N>) -> (r: Self)
        requires
            ids_are_distinct::<N>(models_view(nodes@)),
        ensures
            r@ == sim_start::<N>(seed, models_view(nodes@)),
    {
        let ghost all = models_view(nodes@);
        let mut registered: BTreeMap<NodeId, N> = BTreeMap::new();
        assert(nodes_view(registered@) =~= models_by_id::<N>(all.take(0)));
        for node in iter: nodes
            invariant
                iter.seq() == nodes@,
                all == models_view(nodes@),
                nodes_view(registered@) == models_by_id::<N>(all.take(iter.index())),
        {
            let ghost i = iter.index();
            let ghost held = nodes_view(registered@);
            let ghost added = node.model();
            let node_id: NodeId = node.id();
            registered.insert(node_id, node);
            proof {
                assert(all.take(i + 1).drop_last() =~= all.take(i));
                assert(all.take(i + 1).last() == added);
                assert(nodes_view(registered@) =~= held.insert(node_id, added));
            }
        }
        assert(all.take(nodes@.len() as int) =~= all);
        let node_ids = ascending_keys(&registered);
        let ghost models = nodes_view(registered@);
        assert(models.dom() =~= registered@.dom());
        let mut state_machines: BTreeMap<NodeId, KvStateMachine> = BTreeMap::new();
        let mut storages: BTreeMap<NodeId, MemoryStorage> = BTreeMap::new();
        let mut i: usize = 0;
        while i < node_ids.len()
            invariant
                i <= node_ids@.len(),
                machines_view(state_machines@) =~= Map::new(
                    |id: NodeId| node_ids@.take(i as int).contains(id),
                    |id: NodeId| KvView::empty(),
                ),
                storages_view(storages@) =~= Map::new(
                    |id: NodeId| node_ids@.take(i as int).contains(id),
                    |id: NodeId| MemoryView::empty(),
                ),
            decreases node_ids@.len() - i,
        {
            let ghost machines = machines_view(state_machines@);
            let ghost stores = storages_view(storages@);
            state_machines.insert(node_ids[i], KvStateMachine::new());
            storages.insert(node_ids[i], MemoryStorage::default());
            i += 1;
            proof {
                assert(machines_view(state_machines@) =~= machines.insert(
                    node_ids@[i - 1],
                    KvView::empty(),
                ));
                assert(storages_view(storages@) =~= stores.insert(
                    node_ids@[i - 1],
                    MemoryView::empty(),
                ));
                let seen = node_ids@.take(i as int);
                let fewer = node_ids@.take(i - 1);
                assert(seen =~= fewer.push(node_ids@[i - 1]));
                assert forall|id: NodeId| #[trigger] seen.contains(id) == (fewer.contains(id)
                    || id == node_ids@[i - 1]) by {
                    if fewer.contains(id) {
                        assert(seen[fewer.index_of(id)] == id);
                    }
                    assert(seen[i - 1] == node_ids@[i - 1]);
                }
            }
        }
        proof {
            assert(node_ids@.take(i as int) =~= node_ids@);
            assert forall|id: NodeId| node_ids@.contains(id) == models.contains_key(id) by {
                assert(registered@.dom().contains(id) == node_ids@.contains(id));
            }
        }
        let ghost ids = node_ids@;
        let mut trace = Trace::new();
        trace.record(
            TraceEvent::new(
                0,
                TraceEventKind::SimStart,
                None,
                Some(TracePayload::SimulationStart { seed, nodes: node_ids }),
            ),
        );
        let r = Self {
            clock: SimClock::new(),
            root_seed: seed,
            cluster: Cluster {
                nodes: registered,
                state_machines,
                storages,
                network: Network::new(),
                persisted: BTreeMap::new(),
                trace,
                invariants: InvariantChecker::new(),
                violation: None,
            },
            down: BTreeMap::new(),
            boots: 0,
        };
        proof {
            let start = sim_start::<N>(seed, all);
            assert(r@.cluster.trace =~= start.cluster.trace);
            assert(r@.cluster.state_machines =~= start.cluster.state_machines);
            assert(r@.cluster.storages =~= start.cluster.storages);
            assert(r@.cluster =~= start.cluster);
            assert(r@.down =~= start.down);
            assert(r@ =~= start);
        }
        r
    }

    /// Runs `ticks` global simulation steps and returns the cumulative trace.
    pub fn run(&mut self, ticks: u64) -> (r: &Trace)
        requires
            old(self)@.tick + ticks <= u64::MAX,
        ensures
            final(self)@ == sim_run::<N>(old(self)@, ticks as nat),
            r@ == final(self)@.cluster.trace,
    {
        let ghost before = self@;
        proof {
            reveal(sim_run);
        }
        let mut done: u64 = 0;
        while done < ticks
            invariant
                done <= ticks,
                before.tick + ticks <= u64::MAX,
                self@ == sim_run::<N>(before, done as nat),
                self@.tick <= before.tick + done,
            decreases ticks - done,
        {
            let ghost mid = self@;
            if self.cluster.violation.is_none() {
                let tick: u64 = self.clock.now();
                self.cluster.tick_once(tick);
                if self.cluster.violation.is_none() {
                    self.clock.advance(1);
                }
            }
            done += 1;
            proof {
                reveal(sim_run);
                assert(self@ =~= sim_run::<N>(before, done as nat));
            }
        }
        &self.cluster.trace
    }

    /// Returns the cumulative simulation trace.
    pub fn trace(&self) -> (r: &Trace)
        ensures
            r@ == self@.cluster.trace,
    {
        &self.cluster.trace
    }

    /// Returns the root seed supplied at construction.
    pub fn seed(&self) -> (r: u64)
        ensures
            r == self@.seed,
    {
        self.root_seed
    }

    /// Returns the driver-owned logical clock.
    pub fn clock(&self) -> (r: &SimClock)
        ensures
            r@ == self@.tick,
    {
        &self.clock
    }

    /// Returns registered nodes in ascending ID order.
    pub fn nodes(&self) -> (r: &BTreeMap<NodeId, N>)
        ensures
            nodes_view(r@) == self@.cluster.nodes,
    {
        &self.cluster.nodes
    }

    /// Returns the application state machine owned by `node_id`.
    pub fn state_machine(&self, node_id: NodeId) -> (r: Option<&KvStateMachine>)
        ensures
            match r {
                Some(machine) => self@.cluster.state_machines.contains_key(node_id) && machine@
                    == self@.cluster.state_machines[node_id],
                None => !self@.cluster.state_machines.contains_key(node_id),
            },
    {
        self.cluster.state_machines.get(&node_id)
    }

    /// Returns all application state machines in ascending node-ID order.
    pub fn state_machines(&self) -> (r: &BTreeMap<NodeId, KvStateMachine>)
        ensures
            machines_view(r@) == self@.cluster.state_machines,
    {
        &self.cluster.state_machines
    }

    /// Returns last-persisted hard state per node (sim bookkeeping).
    pub fn persisted(&self) -> (r: &BTreeMap<NodeId, HardState>)
        ensures
            r@ == self@.cluster.persisted,
    {
        &self.cluster.persisted
    }

    /// Returns what broke, if anything did.
    pub fn violation(&self) -> (r: Option<Violation>)
        ensures
            r == self@.cluster.violation,
    {
        self.cluster.violation
    }

    /// Drops all messages to/from `node_id` until [`Simulator::connect_node`] is called.
    pub fn isolate_node(&mut self, node_id: NodeId)
        ensures
            final(self)@ == (SimView {
                cluster: ClusterView {
                    network: network::NetworkView {
                        isolated: old(self)@.cluster.network.isolated.insert(node_id),
                        ..old(self)@.cluster.network
                    },
                    ..old(self)@.cluster
                },
                ..old(self)@
            }),
    {
        self.cluster.network.isolate(node_id);
    }

    /// Restores message delivery for `node_id`.
    pub fn connect_node(&mut self, node_id: NodeId)
        ensures
            final(self)@ == (SimView {
                cluster: ClusterView {
                    network: network::NetworkView {
                        isolated: old(self)@.cluster.network.isolated.remove(node_id),
                        ..old(self)@.cluster.network
                    },
                    ..old(self)@.cluster
                },
                ..old(self)@
            }),
    {
        self.cluster.network.connect(node_id);
    }

    /// Delivers one input to `node_id` at the current tick and drains effects.
    ///
    /// Used by scenarios to inject client commands without advancing the clock.
    pub fn step_node(&mut self, node_id: NodeId, input: Input)
        ensures
            final(self)@ == sim_step::<N>(old(self)@, node_id, input@),
    {
        proof {
            reveal(sim_step);
        }
        if self.cluster.violation.is_some() || !self.cluster.nodes.contains_key(&node_id) {
            return;
        }
        let tick: u64 = self.clock.now();
        self.cluster.handle_input(tick, node_id, input, FOLLOW_UP_DEPTH);
        self.cluster.deliver_pending(tick);
    }
}

impl SimView {
    /// What a restart of the node would find.
    pub open spec fn recovered(self, id: NodeId) -> Option<RecoveredView> {
        if self.cluster.storages.contains_key(id) {
            match self.cluster.storages[id].recover() {
                Ok(recovered) => Some(recovered),
                Err(_) => None,
            }
        } else {
            None
        }
    }

    /// The simulation after the node lost everything that was not durable.
    #[verifier::opaque]
    pub open spec fn crash(self, id: NodeId) -> SimView {
        if self.cluster.nodes.contains_key(id) {
            SimView {
                cluster: ClusterView {
                    nodes: self.cluster.nodes.remove(id),
                    state_machines: self.cluster.state_machines.remove(id),
                    ..self.cluster
                },
                down: self.down.insert(id, self.cluster.nodes[id]->Raft_0.peers),
                ..self
            }
        } else {
            self
        }
    }

    /// The state machine that a restarted node begins with: its snapshot, or
    /// nothing.
    pub open spec fn rebooted_machine(recovered: RecoveredView) -> KvView {
        match recovered.snapshot {
            Some(snapshot) => match kv_of(snapshot.data) {
                Ok(kv) => kv,
                Err(_) => KvView::empty(),
            },
            None => KvView::empty(),
        }
    }

    /// Whether the node is down and its durable state is sound.
    pub open spec fn can_restart(self, id: NodeId) -> bool {
        id != 0 && self.down.contains_key(id) && self.recovered(id) is Some
    }

    /// The simulation after the node came back with its durable state and a
    /// fresh stream for its timeouts.
    #[verifier::opaque]
    pub open spec fn restart(self, id: NodeId) -> SimView {
        if self.can_restart(id) {
            let recovered = self.recovered(id)->0;
            let boots = next_up(self.boots);
            SimView {
                cluster: ClusterView {
                    nodes: self.cluster.nodes.insert(
                        id,
                        NodeModel::Raft(
                            NodeView::of_recovered(
                                id,
                                self.down[id],
                                NodeRngView::of_seed(node_seed(self.seed ^ boots, id)),
                                recovered,
                            ),
                        ),
                    ),
                    state_machines: self.cluster.state_machines.insert(
                        id,
                        SimView::rebooted_machine(recovered),
                    ),
                    ..self.cluster
                },
                down: self.down.remove(id),
                boots,
                ..self
            }
        } else {
            self
        }
    }
}

impl Simulator<RaftNode> {
    /// What a restart of `node_id` would find; `None` for a node that never
    /// existed or whose durable state is damaged.
    pub fn recovered(&self, node_id: NodeId) -> (r: Option<Recovered>)
        ensures
            match r {
                Some(recovered) => self@.recovered(node_id) == Some(recovered@),
                None => self@.recovered(node_id) is None,
            },
    {
        match self.cluster.storages.get(&node_id) {
            Some(storage) => match storage.recover() {
                Ok(recovered) => Some(recovered),
                Err(_) => None,
            },
            None => None,
        }
    }

    /// Takes `node_id` down: only what the driver committed to its storage
    /// survives.
    pub fn crash_node(&mut self, node_id: NodeId)
        ensures
            final(self)@ == old(self)@.crash(node_id),
    {
        let ghost before = self@;
        proof {
            reveal(SimView::crash);
        }
        match self.cluster.nodes.remove(&node_id) {
            Some(node) => {
                let ghost peers = node.peers@;
                self.cluster.state_machines.remove(&node_id);
                self.down.insert(node_id, node.peers);
                assert(self@.cluster =~= before.crash(node_id).cluster);
                assert(self@.down =~= before.crash(node_id).down);
            },
            None => {
                assert(self@.cluster =~= before.cluster);
            },
        }
        assert(self@ =~= before.crash(node_id));
    }

    /// Brings a crashed node back from its storage, and says whether it could.
    pub fn restart_node(&mut self, node_id: NodeId) -> (r: bool)
        ensures
            r == old(self)@.can_restart(node_id),
            final(self)@ == old(self)@.restart(node_id),
    {
        let ghost before = self@;
        proof {
            reveal(SimView::restart);
        }
        if node_id == 0 || !self.down.contains_key(&node_id) {
            return false;
        }
        let recovered = match self.recovered(node_id) {
            Some(recovered) => recovered,
            None => {
                return false;
            },
        };
        let ghost durable = recovered@;
        let peers = match self.down.remove(&node_id) {
            Some(peers) => peers,
            None => Vec::new(),
        };
        assert(peers@ == before.down[node_id]);
        self.boots = self.boots.saturating_add(1);
        let rng = node_rng(self.root_seed ^ self.boots, node_id);
        let mut machine = KvStateMachine::new();
        match &recovered.snapshot {
            Some(snapshot) => {
                let _ = machine.restore(snapshot.data.as_slice());
            },
            None => {},
        }
        assert(machine@ == SimView::rebooted_machine(durable));
        let node = RaftNode::recover(node_id, peers, rng, recovered);
        let ghost model = node.model();
        self.cluster.nodes.insert(node_id, node);
        self.cluster.state_machines.insert(node_id, machine);
        proof {
            let after = before.restart(node_id);
            assert(self@.cluster.nodes =~= after.cluster.nodes);
            assert(self@.cluster.state_machines =~= after.cluster.state_machines);
            assert(self@.cluster =~= after.cluster);
            assert(self@.down =~= after.down);
            assert(self@ =~= after);
        }
        true
    }
}

} // verus!
