//! What a simulation does, as a function of its state.

use vstd::prelude::*;

use crate::config::NodeId;
use crate::kv::{kv_bytes, kv_of, KvView};
use crate::maps::keys_in_order;
use crate::raft::driver::{InputView, OutputView};
use crate::raft::invariants::{HistoryView, Violation};
use crate::raft::snapshot::{SnapshotMeta, SnapshotView};
use crate::raft::storage::memory::MemoryView;
use crate::raft::storage::{log_ops, BatchView, HardState};
use crate::raft::NodeView;
use crate::sim::network::NetworkView;
use crate::sim::trace::{EventView, PayloadView, TraceEventKind};
use crate::sim::SimNode;

verus! {

/// Deliveries within one tick after which a cascade is given up.
pub const MAX_DELIVERIES_PER_TICK: u64 = 100_000;

/// How often an output may lead to another input of the same node before its
/// effects are complete: a snapshot is taken, then confirmed.
pub const FOLLOW_UP_DEPTH: u64 = 2;

/// What a simulated node is in a model: a Raft node, or the bytes that a fixture
/// is made of.
pub enum NodeModel {
    Raft(NodeView),
    Other(Seq<u8>),
}

/// Everything in a simulation but its clock.
#[verifier::ext_equal]
pub struct ClusterView {
    pub nodes: Map<NodeId, NodeModel>,
    pub state_machines: Map<NodeId, KvView>,
    pub storages: Map<NodeId, MemoryView>,
    pub network: NetworkView,
    pub persisted: Map<NodeId, HardState>,
    pub trace: Seq<EventView>,
    pub history: HistoryView,
    pub violation: Option<Violation>,
}

/// A node's outputs, partly drained.
#[verifier::ext_equal]
pub struct DrainView {
    pub cluster: ClusterView,
    /// Writes that are not durable yet.
    pub batch: BatchView,
    /// What to feed the node once its outputs are drained.
    pub follow_ups: Seq<InputView>,
    /// Whether storage refused a write, so that nothing more may be done.
    pub stopped: bool,
}

/// The Raft nodes among `ids`, in order.
pub open spec fn rafts_among(ids: Seq<NodeId>, nodes: Map<NodeId, NodeModel>) -> Seq<NodeView>
    decreases ids.len(),
{
    if ids.len() == 0 {
        Seq::empty()
    } else {
        let rest = rafts_among(ids.drop_last(), nodes);
        match nodes[ids.last()] {
            NodeModel::Raft(node) => rest.push(node),
            NodeModel::Other(_) => rest,
        }
    }
}

impl ClusterView {
    /// The cluster with one more event.
    pub open spec fn record(
        self,
        tick: u64,
        kind: TraceEventKind,
        node: Option<NodeId>,
        payload: Option<PayloadView>,
    ) -> ClusterView {
        ClusterView { trace: self.trace.push(EventView { tick, kind, node, payload }), ..self }
    }

    /// The cluster after its safety was checked.
    pub open spec fn check(self) -> ClusterView {
        let (history, violation) = self.history.observe(
            rafts_among(keys_in_order(self.nodes), self.nodes),
        );
        ClusterView { history, violation, ..self }
    }

    /// The durable state of a node.
    pub open spec fn storage(self, id: NodeId) -> MemoryView {
        if self.storages.contains_key(id) {
            self.storages[id]
        } else {
            MemoryView::empty()
        }
    }
}

impl DrainView {
    /// Nothing was drained yet.
    pub open spec fn start(cluster: ClusterView) -> DrainView {
        DrainView { cluster, batch: BatchView::empty(), follow_ups: Seq::empty(), stopped: false }
    }

    /// All writes so far made durable.
    pub open spec fn flush(self, from: NodeId) -> DrainView {
        if self.stopped || self.batch.is_empty() {
            self
        } else {
            let (storage, committed) = self.cluster.storage(from).commit(self.batch);
            DrainView {
                cluster: ClusterView {
                    storages: self.cluster.storages.insert(from, storage),
                    ..self.cluster
                },
                batch: BatchView::empty(),
                stopped: committed is Err,
                ..self
            }
        }
    }

    /// One more output drained. Every write is durable before the first send or
    /// application behind it.
    pub open spec fn drain(self, tick: u64, from: NodeId, output: OutputView) -> DrainView {
        let flushed = self.flush(from);
        let cluster = flushed.cluster;
        if self.stopped {
            self
        } else {
            match output {
                OutputView::Echo { payload } => DrainView {
                    cluster: self.cluster.record(
                        tick,
                        TraceEventKind::Echo,
                        Some(from),
                        Some(PayloadView::Bytes(payload)),
                    ),
                    ..self
                },
                OutputView::Persist(hard_state) => DrainView {
                    cluster: ClusterView {
                        persisted: self.cluster.persisted.insert(from, hard_state),
                        ..self.cluster
                    },
                    batch: BatchView { hard_state: Some(hard_state), ..self.batch },
                    ..self
                },
                OutputView::PersistLog { truncate_from, entries } => DrainView {
                    batch: BatchView {
                        log: self.batch.log + log_ops(truncate_from, entries),
                        ..self.batch
                    },
                    ..self
                },
                OutputView::PersistSnapshot(snapshot) => DrainView {
                    batch: BatchView { snapshot: Some(snapshot), ..self.batch },
                    follow_ups: self.follow_ups.push(
                        InputView::SnapshotPersisted(snapshot.meta),
                    ),
                    ..self
                },
                OutputView::Redirect { leader_hint } => self,
                OutputView::Send { to, rpc } => if flushed.stopped {
                    flushed
                } else {
                    let sent = cluster.record(tick, TraceEventKind::Send, Some(from), None);
                    DrainView {
                        cluster: ClusterView {
                            network: sent.network.enqueue(from, to, rpc),
                            ..sent
                        },
                        ..flushed
                    }
                },
                OutputView::Apply(entry) => if flushed.stopped
                    || !cluster.state_machines.contains_key(from) {
                    flushed
                } else {
                    DrainView {
                        cluster: ClusterView {
                            state_machines: cluster.state_machines.insert(
                                from,
                                cluster.state_machines[from].apply(entry).0,
                            ),
                            ..cluster
                        },
                        ..flushed
                    }
                },
                OutputView::ApplySnapshot(snapshot) => if flushed.stopped
                    || !cluster.state_machines.contains_key(from) {
                    flushed
                } else {
                    DrainView {
                        cluster: ClusterView {
                            state_machines: cluster.state_machines.insert(
                                from,
                                match kv_of(snapshot.data) {
                                    Ok(kv) => kv,
                                    Err(_) => cluster.state_machines[from],
                                },
                            ),
                            ..cluster
                        },
                        ..flushed
                    }
                },
                OutputView::RequestSnapshot { last_included_index, last_included_term } => {
                    if flushed.stopped || !cluster.state_machines.contains_key(from) {
                        flushed
                    } else {
                        DrainView {
                            follow_ups: flushed.follow_ups.push(
                                InputView::SnapshotTaken(
                                    SnapshotView {
                                        meta: SnapshotMeta {
                                            last_included_index,
                                            last_included_term,
                                        },
                                        data: kv_bytes(cluster.state_machines[from]),
                                    },
                                ),
                            ),
                            ..flushed
                        }
                    }
                },
            }
        }
    }

    /// Outputs drained, one after another.
    pub open spec fn drain_all(self, tick: u64, from: NodeId, outputs: Seq<OutputView>) -> DrainView
        decreases outputs.len(),
    {
        if outputs.len() == 0 {
            self
        } else {
            self.drain_all(tick, from, outputs.drop_last()).drain(tick, from, outputs.last())
        }
    }
}

/// One input handled by a node, with all its effects but the delivery of
/// messages. A violation of safety stops everything.
pub open spec fn handle<N: SimNode>(
    cluster: ClusterView,
    tick: u64,
    id: NodeId,
    input: InputView,
    depth: nat,
) -> ClusterView
    decreases depth, 1nat, 0nat,
{
    if !cluster.nodes.contains_key(id) {
        cluster
    } else {
        let (model, outputs) = N::next(cluster.nodes[id], input);
        let stepped = ClusterView { nodes: cluster.nodes.insert(id, model), ..cluster }.check();
        if stepped.violation is Some {
            stepped
        } else {
            let drained = DrainView::start(stepped).drain_all(tick, id, outputs).flush(id);
            let follow_ups = if drained.stopped {
                Seq::empty()
            } else {
                drained.follow_ups
            };
            handle_all::<N>(drained.cluster, tick, id, follow_ups, depth)
        }
    }
}

/// Inputs handled by a node, one after another, as far as `depth` allows.
pub open spec fn handle_all<N: SimNode>(
    cluster: ClusterView,
    tick: u64,
    id: NodeId,
    inputs: Seq<InputView>,
    depth: nat,
) -> ClusterView
    decreases depth, 0nat, inputs.len(),
{
    if depth == 0 || inputs.len() == 0 || cluster.violation is Some {
        cluster
    } else {
        handle_all::<N>(
            handle::<N>(cluster, tick, id, inputs[0], (depth - 1) as nat),
            tick,
            id,
            inputs.skip(1),
            depth,
        )
    }
}

/// Every queued message delivered, and those that delivering them causes, up to
/// `fuel` of them.
pub open spec fn deliver<N: SimNode>(cluster: ClusterView, tick: u64, fuel: nat) -> ClusterView
    decreases fuel,
{
    if cluster.violation is Some || cluster.network.queue.len() == 0 {
        cluster
    } else {
        let message = cluster.network.queue[0];
        let popped = ClusterView {
            network: NetworkView { queue: cluster.network.queue.skip(1), ..cluster.network },
            ..cluster
        };
        if fuel == 0 {
            ClusterView {
                violation: Some(Violation::CascadeExceeded { limit: MAX_DELIVERIES_PER_TICK }),
                ..popped
            }
        } else if !popped.nodes.contains_key(message.to) {
            deliver::<N>(
                popped.record(tick, TraceEventKind::Drop, Some(message.from), None),
                tick,
                (fuel - 1) as nat,
            )
        } else {
            deliver::<N>(
                handle::<N>(
                    popped.record(tick, TraceEventKind::Deliver, Some(message.to), None),
                    tick,
                    message.to,
                    InputView::Message { from: message.from, rpc: message.rpc },
                    FOLLOW_UP_DEPTH as nat,
                ),
                tick,
                (fuel - 1) as nat,
            )
        }
    }
}

/// The clock's tick handed to nodes, in order.
pub open spec fn tick_nodes<N: SimNode>(cluster: ClusterView, tick: u64, ids: Seq<NodeId>) ->
    ClusterView
    decreases ids.len(),
{
    if ids.len() == 0 {
        cluster
    } else {
        let before = tick_nodes::<N>(cluster, tick, ids.drop_last());
        if before.violation is Some {
            before
        } else {
            handle::<N>(
                before.record(tick, TraceEventKind::NodeStep, Some(ids.last()), None),
                tick,
                ids.last(),
                InputView::Tick,
                FOLLOW_UP_DEPTH as nat,
            )
        }
    }
}

/// One tick of the whole cluster: every node steps in ascending order, then all
/// messages are delivered.
#[verifier::opaque]
pub open spec fn tick_once<N: SimNode>(cluster: ClusterView, tick: u64) -> ClusterView {
    let started = cluster.record(tick, TraceEventKind::TickStart, None, None);
    let stepped = tick_nodes::<N>(started, tick, keys_in_order(started.nodes));
    let delivered = deliver::<N>(stepped, tick, MAX_DELIVERIES_PER_TICK as nat);
    if delivered.violation is Some {
        delivered
    } else {
        delivered.record(tick, TraceEventKind::TickEnd, None, None)
    }
}

/// A simulation: its clock, and everything else.
#[verifier::ext_equal]
pub struct SimView {
    pub tick: u64,
    pub seed: u64,
    pub cluster: ClusterView,
    /// The peers of the nodes that are down.
    pub down: Map<NodeId, Seq<NodeId>>,
    /// How many times a node was restarted.
    pub boots: u64,
}

/// The nodes by id.
pub open spec fn models_by_id<N: SimNode>(models: Seq<NodeModel>) -> Map<NodeId, NodeModel>
    decreases models.len(),
{
    if models.len() == 0 {
        Map::empty()
    } else {
        models_by_id::<N>(models.drop_last()).insert(N::id_of(models.last()), models.last())
    }
}

/// A simulation before its first tick.
pub open spec fn sim_start<N: SimNode>(seed: u64, models: Seq<NodeModel>) -> SimView {
    let nodes = models_by_id::<N>(models);
    SimView {
        tick: 0,
        seed,
        cluster: ClusterView {
            nodes,
            state_machines: Map::new(|id: NodeId| nodes.contains_key(id), |id: NodeId| KvView::empty()),
            storages: Map::new(
                |id: NodeId| nodes.contains_key(id),
                |id: NodeId| MemoryView::empty(),
            ),
            network: NetworkView::empty(),
            persisted: Map::empty(),
            trace: seq![
                EventView {
                    tick: 0,
                    kind: TraceEventKind::SimStart,
                    node: None,
                    payload: Some(
                        PayloadView::SimulationStart { seed, nodes: keys_in_order(nodes) },
                    ),
                },
            ],
            history: HistoryView::empty(),
            violation: None,
        },
        down: Map::empty(),
        boots: 0,
    }
}

/// A simulation after `ticks` more ticks. A violation of safety stops it.
#[verifier::opaque]
pub open spec fn sim_run<N: SimNode>(sim: SimView, ticks: nat) -> SimView
    decreases ticks,
{
    if ticks == 0 {
        sim
    } else {
        let before = sim_run::<N>(sim, (ticks - 1) as nat);
        if before.cluster.violation is Some {
            before
        } else {
            let cluster = tick_once::<N>(before.cluster, before.tick);
            SimView {
                cluster,
                tick: if cluster.violation is Some {
                    before.tick
                } else {
                    (before.tick + 1) as u64
                },
                ..before
            }
        }
    }
}

/// A simulation after one input was handed to a node and all messages that it
/// causes were delivered.
#[verifier::opaque]
pub open spec fn sim_step<N: SimNode>(sim: SimView, id: NodeId, input: InputView) -> SimView {
    if sim.cluster.violation is Some || !sim.cluster.nodes.contains_key(id) {
        sim
    } else {
        let handled = handle::<N>(sim.cluster, sim.tick, id, input, FOLLOW_UP_DEPTH as nat);
        SimView {
            cluster: deliver::<N>(handled, sim.tick, MAX_DELIVERIES_PER_TICK as nat),
            ..sim
        }
    }
}

} // verus!
