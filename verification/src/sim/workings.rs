//! How a simulation works: what becomes of outputs, messages, ticks and crashes.

use vstd::prelude::*;

use crate::config::NodeId;
use crate::kv::laws::{apply_all, kv_fits, law_snapshot_restores};
use crate::kv::{kv_bytes, kv_of, KvView};
use crate::maps::{keys_in_order, lemma_u64_lt_total, u64_lt};
use crate::raft::driver::{InputView, OutputView};
use crate::raft::invariants::Violation;
use crate::raft::log::LogEntryView;
use crate::raft::snapshot::SnapshotView;
use crate::raft::state::RaftState;
use crate::raft::storage::memory::law_commit_then_recover;
use crate::raft::storage::record::{decode_from, ops_fit, LogOpView};
use crate::raft::storage::{log_ops, BatchView};
use crate::seqs::lemma_sorted_list;
use crate::sim::model::{
    deliver, handle, handle_all, models_by_id, rafts_among, sim_run, sim_start, sim_step,
    tick_nodes, tick_once, ClusterView, DrainView, NodeModel, SimView, FOLLOW_UP_DEPTH,
    MAX_DELIVERIES_PER_TICK,
};
use crate::sim::network::{InFlightView, NetworkView};
use crate::sim::trace::{EventView, TraceEventKind};
use crate::sim::seeds::law_nodes_draw_from_streams_of_their_own;
use crate::sim::{ids_are_distinct, node_seed, SimNode};

verus! {

// ── Outputs ─────────────────────────────────────────────────────────────────

/// Nothing waits to be written.
pub open spec fn nothing_to_write(batch: BatchView) -> bool {
    batch.log.len() == 0 && batch.hard_state is None && batch.snapshot is None
}

/// What waits to be written can be.
pub open spec fn writes_succeed(dv: DrainView, from: NodeId) -> bool {
    nothing_to_write(dv.batch) || dv.cluster.storage(from).commit(dv.batch).1 is Ok
}

/// All that waited was written to the node's storage, and nothing waits.
pub open spec fn wrote_all(dv: DrainView, after: DrainView, from: NodeId) -> bool {
    &&& !after.stopped
    &&& nothing_to_write(after.batch)
    &&& after.cluster.storage(from) == if nothing_to_write(dv.batch) {
        dv.cluster.storage(from)
    } else {
        dv.cluster.storage(from).commit(dv.batch).0
    }
}

/// A message that is sent waits behind the others, unless its sender or its
/// recipient is cut off, and what the sender had to write is written first.
pub proof fn law_sent_message_waits_behind_the_others(
    dv: DrainView,
    tick: u64,
    from: NodeId,
    to: NodeId,
    rpc: crate::raft::RpcView,
)
    requires
        !dv.stopped,
        writes_succeed(dv, from),
    ensures
        ({
            let after = dv.drain(tick, from, OutputView::Send { to, rpc });
            let cut_off = dv.cluster.network.isolated.contains(from)
                || dv.cluster.network.isolated.contains(to);
            &&& wrote_all(dv, after, from)
            &&& cut_off ==> after.cluster.network == dv.cluster.network
            &&& !cut_off ==> after.cluster.network.queue == dv.cluster.network.queue.push(
                InFlightView { from, to, rpc },
            )
            &&& after.cluster.network.isolated == dv.cluster.network.isolated
            &&& after.cluster.nodes == dv.cluster.nodes
            &&& after.cluster.state_machines == dv.cluster.state_machines
            &&& after.cluster.trace == dv.cluster.trace.push(
                EventView { tick, kind: TraceEventKind::Send, node: Some(from), payload: None },
            )
        }),
{
}

/// An entry that is handed over is applied to the node's own state machine, and a
/// snapshot replaces it; both behind what the node had to write.
pub proof fn law_state_machine_gets_what_is_handed_over(
    dv: DrainView,
    tick: u64,
    from: NodeId,
    entry: LogEntryView,
    snapshot: SnapshotView,
    other: NodeId,
)
    requires
        !dv.stopped,
        writes_succeed(dv, from),
        dv.cluster.state_machines.contains_key(from),
    ensures
        ({
            let old = dv.cluster.state_machines;
            let applied = dv.drain(tick, from, OutputView::Apply(entry));
            let restored = dv.drain(tick, from, OutputView::ApplySnapshot(snapshot));
            &&& wrote_all(dv, applied, from)
            &&& wrote_all(dv, restored, from)
            &&& applied.cluster.state_machines.contains_key(from)
            &&& applied.cluster.state_machines[from] == old[from].apply(entry).0
            &&& kv_of(snapshot.data) is Ok ==> restored.cluster.state_machines.contains_key(from)
                && restored.cluster.state_machines[from] == kv_of(snapshot.data)->Ok_0
            &&& other != from ==> {
                &&& applied.cluster.state_machines.contains_key(other) == old.contains_key(other)
                &&& applied.cluster.state_machines[other] == old[other]
                &&& restored.cluster.state_machines.contains_key(other) == old.contains_key(other)
                &&& restored.cluster.state_machines[other] == old[other]
            }
        }),
{
}

/// A snapshot that is asked for is taken of the node's own state machine: it
/// restores that machine, and the node is told of it next.
pub proof fn law_snapshot_is_taken_of_the_state_machine(
    dv: DrainView,
    tick: u64,
    from: NodeId,
    index: u64,
    term: u64,
)
    requires
        !dv.stopped,
        writes_succeed(dv, from),
        dv.cluster.state_machines.contains_key(from),
        kv_fits(dv.cluster.state_machines[from]),
    ensures
        ({
            let after = dv.drain(
                tick,
                from,
                OutputView::RequestSnapshot { last_included_index: index, last_included_term: term },
            );
            let told = after.follow_ups.last();
            &&& wrote_all(dv, after, from)
            &&& after.follow_ups.len() == dv.follow_ups.len() + 1
            &&& after.follow_ups.drop_last() == dv.follow_ups
            &&& told is SnapshotTaken
            &&& told->SnapshotTaken_0.meta.last_included_index == index
            &&& told->SnapshotTaken_0.meta.last_included_term == term
            &&& kv_of(told->SnapshotTaken_0.data) is Ok
            &&& kv_of(told->SnapshotTaken_0.data)->Ok_0 == dv.cluster.state_machines[from]
        }),
{
    let kv = dv.cluster.state_machines[from];
    law_snapshot_restores(kv, Seq::empty());
    assert(kv_bytes(kv) + Seq::<u8>::empty() =~= kv_bytes(kv));
    let after = dv.drain(
        tick,
        from,
        OutputView::RequestSnapshot { last_included_index: index, last_included_term: term },
    );
    assert(after.follow_ups.drop_last() =~= dv.follow_ups);
}

/// What is to be written waits for the next send or application: the election
/// state and the snapshot given last, and the log mutations in order, a truncation
/// before the entries behind it. Once a snapshot is written the node is told.
pub proof fn law_writes_wait_together(
    dv: DrainView,
    tick: u64,
    from: NodeId,
    hard_state: crate::raft::storage::HardState,
    truncate_from: Option<u64>,
    entries: Seq<LogEntryView>,
    snapshot: SnapshotView,
)
    requires
        !dv.stopped,
    ensures
        ({
            let state = dv.drain(tick, from, OutputView::Persist(hard_state));
            let log = dv.drain(tick, from, OutputView::PersistLog { truncate_from, entries });
            let snap = dv.drain(tick, from, OutputView::PersistSnapshot(snapshot));
            let cut: int = if truncate_from is Some {
                1
            } else {
                0
            };
            let n = dv.batch.log.len() as int;
            &&& state.batch.hard_state == Some(hard_state)
            &&& state.batch.log == dv.batch.log
            &&& state.batch.snapshot == dv.batch.snapshot
            &&& state.cluster.persisted.contains_key(from)
            &&& state.cluster.persisted[from] == hard_state
            &&& log.batch.hard_state == dv.batch.hard_state
            &&& log.batch.snapshot == dv.batch.snapshot
            &&& log.batch.log.len() == n + cut + entries.len()
            &&& log.batch.log.take(n) == dv.batch.log
            &&& truncate_from is Some ==> log.batch.log[n] == LogOpView::TruncateFrom(
                truncate_from->0,
            )
            &&& forall|i: int|
                0 <= i < entries.len() ==> log.batch.log[n + cut + i] == LogOpView::Append(
                    #[trigger] entries[i],
                )
            &&& snap.batch.snapshot == Some(snapshot)
            &&& snap.batch.log == dv.batch.log
            &&& snap.batch.hard_state == dv.batch.hard_state
            &&& snap.follow_ups == dv.follow_ups.push(InputView::SnapshotPersisted(snapshot.meta))
            &&& state.cluster.network == dv.cluster.network
            &&& log.cluster == dv.cluster
            &&& snap.cluster == dv.cluster
        }),
{
    let log = dv.drain(tick, from, OutputView::PersistLog { truncate_from, entries });
    let n = dv.batch.log.len() as int;
    assert(log.batch.log.take(n) =~= dv.batch.log);
}

/// Where storage refuses a write, nothing that came behind it gets out: no message
/// is sent, no entry applied, and no output is looked at any more.
pub proof fn law_refused_write_stops_the_node(
    dv: DrainView,
    tick: u64,
    from: NodeId,
    output: OutputView,
    more: Seq<OutputView>,
)
    requires
        !dv.stopped,
        !writes_succeed(dv, from),
        output is Send || output is Apply || output is ApplySnapshot || output is RequestSnapshot,
    ensures
        ({
            let after = dv.drain(tick, from, output).drain_all(tick, from, more);
            &&& after.stopped
            &&& after.cluster.network == dv.cluster.network
            &&& after.cluster.state_machines == dv.cluster.state_machines
            &&& after.cluster.nodes == dv.cluster.nodes
            &&& after.cluster.trace == dv.cluster.trace
            &&& after.follow_ups == dv.follow_ups
        }),
{
    lemma_stopped(dv.drain(tick, from, output), tick, from, more);
}

proof fn lemma_stopped(dv: DrainView, tick: u64, from: NodeId, outputs: Seq<OutputView>)
    requires
        dv.stopped,
    ensures
        dv.drain_all(tick, from, outputs) == dv,
    decreases outputs.len(),
{
    if outputs.len() > 0 {
        lemma_stopped(dv, tick, from, outputs.drop_last());
    }
}

// ── Inputs ──────────────────────────────────────────────────────────────────

/// The outputs have nothing to do with snapshots, so that they lead to no other
/// input of the same node.
pub open spec fn without_snapshots(outputs: Seq<OutputView>) -> bool {
    forall|i: int|
        0 <= i < outputs.len() ==> !((#[trigger] outputs[i]) is PersistSnapshot)
            && !(outputs[i] is RequestSnapshot)
}

proof fn lemma_no_follow_ups(dv: DrainView, tick: u64, from: NodeId, outputs: Seq<OutputView>)
    requires
        without_snapshots(outputs),
    ensures
        dv.drain_all(tick, from, outputs).follow_ups == dv.follow_ups,
        dv.drain_all(tick, from, outputs).cluster.nodes == dv.cluster.nodes,
    decreases outputs.len(),
{
    if outputs.len() > 0 {
        let fewer = outputs.drop_last();
        assert forall|i: int| 0 <= i < fewer.len() implies !((
        #[trigger] fewer[i]) is PersistSnapshot) && !(fewer[i] is RequestSnapshot) by {
            assert(fewer[i] == outputs[i]);
        }
        lemma_no_follow_ups(dv, tick, from, fewer);
        assert(!(outputs[outputs.len() - 1] is PersistSnapshot));
    }
}

/// A node that is given an input becomes what it makes of it, and no other node
/// changes.
pub proof fn law_node_handles_its_input<N: SimNode>(
    cluster: ClusterView,
    tick: u64,
    id: NodeId,
    input: InputView,
    depth: nat,
)
    requires
        cluster.nodes.contains_key(id),
        without_snapshots(N::next(cluster.nodes[id], input).1),
    ensures
        handle::<N>(cluster, tick, id, input, depth).nodes == cluster.nodes.insert(
            id,
            N::next(cluster.nodes[id], input).0,
        ),
{
    let (model, outputs) = N::next(cluster.nodes[id], input);
    let stepped = ClusterView { nodes: cluster.nodes.insert(id, model), ..cluster }.check();
    lemma_no_follow_ups(DrainView::start(stepped), tick, id, outputs);
}

/// What the handling of an input may change of the other nodes: nothing, whatever
/// snapshots it leads to.
proof fn lemma_others_stay<N: SimNode>(
    cluster: ClusterView,
    tick: u64,
    id: NodeId,
    input: InputView,
    depth: nat,
    other: NodeId,
)
    requires
        other != id,
    ensures
        handle::<N>(cluster, tick, id, input, depth).nodes.contains_key(other)
            == cluster.nodes.contains_key(other),
        handle::<N>(cluster, tick, id, input, depth).nodes[other] == cluster.nodes[other],
    decreases depth, 1nat, 0nat,
{
    if cluster.nodes.contains_key(id) {
        let (model, outputs) = N::next(cluster.nodes[id], input);
        let stepped = ClusterView { nodes: cluster.nodes.insert(id, model), ..cluster }.check();
        if stepped.violation is None {
            let drained = DrainView::start(stepped).drain_all(tick, id, outputs).flush(id);
            lemma_drained_nodes(DrainView::start(stepped), tick, id, outputs);
            let follow_ups = if drained.stopped {
                Seq::empty()
            } else {
                drained.follow_ups
            };
            lemma_others_stay_all::<N>(drained.cluster, tick, id, follow_ups, depth, other);
        }
    }
}

proof fn lemma_others_stay_all<N: SimNode>(
    cluster: ClusterView,
    tick: u64,
    id: NodeId,
    inputs: Seq<InputView>,
    depth: nat,
    other: NodeId,
)
    requires
        other != id,
    ensures
        handle_all::<N>(cluster, tick, id, inputs, depth).nodes.contains_key(other)
            == cluster.nodes.contains_key(other),
        handle_all::<N>(cluster, tick, id, inputs, depth).nodes[other] == cluster.nodes[other],
    decreases depth, 0nat, inputs.len(),
{
    if depth > 0 && inputs.len() > 0 && cluster.violation is None {
        lemma_others_stay::<N>(cluster, tick, id, inputs[0], (depth - 1) as nat, other);
        lemma_others_stay_all::<N>(
            handle::<N>(cluster, tick, id, inputs[0], (depth - 1) as nat),
            tick,
            id,
            inputs.skip(1),
            depth,
            other,
        );
    }
}

proof fn lemma_drained_nodes(dv: DrainView, tick: u64, from: NodeId, outputs: Seq<OutputView>)
    ensures
        dv.drain_all(tick, from, outputs).cluster.nodes == dv.cluster.nodes,
    decreases outputs.len(),
{
    if outputs.len() > 0 {
        lemma_drained_nodes(dv, tick, from, outputs.drop_last());
    }
}

/// The nodes break no rule after the input.
pub open spec fn stays_safe<N: SimNode>(cluster: ClusterView, id: NodeId, input: InputView) -> bool {
    let nodes = cluster.nodes.insert(id, N::next(cluster.nodes[id], input).0);
    cluster.history.observe(rafts_among(keys_in_order(nodes), nodes)).1 is None
}

proof fn lemma_sends_drained(dv: DrainView, tick: u64, from: NodeId, outputs: Seq<OutputView>)
    requires
        !dv.stopped,
        nothing_to_write(dv.batch),
        dv.cluster.network.isolated =~= Set::empty(),
        forall|i: int| 0 <= i < outputs.len() ==> (#[trigger] outputs[i]) is Send,
    ensures
        ({
            let after = dv.drain_all(tick, from, outputs);
            &&& !after.stopped
            &&& nothing_to_write(after.batch)
            &&& after.follow_ups == dv.follow_ups
            &&& after.cluster.network.isolated == dv.cluster.network.isolated
            &&& after.cluster.network.queue == dv.cluster.network.queue + Seq::new(
                outputs.len(),
                |i: int| InFlightView { from, to: outputs[i]->to, rpc: outputs[i]->rpc },
            )
        }),
    decreases outputs.len(),
{
    let sent = |o: Seq<OutputView>|
        Seq::new(o.len(), |i: int| InFlightView { from, to: o[i]->to, rpc: o[i]->rpc });
    if outputs.len() == 0 {
        assert(dv.cluster.network.queue + sent(outputs) =~= dv.cluster.network.queue);
    } else {
        let fewer = outputs.drop_last();
        assert forall|i: int| 0 <= i < fewer.len() implies (#[trigger] fewer[i]) is Send by {
            assert(fewer[i] == outputs[i]);
        }
        lemma_sends_drained(dv, tick, from, fewer);
        assert(outputs[outputs.len() - 1] is Send);
        let after = dv.drain_all(tick, from, outputs);
        assert(after.cluster.network.queue =~= dv.cluster.network.queue + sent(outputs));
    }
}

/// Whatever a node sends is on its way, in order, behind what already was.
pub proof fn law_all_that_is_sent_is_on_its_way<N: SimNode>(
    cluster: ClusterView,
    tick: u64,
    id: NodeId,
    input: InputView,
    depth: nat,
)
    requires
        cluster.nodes.contains_key(id),
        cluster.network.isolated =~= Set::empty(),
        stays_safe::<N>(cluster, id, input),
        ({
            let outputs = N::next(cluster.nodes[id], input).1;
            forall|i: int| 0 <= i < outputs.len() ==> (#[trigger] outputs[i]) is Send
        }),
    ensures
        ({
            let outputs = N::next(cluster.nodes[id], input).1;
            handle::<N>(cluster, tick, id, input, depth).network.queue == cluster.network.queue
                + Seq::new(
                outputs.len(),
                |i: int| InFlightView { from: id, to: outputs[i]->to, rpc: outputs[i]->rpc },
            )
        }),
{
    let (model, outputs) = N::next(cluster.nodes[id], input);
    let stepped = ClusterView { nodes: cluster.nodes.insert(id, model), ..cluster }.check();
    lemma_sends_drained(DrainView::start(stepped), tick, id, outputs);
}

proof fn lemma_applies_drained(dv: DrainView, tick: u64, from: NodeId, outputs: Seq<OutputView>)
    requires
        !dv.stopped,
        nothing_to_write(dv.batch),
        dv.cluster.state_machines.contains_key(from),
        forall|i: int| 0 <= i < outputs.len() ==> (#[trigger] outputs[i]) is Apply,
    ensures
        ({
            let after = dv.drain_all(tick, from, outputs);
            &&& !after.stopped
            &&& nothing_to_write(after.batch)
            &&& after.follow_ups == dv.follow_ups
            &&& after.cluster.state_machines.contains_key(from)
            &&& after.cluster.state_machines[from] == apply_all(
                dv.cluster.state_machines[from],
                Seq::new(outputs.len(), |i: int| outputs[i]->Apply_0),
            )
        }),
    decreases outputs.len(),
{
    let entries = Seq::new(outputs.len(), |i: int| outputs[i]->Apply_0);
    if outputs.len() > 0 {
        let fewer = outputs.drop_last();
        assert forall|i: int| 0 <= i < fewer.len() implies (#[trigger] fewer[i]) is Apply by {
            assert(fewer[i] == outputs[i]);
        }
        lemma_applies_drained(dv, tick, from, fewer);
        assert(outputs[outputs.len() - 1] is Apply);
        assert(entries.drop_last() =~= Seq::new(fewer.len(), |i: int| fewer[i]->Apply_0));
    }
}

/// Whatever a node hands over is applied to its state machine, in order.
pub proof fn law_all_that_is_handed_over_is_applied<N: SimNode>(
    cluster: ClusterView,
    tick: u64,
    id: NodeId,
    input: InputView,
    depth: nat,
)
    requires
        cluster.nodes.contains_key(id),
        cluster.state_machines.contains_key(id),
        stays_safe::<N>(cluster, id, input),
        ({
            let outputs = N::next(cluster.nodes[id], input).1;
            forall|i: int| 0 <= i < outputs.len() ==> (#[trigger] outputs[i]) is Apply
        }),
    ensures
        ({
            let outputs = N::next(cluster.nodes[id], input).1;
            handle::<N>(cluster, tick, id, input, depth).state_machines[id] == apply_all(
                cluster.state_machines[id],
                Seq::new(outputs.len(), |i: int| outputs[i]->Apply_0),
            )
        }),
{
    let (model, outputs) = N::next(cluster.nodes[id], input);
    let stepped = ClusterView { nodes: cluster.nodes.insert(id, model), ..cluster }.check();
    lemma_applies_drained(DrainView::start(stepped), tick, id, outputs);
}

/// What a node writes is in its storage once its outputs are drained, also where
/// nothing is sent or applied behind it.
pub proof fn law_last_write_is_written<N: SimNode>(
    cluster: ClusterView,
    tick: u64,
    id: NodeId,
    input: InputView,
    depth: nat,
    truncate_from: Option<u64>,
    entries: Seq<LogEntryView>,
)
    requires
        cluster.nodes.contains_key(id),
        stays_safe::<N>(cluster, id, input),
        N::next(cluster.nodes[id], input).1 == seq![
            OutputView::PersistLog { truncate_from, entries },
        ],
        entries.len() > 0,
        cluster.storages.contains_key(id),
        cluster.storages[id].fail_commits == 0,
        decode_from(cluster.storages[id].log_bytes, 0) is Ok,
        ops_fit(log_ops(truncate_from, entries)),
    ensures
        ({
            let after = handle::<N>(cluster, tick, id, input, depth).storages;
            &&& after.contains_key(id)
            &&& decode_from(after[id].log_bytes, 0) is Ok
            &&& decode_from(after[id].log_bytes, 0)->Ok_0.0 == decode_from(
                cluster.storages[id].log_bytes,
                0,
            )->Ok_0.0 + log_ops(truncate_from, entries)
        }),
{
    let (model, outputs) = N::next(cluster.nodes[id], input);
    let stepped = ClusterView { nodes: cluster.nodes.insert(id, model), ..cluster }.check();
    let start = DrainView::start(stepped);
    assert(outputs.drop_last() =~= Seq::empty());
    reveal_with_fuel(DrainView::drain_all, 2);
    let drained = start.drain_all(tick, id, outputs);
    assert(drained.batch.log =~= log_ops(truncate_from, entries));
    assert(drained.batch.log.len() > 0);
    law_commit_then_recover(cluster.storages[id], drained.batch);
}

/// Each of the nodes is given the tick once, whatever the others do with it: it
/// becomes what it makes of a tick, where that leads to no snapshot. The rest stay.
pub proof fn law_each_node_ticks_once<N: SimNode>(
    cluster: ClusterView,
    tick: u64,
    ids: Seq<NodeId>,
    id: NodeId,
)
    requires
        ids.no_duplicates(),
        cluster.violation is None,
        tick_nodes::<N>(cluster, tick, ids).violation is None,
        cluster.nodes.contains_key(id),
        without_snapshots(N::next(cluster.nodes[id], InputView::Tick).1),
    ensures
        ({
            let after = tick_nodes::<N>(cluster, tick, ids);
            &&& after.nodes.contains_key(id)
            &&& ids.contains(id) ==> after.nodes[id] == N::next(
                cluster.nodes[id],
                InputView::Tick,
            ).0
            &&& !ids.contains(id) ==> after.nodes[id] == cluster.nodes[id]
        }),
    decreases ids.len(),
{
    if ids.len() > 0 {
        let fewer = ids.drop_last();
        let last = ids[ids.len() - 1];
        assert(ids.last() == last);
        let before = tick_nodes::<N>(cluster, tick, fewer);
        assert(fewer.no_duplicates()) by {
            assert forall|i: int, j: int|
                0 <= i < fewer.len() && 0 <= j < fewer.len() && i != j implies fewer[i]
                != fewer[j] by {
                assert(ids[i] != ids[j]);
            }
        }
        law_each_node_ticks_once::<N>(cluster, tick, fewer, id);
        let noted = before.record(tick, TraceEventKind::NodeStep, Some(last), None);
        if last == id {
            assert(!fewer.contains(id)) by {
                if fewer.contains(id) {
                    let i = fewer.index_of(id);
                    assert(ids[i] == ids[ids.len() - 1]);
                }
            }
            law_node_handles_its_input::<N>(
                noted,
                tick,
                id,
                InputView::Tick,
                FOLLOW_UP_DEPTH as nat,
            );
            assert(ids.contains(id));
        } else {
            lemma_others_stay::<N>(
                noted,
                tick,
                last,
                InputView::Tick,
                FOLLOW_UP_DEPTH as nat,
                id,
            );
            assert(ids.contains(id) == fewer.contains(id)) by {
                if ids.contains(id) {
                    let i = ids.index_of(id);
                    assert(fewer[i] == id);
                }
                if fewer.contains(id) {
                    assert(ids[fewer.index_of(id)] == id);
                }
            }
        }
    }
}

// ── Messages ────────────────────────────────────────────────────────────────

/// Delivering ends with no message waiting, unless safety broke.
pub proof fn law_delivery_leaves_no_message<N: SimNode>(cluster: ClusterView, tick: u64, fuel: nat)
    ensures
        ({
            let after = deliver::<N>(cluster, tick, fuel);
            after.violation is None ==> after.network.queue.len() == 0
        }),
    decreases fuel,
{
    if cluster.violation is None && cluster.network.queue.len() > 0 && fuel > 0 {
        let message = cluster.network.queue[0];
        let popped = ClusterView {
            network: NetworkView { queue: cluster.network.queue.skip(1), ..cluster.network },
            ..cluster
        };
        if !popped.nodes.contains_key(message.to) {
            law_delivery_leaves_no_message::<N>(
                popped.record(tick, TraceEventKind::Drop, Some(message.from), None),
                tick,
                (fuel - 1) as nat,
            );
        } else {
            law_delivery_leaves_no_message::<N>(
                handle::<N>(
                    popped.record(tick, TraceEventKind::Deliver, Some(message.to), None),
                    tick,
                    message.to,
                    InputView::Message { from: message.from, rpc: message.rpc },
                    FOLLOW_UP_DEPTH as nat,
                ),
                tick,
                (fuel - 1) as nat,
            );
        }
    }
}

/// The cluster in which the first message has reached its recipient, and the other
/// nodes are as they were. One to a node that is not there is lost.
pub open spec fn first_message_arrived<N: SimNode>(before: ClusterView, after: ClusterView) -> bool {
    let message = before.network.queue[0];
    let to = message.to;
    if before.nodes.contains_key(to) {
        after.nodes == before.nodes.insert(
            to,
            N::next(
                before.nodes[to],
                InputView::Message { from: message.from, rpc: message.rpc },
            ).0,
        )
    } else {
        &&& after.nodes == before.nodes
        &&& after.network.queue == before.network.queue.skip(1)
        &&& after.state_machines == before.state_machines
    }
}

/// The message that waits longest reaches its recipient, who makes of it what it
/// does, and delivery goes on from there.
pub proof fn law_first_message_reaches_its_recipient<N: SimNode>(
    cluster: ClusterView,
    tick: u64,
    fuel: nat,
) -> (between: ClusterView)
    requires
        cluster.violation is None,
        cluster.network.queue.len() > 0,
        fuel > 0,
        ({
            let m = cluster.network.queue[0];
            cluster.nodes.contains_key(m.to) ==> without_snapshots(
                N::next(
                    cluster.nodes[m.to],
                    InputView::Message { from: m.from, rpc: m.rpc },
                ).1,
            )
        }),
    ensures
        first_message_arrived::<N>(cluster, between),
        deliver::<N>(cluster, tick, fuel) == deliver::<N>(between, tick, (fuel - 1) as nat),
{
    let message = cluster.network.queue[0];
    let popped = ClusterView {
        network: NetworkView { queue: cluster.network.queue.skip(1), ..cluster.network },
        ..cluster
    };
    if !popped.nodes.contains_key(message.to) {
        popped.record(tick, TraceEventKind::Drop, Some(message.from), None)
    } else {
        let noted = popped.record(tick, TraceEventKind::Deliver, Some(message.to), None);
        let input = InputView::Message { from: message.from, rpc: message.rpc };
        law_node_handles_its_input::<N>(
            noted,
            tick,
            message.to,
            input,
            FOLLOW_UP_DEPTH as nat,
        );
        handle::<N>(noted, tick, message.to, input, FOLLOW_UP_DEPTH as nat)
    }
}

/// How many events of a kind a trace holds.
pub open spec fn count_of(trace: Seq<EventView>, kind: TraceEventKind) -> nat
    decreases trace.len(),
{
    if trace.len() == 0 {
        0
    } else {
        count_of(trace.drop_last(), kind) + if trace.last().kind == kind {
            1nat
        } else {
            0
        }
    }
}

/// No message gets lost on the way: of those sent, each was delivered, was for a
/// node that is not there, or waits. No node is cut off.
pub open spec fn messages_accounted_for(cluster: ClusterView) -> bool {
    &&& cluster.network.isolated =~= Set::empty()
    &&& count_of(cluster.trace, TraceEventKind::Send) == count_of(
        cluster.trace,
        TraceEventKind::Deliver,
    ) + count_of(cluster.trace, TraceEventKind::Drop) + cluster.network.queue.len()
}

proof fn lemma_count_push(trace: Seq<EventView>, event: EventView, kind: TraceEventKind)
    ensures
        count_of(trace.push(event), kind) == count_of(trace, kind) + if event.kind == kind {
            1nat
        } else {
            0
        },
{
    assert(trace.push(event).drop_last() =~= trace);
}

proof fn lemma_recorded(
    cluster: ClusterView,
    tick: u64,
    kind: TraceEventKind,
    node: Option<NodeId>,
    payload: Option<crate::sim::trace::PayloadView>,
)
    ensures
        ({
            let after = cluster.record(tick, kind, node, payload);
            forall|k: TraceEventKind| #[trigger]
                count_of(after.trace, k) == count_of(cluster.trace, k) + if k == kind {
                    1nat
                } else {
                    0
                }
        }),
{
    let after = cluster.record(tick, kind, node, payload);
    assert forall|k: TraceEventKind| #[trigger] count_of(after.trace, k) == count_of(
        cluster.trace,
        k,
    ) + if k == kind {
        1nat
    } else {
        0
    } by {
        lemma_count_push(cluster.trace, EventView { tick, kind, node, payload }, k);
    }
}

proof fn lemma_drain_accounts(dv: DrainView, tick: u64, from: NodeId, outputs: Seq<OutputView>)
    requires
        messages_accounted_for(dv.cluster),
    ensures
        messages_accounted_for(dv.drain_all(tick, from, outputs).cluster),
    decreases outputs.len(),
{
    if outputs.len() > 0 {
        lemma_drain_accounts(dv, tick, from, outputs.drop_last());
        let before = dv.drain_all(tick, from, outputs.drop_last());
        let flushed = before.flush(from);
        match outputs.last() {
            OutputView::Echo { payload } => {
                lemma_recorded(
                    before.cluster,
                    tick,
                    TraceEventKind::Echo,
                    Some(from),
                    Some(crate::sim::trace::PayloadView::Bytes(payload)),
                );
            },
            OutputView::Send { to, rpc } => {
                lemma_recorded(flushed.cluster, tick, TraceEventKind::Send, Some(from), None);
            },
            _ => {},
        }
    }
}

proof fn lemma_handle_accounts<N: SimNode>(
    cluster: ClusterView,
    tick: u64,
    id: NodeId,
    input: InputView,
    depth: nat,
)
    requires
        messages_accounted_for(cluster),
    ensures
        messages_accounted_for(handle::<N>(cluster, tick, id, input, depth)),
    decreases depth, 1nat, 0nat,
{
    if cluster.nodes.contains_key(id) {
        let (model, outputs) = N::next(cluster.nodes[id], input);
        let stepped = ClusterView { nodes: cluster.nodes.insert(id, model), ..cluster }.check();
        if stepped.violation is None {
            let start = DrainView::start(stepped);
            lemma_drain_accounts(start, tick, id, outputs);
            let drained = start.drain_all(tick, id, outputs).flush(id);
            let follow_ups = if drained.stopped {
                Seq::empty()
            } else {
                drained.follow_ups
            };
            lemma_handle_all_accounts::<N>(drained.cluster, tick, id, follow_ups, depth);
        }
    }
}

proof fn lemma_handle_all_accounts<N: SimNode>(
    cluster: ClusterView,
    tick: u64,
    id: NodeId,
    inputs: Seq<InputView>,
    depth: nat,
)
    requires
        messages_accounted_for(cluster),
    ensures
        messages_accounted_for(handle_all::<N>(cluster, tick, id, inputs, depth)),
    decreases depth, 0nat, inputs.len(),
{
    if depth > 0 && inputs.len() > 0 && cluster.violation is None {
        lemma_handle_accounts::<N>(cluster, tick, id, inputs[0], (depth - 1) as nat);
        lemma_handle_all_accounts::<N>(
            handle::<N>(cluster, tick, id, inputs[0], (depth - 1) as nat),
            tick,
            id,
            inputs.skip(1),
            depth,
        );
    }
}

proof fn lemma_deliver_accounts<N: SimNode>(cluster: ClusterView, tick: u64, fuel: nat)
    requires
        messages_accounted_for(cluster),
    ensures
        ({
            let after = deliver::<N>(cluster, tick, fuel);
            after.violation is None ==> messages_accounted_for(after)
        }),
    decreases fuel,
{
    if cluster.violation is None && cluster.network.queue.len() > 0 && fuel > 0 {
        let message = cluster.network.queue[0];
        let popped = ClusterView {
            network: NetworkView { queue: cluster.network.queue.skip(1), ..cluster.network },
            ..cluster
        };
        if !popped.nodes.contains_key(message.to) {
            lemma_recorded(popped, tick, TraceEventKind::Drop, Some(message.from), None);
            lemma_deliver_accounts::<N>(
                popped.record(tick, TraceEventKind::Drop, Some(message.from), None),
                tick,
                (fuel - 1) as nat,
            );
        } else {
            lemma_recorded(popped, tick, TraceEventKind::Deliver, Some(message.to), None);
            let noted = popped.record(tick, TraceEventKind::Deliver, Some(message.to), None);
            let input = InputView::Message { from: message.from, rpc: message.rpc };
            lemma_handle_accounts::<N>(
                noted,
                tick,
                message.to,
                input,
                FOLLOW_UP_DEPTH as nat,
            );
            lemma_deliver_accounts::<N>(
                handle::<N>(noted, tick, message.to, input, FOLLOW_UP_DEPTH as nat),
                tick,
                (fuel - 1) as nat,
            );
        }
    }
}

proof fn lemma_tick_nodes_accounts<N: SimNode>(cluster: ClusterView, tick: u64, ids: Seq<NodeId>)
    requires
        messages_accounted_for(cluster),
    ensures
        messages_accounted_for(tick_nodes::<N>(cluster, tick, ids)),
    decreases ids.len(),
{
    if ids.len() > 0 {
        lemma_tick_nodes_accounts::<N>(cluster, tick, ids.drop_last());
        let before = tick_nodes::<N>(cluster, tick, ids.drop_last());
        if before.violation is None {
            lemma_recorded(before, tick, TraceEventKind::NodeStep, Some(ids.last()), None);
            lemma_handle_accounts::<N>(
                before.record(tick, TraceEventKind::NodeStep, Some(ids.last()), None),
                tick,
                ids.last(),
                InputView::Tick,
                FOLLOW_UP_DEPTH as nat,
            );
        }
    }
}

/// While no node is cut off, no message gets lost, however long a simulation runs:
/// after each tick every message that was ever sent was delivered, or was for a
/// node that was not there.
pub proof fn law_no_message_is_lost<N: SimNode>(sim: SimView, ticks: nat)
    requires
        messages_accounted_for(sim.cluster),
        sim_run::<N>(sim, ticks).cluster.violation is None,
    ensures
        messages_accounted_for(sim_run::<N>(sim, ticks).cluster),
        ticks > 0 ==> sim_run::<N>(sim, ticks).cluster.network.queue.len() == 0,
    decreases ticks,
{
    reveal(sim_run);
    reveal(tick_once);
    if ticks > 0 {
        let before = sim_run::<N>(sim, (ticks - 1) as nat);
        law_no_message_is_lost::<N>(sim, (ticks - 1) as nat);
        let tick = before.tick;
        lemma_recorded(before.cluster, tick, TraceEventKind::TickStart, None, None);
        let started = before.cluster.record(tick, TraceEventKind::TickStart, None, None);
        let ids = keys_in_order(started.nodes);
        lemma_tick_nodes_accounts::<N>(started, tick, ids);
        let stepped = tick_nodes::<N>(started, tick, ids);
        lemma_deliver_accounts::<N>(stepped, tick, MAX_DELIVERIES_PER_TICK as nat);
        law_delivery_leaves_no_message::<N>(stepped, tick, MAX_DELIVERIES_PER_TICK as nat);
        let delivered = deliver::<N>(stepped, tick, MAX_DELIVERIES_PER_TICK as nat);
        lemma_recorded(delivered, tick, TraceEventKind::TickEnd, None, None);
    }
}

// ── Time ────────────────────────────────────────────────────────────────────

/// Running on is running longer, and while safety holds the clock goes on by one
/// with each tick. Once it broke, nothing moves any more.
pub proof fn law_running_on_is_running_longer<N: SimNode>(sim: SimView, first: nat, second: nat)
    ensures
        sim_run::<N>(sim_run::<N>(sim, first), second) == sim_run::<N>(sim, first + second),
        sim.cluster.violation is Some ==> sim_run::<N>(sim, first) == sim,
        sim_run::<N>(sim, first).cluster.violation is None && sim.tick + first <= u64::MAX
            ==> sim_run::<N>(sim, first).tick == sim.tick + first,
        sim_run::<N>(sim, first).seed == sim.seed,
        sim_run::<N>(sim, first).down == sim.down,
        sim_run::<N>(sim, first).boots == sim.boots,
    decreases second, first,
{
    reveal(sim_run);
    if second > 0 {
        law_running_on_is_running_longer::<N>(sim, first, (second - 1) as nat);
        assert((first + second - 1) as nat == first + (second - 1) as nat);
    } else if first > 0 {
        law_running_on_is_running_longer::<N>(sim, (first - 1) as nat, 0);
    }
}

proof fn lemma_quiet_handle<N: SimNode>(
    cluster: ClusterView,
    tick: u64,
    id: NodeId,
    input: InputView,
    depth: nat,
)
    requires
        cluster.nodes.contains_key(id),
        N::next(cluster.nodes[id], input).1.len() == 0,
    ensures
        ({
            let after = handle::<N>(cluster, tick, id, input, depth);
            &&& after.nodes == cluster.nodes.insert(id, N::next(cluster.nodes[id], input).0)
            &&& after.network == cluster.network
            &&& after.storages == cluster.storages
            &&& after.state_machines == cluster.state_machines
        }),
{
    let (model, outputs) = N::next(cluster.nodes[id], input);
    let stepped = ClusterView { nodes: cluster.nodes.insert(id, model), ..cluster }.check();
    let start = DrainView::start(stepped);
    assert(start.drain_all(tick, id, outputs) == start);
}

proof fn lemma_quiet_tick_nodes<N: SimNode>(cluster: ClusterView, tick: u64, ids: Seq<NodeId>)
    requires
        ids.no_duplicates(),
        cluster.violation is None,
        forall|i: int| 0 <= i < ids.len() ==> cluster.nodes.contains_key(#[trigger] ids[i]),
        forall|i: int|
            0 <= i < ids.len() ==> N::next(
                cluster.nodes[#[trigger] ids[i]],
                InputView::Tick,
            ).1.len() == 0,
        tick_nodes::<N>(cluster, tick, ids).violation is None,
    ensures
        ({
            let after = tick_nodes::<N>(cluster, tick, ids);
            &&& after.network == cluster.network
            &&& after.storages == cluster.storages
            &&& after.state_machines == cluster.state_machines
            &&& after.nodes.dom() == cluster.nodes.dom()
            &&& forall|id: NodeId| #[trigger]
                cluster.nodes.contains_key(id) ==> after.nodes[id] == if ids.contains(id) {
                    N::next(cluster.nodes[id], InputView::Tick).0
                } else {
                    cluster.nodes[id]
                }
        }),
    decreases ids.len(),
{
    if ids.len() > 0 {
        let fewer = ids.drop_last();
        let last = ids[ids.len() - 1];
        assert(ids.last() == last);
        let before = tick_nodes::<N>(cluster, tick, fewer);
        assert(fewer.no_duplicates()) by {
            assert forall|i: int, j: int|
                0 <= i < fewer.len() && 0 <= j < fewer.len() && i != j implies fewer[i]
                != fewer[j] by {
                assert(ids[i] != ids[j]);
            }
        }
        assert forall|i: int| 0 <= i < fewer.len() implies cluster.nodes.contains_key(
            #[trigger] fewer[i],
        ) && N::next(cluster.nodes[fewer[i]], InputView::Tick).1.len() == 0 by {
            assert(fewer[i] == ids[i]);
        }
        lemma_quiet_tick_nodes::<N>(cluster, tick, fewer);
        assert(!fewer.contains(last)) by {
            if fewer.contains(last) {
                let i = fewer.index_of(last);
                assert(ids[i] == ids[ids.len() - 1]);
            }
        }
        assert(cluster.nodes.contains_key(last));
        assert(before.nodes[last] == cluster.nodes[last]);
        assert(before.nodes.dom().contains(last));
        let noted = before.record(tick, TraceEventKind::NodeStep, Some(last), None);
        lemma_quiet_handle::<N>(noted, tick, last, InputView::Tick, FOLLOW_UP_DEPTH as nat);
        let after = tick_nodes::<N>(cluster, tick, ids);
        assert(after.nodes.dom() =~= cluster.nodes.dom());
        assert forall|id: NodeId| #[trigger] cluster.nodes.contains_key(id) implies after.nodes[id]
            == if ids.contains(id) {
            N::next(cluster.nodes[id], InputView::Tick).0
        } else {
            cluster.nodes[id]
        } by {
            if fewer.contains(id) {
                assert(ids[fewer.index_of(id)] == id);
            }
            if ids.contains(id) && id != last {
                let i = ids.index_of(id);
                assert(fewer[i] == id);
            }
        }
    }
}

/// A tick of the clock reaches every node: in a tick in which none has anything to
/// do for others, each becomes what it makes of a tick, and nothing else changes.
pub proof fn law_tick_reaches_every_node<N: SimNode>(sim: SimView, id: NodeId)
    requires
        sim.cluster.violation is None,
        sim.cluster.network.queue.len() == 0,
        sim.cluster.nodes.dom().finite(),
        forall|other: NodeId| #[trigger]
            sim.cluster.nodes.contains_key(other) ==> N::next(
                sim.cluster.nodes[other],
                InputView::Tick,
            ).1.len() == 0,
        sim_run::<N>(sim, 1).cluster.violation is None,
        sim.cluster.nodes.contains_key(id),
    ensures
        ({
            let after = sim_run::<N>(sim, 1).cluster;
            &&& after.nodes.contains_key(id)
            &&& after.nodes[id] == N::next(sim.cluster.nodes[id], InputView::Tick).0
            &&& after.storages == sim.cluster.storages
            &&& after.state_machines == sim.cluster.state_machines
            &&& after.network == sim.cluster.network
        }),
{
    reveal_with_fuel(sim_run, 2);
    reveal(tick_once);
    let tick = sim.tick;
    let started = sim.cluster.record(tick, TraceEventKind::TickStart, None, None);
    let ids = keys_in_order(started.nodes);
    lemma_u64_lt_total();
    lemma_sorted_list(started.nodes.dom(), u64_lt());
    assert(ids.no_duplicates()) by {
        assert forall|i: int, j: int|
            0 <= i < ids.len() && 0 <= j < ids.len() && i != j implies ids[i] != ids[j] by {
            if i < j {
                assert(u64_lt()(ids[i], ids[j]));
            } else {
                assert(u64_lt()(ids[j], ids[i]));
            }
        }
    }
    assert forall|i: int| 0 <= i < ids.len() implies started.nodes.contains_key(
        #[trigger] ids[i],
    ) && N::next(started.nodes[ids[i]], InputView::Tick).1.len() == 0 by {
        assert(ids.contains(ids[i]));
        assert(started.nodes.dom().contains(ids[i]));
        assert(sim.cluster.nodes.contains_key(ids[i]));
    }
    let stepped = tick_nodes::<N>(started, tick, ids);
    let delivered = deliver::<N>(stepped, tick, MAX_DELIVERIES_PER_TICK as nat);
    if stepped.violation is Some {
        assert(delivered == stepped);
    } else {
        lemma_quiet_tick_nodes::<N>(started, tick, ids);
        assert(delivered == stepped);
        assert(started.nodes.dom().contains(id));
        assert(ids.contains(id));
        assert(started.nodes.contains_key(id));
        assert(stepped.nodes.dom().contains(id));
    }
}

/// An input that is handed to a node takes no time, and leaves no message waiting
/// while safety holds. One for a node that is not there does nothing.
pub proof fn law_stepping_takes_no_time<N: SimNode>(sim: SimView, id: NodeId, input: InputView)
    ensures
        ({
            let after = sim_step::<N>(sim, id, input);
            &&& after.tick == sim.tick
            &&& after.seed == sim.seed
            &&& after.down == sim.down
            &&& after.boots == sim.boots
            &&& !sim.cluster.nodes.contains_key(id) ==> after == sim
            &&& sim.cluster.violation is Some ==> after == sim
            &&& sim.cluster.nodes.contains_key(id) && after.cluster.violation is None
                ==> after.cluster.network.queue.len() == 0
        }),
{
    reveal(sim_step);
    law_delivery_leaves_no_message::<N>(
        handle::<N>(sim.cluster, sim.tick, id, input, FOLLOW_UP_DEPTH as nat),
        sim.tick,
        MAX_DELIVERIES_PER_TICK as nat,
    );
}

/// A step does what the node makes of the input, where nothing comes of it that is
/// sent or has to do with snapshots, and nothing waits.
pub proof fn law_quiet_step_changes_the_node_alone<N: SimNode>(
    sim: SimView,
    id: NodeId,
    input: InputView,
)
    requires
        sim.cluster.violation is None,
        sim.cluster.nodes.contains_key(id),
        sim.cluster.network.queue.len() == 0,
        N::next(sim.cluster.nodes[id], input).1.len() == 0,
    ensures
        sim_step::<N>(sim, id, input).cluster.nodes == sim.cluster.nodes.insert(
            id,
            N::next(sim.cluster.nodes[id], input).0,
        ),
        sim_step::<N>(sim, id, input).cluster.state_machines == sim.cluster.state_machines,
        sim_step::<N>(sim, id, input).cluster.storages == sim.cluster.storages,
{
    reveal(sim_step);
    let cluster = sim.cluster;
    let depth = FOLLOW_UP_DEPTH as nat;
    law_node_handles_its_input::<N>(cluster, sim.tick, id, input, depth);
    let (model, outputs) = N::next(cluster.nodes[id], input);
    let stepped = ClusterView { nodes: cluster.nodes.insert(id, model), ..cluster }.check();
    assert(DrainView::start(stepped).drain_all(sim.tick, id, outputs) == DrainView::start(stepped));
}

// ── Crashes ─────────────────────────────────────────────────────────────────

/// A crash takes the node and its state machine, and leaves its storage, the other
/// nodes and the messages on their way.
pub proof fn law_crash_takes_what_is_not_durable(sim: SimView, id: NodeId, other: NodeId)
    requires
        sim.cluster.nodes.contains_key(id),
        sim.cluster.nodes[id] is Raft,
        other != id,
    ensures
        ({
            let after = sim.crash(id);
            &&& !after.cluster.nodes.contains_key(id)
            &&& !after.cluster.state_machines.contains_key(id)
            &&& after.cluster.storages == sim.cluster.storages
            &&& after.cluster.network == sim.cluster.network
            &&& after.cluster.trace == sim.cluster.trace
            &&& after.cluster.history == sim.cluster.history
            &&& after.cluster.violation == sim.cluster.violation
            &&& after.cluster.nodes.contains_key(other) == sim.cluster.nodes.contains_key(other)
            &&& after.cluster.nodes[other] == sim.cluster.nodes[other]
            &&& after.cluster.state_machines.contains_key(other)
                == sim.cluster.state_machines.contains_key(other)
            &&& after.cluster.state_machines[other] == sim.cluster.state_machines[other]
            &&& after.tick == sim.tick
        }),
{
    reveal(SimView::crash);
}

/// A node that crashed comes back as a follower with what its storage holds: its
/// term, its vote, its log and its snapshot, from which its state machine is
/// restored. The others go on as they were.
pub proof fn law_restart_brings_back_what_was_durable(sim: SimView, id: NodeId, other: NodeId)
    requires
        id != 0,
        other != id,
        sim.cluster.nodes.contains_key(id),
        sim.cluster.nodes[id] is Raft,
        sim.cluster.storages.contains_key(id),
        sim.cluster.storages[id].recover() is Ok,
    ensures
        ({
            let after = sim.crash(id).restart(id);
            let held = sim.cluster.storages[id].recover()->Ok_0;
            let v = after.cluster.nodes[id]->Raft_0;
            &&& sim.crash(id).can_restart(id)
            &&& after.cluster.nodes.contains_key(id)
            &&& after.cluster.nodes[id] is Raft
            &&& v.id == id
            &&& v.peers == sim.cluster.nodes[id]->Raft_0.peers
            &&& v.state == RaftState::Follower
            &&& v.current_term == held.hard_state.current_term
            &&& v.voted_for == held.hard_state.voted_for
            &&& v.log == held.log
            &&& v.snapshot == held.snapshot
            &&& after.cluster.state_machines.contains_key(id)
            &&& held.snapshot is None ==> after.cluster.state_machines[id] == (KvView {
                data: Map::empty(),
                clients: Map::empty(),
            })
            &&& held.snapshot is Some && kv_of(held.snapshot->0.data) is Ok
                ==> after.cluster.state_machines[id] == kv_of(held.snapshot->0.data)->Ok_0
            &&& after.cluster.storages == sim.cluster.storages
            &&& after.cluster.network == sim.cluster.network
            &&& after.cluster.nodes.contains_key(other) == sim.cluster.nodes.contains_key(other)
            &&& after.cluster.nodes[other] == sim.cluster.nodes[other]
            &&& after.cluster.state_machines[other] == sim.cluster.state_machines[other]
            &&& !after.down.contains_key(id)
            &&& after.tick == sim.tick
        }),
{
    reveal(SimView::crash);
    reveal(SimView::restart);
}

/// A node that is not down, or whose storage does not recover, is not restarted.
pub proof fn law_nothing_else_is_restarted(sim: SimView, id: NodeId)
    requires
        !sim.down.contains_key(id) || !sim.cluster.storages.contains_key(id)
            || sim.cluster.storages[id].recover() is Err,
    ensures
        !sim.can_restart(id),
        sim.restart(id) == sim,
{
    reveal(SimView::restart);
}

// ── Checking ────────────────────────────────────────────────────────────────

/// Every step is checked before anything comes of it: where the nodes then break a
/// rule, that is what the simulation reports, and nothing was written, sent or
/// applied.
pub proof fn law_every_step_is_checked<N: SimNode>(
    cluster: ClusterView,
    tick: u64,
    id: NodeId,
    input: InputView,
    depth: nat,
)
    requires
        cluster.nodes.contains_key(id),
    ensures
        ({
            let nodes = cluster.nodes.insert(id, N::next(cluster.nodes[id], input).0);
            let seen = cluster.history.observe(rafts_among(keys_in_order(nodes), nodes));
            let after = handle::<N>(cluster, tick, id, input, depth);
            seen.1 is Some ==> {
                &&& after.violation == seen.1
                &&& after.nodes == nodes
                &&& after.history == seen.0
                &&& after.network == cluster.network
                &&& after.storages == cluster.storages
                &&& after.state_machines == cluster.state_machines
                &&& after.trace == cluster.trace
            }
        }),
{
}

/// The checker is shown every Raft node there is, in ascending order, and no other.
pub proof fn law_checker_is_shown_every_raft_node(ids: Seq<NodeId>, nodes: Map<NodeId, NodeModel>)
    requires
        forall|i: int| 0 <= i < ids.len() ==> nodes[#[trigger] ids[i]] is Raft,
    ensures
        rafts_among(ids, nodes).len() == ids.len(),
        forall|i: int|
            0 <= i < ids.len() ==> NodeModel::Raft(rafts_among(ids, nodes)[i])
                == nodes[#[trigger] ids[i]],
    decreases ids.len(),
{
    if ids.len() > 0 {
        let fewer = ids.drop_last();
        assert forall|i: int| 0 <= i < fewer.len() implies nodes[#[trigger] fewer[i]] is Raft by {
            assert(fewer[i] == ids[i]);
        }
        law_checker_is_shown_every_raft_node(fewer, nodes);
        assert(nodes[ids[ids.len() - 1]] is Raft);
        assert forall|i: int| 0 <= i < ids.len() implies NodeModel::Raft(rafts_among(ids, nodes)[i])
            == nodes[#[trigger] ids[i]] by {
            if i < fewer.len() {
                assert(fewer[i] == ids[i]);
            }
        }
    }
}

/// Messages that keep causing messages are given up, and that is reported.
pub proof fn law_endless_cascade_is_reported<N: SimNode>(cluster: ClusterView, tick: u64)
    requires
        cluster.violation is None,
        cluster.network.queue.len() > 0,
    ensures
        deliver::<N>(cluster, tick, 0).violation == Some(
            Violation::CascadeExceeded { limit: 100_000 },
        ),
{
}

// ── The trace ───────────────────────────────────────────────────────────────

/// The trace goes on from what it was.
pub open spec fn goes_on(before: Seq<EventView>, after: Seq<EventView>) -> bool {
    before.len() <= after.len() && after.take(before.len() as int) == before
}

proof fn lemma_goes_on(a: Seq<EventView>, b: Seq<EventView>, c: Seq<EventView>)
    requires
        goes_on(a, b),
        goes_on(b, c),
    ensures
        goes_on(a, c),
{
    assert(c.take(a.len() as int) =~= c.take(b.len() as int).take(a.len() as int));
}

proof fn lemma_push_goes_on(trace: Seq<EventView>, event: EventView)
    ensures
        goes_on(trace, trace.push(event)),
{
    assert(trace.push(event).take(trace.len() as int) =~= trace);
}

proof fn lemma_same_goes_on(trace: Seq<EventView>)
    ensures
        goes_on(trace, trace),
{
    assert(trace.take(trace.len() as int) =~= trace);
}

proof fn lemma_drain_goes_on(dv: DrainView, tick: u64, from: NodeId, outputs: Seq<OutputView>)
    ensures
        goes_on(dv.cluster.trace, dv.drain_all(tick, from, outputs).cluster.trace),
    decreases outputs.len(),
{
    lemma_same_goes_on(dv.cluster.trace);
    if outputs.len() > 0 {
        lemma_drain_goes_on(dv, tick, from, outputs.drop_last());
        let before = dv.drain_all(tick, from, outputs.drop_last());
        let after = before.drain(tick, from, outputs.last());
        lemma_same_goes_on(before.cluster.trace);
        if after.cluster.trace != before.cluster.trace {
            lemma_push_goes_on(before.cluster.trace, after.cluster.trace.last());
            assert(after.cluster.trace == before.cluster.trace.push(after.cluster.trace.last()));
            lemma_goes_on(dv.cluster.trace, before.cluster.trace, after.cluster.trace);
        }
    }
}

proof fn lemma_handle_goes_on<N: SimNode>(
    cluster: ClusterView,
    tick: u64,
    id: NodeId,
    input: InputView,
    depth: nat,
)
    ensures
        goes_on(cluster.trace, handle::<N>(cluster, tick, id, input, depth).trace),
    decreases depth, 1nat, 0nat,
{
    lemma_same_goes_on(cluster.trace);
    if cluster.nodes.contains_key(id) {
        let (model, outputs) = N::next(cluster.nodes[id], input);
        let stepped = ClusterView { nodes: cluster.nodes.insert(id, model), ..cluster }.check();
        if stepped.violation is None {
            let start = DrainView::start(stepped);
            lemma_drain_goes_on(start, tick, id, outputs);
            let drained = start.drain_all(tick, id, outputs).flush(id);
            let follow_ups = if drained.stopped {
                Seq::empty()
            } else {
                drained.follow_ups
            };
            lemma_handle_all_goes_on::<N>(drained.cluster, tick, id, follow_ups, depth);
            lemma_goes_on(
                cluster.trace,
                drained.cluster.trace,
                handle::<N>(cluster, tick, id, input, depth).trace,
            );
        }
    }
}

proof fn lemma_handle_all_goes_on<N: SimNode>(
    cluster: ClusterView,
    tick: u64,
    id: NodeId,
    inputs: Seq<InputView>,
    depth: nat,
)
    ensures
        goes_on(cluster.trace, handle_all::<N>(cluster, tick, id, inputs, depth).trace),
    decreases depth, 0nat, inputs.len(),
{
    lemma_same_goes_on(cluster.trace);
    if depth > 0 && inputs.len() > 0 && cluster.violation is None {
        lemma_handle_goes_on::<N>(cluster, tick, id, inputs[0], (depth - 1) as nat);
        let next = handle::<N>(cluster, tick, id, inputs[0], (depth - 1) as nat);
        lemma_handle_all_goes_on::<N>(next, tick, id, inputs.skip(1), depth);
        lemma_goes_on(
            cluster.trace,
            next.trace,
            handle_all::<N>(cluster, tick, id, inputs, depth).trace,
        );
    }
}

proof fn lemma_deliver_goes_on<N: SimNode>(cluster: ClusterView, tick: u64, fuel: nat)
    ensures
        goes_on(cluster.trace, deliver::<N>(cluster, tick, fuel).trace),
    decreases fuel,
{
    lemma_same_goes_on(cluster.trace);
    if cluster.violation is None && cluster.network.queue.len() > 0 && fuel > 0 {
        let message = cluster.network.queue[0];
        let popped = ClusterView {
            network: NetworkView { queue: cluster.network.queue.skip(1), ..cluster.network },
            ..cluster
        };
        let after = deliver::<N>(cluster, tick, fuel);
        if !popped.nodes.contains_key(message.to) {
            let noted = popped.record(tick, TraceEventKind::Drop, Some(message.from), None);
            lemma_push_goes_on(popped.trace, noted.trace.last());
            lemma_deliver_goes_on::<N>(noted, tick, (fuel - 1) as nat);
            lemma_goes_on(cluster.trace, noted.trace, after.trace);
        } else {
            let noted = popped.record(tick, TraceEventKind::Deliver, Some(message.to), None);
            let input = InputView::Message { from: message.from, rpc: message.rpc };
            lemma_push_goes_on(popped.trace, noted.trace.last());
            lemma_handle_goes_on::<N>(noted, tick, message.to, input, FOLLOW_UP_DEPTH as nat);
            let next = handle::<N>(noted, tick, message.to, input, FOLLOW_UP_DEPTH as nat);
            lemma_deliver_goes_on::<N>(next, tick, (fuel - 1) as nat);
            lemma_goes_on(cluster.trace, noted.trace, next.trace);
            lemma_goes_on(cluster.trace, next.trace, after.trace);
        }
    }
}

proof fn lemma_tick_nodes_goes_on<N: SimNode>(cluster: ClusterView, tick: u64, ids: Seq<NodeId>)
    ensures
        goes_on(cluster.trace, tick_nodes::<N>(cluster, tick, ids).trace),
    decreases ids.len(),
{
    lemma_same_goes_on(cluster.trace);
    if ids.len() > 0 {
        lemma_tick_nodes_goes_on::<N>(cluster, tick, ids.drop_last());
        let before = tick_nodes::<N>(cluster, tick, ids.drop_last());
        if before.violation is None {
            let noted = before.record(tick, TraceEventKind::NodeStep, Some(ids.last()), None);
            lemma_push_goes_on(before.trace, noted.trace.last());
            lemma_handle_goes_on::<N>(
                noted,
                tick,
                ids.last(),
                InputView::Tick,
                FOLLOW_UP_DEPTH as nat,
            );
            let after = tick_nodes::<N>(cluster, tick, ids);
            lemma_goes_on(cluster.trace, before.trace, noted.trace);
            lemma_goes_on(cluster.trace, noted.trace, after.trace);
        }
    }
}

/// A trace only grows. Each tick begins with an event that says so, and ends with
/// one while safety holds, both with the time.
pub proof fn law_each_tick_is_traced_from_start_to_end<N: SimNode>(cluster: ClusterView, tick: u64)
    ensures
        ({
            let after = tick_once::<N>(cluster, tick);
            let n = cluster.trace.len() as int;
            &&& goes_on(cluster.trace, after.trace)
            &&& after.trace.len() > n
            &&& after.trace[n] == (EventView {
                tick,
                kind: TraceEventKind::TickStart,
                node: None,
                payload: None,
            })
            &&& after.violation is None ==> after.trace.len() > n + 1 && after.trace.last() == (
            EventView { tick, kind: TraceEventKind::TickEnd, node: None, payload: None })
        }),
{
    reveal(tick_once);
    let started = cluster.record(tick, TraceEventKind::TickStart, None, None);
    let ids = keys_in_order(started.nodes);
    let stepped = tick_nodes::<N>(started, tick, ids);
    let delivered = deliver::<N>(stepped, tick, MAX_DELIVERIES_PER_TICK as nat);
    let n = cluster.trace.len() as int;
    lemma_push_goes_on(cluster.trace, started.trace.last());
    lemma_tick_nodes_goes_on::<N>(started, tick, ids);
    lemma_deliver_goes_on::<N>(stepped, tick, MAX_DELIVERIES_PER_TICK as nat);
    lemma_goes_on(started.trace, stepped.trace, delivered.trace);
    lemma_goes_on(cluster.trace, started.trace, delivered.trace);
    assert(delivered.trace.take(started.trace.len() as int)[n] == started.trace[n]);
    if delivered.violation is None {
        let ended = delivered.record(tick, TraceEventKind::TickEnd, None, None);
        lemma_push_goes_on(delivered.trace, ended.trace.last());
        lemma_goes_on(cluster.trace, delivered.trace, ended.trace);
    }
}

// ── The start ───────────────────────────────────────────────────────────────

/// A simulation starts at time zero with the nodes it was given, each with an empty
/// state machine and an empty storage, no message, and one event, which names the
/// seed.
pub proof fn law_simulation_starts_with_nothing_done<N: SimNode>(
    seed: u64,
    models: Seq<NodeModel>,
    i: int,
)
    requires
        ids_are_distinct::<N>(models),
        0 <= i < models.len(),
    ensures
        ({
            let sim = sim_start::<N>(seed, models);
            let id = N::id_of(models[i]);
            &&& sim.tick == 0
            &&& sim.seed == seed
            &&& sim.boots == 0
            &&& sim.down.dom() =~= Set::empty()
            &&& sim.cluster.nodes.contains_key(id)
            &&& sim.cluster.nodes[id] == models[i]
            &&& sim.cluster.state_machines.contains_key(id)
            &&& sim.cluster.state_machines[id] == (KvView {
                data: Map::empty(),
                clients: Map::empty(),
            })
            &&& sim.cluster.storages.contains_key(id)
            &&& sim.cluster.storages[id].log_bytes.len() == 0
            &&& sim.cluster.storages[id].hard_state is None
            &&& sim.cluster.storages[id].snapshot is None
            &&& sim.cluster.network.queue.len() == 0
            &&& sim.cluster.network.isolated =~= Set::empty()
            &&& sim.cluster.violation is None
            &&& sim.cluster.trace.len() == 1
            &&& sim.cluster.trace[0].tick == 0
            &&& sim.cluster.trace[0].kind == TraceEventKind::SimStart
            &&& sim.cluster.trace[0].payload is Some
            &&& sim.cluster.trace[0].payload->0 is SimulationStart
            &&& sim.cluster.trace[0].payload->0->seed == seed
        }),
{
    lemma_registered::<N>(models, i);
}

proof fn lemma_registered<N: SimNode>(models: Seq<NodeModel>, i: int)
    requires
        ids_are_distinct::<N>(models),
        0 <= i < models.len(),
    ensures
        models_by_id::<N>(models).contains_key(N::id_of(models[i])),
        models_by_id::<N>(models)[N::id_of(models[i])] == models[i],
    decreases models.len(),
{
    let n = models.len() - 1;
    let fewer = models.drop_last();
    assert(models.last() == models[n]);
    if i < n {
        assert(ids_are_distinct::<N>(fewer)) by {
            assert forall|a: int| 0 <= a < fewer.len() implies N::id_of(
                #[trigger] fewer[a],
            ) != 0 by {
                assert(N::id_of(models[a]) != 0);
            }
            assert forall|a: int, b: int| 0 <= a < b < fewer.len() implies N::id_of(
                #[trigger] fewer[a],
            ) != N::id_of(#[trigger] fewer[b]) by {
                assert(N::id_of(models[a]) != N::id_of(models[b]));
            }
        }
        lemma_registered::<N>(fewer, i);
        assert(fewer[i] == models[i]);
        assert(N::id_of(models[i]) != N::id_of(models[n]));
    }
}

/// A node that comes back draws from a stream that no earlier restart used.
pub proof fn law_restarted_node_draws_from_a_new_stream(
    sim: SimView,
    later: SimView,
    id: NodeId,
)
    requires
        sim.can_restart(id),
        later.can_restart(id),
        later.seed == sim.seed,
        sim.boots < later.boots < u64::MAX,
    ensures
        sim.restart(id).boots == sim.boots + 1,
        sim.restart(id).cluster.nodes[id]->Raft_0.rng.seed
            != later.restart(id).cluster.nodes[id]->Raft_0.rng.seed,
{
    reveal(SimView::restart);
    let seed = sim.seed;
    let a = (sim.boots + 1) as u64;
    let b = (later.boots + 1) as u64;
    assert(seed ^ a != seed ^ b) by (bit_vector)
        requires
            a != b,
    ;
    law_nodes_draw_from_streams_of_their_own(seed ^ a, seed ^ b, id, id);
    lemma_rng_seed(sim, id);
    lemma_rng_seed(later, id);
}

proof fn lemma_rng_seed(sim: SimView, id: NodeId)
    requires
        sim.can_restart(id),
        sim.boots < u64::MAX,
    ensures
        sim.restart(id).cluster.nodes[id]->Raft_0.rng.seed == node_seed(
            sim.seed ^ ((sim.boots + 1) as u64),
            id,
        ),
{
    reveal(SimView::restart);
}

} // verus!
