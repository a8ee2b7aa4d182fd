//! A simulation keeps its nodes, and what that says of elections.

use vstd::prelude::*;

use crate::config::NodeId;
use crate::maps::{keys_in_order, lemma_u64_lt_total, u64_lt};
use crate::raft::driver::{InputView, OutputView};
use crate::raft::RaftNode;
use crate::seqs::{lemma_sorted_list, strictly_sorted};
use crate::sim::model::{
    deliver, handle, handle_all, sim_run, sim_step, tick_nodes, tick_once, ClusterView, DrainView,
    NodeModel, SimView, FOLLOW_UP_DEPTH, MAX_DELIVERIES_PER_TICK,
};
use crate::sim::network::NetworkView;
use crate::sim::scenario::election::{
    cluster_node, cluster_start, election_result, election_within, leaders_among, leaders_of,
    leads, run_until_elected,
};
use crate::sim::schedules::lemma_cluster_models;
use crate::sim::trace::TraceEventKind;
use crate::sim::SimNode;

verus! {

// ── Nodes stay ──────────────────────────────────────────────────────────────

/// Draining outputs touches no node.
proof fn lemma_drain_keeps(dv: DrainView, tick: u64, from: NodeId, outputs: Seq<OutputView>)
    ensures
        dv.drain_all(tick, from, outputs).cluster.nodes == dv.cluster.nodes,
    decreases outputs.len(),
{
    if outputs.len() > 0 {
        lemma_drain_keeps(dv, tick, from, outputs.drop_last());
    }
}

proof fn lemma_handle_keeps<N: SimNode>(
    cluster: ClusterView,
    tick: u64,
    id: NodeId,
    input: InputView,
    depth: nat,
)
    ensures
        handle::<N>(cluster, tick, id, input, depth).nodes.dom() == cluster.nodes.dom(),
    decreases depth, 1nat, 0nat,
{
    if cluster.nodes.contains_key(id) {
        let (model, outputs) = N::next(cluster.nodes[id], input);
        let nodes = cluster.nodes.insert(id, model);
        assert(nodes.dom() =~= cluster.nodes.dom());
        let stepped = ClusterView { nodes, ..cluster }.check();
        if stepped.violation is None {
            lemma_drain_keeps(DrainView::start(stepped), tick, id, outputs);
            let drained = DrainView::start(stepped).drain_all(tick, id, outputs).flush(id);
            let follow_ups = if drained.stopped {
                Seq::empty()
            } else {
                drained.follow_ups
            };
            lemma_handle_all_keeps::<N>(drained.cluster, tick, id, follow_ups, depth);
        }
    }
}

proof fn lemma_handle_all_keeps<N: SimNode>(
    cluster: ClusterView,
    tick: u64,
    id: NodeId,
    inputs: Seq<InputView>,
    depth: nat,
)
    ensures
        handle_all::<N>(cluster, tick, id, inputs, depth).nodes.dom() == cluster.nodes.dom(),
    decreases depth, 0nat, inputs.len(),
{
    if depth > 0 && inputs.len() > 0 && cluster.violation is None {
        lemma_handle_keeps::<N>(cluster, tick, id, inputs[0], (depth - 1) as nat);
        lemma_handle_all_keeps::<N>(
            handle::<N>(cluster, tick, id, inputs[0], (depth - 1) as nat),
            tick,
            id,
            inputs.skip(1),
            depth,
        );
    }
}

proof fn lemma_deliver_keeps<N: SimNode>(cluster: ClusterView, tick: u64, fuel: nat)
    ensures
        deliver::<N>(cluster, tick, fuel).nodes.dom() == cluster.nodes.dom(),
    decreases fuel,
{
    if cluster.violation is None && cluster.network.queue.len() > 0 && fuel > 0 {
        let message = cluster.network.queue[0];
        let popped = ClusterView {
            network: NetworkView { queue: cluster.network.queue.skip(1), ..cluster.network },
            ..cluster
        };
        if !popped.nodes.contains_key(message.to) {
            lemma_deliver_keeps::<N>(
                popped.record(tick, TraceEventKind::Drop, Some(message.from), None),
                tick,
                (fuel - 1) as nat,
            );
        } else {
            let noted = popped.record(tick, TraceEventKind::Deliver, Some(message.to), None);
            let input = InputView::Message { from: message.from, rpc: message.rpc };
            let depth = FOLLOW_UP_DEPTH as nat;
            lemma_handle_keeps::<N>(noted, tick, message.to, input, depth);
            lemma_deliver_keeps::<N>(
                handle::<N>(noted, tick, message.to, input, depth),
                tick,
                (fuel - 1) as nat,
            );
        }
    }
}

proof fn lemma_tick_nodes_keeps<N: SimNode>(cluster: ClusterView, tick: u64, ids: Seq<NodeId>)
    ensures
        tick_nodes::<N>(cluster, tick, ids).nodes.dom() == cluster.nodes.dom(),
    decreases ids.len(),
{
    if ids.len() > 0 {
        lemma_tick_nodes_keeps::<N>(cluster, tick, ids.drop_last());
        let before = tick_nodes::<N>(cluster, tick, ids.drop_last());
        lemma_handle_keeps::<N>(
            before.record(tick, TraceEventKind::NodeStep, Some(ids.last()), None),
            tick,
            ids.last(),
            InputView::Tick,
            FOLLOW_UP_DEPTH as nat,
        );
    }
}

/// However long a simulation runs, it has the nodes that it had.
pub proof fn law_running_keeps_the_nodes<N: SimNode>(sim: SimView, ticks: nat)
    ensures
        sim_run::<N>(sim, ticks).cluster.nodes.dom() == sim.cluster.nodes.dom(),
    decreases ticks,
{
    reveal(sim_run);
    reveal(tick_once);
    if ticks > 0 {
        law_running_keeps_the_nodes::<N>(sim, (ticks - 1) as nat);
        let before = sim_run::<N>(sim, (ticks - 1) as nat);
        let tick = before.tick;
        let started = before.cluster.record(tick, TraceEventKind::TickStart, None, None);
        let ids = keys_in_order(started.nodes);
        lemma_tick_nodes_keeps::<N>(started, tick, ids);
        lemma_deliver_keeps::<N>(
            tick_nodes::<N>(started, tick, ids),
            tick,
            MAX_DELIVERIES_PER_TICK as nat,
        );
    }
}

/// Whatever is handed to a node of a simulation, it has the nodes that it had.
pub proof fn law_stepping_keeps_the_nodes<N: SimNode>(sim: SimView, id: NodeId, input: InputView)
    ensures
        sim_step::<N>(sim, id, input).cluster.nodes.dom() == sim.cluster.nodes.dom(),
{
    reveal(sim_step);
    let depth = FOLLOW_UP_DEPTH as nat;
    lemma_handle_keeps::<N>(sim.cluster, sim.tick, id, input, depth);
    lemma_deliver_keeps::<N>(
        handle::<N>(sim.cluster, sim.tick, id, input, depth),
        sim.tick,
        MAX_DELIVERIES_PER_TICK as nat,
    );
}

// ── Leaders ─────────────────────────────────────────────────────────────────

proof fn lemma_leaders_among(ids: Seq<NodeId>, nodes: Map<NodeId, NodeModel>)
    requires
        strictly_sorted(ids, u64_lt()),
    ensures
        strictly_sorted(leaders_among(ids, nodes), u64_lt()),
        forall|i: int|
            0 <= i < leaders_among(ids, nodes).len() ==> ids.contains(
                #[trigger] leaders_among(ids, nodes)[i],
            ) && leads(nodes, leaders_among(ids, nodes)[i]),
    decreases ids.len(),
{
    if ids.len() > 0 {
        let fewer = ids.drop_last();
        let last = ids[ids.len() - 1];
        assert forall|i: int, j: int| 0 <= i < j < fewer.len() implies u64_lt()(
            #[trigger] fewer[i],
            #[trigger] fewer[j],
        ) by {
            assert(u64_lt()(ids[i], ids[j]));
        }
        lemma_leaders_among(fewer, nodes);
        let rest = leaders_among(fewer, nodes);
        let all = leaders_among(ids, nodes);
        assert forall|i: int| 0 <= i < rest.len() implies ids.contains(#[trigger] rest[i])
            && rest[i] < last by {
            assert(fewer.contains(rest[i]));
            let j = choose|j: int| 0 <= j < fewer.len() && fewer[j] == rest[i];
            assert(ids[j] == rest[i]);
            assert(u64_lt()(ids[j], ids[ids.len() - 1]));
        }
        assert forall|i: int, j: int| 0 <= i < j < all.len() implies u64_lt()(
            #[trigger] all[i],
            #[trigger] all[j],
        ) by {
            assert(all[i] == rest[i]);
            if j < rest.len() {
                assert(all[j] == rest[j]);
                assert(u64_lt()(rest[i], rest[j]));
            }
        }
        assert forall|i: int| 0 <= i < all.len() implies ids.contains(#[trigger] all[i]) && leads(
            nodes,
            all[i],
        ) by {
            if i < rest.len() {
                assert(all[i] == rest[i]);
                assert(leads(nodes, rest[i]));
            } else {
                assert(ids[ids.len() - 1] == all[i]);
            }
        }
    }
}

/// The nodes of a scenario's cluster, however long it runs.
proof fn lemma_cluster_nodes(seed: u64, n: nat, ticks: nat)
    requires
        n < u64::MAX,
    ensures
        ({
            let nodes = sim_run::<RaftNode>(cluster_start(seed, n), ticks).cluster.nodes;
            &&& nodes.dom().finite()
            &&& forall|id: NodeId| #[trigger] nodes.contains_key(id) <==> 1 <= id <= n
        }),
{
    let start = cluster_start(seed, n);
    lemma_cluster_models(seed, n, n);
    law_running_keeps_the_nodes::<RaftNode>(start, ticks);
    let nodes = sim_run::<RaftNode>(start, ticks).cluster.nodes;
    assert forall|id: NodeId| #[trigger] nodes.contains_key(id) <==> 1 <= id <= n by {
        assert(nodes.dom().contains(id) == start.cluster.nodes.dom().contains(id));
        assert(start.cluster.nodes.contains_key(id) == start.cluster.nodes.dom().contains(id));
    }
}

/// However long the cluster of a scenario runs, the leaders found are nodes of
/// the cluster, in ascending order, each once.
pub proof fn law_leaders_are_registered(seed: u64, n: nat, ticks: nat)
    requires
        n < u64::MAX,
    ensures
        ({
            let leaders = leaders_of(sim_run::<RaftNode>(cluster_start(seed, n), ticks));
            &&& strictly_sorted(leaders, u64_lt())
            &&& forall|i: int| 0 <= i < leaders.len() ==> 1 <= #[trigger] leaders[i] <= n
        }),
{
    let sim = sim_run::<RaftNode>(cluster_start(seed, n), ticks);
    let nodes = sim.cluster.nodes;
    lemma_cluster_nodes(seed, n, ticks);
    let ids = keys_in_order(nodes);
    lemma_u64_lt_total();
    lemma_sorted_list(nodes.dom(), u64_lt());
    lemma_leaders_among(ids, nodes);
    let leaders = leaders_of(sim);
    assert forall|i: int| 0 <= i < leaders.len() implies 1 <= #[trigger] leaders[i] <= n by {
        assert(ids.contains(leaders[i]));
        assert(nodes.dom().contains(leaders[i]));
        assert(nodes.contains_key(leaders[i]));
    }
}

/// Before the first tick nobody leads.
proof fn lemma_nobody_leads(seed: u64, n: nat)
    requires
        n < u64::MAX,
    ensures
        leaders_of(cluster_start(seed, n)).len() == 0,
{
    let sim = cluster_start(seed, n);
    let nodes = sim.cluster.nodes;
    lemma_cluster_models(seed, n, n);
    let ids = keys_in_order(nodes);
    lemma_u64_lt_total();
    lemma_sorted_list(nodes.dom(), u64_lt());
    lemma_leaders_among(ids, nodes);
    let leaders = leaders_of(sim);
    if leaders.len() > 0 {
        let id = leaders[0];
        assert(ids.contains(id));
        assert(nodes.dom().contains(id));
        assert(nodes.contains_key(id));
        assert(nodes[id] == NodeModel::Raft(cluster_node(seed, n, id)));
    }
}

proof fn lemma_until_elected(start: SimView, done: nat, left: nat)
    ensures
        ({
            let (sim, ticks) = run_until_elected(sim_run::<RaftNode>(start, done), done, left);
            &&& sim == sim_run::<RaftNode>(start, ticks)
            &&& done <= ticks <= done + left
            &&& ticks < done + left ==> leaders_of(sim).len() == 1
            &&& forall|t: nat|
                done < t < ticks ==> leaders_of(#[trigger] sim_run::<RaftNode>(start, t)).len()
                    != 1
            &&& left > 0 ==> ticks > done
        }),
    decreases left,
{
    if left > 0 {
        let here = sim_run::<RaftNode>(start, done);
        let next = sim_run::<RaftNode>(here, 1);
        assert(next == sim_run::<RaftNode>(start, done + 1)) by {
            reveal_with_fuel(sim_run, 2);
        }
        if leaders_of(next).len() != 1 {
            lemma_until_elected(start, done + 1, (left - 1) as nat);
        }
    }
}

/// An election scenario runs no longer than it is given. It stops at the first
/// tick with exactly one leader, and only then before its time is up. The leaders
/// it reports are nodes of the cluster in ascending order, and the leader is named
/// exactly where there is one.
pub proof fn law_election_stops_at_the_first_leader(seed: u64, n: nat, max_ticks: u64)
    requires
        n < u64::MAX,
    ensures
        ({
            let r = election_within(seed, n, max_ticks);
            &&& r.ticks_run <= max_ticks
            &&& strictly_sorted(r.leaders, u64_lt())
            &&& forall|i: int| 0 <= i < r.leaders.len() ==> 1 <= #[trigger] r.leaders[i] <= n
            &&& forall|x: NodeId| r.leader_id == Some(x) <==> r.leaders =~= seq![x]
            &&& r.leaders.len() != 1 ==> r.ticks_run == max_ticks
            &&& forall|t: u64|
                t < r.ticks_run ==> (#[trigger] election_result(
                    sim_run::<RaftNode>(cluster_start(seed, n), t as nat),
                    seed,
                    t,
                )).leaders.len() != 1
        }),
{
    let start = cluster_start(seed, n);
    assert(sim_run::<RaftNode>(start, 0) == start) by {
        reveal(sim_run);
    }
    lemma_until_elected(start, 0, max_ticks as nat);
    let (sim, ticks) = run_until_elected(start, 0, max_ticks as nat);
    law_leaders_are_registered(seed, n, ticks);
    lemma_nobody_leads(seed, n);
    let r = election_within(seed, n, max_ticks);
    assert forall|t: u64| t < r.ticks_run implies (#[trigger] election_result(
        sim_run::<RaftNode>(start, t as nat),
        seed,
        t,
    )).leaders.len() != 1 by {
        if t > 0 {
            assert(leaders_of(sim_run::<RaftNode>(start, t as nat)).len() != 1);
        }
    }
    assert forall|x: NodeId| r.leader_id == Some(x) <==> r.leaders =~= seq![x] by {
        if r.leaders =~= seq![x] {
            assert(r.leaders[0] == x);
        }
    }
}

} // verus!
