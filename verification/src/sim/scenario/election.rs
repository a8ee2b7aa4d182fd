//! Leader-election scenario.

use vstd::prelude::*;

use crate::config::NodeId;
use crate::maps::{ascending_keys, keys_in_order};
use crate::raft::replication::{lemma_others_step, others_of};
use crate::raft::state::RaftState;
use crate::raft::{NodeView, RaftNode};
use crate::rng::NodeRngView;
use crate::seqs::lists;
use crate::raft::driver::InputView;
use crate::sim::model::{sim_run, sim_start, sim_step, NodeModel, SimView};
use crate::sim::{
    ids_are_distinct, models_view, node_rng, node_seed, nodes_view, SimNode, Simulator,
};

verus! {

broadcast use vstd::std_specs::btree::group_btree_axioms;

/// Outcome of one election scenario run.
#[derive(Debug, Clone, PartialEq, Eq)]
pub struct ElectionScenarioResult {
    pub seed: u64,
    pub ticks_run: u64,
    pub leader_id: Option<NodeId>,
    pub leader_term: Option<u64>,
    /// Nodes observed in [`RaftState::Leader`] at the end of the run.
    pub leaders: Vec<NodeId>,
}

/// What an [`ElectionScenarioResult`] holds.
pub struct ElectionResultView {
    pub seed: u64,
    pub ticks_run: u64,
    pub leader_id: Option<NodeId>,
    pub leader_term: Option<u64>,
    pub leaders: Seq<NodeId>,
}

impl View for ElectionScenarioResult {
    type V = ElectionResultView;

    open spec fn view(&self) -> ElectionResultView {
        ElectionResultView {
            seed: self.seed,
            ticks_run: self.ticks_run,
            leader_id: self.leader_id,
            leader_term: self.leader_term,
            leaders: self.leaders@,
        }
    }
}

/// The ids of a cluster of `n` nodes.
pub open spec fn cluster_ids(n: nat) -> Seq<NodeId> {
    Seq::new(n, |i: int| (i + 1) as u64)
}

/// A node of a cluster of `n` nodes before the first tick.
pub open spec fn cluster_node(seed: u64, n: nat, id: NodeId) -> NodeView {
    NodeView::of_rng(
        id,
        others_of(cluster_ids(n), id),
        NodeRngView::of_seed(node_seed(seed, id)),
    )
}

/// A simulation of a cluster of `n` nodes before the first tick.
pub open spec fn cluster_start(seed: u64, n: nat) -> SimView {
    sim_start::<RaftNode>(
        seed,
        Seq::new(n, |i: int| NodeModel::Raft(cluster_node(seed, n, (i + 1) as u64))),
    )
}

/// Whether a node leads.
pub open spec fn leads(nodes: Map<NodeId, NodeModel>, id: NodeId) -> bool {
    nodes[id]->Raft_0.state == RaftState::Leader
}

/// The nodes among `ids` that lead, in order.
pub open spec fn leaders_among(ids: Seq<NodeId>, nodes: Map<NodeId, NodeModel>) -> Seq<NodeId>
    decreases ids.len(),
{
    if ids.len() == 0 {
        Seq::empty()
    } else if leads(nodes, ids.last()) {
        leaders_among(ids.drop_last(), nodes).push(ids.last())
    } else {
        leaders_among(ids.drop_last(), nodes)
    }
}

/// The nodes that lead, in ascending order.
pub open spec fn leaders_of(sim: SimView) -> Seq<NodeId> {
    leaders_among(keys_in_order(sim.cluster.nodes), sim.cluster.nodes)
}

/// What a simulation says of its leaders.
pub open spec fn election_result(sim: SimView, seed: u64, ticks_run: u64) -> ElectionResultView {
    let leaders = leaders_of(sim);
    ElectionResultView {
        seed,
        ticks_run,
        leader_id: if leaders.len() == 1 {
            Some(leaders[0])
        } else {
            None
        },
        leader_term: if leaders.len() > 0 {
            Some(sim.cluster.nodes[leaders.last()]->Raft_0.current_term)
        } else {
            None
        },
        leaders,
    }
}

/// A simulation run tick by tick until exactly one node leads, and how many
/// ticks that took, but not longer than `left` ticks.
pub open spec fn run_until_elected(sim: SimView, done: nat, left: nat) -> (SimView, nat)
    decreases left,
{
    if left == 0 {
        (sim, done)
    } else {
        let next = sim_run::<RaftNode>(sim, 1);
        if leaders_of(next).len() == 1 {
            (next, done + 1)
        } else {
            run_until_elected(next, done + 1, (left - 1) as nat)
        }
    }
}

/// The election in a cluster of `n` nodes.
pub open spec fn election_within(seed: u64, n: nat, max_ticks: u64) -> ElectionResultView {
    let (sim, ticks_run) = run_until_elected(cluster_start(seed, n), 0, max_ticks as nat);
    election_result(sim, seed, ticks_run as u64)
}

/// A run moves the clock by no more than its ticks.
pub proof fn lemma_run_tick(sim: SimView, ticks: nat)
    requires
        sim.tick + ticks <= u64::MAX,
    ensures
        sim.tick <= sim_run::<RaftNode>(sim, ticks).tick <= sim.tick + ticks,
    decreases ticks,
{
    reveal(sim_run);
    if ticks > 0 {
        lemma_run_tick(sim, (ticks - 1) as nat);
    }
}

/// An input does not move the clock.
pub proof fn lemma_step_tick(sim: SimView, id: NodeId, input: InputView)
    ensures
        sim_step::<RaftNode>(sim, id, input).tick == sim.tick,
{
    reveal(sim_step);
}

/// A crash does not move the clock.
pub proof fn lemma_crash_tick(sim: SimView, id: NodeId)
    ensures
        sim.crash(id).tick == sim.tick,
{
    reveal(SimView::crash);
}

/// A restart does not move the clock.
pub proof fn lemma_restart_tick(sim: SimView, id: NodeId)
    ensures
        sim.restart(id).tick == sim.tick,
{
    reveal(SimView::restart);
}

/// Lists the ids of a cluster of `n` nodes other than `id`.
fn peers_of(n: usize, id: NodeId) -> (r: Vec<NodeId>)
    ensures
        r@ == others_of(cluster_ids(n as nat), id),
{
    let ghost ids = cluster_ids(n as nat);
    let mut peers: Vec<NodeId> = Vec::new();
    let mut i: usize = 0;
    proof {
        reveal(Seq::filter);
    }
    while i < n
        invariant
            i <= n,
            ids == cluster_ids(n as nat),
            peers@ == others_of(ids.take(i as int), id),
        decreases n - i,
    {
        let peer: NodeId = i as u64 + 1;
        proof {
            lemma_others_step(ids, id, i as int);
        }
        if peer != id {
            peers.push(peer);
        }
        i += 1;
    }
    assert(ids.take(i as int) =~= ids);
    peers
}

/// Builds a simulation of a cluster of `n` nodes with independent seeded
/// streams.
pub fn build_cluster(seed: u64, n: usize) -> (r: Simulator<RaftNode>)
    requires
        n < u64::MAX,
    ensures
        r@ == cluster_start(seed, n as nat),
{
    let ghost models = Seq::new(
        n as nat,
        |i: int| NodeModel::Raft(cluster_node(seed, n as nat, (i + 1) as u64)),
    );
    let mut nodes: Vec<RaftNode> = Vec::new();
    let mut i: usize = 0;
    while i < n
        invariant
            i <= n,
            n < u64::MAX,
            models == Seq::new(
                n as nat,
                |k: int| NodeModel::Raft(cluster_node(seed, n as nat, (k + 1) as u64)),
            ),
            models_view(nodes@) =~= models.take(i as int),
        decreases n - i,
    {
        let id: NodeId = i as u64 + 1;
        let node = RaftNode::with_rng(id, peers_of(n, id), node_rng(seed, id));
        let ghost held = nodes@;
        let ghost model = node.model();
        nodes.push(node);
        i += 1;
        assert(model == models[i - 1]);
        assert(models_view(nodes@) =~= models_view(held).push(model));
    }
    assert(models_view(nodes@) =~= models);
    assert(ids_are_distinct::<RaftNode>(models));
    Simulator::new(seed, nodes)
}

/// Lists the nodes that lead, in ascending order.
pub fn find_leaders(sim: &Simulator<RaftNode>) -> (r: Vec<NodeId>)
    ensures
        r@ == leaders_of(sim@),
        forall|i: int| 0 <= i < r@.len() ==> sim@.cluster.nodes.contains_key(#[trigger] r@[i]),
{
    let nodes = sim.nodes();
    let ghost models = sim@.cluster.nodes;
    let ids = ascending_keys(nodes);
    assert(models.dom() =~= nodes@.dom());
    let mut leaders: Vec<NodeId> = Vec::new();
    let mut i: usize = 0;
    while i < ids.len()
        invariant
            i <= ids@.len(),
            lists(ids@, nodes@.dom()),
            models == nodes_view(nodes@),
            leaders@ == leaders_among(ids@.take(i as int), models),
            forall|k: int| 0 <= k < leaders@.len() ==> models.contains_key(#[trigger] leaders@[k]),
        decreases ids@.len() - i,
    {
        let id: NodeId = ids[i];
        assert(ids@.contains(id));
        assert(nodes@.dom().contains(id));
        proof {
            assert(ids@.take(i + 1).drop_last() =~= ids@.take(i as int));
            assert(ids@.take(i + 1).last() == id);
        }
        match nodes.get(&id) {
            Some(node) => {
                assert(models[id] == node.model());
                if node.state() == RaftState::Leader {
                    leaders.push(id);
                }
            },
            None => {
                assert(false);
            },
        }
        i += 1;
    }
    assert(ids@.take(i as int) =~= ids@);
    leaders
}

/// Sums up what a simulation says of its leaders.
pub fn summarize_election(sim: &Simulator<RaftNode>, seed: u64, ticks_run: u64) -> (r:
    ElectionScenarioResult)
    ensures
        r@ == election_result(sim@, seed, ticks_run),
{
    let leaders = find_leaders(sim);
    let leader_term: Option<u64> = if leaders.len() > 0 {
        match sim.nodes().get(&leaders[leaders.len() - 1]) {
            Some(node) => Some(node.current_term()),
            None => {
                assert(false);
                None
            },
        }
    } else {
        None
    };
    let leader_id: Option<NodeId> = if leaders.len() == 1 {
        Some(leaders[0])
    } else {
        None
    };
    ElectionScenarioResult { seed, ticks_run, leader_id, leader_term, leaders }
}

/// Builds a three-node cluster with independent seeded streams and runs `ticks`.
///
/// Returns metadata describing how many leaders were elected and when.
pub fn run_election_scenario(seed: u64, ticks: u64) -> (r: ElectionScenarioResult)
    ensures
        r@ == election_result(
            sim_run::<RaftNode>(cluster_start(seed, 3), ticks as nat),
            seed,
            ticks,
        ),
{
    let mut simulator = build_cluster(seed, 3);
    simulator.run(ticks);
    summarize_election(&simulator, seed, ticks)
}

/// Scans tick-by-tick until exactly one leader exists or `max_ticks` is hit.
pub fn elect_within(seed: u64, max_ticks: u64) -> (r: ElectionScenarioResult)
    ensures
        r@ == election_within(seed, 3, max_ticks),
        r.ticks_run <= max_ticks,
{
    elect_within_n(seed, 3, max_ticks)
}

/// Scans a cluster of `n` nodes tick-by-tick until exactly one leader exists or
/// `max_ticks` is hit.
pub fn elect_within_n(seed: u64, n: usize, max_ticks: u64) -> (r: ElectionScenarioResult)
    requires
        n < u64::MAX,
    ensures
        r@ == election_within(seed, n as nat, max_ticks),
        r.ticks_run <= max_ticks,
{
    let mut simulator = build_cluster(seed, n);
    let ghost start = simulator@;
    let ghost expected = run_until_elected(start, 0, max_ticks as nat);
    let mut ticks_run: u64 = 0;
    while ticks_run < max_ticks
        invariant
            ticks_run <= max_ticks,
            simulator@.tick <= ticks_run,
            start == cluster_start(seed, n as nat),
            expected == run_until_elected(start, 0, max_ticks as nat),
            expected == run_until_elected(
                simulator@,
                ticks_run as nat,
                (max_ticks - ticks_run) as nat,
            ),
        decreases max_ticks - ticks_run,
    {
        let ghost before = simulator@;
        proof {
            lemma_run_tick(before, 1);
        }
        simulator.run(1);
        ticks_run += 1;
        if find_leaders(&simulator).len() == 1 {
            return summarize_election(&simulator, seed, ticks_run);
        }
    }
    summarize_election(&simulator, seed, ticks_run)
}

} // verus!
