//! Whatever is done to a simulation, in whatever order: votes are given once in
//! a term, logs match, and nothing is found broken.

use vstd::prelude::*;

use crate::config::NodeId;
use crate::raft::driver::InputView;
use crate::raft::invariants::log_matching;
use crate::raft::replication::others_of;
use crate::raft::safety::checker::lemma_logs_match;
use crate::raft::safety::cluster::Cluster;
use crate::raft::safety::consistency::node_ok;
use crate::raft::safety::laws::{follows, lemma_follows_on, lemma_follows_same};
use crate::raft::safety::protocol::System;
use crate::raft::safety::refinement::mirrors;
use crate::raft::RaftNode;
use crate::sim::laws::{
    are_fresh, is_sound_with, lemma_crash, lemma_recovered, lemma_restart, lemma_run,
    lemma_same_but_trace, lemma_sim_step, lemma_start, lemma_wider, may_hand, same_people,
    step_reach, tick_reach,
};
use crate::sim::model::{
    models_by_id, sim_run, sim_start, sim_step, ClusterView, NodeModel, SimView,
};
use crate::sim::network::NetworkView;
use crate::sim::scenario::election::{cluster_ids, cluster_node};
use crate::sim::SimNode;

verus! {

/// What can be done to a simulation.
pub enum Op {
    /// Let some ticks pass.
    Run { ticks: nat },
    /// Hand a tick or commands to a node.
    Hand { id: NodeId, input: InputView },
    /// Crash a node.
    Crash { id: NodeId },
    /// Restart a node.
    Restart { id: NodeId },
    /// Cut these nodes off, and no others.
    Isolate { ids: Set<NodeId> },
}

/// The simulation after one thing was done to it.
pub open spec fn after_op(sim: SimView, op: Op) -> SimView {
    match op {
        Op::Run { ticks } => sim_run::<RaftNode>(sim, ticks),
        Op::Hand { id, input } => sim_step::<RaftNode>(sim, id, input),
        Op::Crash { id } => sim.crash(id),
        Op::Restart { id } => sim.restart(id),
        Op::Isolate { ids } => SimView {
            cluster: ClusterView {
                network: NetworkView { isolated: ids, ..sim.cluster.network },
                ..sim.cluster
            },
            ..sim
        },
    }
}

/// The simulation after one thing after another was done to it.
pub open spec fn after_ops(sim: SimView, ops: Seq<Op>) -> SimView
    decreases ops.len(),
{
    if ops.len() == 0 {
        sim
    } else {
        after_op(after_ops(sim, ops.drop_last()), ops.last())
    }
}

/// How much further this can take a simulation of `n` nodes.
pub open spec fn op_reach(op: Op, n: nat) -> nat {
    match op {
        Op::Run { ticks } => ticks * tick_reach(n),
        Op::Hand { id, input } => step_reach(input),
        _ => 0,
    }
}

/// How much further all this can take a simulation of `n` nodes.
pub open spec fn ops_reach(ops: Seq<Op>, n: nat) -> nat
    decreases ops.len(),
{
    if ops.len() == 0 {
        0
    } else {
        ops_reach(ops.drop_last(), n) + op_reach(ops.last(), n)
    }
}

/// What is handed to nodes is a tick, or commands that fit.
pub open spec fn ops_fit(ops: Seq<Op>) -> bool {
    forall|i: int|
        0 <= i < ops.len() ==> match (#[trigger] ops[i]) {
            Op::Hand { id, input } => may_hand(input),
            _ => true,
        }
}

pub proof fn lemma_op(sim: SimView, c: Cluster, s: System, b: nat, op: Op) -> (after: (Cluster, System))
    requires
        is_sound_with(sim, c, s, b),
        match op {
            Op::Hand { id, input } => may_hand(input),
            _ => true,
        },
        c.members.finite(),
        b + op_reach(op, c.members.len()) + 6 < u64::MAX,
    ensures
        is_sound_with(
            after_op(sim, op),
            after.0,
            after.1,
            b + op_reach(op, c.members.len()),
        ),
        same_people(c, after.0),
        follows(s, after.1),
{
    match op {
        Op::Run { ticks } => {
            let here = sim.cluster.nodes.dom().len();
            let all = c.members.len();
            assert(sim.cluster.nodes.dom().subset_of(c.members)) by {
                assert forall|n: NodeId| sim.cluster.nodes.dom().contains(n) implies
                    c.members.contains(n) by {
                    assert(sim.cluster.nodes.contains_key(n));
                }
            }
            vstd::set_lib::lemma_len_subset(sim.cluster.nodes.dom(), c.members);
            assert(ticks * tick_reach(here) <= ticks * tick_reach(all)) by (nonlinear_arith)
                requires
                    tick_reach(here) <= tick_reach(all),
            ;
            let after = lemma_run(sim, c, s, b, ticks);
            lemma_wider(
                sim_run::<RaftNode>(sim, ticks).cluster,
                after.0,
                after.1,
                b + ticks * tick_reach(here),
                b + ticks * tick_reach(all),
            );
            after
        },
        Op::Hand { id, input } => lemma_sim_step(sim, c, s, b, id, input),
        Op::Crash { id } => {
            lemma_crash(sim, c, s, b, id);
            lemma_follows_same(s);
            (c, s)
        },
        Op::Restart { id } => lemma_restart(sim, c, s, b, id),
        Op::Isolate { ids } => {
            lemma_same_but_trace(sim.cluster, after_op(sim, op).cluster, c, s, b);
            lemma_follows_same(s);
            (c, s)
        },
    }
}

proof fn lemma_ops(sim: SimView, c: Cluster, s: System, b: nat, ops: Seq<Op>) -> (after: (
    Cluster,
    System,
))
    requires
        is_sound_with(sim, c, s, b),
        ops_fit(ops),
        c.members.finite(),
        b + ops_reach(ops, c.members.len()) + 6 < u64::MAX,
    ensures
        is_sound_with(
            after_ops(sim, ops),
            after.0,
            after.1,
            b + ops_reach(ops, c.members.len()),
        ),
        same_people(c, after.0),
        follows(s, after.1),
    decreases ops.len(),
{
    if ops.len() == 0 {
        lemma_follows_same(s);
        (c, s)
    } else {
        let fewer = ops.drop_last();
        assert forall|i: int| 0 <= i < fewer.len() implies match (#[trigger] fewer[i]) {
            Op::Hand { id, input } => may_hand(input),
            _ => true,
        } by {
            assert(fewer[i] == ops[i]);
        }
        let (c1, s1) = lemma_ops(sim, c, s, b, fewer);
        let op = ops[ops.len() - 1];
        let after = lemma_op(
            after_ops(sim, fewer),
            c1,
            s1,
            b + ops_reach(fewer, c.members.len()),
            op,
        );
        lemma_follows_on(s, s1, after.1);
        after
    }
}

proof fn lemma_ops_add(sim: SimView, a: Seq<Op>, b: Seq<Op>, n: nat)
    ensures
        after_ops(sim, a + b) == after_ops(after_ops(sim, a), b),
        ops_reach(a + b, n) == ops_reach(a, n) + ops_reach(b, n),
    decreases b.len(),
{
    if b.len() == 0 {
        assert(a + b =~= a);
    } else {
        lemma_ops_add(sim, a, b.drop_last(), n);
        assert((a + b).drop_last() =~= a + b.drop_last());
        assert((a + b).last() == b.last());
    }
}

/// A simulation of fresh nodes to which all this is done, as far as numbers
/// reach.
pub open spec fn is_schedule(models: Seq<NodeModel>, ops: Seq<Op>) -> bool {
    &&& are_fresh(models_by_id::<RaftNode>(models))
    &&& ops_fit(ops)
    &&& ops_reach(ops, models_by_id::<RaftNode>(models).dom().len()) + 6 < u64::MAX
}

/// The cluster behind a schedule at two points in time.
proof fn lemma_two_points(
    seed: u64,
    models: Seq<NodeModel>,
    first: Seq<Op>,
    more: Seq<Op>,
) -> (r: (Cluster, System, Cluster, System, nat))
    requires
        is_schedule(models, first + more),
    ensures
        is_sound_with(
            after_ops(sim_start::<RaftNode>(seed, models), first),
            r.0,
            r.1,
            r.4,
        ),
        is_sound_with(
            after_ops(sim_start::<RaftNode>(seed, models), first + more),
            r.2,
            r.3,
            r.4,
        ),
        follows(r.1, r.3),
        r.0.members == models_by_id::<RaftNode>(models).dom(),
        r.2.members == r.0.members,
{
    let sim = sim_start::<RaftNode>(seed, models);
    let nodes = models_by_id::<RaftNode>(models);
    let (c, s) = lemma_start(seed, models);
    let n = nodes.dom().len();
    lemma_ops_add(sim, first, more, n);
    assert(ops_fit(first)) by {
        assert forall|i: int| 0 <= i < first.len() implies match (#[trigger] first[i]) {
            Op::Hand { id, input } => may_hand(input),
            _ => true,
        } by {
            assert((first + more)[i] == first[i]);
        }
    }
    assert(ops_fit(more)) by {
        assert forall|i: int| 0 <= i < more.len() implies match (#[trigger] more[i]) {
            Op::Hand { id, input } => may_hand(input),
            _ => true,
        } by {
            assert((first + more)[first.len() + i] == more[i]);
        }
    }
    let (c1, s1) = lemma_ops(sim, c, s, 0, first);
    let b1 = ops_reach(first, n);
    let (c2, s2) = lemma_ops(after_ops(sim, first), c1, s1, b1, more);
    let b2 = b1 + ops_reach(more, n);
    lemma_wider(after_ops(sim, first).cluster, c1, s1, b1, b2);
    (c1, s1, c2, s2, b2)
}

/// Vote Once across any schedule of crashes: what is durable of a node never
/// shows two votes in one term.
pub proof fn law_votes_once_across_any_schedule(
    seed: u64,
    models: Seq<NodeModel>,
    first: Seq<Op>,
    more: Seq<Op>,
    id: NodeId,
)
    requires
        is_schedule(models, first + more),
        models_by_id::<RaftNode>(models).contains_key(id),
    ensures
        ({
            let sim = sim_start::<RaftNode>(seed, models);
            let a = after_ops(sim, first).recovered(id);
            let b = after_ops(sim, first + more).recovered(id);
            a is Some && b is Some && a->0.hard_state.current_term
                == b->0.hard_state.current_term && a->0.hard_state.voted_for is Some
                && b->0.hard_state.voted_for is Some ==> a->0.hard_state.voted_for
                == b->0.hard_state.voted_for
        }),
{
    let sim = sim_start::<RaftNode>(seed, models);
    let (c1, s1, c2, s2, b) = lemma_two_points(seed, models, first, more);
    lemma_recovered(after_ops(sim, first), c1, s1, b, id);
    lemma_recovered(after_ops(sim, first + more), c2, s2, b, id);
    let v = c1.nodes[id];
    let w = c2.nodes[id];
    assert(mirrors(s1.members, id, s1.nodes[id], v));
    assert(mirrors(s2.members, id, s2.nodes[id], w));
    assert(node_ok(s1.record, s1.members, id, s1.nodes[id]));
    assert(node_ok(s2.record, s2.members, id, s2.nodes[id]));
    if v.current_term == w.current_term && v.voted_for is Some && w.voted_for is Some {
        assert(s1.record.ballots.contains_key((id, v.current_term)));
        assert(s2.record.ballots.contains_key((id, v.current_term)));
    }
}

/// Log Matching across any schedule of crashes: the logs of any two nodes that
/// are up match.
pub proof fn law_logs_match_across_any_schedule(
    seed: u64,
    models: Seq<NodeModel>,
    ops: Seq<Op>,
    m: NodeId,
    n: NodeId,
)
    requires
        is_schedule(models, ops),
        after_ops(sim_start::<RaftNode>(seed, models), ops).cluster.nodes.contains_key(m),
        after_ops(sim_start::<RaftNode>(seed, models), ops).cluster.nodes.contains_key(n),
    ensures
        ({
            let nodes = after_ops(sim_start::<RaftNode>(seed, models), ops).cluster.nodes;
            log_matching(nodes[m]->Raft_0.log, nodes[n]->Raft_0.log)
        }),
{
    let none = Seq::<Op>::empty();
    assert(ops + none =~= ops);
    let (c, s, c2, s2, b) = lemma_two_points(seed, models, ops, none);
    assert(mirrors(s.members, m, s.nodes[m], c.nodes[m]));
    assert(mirrors(s.members, n, s.nodes[n], c.nodes[n]));
    lemma_logs_match(s, c.nodes[m], c.nodes[n]);
}

/// No schedule of crashes makes a simulation find safety broken. At most a tick
/// in which messages never ended stops it.
pub proof fn law_no_schedule_breaks_safety(seed: u64, models: Seq<NodeModel>, ops: Seq<Op>)
    requires
        is_schedule(models, ops),
    ensures
        ({
            let violation = after_ops(
                sim_start::<RaftNode>(seed, models),
                ops,
            ).cluster.violation;
            violation is None || violation->0 is CascadeExceeded
        }),
{
    let none = Seq::<Op>::empty();
    assert(ops + none =~= ops);
    let (c, s, c2, s2, b) = lemma_two_points(seed, models, ops, none);
}

/// Who is left of a list without one of them.
proof fn lemma_others(peers: Seq<NodeId>, id: NodeId)
    ensures
        forall|p: NodeId| #[trigger]
            others_of(peers, id).contains(p) <==> peers.contains(p) && p != id,
        peers.no_duplicates() ==> others_of(peers, id).no_duplicates(),
    decreases peers.len(),
{
    reveal(Seq::filter);
    let all = others_of(peers, id);
    if peers.len() > 0 {
        let before = peers.drop_last();
        let last = peers[peers.len() - 1];
        lemma_others(before, id);
        let rest = others_of(before, id);
        assert forall|p: NodeId| #[trigger] all.contains(p) <==> peers.contains(p) && p != id by {
            if all.contains(p) {
                let i = choose|i: int| 0 <= i < all.len() && all[i] == p;
                if i < rest.len() {
                    assert(rest[i] == p);
                    assert(rest.contains(p));
                    let j = choose|j: int| 0 <= j < before.len() && before[j] == p;
                    assert(peers[j] == p);
                } else {
                    assert(p == last);
                }
            }
            if peers.contains(p) && p != id {
                let j = choose|j: int| 0 <= j < peers.len() && peers[j] == p;
                if j < before.len() {
                    assert(before[j] == p);
                    assert(rest.contains(p));
                    let i = choose|i: int| 0 <= i < rest.len() && rest[i] == p;
                    assert(all[i] == p);
                } else {
                    assert(all[all.len() - 1] == p);
                }
            }
        }
        if peers.no_duplicates() {
            assert(before.no_duplicates()) by {
                assert forall|i: int, j: int| 0 <= i < j < before.len() implies before[i]
                    != before[j] by {
                    assert(peers[i] != peers[j]);
                }
            }
            assert(!rest.contains(last)) by {
                if rest.contains(last) {
                    let j = choose|j: int| 0 <= j < before.len() && before[j] == last;
                    assert(peers[j] != peers[peers.len() - 1]);
                }
            }
            assert forall|i: int, j: int| 0 <= i < all.len() && 0 <= j < all.len() && i
                != j implies all[i] != all[j] by {
                if i < rest.len() && j < rest.len() {
                    assert(rest[i] != rest[j]);
                } else if i < rest.len() {
                    assert(rest.contains(rest[i]));
                } else if j < rest.len() {
                    assert(rest.contains(rest[j]));
                }
            }
        }
    }
}

pub proof fn lemma_cluster_models(seed: u64, n: nat, k: nat)
    requires
        k <= n < u64::MAX,
    ensures
        ({
            let models = Seq::new(
                k,
                |i: int| NodeModel::Raft(cluster_node(seed, n, (i + 1) as u64)),
            );
            let nodes = models_by_id::<RaftNode>(models);
            &&& nodes.dom().finite()
            &&& forall|id: NodeId| #[trigger]
                nodes.contains_key(id) <==> 1 <= id <= k
            &&& forall|id: NodeId| #[trigger]
                nodes.contains_key(id) ==> nodes[id] == NodeModel::Raft(cluster_node(seed, n, id))
        }),
    decreases k,
{
    let models = Seq::new(k, |i: int| NodeModel::Raft(cluster_node(seed, n, (i + 1) as u64)));
    if k > 0 {
        lemma_cluster_models(seed, n, (k - 1) as nat);
        assert(models.drop_last() =~= Seq::new(
            (k - 1) as nat,
            |i: int| NodeModel::Raft(cluster_node(seed, n, (i + 1) as u64)),
        ));
        assert(RaftNode::id_of(models.last()) == k);
    }
}

/// The clusters of the scenarios are made of fresh nodes that know each other.
pub proof fn law_scenario_clusters_are_fresh(seed: u64, n: nat)
    requires
        n < u64::MAX,
    ensures
        are_fresh(
            models_by_id::<RaftNode>(
                Seq::new(n, |i: int| NodeModel::Raft(cluster_node(seed, n, (i + 1) as u64))),
            ),
        ),
{
    let models = Seq::new(n, |i: int| NodeModel::Raft(cluster_node(seed, n, (i + 1) as u64)));
    let nodes = models_by_id::<RaftNode>(models);
    lemma_cluster_models(seed, n, n);
    let ids = cluster_ids(n);
    assert(ids.no_duplicates());
    assert forall|id: NodeId| #[trigger] nodes.contains_key(id) implies {
        &&& nodes[id] is Raft
        &&& nodes[id]->Raft_0.is_fresh(id)
        &&& nodes[id]->Raft_0.knows(nodes.dom())
    } by {
        let v = cluster_node(seed, n, id);
        let peers = others_of(ids, id);
        lemma_others(ids, id);
        lemma_others(peers, id);
        assert forall|p: NodeId| #[trigger] v.others().contains(p) <==> nodes.dom().contains(p) && p
            != v.id by {
            assert(nodes.dom().contains(p) <==> nodes.contains_key(p));
            assert(ids.contains(p) <==> 1 <= p <= n) by {
                if 1 <= p <= n {
                    assert(ids[p - 1] == p);
                }
            }
            assert(peers.contains(p) <==> ids.contains(p) && p != id);
        }
    }
}

} // verus!
