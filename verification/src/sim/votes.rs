//! The crash and restart scenario finds no node that voted twice in a term.

use vstd::arithmetic::power::pow;
use vstd::bytes::lemma_auto_spec_u64_to_from_le_bytes;
use vstd::prelude::*;

use crate::config::NodeId;
use crate::raft::driver::InputView;
use crate::raft::safety::cluster::Cluster;
use crate::raft::safety::consistency::node_ok;
use crate::raft::safety::protocol::System;
use crate::raft::safety::refinement::{lemma_node_log, mirrors};
use crate::raft::RaftNode;
use crate::sim::laws::{
    is_sound_with, lemma_recovered, lemma_start, lemma_wider, small_command, step_reach, tick_reach,
};
use crate::sim::model::{sim_run, sim_step, NodeModel, SimView};
use crate::sim::roster::law_election_stops_at_the_first_leader;
use crate::sim::scenario::crash_restart::{
    crash_all, crash_restart_result, restart_all, revive_all, scenario_start, shuffled,
    with_vote_of, with_votes_of, RoundView, ScenarioView, VoteMap, CLUSTER_SIZE,
};
use crate::sim::scenario::election::{
    cluster_ids, cluster_node, cluster_start, election_within, leaders_of,
};
use crate::sim::scenario::replicate::numbered_command;
use crate::sim::schedules::{
    law_scenario_clusters_are_fresh, lemma_cluster_models, lemma_op, op_reach, Op,
};
use crate::text::decimal;

verus! {

// ── Commands that fit ───────────────────────────────────────────────────────

proof fn lemma_decimal_len(n: nat, k: nat)
    requires
        k >= 1,
        n < pow(10, k),
    ensures
        decimal(n).len() <= k,
    decreases k,
{
    reveal(pow);
    if n >= 10 {
        if k == 1 {
            assert(pow(10, 0) == 1);
        } else {
            lemma_decimal_len(n / 10, (k - 1) as nat);
        }
    }
}

proof fn lemma_numbered_fits(prefix: Seq<u8>, i: u64)
    requires
        prefix.len() <= 2,
    ensures
        small_command(numbered_command(prefix, i as nat)),
{
    assert(pow(10, 20) == 100_000_000_000_000_000_000) by {
        reveal_with_fuel(pow, 21);
    }
    lemma_decimal_len(i as nat, 20);
    lemma_auto_spec_u64_to_from_le_bytes();
}

// ── Votes ───────────────────────────────────────────────────────────────────

/// The votes that were found are on the protocol's record.
spec fn on_record(votes: VoteMap, s: System) -> bool {
    forall|term: u64, id: NodeId| #[trigger]
        votes.contains_key((term, id)) ==> s.record.ballots.contains_key((id, term))
            && s.record.ballots[(id, term)].candidate == votes[(term, id)]
}

/// The scenario is a history of a cluster, and no vote was found that contradicts
/// another.
spec fn is_going(st: ScenarioView, c: Cluster, s: System, b: nat) -> bool {
    &&& is_sound_with(st.sim, c, s, b)
    &&& c.members.finite()
    &&& c.members.len() == CLUSTER_SIZE
    &&& forall|id: NodeId| #[trigger] c.members.contains(id) <==> 1 <= id <= CLUSTER_SIZE
    &&& st.vote_once
    &&& on_record(st.votes, s)
}

proof fn lemma_look_at(
    sim: SimView,
    votes: VoteMap,
    ids: Seq<NodeId>,
    c: Cluster,
    s: System,
    b: nat,
)
    requires
        is_sound_with(sim, c, s, b),
        on_record(votes, s),
        forall|i: int| 0 <= i < ids.len() ==> c.members.contains(#[trigger] ids[i]),
    ensures
        on_record(with_votes_of(sim, votes, ids).0, s),
        with_votes_of(sim, votes, ids).1,
    decreases ids.len(),
{
    if ids.len() > 0 {
        let fewer = ids.drop_last();
        assert forall|i: int| 0 <= i < fewer.len() implies c.members.contains(
            #[trigger] fewer[i],
        ) by {
            assert(fewer[i] == ids[i]);
        }
        lemma_look_at(sim, votes, fewer, c, s, b);
        let before = with_votes_of(sim, votes, fewer).0;
        let id = ids[ids.len() - 1];
        assert(c.members.contains(id));
        lemma_recovered(sim, c, s, b, id);
        let v = c.nodes[id];
        assert(mirrors(s.members, id, s.nodes[id], v));
        lemma_node_log(s, id);
        assert(node_ok(s.record, s.members, id, s.nodes[id]));
        if sim.recovered(id) is Some && v.voted_for is Some {
            assert(s.record.ballots.contains_key((id, v.current_term)));
            let after = with_vote_of(sim, before, id).0;
            assert forall|term: u64, n: NodeId| #[trigger] after.contains_key((term, n)) implies
                s.record.ballots.contains_key((n, term)) && s.record.ballots[(n, term)].candidate
                == after[(term, n)] by {
                if (term, n) != (v.current_term, id) {
                    assert(before.contains_key((term, n)));
                }
            }
        }
    }
}

proof fn lemma_looked(st: ScenarioView, c: Cluster, s: System, b: nat)
    requires
        is_going(st, c, s, b),
    ensures
        is_going(st.look_at_votes(), c, s, b),
{
    let ids = cluster_ids(CLUSTER_SIZE as nat);
    assert forall|i: int| 0 <= i < ids.len() implies c.members.contains(#[trigger] ids[i]) by {}
    lemma_look_at(st.sim, st.votes, ids, c, s, b);
}

/// Whatever is done to the simulation.
proof fn lemma_done(st: ScenarioView, sim: SimView, c: Cluster, s: System, b: nat, op: Op) -> (
    after: (Cluster, System))
    requires
        is_going(st, c, s, b),
        sim == crate::sim::schedules::after_op(st.sim, op),
        match op {
            Op::Hand { id, input } => crate::sim::laws::may_hand(input),
            _ => true,
        },
        b + op_reach(op, CLUSTER_SIZE as nat) + 6 < u64::MAX,
    ensures
        is_going(
            ScenarioView { sim, ..st },
            after.0,
            after.1,
            b + op_reach(op, CLUSTER_SIZE as nat),
        ),
{
    let (c2, s2) = lemma_op(st.sim, c, s, b, op);
    assert forall|term: u64, id: NodeId| #[trigger] st.votes.contains_key((term, id)) implies
        s2.record.ballots.contains_key((id, term)) && s2.record.ballots[(id, term)].candidate
        == st.votes[(term, id)] by {
        assert(s.record.ballots.contains_key((id, term)));
    }
    (c2, s2)
}

/// Time passing.
proof fn lemma_ran(st: ScenarioView, c: Cluster, s: System, b: nat, ticks: nat) -> (after: (
    Cluster,
    System,
))
    requires
        is_going(st, c, s, b),
        b + ticks * tick_reach(CLUSTER_SIZE as nat) + 6 < u64::MAX,
    ensures
        is_going(
            ScenarioView { sim: sim_run::<RaftNode>(st.sim, ticks), ..st },
            after.0,
            after.1,
            b + ticks * tick_reach(CLUSTER_SIZE as nat),
        ),
{
    lemma_done(st, sim_run::<RaftNode>(st.sim, ticks), c, s, b, Op::Run { ticks })
}

/// The bound may be wider.
proof fn lemma_going_wider(st: ScenarioView, c: Cluster, s: System, b: nat, more: nat)
    requires
        is_going(st, c, s, b),
        b <= more,
    ensures
        is_going(st, c, s, more),
{
    lemma_wider(st.sim.cluster, c, s, b, more);
}

proof fn lemma_crashed(st: ScenarioView, ids: Seq<NodeId>, c: Cluster, s: System, b: nat) -> (after:
    (Cluster, System))
    requires
        is_going(st, c, s, b),
        b + 6 < u64::MAX,
    ensures
        is_going(crash_all(st, ids), after.0, after.1, b),
    decreases ids.len(),
{
    if ids.len() == 0 {
        (c, s)
    } else {
        let (c1, s1) = lemma_crashed(st, ids.drop_last(), c, s, b);
        let before = crash_all(st, ids.drop_last()).look_at_votes();
        lemma_looked(crash_all(st, ids.drop_last()), c1, s1, b);
        lemma_done(before, before.sim.crash(ids.last()), c1, s1, b, Op::Crash { id: ids.last() })
    }
}

proof fn lemma_restarted(st: ScenarioView, ids: Seq<NodeId>, c: Cluster, s: System, b: nat) -> (
    after: (Cluster, System))
    requires
        is_going(st, c, s, b),
        b + 6 < u64::MAX,
    ensures
        is_going(
            ScenarioView { sim: restart_all(st.sim, ids).0, ..st },
            after.0,
            after.1,
            b,
        ),
    decreases ids.len(),
{
    if ids.len() == 0 {
        (c, s)
    } else {
        let (c1, s1) = lemma_restarted(st, ids.drop_last(), c, s, b);
        let (before, all) = restart_all(st.sim, ids.drop_last());
        if !all {
            (c1, s1)
        } else {
            let here = ScenarioView { sim: before, ..st };
            lemma_done(here, before.restart(ids.last()), c1, s1, b, Op::Restart { id: ids.last() })
        }
    }
}

proof fn lemma_revived(st: ScenarioView, ids: Seq<NodeId>, c: Cluster, s: System, b: nat) -> (after:
    (Cluster, System))
    requires
        is_going(st, c, s, b),
        b + 6 < u64::MAX,
    ensures
        is_going(ScenarioView { sim: revive_all(st.sim, ids), ..st }, after.0, after.1, b),
    decreases ids.len(),
{
    if ids.len() == 0 {
        (c, s)
    } else {
        let (c1, s1) = lemma_revived(st, ids.drop_last(), c, s, b);
        let before = revive_all(st.sim, ids.drop_last());
        if before.cluster.nodes.contains_key(ids.last()) {
            (c1, s1)
        } else {
            let here = ScenarioView { sim: before, ..st };
            lemma_done(here, before.restart(ids.last()), c1, s1, b, Op::Restart { id: ids.last() })
        }
    }
}

/// How much further a round can take the scenario.
pub open spec fn round_reach() -> nat {
    363 * tick_reach(CLUSTER_SIZE as nat) + step_reach(InputView::ClientCommand(Seq::empty()))
}

/// A disturbance.
proof fn lemma_disturbed(st: ScenarioView, c: Cluster, s: System, b: nat) -> (after: (
    Cluster,
    System,
))
    requires
        is_going(st, c, s, b),
        b + 55 * tick_reach(CLUSTER_SIZE as nat) + 6 < u64::MAX,
    ensures
        match st.disturb() {
            RoundView::Next(next) => is_going(
                next,
                after.0,
                after.1,
                b + 55 * tick_reach(CLUSTER_SIZE as nat),
            ),
            RoundView::Leaderless(_) => false,
            RoundView::Lost(_) => true,
        },
{
    let n = st.crash_count();
    let reach = tick_reach(CLUSTER_SIZE as nat);
    if n == 0 {
        lemma_going_wider(st, c, s, b, b + 55 * reach);
        (c, s)
    } else {
        let (pick, rng) = shuffled(st.followers(), st.after_count(), n as nat);
        let victims = pick.take(n as int);
        let drawn = ScenarioView { rng, ..st };
        let (c1, s1) = lemma_crashed(drawn, victims, c, s, b);
        let crashed = crash_all(drawn, victims);
        let (c2, s2) = lemma_ran(crashed, c1, s1, b, 15);
        let paused = ScenarioView { sim: sim_run::<RaftNode>(crashed.sim, 15), ..crashed };
        let (c3, s3) = lemma_restarted(paused, victims, c2, s2, b + 15 * reach);
        let restarted = ScenarioView { sim: restart_all(paused.sim, victims).0, ..paused };
        lemma_ran(restarted, c3, s3, b + 15 * reach, 40)
    }
}

/// One round.
proof fn lemma_round(st: ScenarioView, c: Cluster, s: System, b: nat, i: u64) -> (after: (
    Cluster,
    System,
))
    requires
        is_going(st, c, s, b),
        b + round_reach() + 6 < u64::MAX,
    ensures
        match st.round(i as nat) {
            RoundView::Next(next) => is_going(next, after.0, after.1, b + round_reach()),
            RoundView::Leaderless(next) => is_going(next, after.0, after.1, b + round_reach()),
            RoundView::Lost(_) => true,
        },
{
    reveal(ScenarioView::round);
    let reach = tick_reach(CLUSTER_SIZE as nat);
    let b1 = b + 300 * reach;
    let later = sim_run::<RaftNode>(st.sim, 300);
    let (c1, s1) = if st.has_leader() || leaders_of(st.sim).len() > 0 {
        lemma_going_wider(st, c, s, b, b1);
        (c, s)
    } else {
        lemma_ran(st, c, s, b, 300)
    };
    match st.with_leader() {
        None => {
            let idle = ScenarioView { sim: later, ..st };
            lemma_going_wider(idle, c1, s1, b1, b + round_reach());
            (c1, s1)
        },
        Some(ready) => {
            assert(is_going(ready, c1, s1, b1));
            let command = numbered_command(seq!['c' as u8, 'r' as u8], i as nat);
            lemma_numbered_fits(seq!['c' as u8, 'r' as u8], i);
            let input = InputView::ClientCommand(command);
            let id = ready.leader_id;
            let stepped = sim_step::<RaftNode>(ready.sim, id, input);
            let (c2, s2) = lemma_done(ready, stepped, c1, s1, b1, Op::Hand { id, input });
            let b2 = b1 + step_reach(input);
            let handed = ScenarioView { sim: stepped, ..ready };
            let (c3, s3) = lemma_ran(handed, c2, s2, b2, 8);
            let written = ready.write(i as nat);
            let (c4, s4) = lemma_disturbed(written, c3, s3, b2 + 8 * reach);
            if let RoundView::Next(next) = written.disturb() {
                lemma_looked(next, c4, s4, b2 + 63 * reach);
                lemma_going_wider(next.look_at_votes(), c4, s4, b2 + 63 * reach, b + round_reach());
            }
            (c4, s4)
        },
    }
}

/// All rounds.
proof fn lemma_rounds(st: ScenarioView, c: Cluster, s: System, b: nat, i: u64, left: nat) -> (after:
    (Cluster, System))
    requires
        is_going(st, c, s, b),
        i + left <= u64::MAX,
        b + left * round_reach() + 6 < u64::MAX,
    ensures
        match st.rounds(i as nat, left) {
            RoundView::Next(next) => is_going(next, after.0, after.1, b + left * round_reach()),
            RoundView::Leaderless(next) => is_going(
                next,
                after.0,
                after.1,
                b + left * round_reach(),
            ),
            RoundView::Lost(_) => true,
        },
    decreases left,
{
    let reach = round_reach();
    if left == 0 {
        assert(0 * reach == 0) by (nonlinear_arith);
        (c, s)
    } else {
        let fewer = (left - 1) as nat;
        assert(reach + fewer * reach == left * reach) by (nonlinear_arith)
            requires
                fewer + 1 == left,
        ;
        let (c1, s1) = lemma_round(st, c, s, b, i);
        match st.round(i as nat) {
            RoundView::Next(next) => {
                if left == 1 {
                    assert(fewer * reach == 0) by (nonlinear_arith)
                        requires
                            fewer == 0,
                    ;
                    (c1, s1)
                } else {
                    lemma_rounds(next, c1, s1, b + reach, (i + 1) as u64, fewer)
                }
            },
            RoundView::Leaderless(next) => {
                lemma_going_wider(next, c1, s1, b + reach, b + left * reach);
                (c1, s1)
            },
            RoundView::Lost(_) => (c1, s1),
        }
    }
}

/// Where the scenario starts.
proof fn lemma_started(seed: u64) -> (r: (Cluster, System))
    requires
        scenario_start(seed) is Some,
    ensures
        is_going(
            scenario_start(seed)->0,
            r.0,
            r.1,
            800 * tick_reach(CLUSTER_SIZE as nat),
        ),
{
    let n = CLUSTER_SIZE as nat;
    let reach = tick_reach(n);
    let models = Seq::new(n, |i: int| NodeModel::Raft(cluster_node(seed, n, (i + 1) as u64)));
    law_scenario_clusters_are_fresh(seed, n);
    lemma_cluster_models(seed, n, n);
    law_election_stops_at_the_first_leader(seed, n, 800);
    let (c, s) = lemma_start(seed, models);
    assert(c.members.len() == n) by {
        let ids = cluster_ids(n);
        ids.unique_seq_to_set();
        assert(ids.to_set() =~= c.members) by {
            assert forall|id: NodeId| ids.to_set().contains(id) <==> c.members.contains(id) by {
                if 1 <= id <= n {
                    assert(ids[id - 1] == id);
                }
            }
        }
    }
    let end = scenario_start(seed)->0;
    let before = ScenarioView { sim: cluster_start(seed, n), ..end };
    assert(is_going(before, c, s, 0));
    let ticks = election_within(seed, n, 800).ticks_run as nat;
    assert(ticks * reach <= 800 * reach) by (nonlinear_arith)
        requires
            ticks <= 800,
    ;
    let (c1, s1) = lemma_ran(before, c, s, 0, ticks);
    lemma_going_wider(end, c1, s1, ticks * reach, 800 * reach);
    (c1, s1)
}

/// The crash and restart scenario finds every node to vote once in a term, unless
/// a node that crashed does not come back.
pub proof fn law_crash_scenario_votes_once(seed: u64, writes: u64)
    requires
        writes * round_reach() + 1300 * tick_reach(CLUSTER_SIZE as nat) + 6 < u64::MAX,
    ensures
        !(scenario_start(seed) is Some && scenario_start(seed)->0.rounds(0, writes as nat) is Lost)
            ==> crash_restart_result(seed, writes).vote_once,
{
    if let Some(start) = scenario_start(seed) {
        let reach = tick_reach(CLUSTER_SIZE as nat);
        let (c, s) = lemma_started(seed);
        let b = 800 * reach + writes * round_reach();
        let (c1, s1) = lemma_rounds(start, c, s, 800 * reach, 0, writes as nat);
        match start.rounds(0, writes as nat) {
            RoundView::Lost(_) => {},
            RoundView::Next(st) => lemma_settled(st, c1, s1, b as nat),
            RoundView::Leaderless(st) => lemma_settled(st, c1, s1, b as nat),
        }
    }
}

proof fn lemma_settled(st: ScenarioView, c: Cluster, s: System, b: nat)
    requires
        is_going(st, c, s, b),
        b + 500 * tick_reach(CLUSTER_SIZE as nat) + 6 < u64::MAX,
    ensures
        st.settle().vote_once,
{
    let ids = cluster_ids(CLUSTER_SIZE as nat);
    let (c1, s1) = lemma_revived(st, ids, c, s, b);
    let revived = ScenarioView { sim: revive_all(st.sim, ids), ..st };
    let (c2, s2) = lemma_ran(revived, c1, s1, b, 500);
    let end = ScenarioView { sim: sim_run::<RaftNode>(revived.sim, 500), ..revived };
    lemma_looked(end, c2, s2, b + 500 * tick_reach(CLUSTER_SIZE as nat));
}

} // verus!
