//! What the scenarios' reports say of the simulations behind them.

use vstd::prelude::*;

use crate::cli_laws::lemma_decimal_chars;
use crate::config::NodeId;
use crate::maps::{keys_in_order, lemma_u64_lt_total, u64_lt};
use crate::raft::duties::{lemma_others_listed, lemma_tail, tail_index};
use crate::raft::log::{LogEntryView, RaftLogView};
use crate::raft::state::RaftState;
use crate::seqs::lemma_sorted_list;
use crate::sim::model::{NodeModel, SimView};
use crate::sim::scenario::crash_restart::{
    crash_all, crash_restart_result, restart_all, revive_all, with_votes_of, ScenarioView, VoteMap,
    CLUSTER_SIZE,
};
use crate::sim::scenario::election::{
    election_result, election_within, leaders_among, leaders_of, leads,
};
use crate::sim::scenario::replicate::{
    ascii_bytes, command_count, identical, logs_agree, numbered_command, replicate_result,
    same_lookup, sim_logs,
};
use crate::text::{decimal, law_decimal_parses};

verus! {

// ── Leaders ─────────────────────────────────────────────────────────────────

/// The node is there and leads.
pub open spec fn is_leader(sim: SimView, id: NodeId) -> bool {
    sim.cluster.nodes.contains_key(id) && sim.cluster.nodes[id]->Raft_0.state == RaftState::Leader
}

proof fn lemma_listed_leaders(ids: Seq<NodeId>, nodes: Map<NodeId, NodeModel>, id: NodeId)
    ensures
        leaders_among(ids, nodes).contains(id) <==> ids.contains(id) && leads(nodes, id),
    decreases ids.len(),
{
    if ids.len() > 0 {
        let fewer = ids.drop_last();
        let last = ids[ids.len() - 1];
        assert(ids.last() == last);
        lemma_listed_leaders(fewer, nodes, id);
        let some = leaders_among(fewer, nodes);
        let all = leaders_among(ids, nodes);
        if fewer.contains(id) {
            assert(ids[fewer.index_of(id)] == id);
        }
        if ids.contains(id) && id != last {
            let i = ids.index_of(id);
            assert(fewer[i] == id);
        }
        assert(ids.contains(last));
        if leads(nodes, last) {
            assert(all == some.push(last));
            assert(all[some.len() as int] == last);
            if some.contains(id) {
                assert(all[some.index_of(id)] == id);
            }
            if all.contains(id) && id != last {
                let i = all.index_of(id);
                assert(some[i] == id);
            }
        }
    }
}

/// The leaders that are listed are exactly the nodes that lead.
pub proof fn law_leaders_listed_are_those_that_lead(sim: SimView, id: NodeId)
    requires
        sim.cluster.nodes.dom().finite(),
    ensures
        leaders_of(sim).contains(id) <==> is_leader(sim, id),
{
    let nodes = sim.cluster.nodes;
    lemma_u64_lt_total();
    lemma_sorted_list(nodes.dom(), u64_lt());
    lemma_listed_leaders(keys_in_order(nodes), nodes, id);
    assert(keys_in_order(nodes).contains(id) <==> nodes.dom().contains(id));
}

/// A leader is reported exactly where one node leads and no other does, and a term
/// where any leads: that of a node that does.
pub proof fn law_reported_leader_leads_alone(sim: SimView, seed: u64, ticks_run: u64, id: NodeId)
    requires
        sim.cluster.nodes.dom().finite(),
        leaders_of(sim).no_duplicates(),
    ensures
        ({
            let result = election_result(sim, seed, ticks_run);
            &&& result.leader_id == Some(id) <==> is_leader(sim, id) && forall|other: NodeId|
                #[trigger] is_leader(sim, other) ==> other == id
            &&& result.leader_id is Some ==> result.leader_term == Some(
                sim.cluster.nodes[result.leader_id->0]->Raft_0.current_term,
            )
            &&& is_leader(sim, id) ==> result.leader_term is Some
            &&& (forall|other: NodeId| !is_leader(sim, other)) ==> result.leader_term is None
                && result.leader_id is None
            &&& result.seed == seed
            &&& result.ticks_run == ticks_run
        }),
{
    let leaders = leaders_of(sim);
    assert forall|other: NodeId| leaders.contains(other) == #[trigger] is_leader(sim, other) by {
        law_leaders_listed_are_those_that_lead(sim, other);
    }
    if leaders.len() == 1 {
        assert(leaders.contains(leaders[0]));
        assert forall|other: NodeId| #[trigger] is_leader(sim, other) implies other
            == leaders[0] by {
            assert(leaders.contains(other));
        }
        assert(leaders.last() == leaders[0]);
        assert(is_leader(sim, leaders[0]));
    }
    if is_leader(sim, id) {
        assert(leaders.contains(id));
        if forall|other: NodeId| #[trigger] is_leader(sim, other) ==> other == id {
            if leaders.len() > 1 {
                assert(leaders.contains(leaders[0]) && leaders.contains(leaders[1]));
                assert(is_leader(sim, leaders[0]) && is_leader(sim, leaders[1]));
            }
        }
    }
    if leaders.len() > 0 {
        assert(leaders.contains(leaders[0]));
        assert(is_leader(sim, leaders[0]));
    }
}

// ── Logs ────────────────────────────────────────────────────────────────────

/// Logs that start alike are found identical exactly where they hold the same.
pub proof fn law_identical_logs_hold_the_same(a: RaftLogView, b: RaftLogView)
    requires
        a.proper(),
        b.proper(),
        a.start_index == b.start_index,
    ensures
        identical(a, b) <==> a.entries == b.entries,
{
    lemma_tail(a);
    lemma_tail(b);
    if identical(a, b) {
        assert(a.entries.len() == b.entries.len());
        assert forall|i: int| 0 <= i < a.entries.len() implies a.entries[i] == b.entries[i] by {
            let index = (a.start_index + i) as u64;
            assert(same_lookup(a, b, index));
        }
        assert(a.entries =~= b.entries);
    }
}

/// Logs that are found identical end at the same index and differ nowhere.
pub proof fn law_identical_logs_differ_nowhere(a: RaftLogView, b: RaftLogView, index: u64)
    requires
        a.proper(),
        b.proper(),
        identical(a, b),
        1 <= index,
    ensures
        tail_index(a) == tail_index(b),
        a.start_index <= index <= tail_index(a) && b.start_index <= index ==> a.entries[index
            - a.start_index] == b.entries[index - b.start_index],
{
    lemma_tail(a);
    lemma_tail(b);
    if index <= tail_index(b) {
        assert(same_lookup(a, b, index));
    }
}

/// The logs count as identical only where safety held, there is a node, and the
/// logs of any two nodes are found identical with that of the first; and there
/// they do.
pub proof fn law_logs_agree_where_all_are_the_same(sim: SimView, log: RaftLogView)
    requires
        sim.cluster.nodes.dom().finite(),
    ensures
        sim.cluster.violation is Some ==> !logs_agree(sim),
        sim.cluster.nodes.dom() =~= Set::empty() ==> !logs_agree(sim),
        sim.cluster.violation is None && !(sim.cluster.nodes.dom() =~= Set::empty()) && (forall|
            id: NodeId,
        | #[trigger]
            sim.cluster.nodes.contains_key(id) ==> sim.cluster.nodes[id]->Raft_0.log == log)
            ==> logs_agree(sim),
        logs_agree(sim) ==> exists|first: NodeId|
            sim.cluster.nodes.contains_key(first) && forall|id: NodeId| #[trigger]
                sim.cluster.nodes.contains_key(id) ==> identical(
                    sim.cluster.nodes[id]->Raft_0.log,
                    sim.cluster.nodes[first]->Raft_0.log,
                ),
{
    let nodes = sim.cluster.nodes;
    let ids = keys_in_order(nodes);
    let logs = sim_logs(sim);
    lemma_u64_lt_total();
    lemma_sorted_list(nodes.dom(), u64_lt());
    assert forall|i: int| 0 <= i < ids.len() implies nodes.contains_key(#[trigger] ids[i]) by {
        assert(ids.contains(ids[i]));
        assert(nodes.dom().contains(ids[i]));
    }
    assert(logs.len() == ids.len());
    if nodes.dom() =~= Set::empty() {
        if ids.len() > 0 {
            assert(nodes.dom().contains(ids[0]));
        }
    } else {
        let some = choose|id: NodeId| nodes.dom().contains(id);
        assert(nodes.dom().contains(some));
        assert(ids.contains(some));
    }
    if forall|id: NodeId| #[trigger]
        nodes.contains_key(id) ==> nodes[id]->Raft_0.log == log {
        assert forall|i: int| 0 <= i < logs.len() implies identical(
            #[trigger] logs[i],
            logs[0],
        ) by {
            assert(nodes.contains_key(ids[i]));
            assert(nodes.contains_key(ids[0]));
            lemma_identical_to_itself(log);
        }
    }
    if logs_agree(sim) {
        let first = ids[0];
        assert(nodes.contains_key(first));
        assert forall|id: NodeId| #[trigger] nodes.contains_key(id) implies identical(
            nodes[id]->Raft_0.log,
            nodes[first]->Raft_0.log,
        ) by {
            assert(nodes.dom().contains(id));
            assert(ids.contains(id));
            let i = ids.index_of(id);
            assert(logs[i] == nodes[id]->Raft_0.log);
            assert(identical(logs[i], logs[0]));
        }
    }
}

proof fn lemma_identical_to_itself(log: RaftLogView)
    ensures
        identical(log, log),
{
}

/// A log counts as many commands as it holds entries that carry one.
pub proof fn law_commands_are_counted(log: RaftLogView, entry: LogEntryView)
    ensures
        log.entries.len() == 0 ==> command_count(log) == 0,
        command_count(RaftLogView { entries: log.entries.push(entry), ..log }) == command_count(log)
            + if entry.command.len() > 0 {
            1int
        } else {
            0
        },
{
    reveal(Seq::filter);
    assert(log.entries.push(entry).drop_last() =~= log.entries);
}

// ── Commands ────────────────────────────────────────────────────────────────

/// No two writes of a scenario carry the same command.
pub proof fn law_numbered_commands_differ(prefix: Seq<u8>, i: u64, j: u64)
    requires
        numbered_command(prefix, i as nat) == numbered_command(prefix, j as nat),
    ensures
        i == j,
{
    let a = decimal(i as nat);
    let b = decimal(j as nat);
    let n = prefix.len() as int;
    assert(numbered_command(prefix, i as nat).skip(n) =~= ascii_bytes(a));
    assert(numbered_command(prefix, j as nat).skip(n) =~= ascii_bytes(b));
    lemma_decimal_chars(i as nat);
    lemma_decimal_chars(j as nat);
    assert(a.len() == ascii_bytes(a).len() && b.len() == ascii_bytes(b).len());
    assert forall|k: int| 0 <= k < a.len() implies a[k] == b[k] by {
        assert(ascii_bytes(a)[k] == ascii_bytes(b)[k]);
        assert('0' <= a[k] && a[k] <= '9');
        assert('0' <= b[k] && b[k] <= '9');
    }
    assert(a =~= b);
    law_decimal_parses(i);
    law_decimal_parses(j);
}

// ── Votes ───────────────────────────────────────────────────────────────────

proof fn lemma_votes_of_others(sim: SimView, votes: VoteMap, ids: Seq<NodeId>, term: u64, id: NodeId)
    requires
        !ids.contains(id),
    ensures
        with_votes_of(sim, votes, ids).0.contains_key((term, id)) == votes.contains_key((term, id)),
        with_votes_of(sim, votes, ids).0[(term, id)] == votes[(term, id)],
    decreases ids.len(),
{
    if ids.len() > 0 {
        let fewer = ids.drop_last();
        if fewer.contains(id) {
            assert(ids[fewer.index_of(id)] == id);
        }
        assert(ids[ids.len() - 1] == ids.last());
        lemma_votes_of_others(sim, votes, fewer, term, id);
    }
}

/// A second vote is noticed: where a node's storage shows a vote in a term in which
/// another of its votes was seen, the look at the votes says so.
pub proof fn law_second_vote_is_noticed(
    sim: SimView,
    votes: VoteMap,
    ids: Seq<NodeId>,
    id: NodeId,
)
    requires
        ids.no_duplicates(),
        ids.contains(id),
        sim.recovered(id) is Some,
        sim.recovered(id)->0.hard_state.voted_for is Some,
        votes.contains_key((sim.recovered(id)->0.hard_state.current_term, id)),
        votes[(sim.recovered(id)->0.hard_state.current_term, id)]
            != sim.recovered(id)->0.hard_state.voted_for->0,
    ensures
        !with_votes_of(sim, votes, ids).1,
    decreases ids.len(),
{
    let fewer = ids.drop_last();
    let last = ids[ids.len() - 1];
    assert(ids.last() == last);
    assert(fewer.no_duplicates()) by {
        assert forall|i: int, j: int|
            0 <= i < fewer.len() && 0 <= j < fewer.len() && i != j implies fewer[i] != fewer[j] by {
            assert(ids[i] != ids[j]);
        }
    }
    if last == id {
        if fewer.contains(id) {
            let i = fewer.index_of(id);
            assert(ids[i] == ids[ids.len() - 1]);
        }
        let term = sim.recovered(id)->0.hard_state.current_term;
        lemma_votes_of_others(sim, votes, fewer, term, id);
    } else {
        let i = ids.index_of(id);
        assert(fewer[i] == id);
        law_second_vote_is_noticed(sim, votes, fewer, id);
    }
}

/// What was seen of a vote is remembered, as long as it is not contradicted.
pub proof fn law_seen_vote_is_remembered(
    sim: SimView,
    votes: VoteMap,
    ids: Seq<NodeId>,
    id: NodeId,
)
    requires
        ids.no_duplicates(),
        ids.contains(id),
        sim.recovered(id) is Some,
        sim.recovered(id)->0.hard_state.voted_for is Some,
    ensures
        ({
            let key = (sim.recovered(id)->0.hard_state.current_term, id);
            let after = with_votes_of(sim, votes, ids).0;
            after.contains_key(key) && Some(after[key])
                == sim.recovered(id)->0.hard_state.voted_for
        }),
    decreases ids.len(),
{
    let fewer = ids.drop_last();
    let last = ids[ids.len() - 1];
    assert(ids.last() == last);
    if last != id {
        let i = ids.index_of(id);
        assert(fewer[i] == id);
        assert(fewer.no_duplicates()) by {
            assert forall|i: int, j: int|
                0 <= i < fewer.len() && 0 <= j < fewer.len() && i != j implies fewer[i]
                != fewer[j] by {
                assert(ids[i] != ids[j]);
            }
        }
        law_seen_vote_is_remembered(sim, votes, fewer, id);
    }
}

// ── Crashes ─────────────────────────────────────────────────────────────────

/// A majority stays up: in a cluster of five no more than two nodes may crash at a
/// time, of those that are up and do not lead.
pub proof fn law_majority_stays_up(state: ScenarioView, id: NodeId)
    requires
        state.sim.cluster.nodes.dom().finite(),
    ensures
        CLUSTER_SIZE == 5,
        state.crash_limit() <= 2,
        state.crash_limit() <= state.followers().len(),
        state.followers().contains(id) <==> state.sim.cluster.nodes.contains_key(id) && id
            != state.leader_id,
{
    let nodes = state.sim.cluster.nodes;
    let ids = keys_in_order(nodes);
    lemma_u64_lt_total();
    lemma_sorted_list(nodes.dom(), u64_lt());
    lemma_others_listed(ids, state.leader_id);
    assert(ids.contains(id) <==> nodes.dom().contains(id));
}

/// Every node that is to crash is down afterwards, each crash is counted, and the
/// nodes that were not to crash are as they were.
pub proof fn law_nodes_picked_crash(state: ScenarioView, ids: Seq<NodeId>, id: NodeId)
    ensures
        ({
            let after = crash_all(state, ids);
            &&& after.crashes == state.crashes + ids.len()
            &&& after.leader_id == state.leader_id
            &&& after.sim.cluster.storages == state.sim.cluster.storages
            &&& ids.contains(id) ==> !after.sim.cluster.nodes.contains_key(id)
            &&& !ids.contains(id) ==> {
                &&& after.sim.cluster.nodes.contains_key(id)
                    == state.sim.cluster.nodes.contains_key(id)
                &&& after.sim.cluster.nodes[id] == state.sim.cluster.nodes[id]
            }
        }),
    decreases ids.len(),
{
    if ids.len() > 0 {
        let fewer = ids.drop_last();
        law_nodes_picked_crash(state, fewer, id);
        reveal(SimView::crash);
        lemma_in_or_last(ids, id);
    }
}

proof fn lemma_in_or_last(ids: Seq<NodeId>, id: NodeId)
    requires
        ids.len() > 0,
    ensures
        ids.contains(id) <==> ids.drop_last().contains(id) || ids.last() == id,
{
    let fewer = ids.drop_last();
    assert(ids[ids.len() - 1] == ids.last());
    if fewer.contains(id) {
        assert(ids[fewer.index_of(id)] == id);
    }
    if ids.contains(id) && ids.last() != id {
        let i = ids.index_of(id);
        assert(fewer[i] == id);
    }
}

/// Where all nodes came back, all are up; and where one does not, it was not down or
/// its storage does not recover.
pub proof fn law_nodes_come_back(sim: SimView, ids: Seq<NodeId>, id: NodeId)
    ensures
        ({
            let (after, all) = restart_all(sim, ids);
            &&& all && ids.contains(id) ==> after.cluster.nodes.contains_key(id)
            &&& sim.cluster.nodes.contains_key(id) ==> after.cluster.nodes.contains_key(id)
            &&& after.cluster.storages == sim.cluster.storages
        }),
        ({
            let after = revive_all(sim, ids);
            &&& ids.contains(id) && !after.cluster.nodes.contains_key(id) ==> !after.can_restart(id)
            &&& sim.cluster.nodes.contains_key(id) ==> after.cluster.nodes.contains_key(id)
            &&& after.cluster.storages == sim.cluster.storages
        }),
    decreases ids.len(),
{
    if ids.len() > 0 {
        let fewer = ids.drop_last();
        law_nodes_come_back(sim, fewer, id);
        reveal(SimView::restart);
        lemma_in_or_last(ids, id);
    }
}

/// A scenario without a leader to write to reports none, and identical logs only
/// where there is something to compare.
pub proof fn law_scenario_without_a_leader_reports_none(seed: u64, writes: u64)
    ensures
        ({
            let result = replicate_result(seed, writes);
            &&& result.seed == seed
            &&& result.writes == writes
            &&& election_within(seed, 3, 600).leader_id is None ==> result.leader_id is None
                && result.log_len == 0 && !result.logs_identical
            &&& election_within(seed, 3, 600).leader_id is Some ==> result.leader_id is Some
        }),
        ({
            let result = crash_restart_result(seed, writes);
            &&& result.seed == seed
            &&& result.writes == writes
            &&& election_within(seed, 5, 800).leader_id is None ==> result.leader_id is None
                && result.crashes == 0 && !result.logs_identical
        }),
{
}

} // verus!
