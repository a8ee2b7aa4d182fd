//! Log replication scenario.

use vstd::prelude::*;

use crate::config::NodeId;
use crate::maps::{ascending_keys, keys_in_order};
use crate::raft::driver::{Input, InputView};
use crate::raft::log::same_entry;
use crate::raft::log::{LogEntryView, RaftLog, RaftLogView};
use crate::raft::RaftNode;
use crate::seqs::lists;
use crate::sim::model::{sim_run, sim_step, NodeModel, SimView};
use crate::sim::scenario::election::{
    build_cluster, cluster_start, elect_within, election_within, find_leaders, leaders_of,
    lemma_run_tick, lemma_step_tick,
};
use crate::sim::{nodes_view, Simulator};
use crate::text::{decimal, u64_text};

verus! {

broadcast use vstd::std_specs::btree::group_btree_axioms;

/// Outcome of one replicate scenario run.
#[derive(Debug, Clone, Copy, PartialEq, Eq, Structural)]
pub struct ReplicateScenarioResult {
    pub seed: u64,
    pub leader_id: Option<NodeId>,
    pub writes: u64,
    /// Client commands in the log. A leader's no-op entry carries none and is
    /// not counted.
    pub log_len: u64,
    pub logs_identical: bool,
}

/// ASCII text as bytes.
pub open spec fn ascii_bytes(s: Seq<char>) -> Seq<u8> {
    Seq::new(s.len(), |i: int| s[i] as u8)
}

/// The command of a numbered write.
pub open spec fn numbered_command(prefix: Seq<u8>, i: nat) -> Seq<u8> {
    prefix + ascii_bytes(decimal(i))
}

/// Builds the command of a numbered write.
pub fn make_command(prefix: &[u8], i: u64) -> (r: Vec<u8>)
    ensures
        r@ == numbered_command(prefix@, i as nat),
{
    let mut out: Vec<u8> = Vec::new();
    let mut k: usize = 0;
    while k < prefix.len()
        invariant
            k <= prefix@.len(),
            out@ == prefix@.take(k as int),
        decreases prefix@.len() - k,
    {
        out.push(prefix[k]);
        k += 1;
        assert(out@ =~= prefix@.take(k as int));
    }
    assert(out@ =~= prefix@);
    let digits = crate::text::chars_of(u64_text(i).as_str());
    let ghost all = ascii_bytes(digits@);
    let mut j: usize = 0;
    while j < digits.len()
        invariant
            j <= digits@.len(),
            all == ascii_bytes(digits@),
            out@ =~= prefix@ + all.take(j as int),
        decreases digits@.len() - j,
    {
        #[verifier::truncate]
        let byte: u8 = digits[j] as u8;
        out.push(byte);
        j += 1;
    }
    assert(out@ =~= numbered_command(prefix@, i as nat));
    out
}

/// Whether two logs answer a lookup of `index` alike.
pub open spec fn same_lookup(a: RaftLogView, b: RaftLogView, index: u64) -> bool {
    if a.holds(index) && b.holds(index) {
        a.entry(index) == b.entry(index)
    } else {
        !a.holds(index) && !b.holds(index) && a.missing(index) == b.missing(index)
    }
}

/// Whether two logs end at the same index and hold the same up to it.
pub open spec fn identical(a: RaftLogView, b: RaftLogView) -> bool {
    a.last_index() == b.last_index() && forall|index: u64|
        1 <= index <= b.last_index() ==> #[trigger] same_lookup(a, b, index)
}

/// The logs of the nodes `ids`, in order.
pub open spec fn logs_among(ids: Seq<NodeId>, nodes: Map<NodeId, NodeModel>) -> Seq<RaftLogView> {
    Seq::new(ids.len(), |i: int| nodes[ids[i]]->Raft_0.log)
}

/// The logs of a simulation, in ascending order of the nodes.
pub open spec fn sim_logs(sim: SimView) -> Seq<RaftLogView> {
    logs_among(keys_in_order(sim.cluster.nodes), sim.cluster.nodes)
}

/// Whether safety held all along and all nodes, of which there is one at least,
/// ended with the same log.
pub open spec fn logs_agree(sim: SimView) -> bool {
    let logs = sim_logs(sim);
    &&& sim.cluster.violation is None
    &&& logs.len() > 0
    &&& forall|i: int| 0 <= i < logs.len() ==> identical(#[trigger] logs[i], logs[0])
}

/// How many client commands a log holds.
pub open spec fn command_count(log: RaftLogView) -> nat {
    log.entries.filter(|e: LogEntryView| e.command.len() > 0).len()
}

/// The node that leads, the lowest where several do; `fallback` where none does.
pub open spec fn leader_or(sim: SimView, fallback: NodeId) -> NodeId {
    if leaders_of(sim).len() > 0 {
        leaders_of(sim)[0]
    } else {
        fallback
    }
}

/// The cluster after `writes` commands, each with a few ticks to spread.
pub open spec fn after_writes(sim: SimView, leader: NodeId, writes: nat) -> SimView
    decreases writes,
{
    if writes == 0 {
        sim
    } else {
        let before = after_writes(sim, leader, (writes - 1) as nat);
        sim_run::<RaftNode>(
            sim_step::<RaftNode>(
                before,
                leader,
                InputView::ClientCommand(
                    numbered_command(seq!['w' as u8], (writes - 1) as nat),
                ),
            ),
            5,
        )
    }
}

/// What the scenario gives.
pub open spec fn replicate_result(seed: u64, writes: u64) -> ReplicateScenarioResult {
    let election = election_within(seed, 3, 600);
    match election.leader_id {
        None => ReplicateScenarioResult {
            seed,
            leader_id: None,
            writes,
            log_len: 0,
            logs_identical: false,
        },
        Some(elected) => {
            let ready = sim_run::<RaftNode>(cluster_start(seed, 3), election.ticks_run as nat);
            let leader = leader_or(ready, elected);
            let end = sim_run::<RaftNode>(after_writes(ready, leader, writes as nat), 200);
            ReplicateScenarioResult {
                seed,
                leader_id: Some(leader),
                writes,
                log_len: if sim_logs(end).len() > 0 {
                    command_count(sim_logs(end)[0]) as u64
                } else {
                    0
                },
                logs_identical: logs_agree(end),
            }
        },
    }
}

/// Whether two logs end at the same index and hold the same up to it.
pub fn logs_identical_pair(a: &RaftLog, b: &RaftLog) -> (r: bool)
    ensures
        r == identical(a@, b@),
{
    let last: u64 = b.last_index();
    if a.last_index() != last {
        return false;
    }
    let mut index: u64 = last;
    while index > 0
        invariant
            index <= last,
            last == b@.last_index(),
            forall|k: u64| index < k <= last ==> #[trigger] same_lookup(a@, b@, k),
        decreases index,
    {
        let same: bool = match (a.entry(index), b.entry(index)) {
            (Ok(x), Ok(y)) => same_entry(x, y),
            (Err(x), Err(y)) => x == y,
            _ => false,
        };
        if !same {
            assert(!same_lookup(a@, b@, index));
            return false;
        }
        index -= 1;
    }
    true
}

/// Whether safety held all along and all nodes ended with the same log.
pub fn check_logs_agree(sim: &Simulator<RaftNode>) -> (r: bool)
    ensures
        r == logs_agree(sim@),
{
    if sim.violation().is_some() {
        return false;
    }
    let nodes = sim.nodes();
    let ghost models = sim@.cluster.nodes;
    let ids = ascending_keys(nodes);
    assert(models.dom() =~= nodes@.dom());
    let ghost logs = sim_logs(sim@);
    assert(logs =~= logs_among(ids@, models));
    if ids.len() == 0 {
        return false;
    }
    proof {
        assert(ids@.contains(ids@[0]));
        assert(nodes@.dom().contains(ids@[0]));
    }
    let first = match nodes.get(&ids[0]) {
        Some(node) => node.log(),
        None => {
            assert(false);
            return false;
        },
    };
    assert(first@ == logs[0]);
    let mut i: usize = 0;
    while i < ids.len()
        invariant
            i <= ids@.len(),
            lists(ids@, nodes@.dom()),
            models == nodes_view(nodes@),
            logs == logs_among(ids@, models),
            first@ == logs[0],
            logs == sim_logs(sim@),
            sim@.cluster.violation is None,
            forall|k: int| 0 <= k < i ==> identical(#[trigger] logs[k], logs[0]),
        decreases ids@.len() - i,
    {
        let id: NodeId = ids[i];
        proof {
            assert(ids@.contains(id));
            assert(nodes@.dom().contains(id));
        }
        match nodes.get(&id) {
            Some(node) => {
                assert(logs[i as int] == node.log@);
                if !logs_identical_pair(node.log(), first) {
                    return false;
                }
            },
            None => {
                assert(false);
            },
        }
        i += 1;
    }
    true
}

/// How many client commands the log of the first node holds.
fn count_commands(sim: &Simulator<RaftNode>) -> (r: u64)
    ensures
        r == if sim_logs(sim@).len() > 0 {
            command_count(sim_logs(sim@)[0]) as u64
        } else {
            0
        },
{
    let nodes = sim.nodes();
    let ghost models = sim@.cluster.nodes;
    let ids = ascending_keys(nodes);
    assert(models.dom() =~= nodes@.dom());
    assert(sim_logs(sim@) =~= logs_among(ids@, models));
    if ids.len() == 0 {
        return 0;
    }
    proof {
        assert(ids@.contains(ids@[0]));
        assert(nodes@.dom().contains(ids@[0]));
    }
    match nodes.get(&ids[0]) {
        Some(node) => node.log().command_count(),
        None => {
            assert(false);
            0
        },
    }
}

/// The node that leads, the lowest where several do; `fallback` where none does.
pub fn current_leader(sim: &Simulator<RaftNode>, fallback: NodeId) -> (r: NodeId)
    ensures
        r == leader_or(sim@, fallback),
{
    let leaders = find_leaders(sim);
    if leaders.len() > 0 {
        leaders[0]
    } else {
        fallback
    }
}

/// Elects a leader, drives `writes` client commands, and checks log equality.
///
/// Where no leader is elected there is nothing to replicate, and where safety is
/// violated the logs do not count as identical.
pub fn run_replicate_scenario(seed: u64, writes: u64) -> (r: ReplicateScenarioResult)
    requires
        5 * writes + 800 <= u64::MAX,
    ensures
        r == replicate_result(seed, writes),
{
    let election = elect_within(seed, 600);
    let elected: NodeId = match election.leader_id {
        Some(id) => id,
        None => {
            return ReplicateScenarioResult {
                seed,
                leader_id: None,
                writes,
                log_len: 0,
                logs_identical: false,
            };
        },
    };
    let mut sim = build_cluster(seed, 3);
    proof {
        lemma_run_tick(sim@, election.ticks_run as nat);
    }
    // Reach the same elected state.
    sim.run(election.ticks_run);
    let ghost ready = sim@;
    let leader_id: NodeId = current_leader(&sim, elected);
    let prefix: [u8; 1] = [119];
    assert(prefix@ =~= seq!['w' as u8]);
    let mut i: u64 = 0;
    while i < writes
        invariant
            i <= writes,
            5 * writes + 800 <= u64::MAX,
            prefix@ == seq!['w' as u8],
            sim@ == after_writes(ready, leader_id, i as nat),
            sim@.tick <= 600 + 5 * i,
        decreases writes - i,
    {
        let command = make_command(&prefix, i);
        let ghost before = sim@;
        sim.step_node(leader_id, Input::ClientCommand(command));
        proof {
            lemma_step_tick(
                before,
                leader_id,
                InputView::ClientCommand(numbered_command(prefix@, i as nat)),
            );
            lemma_run_tick(sim@, 5);
        }
        // Allow heartbeats / retries to converge after each write batch.
        sim.run(5);
        i += 1;
    }
    // Extra ticks for any remaining AE retries.
    sim.run(200);
    ReplicateScenarioResult {
        seed,
        leader_id: Some(leader_id),
        writes,
        log_len: count_commands(&sim),
        logs_identical: check_logs_agree(&sim),
    }
}

} // verus!
