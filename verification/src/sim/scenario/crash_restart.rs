//! Crash/restart scenario.
//!
//! Models drained-only durability: a crash keeps only writes the driver already
//! committed to per-node storage. Vote-once and log matching must hold across
//! random crash schedules.

use std::collections::BTreeMap;

use vstd::prelude::*;

use crate::config::NodeId;
use crate::maps::{ascending_keys, keys_in_order};
use crate::raft::driver::{Input, InputView};
use crate::raft::replication::{lemma_others_step, others_of};
use crate::raft::RaftNode;
use crate::rng::{chacha_seed, NodeRng, NodeRngView};
use crate::sim::model::{sim_run, sim_step, SimView};
use crate::sim::scenario::election::{
    build_cluster, cluster_ids, cluster_start, elect_within_n, election_within, find_leaders,
    leads, leaders_of, lemma_crash_tick, lemma_restart_tick, lemma_run_tick, lemma_step_tick,
};
use crate::sim::scenario::replicate::{
    check_logs_agree, current_leader, leader_or, logs_agree, make_command, numbered_command,
};
use crate::sim::Simulator;

verus! {

broadcast use vstd::std_specs::btree::group_btree_axioms;

/// Outcome of one crash/restart scenario run.
#[derive(Debug, Clone, Copy, PartialEq, Eq, Structural)]
pub struct CrashRestartResult {
    pub seed: u64,
    pub leader_id: Option<NodeId>,
    pub writes: u64,
    pub crashes: u64,
    pub logs_identical: bool,
    /// True when no node granted two different votes in the same term across restarts.
    pub vote_once: bool,
}

/// Nodes in the scenario's cluster.
pub const CLUSTER_SIZE: u64 = 5;

/// Sets the crash schedule apart from the nodes' own streams.
pub const CRASH_SEED: u64 = 0xc2a5_17a5_c2a5_17a5;

/// Votes found in durable state, by term and voter.
pub type VoteMap = Map<(u64, NodeId), NodeId>;

/// The votes with the one that `id` has on record, and whether it contradicts an
/// earlier one.
pub open spec fn with_vote_of(sim: SimView, votes: VoteMap, id: NodeId) -> (VoteMap, bool) {
    match sim.recovered(id) {
        None => (votes, true),
        Some(recovered) => match recovered.hard_state.voted_for {
            None => (votes, true),
            Some(candidate) => {
                let key = (recovered.hard_state.current_term, id);
                (
                    votes.insert(key, candidate),
                    !votes.contains_key(key) || votes[key] == candidate,
                )
            },
        },
    }
}

/// The votes with those on record of `ids`, and whether none contradicts an
/// earlier one.
pub open spec fn with_votes_of(sim: SimView, votes: VoteMap, ids: Seq<NodeId>) -> (VoteMap, bool)
    decreases ids.len(),
{
    if ids.len() == 0 {
        (votes, true)
    } else {
        let (before, once) = with_votes_of(sim, votes, ids.drop_last());
        let (after, consistent) = with_vote_of(sim, before, ids.last());
        (after, once && consistent)
    }
}

/// The scenario between two writes.
#[verifier::ext_equal]
pub struct ScenarioView {
    pub sim: SimView,
    pub leader_id: NodeId,
    pub rng: NodeRngView,
    pub crashes: nat,
    pub votes: VoteMap,
    pub vote_once: bool,
}

/// How a round of the scenario ended.
pub enum RoundView {
    /// There is more to do.
    Next(ScenarioView),
    /// No leader could be found: no more writes.
    Leaderless(ScenarioView),
    /// A node did not come back.
    Lost(ScenarioView),
}

impl ScenarioView {
    /// The scenario after the durable votes of all nodes were looked at.
    pub open spec fn look_at_votes(self) -> ScenarioView {
        let (votes, once) = with_votes_of(self.sim, self.votes, cluster_ids(CLUSTER_SIZE as nat));
        ScenarioView { votes, vote_once: self.vote_once && once, ..self }
    }

    /// Whether the leader is up and leads.
    pub open spec fn has_leader(self) -> bool {
        self.sim.cluster.nodes.contains_key(self.leader_id) && leads(
            self.sim.cluster.nodes,
            self.leader_id,
        )
    }

    /// The scenario with a leader that leads, with time for an election where
    /// there is none.
    pub open spec fn with_leader(self) -> Option<ScenarioView> {
        let later = sim_run::<RaftNode>(self.sim, 300);
        if self.has_leader() {
            Some(self)
        } else if leaders_of(self.sim).len() > 0 {
            Some(ScenarioView { leader_id: leaders_of(self.sim)[0], ..self })
        } else if leaders_of(later).len() > 0 {
            Some(ScenarioView { sim: later, leader_id: leaders_of(later)[0], ..self })
        } else {
            None
        }
    }

    /// The scenario after one more command.
    pub open spec fn write(self, i: nat) -> ScenarioView {
        ScenarioView {
            sim: sim_run::<RaftNode>(
                sim_step::<RaftNode>(
                    self.sim,
                    self.leader_id,
                    InputView::ClientCommand(numbered_command(seq!['c' as u8, 'r' as u8], i)),
                ),
                8,
            ),
            ..self
        }
    }

    /// The nodes that are up, but for the leader.
    pub open spec fn followers(self) -> Seq<NodeId> {
        others_of(keys_in_order(self.sim.cluster.nodes), self.leader_id)
    }

    /// How many nodes may crash at a time.
    pub open spec fn crash_limit(self) -> u64 {
        if self.followers().len() < 2 {
            self.followers().len() as u64
        } else {
            2
        }
    }

    /// How many nodes crash.
    pub open spec fn crash_count(self) -> u64 {
        if self.crash_limit() == 0 {
            0
        } else {
            self.rng.drawn(0, self.crash_limit())
        }
    }

    /// The stream after the number of crashes was drawn.
    pub open spec fn after_count(self) -> NodeRngView {
        if self.crash_limit() == 0 {
            self.rng
        } else {
            self.rng.after_draw(0, self.crash_limit())
        }
    }
}

/// `pick` with the elements at two places exchanged.
pub open spec fn swapped(pick: Seq<NodeId>, i: int, j: int) -> Seq<NodeId> {
    pick.update(i, pick[j]).update(j, pick[i])
}

/// The first `n` places of `pick` filled at random, and the stream after it.
pub open spec fn shuffled(pick: Seq<NodeId>, rng: NodeRngView, n: nat) -> (Seq<NodeId>, NodeRngView)
    decreases n,
{
    if n == 0 {
        (pick, rng)
    } else {
        let (before, stream) = shuffled(pick, rng, (n - 1) as nat);
        let last = (pick.len() - 1) as u64;
        (
            swapped(before, n - 1, stream.drawn((n - 1) as u64, last) as int),
            stream.after_draw((n - 1) as u64, last),
        )
    }
}

/// The scenario after nodes crashed, one after another.
pub open spec fn crash_all(state: ScenarioView, ids: Seq<NodeId>) -> ScenarioView
    decreases ids.len(),
{
    if ids.len() == 0 {
        state
    } else {
        let before = crash_all(state, ids.drop_last()).look_at_votes();
        ScenarioView { sim: before.sim.crash(ids.last()), crashes: before.crashes + 1, ..before }
    }
}

/// The simulation after nodes came back, one after another, up to the first that
/// does not, and whether all did.
pub open spec fn restart_all(sim: SimView, ids: Seq<NodeId>) -> (SimView, bool)
    decreases ids.len(),
{
    if ids.len() == 0 {
        (sim, true)
    } else {
        let (before, all) = restart_all(sim, ids.drop_last());
        if !all {
            (before, false)
        } else {
            (before.restart(ids.last()), before.can_restart(ids.last()))
        }
    }
}

impl ScenarioView {
    /// The scenario after a random choice of followers crashed and came back.
    pub open spec fn disturb(self) -> RoundView {
        let n = self.crash_count();
        if n == 0 {
            RoundView::Next(ScenarioView { rng: self.after_count(), ..self })
        } else {
            let (pick, rng) = shuffled(self.followers(), self.after_count(), n as nat);
            let victims = pick.take(n as int);
            let crashed = crash_all(ScenarioView { rng, ..self }, victims);
            let paused = sim_run::<RaftNode>(crashed.sim, 15);
            let (restarted, all) = restart_all(paused, victims);
            if !all {
                RoundView::Lost(ScenarioView { sim: restarted, ..crashed })
            } else {
                RoundView::Next(
                    ScenarioView { sim: sim_run::<RaftNode>(restarted, 40), ..crashed },
                )
            }
        }
    }

    /// One round: a leader, a write, a disturbance.
    #[verifier::opaque]
    pub open spec fn round(self, i: nat) -> RoundView {
        match self.with_leader() {
            None => RoundView::Leaderless(
                ScenarioView { sim: sim_run::<RaftNode>(self.sim, 300), ..self },
            ),
            Some(ready) => match ready.write(i).disturb() {
                RoundView::Next(state) => RoundView::Next(state.look_at_votes()),
                other => other,
            },
        }
    }

    /// The rounds from `i` on, `left` of them, up to one that ends them.
    pub open spec fn rounds(self, i: nat, left: nat) -> RoundView
        decreases left,
    {
        if left == 0 {
            RoundView::Next(self)
        } else {
            match self.round(i) {
                RoundView::Next(state) => state.rounds(i + 1, (left - 1) as nat),
                other => other,
            }
        }
    }

    /// The scenario after everyone who was down was brought back, where possible,
    /// with time to converge.
    pub open spec fn settle(self) -> ScenarioView {
        ScenarioView {
            sim: sim_run::<RaftNode>(
                revive_all(self.sim, cluster_ids(CLUSTER_SIZE as nat)),
                500,
            ),
            ..self
        }.look_at_votes()
    }

    /// What the scenario reports.
    pub open spec fn report(self, seed: u64, writes: u64, logs_identical: bool, vote_once: bool) ->
        CrashRestartResult {
        CrashRestartResult {
            seed,
            leader_id: Some(self.leader_id),
            writes,
            crashes: self.crashes as u64,
            logs_identical,
            vote_once,
        }
    }
}

/// The simulation after every node of `ids` that is down was brought back, where
/// possible.
pub open spec fn revive_all(sim: SimView, ids: Seq<NodeId>) -> SimView
    decreases ids.len(),
{
    if ids.len() == 0 {
        sim
    } else {
        let before = revive_all(sim, ids.drop_last());
        if before.cluster.nodes.contains_key(ids.last()) {
            before
        } else {
            before.restart(ids.last())
        }
    }
}

/// The scenario with the leader that it starts with, where one is elected.
pub open spec fn scenario_start(seed: u64) -> Option<ScenarioView> {
    let election = election_within(seed, CLUSTER_SIZE as nat, 800);
    match election.leader_id {
        None => None,
        Some(elected) => {
            let ready = sim_run::<RaftNode>(
                cluster_start(seed, CLUSTER_SIZE as nat),
                election.ticks_run as nat,
            );
            Some(
                ScenarioView {
                    sim: ready,
                    leader_id: leader_or(ready, elected),
                    rng: NodeRngView::of_seed(chacha_seed(seed ^ CRASH_SEED)),
                    crashes: 0,
                    votes: Map::empty(),
                    vote_once: true,
                },
            )
        },
    }
}

/// What the scenario gives.
pub open spec fn crash_restart_result(seed: u64, writes: u64) -> CrashRestartResult {
    match scenario_start(seed) {
        None => CrashRestartResult {
            seed,
            leader_id: None,
            writes,
            crashes: 0,
            logs_identical: false,
            vote_once: true,
        },
        Some(start) => {
            match start.rounds(0, writes as nat) {
                RoundView::Lost(state) => state.report(seed, writes, false, false),
                RoundView::Next(state) => {
                    let end = state.settle();
                    end.report(seed, writes, logs_agree(end.sim), end.vote_once)
                },
                RoundView::Leaderless(state) => {
                    let end = state.settle();
                    end.report(seed, writes, logs_agree(end.sim), end.vote_once)
                },
            }
        },
    }
}

/// The scenario between two writes, in the making.
struct Scenario {
    sim: Simulator<RaftNode>,
    leader_id: NodeId,
    rng: NodeRng,
    crashes: u64,
    /// (term, voter) → granted candidate; detects double votes across restarts.
    votes: BTreeMap<(u64, NodeId), NodeId>,
    vote_once: bool,
}

impl View for Scenario {
    type V = ScenarioView;

    closed spec fn view(&self) -> ScenarioView {
        ScenarioView {
            sim: self.sim@,
            leader_id: self.leader_id,
            rng: self.rng@,
            crashes: self.crashes as nat,
            votes: self.votes@,
            vote_once: self.vote_once,
        }
    }
}

/// Adds a vote, and says whether it agrees with an earlier one.
fn note_vote(
    votes: &mut BTreeMap<(u64, NodeId), NodeId>,
    term: u64,
    id: NodeId,
    candidate: NodeId,
) -> (r: bool)
    ensures
        final(votes)@ == old(votes)@.insert((term, id), candidate),
        r == (!old(votes)@.contains_key((term, id)) || old(votes)@[(term, id)] == candidate),
{
    broadcast use vstd::laws_cmp::group_laws_cmp;

    match votes.insert((term, id), candidate) {
        Some(previous) => previous == candidate,
        None => true,
    }
}

/// How a round ended.
enum Round {
    Next,
    Leaderless,
    Lost,
}

impl Scenario {
    /// Looks at the durable votes of all nodes.
    fn record_votes(&mut self)
        ensures
            final(self)@ == old(self)@.look_at_votes(),
    {
        let ghost before = self@;
        let ghost ids = cluster_ids(CLUSTER_SIZE as nat);
        let mut once: bool = true;
        let mut id: NodeId = 1;
        while id <= CLUSTER_SIZE
            invariant
                1 <= id <= CLUSTER_SIZE + 1,
                ids == cluster_ids(CLUSTER_SIZE as nat),
                self@ == (ScenarioView { votes: self.votes@, ..before }),
                (self.votes@, once) == with_votes_of(before.sim, before.votes, ids.take(id - 1)),
            decreases CLUSTER_SIZE + 1 - id,
        {
            proof {
                assert(ids.take(id as int).drop_last() =~= ids.take(id - 1));
                assert(ids.take(id as int).last() == id);
            }
            match self.sim.recovered(id) {
                Some(recovered) => {
                    let term: u64 = recovered.hard_state.current_term;
                    match recovered.hard_state.voted_for {
                        Some(candidate) => {
                            if !note_vote(&mut self.votes, term, id, candidate) {
                                once = false;
                            }
                        },
                        None => {},
                    }
                },
                None => {},
            }
            id += 1;
        }
        assert(ids.take(CLUSTER_SIZE as int) =~= ids);
        self.vote_once = self.vote_once && once;
    }

    /// Finds a leader that leads, with time for an election where there is none;
    /// `false` where none is found.
    fn resolve_leader(&mut self) -> (r: bool)
        requires
            old(self)@.sim.tick + 300 <= u64::MAX,
        ensures
            match old(self)@.with_leader() {
                Some(state) => r && final(self)@ == state,
                None => !r && final(self)@ == (ScenarioView {
                    sim: sim_run::<RaftNode>(old(self)@.sim, 300),
                    ..old(self)@
                }),
            },
            final(self)@.sim.tick <= old(self)@.sim.tick + 300,
    {
        let ghost before = self@;
        let leading: bool = match self.sim.nodes().get(&self.leader_id) {
            Some(node) => {
                assert(before.sim.cluster.nodes[self.leader_id]
                    == crate::sim::nodes_view(self.sim.cluster.nodes@)[self.leader_id]);
                match node.state() {
                    crate::raft::state::RaftState::Leader => true,
                    _ => false,
                }
            },
            None => false,
        };
        assert(leading == before.has_leader());
        if leading {
            return true;
        }
        let leaders = find_leaders(&self.sim);
        if leaders.len() > 0 {
            self.leader_id = leaders[0];
            return true;
        }
        proof {
            lemma_run_tick(before.sim, 300);
        }
        self.sim.run(300);
        let leaders = find_leaders(&self.sim);
        if leaders.len() > 0 {
            self.leader_id = leaders[0];
            return true;
        }
        false
    }

    /// Lists the nodes that are up, but for the leader.
    fn live_followers(&self) -> (r: Vec<NodeId>)
        ensures
            r@ == self@.followers(),
    {
        let nodes = self.sim.nodes();
        let ids = ascending_keys(nodes);
        assert(self.sim@.cluster.nodes.dom() =~= nodes@.dom());
        let mut followers: Vec<NodeId> = Vec::new();
        let mut i: usize = 0;
        proof {
            reveal(Seq::filter);
        }
        while i < ids.len()
            invariant
                i <= ids@.len(),
                followers@ == others_of(ids@.take(i as int), self.leader_id),
            decreases ids@.len() - i,
        {
            proof {
                lemma_others_step(ids@, self.leader_id, i as int);
            }
            if ids[i] != self.leader_id {
                followers.push(ids[i]);
            }
            i += 1;
        }
        assert(ids@.take(i as int) =~= ids@);
        followers
    }

    /// Draws how many nodes crash and which.
    fn choose_victims(&mut self) -> (r: Vec<NodeId>)
        ensures
            ({
                let n = old(self)@.crash_count();
                let (pick, rng) = shuffled(
                    old(self)@.followers(),
                    old(self)@.after_count(),
                    n as nat,
                );
                &&& r@ == pick.take(n as int)
                &&& final(self)@ == (ScenarioView { rng, ..old(self)@ })
                &&& r@.len() == n <= 2
            }),
    {
        let ghost before = self@;
        let mut pick = self.live_followers();
        let ghost followers = pick@;
        let max_crash: u64 = if pick.len() < 2 {
            pick.len() as u64
        } else {
            2
        };
        let n_crash: u64 = if max_crash == 0 {
            0
        } else {
            self.rng.gen_range(0, max_crash)
        };
        let mut j: u64 = 0;
        while j < n_crash
            invariant
                j <= n_crash <= max_crash <= pick@.len(),
                max_crash <= 2,
                pick@.len() == followers.len(),
                (pick@, self.rng@) == shuffled(followers, before.after_count(), j as nat),
                self@ == (ScenarioView { rng: self.rng@, ..before }),
            decreases n_crash - j,
        {
            let k: u64 = self.rng.gen_range(j, pick.len() as u64 - 1);
            let chosen: NodeId = pick[k as usize];
            let displaced: NodeId = pick[j as usize];
            let ghost held = pick@;
            pick[j as usize] = chosen;
            pick[k as usize] = displaced;
            assert(pick@ =~= swapped(held, j as int, k as int));
            j += 1;
        }
        pick.truncate(n_crash as usize);
        assert(pick@ =~= shuffled(followers, before.after_count(), n_crash as nat).0.take(
            n_crash as int,
        ));
        pick
    }

    /// Takes nodes down, looking at the durable votes before each.
    fn crash_nodes(&mut self, ids: &Vec<NodeId>)
        requires
            old(self).crashes + ids@.len() <= u64::MAX,
        ensures
            final(self)@ == crash_all(old(self)@, ids@),
            final(self)@.sim.tick == old(self)@.sim.tick,
            final(self).crashes == old(self).crashes + ids@.len(),
    {
        let ghost before = self@;
        let mut i: usize = 0;
        while i < ids.len()
            invariant
                i <= ids@.len(),
                self@ == crash_all(before, ids@.take(i as int)),
                self@.sim.tick == before.sim.tick,
                self.crashes == before.crashes + i,
                before.crashes + ids@.len() <= u64::MAX,
            decreases ids@.len() - i,
        {
            self.record_votes();
            proof {
                lemma_crash_tick(self@.sim, ids@[i as int]);
            }
            self.sim.crash_node(ids[i]);
            self.crashes += 1;
            i += 1;
            proof {
                assert(ids@.take(i as int).drop_last() =~= ids@.take(i - 1));
                assert(ids@.take(i as int).last() == ids@[i - 1]);
            }
        }
        assert(ids@.take(i as int) =~= ids@);
    }

    /// Brings nodes back, and says whether all came.
    fn restart_nodes(&mut self, ids: &Vec<NodeId>) -> (r: bool)
        ensures
            ({
                let (sim, all) = restart_all(old(self)@.sim, ids@);
                final(self)@ == (ScenarioView { sim, ..old(self)@ }) && r == all
            }),
            final(self)@.sim.tick == old(self)@.sim.tick,
    {
        let ghost before = self@;
        let mut i: usize = 0;
        while i < ids.len()
            invariant
                i <= ids@.len(),
                before == old(self)@,
                restart_all(before.sim, ids@.take(i as int)) == (self@.sim, true),
                self@ == (ScenarioView { sim: self@.sim, ..before }),
                self@.sim.tick == before.sim.tick,
            decreases ids@.len() - i,
        {
            proof {
                assert(ids@.take(i + 1).drop_last() =~= ids@.take(i as int));
                assert(ids@.take(i + 1).last() == ids@[i as int]);
            }
            proof {
                lemma_restart_tick(self@.sim, ids@[i as int]);
            }
            if !self.sim.restart_node(ids[i]) {
                proof {
                    lemma_lost_prefix(before.sim, ids@, i + 1);
                }
                return false;
            }
            i += 1;
        }
        assert(ids@.take(i as int) =~= ids@);
        true
    }

    /// Lets a random choice of followers crash and come back; `false` where one
    /// does not.
    ///
    /// Crashed nodes are restarted after a short pause so the remaining majority
    /// can keep committing.
    fn disturb(&mut self) -> (r: bool)
        requires
            old(self).crashes + 2 <= u64::MAX,
            old(self)@.sim.tick + 55 <= u64::MAX,
        ensures
            match old(self)@.disturb() {
                RoundView::Next(state) => r && final(self)@ == state,
                RoundView::Lost(state) => !r && final(self)@ == state,
                RoundView::Leaderless(_) => false,
            },
            final(self)@.sim.tick <= old(self)@.sim.tick + 55,
            final(self).crashes <= old(self).crashes + 2,
    {
        let ghost before = self@;
        let victims = self.choose_victims();
        if victims.len() == 0 {
            return true;
        }
        self.crash_nodes(&victims);
        proof {
            lemma_run_tick(self@.sim, 15);
        }
        self.sim.run(15);
        if !self.restart_nodes(&victims) {
            return false;
        }
        proof {
            lemma_run_tick(self@.sim, 40);
        }
        self.sim.run(40);
        true
    }

    /// One round: a leader, a write, a disturbance.
    fn round(&mut self, i: u64) -> (r: Round)
        requires
            old(self).crashes + 2 <= u64::MAX,
            old(self)@.sim.tick + 363 <= u64::MAX,
        ensures
            match (old(self)@.round(i as nat), r) {
                (RoundView::Next(state), Round::Next) => final(self)@ == state,
                (RoundView::Leaderless(state), Round::Leaderless) => final(self)@ == state,
                (RoundView::Lost(state), Round::Lost) => final(self)@ == state,
                _ => false,
            },
            final(self)@.sim.tick <= old(self)@.sim.tick + 363,
            final(self).crashes <= old(self).crashes + 2,
    {
        proof {
            reveal(ScenarioView::round);
        }
        // Re-resolve leader if the previous one crashed or stepped down.
        if !self.resolve_leader() {
            return Round::Leaderless;
        }
        let prefix: [u8; 2] = [99, 114];
        assert(prefix@ =~= seq!['c' as u8, 'r' as u8]);
        let command = make_command(&prefix, i);
        let ghost ready = self@.sim;
        self.sim.step_node(self.leader_id, Input::ClientCommand(command));
        proof {
            lemma_step_tick(
                ready,
                self.leader_id,
                InputView::ClientCommand(numbered_command(prefix@, i as nat)),
            );
            lemma_run_tick(self@.sim, 8);
        }
        self.sim.run(8);
        // Crash up to two non-leader live followers.
        if !self.disturb() {
            return Round::Lost;
        }
        self.record_votes();
        Round::Next
    }

    /// Restarts anyone still down and lets the cluster converge.
    fn settle(&mut self)
        requires
            old(self)@.sim.tick + 500 <= u64::MAX,
        ensures
            final(self)@ == old(self)@.settle(),
    {
        let ghost before = self@;
        let ghost ids = cluster_ids(CLUSTER_SIZE as nat);
        let mut id: NodeId = 1;
        while id <= CLUSTER_SIZE
            invariant
                1 <= id <= CLUSTER_SIZE + 1,
                ids == cluster_ids(CLUSTER_SIZE as nat),
                self@ == (ScenarioView { sim: revive_all(before.sim, ids.take(id - 1)), ..before }),
                self@.sim.tick == before.sim.tick,
            decreases CLUSTER_SIZE + 1 - id,
        {
            proof {
                assert(ids.take(id as int).drop_last() =~= ids.take(id - 1));
                assert(ids.take(id as int).last() == id);
            }
            proof {
                lemma_restart_tick(self@.sim, id);
            }
            if !self.sim.nodes().contains_key(&id) {
                let _ = self.sim.restart_node(id);
            }
            id += 1;
        }
        assert(ids.take(CLUSTER_SIZE as int) =~= ids);
        self.sim.run(500);
        self.record_votes();
    }
}

proof fn lemma_lost_prefix(sim: SimView, ids: Seq<NodeId>, n: int)
    requires
        0 <= n <= ids.len(),
        !restart_all(sim, ids.take(n)).1,
    ensures
        restart_all(sim, ids) == restart_all(sim, ids.take(n)),
    decreases ids.len() - n,
{
    if n == ids.len() {
        assert(ids.take(n) =~= ids);
    } else {
        assert(ids.take(n + 1).drop_last() =~= ids.take(n));
        lemma_lost_prefix(sim, ids, n + 1);
    }
}

/// Five-node cluster: elect, write, crash/restart up to two followers at a time.
///
/// Crash targets are chosen from a dedicated ChaCha stream so the schedule is
/// reproducible from `seed` alone. Where no leader is elected at first there is
/// nothing to do, and where safety is violated the logs do not count as
/// identical.
pub fn run_crash_restart_scenario(seed: u64, writes: u64) -> (r: CrashRestartResult)
    requires
        363 * writes + 1300 <= u64::MAX,
    ensures
        r == crash_restart_result(seed, writes),
{
    let election = elect_within_n(seed, 5, 800);
    let elected: NodeId = match election.leader_id {
        Some(id) => id,
        None => {
            return CrashRestartResult {
                seed,
                leader_id: None,
                writes,
                crashes: 0,
                logs_identical: false,
                vote_once: true,
            };
        },
    };
    let mut sim = build_cluster(seed, 5);
    proof {
        lemma_run_tick(sim@, election.ticks_run as nat);
    }
    sim.run(election.ticks_run);
    let leader_id: NodeId = current_leader(&sim, elected);
    let mut state = Scenario {
        sim,
        leader_id,
        rng: NodeRng::seed_from_u64(seed ^ CRASH_SEED),
        crashes: 0,
        votes: BTreeMap::new(),
        vote_once: true,
    };
    let ghost start = state@;
    let ghost expected = start.rounds(0, writes as nat);
    let mut lost: bool = false;
    let mut i: u64 = 0;
    while i < writes
        invariant_except_break
            !lost,
            i <= writes,
            363 * writes + 1300 <= u64::MAX,
            state@.sim.tick <= 800 + 363 * i,
            state.crashes <= 2 * i,
            expected == state@.rounds(i as nat, (writes - i) as nat),
        ensures
            363 * writes + 1300 <= u64::MAX,
            state@.sim.tick <= 800 + 363 * writes,
            match expected {
                RoundView::Next(end) => !lost && state@ == end,
                RoundView::Leaderless(end) => !lost && state@ == end,
                RoundView::Lost(end) => lost && state@ == end,
            },
        decreases writes - i,
    {
        match state.round(i) {
            Round::Next => {},
            Round::Leaderless => {
                break ;
            },
            Round::Lost => {
                lost = true;
                break ;
            },
        }
        i += 1;
    }
    if lost {
        return CrashRestartResult {
            seed,
            leader_id: Some(state.leader_id),
            writes,
            crashes: state.crashes,
            logs_identical: false,
            vote_once: false,
        };
    }
    state.settle();
    CrashRestartResult {
        seed,
        leader_id: Some(state.leader_id),
        writes,
        crashes: state.crashes,
        logs_identical: check_logs_agree(&state.sim),
        vote_once: state.vote_once,
    }
}

} // verus!
