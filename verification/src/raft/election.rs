//! Raft election state transitions.
//!
//! This module owns volatile election state. Durable term and vote metadata
//! remain in [`crate::raft::storage::HardState`].

use std::collections::{BTreeSet, HashMap};

use vstd::prelude::*;

use crate::config::NodeId;
use crate::raft::log::{copy_entries, entries_view, next_up, LogEntry, LogEntryView};
use crate::raft::replication;
use crate::raft::replication::others_of;
use crate::raft::snapshot::{Snapshot, SnapshotView};
use crate::raft::state::RaftState;
use crate::raft::storage::HardState;
use crate::raft::{
    NodeView, RaftNode, RaftRpc, RequestVoteRequest, RequestVoteResponse, RpcView,
};
use crate::rng::{NodeRng, NodeRngView};

verus! {

broadcast use {
    vstd::std_specs::btree::group_btree_axioms,
    vstd::std_specs::hash::group_hash_axioms,
};

/// Effects that election handling will request from the Raft node.
#[derive(Debug, PartialEq, Eq)]
pub enum ElectionAction {
    Persist(HardState),
    /// Make a log mutation durable: drop entries at or above `truncate_from`
    /// (if set), then append `entries`. Precedes any `Send` that depends on it.
    PersistLog { truncate_from: Option<u64>, entries: Vec<LogEntry> },
    Send { to: NodeId, rpc: RaftRpc },
    PromoteLeader,
    DemoteFollower,
    RedirectLeader { leader_hint: Option<NodeId> },
    /// One committed log entry to apply to the state machine (index order).
    ApplyCommittedEntries { entry: LogEntry },
    /// Ask the driver for state-machine snapshot bytes at the given index/term.
    RequestSnapshot { last_included_index: u64, last_included_term: u64 },
    /// Persist a snapshot before the log prefix it replaces is discarded.
    PersistSnapshot(Snapshot),
    /// Install snapshot bytes into the application state machine (incl. dedup table).
    ApplySnapshot(Snapshot),
}

/// What an [`ElectionAction`] holds.
pub enum ActionView {
    Persist(HardState),
    PersistLog { truncate_from: Option<u64>, entries: Seq<LogEntryView> },
    Send { to: NodeId, rpc: RpcView },
    PromoteLeader,
    DemoteFollower,
    RedirectLeader { leader_hint: Option<NodeId> },
    ApplyCommittedEntries { entry: LogEntryView },
    RequestSnapshot { last_included_index: u64, last_included_term: u64 },
    PersistSnapshot(SnapshotView),
    ApplySnapshot(SnapshotView),
}

impl View for ElectionAction {
    type V = ActionView;

    open spec fn view(&self) -> ActionView {
        match self {
            ElectionAction::Persist(h) => ActionView::Persist(*h),
            ElectionAction::PersistLog { truncate_from, entries } => ActionView::PersistLog {
                truncate_from: *truncate_from,
                entries: entries_view(entries@),
            },
            ElectionAction::Send { to, rpc } => ActionView::Send { to: *to, rpc: rpc@ },
            ElectionAction::PromoteLeader => ActionView::PromoteLeader,
            ElectionAction::DemoteFollower => ActionView::DemoteFollower,
            ElectionAction::RedirectLeader { leader_hint } => ActionView::RedirectLeader {
                leader_hint: *leader_hint,
            },
            ElectionAction::ApplyCommittedEntries { entry } => ActionView::ApplyCommittedEntries {
                entry: entry@,
            },
            ElectionAction::RequestSnapshot { last_included_index, last_included_term } => {
                ActionView::RequestSnapshot {
                    last_included_index: *last_included_index,
                    last_included_term: *last_included_term,
                }
            },
            ElectionAction::PersistSnapshot(s) => ActionView::PersistSnapshot(s@),
            ElectionAction::ApplySnapshot(s) => ActionView::ApplySnapshot(s@),
        }
    }
}

impl Clone for ElectionAction {
    fn clone(&self) -> (r: Self)
        ensures
            r@ == self@,
    {
        match self {
            ElectionAction::Persist(h) => ElectionAction::Persist(*h),
            ElectionAction::PersistLog { truncate_from, entries } => {
                let copy = copy_entries(entries.as_slice(), 0);
                assert(entries_view(copy@) =~= entries_view(entries@));
                ElectionAction::PersistLog { truncate_from: *truncate_from, entries: copy }
            },
            ElectionAction::Send { to, rpc } => ElectionAction::Send { to: *to, rpc: rpc.clone() },
            ElectionAction::PromoteLeader => ElectionAction::PromoteLeader,
            ElectionAction::DemoteFollower => ElectionAction::DemoteFollower,
            ElectionAction::RedirectLeader { leader_hint } => ElectionAction::RedirectLeader {
                leader_hint: *leader_hint,
            },
            ElectionAction::ApplyCommittedEntries { entry } => {
                ElectionAction::ApplyCommittedEntries { entry: entry.clone() }
            },
            ElectionAction::RequestSnapshot { last_included_index, last_included_term } => {
                ElectionAction::RequestSnapshot {
                    last_included_index: *last_included_index,
                    last_included_term: *last_included_term,
                }
            },
            ElectionAction::PersistSnapshot(s) => ElectionAction::PersistSnapshot(s.clone()),
            ElectionAction::ApplySnapshot(s) => ElectionAction::ApplySnapshot(s.clone()),
        }
    }
}

/// What a list of actions holds, in order.
pub open spec fn actions_view(actions: Seq<ElectionAction>) -> Seq<ActionView> {
    Seq::new(actions.len(), |i: int| actions[i]@)
}

/// Volatile election state for one Raft node.
///
/// `ticks_remaining` always resets to `election_timeout_ticks`; selection of
/// a new timeout belongs to `RaftNode`, which owns the configured policy.
#[derive(Debug, Clone, PartialEq, Eq)]
pub struct ElectionState {
    pub ticks_remaining: u64,
    pub votes_granted: BTreeSet<NodeId>,
    pub election_timeout_ticks: u64,
}

/// What an [`ElectionState`] holds.
#[verifier::ext_equal]
pub struct ElectionView {
    pub ticks_remaining: u64,
    pub votes_granted: Set<NodeId>,
    pub election_timeout_ticks: u64,
}

impl View for ElectionState {
    type V = ElectionView;

    open spec fn view(&self) -> ElectionView {
        ElectionView {
            ticks_remaining: self.ticks_remaining,
            votes_granted: self.votes_granted@,
            election_timeout_ticks: self.election_timeout_ticks,
        }
    }
}

impl ElectionView {
    /// The state after selecting `ticks` as the timeout.
    pub open spec fn with_timeout(self, ticks: u64) -> ElectionView {
        ElectionView { ticks_remaining: ticks, election_timeout_ticks: ticks, ..self }
    }

    /// The state with a restarted countdown.
    pub open spec fn reset(self) -> ElectionView {
        ElectionView { ticks_remaining: self.election_timeout_ticks, ..self }
    }

    /// The state one tick later.
    pub open spec fn ticked(self) -> ElectionView {
        ElectionView {
            ticks_remaining: if self.ticks_remaining == 0 {
                0
            } else {
                (self.ticks_remaining - 1) as u64
            },
            ..self
        }
    }
}

/// The timeout selected from `lo..=hi`: `lo` itself where the range holds no
/// other choice.
pub open spec fn timeout_drawn(rng: NodeRngView, lo: u64, hi: u64) -> u64 {
    if lo >= hi {
        lo
    } else {
        rng.drawn(lo, hi)
    }
}

/// The stream after a timeout was selected from `lo..=hi`.
pub open spec fn rng_after_timeout(rng: NodeRngView, lo: u64, hi: u64) -> NodeRngView {
    if lo >= hi {
        rng
    } else {
        rng.after_draw(lo, hi)
    }
}

impl ElectionState {
    pub fn new(election_timeout_ticks: u64) -> (r: Self)
        ensures
            r@ == (ElectionView {
                ticks_remaining: election_timeout_ticks,
                votes_granted: Set::empty(),
                election_timeout_ticks,
            }),
    {
        Self {
            ticks_remaining: election_timeout_ticks,
            votes_granted: BTreeSet::new(),
            election_timeout_ticks,
        }
    }

    /// Replaces the node's selected election timeout and restarts its timer.
    pub fn set_election_timeout(&mut self, election_timeout_ticks: u64)
        ensures
            final(self)@ == old(self)@.with_timeout(election_timeout_ticks),
    {
        self.election_timeout_ticks = election_timeout_ticks;
        self.ticks_remaining = election_timeout_ticks;
    }

    /// Restarts the countdown from the node's currently selected timeout.
    pub fn reset(&mut self)
        ensures
            final(self)@ == old(self)@.reset(),
    {
        self.ticks_remaining = self.election_timeout_ticks;
    }

    /// Decrements the countdown and reports whether an election is due.
    pub fn tick(&mut self) -> (r: bool)
        ensures
            final(self)@ == old(self)@.ticked(),
            r == (old(self)@.ticked().ticks_remaining == 0),
    {
        self.ticks_remaining = self.ticks_remaining.saturating_sub(1);
        self.ticks_remaining == 0
    }
}

/// Selects a timeout from the configured range and restarts the countdown.
///
/// `RaftNode` decides when a new timeout is selected. Once selected, normal
/// timer resets use [`ElectionState::reset`] and do not sample again.
pub fn reset_timeout(state: &mut ElectionState, lo: u64, hi: u64, rng: &mut NodeRng)
    ensures
        final(state)@ == old(state)@.with_timeout(timeout_drawn(old(rng)@, lo, hi)),
        final(rng)@ == rng_after_timeout(old(rng)@, lo, hi),
        lo <= hi ==> lo <= timeout_drawn(old(rng)@, lo, hi) <= hi,
{
    let timeout: u64 = if lo >= hi {
        lo
    } else {
        rng.gen_range(lo, hi)
    };
    state.set_election_timeout(timeout);
}

impl NodeView {
    /// What must survive a restart for elections to stay safe.
    pub open spec fn hard_state(self) -> HardState {
        HardState { current_term: self.current_term, voted_for: self.voted_for }
    }

    /// The node as a follower in `term`, with its vote free.
    pub open spec fn become_follower(self, term: u64) -> NodeView {
        NodeView {
            current_term: term,
            voted_for: None,
            state: RaftState::Follower,
            leader_id: None,
            election: self.election.reset(),
            ..self
        }
    }

    pub open spec fn handle_request_vote_request(
        self,
        from: NodeId,
        request: RequestVoteRequest,
    ) -> (NodeView, Seq<ActionView>) {
        let adopts = request.term > self.current_term;
        let node = if adopts {
            self.become_follower(request.term)
        } else {
            self
        };
        if request.term < node.current_term {
            (node, seq![vote_reply(from, node.current_term, false)])
        } else if node.may_vote_for(request.candidate_id) && log_up_to_date(
            request.last_log_term,
            request.last_log_index,
            node.log.last_term(),
            node.log.last_index(),
        ) {
            let voter = NodeView {
                voted_for: Some(request.candidate_id),
                election: node.election.reset(),
                ..node
            };
            (
                voter,
                seq![
                    ActionView::Persist(voter.hard_state()),
                    vote_reply(from, voter.current_term, true),
                ],
            )
        } else if adopts {
            (
                node,
                seq![
                    ActionView::Persist(node.hard_state()),
                    vote_reply(from, node.current_term, false),
                ],
            )
        } else {
            (node, seq![vote_reply(from, node.current_term, false)])
        }
    }

    /// Whether the vote of this term is free or already given to `candidate`.
    pub open spec fn may_vote_for(self, candidate: NodeId) -> bool {
        self.voted_for is None || self.voted_for == Some(candidate)
    }

    pub open spec fn handle_request_vote_response(
        self,
        from: NodeId,
        response: RequestVoteResponse,
    ) -> (NodeView, Seq<ActionView>) {
        if response.term > self.current_term {
            self.adopt_term(response.term)
        } else if self.state == RaftState::Candidate && response.term == self.current_term
            && response.vote_granted {
            let node = self.with_vote(from);
            if node.has_won() {
                node.become_leader()
            } else {
                (node, Seq::empty())
            }
        } else {
            (self, Seq::empty())
        }
    }

    /// The candidate with one more vote.
    pub open spec fn with_vote(self, from: NodeId) -> NodeView {
        NodeView {
            election: ElectionView {
                votes_granted: self.election.votes_granted.insert(from),
                ..self.election
            },
            ..self
        }
    }

    /// Whether the votes granted are a majority.
    pub open spec fn has_won(self) -> bool {
        self.election.votes_granted.len() >= self.quorum()
    }

    /// The empty entry with which a leader opens its term.
    pub open spec fn noop(self) -> LogEntryView {
        LogEntryView {
            index: self.log.next_index(),
            term: self.current_term,
            command: Seq::empty(),
        }
    }

    /// A new leader: it expects every peer to hold the log it was elected with,
    /// knows of nothing that a peer holds, and opens its term with a no-op.
    pub open spec fn become_leader(self) -> (NodeView, Seq<ActionView>) {
        let node = NodeView {
            state: RaftState::Leader,
            leader_id: Some(self.id),
            next_index: set_all(self.next_index, self.peers, self.log.next_index()),
            match_index: set_all(self.match_index, self.peers, 0),
            log: self.log.push(self.noop()),
            heartbeat_ticks: self.heartbeat_interval_ticks,
            ..self
        };
        (
            node,
            seq![
                ActionView::PromoteLeader,
                ActionView::PersistLog { truncate_from: None, entries: seq![self.noop()] },
            ] + node.broadcast(),
        )
    }

    /// A candidate in the next term, voting for itself.
    pub open spec fn candidacy(self) -> NodeView {
        NodeView {
            current_term: next_up(self.current_term),
            state: RaftState::Candidate,
            leader_id: None,
            voted_for: Some(self.id),
            election: ElectionView {
                votes_granted: Set::empty().insert(self.id),
                ..self.election
            }.with_timeout(
                timeout_drawn(
                    self.rng,
                    self.election_timeout_min_ticks,
                    self.election_timeout_max_ticks,
                ),
            ),
            rng: rng_after_timeout(
                self.rng,
                self.election_timeout_min_ticks,
                self.election_timeout_max_ticks,
            ),
            ..self
        }
    }

    /// The candidate's request to `to`.
    pub open spec fn ask_for_vote(self, to: NodeId) -> ActionView {
        ActionView::Send {
            to,
            rpc: RpcView::RequestVote(
                RequestVoteRequest {
                    term: self.current_term,
                    candidate_id: self.id,
                    last_log_index: self.log.last_index(),
                    last_log_term: self.log.last_term(),
                },
            ),
        }
    }

    /// The candidate's request to every other member.
    pub open spec fn canvass(self) -> Seq<ActionView> {
        self.others().map_values(|peer: NodeId| self.ask_for_vote(peer))
    }

    pub open spec fn start_election(self) -> (NodeView, Seq<ActionView>) {
        let candidate = self.candidacy();
        let effects = seq![ActionView::Persist(candidate.hard_state())] + candidate.canvass();
        if candidate.has_won() {
            let (leader, promotion) = candidate.become_leader();
            (leader, effects + promotion)
        } else {
            (candidate, effects)
        }
    }

    /// One tick of a node that is no leader.
    pub open spec fn election_tick(self) -> (NodeView, Seq<ActionView>) {
        let node = NodeView { election: self.election.ticked(), ..self };
        if self.state == RaftState::Leader {
            (self, Seq::empty())
        } else if node.election.ticks_remaining == 0 {
            node.start_election()
        } else {
            (node, Seq::empty())
        }
    }
}

/// `map` with every member of `keys` mapped to `value`.
pub open spec fn set_all(map: Map<NodeId, u64>, keys: Seq<NodeId>, value: u64) -> Map<NodeId, u64> {
    map.union_prefer_right(Map::new(|k: NodeId| keys.contains(k), |k: NodeId| value))
}

pub open spec fn vote_reply(to: NodeId, term: u64, vote_granted: bool) -> ActionView {
    ActionView::Send {
        to,
        rpc: RpcView::RequestVoteResponse(RequestVoteResponse { term, vote_granted }),
    }
}

/// The candidate's log is at least as up to date as the voter's: its last term
/// is higher, or equal with a log no shorter.
pub open spec fn log_up_to_date(
    candidate_last_term: u64,
    candidate_last_index: u64,
    voter_last_term: u64,
    voter_last_index: u64,
) -> bool {
    candidate_last_term > voter_last_term || (candidate_last_term == voter_last_term
        && candidate_last_index >= voter_last_index)
}

/// The durable part of the election state, to be written.
pub fn persist_hard_state(node: &RaftNode) -> (r: ElectionAction)
    ensures
        r@ == ActionView::Persist(node@.hard_state()),
{
    ElectionAction::Persist(
        HardState { current_term: node.current_term, voted_for: node.voted_for },
    )
}

/// Makes the node a follower in `term`.
pub fn become_follower(node: &mut RaftNode, term: u64)
    ensures
        final(node)@ == old(node)@.become_follower(term),
{
    let ghost n0 = node@;
    node.current_term = term;
    node.voted_for = None;
    node.state = RaftState::Follower;
    node.leader_id = None;
    node.election.reset();
    assert(node@ =~= n0.become_follower(term));
}

/// Advances election handling after a driver tick.
pub fn on_tick(node: &mut RaftNode) -> (r: Vec<ElectionAction>)
    ensures
        (final(node)@, actions_view(r@)) == old(node)@.election_tick(),
{
    let ghost n0 = node@;
    let none: Vec<ElectionAction> = Vec::new();
    assert(actions_view(none@) =~= Seq::empty());
    if node.state == RaftState::Leader {
        return none;
    }
    let due: bool = node.election.tick();
    assert(node@ =~= NodeView { election: n0.election.ticked(), ..n0 });
    if due {
        return start_election(node);
    }
    none
}

/// Raft §5.4.1 — candidate is at least as up-to-date as the voter.
pub fn is_log_up_to_date(
    candidate_last_term: u64,
    candidate_last_index: u64,
    voter_last_term: u64,
    voter_last_index: u64,
) -> (r: bool)
    ensures
        r == log_up_to_date(
            candidate_last_term,
            candidate_last_index,
            voter_last_term,
            voter_last_index,
        ),
{
    candidate_last_term > voter_last_term || (candidate_last_term == voter_last_term
        && candidate_last_index >= voter_last_index)
}

fn request_vote_reply(to: NodeId, term: u64, vote_granted: bool) -> (r: ElectionAction)
    ensures
        r@ == vote_reply(to, term, vote_granted),
{
    ElectionAction::Send {
        to,
        rpc: RaftRpc::RequestVoteResponse(RequestVoteResponse { term, vote_granted }),
    }
}

/// Handles an incoming RequestVote RPC.
///
/// Effects are ordered so `Persist` precedes the dependent `Send` reply.
pub fn handle_request_vote_request(
    node: &mut RaftNode,
    from: NodeId,
    request: RequestVoteRequest,
) -> (r: Vec<ElectionAction>)
    ensures
        (final(node)@, actions_view(r@)) == old(node)@.handle_request_vote_request(from, request),
{
    let ghost n0 = node@;
    let mut actions: Vec<ElectionAction> = Vec::new();
    let adopts: bool = request.term > node.current_term;
    if adopts {
        become_follower(node, request.term);
    }
    if request.term < node.current_term {
        actions.push(request_vote_reply(from, node.current_term, false));
        assert(actions_view(actions@) =~= n0.handle_request_vote_request(from, request).1);
        return actions;
    }
    let can_vote: bool = match node.voted_for {
        None => true,
        Some(id) => id == request.candidate_id,
    };
    let log_ok: bool = is_log_up_to_date(
        request.last_log_term,
        request.last_log_index,
        node.log.last_term(),
        node.log.last_index(),
    );
    let vote_granted: bool = can_vote && log_ok;
    if vote_granted {
        node.voted_for = Some(request.candidate_id);
        node.election.reset();
    }
    // One write covers a new term and the vote given in it.
    if adopts || vote_granted {
        actions.push(persist_hard_state(node));
    }
    actions.push(request_vote_reply(from, node.current_term, vote_granted));
    assert(node@ =~= n0.handle_request_vote_request(from, request).0);
    assert(actions_view(actions@) =~= n0.handle_request_vote_request(from, request).1);
    actions
}

/// Handles a vote response received while this node is a candidate.
pub fn handle_request_vote_response(
    node: &mut RaftNode,
    from: NodeId,
    response: RequestVoteResponse,
) -> (r: Vec<ElectionAction>)
    ensures
        (final(node)@, actions_view(r@)) == old(node)@.handle_request_vote_response(
            from,
            response,
        ),
{
    let ghost n0 = node@;
    let mut actions: Vec<ElectionAction> = Vec::new();
    if response.term > node.current_term {
        become_follower(node, response.term);
        actions.push(ElectionAction::DemoteFollower);
        actions.push(persist_hard_state(node));
        assert(actions_view(actions@) =~= n0.adopt_term(response.term).1);
        return actions;
    }
    if node.state == RaftState::Candidate && response.term == node.current_term
        && response.vote_granted {
        return tally_granted_vote(node, from);
    }
    assert(actions_view(actions@) =~= Seq::empty());
    actions
}

/// Maps every member of `keys` to `value`.
fn insert_all(map: &mut HashMap<NodeId, u64>, keys: &Vec<NodeId>, value: u64)
    ensures
        final(map)@ == set_all(old(map)@, keys@, value),
{
    let ghost before = map@;
    let mut i: usize = 0;
    assert(set_all(before, keys@.take(0), value) =~= before);
    while i < keys.len()
        invariant
            i <= keys@.len(),
            map@ =~= set_all(before, keys@.take(i as int), value),
        decreases keys@.len() - i,
    {
        map.insert(keys[i], value);
        i += 1;
        proof {
            let seen = keys@.take(i as int);
            assert(seen =~= keys@.take(i - 1).push(keys@[i - 1]));
            assert(seen[i - 1] == keys@[i - 1]);
            assert forall|k: NodeId| seen.contains(k) == (keys@.take(i - 1).contains(k) || k
                == keys@[i - 1]) by {
                if keys@.take(i - 1).contains(k) {
                    let j = keys@.take(i - 1).index_of(k);
                    assert(seen[j] == k);
                }
            }
        }
    }
    assert(keys@.take(i as int) =~= keys@);
}

/// Makes a candidate the leader of its term.
pub fn become_leader(node: &mut RaftNode) -> (r: Vec<ElectionAction>)
    ensures
        (final(node)@, actions_view(r@)) == old(node)@.become_leader(),
{
    let ghost n0 = node@;
    node.state = RaftState::Leader;
    node.leader_id = Some(node.id);
    // §5.4.2: a fresh leader cannot count replicas for previous-term entries, so it
    // appends a no-op in its own term. Committing the no-op transitively commits every
    // entry before it, which is how the leader learns its real commit point.
    //
    // The no-op lands at the end of the log, so each peer's optimistic `next_index`
    // points at it; `match_index` stays pessimistic at 0 until a peer acknowledges.
    let noop_index: u64 = node.log.next_index();
    insert_all(&mut node.next_index, &node.peers, noop_index);
    insert_all(&mut node.match_index, &node.peers, 0);
    let noop = LogEntry::new(noop_index, node.current_term, Vec::new());
    assert(noop@.command =~= Seq::<u8>::empty());
    let appended = node.log.append(noop.clone());
    node.heartbeat_ticks = node.heartbeat_interval_ticks;
    assert(node@ =~= n0.become_leader().0);
    let mut actions: Vec<ElectionAction> = Vec::new();
    actions.push(ElectionAction::PromoteLeader);
    // The no-op is durable before any AppendEntries carrying it leaves.
    let mut entries: Vec<LogEntry> = Vec::new();
    entries.push(noop);
    assert(entries_view(entries@) =~= seq![n0.noop()]);
    actions.push(ElectionAction::PersistLog { truncate_from: None, entries });
    let mut sends = replication::broadcast_append_entries(node);
    let ghost broadcast = actions_view(sends@);
    actions.append(&mut sends);
    assert(actions_view(actions@) =~= n0.become_leader().1);
    actions
}

/// Opens an election: the node votes for itself in the next term and asks every
/// other member for its vote.
pub fn start_election(node: &mut RaftNode) -> (r: Vec<ElectionAction>)
    ensures
        (final(node)@, actions_view(r@)) == old(node)@.start_election(),
{
    let ghost n0 = node@;
    node.current_term = node.current_term.saturating_add(1);
    node.state = RaftState::Candidate;
    node.leader_id = None;
    node.voted_for = Some(node.id);
    node.election.votes_granted.clear();
    node.election.votes_granted.insert(node.id);
    // Fresh randomized timeout for split-vote retries (seeded stream).
    reset_timeout(
        &mut node.election,
        node.election_timeout_min_ticks,
        node.election_timeout_max_ticks,
        &mut node.rng,
    );
    let ghost n1 = n0.candidacy();
    assert(node@ =~= n1);
    let mut actions: Vec<ElectionAction> = Vec::new();
    actions.push(persist_hard_state(node));
    let mut requests = vote_requests(node);
    let ghost canvass = actions_view(requests@);
    actions.append(&mut requests);
    let ghost effects = seq![ActionView::Persist(n1.hard_state())] + n1.canvass();
    assert(actions_view(actions@) =~= effects);
    if node.election.votes_granted.len() >= quorum(node) {
        let mut promotion = become_leader(node);
        let ghost promoted = actions_view(promotion@);
        actions.append(&mut promotion);
        assert(actions_view(actions@) =~= effects + promoted);
    }
    actions
}

/// One vote request for every other member.
fn vote_requests(node: &RaftNode) -> (r: Vec<ElectionAction>)
    ensures
        actions_view(r@) == node@.canvass(),
{
    let mut actions: Vec<ElectionAction> = Vec::new();
    let last_log_index: u64 = node.log.last_index();
    let last_log_term: u64 = node.log.last_term();
    let mut i: usize = 0;
    let ghost f = |peer: NodeId| node@.ask_for_vote(peer);
    proof {
        reveal(Seq::filter);
    }
    while i < node.peers.len()
        invariant
            i <= node.peers@.len(),
            f == (|peer: NodeId| node@.ask_for_vote(peer)),
            last_log_index == node@.log.last_index(),
            last_log_term == node@.log.last_term(),
            actions_view(actions@) =~= others_of(node.peers@.take(i as int), node.id).map_values(f),
        decreases node.peers@.len() - i,
    {
        proof {
            replication::lemma_others_step(node.peers@, node.id, i as int);
        }
        let peer: NodeId = node.peers[i];
        i += 1;
        if peer == node.id {
            continue ;
        }
        let ghost held = actions@;
        let action = ElectionAction::Send {
            to: peer,
            rpc: RaftRpc::RequestVote(
                RequestVoteRequest {
                    term: node.current_term,
                    candidate_id: node.id,
                    last_log_index,
                    last_log_term,
                },
            ),
        };
        actions.push(action);
        assert(actions_view(actions@) =~= actions_view(held).push(action@));
    }
    assert(node.peers@.take(i as int) =~= node.peers@);
    actions
}

/// Counts the vote of `from`, and takes the lead on a majority.
pub fn tally_granted_vote(node: &mut RaftNode, from: NodeId) -> (r: Vec<ElectionAction>)
    ensures
        (final(node)@, actions_view(r@)) == ({
            let node = old(node)@.with_vote(from);
            if node.has_won() {
                node.become_leader()
            } else {
                (node, Seq::empty())
            }
        }),
{
    let ghost n0 = node@;
    node.election.votes_granted.insert(from);
    assert(node@ =~= n0.with_vote(from));
    if node.election.votes_granted.len() >= quorum(node) {
        return become_leader(node);
    }
    let none: Vec<ElectionAction> = Vec::new();
    assert(actions_view(none@) =~= Seq::empty());
    none
}

/// Votes needed to win an election.
///
/// `peers` is filtered for this node's own id, matching how
/// [`crate::raft::replication`] sizes the cluster for commit. Both must agree:
/// if one counts a self-entry in `peers` as an extra voter and the other does
/// not, a three-node cluster needs three votes to elect but only two to commit,
/// and it simply stops electing leaders the moment any node is down. Config is
/// the likely source of a self-entry, so tolerating it beats trusting it.
pub fn quorum(node: &RaftNode) -> (r: usize)
    ensures
        r == node@.quorum(),
{
    replication::majority(replication::count_others(&node.peers, node.id))
}

} // verus!
