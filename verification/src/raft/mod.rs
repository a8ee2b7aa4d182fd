//! Public Raft node API.

pub mod chunks;
pub mod driver;
pub mod duties;
pub mod election;
mod equality;
pub mod following;
pub mod invariants;
pub mod laws;
pub mod log;
pub mod objections;
pub mod replication;
pub mod replies;
pub mod safety;
pub mod snapshot;
pub mod state;
pub mod storage;

pub use election::ElectionState;
pub use log::{LogEntry, RaftLog};
pub use snapshot::{Snapshot, SnapshotMeta};
pub use storage::HardState;

use std::collections::HashMap;

use vstd::prelude::*;

use crate::config::NodeId;
use crate::rng::{chacha_seed, NodeRng, NodeRngView};
use election::{actions_view, reset_timeout, ActionView, ElectionAction, ElectionView};
use log::{copy_bytes, copy_entries, entries_view, next_down, LogEntryView, RaftLogView};
use replication::{commands_view, others_of};
use snapshot::{PendingSnapshot, PendingSnapshotView, SnapshotView};
use state::RaftState;
use storage::RecoveredView;

verus! {

broadcast use vstd::std_specs::hash::group_hash_axioms;

pub const DEFAULT_ELECTION_TIMEOUT_TICKS: u64 = 500;

pub const DEFAULT_HEARTBEAT_TICKS: u64 = 50;

/// Lower end of the jitter window used by [`RaftNode::with_rng`].
pub const DEFAULT_ELECTION_TIMEOUT_MIN_TICKS: u64 = 150;

/// Upper end of the jitter window used by [`RaftNode::with_rng`].
pub const DEFAULT_ELECTION_TIMEOUT_MAX_TICKS: u64 = 300;

#[derive(Debug, Clone, Copy, PartialEq, Eq, Structural)]
pub struct RequestVoteRequest {
    pub term: u64,
    pub candidate_id: NodeId,
    pub last_log_index: u64,
    pub last_log_term: u64,
}

#[derive(Debug, Clone, Copy, PartialEq, Eq, Structural)]
pub struct RequestVoteResponse {
    pub term: u64,
    pub vote_granted: bool,
}

#[derive(Debug, PartialEq, Eq)]
pub struct AppendEntriesRequest {
    pub term: u64,
    pub leader_id: NodeId,
    pub prev_log_index: u64,
    pub prev_log_term: u64,
    pub entries: Vec<LogEntry>,
    pub leader_commit: u64,
}

/// What an [`AppendEntriesRequest`] holds.
pub struct AppendEntriesView {
    pub term: u64,
    pub leader_id: NodeId,
    pub prev_log_index: u64,
    pub prev_log_term: u64,
    pub entries: Seq<LogEntryView>,
    pub leader_commit: u64,
}

impl View for AppendEntriesRequest {
    type V = AppendEntriesView;

    open spec fn view(&self) -> AppendEntriesView {
        AppendEntriesView {
            term: self.term,
            leader_id: self.leader_id,
            prev_log_index: self.prev_log_index,
            prev_log_term: self.prev_log_term,
            entries: entries_view(self.entries@),
            leader_commit: self.leader_commit,
        }
    }
}

impl Clone for AppendEntriesRequest {
    fn clone(&self) -> (r: Self)
        ensures
            r@ == self@,
    {
        let entries = copy_entries(self.entries.as_slice(), 0);
        assert(entries_view(entries@) =~= entries_view(self.entries@));
        AppendEntriesRequest {
            term: self.term,
            leader_id: self.leader_id,
            prev_log_index: self.prev_log_index,
            prev_log_term: self.prev_log_term,
            entries,
            leader_commit: self.leader_commit,
        }
    }
}

#[derive(Debug, Clone, Copy, PartialEq, Eq, Structural)]
pub struct AppendEntriesResponse {
    pub term: u64,
    pub success: bool,
    /// Last log index the responder actually acknowledged (0 on rejection).
    pub match_index: u64,
}

#[derive(Debug, PartialEq, Eq)]
pub struct InstallSnapshotRequest {
    pub term: u64,
    pub leader_id: NodeId,
    pub last_included_index: u64,
    pub last_included_term: u64,
    pub offset: u64,
    pub data: Vec<u8>,
    pub done: bool,
}

/// What an [`InstallSnapshotRequest`] holds.
pub struct InstallSnapshotView {
    pub term: u64,
    pub leader_id: NodeId,
    pub last_included_index: u64,
    pub last_included_term: u64,
    pub offset: u64,
    pub data: Seq<u8>,
    pub done: bool,
}

impl View for InstallSnapshotRequest {
    type V = InstallSnapshotView;

    open spec fn view(&self) -> InstallSnapshotView {
        InstallSnapshotView {
            term: self.term,
            leader_id: self.leader_id,
            last_included_index: self.last_included_index,
            last_included_term: self.last_included_term,
            offset: self.offset,
            data: self.data@,
            done: self.done,
        }
    }
}

impl Clone for InstallSnapshotRequest {
    fn clone(&self) -> (r: Self)
        ensures
            r@ == self@,
    {
        InstallSnapshotRequest {
            term: self.term,
            leader_id: self.leader_id,
            last_included_index: self.last_included_index,
            last_included_term: self.last_included_term,
            offset: self.offset,
            data: copy_bytes(&self.data),
            done: self.done,
        }
    }
}

#[derive(Debug, Clone, Copy, PartialEq, Eq, Structural)]
pub struct InstallSnapshotResponse {
    pub term: u64,
}

/// A message between two nodes.
#[derive(Debug, PartialEq, Eq)]
pub enum RaftRpc {
    RequestVote(RequestVoteRequest),
    RequestVoteResponse(RequestVoteResponse),
    AppendEntries(AppendEntriesRequest),
    AppendEntriesResponse(AppendEntriesResponse),
    InstallSnapshot(InstallSnapshotRequest),
    InstallSnapshotResponse(InstallSnapshotResponse),
}

/// What a [`RaftRpc`] holds.
pub enum RpcView {
    RequestVote(RequestVoteRequest),
    RequestVoteResponse(RequestVoteResponse),
    AppendEntries(AppendEntriesView),
    AppendEntriesResponse(AppendEntriesResponse),
    InstallSnapshot(InstallSnapshotView),
    InstallSnapshotResponse(InstallSnapshotResponse),
}

impl View for RaftRpc {
    type V = RpcView;

    open spec fn view(&self) -> RpcView {
        match self {
            RaftRpc::RequestVote(m) => RpcView::RequestVote(*m),
            RaftRpc::RequestVoteResponse(m) => RpcView::RequestVoteResponse(*m),
            RaftRpc::AppendEntries(m) => RpcView::AppendEntries(m@),
            RaftRpc::AppendEntriesResponse(m) => RpcView::AppendEntriesResponse(*m),
            RaftRpc::InstallSnapshot(m) => RpcView::InstallSnapshot(m@),
            RaftRpc::InstallSnapshotResponse(m) => RpcView::InstallSnapshotResponse(*m),
        }
    }
}

impl Clone for RaftRpc {
    fn clone(&self) -> (r: Self)
        ensures
            r@ == self@,
    {
        match self {
            RaftRpc::RequestVote(m) => RaftRpc::RequestVote(*m),
            RaftRpc::RequestVoteResponse(m) => RaftRpc::RequestVoteResponse(*m),
            RaftRpc::AppendEntries(m) => RaftRpc::AppendEntries(m.clone()),
            RaftRpc::AppendEntriesResponse(m) => RaftRpc::AppendEntriesResponse(*m),
            RaftRpc::InstallSnapshot(m) => RaftRpc::InstallSnapshot(m.clone()),
            RaftRpc::InstallSnapshotResponse(m) => RaftRpc::InstallSnapshotResponse(*m),
        }
    }
}

/// One member of a cluster: the consensus state machine, bound to no runtime.
#[derive(Debug, Clone)]
pub struct RaftNode {
    // Node identifier and cluster membership.
    pub id: NodeId,
    pub peers: Vec<NodeId>,
    // Persistent state on all servers, updated before responding to RPCs.
    pub log: RaftLog,
    pub current_term: u64,
    pub voted_for: Option<NodeId>,
    // Volatile state on all servers.
    pub state: RaftState,
    pub leader_id: Option<NodeId>,
    pub commit_index: u64,
    pub last_applied: u64,
    // Volatile state on leaders only, reinitialized after election.
    pub next_index: HashMap<NodeId, u64>,
    pub match_index: HashMap<NodeId, u64>,
    // Timing parameters (logical ticks).
    pub heartbeat_interval_ticks: u64,
    pub election_timeout_min_ticks: u64,
    pub election_timeout_max_ticks: u64,
    pub election: ElectionState,
    pub heartbeat_ticks: u64,
    /// Seeded stream for election timeout jitter (deterministic under sim seeds).
    pub rng: NodeRng,
    /// Applied entries since the last snapshot that warrant a new one; 0 never.
    pub compaction_threshold: u64,
    pub snapshot: Option<Snapshot>,
    pub pending_snapshot: Option<PendingSnapshot>,
}

/// What a [`RaftNode`] holds.
#[verifier::ext_equal]
pub struct NodeView {
    pub id: NodeId,
    pub peers: Seq<NodeId>,
    pub log: RaftLogView,
    pub current_term: u64,
    pub voted_for: Option<NodeId>,
    pub state: RaftState,
    pub leader_id: Option<NodeId>,
    pub commit_index: u64,
    pub last_applied: u64,
    pub next_index: Map<NodeId, u64>,
    pub match_index: Map<NodeId, u64>,
    pub heartbeat_interval_ticks: u64,
    pub election_timeout_min_ticks: u64,
    pub election_timeout_max_ticks: u64,
    pub election: ElectionView,
    pub heartbeat_ticks: u64,
    pub rng: NodeRngView,
    pub compaction_threshold: u64,
    pub snapshot: Option<SnapshotView>,
    pub pending_snapshot: Option<PendingSnapshotView>,
}

/// What an optional snapshot holds.
pub open spec fn snapshot_view(snapshot: Option<Snapshot>) -> Option<SnapshotView> {
    match snapshot {
        Some(s) => Some(s@),
        None => None,
    }
}

/// What an optional half-assembled snapshot holds.
pub open spec fn pending_view(pending: Option<PendingSnapshot>) -> Option<PendingSnapshotView> {
    match pending {
        Some(p) => Some(p@),
        None => None,
    }
}

impl View for RaftNode {
    type V = NodeView;

    open spec fn view(&self) -> NodeView {
        NodeView {
            id: self.id,
            peers: self.peers@,
            log: self.log@,
            current_term: self.current_term,
            voted_for: self.voted_for,
            state: self.state,
            leader_id: self.leader_id,
            commit_index: self.commit_index,
            last_applied: self.last_applied,
            next_index: self.next_index@,
            match_index: self.match_index@,
            heartbeat_interval_ticks: self.heartbeat_interval_ticks,
            election_timeout_min_ticks: self.election_timeout_min_ticks,
            election_timeout_max_ticks: self.election_timeout_max_ticks,
            election: self.election@,
            heartbeat_ticks: self.heartbeat_ticks,
            rng: self.rng@,
            compaction_threshold: self.compaction_threshold,
            snapshot: snapshot_view(self.snapshot),
            pending_snapshot: pending_view(self.pending_snapshot),
        }
    }
}

impl NodeView {
    /// A node that holds nothing, with an election timeout drawn from
    /// `timeout_min..=timeout_max`.
    pub open spec fn fresh(
        id: NodeId,
        peers: Seq<NodeId>,
        rng: NodeRngView,
        timeout_min: u64,
        timeout_max: u64,
        heartbeat_ticks: u64,
    ) -> NodeView {
        NodeView {
            id,
            peers,
            log: RaftLogView::empty(),
            current_term: 0,
            voted_for: None,
            state: RaftState::Follower,
            leader_id: None,
            commit_index: 0,
            last_applied: 0,
            next_index: Map::empty(),
            match_index: Map::empty(),
            heartbeat_interval_ticks: heartbeat_ticks,
            election_timeout_min_ticks: timeout_min,
            election_timeout_max_ticks: timeout_max,
            election: ElectionView {
                ticks_remaining: election::timeout_drawn(rng, timeout_min, timeout_max),
                votes_granted: Set::empty(),
                election_timeout_ticks: election::timeout_drawn(rng, timeout_min, timeout_max),
            },
            heartbeat_ticks: 0,
            rng: election::rng_after_timeout(rng, timeout_min, timeout_max),
            compaction_threshold: 0,
            snapshot: None,
            pending_snapshot: None,
        }
    }

    /// A fresh node with a fixed election timeout.
    pub open spec fn of_new(id: NodeId, peers: Seq<NodeId>) -> NodeView {
        NodeView::fresh(
            id,
            peers,
            NodeRngView::of_seed(chacha_seed(id)),
            DEFAULT_ELECTION_TIMEOUT_TICKS,
            DEFAULT_ELECTION_TIMEOUT_TICKS,
            DEFAULT_HEARTBEAT_TICKS,
        )
    }

    /// A fresh node with a jittered election timeout.
    pub open spec fn of_rng(id: NodeId, peers: Seq<NodeId>, rng: NodeRngView) -> NodeView {
        NodeView::fresh(
            id,
            peers,
            rng,
            DEFAULT_ELECTION_TIMEOUT_MIN_TICKS,
            DEFAULT_ELECTION_TIMEOUT_MAX_TICKS,
            DEFAULT_HEARTBEAT_TICKS,
        )
    }

    /// A node after a restart: what was durable, and nothing else.
    pub open spec fn of_recovered(
        id: NodeId,
        peers: Seq<NodeId>,
        rng: NodeRngView,
        recovered: RecoveredView,
    ) -> NodeView {
        NodeView {
            current_term: recovered.hard_state.current_term,
            voted_for: recovered.hard_state.voted_for,
            log: recovered.log,
            snapshot: recovered.snapshot,
            commit_index: recovered.log.last_included_index(),
            last_applied: recovered.log.last_included_index(),
            ..NodeView::of_rng(id, peers, rng)
        }
    }

    /// The request for a snapshot, where one is due.
    pub open spec fn snapshot_due(self) -> Seq<ActionView> {
        if self.should_snapshot() {
            seq![self.request_snapshot()]
        } else {
            Seq::empty()
        }
    }

    /// What the follower `peer` needs next: a snapshot where its next index
    /// cannot be served from the log, else the entries it lacks.
    pub open spec fn catch_up(self, peer: NodeId) -> Seq<ActionView> {
        let next = if self.next_index.contains_key(peer) {
            self.next_index[peer]
        } else {
            1
        };
        if next <= self.log.last_included_index() {
            self.send_install_snapshot(peer)
        } else if self.log.last_index() >= next {
            seq![self.send_append_entries(peer)]
        } else {
            Seq::empty()
        }
    }

    /// One tick of the driver's clock.
    pub open spec fn tick(self) -> (NodeView, Seq<ActionView>) {
        let ticked = NodeView { heartbeat_ticks: next_down(self.heartbeat_ticks), ..self };
        if self.state != RaftState::Leader {
            self.election_tick()
        } else if ticked.heartbeat_ticks == 0 {
            let node = NodeView { heartbeat_ticks: self.heartbeat_interval_ticks, ..self };
            (node, self.snapshot_due() + node.broadcast())
        } else {
            (ticked, self.snapshot_due() + catch_up_all(ticked, ticked.others()))
        }
    }

    /// A message from another node.
    pub open spec fn receive(self, from: NodeId, rpc: RpcView) -> (NodeView, Seq<ActionView>) {
        match rpc {
            RpcView::RequestVote(m) => self.handle_request_vote_request(from, m),
            RpcView::RequestVoteResponse(m) => self.handle_request_vote_response(from, m),
            RpcView::AppendEntries(m) => self.handle_append_entries_request(from, m),
            RpcView::AppendEntriesResponse(m) => self.handle_append_entries_response(from, m),
            RpcView::InstallSnapshot(m) => self.handle_install_snapshot_request(from, m),
            RpcView::InstallSnapshotResponse(m) => self.handle_install_snapshot_response(from, m),
        }
    }

    /// A batch of client commands.
    pub open spec fn propose(self, commands: Seq<Seq<u8>>) -> (NodeView, Seq<ActionView>) {
        if commands.len() == 0 {
            (self, Seq::empty())
        } else {
            self.append_and_replicate(commands)
        }
    }
}

/// What each of `peers` needs next, in order.
pub open spec fn catch_up_all(node: NodeView, peers: Seq<NodeId>) -> Seq<ActionView>
    decreases peers.len(),
{
    if peers.len() == 0 {
        Seq::empty()
    } else {
        catch_up_all(node, peers.drop_last()) + node.catch_up(peers.last())
    }
}

impl RaftNode {
    /// Creates a Raft state machine without binding it to a runtime.
    ///
    /// Uses a fixed election timeout (no jitter) so unit tests stay simple.
    /// Persistence, transport, and application effects are driven by the
    /// runtime boundary after Raft returns them; they do not live in the core.
    pub fn new(id: NodeId, peers: Vec<NodeId>) -> (r: RaftNode)
        ensures
            r@ == NodeView::of_new(id, peers@),
    {
        Self::new_with_timeouts(
            id,
            peers,
            NodeRng::seed_from_u64(id),
            DEFAULT_ELECTION_TIMEOUT_TICKS,
            DEFAULT_ELECTION_TIMEOUT_TICKS,
            DEFAULT_HEARTBEAT_TICKS,
        )
    }

    /// Creates a node with a seeded stream and randomized election timeouts.
    ///
    /// Used by the deterministic simulator so the same root seed replays the
    /// same timeout sequence.
    pub fn with_rng(id: NodeId, peers: Vec<NodeId>, rng: NodeRng) -> (r: RaftNode)
        ensures
            r@ == NodeView::of_rng(id, peers@, rng@),
    {
        Self::new_with_timeouts(
            id,
            peers,
            rng,
            DEFAULT_ELECTION_TIMEOUT_MIN_TICKS,
            DEFAULT_ELECTION_TIMEOUT_MAX_TICKS,
            DEFAULT_HEARTBEAT_TICKS,
        )
    }

    /// Rebuilds a node after a restart from its durable state alone.
    ///
    /// Only `currentTerm`, `votedFor`, the log, and the snapshot come back.
    /// Role, leader hint, and leader bookkeeping reset; `commit_index` and
    /// `last_applied` restart at the snapshot boundary. `rng` should be a
    /// fresh per-node stream: a reboot does not resume the old jitter sequence.
    pub fn recover(
        id: NodeId,
        peers: Vec<NodeId>,
        rng: NodeRng,
        recovered: storage::Recovered,
    ) -> (r: RaftNode)
        ensures
            r@ == NodeView::of_recovered(id, peers@, rng@, recovered@),
    {
        let ghost (p0, r0) = (peers@, rng@);
        let mut node = Self::with_rng(id, peers, rng);
        let applied: u64 = recovered.log.last_included_index();
        node.current_term = recovered.hard_state.current_term;
        node.voted_for = recovered.hard_state.voted_for;
        node.log = recovered.log;
        node.snapshot = recovered.snapshot;
        node.commit_index = applied;
        node.last_applied = applied;
        assert(node@ =~= NodeView::of_recovered(id, p0, r0, recovered@));
        node
    }

    fn new_with_timeouts(
        id: NodeId,
        peers: Vec<NodeId>,
        rng: NodeRng,
        timeout_min: u64,
        timeout_max: u64,
        heartbeat_ticks: u64,
    ) -> (r: RaftNode)
        ensures
            r@ == NodeView::fresh(id, peers@, rng@, timeout_min, timeout_max, heartbeat_ticks),
    {
        let ghost rng0 = rng@;
        let mut rng = rng;
        let mut election = ElectionState::new(if timeout_min == 0 { 1 } else { timeout_min });
        reset_timeout(&mut election, timeout_min, timeout_max, &mut rng);
        let r = RaftNode {
            id,
            peers,
            log: RaftLog::new(),
            current_term: 0,
            voted_for: None,
            state: RaftState::Follower,
            leader_id: None,
            commit_index: 0,
            last_applied: 0,
            next_index: HashMap::new(),
            match_index: HashMap::new(),
            heartbeat_interval_ticks: heartbeat_ticks,
            election_timeout_min_ticks: timeout_min,
            election_timeout_max_ticks: timeout_max,
            election,
            heartbeat_ticks: 0,
            rng,
            // 0 disables automatic snapshot requests without a driver state machine.
            compaction_threshold: 0,
            snapshot: None,
            pending_snapshot: None,
        };
        assert(r@ =~= NodeView::fresh(
            id,
            peers@,
            rng0,
            timeout_min,
            timeout_max,
            heartbeat_ticks,
        ));
        r
    }

    /// Returns this node's stable Raft identity.
    pub fn id(&self) -> (r: NodeId)
        ensures
            r == self@.id,
    {
        self.id
    }

    /// Returns the current Raft role.
    pub fn state(&self) -> (r: RaftState)
        ensures
            r == self@.state,
    {
        self.state
    }

    /// Returns the current term.
    pub fn current_term(&self) -> (r: u64)
        ensures
            r == self@.current_term,
    {
        self.current_term
    }

    /// Advances the protocol's logical clock by one driver tick.
    /// Returns ordered effects for the runtime.
    pub fn on_tick(&mut self) -> (r: Vec<ElectionAction>)
        ensures
            (final(self)@, actions_view(r@)) == old(self)@.tick(),
    {
        if self.state != RaftState::Leader {
            return election::on_tick(self);
        }
        let ghost n0 = self@;
        let mut actions: Vec<ElectionAction> = Vec::new();
        if snapshot::should_snapshot(self) {
            actions.push(snapshot::request_snapshot_action(self));
        }
        assert(actions_view(actions@) =~= n0.snapshot_due());
        self.heartbeat_ticks = self.heartbeat_ticks.saturating_sub(1);
        if self.heartbeat_ticks == 0 {
            self.heartbeat_ticks = self.heartbeat_interval_ticks;
            let mut probes = replication::heartbeat_actions(self);
            let ghost sent = actions_view(probes@);
            actions.append(&mut probes);
            assert(self@ =~= n0.tick().0);
            assert(actions_view(actions@) =~= n0.tick().1);
            return actions;
        }
        // Opportunistic catch-up when a follower is behind between heartbeats.

        let mut catch_up = self.catch_up_actions();
        let ghost sent = actions_view(catch_up@);
        actions.append(&mut catch_up);
        assert(self@ =~= n0.tick().0);
        assert(actions_view(actions@) =~= n0.tick().1);
        actions
    }

    /// What every follower that is behind needs next: a snapshot where its
    /// next index cannot be served from the log, else the entries it lacks.
    fn catch_up_actions(&self) -> (r: Vec<ElectionAction>)
        ensures
            actions_view(r@) == catch_up_all(self@, self@.others()),
    {
        let mut actions: Vec<ElectionAction> = Vec::new();
        let mut i: usize = 0;
        proof {
            reveal(Seq::filter);
            assert(actions_view(actions@) =~= catch_up_all(self@, Seq::empty()));
        }
        while i < self.peers.len()
            invariant
                i <= self.peers@.len(),
                actions_view(actions@) == catch_up_all(
                    self@,
                    others_of(self.peers@.take(i as int), self.id),
                ),
            decreases self.peers@.len() - i,
        {
            proof {
                replication::lemma_others_step(self.peers@, self.id, i as int);
            }
            let ghost seen = others_of(self.peers@.take(i as int), self.id);
            let peer: NodeId = self.peers[i];
            i += 1;
            if peer == self.id {
                continue ;
            }
            let ghost held = actions_view(actions@);
            let next: u64 = match self.next_index.get(&peer) {
                Some(index) => *index,
                None => 1,
            };
            if next <= self.log.last_included_index() {
                let mut install = snapshot::send_install_snapshot(self, peer);
                let ghost sent = actions_view(install@);
                actions.append(&mut install);
                assert(actions_view(actions@) =~= held + sent);
            } else if self.log.last_index() >= next {
                actions.push(replication::send_append_entries(self, peer));
            }
            assert(actions_view(actions@) =~= held + self@.catch_up(peer));
            assert(seen.push(peer).drop_last() =~= seen);
        }
        assert(self.peers@.take(i as int) =~= self.peers@);
        actions
    }

    /// Handles an RPC delivered by a runtime adapter.
    ///
    /// Returns ordered effects for the runtime (`Persist` before dependent `Send`).
    pub fn handle_rpc(&mut self, from: NodeId, rpc: RaftRpc) -> (r: Vec<ElectionAction>)
        ensures
            (final(self)@, actions_view(r@)) == old(self)@.receive(from, rpc@),
    {
        match rpc {
            RaftRpc::RequestVote(req) => election::handle_request_vote_request(self, from, req),
            RaftRpc::RequestVoteResponse(res) => {
                election::handle_request_vote_response(self, from, res)
            },
            RaftRpc::AppendEntries(req) => {
                replication::handle_append_entries_request(self, from, req)
            },
            RaftRpc::AppendEntriesResponse(res) => {
                replication::handle_append_entries_response(self, from, res)
            },
            RaftRpc::InstallSnapshot(req) => {
                snapshot::handle_install_snapshot_request(self, from, req)
            },
            RaftRpc::InstallSnapshotResponse(res) => {
                snapshot::handle_install_snapshot_response(self, from, res)
            },
        }
    }

    /// Handles a serialized client command delivered by a runtime adapter.
    pub fn handle_client_command(&mut self, command: Vec<u8>) -> (r: Vec<ElectionAction>)
        ensures
            (final(self)@, actions_view(r@)) == old(self)@.append_and_replicate(seq![command@]),
    {
        replication::append_and_replicate(self, command)
    }

    /// Handles a batch of serialized client commands; an empty batch is a no-op.
    pub fn handle_client_commands(&mut self, commands: Vec<Vec<u8>>) -> (r: Vec<ElectionAction>)
        ensures
            (final(self)@, actions_view(r@)) == old(self)@.propose(commands_view(commands@)),
    {
        if commands.len() == 0 {
            let none: Vec<ElectionAction> = Vec::new();
            assert(actions_view(none@) =~= Seq::empty());
            return none;
        }
        replication::append_all_and_replicate(self, commands)
    }

    /// Handles snapshot bytes produced by the driver after
    /// [`ElectionAction::RequestSnapshot`].
    pub fn handle_snapshot_taken(&mut self, snapshot: Snapshot) -> (r: Vec<ElectionAction>)
        ensures
            (final(self)@, actions_view(r@)) == old(self)@.snapshot_taken(snapshot@),
    {
        snapshot::on_snapshot_taken(self, snapshot)
    }

    /// Handles driver confirmation that a snapshot is durable (then trims the log).
    pub fn handle_snapshot_persisted(&mut self, meta: SnapshotMeta) -> (r: Vec<ElectionAction>)
        ensures
            final(self)@ == old(self)@.snapshot_persisted(meta),
            r@.len() == 0,
    {
        snapshot::on_snapshot_persisted(self, meta)
    }

    /// Returns a shared view of the in-memory Raft log.
    pub fn log(&self) -> (r: &RaftLog)
        ensures
            r@ == self@.log,
    {
        &self.log
    }
}

} // verus!
