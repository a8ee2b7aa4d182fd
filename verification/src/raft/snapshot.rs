//! Raft snapshot protocol state transitions.
//!
//! Durable snapshot records belong under [`crate::raft::storage`]. The Raft
//! core never opens files: it emits ordered effects
//! (`RequestSnapshot` → driver fills state-machine bytes → `SnapshotTaken` →
//! `PersistSnapshot` → driver confirms → log trim) and `InstallSnapshot` RPCs
//! for lagging followers.

use vstd::prelude::*;

use crate::config::NodeId;
use crate::raft::election::{
    actions_view, become_follower, persist_hard_state, ActionView, ElectionAction,
};
use crate::raft::log::{copy_bytes, entries_view, max_u64, LogEntry, LogEntryView};
use crate::raft::replication;
use crate::raft::replication::acked_index;
use crate::raft::state::RaftState;
use crate::raft::{
    pending_view, InstallSnapshotRequest, InstallSnapshotResponse, InstallSnapshotView, NodeView,
    RaftNode, RaftRpc, RpcView,
};

verus! {

/// Metadata describing the last log entry covered by a snapshot.
#[derive(Debug, Clone, Copy, PartialEq, Eq, Structural)]
pub struct SnapshotMeta {
    pub last_included_index: u64,
    pub last_included_term: u64,
}

/// Full snapshot handed across the driver boundary (persist / apply / install).
#[derive(Debug, PartialEq, Eq)]
pub struct Snapshot {
    pub meta: SnapshotMeta,
    pub data: Vec<u8>,
}

/// What a [`Snapshot`] holds.
pub struct SnapshotView {
    pub meta: SnapshotMeta,
    pub data: Seq<u8>,
}

impl View for Snapshot {
    type V = SnapshotView;

    open spec fn view(&self) -> SnapshotView {
        SnapshotView { meta: self.meta, data: self.data@ }
    }
}

impl Clone for Snapshot {
    fn clone(&self) -> (r: Self)
        ensures
            r@ == self@,
    {
        Snapshot { meta: self.meta, data: copy_bytes(&self.data) }
    }
}

/// In-flight InstallSnapshot assembly on a follower (chunked by `offset`).
#[derive(Debug, PartialEq, Eq)]
pub struct PendingSnapshot {
    pub meta: SnapshotMeta,
    /// Expected next byte offset; rejects gaps, reorders, and duplicates.
    pub next_offset: u64,
    pub data: Vec<u8>,
}

/// What a [`PendingSnapshot`] holds.
pub struct PendingSnapshotView {
    pub meta: SnapshotMeta,
    pub next_offset: u64,
    pub data: Seq<u8>,
}

impl View for PendingSnapshot {
    type V = PendingSnapshotView;

    open spec fn view(&self) -> PendingSnapshotView {
        PendingSnapshotView {
            meta: self.meta,
            next_offset: self.next_offset,
            data: self.data@,
        }
    }
}

impl Clone for PendingSnapshot {
    fn clone(&self) -> (r: Self)
        ensures
            r@ == self@,
    {
        PendingSnapshot {
            meta: self.meta,
            next_offset: self.next_offset,
            data: copy_bytes(&self.data),
        }
    }
}

impl SnapshotMeta {
    pub fn new(last_included_index: u64, last_included_term: u64) -> (r: Self)
        ensures
            r == (SnapshotMeta { last_included_index, last_included_term }),
    {
        Self { last_included_index, last_included_term }
    }
}

impl Snapshot {
    pub fn new(meta: SnapshotMeta, data: Vec<u8>) -> (r: Self)
        ensures
            r@ == (SnapshotView { meta, data: data@ }),
    {
        Self { meta, data }
    }
}

impl PendingSnapshot {
    /// An assembly that has received nothing yet.
    pub fn new(meta: SnapshotMeta) -> (r: Self)
        ensures
            r@ == (PendingSnapshotView { meta, next_offset: 0, data: Seq::empty() }),
    {
        let r = Self { meta, next_offset: 0, data: Vec::new() };
        assert(r@.data =~= Seq::<u8>::empty());
        r
    }
}

/// The bytes with `more` at their end.
fn extend_bytes(bytes: &mut Vec<u8>, more: &Vec<u8>)
    ensures
        final(bytes)@ == old(bytes)@ + more@,
{
    let ghost before = bytes@;
    bytes.extend_from_slice(more.as_slice());
    assert(bytes@ =~= before + more@);
}

pub open spec fn install_reply(to: NodeId, term: u64) -> ActionView {
    ActionView::Send {
        to,
        rpc: RpcView::InstallSnapshotResponse(InstallSnapshotResponse { term }),
    }
}

impl InstallSnapshotView {
    /// The boundary of the snapshot that the chunk belongs to.
    pub open spec fn meta(self) -> SnapshotMeta {
        SnapshotMeta {
            last_included_index: self.last_included_index,
            last_included_term: self.last_included_term,
        }
    }
}

impl NodeView {
    /// Whether enough entries were applied since the last snapshot.
    pub open spec fn should_snapshot(self) -> bool {
        &&& self.compaction_threshold != 0
        &&& self.last_applied - self.log.last_included_index() >= self.compaction_threshold
    }

    pub open spec fn request_snapshot(self) -> ActionView {
        ActionView::RequestSnapshot {
            last_included_index: self.last_applied,
            last_included_term: match self.log.term_at(self.last_applied) {
                Ok(term) => term,
                Err(_) => 0,
            },
        }
    }

    /// Whether a snapshot at `index` moves the boundary forward and covers
    /// nothing that is not applied.
    pub open spec fn may_compact_to(self, index: u64) -> bool {
        self.log.last_included_index() < index <= self.last_applied
    }

    pub open spec fn snapshot_taken(self, snapshot: SnapshotView) -> (NodeView, Seq<ActionView>) {
        if self.may_compact_to(snapshot.meta.last_included_index) {
            (
                NodeView { snapshot: Some(snapshot), ..self },
                seq![ActionView::PersistSnapshot(snapshot)],
            )
        } else {
            (self, Seq::empty())
        }
    }

    pub open spec fn snapshot_persisted(self, meta: SnapshotMeta) -> NodeView {
        if self.may_compact_to(meta.last_included_index) {
            NodeView {
                log: self.log.compact(meta.last_included_index, meta.last_included_term),
                commit_index: max_u64(self.commit_index, meta.last_included_index),
                ..self
            }
        } else {
            self
        }
    }

    pub open spec fn send_install_snapshot(self, to: NodeId) -> Seq<ActionView> {
        match self.snapshot {
            None => Seq::empty(),
            Some(snapshot) => seq![
                ActionView::Send {
                    to,
                    rpc: RpcView::InstallSnapshot(
                        InstallSnapshotView {
                            term: self.current_term,
                            leader_id: self.id,
                            last_included_index: snapshot.meta.last_included_index,
                            last_included_term: snapshot.meta.last_included_term,
                            offset: 0,
                            data: snapshot.data,
                            done: true,
                        },
                    ),
                },
            ],
        }
    }

    /// The assembly with one more chunk. A chunk of the snapshot in assembly is
    /// accepted only at the offset reached; another snapshot starts at zero.
    pub open spec fn with_chunk(self, req: InstallSnapshotView) -> Option<PendingSnapshotView> {
        let continued = match self.pending_snapshot {
            Some(pending) => pending.meta == req.meta(),
            None => false,
        };
        if continued {
            let pending = self.pending_snapshot->0;
            if req.offset == pending.next_offset {
                Some(
                    PendingSnapshotView {
                        data: pending.data + req.data,
                        next_offset: acked_index(pending.next_offset, req.data.len()),
                        ..pending
                    },
                )
            } else {
                None
            }
        } else if req.offset == 0 {
            Some(
                PendingSnapshotView {
                    meta: req.meta(),
                    next_offset: req.data.len() as u64,
                    data: req.data,
                },
            )
        } else {
            None
        }
    }

    /// Whether installing the snapshot throws away local entries at or above
    /// its boundary.
    pub open spec fn install_discards(self, meta: SnapshotMeta) -> bool {
        self.log.last_index() >= meta.last_included_index && !self.log.contains(
            meta.last_included_index,
            meta.last_included_term,
        )
    }

    /// The follower with a whole snapshot installed.
    pub open spec fn install(self, snapshot: SnapshotView) -> NodeView {
        NodeView {
            log: self.log.install_snapshot(
                snapshot.meta.last_included_index,
                snapshot.meta.last_included_term,
            ),
            commit_index: max_u64(self.commit_index, snapshot.meta.last_included_index),
            last_applied: max_u64(self.last_applied, snapshot.meta.last_included_index),
            snapshot: Some(snapshot),
            pending_snapshot: None,
            ..self
        }
    }

    /// What the runtime owes for an installed snapshot, before the reply.
    pub open spec fn install_effects(self, snapshot: SnapshotView) -> Seq<ActionView> {
        let discard = if self.install_discards(snapshot.meta) {
            seq![
                ActionView::PersistLog {
                    truncate_from: Some(snapshot.meta.last_included_index),
                    entries: Seq::empty(),
                },
            ]
        } else {
            Seq::empty()
        };
        seq![ActionView::PersistSnapshot(snapshot)] + discard + seq![
            ActionView::ApplySnapshot(snapshot),
        ]
    }

    pub open spec fn handle_install_snapshot_request(
        self,
        from: NodeId,
        req: InstallSnapshotView,
    ) -> (NodeView, Seq<ActionView>) {
        let (adopted, adoption) = self.adopt_term(req.term);
        let follower = adopted.follow(req.leader_id);
        let effects = adoption + adopted.demotion();
        let reply = install_reply(from, adopted.current_term);
        if req.term < adopted.current_term {
            (adopted, seq![reply])
        } else if req.last_included_index <= follower.log.last_included_index() && req.done {
            (follower, effects.push(reply))
        } else {
            match follower.with_chunk(req) {
                None => (follower, effects),
                Some(pending) => {
                    if !req.done {
                        (NodeView { pending_snapshot: Some(pending), ..follower }, effects)
                    } else {
                        let snapshot = SnapshotView { meta: req.meta(), data: pending.data };
                        (
                            follower.install(snapshot),
                            (effects + follower.install_effects(snapshot)).push(reply),
                        )
                    }
                },
            }
        }
    }

    pub open spec fn handle_install_snapshot_response(
        self,
        from: NodeId,
        response: InstallSnapshotResponse,
    ) -> (NodeView, Seq<ActionView>) {
        if response.term > self.current_term {
            self.adopt_term(response.term)
        } else if self.state != RaftState::Leader || response.term < self.current_term {
            (self, Seq::empty())
        } else {
            match self.snapshot {
                None => (self, Seq::empty()),
                Some(snapshot) => (
                    self.acknowledge(from, snapshot.meta.last_included_index),
                    Seq::empty(),
                ),
            }
        }
    }
}

/// Applied entries since the last snapshot that warrant taking a new one.
///
/// Snapshotting is capped at `last_applied` so compaction never outruns
/// application.
pub fn should_snapshot(node: &RaftNode) -> (r: bool)
    ensures
        r == node@.should_snapshot(),
{
    if node.compaction_threshold == 0 {
        return false;
    }
    let applied_since: u64 = node.last_applied.saturating_sub(node.log.last_included_index());
    applied_since >= node.compaction_threshold
}

/// Asks the driver for state-machine bytes at `last_applied`.
pub fn request_snapshot_action(node: &RaftNode) -> (r: ElectionAction)
    ensures
        r@ == node@.request_snapshot(),
{
    let last_included_index: u64 = node.last_applied;
    let last_included_term: u64 = match node.log.term_at(last_included_index) {
        Ok(term) => term,
        Err(_) => 0,
    };
    ElectionAction::RequestSnapshot { last_included_index, last_included_term }
}

/// Driver returned snapshot bytes: retain them and demand durable persist first.
///
/// Log trim happens only in [`on_snapshot_persisted`] after the driver drains
/// `PersistSnapshot` (snapshot-before-trim durability order).
pub fn on_snapshot_taken(node: &mut RaftNode, snapshot: Snapshot) -> (r: Vec<ElectionAction>)
    ensures
        (final(node)@, actions_view(r@)) == old(node)@.snapshot_taken(snapshot@),
{
    let ghost n0 = node@;
    let last_included_index: u64 = snapshot.meta.last_included_index;
    let mut actions: Vec<ElectionAction> = Vec::new();
    if last_included_index <= node.log.last_included_index() || last_included_index
        > node.last_applied {
        assert(actions_view(actions@) =~= Seq::empty());
        return actions;
    }
    // The effect owns one copy; the node retains another for InstallSnapshot
    // catch-up until replaced by a newer snapshot.

    node.snapshot = Some(snapshot.clone());
    actions.push(ElectionAction::PersistSnapshot(snapshot));
    assert(node@ =~= n0.snapshot_taken(snapshot@).0);
    assert(actions_view(actions@) =~= n0.snapshot_taken(snapshot@).1);
    actions
}

/// Driver finished persisting the snapshot; now it is safe to discard the prefix.
pub fn on_snapshot_persisted(node: &mut RaftNode, meta: SnapshotMeta) -> (r: Vec<ElectionAction>)
    ensures
        final(node)@ == old(node)@.snapshot_persisted(meta),
        r@.len() == 0,
{
    let ghost n0 = node@;
    let none: Vec<ElectionAction> = Vec::new();
    if meta.last_included_index <= node.log.last_included_index() || meta.last_included_index
        > node.last_applied {
        return none;
    }
    node.log.compact(meta.last_included_index, meta.last_included_term);
    if node.commit_index < meta.last_included_index {
        node.commit_index = meta.last_included_index;
    }
    assert(node@ =~= n0.snapshot_persisted(meta));
    none
}

/// Leader path: send InstallSnapshot when the follower's nextIndex is at or
/// below the compacted boundary (AppendEntries cannot form a valid prev).
pub fn send_install_snapshot(node: &RaftNode, to: NodeId) -> (r: Vec<ElectionAction>)
    ensures
        actions_view(r@) == node@.send_install_snapshot(to),
{
    let mut actions: Vec<ElectionAction> = Vec::new();
    match &node.snapshot {
        None => {},
        Some(snapshot) => {
            // Single-chunk install: offset 0, done.
            actions.push(
                ElectionAction::Send {
                    to,
                    rpc: RaftRpc::InstallSnapshot(
                        InstallSnapshotRequest {
                            term: node.current_term,
                            leader_id: node.id,
                            last_included_index: snapshot.meta.last_included_index,
                            last_included_term: snapshot.meta.last_included_term,
                            offset: 0,
                            data: copy_bytes(&snapshot.data),
                            done: true,
                        },
                    ),
                },
            );
        },
    }
    assert(actions_view(actions@) =~= node@.send_install_snapshot(to));
    actions
}

fn install_snapshot_reply(to: NodeId, term: u64) -> (r: ElectionAction)
    ensures
        r@ == install_reply(to, term),
{
    ElectionAction::Send {
        to,
        rpc: RaftRpc::InstallSnapshotResponse(InstallSnapshotResponse { term }),
    }
}

/// Follower InstallSnapshot handling with offset-checked chunk assembly.
pub fn handle_install_snapshot_request(
    node: &mut RaftNode,
    from: NodeId,
    request: InstallSnapshotRequest,
) -> (r: Vec<ElectionAction>)
    ensures
        (final(node)@, actions_view(r@)) == old(node)@.handle_install_snapshot_request(
            from,
            request@,
        ),
{
    let ghost n0 = node@;
    let ghost expected = n0.handle_install_snapshot_request(from, request@);
    let mut actions: Vec<ElectionAction> = Vec::new();
    if request.term > node.current_term {
        become_follower(node, request.term);
        actions.push(ElectionAction::DemoteFollower);
        actions.push(persist_hard_state(node));
    }
    let ghost n1 = node@;
    assert(n1 == n0.adopt_term(request.term).0);
    assert(actions_view(actions@) =~= n0.adopt_term(request.term).1);
    if request.term < node.current_term {
        actions.push(install_snapshot_reply(from, node.current_term));
        assert(actions_view(actions@) =~= expected.1);
        return actions;
    }
    if node.state != RaftState::Follower {
        node.state = RaftState::Follower;
        actions.push(ElectionAction::DemoteFollower);
    }
    node.leader_id = Some(request.leader_id);
    node.election.reset();
    let ghost n2 = n1.follow(request.leader_id);
    let ghost effects = n0.adopt_term(request.term).1 + n1.demotion();
    assert(node@ =~= n2);
    assert(actions_view(actions@) =~= effects);
    // Already covered by an equal-or-newer local snapshot boundary.
    if request.last_included_index <= node.log.last_included_index() && request.done {
        actions.push(install_snapshot_reply(from, node.current_term));
        assert(actions_view(actions@) =~= expected.1);
        return actions;
    }
    let meta = SnapshotMeta::new(request.last_included_index, request.last_included_term);
    // Start or continue chunk assembly. Duplicate / reordered offsets are rejected.
    let held = node.pending_snapshot.take();
    let continued: bool = match &held {
        Some(pending) => pending.meta == meta,
        None => false,
    };
    let accepted: Option<PendingSnapshot> = if continued {
        match held {
            Some(mut pending) => {
                if request.offset == pending.next_offset {
                    extend_bytes(&mut pending.data, &request.data);
                    pending.next_offset =
                    pending.next_offset.saturating_add(request.data.len() as u64);
                    Some(pending)
                } else {
                    node.pending_snapshot = Some(pending);
                    None
                }
            },
            None => None,
        }
    } else if request.offset == 0 {
        let mut pending = PendingSnapshot::new(meta);
        extend_bytes(&mut pending.data, &request.data);
        pending.next_offset = request.data.len() as u64;
        assert(pending.data@ =~= request.data@);
        Some(pending)
    } else {
        node.pending_snapshot = held;
        None
    };
    assert(pending_view(accepted) == n2.with_chunk(request@));
    let pending = match accepted {
        Some(pending) => pending,
        None => {
            assert(node@ =~= n2);
            return actions;
        },
    };
    if !request.done {
        node.pending_snapshot = Some(pending);
        assert(node@ =~= expected.0);
        return actions;
    }
    let snapshot = Snapshot::new(pending.meta, pending.data);
    // A local entry at the boundary with a different term means the whole
    // local suffix is discarded. Storage must record that discard, or replay
    // would resurrect the stale entries. A log shorter than the boundary holds
    // nothing replay would keep, so it needs no record.
    let discards_local_log: bool = node.log.last_index() >= snapshot.meta.last_included_index
        && !node.log.contains(
        snapshot.meta.last_included_index,
        snapshot.meta.last_included_term,
    );
    // Log install: keep suffix on matching (index, term), else discard.
    node.log.install_snapshot(
        snapshot.meta.last_included_index,
        snapshot.meta.last_included_term,
    );
    let last_included_index: u64 = snapshot.meta.last_included_index;
    if node.commit_index < last_included_index {
        node.commit_index = last_included_index;
    }
    if node.last_applied < last_included_index {
        node.last_applied = last_included_index;
    }
    // The node keeps the snapshot for future catch-up; effects own copies.
    node.snapshot = Some(snapshot.clone());
    let ghost whole = snapshot@;
    assert(whole == SnapshotView { meta: request@.meta(), data: whole.data });
    assert(node@ =~= n2.install(whole));
    // Durability before reply: persist snapshot, apply to state machine, then ack.
    // The truncate follows the snapshot so a crash between them recovers the
    // snapshot, whose boundary check discards the stale entries anyway.
    actions.push(ElectionAction::PersistSnapshot(snapshot.clone()));
    if discards_local_log {
        let entries: Vec<LogEntry> = Vec::new();
        assert(entries_view(entries@) =~= Seq::<LogEntryView>::empty());
        actions.push(
            ElectionAction::PersistLog { truncate_from: Some(last_included_index), entries },
        );
    }
    actions.push(ElectionAction::ApplySnapshot(snapshot));
    assert(actions_view(actions@) =~= effects + n2.install_effects(whole));
    actions.push(install_snapshot_reply(from, node.current_term));
    assert(actions_view(actions@) =~= expected.1);
    actions
}

/// Leader InstallSnapshot response: advance next/match like a successful catch-up.
pub fn handle_install_snapshot_response(
    node: &mut RaftNode,
    from: NodeId,
    response: InstallSnapshotResponse,
) -> (r: Vec<ElectionAction>)
    ensures
        (final(node)@, actions_view(r@)) == old(node)@.handle_install_snapshot_response(
            from,
            response,
        ),
{
    let ghost n0 = node@;
    let mut actions: Vec<ElectionAction> = Vec::new();
    if response.term > node.current_term {
        become_follower(node, response.term);
        actions.push(ElectionAction::DemoteFollower);
        actions.push(persist_hard_state(node));
        assert(actions_view(actions@) =~= n0.adopt_term(response.term).1);
        return actions;
    }
    assert(actions_view(actions@) =~= Seq::empty());
    if node.state != RaftState::Leader || response.term < node.current_term {
        return actions;
    }
    let matched: u64 = match &node.snapshot {
        None => {
            return actions;
        },
        Some(snapshot) => snapshot.meta.last_included_index,
    };
    replication::acknowledge(node, from, matched);
    actions
}

} // verus!
