//! Raft log replication state transitions.
//!
//! Transport delivery belongs to the runtime; this module owns only the
//! protocol decisions for AppendEntries requests and responses.

use vstd::prelude::*;

use crate::config::NodeId;
use crate::raft::election::{
    actions_view, become_follower, persist_hard_state, ActionView, ElectionAction,
};
use crate::raft::log::{
    copy_bytes, entries_view, max_u64, min_u64, next_down, next_up, LogEntry, LogEntryView,
};
use crate::raft::snapshot;
use crate::raft::state::RaftState;
use crate::raft::{
    AppendEntriesRequest, AppendEntriesResponse, AppendEntriesView, NodeView, RaftNode, RaftRpc,
    RpcView,
};

verus! {

broadcast use vstd::std_specs::hash::group_hash_axioms;

/// The members of `peers` other than `id`, in order.
pub open spec fn others_of(peers: Seq<NodeId>, id: NodeId) -> Seq<NodeId> {
    peers.filter(|p: NodeId| p != id)
}

/// How many elements of `s` are at least `n`.
pub open spec fn count_at_least(s: Seq<u64>, n: u64) -> nat {
    s.filter(|x: u64| x >= n).len()
}

/// `n` is the largest member of `s` that at least `k` members reach.
pub open spec fn is_reached_by(s: Seq<u64>, k: nat, n: u64) -> bool {
    &&& s.contains(n)
    &&& count_at_least(s, n) >= k
    &&& forall|m: u64| s.contains(m) && m > n ==> #[trigger] count_at_least(s, m) < k
}

/// The largest member of `s` that at least `k` members reach.
pub open spec fn reached_by(s: Seq<u64>, k: nat) -> u64 {
    choose|n: u64| is_reached_by(s, k, n)
}

/// Where `k` members reach some member of `s`, there is only one largest.
proof fn lemma_reached_by_unique(s: Seq<u64>, k: nat, n: u64)
    requires
        is_reached_by(s, k, n),
    ensures
        reached_by(s, k) == n,
{
    let m = reached_by(s, k);
    assert(is_reached_by(s, k, m));
    assert(count_at_least(s, m) >= k && count_at_least(s, n) >= k);
}

/// Every member of `s` is at least its smallest.
proof fn lemma_count_all(s: Seq<u64>, n: u64)
    requires
        forall|i: int| 0 <= i < s.len() ==> s[i] >= n,
    ensures
        count_at_least(s, n) == s.len(),
    decreases s.len(),
{
    reveal(Seq::filter);
    if s.len() > 0 {
        lemma_count_all(s.drop_last(), n);
    }
}

impl NodeView {
    /// The other members of the cluster, in order.
    pub open spec fn others(self) -> Seq<NodeId> {
        others_of(self.peers, self.id)
    }

    /// The smallest majority of the cluster.
    pub open spec fn quorum(self) -> nat {
        (1 + self.others().len()) / 2 + 1
    }

    /// The first index to send to `peer`.
    pub open spec fn next_for(self, peer: NodeId) -> u64 {
        if self.next_index.contains_key(peer) {
            self.next_index[peer]
        } else {
            self.log.next_index()
        }
    }

    /// The highest index that `peer` has acknowledged.
    pub open spec fn match_for(self, peer: NodeId) -> u64 {
        if self.match_index.contains_key(peer) {
            self.match_index[peer]
        } else {
            0
        }
    }

    /// The AppendEntries that brings `peer` up to date. It starts no earlier than
    /// the log does: a compacted log has nothing to put in front of that.
    pub open spec fn append_entries_to(self, peer: NodeId) -> AppendEntriesView {
        let next = max_u64(self.next_for(peer), self.log.start_index);
        let prev = next_down(next);
        AppendEntriesView {
            term: self.current_term,
            leader_id: self.id,
            prev_log_index: prev,
            prev_log_term: match self.log.term_at(prev) {
                Ok(term) => term,
                Err(_) => 0,
            },
            entries: self.log.entries_from(next),
            leader_commit: self.commit_index,
        }
    }

    pub open spec fn send_append_entries(self, to: NodeId) -> ActionView {
        ActionView::Send { to, rpc: RpcView::AppendEntries(self.append_entries_to(to)) }
    }

    /// The log does not reach back to what `peer` needs next, and there is a
    /// snapshot that does.
    pub open spec fn needs_snapshot(self, peer: NodeId) -> bool {
        self.snapshot is Some && self.next_for(peer) <= self.log.last_included_index()
    }

    /// The message that brings `peer` up to date: the snapshot where its next
    /// index lies at or below the compacted boundary, else AppendEntries.
    pub open spec fn send_update(self, peer: NodeId) -> ActionView {
        if self.needs_snapshot(peer) {
            self.send_install_snapshot(peer)[0]
        } else {
            self.send_append_entries(peer)
        }
    }

    /// One message for every other member.
    pub open spec fn broadcast(self) -> Seq<ActionView> {
        self.others().map_values(|peer: NodeId| self.send_update(peer))
    }

    /// What every member is known to hold, the node itself last.
    pub open spec fn matched(self) -> Seq<u64> {
        self.others().map_values(|peer: NodeId| self.match_for(peer)).push(self.log.last_index())
    }

    /// The commit index after counting the acknowledgements: the highest index
    /// that a majority holds, where it lies above the old one and its entry is
    /// of the current term.
    pub open spec fn advanced_commit(self) -> u64 {
        let n = reached_by(self.matched(), self.quorum());
        if n > self.commit_index && self.log.contains(n, self.current_term) {
            n
        } else {
            self.commit_index
        }
    }

    /// Hands the committed entries that were not applied yet to the state
    /// machine, in index order, up to the first that the log does not hold.
    pub open spec fn apply_committed(self) -> (NodeView, Seq<ActionView>)
        decreases u64::MAX - self.last_applied,
    {
        let next = next_up(self.last_applied);
        if self.last_applied < self.commit_index && self.log.holds(next) {
            let (node, actions) = NodeView { last_applied: next, ..self }.apply_committed();
            (
                node,
                seq![ActionView::ApplyCommittedEntries { entry: self.log.entry(next) }] + actions,
            )
        } else {
            (self, Seq::empty())
        }
    }

    /// The node with `leader` as its leader.
    pub open spec fn follow(self, leader: NodeId) -> NodeView {
        NodeView {
            state: RaftState::Follower,
            leader_id: Some(leader),
            election: self.election.reset(),
            ..self
        }
    }

    /// The node after a message of `term`, and the effects of adopting the term.
    pub open spec fn adopt_term(self, term: u64) -> (NodeView, Seq<ActionView>) {
        if term > self.current_term {
            let node = self.become_follower(term);
            (node, seq![ActionView::DemoteFollower, ActionView::Persist(node.hard_state())])
        } else {
            (self, Seq::empty())
        }
    }

    /// What following a leader tells the runtime.
    pub open spec fn demotion(self) -> Seq<ActionView> {
        if self.state != RaftState::Follower {
            seq![ActionView::DemoteFollower]
        } else {
            Seq::empty()
        }
    }

    pub open spec fn handle_append_entries_request(
        self,
        from: NodeId,
        req: AppendEntriesView,
    ) -> (NodeView, Seq<ActionView>) {
        let (adopted, adoption) = self.adopt_term(req.term);
        let follower = adopted.follow(req.leader_id);
        let effects = adoption + adopted.demotion();
        let (merged_log, merge) = follower.log.append_from_leader(req.entries);
        if req.term < adopted.current_term {
            (adopted, seq![append_reply(from, adopted.current_term, false, 0)])
        } else if !follower.log.contains(req.prev_log_index, req.prev_log_term) {
            (follower, effects.push(append_reply(from, follower.current_term, false, 0)))
        } else {
            let merged = NodeView { log: merged_log, ..follower };
            match merge {
                Err(_) => (
                    merged,
                    effects.push(append_reply(from, merged.current_term, false, 0)),
                ),
                Ok(outcome) => {
                    let committed = NodeView {
                        commit_index: told_commit(merged.commit_index, req.leader_commit, merged.log.last_index()),
                        ..merged
                    };
                    let (applied, applies) = committed.apply_committed();
                    let persist = if outcome.is_empty() {
                        Seq::empty()
                    } else {
                        seq![
                            ActionView::PersistLog {
                                truncate_from: outcome.truncated_from,
                                entries: outcome.appended,
                            },
                        ]
                    };
                    (
                        applied,
                        (effects + persist + applies).push(
                            append_reply(
                                from,
                                applied.current_term,
                                true,
                                acked_index(req.prev_log_index, req.entries.len()),
                            ),
                        ),
                    )
                },
            }
        }
    }

    pub open spec fn handle_append_entries_response(
        self,
        from: NodeId,
        resp: AppendEntriesResponse,
    ) -> (NodeView, Seq<ActionView>) {
        if resp.term > self.current_term {
            self.adopt_term(resp.term)
        } else if self.state != RaftState::Leader || resp.term < self.current_term {
            (self, Seq::empty())
        } else if resp.success {
            let acked = self.acknowledge(from, resp.match_index);
            NodeView { commit_index: acked.advanced_commit(), ..acked }.apply_committed()
        } else {
            let next = max_u64(next_down(self.next_for(from)), self.log.start_index);
            let node = NodeView { next_index: self.next_index.insert(from, next), ..self };
            (node, seq![node.send_append_entries(from)])
        }
    }

    /// The node after `peer` reported that it holds everything up to `matched`.
    pub open spec fn acknowledge(self, peer: NodeId, matched: u64) -> NodeView {
        if matched > self.match_for(peer) {
            NodeView {
                match_index: self.match_index.insert(peer, matched),
                next_index: self.next_index.insert(peer, next_up(matched)),
                ..self
            }
        } else {
            self
        }
    }

    /// The entries that the leader makes of `commands`.
    pub open spec fn entries_for(self, commands: Seq<Seq<u8>>) -> Seq<LogEntryView> {
        Seq::new(
            commands.len(),
            |i: int| LogEntryView {
                index: acked_index(self.log.next_index(), i as nat),
                term: self.current_term,
                command: commands[i],
            },
        )
    }

    /// The leader's answer to client commands: append them all, make them
    /// durable, then send them out. Any other node names the leader it knows.
    pub open spec fn append_and_replicate(self, commands: Seq<Seq<u8>>) -> (
        NodeView,
        Seq<ActionView>,
    ) {
        if self.state != RaftState::Leader {
            (self, seq![ActionView::RedirectLeader { leader_hint: self.leader_id }])
        } else {
            let entries = self.entries_for(commands);
            let node = NodeView { log: self.log.extend(entries), ..self };
            (
                node,
                seq![ActionView::PersistLog { truncate_from: None, entries }] + node.broadcast(),
            )
        }
    }
}

/// The commit index of a follower whose log ends at `last` and whose leader tells
/// of `leader_commit`. It never falls.
pub open spec fn told_commit(commit: u64, leader_commit: u64, last: u64) -> u64 {
    max_u64(commit, min_u64(leader_commit, last))
}

/// The index `count` above `prev`, or the largest.
pub open spec fn acked_index(prev: u64, count: nat) -> u64 {
    if prev + count <= u64::MAX {
        (prev + count) as u64
    } else {
        u64::MAX
    }
}

pub open spec fn append_reply(
    to: NodeId,
    term: u64,
    success: bool,
    match_index: u64,
) -> ActionView {
    ActionView::Send {
        to,
        rpc: RpcView::AppendEntriesResponse(AppendEntriesResponse { term, success, match_index }),
    }
}

/// What a list of commands holds, in order.
pub open spec fn commands_view(commands: Seq<Vec<u8>>) -> Seq<Seq<u8>> {
    Seq::new(commands.len(), |i: int| commands[i]@)
}

/// One more element of a filtered prefix.
pub proof fn lemma_others_step(peers: Seq<NodeId>, id: NodeId, i: int)
    requires
        0 <= i < peers.len(),
    ensures
        others_of(peers.take(i + 1), id) == if peers[i] != id {
            others_of(peers.take(i), id).push(peers[i])
        } else {
            others_of(peers.take(i), id)
        },
        others_of(peers.take(0), id) == Seq::<NodeId>::empty(),
{
    reveal(Seq::filter);
    assert(peers.take(i + 1).drop_last() =~= peers.take(i));
}

/// How many of `peers` are not `id`.
pub fn count_others(peers: &Vec<NodeId>, id: NodeId) -> (r: usize)
    ensures
        r == others_of(peers@, id).len(),
        r <= peers@.len(),
{
    let mut count: usize = 0;
    let mut i: usize = 0;
    proof {
        reveal(Seq::filter);
    }
    while i < peers.len()
        invariant
            i <= peers@.len(),
            count == others_of(peers@.take(i as int), id).len(),
            count <= i,
        decreases peers@.len() - i,
    {
        proof {
            lemma_others_step(peers@, id, i as int);
        }
        if peers[i] != id {
            count += 1;
        }
        i += 1;
    }
    assert(peers@.take(i as int) =~= peers@);
    count
}

/// Handles an incoming AppendEntries RPC (including empty heartbeats).
///
/// Enforces the log consistency check (§5.3): accept only when the follower
/// holds `prev_log_index`/`prev_log_term`. Conflicting suffixes are replaced;
/// already-matching (stale/duplicate) batches are a no-op. What changed in the
/// log is made durable before the reply that depends on it.
pub fn handle_append_entries_request(
    node: &mut RaftNode,
    from: NodeId,
    req: AppendEntriesRequest,
) -> (r: Vec<ElectionAction>)
    ensures
        (final(node)@, actions_view(r@)) == old(node)@.handle_append_entries_request(from, req@),
{
    let mut actions: Vec<ElectionAction> = Vec::new();
    let ghost n0 = node@;
    if req.term > node.current_term {
        become_follower(node, req.term);
        actions.push(ElectionAction::DemoteFollower);
        actions.push(persist_hard_state(node));
    }
    let ghost n1 = node@;
    assert(n1 == n0.adopt_term(req.term).0);
    assert(actions_view(actions@) =~= n0.adopt_term(req.term).1);
    if req.term < node.current_term {
        actions.push(append_entries_reply(from, node.current_term, false, 0));
        assert(actions_view(actions@) =~= n0.handle_append_entries_request(from, req@).1);
        return actions;
    }
    // Same (or newly adopted) term: accept leader authority.

    if node.state != RaftState::Follower {
        node.state = RaftState::Follower;
        actions.push(ElectionAction::DemoteFollower);
    }
    node.leader_id = Some(req.leader_id);
    node.election.reset();
    let ghost effects = n0.adopt_term(req.term).1 + n1.demotion();
    assert(node@ =~= n1.follow(req.leader_id));
    assert(actions_view(actions@) =~= effects);
    // Consistency check: missing or mismatched prev entry → reject, no truncate.
    if !node.log.contains(req.prev_log_index, req.prev_log_term) {
        actions.push(append_entries_reply(from, node.current_term, false, 0));
        assert(actions_view(actions@) =~= n0.handle_append_entries_request(from, req@).1);
        return actions;
    }
    // The merge validates contiguity first, then truncates only at the first
    // conflicting index (exact-match prefix is retained / no-op).

    let ghost n2 = node@;
    let outcome = match node.log.append_from_leader(req.entries.as_slice()) {
        Ok(outcome) => outcome,
        Err(_) => {
            actions.push(append_entries_reply(from, node.current_term, false, 0));
            assert(actions_view(actions@) =~= n0.handle_append_entries_request(from, req@).1);
            assert(node@ =~= n0.handle_append_entries_request(from, req@).0);
            return actions;
        },
    };
    let ghost out = outcome@;
    assert(node@ =~= NodeView { log: node@.log, ..n2 });
    if !outcome.is_empty() {
        actions.push(
            ElectionAction::PersistLog {
                truncate_from: outcome.truncated_from,
                entries: outcome.appended,
            },
        );
    }
    let ghost persist = if out.is_empty() {
        Seq::empty()
    } else {
        seq![ActionView::PersistLog { truncate_from: out.truncated_from, entries: out.appended }]
    };
    assert(actions_view(actions@) =~= effects + persist);
    // Paper step 5: advance commitIndex from leaderCommit (apply is separate).
    let last: u64 = node.log.last_index();
    let told: u64 = if req.leader_commit <= last {
        req.leader_commit
    } else {
        last
    };
    if told > node.commit_index {
        node.commit_index = told;
    }
    // §5.3 apply rule: emit Apply for each newly committed index, in order.

    let mut applies = apply_committed(node);
    let ghost applied = actions_view(applies@);
    let ghost sofar = actions@;
    actions.append(&mut applies);
    assert(actions_view(actions@) =~= effects + persist + applied);
    let ack: u64 = req.prev_log_index.saturating_add(req.entries.len() as u64);
    actions.push(append_entries_reply(from, node.current_term, true, ack));
    assert(actions_view(actions@) =~= n0.handle_append_entries_request(from, req@).1);
    actions
}

/// Handles an AppendEntries response on the leader.
///
/// `match_index` is pessimistic evidence: advanced only on an acknowledged
/// match, never speculatively. `next_index` is optimistic: initialised to the
/// leader's log tail and walked back on rejection until the follower's common
/// prefix is found, then streamed forward entry-by-entry.
pub fn handle_append_entries_response(
    node: &mut RaftNode,
    from: NodeId,
    resp: AppendEntriesResponse,
) -> (r: Vec<ElectionAction>)
    ensures
        (final(node)@, actions_view(r@)) == old(node)@.handle_append_entries_response(from, resp),
{
    let mut actions: Vec<ElectionAction> = Vec::new();
    let ghost n0 = node@;
    if resp.term > node.current_term {
        become_follower(node, resp.term);
        actions.push(ElectionAction::DemoteFollower);
        actions.push(persist_hard_state(node));
        assert(actions_view(actions@) =~= n0.adopt_term(resp.term).1);
        return actions;
    }
    if node.state != RaftState::Leader || resp.term < node.current_term {
        assert(actions_view(actions@) =~= Seq::empty());
        return actions;
    }
    if resp.success {
        acknowledge(node, from, resp.match_index);
        // §5.3 / §5.4.2: commit the highest index replicated on a majority,
        // but only if that entry was created in the leader's current term.
        maybe_advance_commit_index(node);
        // Apply is separate from commit: drain last_applied..commit_index.
        return apply_committed(node);
    }
    // Rejected: step next_index back one and retry immediately.
    // Floor at start_index so a compacted log never sends an impossible prev.

    let current_next: u64 = next_index_for(node, from);
    let start: u64 = node.log.start_index();
    let back: u64 = current_next.saturating_sub(1);
    let new_next: u64 = if back >= start {
        back
    } else {
        start
    };
    node.next_index.insert(from, new_next);
    assert(node@ =~= n0.handle_append_entries_response(from, resp).0);
    actions.push(send_append_entries(node, from));
    assert(actions_view(actions@) =~= n0.handle_append_entries_response(from, resp).1);
    actions
}

/// Records that `peer` holds everything up to `matched`, as it reported: the
/// leader's own tail says nothing of what the peer holds. A stale reply never
/// moves the record backwards.
pub fn acknowledge(node: &mut RaftNode, peer: NodeId, matched: u64)
    ensures
        final(node)@ == old(node)@.acknowledge(peer, matched),
{
    let ghost n0 = node@;
    let prev_match: u64 = match node.match_index.get(&peer) {
        Some(index) => *index,
        None => 0,
    };
    if matched > prev_match {
        node.match_index.insert(peer, matched);
        node.next_index.insert(peer, matched.saturating_add(1));
    }
    assert(node@ =~= n0.acknowledge(peer, matched));
}

/// Appends a client command on the leader and replicates to all peers.
pub fn append_and_replicate(node: &mut RaftNode, command: Vec<u8>) -> (r: Vec<ElectionAction>)
    ensures
        (final(node)@, actions_view(r@)) == old(node)@.append_and_replicate(seq![command@]),
{
    let ghost bytes = command@;
    let mut commands: Vec<Vec<u8>> = Vec::new();
    commands.push(command);
    assert(commands_view(commands@) =~= seq![bytes]);
    append_all_and_replicate(node, commands)
}

/// Appends client commands on the leader and replicates them to all peers.
///
/// The new entries are durable before any AppendEntries carrying them leaves,
/// and the whole batch shares one write.
pub fn append_all_and_replicate(node: &mut RaftNode, commands: Vec<Vec<u8>>) -> (r: Vec<
    ElectionAction,
>)
    ensures
        (final(node)@, actions_view(r@)) == old(node)@.append_and_replicate(
            commands_view(commands@),
        ),
{
    let ghost n0 = node@;
    let ghost all = commands_view(commands@);
    let mut actions: Vec<ElectionAction> = Vec::new();
    if node.state != RaftState::Leader {
        actions.push(ElectionAction::RedirectLeader { leader_hint: node.leader_id });
        assert(actions_view(actions@) =~= n0.append_and_replicate(all).1);
        return actions;
    }
    let mut entries: Vec<LogEntry> = Vec::new();
    let mut i: usize = 0;
    while i < commands.len()
        invariant
            i <= commands@.len(),
            all == commands_view(commands@),
            entries_view(entries@) =~= n0.entries_for(all).take(i as int),
            node@ == (NodeView { log: n0.log.extend(entries_view(entries@)), ..n0 }),
        decreases commands@.len() - i,
    {
        let entry = LogEntry::new(
            node.log.next_index(),
            node.current_term,
            copy_bytes(&commands[i]),
        );
        let ghost held = entries@;
        let ghost log = node@.log;
        proof {
            if i > 0 {
                assert(n0.entries_for(all).take(i as int)[i - 1] == n0.entries_for(all)[i - 1]);
            }
            assert(log.next_index() == acked_index(n0.log.next_index(), i as nat));
        }
        let appended = node.log.append(entry.clone());
        entries.push(entry);
        i += 1;
        proof {
            assert(entry@ == n0.entries_for(all)[i - 1]);
            assert(entries_view(entries@) =~= entries_view(held).push(entry@));
            assert(node@.log =~= n0.log.extend(entries_view(entries@)));
            assert(node@ =~= NodeView { log: n0.log.extend(entries_view(entries@)), ..n0 });
        }
    }
    assert(entries_view(entries@) =~= n0.entries_for(all));
    actions.push(ElectionAction::PersistLog { truncate_from: None, entries });
    let mut sends = broadcast_append_entries(node);
    let ghost broadcast = actions_view(sends@);
    actions.append(&mut sends);
    assert(actions_view(actions@) =~= n0.append_and_replicate(all).1);
    actions
}

/// Builds one Send for every peer from the leader's `next_index`: AppendEntries, or
/// InstallSnapshot where the log was compacted past that index.
pub fn broadcast_append_entries(node: &RaftNode) -> (r: Vec<ElectionAction>)
    ensures
        actions_view(r@) == node@.broadcast(),
{
    let mut actions: Vec<ElectionAction> = Vec::new();
    let mut i: usize = 0;
    let ghost f = |peer: NodeId| node@.send_update(peer);
    proof {
        reveal(Seq::filter);
    }
    while i < node.peers.len()
        invariant
            i <= node.peers@.len(),
            f == (|peer: NodeId| node@.send_update(peer)),
            actions_view(actions@) =~= others_of(node.peers@.take(i as int), node.id).map_values(f),
        decreases node.peers@.len() - i,
    {
        proof {
            lemma_others_step(node.peers@, node.id, i as int);
        }
        let peer: NodeId = node.peers[i];
        if peer != node.id {
            let ghost held = actions@;
            let action = send_update(node, peer);
            actions.push(action);
            assert(actions_view(actions@) =~= actions_view(held).push(action@));
        }
        i += 1;
    }
    assert(node.peers@.take(i as int) =~= node.peers@);
    actions
}

/// Periodic leader probes. Uses the same per-follower `next_index` path as
/// replication so a "heartbeat" to a lagging follower still carries entries.
/// Caught-up followers receive the empty-entry form.
pub fn heartbeat_actions(node: &RaftNode) -> (r: Vec<ElectionAction>)
    ensures
        actions_view(r@) == node@.broadcast(),
{
    broadcast_append_entries(node)
}

/// Builds the message that brings `to` up to date. A follower whose next index
/// lies at or below the compacted boundary gets the snapshot: no AppendEntries
/// could name a previous entry there.
fn send_update(node: &RaftNode, to: NodeId) -> (r: ElectionAction)
    ensures
        r@ == node@.send_update(to),
{
    if next_index_for(node, to) <= node.log.last_included_index() {
        let mut install = snapshot::send_install_snapshot(node, to);
        let ghost sent = actions_view(install@);
        assert(sent.len() == install@.len());
        match install.pop() {
            Some(action) => {
                assert(action@ == sent[0]);
                return action;
            },
            None => {},
        }
    }
    send_append_entries(node, to)
}

/// Builds the AppendEntries that brings `to` up to date.
pub fn send_append_entries(node: &RaftNode, to: NodeId) -> (r: ElectionAction)
    ensures
        r@ == node@.send_append_entries(to),
{
    let wanted: u64 = next_index_for(node, to);
    let next: u64 = if wanted < node.log.start_index() {
        node.log.start_index()
    } else {
        wanted
    };
    let prev: u64 = next.saturating_sub(1);
    let prev_log_term: u64 = match node.log.term_at(prev) {
        Ok(term) => term,
        Err(_) => 0,
    };
    ElectionAction::Send {
        to,
        rpc: RaftRpc::AppendEntries(
            AppendEntriesRequest {
                term: node.current_term,
                leader_id: node.id,
                prev_log_index: prev,
                prev_log_term,
                entries: node.log.entries_from(next),
                leader_commit: node.commit_index,
            },
        ),
    }
}

fn next_index_for(node: &RaftNode, peer: NodeId) -> (r: u64)
    ensures
        r == node@.next_for(peer),
{
    match node.next_index.get(&peer) {
        Some(index) => *index,
        None => node.log.next_index(),
    }
}

/// §5.3 state-machine apply rule.
///
/// Whenever `commit_index` advances (leader quorum or follower `leaderCommit`),
/// emit one [`ElectionAction::ApplyCommittedEntries`] per index in
/// `(last_applied, commit_index]`, then bump `last_applied`. Never skips, never
/// repeats: `last_applied` is the exclusive high-water mark of applied entries.
pub fn apply_committed(node: &mut RaftNode) -> (r: Vec<ElectionAction>)
    ensures
        (final(node)@, actions_view(r@)) == old(node)@.apply_committed(),
{
    let mut actions: Vec<ElectionAction> = Vec::new();
    let ghost n0 = node@;
    assert(actions_view(actions@) + node@.apply_committed().1 =~= n0.apply_committed().1);
    while node.last_applied < node.commit_index
        invariant
            n0 == old(node)@,
            n0.apply_committed().0 == node@.apply_committed().0,
            n0.apply_committed().1 == actions_view(actions@) + node@.apply_committed().1,
        ensures
            node@.apply_committed() == (node@, Seq::<ActionView>::empty()),
        decreases u64::MAX - node.last_applied,
    {
        let ghost before = node@;
        let ghost held = actions_view(actions@);
        let next: u64 = node.last_applied.saturating_add(1);
        let entry = match node.log.entry(next) {
            Ok(entry) => entry.clone(),
            Err(_) => {
                // commit_index should never point past a missing/compacted entry;
                // stop rather than inventing an apply.
                break ;
            },
        };
        let ghost applied = entry@;
        actions.push(ElectionAction::ApplyCommittedEntries { entry });
        node.last_applied = next;
        proof {
            let action = ActionView::ApplyCommittedEntries { entry: applied };
            assert(node@ =~= NodeView { last_applied: next, ..before });
            assert(actions_view(actions@) =~= held.push(action));
            assert(held + before.apply_committed().1 =~= held.push(action)
                + node@.apply_committed().1);
        }
    }
    assert(actions_view(actions@) + Seq::<ActionView>::empty() =~= actions_view(actions@));
    actions
}

fn append_entries_reply(to: NodeId, term: u64, success: bool, match_index: u64) -> (r:
    ElectionAction)
    ensures
        r@ == append_reply(to, term, success, match_index),
{
    ElectionAction::Send {
        to,
        rpc: RaftRpc::AppendEntriesResponse(AppendEntriesResponse { term, success, match_index }),
    }
}

/// Leader §5.3 / §5.4.2 commit rule.
///
/// 1. Build a vector of every replica's matched index, treating the leader as
///    matched through `log.last_index()` (it holds its own log).
/// 2. The majority index is the largest that at least a quorum of them reach.
/// 3. Advance `commit_index` to that N **only if** `log[N].term == current_term`.
///    Previous-term entries become committed only indirectly once a current-term
///    entry is committed (Figure 8).
pub fn maybe_advance_commit_index(node: &mut RaftNode)
    ensures
        final(node)@ == (NodeView { commit_index: old(node)@.advanced_commit(), ..old(node)@ }),
{
    let ghost n0 = node@;
    let quorum: usize = majority(count_others(&node.peers, node.id));
    let matches = matched_indices(node);
    let n: u64 = quorum_index(&matches, quorum);
    if n <= node.commit_index {
        return;
    }
    // Figure 8 / §5.4.2: never commit a previous-term entry by majority alone.

    if node.log.contains(n, node.current_term) {
        node.commit_index = n;
    }
    assert(node@ =~= NodeView { commit_index: n0.advanced_commit(), ..n0 });
}

/// The smallest majority of `others` nodes and one more.
pub fn majority(others: usize) -> (r: usize)
    ensures
        r == (1 + others) / 2 + 1,
{
    others / 2 + others % 2 + 1
}

fn matched_indices(node: &RaftNode) -> (r: Vec<u64>)
    ensures
        r@ == node@.matched(),
{
    let mut matches: Vec<u64> = Vec::new();
    let mut i: usize = 0;
    let ghost f = |peer: NodeId| node@.match_for(peer);
    proof {
        reveal(Seq::filter);
    }
    while i < node.peers.len()
        invariant
            i <= node.peers@.len(),
            f == (|peer: NodeId| node@.match_for(peer)),
            matches@ =~= others_of(node.peers@.take(i as int), node.id).map_values(f),
        decreases node.peers@.len() - i,
    {
        proof {
            lemma_others_step(node.peers@, node.id, i as int);
        }
        let peer: NodeId = node.peers[i];
        if peer != node.id {
            let matched: u64 = match node.match_index.get(&peer) {
                Some(index) => *index,
                None => 0,
            };
            matches.push(matched);
        }
        i += 1;
    }
    assert(node.peers@.take(i as int) =~= node.peers@);
    // The leader always "matches" its own last index.
    matches.push(node.log.last_index());
    matches
}

/// How many elements are at least `n`.
fn count_reaching(matches: &Vec<u64>, n: u64) -> (r: usize)
    ensures
        r == count_at_least(matches@, n),
{
    let mut count: usize = 0;
    let mut i: usize = 0;
    proof {
        reveal(Seq::filter);
    }
    while i < matches.len()
        invariant
            i <= matches@.len(),
            count == count_at_least(matches@.take(i as int), n),
            count <= i,
        decreases matches@.len() - i,
    {
        proof {
            reveal(Seq::filter);
            assert(matches@.take(i + 1).drop_last() =~= matches@.take(i as int));
        }
        if matches[i] >= n {
            count += 1;
        }
        i += 1;
    }
    assert(matches@.take(i as int) =~= matches@);
    count
}

/// The largest element that at least `quorum` elements reach.
pub fn quorum_index(matches: &Vec<u64>, quorum: usize) -> (r: u64)
    requires
        0 < quorum <= matches@.len(),
    ensures
        is_reached_by(matches@, quorum as nat, r),
        r == reached_by(matches@, quorum as nat),
{
    let mut best: Option<u64> = None;
    let mut smallest: u64 = matches[0];
    let mut i: usize = 0;
    while i < matches.len()
        invariant
            0 < quorum <= matches@.len(),
            i <= matches@.len(),
            matches@.contains(smallest),
            forall|j: int| 0 <= j < i ==> matches@[j] >= smallest,
            match best {
                Some(b) => matches@.contains(b) && count_at_least(matches@, b) >= quorum
                    && forall|j: int|
                    0 <= j < i && #[trigger] matches@[j] > b ==> count_at_least(
                        matches@,
                        matches@[j],
                    ) < quorum,
                None => forall|j: int|
                    0 <= j < i ==> count_at_least(matches@, #[trigger] matches@[j]) < quorum,
            },
        decreases matches@.len() - i,
    {
        let candidate: u64 = matches[i];
        assert(matches@.contains(candidate));
        if candidate < smallest {
            smallest = candidate;
        }
        if count_reaching(matches, candidate) >= quorum {
            match best {
                Some(b) => {
                    if candidate > b {
                        best = Some(candidate);
                    }
                },
                None => {
                    best = Some(candidate);
                },
            }
        }
        i += 1;
    }
    proof {
        lemma_count_all(matches@, smallest);
    }
    match best {
        Some(b) => {
            proof {
                lemma_reached_by_unique(matches@, quorum as nat, b);
            }
            b
        },
        None => {
            assert(false);
            smallest
        },
    }
}

} // verus!
