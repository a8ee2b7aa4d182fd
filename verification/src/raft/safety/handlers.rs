//! What a node does on each input, as steps of the protocol.

use vstd::prelude::*;

use crate::config::NodeId;
use crate::raft::driver::InputView;
use crate::raft::election::{log_up_to_date, ActionView};
use crate::raft::log::{max_u64, next_down, next_up, LogEntryView, RaftLogView};
use crate::raft::replication::{acked_index, count_at_least, is_reached_by, others_of, reached_by, told_commit};
use crate::raft::safety::consistency::{
    commit_ok, election_ok, holds, lemma_agree_less, lemma_election, node_ok, note_ok, record_ok,
};
use crate::raft::safety::protocol::{agree, fits, Core, Note, Step, System};
use crate::raft::safety::refinement::{
    action_ok, actions_ok, leads_to, lemma_actions_ok_stay, lemma_leads_on, lemma_node_log,
    lemma_one_step, lemma_rpc_ok_stays, lemma_shows, lemma_shows_merged, mirrors, offer_in, rpc_ok,
    shows, tracks, whole,
};
use crate::raft::safety::steps::{lemma_committed_entries_stay, lemma_merged, lemma_same_term};
use crate::raft::snapshot::{SnapshotMeta, SnapshotView};
use crate::raft::state::RaftState;
use crate::raft::storage::RecoveredView;
use crate::raft::{
    catch_up_all, AppendEntriesResponse, AppendEntriesView, InstallSnapshotResponse,
    InstallSnapshotView, NodeView, RequestVoteRequest, RequestVoteResponse, RpcView,
};
use crate::rng::NodeRngView;

verus! {

/// The node `v` stands for `n` in a consistent cluster.
pub open spec fn stands(s: System, n: NodeId, v: NodeView) -> bool {
    &&& holds(s)
    &&& s.members.contains(n)
    &&& mirrors(s.members, n, s.nodes[n], v)
}

proof fn lemma_stays(s: System, n: NodeId)
    requires
        holds(s),
    ensures
        leads_to(s, s, n),
{
    assert forall|k: nat| commit_ok(
        s.record,
        s.members,
        s.nodes[n].log,
        k,
        s.nodes[n].term,
    ) implies #[trigger] agree(s.nodes[n].log, s.nodes[n].log, k) by {}
}

// ── Messages of a leader ────────────────────────────────────────────────────

proof fn lemma_send_append(s: System, n: NodeId, v: NodeView, p: NodeId) -> (s2: System)
    requires
        stands(s, n, v),
        v.state == RaftState::Leader,
        s.members.contains(p),
        p != n,
    ensures
        leads_to(s, s2, n),
        s2.nodes == s.nodes,
        action_ok(s2, n, v.send_append_entries(p)),
{
    let c = s.nodes[n];
    lemma_node_log(s, n);
    lemma_shows(c.log, v.log);
    assert(tracks(c, v, p));
    let next = max_u64(v.next_for(p), v.log.start_index);
    let prev = next_down(next);
    let m = v.append_entries_to(p);
    let count = (c.log.len() - prev) as nat;
    let step = Step::Offer { n, prev: prev as nat, count, commit: c.commit };
    lemma_one_step(s, step);
    let s2 = s.after(step);
    assert(v.log.entries_from(next) =~= c.log.subrange(prev as int, c.log.len() as int));
    assert(offer_in(n, m) == s.offer_of(n, prev as nat, count, c.commit));
    s2
}

/// Offering the snapshot.
proof fn lemma_send_snapshot(s: System, n: NodeId, v: NodeView, p: NodeId) -> (s2: System)
    requires
        stands(s, n, v),
        v.state == RaftState::Leader,
        s.members.contains(p),
        p != n,
    ensures
        leads_to(s, s2, n),
        s2.nodes == s.nodes,
        actions_ok(s2, n, v.send_install_snapshot(p)),
{
    let c = s.nodes[n];
    lemma_node_log(s, n);
    lemma_shows(c.log, v.log);
    match v.snapshot {
        None => {
            lemma_stays(s, n);
            s
        },
        Some(snapshot) => {
            let index = snapshot.meta.last_included_index as nat;
            let step = Step::Offer { n, prev: 0, count: index, commit: index };
            lemma_one_step(s, step);
            let s2 = s.after(step);
            let entries = c.log.subrange(0, index as int);
            assert(s2.notes.contains(whole(n, c.term, entries)));
            assert(entries.last().term == snapshot.meta.last_included_term);
            s2
        },
    }
}

/// Bringing a member up to date.
proof fn lemma_send_update(s: System, n: NodeId, v: NodeView, p: NodeId) -> (s2: System)
    requires
        stands(s, n, v),
        v.state == RaftState::Leader,
        s.members.contains(p),
        p != n,
    ensures
        leads_to(s, s2, n),
        s2.nodes == s.nodes,
        action_ok(s2, n, v.send_update(p)),
{
    if v.needs_snapshot(p) {
        let s2 = lemma_send_snapshot(s, n, v, p);
        assert(action_ok(s2, n, v.send_install_snapshot(p)[0]));
        s2
    } else {
        lemma_send_append(s, n, v, p)
    }
}

proof fn lemma_broadcast(s: System, n: NodeId, v: NodeView, k: nat) -> (s2: System)
    requires
        stands(s, n, v),
        v.state == RaftState::Leader,
        k <= v.others().len(),
    ensures
        leads_to(s, s2, n),
        s2.nodes == s.nodes,
        forall|i: int| 0 <= i < k ==> action_ok(s2, n, #[trigger] v.broadcast()[i]),
    decreases k,
{
    if k == 0 {
        lemma_stays(s, n);
        s
    } else {
        assert(v.others().contains(v.others()[k - 1]));
        let s1 = lemma_broadcast(s, n, v, (k - 1) as nat);
        let p = v.others()[k - 1];
        assert(v.others().contains(p));
        let s2 = lemma_send_update(s1, n, v, p);
        assert forall|i: int| 0 <= i < k implies action_ok(s2, n, #[trigger] v.broadcast()[i]) by {
            let to = v.others()[i];
            assert(v.broadcast()[i] == v.send_update(to));
            if i < k - 1 {
                assert(action_ok(s1, n, v.broadcast()[i]));
                let rpc = v.send_update(to)->Send_rpc;
                assert(v.send_update(to) == ActionView::Send { to, rpc });
                lemma_rpc_ok_stays(s1, s2, n, n, to, rpc);
            }
        }
        lemma_leads_on(s, s1, s2, n);
        s2
    }
}

proof fn lemma_catch_up(s: System, n: NodeId, v: NodeView, p: NodeId) -> (s2: System)
    requires
        stands(s, n, v),
        v.state == RaftState::Leader,
        s.members.contains(p),
        p != n,
    ensures
        leads_to(s, s2, n),
        s2.nodes == s.nodes,
        actions_ok(s2, n, v.catch_up(p)),
{
    let c = s.nodes[n];
    lemma_node_log(s, n);
    lemma_shows(c.log, v.log);
    assert(tracks(c, v, p));
    let next = v.next_index[p];
    if next <= v.log.last_included_index() {
        lemma_send_snapshot(s, n, v, p)
    } else if v.log.last_index() >= next {
        lemma_send_append(s, n, v, p)
    } else {
        lemma_stays(s, n);
        s
    }
}

proof fn lemma_catch_up_all(s: System, n: NodeId, v: NodeView, peers: Seq<NodeId>) -> (s2: System)
    requires
        stands(s, n, v),
        v.state == RaftState::Leader,
        forall|i: int|
            0 <= i < peers.len() ==> s.members.contains(#[trigger] peers[i]) && peers[i] != n,
    ensures
        leads_to(s, s2, n),
        s2.nodes == s.nodes,
        actions_ok(s2, n, catch_up_all(v, peers)),
    decreases peers.len(),
{
    if peers.len() == 0 {
        lemma_stays(s, n);
        s
    } else {
        let s1 = lemma_catch_up_all(s, n, v, peers.drop_last());
        let s2 = lemma_catch_up(s1, n, v, peers.last());
        lemma_actions_ok_stay(s1, s2, n, catch_up_all(v, peers.drop_last()));
        lemma_leads_on(s, s1, s2, n);
        s2
    }
}

// ── Small transitions ───────────────────────────────────────────────────────

/// Handing committed entries to the state machine.
proof fn lemma_apply_committed(s: System, n: NodeId, v: NodeView) -> (s2: System)
    requires
        stands(s, n, v),
    ensures
        leads_to(s, s2, n),
        s2.nodes == s.nodes,
        mirrors(s2.members, n, s2.nodes[n], v.apply_committed().0),
        actions_ok(s2, n, v.apply_committed().1),
    decreases u64::MAX - v.last_applied,
{
    let c = s.nodes[n];
    let next = next_up(v.last_applied);
    lemma_node_log(s, n);
    lemma_shows(c.log, v.log);
    if v.last_applied < v.commit_index && v.log.holds(next) {
        let step = Step::Apply { n, index: next as nat };
        lemma_one_step(s, step);
        let s1 = s.after(step);
        let v1 = NodeView { last_applied: next, ..v };
        assert(mirrors(s1.members, n, s1.nodes[n], v1)) by {
            lemma_same_tracking(c, v, c, v1);
        }
        let s2 = lemma_apply_committed(s1, n, v1);
        assert(s1.record.applied.contains(v.log.entry(next)));
        assert(s2.record.applied.contains(v.log.entry(next)));
        lemma_leads_on(s, s1, s2, n);
        let rest = v1.apply_committed().1;
        let first = ActionView::ApplyCommittedEntries { entry: v.log.entry(next) };
        assert(actions_ok(s2, n, seq![first] + rest)) by {
            assert forall|i: int| 0 <= i < (seq![first] + rest).len() implies action_ok(
                s2,
                n,
                #[trigger] (seq![first] + rest)[i],
            ) by {
                if i > 0 {
                    assert((seq![first] + rest)[i] == rest[i - 1]);
                }
            }
        }
        s2
    } else {
        lemma_stays(s, n);
        s
    }
}

/// Whom a node knows, and what of each, rests on its indices alone.
proof fn lemma_same_tracking(c: Core, v: NodeView, d: Core, w: NodeView)
    requires
        w.next_index == v.next_index,
        w.match_index == v.match_index,
        w.peers == v.peers,
        w.id == v.id,
        c.matched == d.matched,
        c.log.len() == d.log.len(),
    ensures
        forall|p: NodeId| tracks(c, v, p) == #[trigger] tracks(d, w, p),
        w.others() == v.others(),
        forall|members: Set<NodeId>| v.knows(members) == #[trigger] w.knows(members),
{
}

/// Entering a higher term.
proof fn lemma_adopt_term(s: System, n: NodeId, v: NodeView, term: u64) -> (s2: System)
    requires
        stands(s, n, v),
    ensures
        leads_to(s, s2, n),
        mirrors(s2.members, n, s2.nodes[n], v.adopt_term(term).0),
        actions_ok(s2, n, v.adopt_term(term).1),
        s2.nodes[n].log == s.nodes[n].log,
{
    if term > v.current_term {
        let step = Step::Adopt { n, term };
        lemma_one_step(s, step);
        s.after(step)
    } else {
        lemma_stays(s, n);
        s
    }
}

/// Following a leader.
proof fn lemma_follow(s: System, n: NodeId, v: NodeView, leader: NodeId) -> (s2: System)
    requires
        stands(s, n, v),
    ensures
        leads_to(s, s2, n),
        mirrors(s2.members, n, s2.nodes[n], v.follow(leader)),
        s2.nodes[n] == (Core { role: RaftState::Follower, ..s.nodes[n] }),
        s2.record == s.record,
        s2.notes == s.notes,
{
    let step = Step::StepDown { n };
    lemma_one_step(s, step);
    s.after(step)
}

/// How many members there are.
proof fn lemma_member_count(v: NodeView, members: Set<NodeId>)
    requires
        v.knows(members),
        members.finite(),
        members.contains(v.id),
    ensures
        members.len() == v.others().len() + 1,
{
    let others = v.others();
    others.unique_seq_to_set();
    assert(others.to_set() =~= members.remove(v.id));
}

// ── Elections ───────────────────────────────────────────────────────────────

/// Taking the lead.
proof fn lemma_become_leader(s: System, n: NodeId, v: NodeView) -> (s2: System)
    requires
        stands(s, n, v),
        v.state == RaftState::Candidate,
        v.has_won(),
        v.log.last_index() + 1 < u64::MAX,
    ensures
        leads_to(s, s2, n),
        mirrors(s2.members, n, s2.nodes[n], v.become_leader().0),
        actions_ok(s2, n, v.become_leader().1),
{
    let c = s.nodes[n];
    lemma_node_log(s, n);
    lemma_shows(c.log, v.log);
    lemma_member_count(v, s.members);
    let lead = Step::Lead { n };
    lemma_one_step(s, lead);
    let s1 = s.after(lead);
    let append = Step::Append { n, command: Seq::empty() };
    lemma_one_step(s1, append);
    let s2 = s1.after(append);
    lemma_leads_on(s, s1, s2, n);
    let d = s2.nodes[n];
    let w = v.become_leader().0;
    assert(d.log == c.log.push(v.noop()));
    assert(w.log.entries =~= d.log.skip(w.log.start_index - 1));
    assert(w.others() == v.others());
    assert(w.knows(s.members));
    assert forall|p: NodeId| s.members.contains(p) && p != n implies #[trigger] tracks(
        d,
        w,
        p,
    ) by {
        assert(v.others().contains(p));
        lemma_others_are_peers(v, p);
    }
    assert(mirrors(s2.members, n, d, w));
    let s3 = lemma_broadcast(s2, n, w, w.others().len());
    lemma_leads_on(s, s2, s3, n);
    let acts = v.become_leader().1;
    assert forall|i: int| 0 <= i < acts.len() implies action_ok(s3, n, #[trigger] acts[i]) by {
        if i >= 2 {
            assert(acts[i] == w.broadcast()[i - 2]);
        }
    }
    s3
}

proof fn lemma_others_of(peers: Seq<NodeId>, id: NodeId)
    ensures
        forall|p: NodeId| #[trigger] others_of(peers, id).contains(p) ==> peers.contains(p),
    decreases peers.len(),
{
    reveal(Seq::filter);
    if peers.len() > 0 {
        let before = peers.drop_last();
        lemma_others_of(before, id);
        assert forall|p: NodeId| #[trigger] others_of(peers, id).contains(p) implies peers.contains(
            p,
        ) by {
            let i = choose|i: int|
                0 <= i < others_of(peers, id).len() && others_of(peers, id)[i] == p;
            if i < others_of(before, id).len() {
                assert(others_of(before, id)[i] == p);
                assert(others_of(before, id).contains(p));
                let j = choose|j: int| 0 <= j < before.len() && before[j] == p;
                assert(peers[j] == p);
            } else {
                assert(peers.last() == p);
            }
        }
    }
}

pub proof fn lemma_others_are_peers(v: NodeView, p: NodeId)
    requires
        v.others().contains(p),
    ensures
        v.peers.contains(p),
{
    lemma_others_of(v.peers, v.id);
}

/// Standing for election.
proof fn lemma_start_election(s: System, n: NodeId, v: NodeView) -> (s2: System)
    requires
        stands(s, n, v),
        v.has_room(1),
    ensures
        leads_to(s, s2, n),
        mirrors(s2.members, n, s2.nodes[n], v.start_election().0),
        actions_ok(s2, n, v.start_election().1),
{
    let c = s.nodes[n];
    lemma_node_log(s, n);
    lemma_shows(c.log, v.log);
    let step = Step::Stand { n };
    lemma_one_step(s, step);
    let s1 = s.after(step);
    let w = v.candidacy();
    assert(w.others() == v.others());
    assert(w.knows(s.members));
    assert(mirrors(s1.members, n, s1.nodes[n], w));
    let first = seq![ActionView::Persist(w.hard_state())] + w.canvass();
    assert(actions_ok(s1, n, first)) by {
        assert forall|i: int| 0 <= i < first.len() implies action_ok(
            s1,
            n,
            #[trigger] first[i],
        ) by {
            if i >= 1 {
                assert(first[i] == w.canvass()[i - 1]);
                assert(w.others().contains(w.others()[i - 1]));
            }
        }
    }
    if w.has_won() {
        let s2 = lemma_become_leader(s1, n, w);
        lemma_actions_ok_stay(s1, s2, n, first);
        lemma_leads_on(s, s1, s2, n);
        s2
    } else {
        s1
    }
}

/// A request for a vote.
proof fn lemma_request_vote(
    s: System,
    n: NodeId,
    v: NodeView,
    from: NodeId,
    m: RequestVoteRequest,
) -> (s2: System)
    requires
        stands(s, n, v),
        rpc_ok(s, from, n, RpcView::RequestVote(m)),
    ensures
        leads_to(s, s2, n),
        mirrors(s2.members, n, s2.nodes[n], v.handle_request_vote_request(from, m).0),
        actions_ok(s2, n, v.handle_request_vote_request(from, m).1),
{
    let s1 = lemma_adopt_term(s, n, v, m.term);
    let w = v.adopt_term(m.term).0;
    let c = s1.nodes[n];
    lemma_node_log(s1, n);
    lemma_shows(c.log, w.log);
    let ask = Note::Ask {
        from,
        term: m.term,
        last_index: m.last_log_index as nat,
        last_term: m.last_log_term,
    };
    let r = v.handle_request_vote_request(from, m);
    if m.term >= w.current_term && w.may_vote_for(from) && log_up_to_date(
        m.last_log_term,
        m.last_log_index,
        w.log.last_term(),
        w.log.last_index(),
    ) {
        let step = Step::Vote { n, ask };
        lemma_one_step(s1, step);
        let s2 = s1.after(step);
        lemma_leads_on(s, s1, s2, n);
        lemma_same_tracking(c, w, s2.nodes[n], r.0);
        assert(mirrors(s2.members, n, s2.nodes[n], r.0));
        s2
    } else {
        s1
    }
}

/// The answer to a request for a vote.
proof fn lemma_request_vote_response(
    s: System,
    n: NodeId,
    v: NodeView,
    from: NodeId,
    m: RequestVoteResponse,
) -> (s2: System)
    requires
        stands(s, n, v),
        rpc_ok(s, from, n, RpcView::RequestVoteResponse(m)),
        v.has_room(1),
    ensures
        leads_to(s, s2, n),
        mirrors(s2.members, n, s2.nodes[n], v.handle_request_vote_response(from, m).0),
        actions_ok(s2, n, v.handle_request_vote_response(from, m).1),
{
    if m.term > v.current_term {
        lemma_adopt_term(s, n, v, m.term)
    } else if v.state == RaftState::Candidate && m.term == v.current_term && m.vote_granted {
        let step = Step::Count { n, from };
        lemma_one_step(s, step);
        let s1 = s.after(step);
        let w = v.with_vote(from);
        assert(mirrors(s1.members, n, s1.nodes[n], w));
        if w.has_won() {
            let s2 = lemma_become_leader(s1, n, w);
            lemma_leads_on(s, s1, s2, n);
            s2
        } else {
            s1
        }
    } else {
        lemma_stays(s, n);
        s
    }
}

impl NodeView {
    /// The follower with a leader's entries taken over, before it applies what
    /// is committed.
    spec fn taken_over(self, m: AppendEntriesView) -> NodeView {
        let log = self.log.append_from_leader(m.entries).0;
        NodeView {
            log,
            commit_index: told_commit(self.commit_index, m.leader_commit, log.last_index()),
            ..self
        }
    }
}

// ── Replication ─────────────────────────────────────────────────────────────

/// Taking over a leader's entries.
proof fn lemma_take_over(
    s: System,
    n: NodeId,
    v: NodeView,
    from: NodeId,
    m: AppendEntriesView,
) -> (s2: System)
    requires
        stands(s, n, v),
        from != n,
        v.state == RaftState::Follower,
        m.term == v.current_term,
        s.notes.contains(offer_in(from, m)),
        v.log.contains(m.prev_log_index, m.prev_log_term),
        v.log.append_from_leader(m.entries).1 is Ok,
    ensures
        leads_to(s, s2, n),
        mirrors(s2.members, n, s2.nodes[n], v.taken_over(m)),
        rpc_ok(
            s2,
            n,
            from,
            RpcView::AppendEntriesResponse(
                AppendEntriesResponse {
                    term: v.current_term,
                    success: true,
                    match_index: acked_index(m.prev_log_index, m.entries.len()),
                },
            ),
        ),
{
    let c = s.nodes[n];
    let prev = m.prev_log_index;
    let offer = offer_in(from, m);
    lemma_node_log(s, n);
    lemma_shows(c.log, v.log);
    lemma_offer_indexed(s, offer);
    lemma_shows_merged(c.log, v.log, prev, m.prev_log_term, m.entries);
    let step = Step::Accept { n, offer };
    lemma_one_step(s, step);
    lemma_committed_entries_stay(s, n, offer, c.commit);
    let s2 = s.after(step);
    let d = s2.nodes[n];
    lemma_node_log(s2, n);
    let w = v.taken_over(m);
    lemma_shows(d.log, w.log);
    assert(w.others() == v.others());
    assert(w.commit_index == d.commit);
    assert(shows(d.log, w.log));
    assert(w.last_applied <= w.commit_index);
    assert(w.knows(s.members));
    if let Some(snapshot) = v.snapshot {
        lemma_agree_less(c.log, d.log, c.commit, c.commit);
        assert(c.log[snapshot.meta.last_included_index - 1]
            == d.log[snapshot.meta.last_included_index - 1]);
    }
    s2
}

/// What is offered follows each other.
proof fn lemma_offer_indexed(s: System, offer: Note)
    requires
        holds(s),
        s.notes.contains(offer),
        offer is Offer,
    ensures
        offer->prev + offer->entries.len() < u64::MAX,
        forall|j: int|
            0 <= j < offer->entries.len() ==> (#[trigger] offer->entries[j]).index == offer->prev
                + j + 1,
        note_ok(s.record, s.members, offer),
        election_ok(s.record, s.members, offer->Offer_term),
{
    assert(note_ok(s.record, s.members, offer));
    let t = offer->Offer_term;
    lemma_election(s.record, s.members, t);
    let log = s.record.leader_logs[t];
    assert forall|j: int| 0 <= j < offer->entries.len() implies (
    #[trigger] offer->entries[j]).index == offer->prev + j + 1 by {
        assert(offer->entries[j] == log[offer->prev + j]);
    }
}

/// Entries from a leader.
proof fn lemma_append_entries(
    s: System,
    n: NodeId,
    v: NodeView,
    from: NodeId,
    m: AppendEntriesView,
) -> (s2: System)
    requires
        stands(s, n, v),
        rpc_ok(s, from, n, RpcView::AppendEntries(m)),
    ensures
        leads_to(s, s2, n),
        mirrors(s2.members, n, s2.nodes[n], v.handle_append_entries_request(from, m).0),
        actions_ok(s2, n, v.handle_append_entries_request(from, m).1),
{
    let s1 = lemma_adopt_term(s, n, v, m.term);
    let adopted = v.adopt_term(m.term).0;
    if m.term < adopted.current_term {
        s1
    } else {
        let s2 = lemma_follow(s1, n, adopted, m.leader_id);
        lemma_leads_on(s, s1, s2, n);
        let w = adopted.follow(m.leader_id);
        let c = s2.nodes[n];
        lemma_node_log(s2, n);
        lemma_shows(c.log, w.log);
        let effects = v.adopt_term(m.term).1 + adopted.demotion();
        assert(actions_ok(s2, n, effects));
        if !w.log.contains(m.prev_log_index, m.prev_log_term) {
            s2
        } else {
            let offer = offer_in(from, m);
            assert(fits(c.log, m.prev_log_index as nat, m.prev_log_term));
            assert(s2.notes.contains(offer));
            lemma_offer_indexed(s2, offer);
            lemma_shows_merged(c.log, w.log, m.prev_log_index, m.prev_log_term, m.entries);
            if w.log.append_from_leader(m.entries).1 is Err {
                s2
            } else {
                let s3 = lemma_take_over(s2, n, w, from, m);
                lemma_leads_on(s, s2, s3, n);
                let s4 = lemma_apply_committed(s3, n, w.taken_over(m));
                lemma_leads_on(s, s3, s4, n);
                s4
            }
        }
    }
}

/// Counting how many hold an index counts members.
pub proof fn lemma_count_holders(ids: Seq<NodeId>, v: NodeView, x: u64)
    requires
        ids.no_duplicates(),
    ensures
        ids.to_set().filter(|p: NodeId| v.match_for(p) >= x).finite(),
        count_at_least(ids.map_values(|p: NodeId| v.match_for(p)), x) == ids.to_set().filter(
            |p: NodeId| v.match_for(p) >= x,
        ).len(),
    decreases ids.len(),
{
    reveal(Seq::filter);
    let f = |p: NodeId| v.match_for(p);
    let reaches = |p: NodeId| v.match_for(p) >= x;
    let some = ids.to_set().filter(reaches);
    if ids.len() == 0 {
        assert(some =~= Set::<NodeId>::empty());
    } else {
        let before = ids.drop_last();
        let last = ids.last();
        lemma_count_holders(before, v, x);
        assert(ids.map_values(f).drop_last() =~= before.map_values(f));
        assert(!before.to_set().contains(last));
        assert(ids.to_set() =~= before.to_set().insert(last)) by {
            assert forall|p: NodeId| ids.to_set().contains(p) implies before.to_set().insert(
                last,
            ).contains(p) by {
                let i = choose|i: int| 0 <= i < ids.len() && ids[i] == p;
                if i < before.len() {
                    assert(before[i] == p);
                }
            }
            assert forall|p: NodeId| before.to_set().insert(last).contains(
                p,
            ) implies ids.to_set().contains(p) by {
                if p != last {
                    let i = choose|i: int| 0 <= i < before.len() && before[i] == p;
                    assert(ids[i] == p);
                } else {
                    assert(ids[ids.len() - 1] == p);
                }
            }
        }
        if reaches(last) {
            assert(some =~= before.to_set().filter(reaches).insert(last));
        } else {
            assert(some =~= before.to_set().filter(reaches));
        }
    }
}

/// A majority reaches some index.
proof fn lemma_reached_exists(s: Seq<u64>, k: nat, x: u64)
    requires
        s.contains(x),
        count_at_least(s, x) >= k,
    ensures
        is_reached_by(s, k, reached_by(s, k)),
    decreases u64::MAX - x,
{
    if forall|m: u64| s.contains(m) && m > x ==> #[trigger] count_at_least(s, m) < k {
        assert(is_reached_by(s, k, x));
    } else {
        let m = choose|m: u64|
            s.contains(m) && m > x && #[trigger] count_at_least(s, m) >= k;
        lemma_reached_exists(s, k, m);
    }
}

proof fn lemma_count_zero(s: Seq<u64>)
    ensures
        forall|x: u64|
            (forall|i: int| 0 <= i < s.len() ==> s[i] >= x) ==> #[trigger] count_at_least(s, x)
                == s.len(),
    decreases s.len(),
{
    reveal(Seq::filter);
    if s.len() > 0 {
        lemma_count_zero(s.drop_last());
        assert forall|x: u64|
            (forall|i: int| 0 <= i < s.len() ==> s[i] >= x) implies #[trigger] count_at_least(s, x)
            == s.len() by {
            assert(count_at_least(s.drop_last(), x) == s.len() - 1);
        }
    }
}

proof fn lemma_has_smallest(s: Seq<u64>) -> (x: u64)
    requires
        s.len() > 0,
    ensures
        s.contains(x),
        forall|i: int| 0 <= i < s.len() ==> s[i] >= x,
    decreases s.len(),
{
    if s.len() == 1 {
        assert(s.contains(s[0]));
        s[0]
    } else {
        let y = lemma_has_smallest(s.drop_last());
        let i = choose|i: int| 0 <= i < s.drop_last().len() && s.drop_last()[i] == y;
        assert(s[i] == y);
        assert(forall|j: int| 0 <= j < s.len() - 1 ==> s.drop_last()[j] == s[j]);
        if s.last() < y {
            assert(s.contains(s.last()));
            s.last()
        } else {
            y
        }
    }
}

/// The index that the leader commits is held by a majority.
proof fn lemma_majority_holds(s: System, n: NodeId, v: NodeView)
    requires
        stands(s, n, v),
        v.state == RaftState::Leader,
    ensures
        2 * s.nodes[n].holders(
            n,
            s.members,
            reached_by(v.matched(), v.quorum()) as nat,
        ).len() > s.members.len(),
{
    reveal(Seq::filter);
    let c = s.nodes[n];
    let all = v.matched();
    let k = v.quorum();
    let x = reached_by(all, k);
    lemma_member_count(v, s.members);
    let least = lemma_has_smallest(all);
    lemma_count_zero(all);
    assert(count_at_least(all, least) == all.len());
    lemma_reached_exists(all, k, least);
    let others = v.others();
    let f = |p: NodeId| v.match_for(p);
    assert(all.drop_last() =~= others.map_values(f));
    lemma_count_holders(others, v, x);
    let reaches = |p: NodeId| v.match_for(p) >= x;
    let some = others.to_set().filter(reaches);
    assert(count_at_least(all, x) <= count_at_least(others.map_values(f), x) + 1);
    let holders = c.holders(n, s.members, x as nat);
    assert(some.insert(n).subset_of(holders)) by {
        assert forall|p: NodeId| some.insert(n).contains(p) implies holders.contains(p) by {
            if p != n {
                assert(others.contains(p));
                assert(tracks(c, v, p));
            }
        }
    }
    assert(!some.contains(n)) by {
        assert(!others.contains(n));
    }
    vstd::set_lib::lemma_len_subset(some.insert(n), holders);
}

/// The answer to entries that were sent.
proof fn lemma_append_entries_response(
    s: System,
    n: NodeId,
    v: NodeView,
    from: NodeId,
    m: AppendEntriesResponse,
) -> (s2: System)
    requires
        stands(s, n, v),
        rpc_ok(s, from, n, RpcView::AppendEntriesResponse(m)),
    ensures
        leads_to(s, s2, n),
        mirrors(s2.members, n, s2.nodes[n], v.handle_append_entries_response(from, m).0),
        actions_ok(s2, n, v.handle_append_entries_response(from, m).1),
{
    if m.term > v.current_term {
        lemma_adopt_term(s, n, v, m.term)
    } else if v.state != RaftState::Leader || m.term < v.current_term {
        lemma_stays(s, n);
        s
    } else if m.success {
        let ack = Note::Ack { from, to: n, term: m.term, upto: m.match_index as nat };
        let step = Step::CountAck { n, ack };
        lemma_one_step(s, step);
        let s1 = s.after(step);
        lemma_ack_in_log(s, n, ack);
        let w = v.acknowledge(from, m.match_index);
        lemma_acknowledged(s, n, v, from, m.match_index);
        let s2 = lemma_advance_commit(s1, n, w);
        lemma_leads_on(s, s1, s2, n);
        let x = NodeView { commit_index: w.advanced_commit(), ..w };
        let s3 = lemma_apply_committed(s2, n, x);
        lemma_leads_on(s, s2, s3, n);
        s3
    } else {
        let c = s.nodes[n];
        lemma_node_log(s, n);
        lemma_shows(c.log, v.log);
        assert(tracks(c, v, from));
        let next = max_u64(next_down(v.next_for(from)), v.log.start_index);
        let w = NodeView { next_index: v.next_index.insert(from, next), ..v };
        assert(w.others() == v.others());
        assert(w.knows(s.members));
        assert forall|p: NodeId| s.members.contains(p) && p != n implies #[trigger] tracks(
            c,
            w,
            p,
        ) by {
            assert(tracks(c, v, p));
        }
        assert(mirrors(s.members, n, c, w));
        lemma_send_append(s, n, w, from)
    }
}

/// What was acknowledged to a leader is in its log.
proof fn lemma_ack_in_log(s: System, n: NodeId, ack: Note)
    requires
        holds(s),
        s.allows(Step::CountAck { n, ack }),
    ensures
        ack->upto <= s.nodes[n].log.len(),
{
    reveal(record_ok);
    assert(note_ok(s.record, s.members, ack));
    assert(node_ok(s.record, s.members, n, s.nodes[n]));
    assert(s.record.acks.contains_key((ack->Ack_from, ack->Ack_term)));
}

/// A leader that learned what a member holds.
proof fn lemma_acknowledged(s: System, n: NodeId, v: NodeView, p: NodeId, matched: u64)
    requires
        stands(s, n, v),
        v.state == RaftState::Leader,
        s.members.contains(p),
        p != n,
        matched <= s.nodes[n].log.len(),
    ensures
        mirrors(
            s.members,
            n,
            s.nodes[n].with_match(p, matched as nat),
            v.acknowledge(p, matched),
        ),
{
    let c = s.nodes[n];
    let d = c.with_match(p, matched as nat);
    let w = v.acknowledge(p, matched);
    assert(tracks(c, v, p));
    assert(w.others() == v.others());
    assert(w.knows(s.members));
    assert forall|q: NodeId| s.members.contains(q) && q != n implies #[trigger] tracks(
        d,
        w,
        q,
    ) by {
        assert(tracks(c, v, q));
    }
}

/// A leader commits what a majority holds.
proof fn lemma_advance_commit(s: System, n: NodeId, v: NodeView) -> (s2: System)
    requires
        stands(s, n, v),
        v.state == RaftState::Leader,
    ensures
        leads_to(s, s2, n),
        mirrors(
            s2.members,
            n,
            s2.nodes[n],
            (NodeView { commit_index: v.advanced_commit(), ..v }),
        ),
{
    let c = s.nodes[n];
    lemma_node_log(s, n);
    lemma_shows(c.log, v.log);
    let x = reached_by(v.matched(), v.quorum());
    let w = NodeView { commit_index: v.advanced_commit(), ..v };
    if x > v.commit_index && v.log.contains(x, v.current_term) {
        lemma_majority_holds(s, n, v);
        let step = Step::Commit { n, index: x as nat };
        assert(fits(c.log, x as nat, v.current_term));
        lemma_one_step(s, step);
        let s2 = s.after(step);
        lemma_same_tracking(c, v, s2.nodes[n], w);
        s2
    } else {
        lemma_stays(s, n);
        lemma_same_tracking(c, v, c, w);
        s
    }
}

// ── Clients ─────────────────────────────────────────────────────────────────

/// Appending the first `k` of a client's commands.
proof fn lemma_append_commands(
    s: System,
    n: NodeId,
    v: NodeView,
    commands: Seq<Seq<u8>>,
    k: nat,
) -> (s2: System)
    requires
        stands(s, n, v),
        v.state == RaftState::Leader,
        v.has_room(commands.len()),
        k <= commands.len(),
    ensures
        leads_to(s, s2, n),
        mirrors(
            s2.members,
            n,
            s2.nodes[n],
            (NodeView { log: v.log.extend(v.entries_for(commands).take(k as int)), ..v }),
        ),
        s2.nodes[n].log.len() == s.nodes[n].log.len() + k,
    decreases k,
{
    let c = s.nodes[n];
    lemma_node_log(s, n);
    lemma_shows(c.log, v.log);
    let entries = v.entries_for(commands);
    let w = NodeView { log: v.log.extend(entries.take(k as int)), ..v };
    if k == 0 {
        lemma_stays(s, n);
        lemma_same_tracking(c, v, c, w);
        assert(w.log.entries =~= v.log.entries);
        s
    } else {
        let s1 = lemma_append_commands(s, n, v, commands, (k - 1) as nat);
        let before = NodeView { log: v.log.extend(entries.take(k - 1)), ..v };
        let c1 = s1.nodes[n];
        let step = Step::Append { n, command: commands[k - 1] };
        lemma_one_step(s1, step);
        let s2 = s1.after(step);
        lemma_leads_on(s, s1, s2, n);
        let d = s2.nodes[n];
        lemma_node_log(s1, n);
        lemma_shows(c1.log, before.log);
        assert(entries.take(k as int) =~= entries.take(k - 1).push(entries[k - 1]));
        assert(d.log == c1.log.push(entries[k - 1]));
        assert(w.log.entries =~= before.log.entries.push(entries[k - 1]));
        assert(w.log.entries =~= d.log.skip(w.log.start_index - 1));
        assert(w.others() == before.others());
        assert forall|members: Set<NodeId>| before.knows(members) implies #[trigger] w.knows(
            members,
        ) by {}
        assert forall|p: NodeId| s.members.contains(p) && p != n implies #[trigger] tracks(
            d,
            w,
            p,
        ) by {
            assert(tracks(c1, before, p));
        }
        s2
    }
}

/// Commands from a client.
proof fn lemma_append_and_replicate(s: System, n: NodeId, v: NodeView, commands: Seq<Seq<u8>>) -> (
    s2: System)
    requires
        stands(s, n, v),
        v.has_room(commands.len()),
    ensures
        leads_to(s, s2, n),
        mirrors(s2.members, n, s2.nodes[n], v.append_and_replicate(commands).0),
        actions_ok(s2, n, v.append_and_replicate(commands).1),
{
    if v.state != RaftState::Leader {
        lemma_stays(s, n);
        s
    } else {
        let entries = v.entries_for(commands);
        let s1 = lemma_append_commands(s, n, v, commands, commands.len());
        let w = v.append_and_replicate(commands).0;
        assert(entries.take(commands.len() as int) =~= entries);
        assert(w.others() == v.others());
        let s2 = lemma_broadcast(s1, n, w, w.others().len());
        lemma_leads_on(s, s1, s2, n);
        let acts = v.append_and_replicate(commands).1;
        assert forall|i: int| 0 <= i < acts.len() implies action_ok(s2, n, #[trigger] acts[i]) by {
            if i >= 1 {
                assert(acts[i] == w.broadcast()[i - 1]);
            }
        }
        s2
    }
}

// ── The clock ───────────────────────────────────────────────────────────────

/// A tick.
proof fn lemma_tick(s: System, n: NodeId, v: NodeView) -> (s2: System)
    requires
        stands(s, n, v),
        v.has_room(1),
    ensures
        leads_to(s, s2, n),
        mirrors(s2.members, n, s2.nodes[n], v.tick().0),
        actions_ok(s2, n, v.tick().1),
{
    let c = s.nodes[n];
    let ticked = NodeView { heartbeat_ticks: next_down(v.heartbeat_ticks), ..v };
    if v.state != RaftState::Leader {
        let w = NodeView { election: v.election.ticked(), ..v };
        lemma_same_tracking(c, v, c, w);
        assert(mirrors(s.members, n, c, w));
        if w.election.ticks_remaining == 0 {
            lemma_start_election(s, n, w)
        } else {
            lemma_stays(s, n);
            s
        }
    } else if ticked.heartbeat_ticks == 0 {
        let w = NodeView { heartbeat_ticks: v.heartbeat_interval_ticks, ..v };
        lemma_same_tracking(c, v, c, w);
        assert(mirrors(s.members, n, c, w));
        let s2 = lemma_broadcast(s, n, w, w.others().len());
        let acts = v.tick().1;
        let due = v.snapshot_due();
        assert forall|i: int| 0 <= i < acts.len() implies action_ok(s2, n, #[trigger] acts[i]) by {
            if i >= due.len() {
                assert(acts[i] == w.broadcast()[i - due.len()]);
            }
        }
        s2
    } else {
        lemma_same_tracking(c, v, c, ticked);
        assert(mirrors(s.members, n, c, ticked));
        assert forall|i: int| 0 <= i < ticked.others().len() implies s.members.contains(
            #[trigger] ticked.others()[i],
        ) && ticked.others()[i] != n by {
            assert(ticked.others().contains(ticked.others()[i]));
        }
        let s2 = lemma_catch_up_all(s, n, ticked, ticked.others());
        let acts = v.tick().1;
        let due = v.snapshot_due();
        let rest = catch_up_all(ticked, ticked.others());
        assert forall|i: int| 0 <= i < acts.len() implies action_ok(s2, n, #[trigger] acts[i]) by {
            if i >= due.len() {
                assert(acts[i] == rest[i - due.len()]);
            }
        }
        s2
    }
}

// ── Snapshots ───────────────────────────────────────────────────────────────

/// A log that a further snapshot shortened.
proof fn lemma_shows_compacted(
    full: Seq<LogEntryView>,
    log: RaftLogView,
    index: u64,
    term: u64,
)
    requires
        shows(full, log),
        log.start_index - 1 < index <= full.len(),
        full[index - 1].term == term,
    ensures
        shows(full, log.compact(index, term)),
        log.compact(index, term).start_index == index + 1,
{
    let short = log.compact(index, term);
    assert(short.entries =~= full.skip(index as int));
}

proof fn lemma_snapshot_taken(s: System, n: NodeId, v: NodeView, snapshot: SnapshotView)
    requires
        stands(s, n, v),
        v.took(snapshot.meta),
    ensures
        leads_to(s, s, n),
        mirrors(s.members, n, s.nodes[n], v.snapshot_taken(snapshot).0),
        actions_ok(s, n, v.snapshot_taken(snapshot).1),
{
    let c = s.nodes[n];
    lemma_stays(s, n);
    lemma_node_log(s, n);
    lemma_shows(c.log, v.log);
    let w = v.snapshot_taken(snapshot).0;
    lemma_same_tracking(c, v, c, w);
    if v.may_compact_to(snapshot.meta.last_included_index) {
        assert(fits(
            c.log,
            snapshot.meta.last_included_index as nat,
            snapshot.meta.last_included_term,
        ));
    }
}

proof fn lemma_snapshot_persisted(s: System, n: NodeId, v: NodeView, meta: SnapshotMeta)
    requires
        stands(s, n, v),
        v.took(meta),
    ensures
        leads_to(s, s, n),
        mirrors(s.members, n, s.nodes[n], v.snapshot_persisted(meta)),
{
    let c = s.nodes[n];
    lemma_stays(s, n);
    lemma_node_log(s, n);
    lemma_shows(c.log, v.log);
    let w = v.snapshot_persisted(meta);
    lemma_same_tracking(c, v, c, w);
    if v.may_compact_to(meta.last_included_index) {
        assert(fits(c.log, meta.last_included_index as nat, meta.last_included_term));
        lemma_shows_compacted(c.log, v.log, meta.last_included_index, meta.last_included_term);
    }
}

/// A whole snapshot from a leader.
proof fn lemma_install(s: System, n: NodeId, v: NodeView, from: NodeId, m: InstallSnapshotView) -> (
    s2: System)
    requires
        stands(s, n, v),
        v.state == RaftState::Follower,
        m.term == v.current_term,
        rpc_ok(s, from, n, RpcView::InstallSnapshot(m)),
        m.last_included_index > v.log.last_included_index(),
    ensures
        leads_to(s, s2, n),
        forall|data: Seq<u8>|
            mirrors(
                s2.members,
                n,
                s2.nodes[n],
                #[trigger] v.install(SnapshotView { meta: m.meta(), data }),
            ),
{
    let c = s.nodes[n];
    let index = m.last_included_index;
    let entries = choose|entries: Seq<LogEntryView>|
        entries.len() == index && entries.last().term == m.last_included_term
            && #[trigger] s.notes.contains(whole(from, m.term, entries));
    let offer = whole(from, m.term, entries);
    lemma_node_log(s, n);
    lemma_shows(c.log, v.log);
    lemma_offer_indexed(s, offer);
    let leader = s.record.leader_logs[c.term];
    let step = Step::Accept { n, offer };
    lemma_one_step(s, step);
    let s2 = s.after(step);
    let d = s2.nodes[n];
    lemma_node_log(s2, n);
    lemma_merged(s.record, c.log, leader, 0, 0, entries);
    lemma_agree_less(d.log, leader, index as nat, index as nat);
    assert(entries[index - 1] == leader[index - 1]);
    assert(d.log[index - 1].term == m.last_included_term);
    if v.log.contains(index, m.last_included_term) {
        assert(fits(c.log, index as nat, m.last_included_term));
        lemma_same_term(s.record, c.log, leader, index - 1);
        assert(d.log == c.log);
        lemma_shows_compacted(c.log, v.log, index, m.last_included_term);
    } else {
        assert(d.log != c.log) by {
            if d.log == c.log {
                assert(fits(c.log, index as nat, m.last_included_term));
            }
        }
        assert(d.log == leader.take(index as int));
        assert(d.log.skip(index as int) =~= Seq::<LogEntryView>::empty());
    }
    assert forall|data: Seq<u8>|
        mirrors(
            s2.members,
            n,
            s2.nodes[n],
            #[trigger] v.install(SnapshotView { meta: m.meta(), data }),
        ) by {
        let w = v.install(SnapshotView { meta: m.meta(), data });
        assert(w.others() == v.others());
        assert(w.knows(s.members));
        assert(shows(d.log, w.log));
        assert(w.commit_index == d.commit);
    }
    s2
}

/// A snapshot from a leader.
proof fn lemma_install_snapshot(
    s: System,
    n: NodeId,
    v: NodeView,
    from: NodeId,
    m: InstallSnapshotView,
) -> (s2: System)
    requires
        stands(s, n, v),
        rpc_ok(s, from, n, RpcView::InstallSnapshot(m)),
    ensures
        leads_to(s, s2, n),
        mirrors(s2.members, n, s2.nodes[n], v.handle_install_snapshot_request(from, m).0),
        actions_ok(s2, n, v.handle_install_snapshot_request(from, m).1),
{
    let s1 = lemma_adopt_term(s, n, v, m.term);
    let adopted = v.adopt_term(m.term).0;
    if m.term < adopted.current_term {
        s1
    } else {
        let s2 = lemma_follow(s1, n, adopted, m.leader_id);
        lemma_leads_on(s, s1, s2, n);
        let w = adopted.follow(m.leader_id);
        if m.last_included_index <= w.log.last_included_index() {
            s2
        } else {
            lemma_rpc_ok_stays(s, s2, n, from, n, RpcView::InstallSnapshot(m));
            let s3 = lemma_install(s2, n, w, from, m);
            lemma_leads_on(s, s2, s3, n);
            let pending = w.with_chunk(m)->0;
            let installed = w.install(SnapshotView { meta: m.meta(), data: pending.data });
            assert(v.handle_install_snapshot_request(from, m).0 == installed);
            s3
        }
    }
}

/// The answer to a snapshot that was sent.
proof fn lemma_install_snapshot_response(
    s: System,
    n: NodeId,
    v: NodeView,
    from: NodeId,
    m: InstallSnapshotResponse,
) -> (s2: System)
    requires
        stands(s, n, v),
        rpc_ok(s, from, n, RpcView::InstallSnapshotResponse(m)),
    ensures
        leads_to(s, s2, n),
        mirrors(s2.members, n, s2.nodes[n], v.handle_install_snapshot_response(from, m).0),
        actions_ok(s2, n, v.handle_install_snapshot_response(from, m).1),
{
    if m.term > v.current_term {
        lemma_adopt_term(s, n, v, m.term)
    } else if v.state != RaftState::Leader || m.term < v.current_term || v.snapshot is None {
        lemma_stays(s, n);
        s
    } else {
        let upto = v.snapshot->0.meta.last_included_index;
        lemma_node_log(s, n);
        let step = Step::Presume { n, p: from, upto: upto as nat };
        lemma_one_step(s, step);
        lemma_acknowledged(s, n, v, from, upto);
        s.after(step)
    }
}

// ── Everything a node does ──────────────────────────────────────────────────

/// A message from another node.
proof fn lemma_receive(s: System, n: NodeId, v: NodeView, from: NodeId, rpc: RpcView) -> (
    s2: System)
    requires
        stands(s, n, v),
        rpc_ok(s, from, n, rpc),
        v.has_room(1),
    ensures
        leads_to(s, s2, n),
        mirrors(s2.members, n, s2.nodes[n], v.receive(from, rpc).0),
        actions_ok(s2, n, v.receive(from, rpc).1),
{
    match rpc {
        RpcView::RequestVote(m) => lemma_request_vote(s, n, v, from, m),
        RpcView::RequestVoteResponse(m) => lemma_request_vote_response(s, n, v, from, m),
        RpcView::AppendEntries(m) => lemma_append_entries(s, n, v, from, m),
        RpcView::AppendEntriesResponse(m) => lemma_append_entries_response(s, n, v, from, m),
        RpcView::InstallSnapshot(m) => lemma_install_snapshot(s, n, v, from, m),
        RpcView::InstallSnapshotResponse(m) => lemma_install_snapshot_response(s, n, v, from, m),
    }
}

/// Whatever a node is given to process.
pub proof fn lemma_act(s: System, n: NodeId, v: NodeView, input: InputView) -> (s2: System)
    requires
        stands(s, n, v),
        match input {
            InputView::Tick => v.has_room(1),
            InputView::Message { from, rpc } => rpc_ok(s, from, n, rpc) && v.has_room(1),
            InputView::ClientCommand(_) => v.has_room(1),
            InputView::ClientCommands(commands) => v.has_room(commands.len()),
            InputView::SnapshotTaken(snapshot) => v.took(snapshot.meta),
            InputView::SnapshotPersisted(meta) => v.took(meta),
        },
    ensures
        leads_to(s, s2, n),
        mirrors(s2.members, n, s2.nodes[n], v.act(input).0),
        actions_ok(s2, n, v.act(input).1),
{
    match input {
        InputView::Tick => lemma_tick(s, n, v),
        InputView::Message { from, rpc } => lemma_receive(s, n, v, from, rpc),
        InputView::ClientCommand(command) => lemma_append_and_replicate(s, n, v, seq![command]),
        InputView::ClientCommands(commands) => {
            if commands.len() == 0 {
                lemma_stays(s, n);
                s
            } else {
                lemma_append_and_replicate(s, n, v, commands)
            }
        },
        InputView::SnapshotTaken(snapshot) => {
            lemma_snapshot_taken(s, n, v, snapshot);
            s
        },
        InputView::SnapshotPersisted(meta) => {
            lemma_snapshot_persisted(s, n, v, meta);
            s
        },
    }
}

/// A node after a restart.
pub proof fn lemma_recovered(
    s: System,
    n: NodeId,
    v: NodeView,
    rng: NodeRngView,
    recovered: RecoveredView,
) -> (s2: System)
    requires
        stands(s, n, v),
        v.left_behind(recovered),
    ensures
        leads_to(s, s2, n),
        mirrors(
            s2.members,
            n,
            s2.nodes[n],
            NodeView::of_recovered(n, v.peers, rng, recovered),
        ),
{
    let c = s.nodes[n];
    lemma_node_log(s, n);
    lemma_shows(c.log, v.log);
    if recovered.log != v.log {
        let meta = v.snapshot->0.meta;
        lemma_shows_compacted(c.log, v.log, meta.last_included_index, meta.last_included_term);
    }
    assert(shows(c.log, recovered.log));
    let commit = (recovered.log.start_index - 1) as nat;
    let step = Step::Restart { n, commit };
    lemma_one_step(s, step);
    let s2 = s.after(step);
    let w = NodeView::of_recovered(n, v.peers, rng, recovered);
    assert(w.others() == v.others());
    assert(w.knows(s.members));
    s2
}

} // verus!
