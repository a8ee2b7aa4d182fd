//! Whatever a node does in one step of its driver is a sequence of steps of the
//! protocol.

use vstd::prelude::*;

use crate::config::NodeId;
use crate::raft::election::ActionView;
use crate::raft::log::{first_gap, LogEntryView, RaftLogView};
use crate::raft::safety::cluster::{Cluster, Envelope};
use crate::raft::safety::consistency::{
    candidacy_ok, commit_ok, election_ok, grows, holds, indexed, lemma_agree_less,
    lemma_commit_ok_grows, node_ok, record_ok,
};
use crate::raft::safety::protocol::{
    agree, fits, held, last_term_of, merged, Core, Note, Record, Step, System,
};
use crate::raft::safety::steps::{
    law_step_holds, law_step_keeps_committed, lemma_commit_ok_moves, lemma_held,
};
use crate::raft::snapshot::SnapshotMeta;
use crate::raft::state::RaftState;
use crate::raft::{
    AppendEntriesResponse, AppendEntriesView, InstallSnapshotResponse, NodeView,
    RequestVoteResponse, RpcView,
};

verus! {

// ── How the two correspond ──────────────────────────────────────────────────

/// `log` is what a snapshot left of `full`.
pub open spec fn shows(full: Seq<LogEntryView>, log: RaftLogView) -> bool {
    &&& 1 <= log.start_index
    &&& log.start_index - 1 <= full.len() < u64::MAX
    &&& log.entries == full.skip(log.start_index - 1)
    &&& log.last_included_term == if log.start_index == 1 {
        0
    } else {
        full[log.start_index - 2].term
    }
}

/// The boundary is an entry of the log.
pub open spec fn marks(full: Seq<LogEntryView>, meta: SnapshotMeta, upto: nat) -> bool {
    &&& 1 <= meta.last_included_index <= upto <= full.len()
    &&& full[meta.last_included_index - 1].term == meta.last_included_term
}

/// The node is what the protocol says it is.
pub open spec fn mirrors(members: Set<NodeId>, n: NodeId, c: Core, v: NodeView) -> bool {
    &&& v.id == n
    &&& v.knows(members)
    &&& v.current_term == c.term
    &&& v.voted_for == c.vote
    &&& v.state == c.role
    &&& shows(c.log, v.log)
    &&& v.commit_index == c.commit
    &&& v.log.start_index - 1 <= v.last_applied <= v.commit_index
    &&& c.role == RaftState::Candidate ==> v.election.votes_granted == c.granted
    &&& c.role == RaftState::Leader ==> forall|p: NodeId|
        members.contains(p) && p != n ==> #[trigger] tracks(c, v, p)
    &&& v.pending_snapshot is None
    &&& match v.snapshot {
        Some(snapshot) => marks(c.log, snapshot.meta, c.commit),
        None => true,
    }
}

/// What the leader knows of a member.
pub open spec fn tracks(c: Core, v: NodeView, p: NodeId) -> bool {
    &&& v.match_for(p) == c.matched_by(p)
    &&& v.next_index.contains_key(p)
    &&& 1 <= v.next_index[p] <= c.log.len() + 1
}

/// The message comes from another member, and stands for one of the protocol as
/// far as it is of consequence.
pub open spec fn rpc_ok(s: System, from: NodeId, to: NodeId, rpc: RpcView) -> bool {
    &&& s.members.contains(from)
    &&& from != to
    &&& content_ok(s, from, to, rpc)
}

pub open spec fn content_ok(s: System, from: NodeId, to: NodeId, rpc: RpcView) -> bool {
    match rpc {
        RpcView::RequestVote(m) => {
            &&& m.candidate_id == from
            &&& s.notes.contains(
                Note::Ask {
                    from,
                    term: m.term,
                    last_index: m.last_log_index as nat,
                    last_term: m.last_log_term,
                },
            )
        },
        RpcView::RequestVoteResponse(m) => m.vote_granted ==> s.notes.contains(
            Note::Grant { from, to, term: m.term },
        ),
        RpcView::AppendEntries(m) => s.notes.contains(offer_in(from, m)),
        RpcView::AppendEntriesResponse(m) => m.success ==> s.notes.contains(
            Note::Ack { from, to, term: m.term, upto: m.match_index as nat },
        ),
        RpcView::InstallSnapshot(m) => {
            &&& m.offset == 0
            &&& m.done
            &&& 1 <= m.last_included_index
            &&& exists|entries: Seq<LogEntryView>|
                entries.len() == m.last_included_index && entries.last().term
                    == m.last_included_term && #[trigger] s.notes.contains(
                    whole(from, m.term, entries),
                )
        },
        RpcView::InstallSnapshotResponse(m) => true,
    }
}

/// The offer that an AppendEntries makes.
pub open spec fn offer_in(from: NodeId, m: AppendEntriesView) -> Note {
    Note::Offer {
        from,
        term: m.term,
        prev: m.prev_log_index as nat,
        prev_term: m.prev_log_term,
        entries: m.entries,
        commit: m.leader_commit as nat,
    }
}

/// The offer of committed entries from the first on.
pub open spec fn whole(from: NodeId, term: u64, entries: Seq<LogEntryView>) -> Note {
    Note::Offer { from, term, prev: 0, prev_term: 0, entries, commit: entries.len() }
}

/// The effect is covered by what happened in the protocol.
pub open spec fn action_ok(s: System, n: NodeId, action: ActionView) -> bool {
    match action {
        ActionView::Send { to, rpc } => rpc_ok(s, n, to, rpc),
        ActionView::ApplyCommittedEntries { entry } => s.record.applied.contains(entry),
        _ => true,
    }
}

pub open spec fn actions_ok(s: System, n: NodeId, actions: Seq<ActionView>) -> bool {
    forall|i: int| 0 <= i < actions.len() ==> action_ok(s, n, #[trigger] actions[i])
}

/// The cluster is what the protocol says it is.
pub open spec fn refines(cl: Cluster, s: System) -> bool {
    &&& cl.members == s.members
    &&& cl.nodes.dom() == s.members
    &&& forall|n: NodeId| #[trigger]
        s.members.contains(n) ==> mirrors(s.members, n, s.nodes[n], cl.nodes[n])
    &&& forall|e: Envelope| #[trigger] cl.sent.contains(e) ==> rpc_ok(s, e.from, e.to, e.rpc)
    &&& forall|a: (NodeId, LogEntryView)| #[trigger]
        cl.applied.contains(a) ==> s.record.applied.contains(a.1)
}

// ── Sequences of steps of one node ──────────────────────────────────────────

/// `b` is what `a` became by steps of `n`.
pub open spec fn leads_to(a: System, b: System, n: NodeId) -> bool {
    &&& holds(b)
    &&& b.members == a.members
    &&& forall|m: NodeId| m != n ==> #[trigger] b.nodes[m] == a.nodes[m]
    &&& a.notes.subset_of(b.notes)
    &&& grows(a.record, b.record)
    &&& a.members.contains(n) ==> keeps(a, b, n)
}

/// The node's term did not fall, and what is committed stayed in its log.
pub open spec fn keeps(a: System, b: System, n: NodeId) -> bool {
    &&& a.nodes[n].term <= b.nodes[n].term
    &&& forall|k: nat|
        commit_ok(a.record, a.members, a.nodes[n].log, k, a.nodes[n].term) ==> #[trigger] agree(
            a.nodes[n].log,
            b.nodes[n].log,
            k,
        )
}

pub proof fn lemma_keeps_on(a: System, b: System, c: System, n: NodeId)
    requires
        keeps(a, b, n),
        keeps(b, c, n),
        b.members == a.members,
        grows(a.record, b.record),
    ensures
        keeps(a, c, n),
{
    assert forall|k: nat|
        commit_ok(a.record, a.members, a.nodes[n].log, k, a.nodes[n].term) implies #[trigger] agree(
        a.nodes[n].log,
        c.nodes[n].log,
        k,
    ) by {
        assert(agree(a.nodes[n].log, b.nodes[n].log, k));
        lemma_commit_ok_grows(
            a.record,
            b.record,
            a.members,
            a.nodes[n].log,
            k,
            a.nodes[n].term,
            b.nodes[n].term,
        );
        lemma_commit_ok_moves(
            b.record,
            a.members,
            a.nodes[n].log,
            b.nodes[n].log,
            k,
            b.nodes[n].term,
        );
        assert(agree(b.nodes[n].log, c.nodes[n].log, k));
    }
}

pub open spec fn node_of(step: Step) -> NodeId {
    match step {
        Step::Adopt { n, term } => n,
        Step::StepDown { n } => n,
        Step::Stand { n } => n,
        Step::Vote { n, ask } => n,
        Step::Count { n, from } => n,
        Step::Lead { n } => n,
        Step::Append { n, command } => n,
        Step::Offer { n, prev, count, commit } => n,
        Step::Accept { n, offer } => n,
        Step::CountAck { n, ack } => n,
        Step::Presume { n, p, upto } => n,
        Step::Commit { n, index } => n,
        Step::Apply { n, index } => n,
        Step::Restart { n, commit } => n,
    }
}

pub proof fn lemma_one_step(s: System, step: Step)
    requires
        holds(s),
        s.allows(step),
    ensures
        leads_to(s, s.after(step), node_of(step)),
{
    law_step_holds(s, step);
    let n = node_of(step);
    let s2 = s.after(step);
    if s.members.contains(n) {
        assert forall|k: nat|
            commit_ok(
                s.record,
                s.members,
                s.nodes[n].log,
                k,
                s.nodes[n].term,
            ) implies #[trigger] agree(s.nodes[n].log, s2.nodes[n].log, k) by {
            law_step_keeps_committed(s, step, n, k);
        }
        law_step_keeps_committed(s, step, n, 0);
    }
}

pub proof fn lemma_grows_trans(a: Record, b: Record, c: Record)
    requires
        grows(a, b),
        grows(b, c),
    ensures
        grows(a, c),
{
    assert forall|t: u64| #[trigger] a.elections.contains_key(t) implies c.elections.contains_key(t)
        && c.elections[t] == a.elections[t] && agree(
        a.leader_logs[t],
        c.leader_logs[t],
        a.leader_logs[t].len(),
    ) by {
        assert(b.elections.contains_key(t));
        let i = a.leader_logs[t].len();
        lemma_agree_less(b.leader_logs[t], c.leader_logs[t], b.leader_logs[t].len(), i);
    }
    assert forall|v: NodeId, t: u64| #[trigger] a.acks.contains_key((v, t)) implies
        c.acks.contains_key((v, t)) && a.acks[(v, t)] <= c.acks[(v, t)] by {
        assert(b.acks.contains_key((v, t)));
    }
    assert forall|v: NodeId, t: u64| #[trigger] a.ballots.contains_key((v, t)) implies
        c.ballots.contains_key((v, t)) && c.ballots[(v, t)] == a.ballots[(v, t)] by {
        assert(b.ballots.contains_key((v, t)));
    }
    assert forall|v: NodeId, t: u64| #[trigger] a.candidacies.contains_key((v, t)) implies
        c.candidacies.contains_key((v, t)) && c.candidacies[(v, t)] == a.candidacies[(v, t)] by {
        assert(b.candidacies.contains_key((v, t)));
    }
}

pub proof fn lemma_leads_on(a: System, b: System, c: System, n: NodeId)
    requires
        leads_to(a, b, n),
        leads_to(b, c, n),
    ensures
        leads_to(a, c, n),
{
    lemma_grows_trans(a.record, b.record, c.record);
    if a.members.contains(n) {
        lemma_keeps_on(a, b, c, n);
    }
}

/// What was covered stays covered.
pub proof fn lemma_rpc_ok_stays(a: System, b: System, n: NodeId, from: NodeId, to: NodeId, rpc: RpcView)
    requires
        leads_to(a, b, n),
        rpc_ok(a, from, to, rpc),
    ensures
        rpc_ok(b, from, to, rpc),
{
    match rpc {
        RpcView::InstallSnapshot(m) => {
            let entries = choose|entries: Seq<LogEntryView>|
                entries.len() == m.last_included_index && entries.last().term
                    == m.last_included_term && #[trigger] a.notes.contains(
                    whole(from, m.term, entries),
                );
            assert(b.notes.contains(whole(from, m.term, entries)));
        },
        _ => {},
    }
}

pub proof fn lemma_actions_ok_stay(a: System, b: System, n: NodeId, actions: Seq<ActionView>)
    requires
        leads_to(a, b, n),
        actions_ok(a, n, actions),
    ensures
        actions_ok(b, n, actions),
{
    assert forall|i: int| 0 <= i < actions.len() implies action_ok(b, n, #[trigger] actions[i]) by {
        assert(action_ok(a, n, actions[i]));
        if let ActionView::Send { to, rpc } = actions[i] {
            lemma_rpc_ok_stays(a, b, n, n, to, rpc);
        }
    }
}

// ── Logs ────────────────────────────────────────────────────────────────────

/// Entries are of terms from one on.
pub open spec fn terms_positive(log: Seq<LogEntryView>) -> bool {
    forall|i: int| 0 <= i < log.len() ==> (#[trigger] log[i]).term >= 1
}

/// What holds of a node's log.
pub proof fn lemma_node_log(s: System, n: NodeId)
    requires
        holds(s),
        s.members.contains(n),
    ensures
        indexed(s.nodes[n].log),
        terms_positive(s.nodes[n].log),
        s.nodes[n].commit <= s.nodes[n].log.len(),
        node_ok(s.record, s.members, n, s.nodes[n]),
{
    reveal(record_ok);
    let r = s.record;
    let c = s.nodes[n];
    assert(node_ok(r, s.members, n, c));
    assert forall|i: int| 0 <= i < c.log.len() implies (#[trigger] c.log[i]).term >= 1 by {
        let t = c.log[i].term;
        assert(election_ok(r, s.members, t));
        assert(candidacy_ok(r, s.members, r.elections[t].leader, t));
    }
}

/// What can be read off a log that a snapshot shortened.
pub proof fn lemma_shows(full: Seq<LogEntryView>, log: RaftLogView)
    requires
        shows(full, log),
        indexed(full),
        terms_positive(full),
    ensures
        log.last_index() == full.len(),
        log.last_term() == last_term_of(full),
        log.next_index() == full.len() + 1,
        log.last_included_index() == log.start_index - 1,
        forall|index: u64, term: u64| #[trigger]
            log.contains(index, term) ==> fits(full, index as nat, term),
        forall|index: u64, term: u64|
            index >= log.start_index - 1 && #[trigger] fits(full, index as nat, term)
                ==> log.contains(index, term),
        forall|index: u64| #[trigger]
            log.holds(index) ==> log.entry(index) == full[index - 1] && index <= full.len(),
{
}

/// Taking entries that follow each other over into a shortened log.
pub proof fn lemma_shows_merged(
    full: Seq<LogEntryView>,
    log: RaftLogView,
    prev: u64,
    prev_term: u64,
    entries: Seq<LogEntryView>,
)
    requires
        shows(full, log),
        indexed(full),
        terms_positive(full),
        log.contains(prev, prev_term),
        prev + entries.len() < u64::MAX,
        forall|j: int| 0 <= j < entries.len() ==> (#[trigger] entries[j]).index == prev + j + 1,
    ensures
        log.append_from_leader(entries).0.start_index == log.start_index,
        log.append_from_leader(entries).1 is Err ==> log.append_from_leader(entries).0 == log,
        log.append_from_leader(entries).1 is Ok ==> shows(
            merged(full, prev as nat, entries),
            log.append_from_leader(entries).0,
        ),
        prev >= log.start_index - 1 ==> log.append_from_leader(entries).1 is Ok,
{
    lemma_shows(full, log);
    lemma_no_gap(entries, prev);
    lemma_held(full, prev as nat, entries);
    let k = held(full, prev as nat, entries);
    if prev >= log.start_index - 1 {
        lemma_matching(full, log, prev, entries);
        if k < entries.len() {
            let first = entries[k as int].index;
            let cut = log.truncate_from(first);
            assert(cut.entries =~= full.take((prev + k) as int).skip(log.start_index - 1));
            assert(shows(full.take((prev + k) as int), cut));
            let rest = entries.skip(k as int);
            lemma_shows(full.take((prev + k) as int), cut);
            lemma_append_all(cut, rest, (prev + k) as u64);
            assert(merged(full, prev as nat, entries).skip(log.start_index - 1) =~= cut.entries
                + rest);
        }
    } else {
        assert(prev == 0);
        if entries.len() > 0 {
            assert(entries[0].index == 1);
            assert(!log.matches(entries[0]));
            assert(log.matching_prefix(entries) == 0);
        } else {
            assert(log.matching_prefix(entries) == 0);
        }
    }
}

pub proof fn lemma_no_gap(entries: Seq<LogEntryView>, prev: u64)
    requires
        prev + entries.len() < u64::MAX,
        forall|j: int| 0 <= j < entries.len() ==> (#[trigger] entries[j]).index == prev + j + 1,
    ensures
        first_gap(entries) is None,
    decreases entries.len(),
{
    if entries.len() >= 2 {
        let rest = entries.skip(1);
        assert(entries[0].index == prev + 1);
        assert(entries[1].index == prev + 2);
        assert forall|j: int| 0 <= j < rest.len() implies (#[trigger] rest[j]).index == (prev + 1)
            + j + 1 by {
            assert(rest[j] == entries[j + 1]);
        }
        lemma_no_gap(rest, (prev + 1) as u64);
    }
}

pub proof fn lemma_matching(
    full: Seq<LogEntryView>,
    log: RaftLogView,
    prev: u64,
    entries: Seq<LogEntryView>,
)
    requires
        shows(full, log),
        prev >= log.start_index - 1,
        prev + entries.len() < u64::MAX,
        forall|j: int| 0 <= j < entries.len() ==> (#[trigger] entries[j]).index == prev + j + 1,
    ensures
        log.matching_prefix(entries) == held(full, prev as nat, entries),
    decreases entries.len(),
{
    if entries.len() > 0 {
        assert(entries[0].index == prev + 1);
        if log.matches(entries[0]) {
            assert(log.entry(entries[0].index) == full[prev as int]);
            let rest = entries.skip(1);
            assert forall|j: int| 0 <= j < rest.len() implies (#[trigger] rest[j]).index == (prev
                + 1) + j + 1 by {
                assert(rest[j] == entries[j + 1]);
            }
            lemma_matching(full, log, (prev + 1) as u64, rest);
        } else if prev < full.len() {
            assert(log.holds(entries[0].index));
            assert(log.entry(entries[0].index) == full[prev as int]);
        }
    }
}

/// Appending entries that follow the tail.
pub proof fn lemma_append_all(log: RaftLogView, entries: Seq<LogEntryView>, last: u64)
    requires
        log.last_index() == last,
        last + entries.len() < u64::MAX,
        forall|j: int| 0 <= j < entries.len() ==> (#[trigger] entries[j]).index == last + j + 1,
    ensures
        log.append_all(entries) == (log.extend(entries), Ok::<
            (),
            crate::raft::log::LogIndexError,
        >(())),
    decreases entries.len(),
{
    if entries.len() == 0 {
        assert(log.entries + entries =~= log.entries);
    } else {
        assert(entries[0].index == last + 1);
        let rest = entries.skip(1);
        assert forall|j: int| 0 <= j < rest.len() implies (#[trigger] rest[j]).index == (last + 1)
            + j + 1 by {
            assert(rest[j] == entries[j + 1]);
        }
        let next = log.push(entries[0]);
        lemma_append_all(next, rest, (last + 1) as u64);
        assert(next.entries + rest =~= log.entries + entries);
    }
}

} // verus!
