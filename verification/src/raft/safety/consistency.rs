//! What every step of the protocol keeps, and what follows from it: one leader
//! in a term, logs that match, leaders that hold everything committed, and state
//! machines that never disagree.

use vstd::prelude::*;

use crate::config::NodeId;
use crate::raft::log::LogEntryView;
use crate::raft::safety::protocol::{
    agree, fits, is_quorum, last_term_of, up_to_date, Core, Note, Record, System,
};
use crate::raft::state::RaftState;

verus! {

// ── What holds ──────────────────────────────────────────────────────────────

/// Entries are numbered from one on.
pub open spec fn indexed(log: Seq<LogEntryView>) -> bool {
    &&& log.len() < u64::MAX
    &&& forall|i: int| 0 <= i < log.len() ==> (#[trigger] log[i]).index == i + 1
}

/// No entry is of a term above `term`.
pub open spec fn terms_at_most(log: Seq<LogEntryView>, term: u64) -> bool {
    forall|i: int| 0 <= i < log.len() ==> (#[trigger] log[i]).term <= term
}

/// Every entry is of a term below `term`.
pub open spec fn terms_below(log: Seq<LogEntryView>, term: u64) -> bool {
    forall|i: int| 0 <= i < log.len() ==> (#[trigger] log[i]).term < term
}

/// Up to each of its entries, the log is that of the leader of the entry's term.
pub open spec fn from_leaders(r: Record, log: Seq<LogEntryView>) -> bool {
    forall|i: int|
        0 <= i < log.len() ==> {
            let term = (#[trigger] log[i]).term;
            &&& r.elections.contains_key(term)
            &&& agree(log, r.leader_logs[term], (i + 1) as nat)
        }
}

/// All of `some` acknowledged the first `i` entries of the leader of `term`.
pub open spec fn acked_by(r: Record, term: u64, i: nat, some: Set<NodeId>) -> bool {
    forall|v: NodeId| #[trigger]
        some.contains(v) ==> r.acks.contains_key((v, term)) && r.acks[(v, term)] >= i
}

/// The first `i` entries of the leader of `term` are committed: a majority
/// acknowledged them, and the last is of that term.
pub open spec fn committed(r: Record, members: Set<NodeId>, term: u64, i: nat) -> bool {
    &&& r.elections.contains_key(term)
    &&& 1 <= i <= r.leader_logs[term].len()
    &&& r.leader_logs[term][i - 1].term == term
    &&& exists|q: Set<NodeId>| is_quorum(members, q) && #[trigger] acked_by(r, term, i, q)
}

/// A leader between `term` and `until` was elected without the first `i` entries
/// of the leader of `term`.
pub open spec fn lacked(r: Record, term: u64, i: nat, until: int) -> bool {
    exists|t: u64| #[trigger]
        r.elections.contains_key(t) && term < t < until && !agree(
            r.elections[t].base,
            r.leader_logs[term],
            i,
        )
}

/// What was acknowledged in `term` is still in the log, unless a later leader
/// below `until` was without it.
pub open spec fn keeps_acked(
    r: Record,
    v: NodeId,
    term: u64,
    log: Seq<LogEntryView>,
    until: int,
) -> bool {
    forall|i: nat|
        1 <= i <= r.acks[(v, term)] && r.leader_logs[term][i - 1].term == term ==> #[trigger] agree(
            log,
            r.leader_logs[term],
            i,
        ) || lacked(r, term, i, until)
}

/// The first `k` entries are committed ones, by a term up to `term`.
pub open spec fn commit_ok(
    r: Record,
    members: Set<NodeId>,
    log: Seq<LogEntryView>,
    k: nat,
    term: u64,
) -> bool {
    k == 0 || exists|t: u64, i: nat| #[trigger]
        committed(r, members, t, i) && k <= i && t <= term && agree(log, r.leader_logs[t], k)
}

/// What a message says is true.
pub open spec fn note_ok(r: Record, members: Set<NodeId>, note: Note) -> bool {
    match note {
        Note::Ask { from, term, last_index, last_term } => {
            &&& r.candidacies.contains_key((from, term))
            &&& last_index == r.candidacies[(from, term)].len()
            &&& last_term == last_term_of(r.candidacies[(from, term)])
        },
        Note::Grant { from, to, term } => {
            &&& r.ballots.contains_key((from, term))
            &&& r.ballots[(from, term)].candidate == to
        },
        Note::Offer { from, term, prev, prev_term, entries, commit } => {
            let log = r.leader_logs[term];
            &&& r.elections.contains_key(term)
            &&& r.elections[term].leader == from
            &&& prev + entries.len() <= log.len()
            &&& entries == log.subrange(prev as int, (prev + entries.len()) as int)
            &&& fits(log, prev, prev_term)
            &&& commit <= prev + entries.len()
            &&& commit_ok(r, members, log, commit, term)
        },
        Note::Ack { from, to, term, upto } => {
            &&& r.acks.contains_key((from, term))
            &&& r.acks[(from, term)] >= upto
        },
    }
}

/// A vote was given to a candidate whose log was no older than the voter's.
pub open spec fn ballot_ok(r: Record, members: Set<NodeId>, v: NodeId, term: u64) -> bool {
    let ballot = r.ballots[(v, term)];
    &&& members.contains(v)
    &&& r.candidacies.contains_key((ballot.candidate, term))
    &&& up_to_date(r.candidacies[(ballot.candidate, term)], ballot.log)
    &&& from_leaders(r, ballot.log)
}

/// A candidate voted for itself, and its log is of earlier terms.
pub open spec fn candidacy_ok(r: Record, members: Set<NodeId>, n: NodeId, term: u64) -> bool {
    let log = r.candidacies[(n, term)];
    &&& members.contains(n)
    &&& term >= 1
    &&& r.ballots.contains_key((n, term))
    &&& r.ballots[(n, term)].candidate == n
    &&& from_leaders(r, log)
    &&& indexed(log)
    &&& terms_below(log, term)
}

/// A leader was elected by a majority, and appended only entries of its term to
/// the log it was elected with.
pub open spec fn election_ok(r: Record, members: Set<NodeId>, term: u64) -> bool {
    let e = r.elections[term];
    let log = r.leader_logs[term];
    &&& r.candidacies.contains_key((e.leader, term))
    &&& e.base == r.candidacies[(e.leader, term)]
    &&& is_quorum(members, e.voters)
    &&& forall|w: NodeId| #[trigger]
        e.voters.contains(w) ==> r.ballots.contains_key((w, term)) && r.ballots[(w, term)].candidate
            == e.leader
    &&& agree(e.base, log, e.base.len())
    &&& forall|i: int| e.base.len() <= i < log.len() ==> (#[trigger] log[i]).term == term
    &&& from_leaders(r, log)
    &&& indexed(log)
}

/// What is on record is consistent.
#[verifier::opaque]
pub open spec fn record_ok(r: Record, members: Set<NodeId>) -> bool {
    &&& forall|v: NodeId, t: u64| #[trigger]
        r.ballots.contains_key((v, t)) ==> ballot_ok(r, members, v, t)
    &&& forall|n: NodeId, t: u64| #[trigger]
        r.candidacies.contains_key((n, t)) ==> candidacy_ok(r, members, n, t)
    &&& forall|t: u64| #[trigger] r.elections.contains_key(t) ==> election_ok(r, members, t)
    &&& forall|v: NodeId, t: u64| #[trigger]
        r.acks.contains_key((v, t)) ==> members.contains(v) && r.elections.contains_key(t)
            && r.acks[(v, t)] <= r.leader_logs[t].len()
    &&& forall|v: NodeId, u: u64, t: u64|
        #![trigger r.ballots.contains_key((v, u)), r.acks.contains_key((v, t))]
        r.ballots.contains_key((v, u)) && r.acks.contains_key((v, t)) && t < u && (
        r.elections.contains_key(u) ==> r.elections[u].voters.contains(v)) ==> keeps_acked(
            r,
            v,
            t,
            r.ballots[(v, u)].log,
            u as int,
        )
    &&& forall|e: LogEntryView| #[trigger]
        r.applied.contains(e) ==> exists|t: u64, i: nat| #[trigger]
            committed(r, members, t, i) && 1 <= e.index <= i && r.leader_logs[t][e.index - 1] == e
}

/// What a node holds is consistent with what is on record.
pub open spec fn node_ok(r: Record, members: Set<NodeId>, n: NodeId, c: Core) -> bool {
    &&& forall|t: u64| #[trigger]
        r.ballots.contains_key((n, t)) ==> t <= c.term && (t == c.term ==> c.vote == Some(
            r.ballots[(n, t)].candidate,
        ))
    &&& c.vote is Some ==> r.ballots.contains_key((n, c.term))
    &&& c.role == RaftState::Candidate ==> candidate_ok(r, members, n, c)
    &&& c.role == RaftState::Leader ==> leader_ok(r, members, n, c)
    &&& from_leaders(r, c.log)
    &&& indexed(c.log)
    &&& terms_at_most(c.log, c.term)
    &&& forall|t: u64| #[trigger]
        r.acks.contains_key((n, t)) ==> t <= c.term && keeps_acked(r, n, t, c.log, c.term + 1)
    &&& commit_ok(r, members, c.log, c.commit, c.term)
}

/// A candidate has not led its term, and those who granted it their vote did.
pub open spec fn candidate_ok(r: Record, members: Set<NodeId>, n: NodeId, c: Core) -> bool {
    &&& r.candidacies.contains_key((n, c.term))
    &&& c.log == r.candidacies[(n, c.term)]
    &&& c.granted.subset_of(members)
    &&& forall|g: NodeId| #[trigger]
        c.granted.contains(g) ==> r.ballots.contains_key((g, c.term))
            && r.ballots[(g, c.term)].candidate == n
    &&& r.elections.contains_key(c.term) ==> r.elections[c.term].leader != n
}

/// A leader was elected, holds its log, and beyond what is committed knows of no
/// more than was acknowledged.
pub open spec fn leader_ok(r: Record, members: Set<NodeId>, n: NodeId, c: Core) -> bool {
    &&& r.elections.contains_key(c.term)
    &&& r.elections[c.term].leader == n
    &&& c.log == r.leader_logs[c.term]
    &&& r.acks.contains_key((n, c.term))
    &&& r.acks[(n, c.term)] == c.log.len()
    &&& forall|p: NodeId|
        members.contains(p) && p != n && #[trigger] c.matched_by(p) > c.commit ==> r.acks.contains_key(
            (p, c.term),
        ) && c.matched_by(p) <= r.acks[(p, c.term)]
}

/// What holds of the whole cluster after any number of steps.
pub open spec fn holds(s: System) -> bool {
    &&& s.members.finite()
    &&& s.nodes.dom() == s.members
    &&& record_ok(s.record, s.members)
    &&& forall|n: NodeId| #[trigger]
        s.members.contains(n) ==> node_ok(s.record, s.members, n, s.nodes[n])
    &&& forall|m: Note| #[trigger] s.notes.contains(m) ==> note_ok(s.record, s.members, m)
}

// ── Quorums ─────────────────────────────────────────────────────────────────

/// Two majorities of the same members share a member.
pub proof fn law_quorums_meet(members: Set<NodeId>, a: Set<NodeId>, b: Set<NodeId>) -> (x: NodeId)
    requires
        members.finite(),
        is_quorum(members, a),
        is_quorum(members, b),
    ensures
        a.contains(x),
        b.contains(x),
        members.contains(x),
{
    let both = a.intersect(b);
    vstd::set_lib::lemma_len_subset(a, members);
    vstd::set_lib::lemma_len_subset(b, members);
    if both.is_empty() {
        let all = a.union(b);
        assert(a.disjoint(b)) by {
            assert forall|y: NodeId| !(a.contains(y) && b.contains(y)) by {
                if a.contains(y) && b.contains(y) {
                    assert(both.contains(y));
                }
            }
        }
        vstd::set_lib::lemma_set_disjoint_lens(a, b);
        assert(all.subset_of(members));
        vstd::set_lib::lemma_len_subset(all, members);
        assert(false);
    }
    let x = both.choose();
    assert(both.contains(x));
    x
}

// ── What is on record only grows ────────────────────────────────────────────

/// Everything on record stays there.
pub open spec fn grows(a: Record, b: Record) -> bool {
    &&& forall|v: NodeId, t: u64| #[trigger]
        a.ballots.contains_key((v, t)) ==> b.ballots.contains_key((v, t)) && b.ballots[(v, t)]
            == a.ballots[(v, t)]
    &&& forall|n: NodeId, t: u64| #[trigger]
        a.candidacies.contains_key((n, t)) ==> b.candidacies.contains_key((n, t))
            && b.candidacies[(n, t)] == a.candidacies[(n, t)]
    &&& forall|t: u64| #[trigger]
        a.elections.contains_key(t) ==> b.elections.contains_key(t) && b.elections[t]
            == a.elections[t] && agree(a.leader_logs[t], b.leader_logs[t], a.leader_logs[t].len())
    &&& forall|v: NodeId, t: u64| #[trigger]
        a.acks.contains_key((v, t)) ==> b.acks.contains_key((v, t)) && a.acks[(v, t)]
            <= b.acks[(v, t)]
    &&& a.applied.subset_of(b.applied)
}

pub proof fn lemma_agree_less(a: Seq<LogEntryView>, b: Seq<LogEntryView>, i: nat, j: nat)
    requires
        agree(a, b, i),
        j <= i,
    ensures
        agree(a, b, j),
        forall|k: int| 0 <= k < i ==> #[trigger] a[k] == b[k],
{
    assert(a.take(j as int) =~= a.take(i as int).take(j as int));
    assert(b.take(j as int) =~= b.take(i as int).take(j as int));
    assert forall|k: int| 0 <= k < i implies #[trigger] a[k] == b[k] by {
        assert(a.take(i as int)[k] == b.take(i as int)[k]);
    }
}

pub proof fn lemma_agree_by_entries(a: Seq<LogEntryView>, b: Seq<LogEntryView>, i: nat)
    requires
        i <= a.len(),
        i <= b.len(),
        forall|k: int| 0 <= k < i ==> #[trigger] a[k] == b[k],
    ensures
        agree(a, b, i),
{
    assert(a.take(i as int) =~= b.take(i as int));
}

pub proof fn lemma_agree_trans(
    a: Seq<LogEntryView>,
    b: Seq<LogEntryView>,
    c: Seq<LogEntryView>,
    i: nat,
    j: nat,
)
    requires
        agree(a, b, i),
        agree(b, c, j),
    ensures
        i <= j ==> agree(a, c, i),
        j <= i ==> agree(a, c, j),
        agree(b, a, i),
{
    if i <= j {
        lemma_agree_less(b, c, j, i);
    } else {
        lemma_agree_less(a, b, i, j);
    }
}

pub proof fn lemma_from_leaders_grows(a: Record, b: Record, log: Seq<LogEntryView>)
    requires
        grows(a, b),
        from_leaders(a, log),
    ensures
        from_leaders(b, log),
{
    assert forall|i: int| 0 <= i < log.len() implies {
        let term = (#[trigger] log[i]).term;
        &&& b.elections.contains_key(term)
        &&& agree(log, b.leader_logs[term], (i + 1) as nat)
    } by {
        let term = log[i].term;
        assert(a.elections.contains_key(term));
        lemma_agree_trans(
            log,
            a.leader_logs[term],
            b.leader_logs[term],
            (i + 1) as nat,
            a.leader_logs[term].len(),
        );
    }
}

pub proof fn lemma_committed_grows(a: Record, b: Record, members: Set<NodeId>, t: u64, i: nat)
    requires
        grows(a, b),
        committed(a, members, t, i),
    ensures
        committed(b, members, t, i),
        agree(a.leader_logs[t], b.leader_logs[t], i),
{
    let q = choose|q: Set<NodeId>| is_quorum(members, q) && #[trigger] acked_by(a, t, i, q);
    lemma_agree_less(a.leader_logs[t], b.leader_logs[t], a.leader_logs[t].len(), i);
    assert(acked_by(b, t, i, q)) by {
        assert forall|v: NodeId| #[trigger] q.contains(v) implies b.acks.contains_key((v, t))
            && b.acks[(v, t)] >= i by {
            assert(a.acks.contains_key((v, t)));
        }
    }
}

pub proof fn lemma_commit_ok_grows(
    a: Record,
    b: Record,
    members: Set<NodeId>,
    log: Seq<LogEntryView>,
    k: nat,
    term: u64,
    later: u64,
)
    requires
        grows(a, b),
        commit_ok(a, members, log, k, term),
        term <= later,
    ensures
        commit_ok(b, members, log, k, later),
{
    if k > 0 {
        let (t, i) = choose|t: u64, i: nat| #[trigger]
            committed(a, members, t, i) && k <= i && t <= term && agree(log, a.leader_logs[t], k);
        lemma_committed_grows(a, b, members, t, i);
        lemma_agree_trans(log, a.leader_logs[t], b.leader_logs[t], k, i);
        assert(committed(b, members, t, i));
    }
}

pub proof fn lemma_lacked_grows(a: Record, b: Record, t: u64, i: nat, until: int, later: int)
    requires
        grows(a, b),
        a.elections.contains_key(t),
        i <= a.leader_logs[t].len(),
        lacked(a, t, i, until),
        until <= later,
    ensures
        lacked(b, t, i, later),
{
    let u = choose|u: u64| #[trigger]
        a.elections.contains_key(u) && t < u < until && !agree(
            a.elections[u].base,
            a.leader_logs[t],
            i,
        );
    assert(b.elections.contains_key(u));
    if agree(b.elections[u].base, b.leader_logs[t], i) {
        lemma_agree_less(a.leader_logs[t], b.leader_logs[t], a.leader_logs[t].len(), i);
        lemma_agree_trans(a.leader_logs[t], b.leader_logs[t], a.elections[u].base, i, i);
        lemma_agree_trans(b.elections[u].base, b.leader_logs[t], a.leader_logs[t], i, i);
    }
}

pub proof fn lemma_keeps_acked_grows(
    a: Record,
    b: Record,
    v: NodeId,
    t: u64,
    log: Seq<LogEntryView>,
    until: int,
    later: int,
)
    requires
        grows(a, b),
        a.acks.contains_key((v, t)),
        a.elections.contains_key(t),
        a.acks[(v, t)] <= a.leader_logs[t].len(),
        b.acks[(v, t)] == a.acks[(v, t)],
        keeps_acked(a, v, t, log, until),
        until <= later,
    ensures
        keeps_acked(b, v, t, log, later),
{
    lemma_agree_less(
        a.leader_logs[t],
        b.leader_logs[t],
        a.leader_logs[t].len(),
        a.leader_logs[t].len(),
    );
    assert forall|i: nat|
        1 <= i <= b.acks[(v, t)] && b.leader_logs[t][i - 1].term == t implies #[trigger] agree(
        log,
        b.leader_logs[t],
        i,
    ) || lacked(b, t, i, later) by {
        assert(a.leader_logs[t][i - 1] == b.leader_logs[t][i - 1]);
        if agree(log, a.leader_logs[t], i) {
            lemma_agree_less(a.leader_logs[t], b.leader_logs[t], a.leader_logs[t].len(), i);
            lemma_agree_trans(log, a.leader_logs[t], b.leader_logs[t], i, i);
        } else {
            lemma_lacked_grows(a, b, t, i, until, later);
        }
    }
}

pub proof fn lemma_note_ok_grows(a: Record, b: Record, members: Set<NodeId>, note: Note)
    requires
        grows(a, b),
        note_ok(a, members, note),
    ensures
        note_ok(b, members, note),
{
    match note {
        Note::Offer { from, term, prev, prev_term, entries, commit } => {
            let la = a.leader_logs[term];
            let lb = b.leader_logs[term];
            assert(a.elections.contains_key(term));
            lemma_agree_less(la, lb, la.len(), la.len());
            assert(entries =~= lb.subrange(prev as int, (prev + entries.len()) as int));
            lemma_commit_ok_grows(a, b, members, la, commit, term, term);
            if commit > 0 {
                let (t, i) = choose|t: u64, i: nat| #[trigger]
                    committed(b, members, t, i) && commit <= i && t <= term && agree(
                        la,
                        b.leader_logs[t],
                        commit,
                    );
                lemma_agree_trans(la, lb, lb, la.len(), lb.len());
                lemma_agree_trans(lb, la, b.leader_logs[t], la.len(), commit);
                assert(committed(b, members, t, i));
            }
        },
        Note::Ack { from, to, term, upto } => {
            assert(a.acks.contains_key((from, term)));
        },
        _ => {},
    }
}

/// The record changed only where `n` is concerned.
pub open spec fn only_for(a: Record, b: Record, n: NodeId) -> bool {
    &&& forall|v: NodeId, t: u64| #[trigger]
        b.ballots.contains_key((v, t)) ==> v == n || a.ballots.contains_key((v, t))
    &&& forall|v: NodeId, t: u64| #[trigger]
        b.acks.contains_key((v, t)) ==> v == n || (a.acks.contains_key((v, t)) && b.acks[(v, t)]
            == a.acks[(v, t)])
    &&& forall|t: u64| #[trigger]
        b.elections.contains_key(t) ==> b.elections[t].leader == n || (a.elections.contains_key(t)
            && b.leader_logs[t] == a.leader_logs[t])
}

/// A step of one node leaves the others consistent.
pub proof fn lemma_other_node(a: Record, b: Record, members: Set<NodeId>, n: NodeId, m: NodeId, c: Core)
    requires
        grows(a, b),
        only_for(a, b, n),
        record_ok(a, members),
        node_ok(a, members, m, c),
        m != n,
    ensures
        node_ok(b, members, m, c),
{
    reveal(record_ok);
    lemma_from_leaders_grows(a, b, c.log);
    lemma_commit_ok_grows(a, b, members, c.log, c.commit, c.term, c.term);
    assert forall|t: u64| #[trigger] b.acks.contains_key((m, t)) implies t <= c.term
        && keeps_acked(b, m, t, c.log, c.term + 1) by {
        assert(a.acks.contains_key((m, t)));
        lemma_keeps_acked_grows(a, b, m, t, c.log, c.term + 1, c.term + 1);
    }
    assert forall|t: u64| #[trigger] b.ballots.contains_key((m, t)) implies t <= c.term && (t
        == c.term ==> c.vote == Some(b.ballots[(m, t)].candidate)) by {
        assert(a.ballots.contains_key((m, t)));
    }
    if c.role == RaftState::Candidate {
        assert(candidate_ok(b, members, m, c)) by {
            if b.elections.contains_key(c.term) && b.elections[c.term].leader == m {
                assert(a.elections.contains_key(c.term));
            }
            assert forall|g: NodeId| #[trigger] c.granted.contains(g) implies b.ballots.contains_key(
                (g, c.term),
            ) && b.ballots[(g, c.term)].candidate == m by {
                assert(a.ballots.contains_key((g, c.term)));
            }
        }
    }
    if c.role == RaftState::Leader {
        assert(leader_ok(b, members, m, c)) by {
            assert(a.elections.contains_key(c.term));
            assert(b.elections.contains_key(c.term));
            assert(a.acks.contains_key((m, c.term)));
            assert(b.acks.contains_key((m, c.term)));
            assert forall|p: NodeId|
                members.contains(p) && p != m && #[trigger] c.matched_by(p)
                    > c.commit implies b.acks.contains_key((p, c.term)) && c.matched_by(p) <= b.acks[(
                p,
                c.term,
            )] by {
                assert(a.acks.contains_key((p, c.term)));
            }
        }
    }
}

// ── Leader completeness ─────────────────────────────────────────────────────

pub proof fn lemma_election(r: Record, members: Set<NodeId>, t: u64)
    requires
        record_ok(r, members),
        r.elections.contains_key(t),
    ensures
        election_ok(r, members, t),
{
    reveal(record_ok);
}

/// Terms in a log do not descend.
pub proof fn lemma_terms_ascend(r: Record, members: Set<NodeId>, log: Seq<LogEntryView>, i: int, j: int)
    requires
        record_ok(r, members),
        from_leaders(r, log),
        0 <= i <= j < log.len(),
    ensures
        log[i].term <= log[j].term,
{
    let t = log[j].term;
    let leader = r.leader_logs[t];
    lemma_agree_less(log, leader, (j + 1) as nat, (j + 1) as nat);
    assert(log[i] == leader[i]);
    lemma_leader_terms(r, members, t, i);
}

/// In a leader's log, entries of its own term stand behind those it was elected
/// with, which are older.
pub proof fn lemma_leader_terms(r: Record, members: Set<NodeId>, t: u64, i: int)
    requires
        record_ok(r, members),
        r.elections.contains_key(t),
        0 <= i < r.leader_logs[t].len(),
    ensures
        r.leader_logs[t][i].term <= t,
        r.leader_logs[t][i].term == t <==> i >= r.elections[t].base.len(),
{
    reveal(record_ok);
    let e = r.elections[t];
    assert(election_ok(r, members, t));
    assert(candidacy_ok(r, members, e.leader, t));
    if i < e.base.len() {
        lemma_agree_less(e.base, r.leader_logs[t], e.base.len(), e.base.len());
        assert(e.base[i] == r.leader_logs[t][i]);
        assert(e.base[i].term < t);
    } else {
        assert(r.leader_logs[t][i].term == t);
    }
}

/// Leader Completeness: what is committed in a term is in the log of every
/// leader of a later term, from its election on.
pub proof fn law_leader_completeness(r: Record, members: Set<NodeId>, t: u64, i: nat, u: u64)
    requires
        members.finite(),
        record_ok(r, members),
        committed(r, members, t, i),
        r.elections.contains_key(u),
        t < u,
    ensures
        agree(r.elections[u].base, r.leader_logs[t], i),
        agree(r.leader_logs[u], r.leader_logs[t], i),
    decreases u,
{
    reveal(record_ok);
    let q = choose|q: Set<NodeId>| is_quorum(members, q) && #[trigger] acked_by(r, t, i, q);
    let e = r.elections[u];
    let target = r.leader_logs[t];
    assert(election_ok(r, members, u));
    let v = law_quorums_meet(members, q, e.voters);
    assert(r.acks.contains_key((v, t)) && r.acks[(v, t)] >= i);
    assert(r.ballots.contains_key((v, u)));
    let ballot = r.ballots[(v, u)];
    assert(keeps_acked(r, v, t, ballot.log, u as int));
    assert(agree(ballot.log, target, i) || lacked(r, t, i, u as int));
    if lacked(r, t, i, u as int) {
        let w = choose|w: u64| #[trigger]
            r.elections.contains_key(w) && t < w < u && !agree(r.elections[w].base, target, i);
        law_leader_completeness(r, members, t, i, w);
        assert(false);
    }
    assert(ballot_ok(r, members, v, u));
    let base = e.base;
    assert(candidacy_ok(r, members, e.leader, u));
    assert(up_to_date(base, ballot.log));
    lemma_agree_less(ballot.log, target, i, i);
    assert(ballot.log[i - 1].term == t);
    lemma_terms_ascend(r, members, ballot.log, i - 1, ballot.log.len() - 1);
    assert(last_term_of(ballot.log) >= t);
    let last = last_term_of(base);
    assert(last >= t);
    assert(base.len() > 0) by {
        if base.len() == 0 {
            assert(last == 0);
            assert(t == 0);
            // No leader is elected in term zero: its candidacy would be below it.
            assert(election_ok(r, members, t));
            assert(candidacy_ok(r, members, r.elections[t].leader, t));
            lemma_leader_terms(r, members, t, i - 1);
            assert(last_term_of(ballot.log) == 0);
            assert(base.len() >= ballot.log.len());
        }
    }
    assert(base[base.len() - 1].term == last);
    assert(r.elections.contains_key(last));
    assert(agree(base, r.leader_logs[last], base.len()));
    if last == last_term_of(ballot.log) {
        assert(ballot.log[ballot.log.len() - 1].term == last);
        assert(agree(ballot.log, r.leader_logs[last], ballot.log.len()));
        lemma_agree_trans(
            ballot.log,
            r.leader_logs[last],
            r.leader_logs[last],
            ballot.log.len(),
            ballot.log.len(),
        );
        lemma_agree_trans(
            base,
            r.leader_logs[last],
            ballot.log,
            base.len(),
            ballot.log.len(),
        );
        assert(agree(base, ballot.log, ballot.log.len()));
        lemma_agree_trans(base, ballot.log, target, ballot.log.len(), i);
    } else {
        assert(base[base.len() - 1].term < u);
        law_leader_completeness(r, members, t, i, last);
        lemma_leader_terms(r, members, last, base.len() - 1);
        lemma_agree_less(base, r.leader_logs[last], base.len(), base.len());
        assert(base.len() - 1 >= r.elections[last].base.len());
        lemma_agree_trans(base, r.leader_logs[last], target, base.len(), i);
    }
    lemma_agree_trans(base, r.leader_logs[u], r.leader_logs[u], base.len(), base.len());
    lemma_agree_trans(r.leader_logs[u], base, target, base.len(), i);
}

} // verus!
