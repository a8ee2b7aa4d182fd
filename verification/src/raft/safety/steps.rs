//! Every step of the protocol keeps the cluster consistent.

use vstd::prelude::*;

use crate::config::NodeId;
use crate::raft::log::LogEntryView;
use crate::raft::safety::consistency::{
    acked_by, ballot_ok, candidacy_ok, candidate_ok, commit_ok, committed, election_ok,
    from_leaders, grows, holds, keeps_acked, lacked, law_leader_completeness, law_quorums_meet,
    leader_ok, lemma_agree_by_entries, lemma_agree_less, lemma_agree_trans, lemma_commit_ok_grows,
    lemma_committed_grows, lemma_election, lemma_from_leaders_grows, lemma_keeps_acked_grows,
    lemma_leader_terms, lemma_note_ok_grows, lemma_other_node, node_ok, note_ok, only_for,
    record_ok, terms_at_most,
};
use crate::raft::safety::protocol::{
    agree, fits, held, is_quorum, merged, Core, Note, Record, Step, System,
};
use crate::raft::state::RaftState;

verus! {

/// What was on record stays consistent as the record grows.
proof fn lemma_old_record(a: Record, b: Record, members: Set<NodeId>)
    requires
        grows(a, b),
        record_ok(a, members),
    ensures
        forall|v: NodeId, t: u64|
            a.ballots.contains_key((v, t)) ==> #[trigger] ballot_ok(b, members, v, t),
        forall|n: NodeId, t: u64|
            a.candidacies.contains_key((n, t)) ==> #[trigger] candidacy_ok(b, members, n, t),
        forall|t: u64|
            a.elections.contains_key(t) && b.leader_logs[t] == a.leader_logs[t]
                ==> #[trigger] election_ok(b, members, t),
        forall|v: NodeId, u: u64, t: u64|
            #![trigger a.ballots.contains_key((v, u)), a.acks.contains_key((v, t))]
            a.ballots.contains_key((v, u)) && a.acks.contains_key((v, t)) && t < u && (
            b.elections.contains_key(u) ==> b.elections[u].voters.contains(v)) && b.acks[(v, t)]
                == a.acks[(v, t)] ==> keeps_acked(b, v, t, b.ballots[(v, u)].log, u as int),
        forall|e: LogEntryView| #[trigger]
            a.applied.contains(e) ==> exists|t: u64, i: nat| #[trigger]
                committed(b, members, t, i) && 1 <= e.index <= i && b.leader_logs[t][e.index - 1]
                    == e,
{
    reveal(record_ok);
    assert forall|v: NodeId, t: u64| a.ballots.contains_key((v, t)) implies #[trigger] ballot_ok(
        b,
        members,
        v,
        t,
    ) by {
        assert(ballot_ok(a, members, v, t));
        assert(a.candidacies.contains_key((a.ballots[(v, t)].candidate, t)));
        lemma_from_leaders_grows(a, b, a.ballots[(v, t)].log);
    }
    assert forall|n: NodeId, t: u64|
        a.candidacies.contains_key((n, t)) implies #[trigger] candidacy_ok(b, members, n, t) by {
        assert(candidacy_ok(a, members, n, t));
        assert(a.ballots.contains_key((n, t)));
        lemma_from_leaders_grows(a, b, a.candidacies[(n, t)]);
    }
    assert forall|t: u64|
        a.elections.contains_key(t) && b.leader_logs[t]
            == a.leader_logs[t] implies #[trigger] election_ok(b, members, t) by {
        assert(election_ok(a, members, t));
        let e = a.elections[t];
        assert(a.candidacies.contains_key((e.leader, t)));
        lemma_from_leaders_grows(a, b, a.leader_logs[t]);
        assert forall|w: NodeId| #[trigger] e.voters.contains(w) implies b.ballots.contains_key(
            (w, t),
        ) && b.ballots[(w, t)].candidate == e.leader by {
            assert(a.ballots.contains_key((w, t)));
        }
    }
    assert forall|v: NodeId, u: u64, t: u64|
        #![trigger a.ballots.contains_key((v, u)), a.acks.contains_key((v, t))]
        a.ballots.contains_key((v, u)) && a.acks.contains_key((v, t)) && t < u && (
        b.elections.contains_key(u) ==> b.elections[u].voters.contains(v)) && b.acks[(v, t)]
            == a.acks[(v, t)] implies keeps_acked(b, v, t, b.ballots[(v, u)].log, u as int) by {
        assert(a.elections.contains_key(u) ==> a.elections[u].voters.contains(v));
        assert(keeps_acked(a, v, t, a.ballots[(v, u)].log, u as int));
        lemma_keeps_acked_grows(a, b, v, t, a.ballots[(v, u)].log, u as int, u as int);
    }
    assert forall|e: LogEntryView| #[trigger] a.applied.contains(e) implies exists|t: u64, i: nat|
     #[trigger]
        committed(b, members, t, i) && 1 <= e.index <= i && b.leader_logs[t][e.index - 1]
            == e by {
        let (t, i) = choose|t: u64, i: nat| #[trigger]
            committed(a, members, t, i) && 1 <= e.index <= i && a.leader_logs[t][e.index - 1] == e;
        lemma_committed_grows(a, b, members, t, i);
        lemma_agree_less(a.leader_logs[t], b.leader_logs[t], i, i);
        assert(committed(b, members, t, i));
    }
}

/// A step of one node keeps the cluster consistent if it keeps the record and
/// the node consistent, and what it sends is true.
proof fn lemma_step(s: System, s2: System, n: NodeId)
    requires
        holds(s),
        s.members.contains(n),
        s2.members == s.members,
        s2.nodes == s.nodes.insert(n, s2.nodes[n]),
        grows(s.record, s2.record),
        only_for(s.record, s2.record, n),
        record_ok(s2.record, s.members),
        node_ok(s2.record, s.members, n, s2.nodes[n]),
        forall|m: Note| #[trigger]
            s2.notes.contains(m) ==> s.notes.contains(m) || note_ok(s2.record, s.members, m),
    ensures
        holds(s2),
{
    assert(s2.nodes.dom() =~= s2.members);
    assert forall|m: NodeId| #[trigger] s2.members.contains(m) implies node_ok(
        s2.record,
        s2.members,
        m,
        s2.nodes[m],
    ) by {
        if m != n {
            lemma_other_node(s.record, s2.record, s.members, n, m, s.nodes[m]);
        }
    }
    assert forall|m: Note| #[trigger] s2.notes.contains(m) implies note_ok(
        s2.record,
        s2.members,
        m,
    ) by {
        if s.notes.contains(m) {
            lemma_note_ok_grows(s.record, s2.record, s.members, m);
        }
    }
}

proof fn lemma_adopt(s: System, n: NodeId, term: u64)
    requires
        holds(s),
        s.allows(Step::Adopt { n, term }),
    ensures
        holds(s.after(Step::Adopt { n, term })),
        grows(s.record, s.after(Step::Adopt { n, term }).record),
{
    reveal(record_ok);
    let s2 = s.after(Step::Adopt { n, term });
    let r = s.record;
    let c = s.nodes[n];
    assert(node_ok(r, s.members, n, c));
    let d = s2.nodes[n];
    assert forall|t: u64| #[trigger] r.acks.contains_key((n, t)) implies t <= d.term
        && keeps_acked(r, n, t, d.log, d.term + 1) by {
        lemma_keeps_acked_grows(r, r, n, t, c.log, c.term + 1, d.term + 1);
    }
    lemma_commit_ok_grows(r, r, s.members, c.log, c.commit, c.term, d.term);
    lemma_step(s, s2, n);
}

proof fn lemma_step_down(s: System, n: NodeId)
    requires
        holds(s),
        s.allows(Step::StepDown { n }),
    ensures
        holds(s.after(Step::StepDown { n })),
        grows(s.record, s.after(Step::StepDown { n }).record),
{
    reveal(record_ok);
    lemma_step(s, s.after(Step::StepDown { n }), n);
}

proof fn lemma_restart(s: System, n: NodeId, commit: nat)
    requires
        holds(s),
        s.allows(Step::Restart { n, commit }),
    ensures
        holds(s.after(Step::Restart { n, commit })),
        grows(s.record, s.after(Step::Restart { n, commit }).record),
{
    reveal(record_ok);
    let r = s.record;
    let c = s.nodes[n];
    assert(node_ok(r, s.members, n, c));
    if commit > 0 {
        let (t, i) = choose|t: u64, i: nat| #[trigger]
            committed(r, s.members, t, i) && c.commit <= i && t <= c.term && agree(
                c.log,
                r.leader_logs[t],
                c.commit,
            );
        lemma_agree_less(c.log, r.leader_logs[t], c.commit, commit);
        assert(committed(r, s.members, t, i));
    }
    lemma_step(s, s.after(Step::Restart { n, commit }), n);
}

proof fn lemma_stand(s: System, n: NodeId)
    requires
        holds(s),
        s.allows(Step::Stand { n }),
    ensures
        holds(s.after(Step::Stand { n })),
        grows(s.record, s.after(Step::Stand { n }).record),
{
    reveal(record_ok);
    let s2 = s.after(Step::Stand { n });
    let a = s.record;
    let b = s2.record;
    let m = s.members;
    let c = s.nodes[n];
    let d = s2.nodes[n];
    assert(node_ok(a, m, n, c));
    assert(!a.ballots.contains_key((n, d.term)));
    assert(!a.candidacies.contains_key((n, d.term)));
    assert(grows(a, b));
    assert(only_for(a, b, n));
    lemma_old_record(a, b, m);
    lemma_from_leaders_grows(a, b, c.log);
    lemma_commit_ok_grows(a, b, m, c.log, c.commit, c.term, d.term);
    assert forall|t: u64| #[trigger] b.acks.contains_key((n, t)) implies t <= d.term
        && keeps_acked(b, n, t, d.log, d.term + 1) && keeps_acked(b, n, t, d.log, d.term as int) by {
        assert(a.acks.contains_key((n, t)));
        lemma_keeps_acked_grows(a, b, n, t, c.log, c.term + 1, d.term + 1);
        lemma_keeps_acked_grows(a, b, n, t, c.log, c.term + 1, d.term as int);
    }
    assert(record_ok(b, m)) by {
        assert forall|v: NodeId, t: u64| #[trigger] b.ballots.contains_key((v, t)) implies
            ballot_ok(b, m, v, t) by {
            if a.ballots.contains_key((v, t)) {
                assert(ballot_ok(b, m, v, t));
            }
        }
        assert forall|v: NodeId, t: u64| #[trigger] b.candidacies.contains_key((v, t)) implies
            candidacy_ok(b, m, v, t) by {
            if a.candidacies.contains_key((v, t)) {
                assert(candidacy_ok(b, m, v, t));
            }
        }
        assert forall|t: u64| #[trigger] b.elections.contains_key(t) implies election_ok(
            b,
            m,
            t,
        ) by {
            assert(a.elections.contains_key(t));
        }
        assert forall|v: NodeId, u: u64, t: u64|
            #![trigger b.ballots.contains_key((v, u)), b.acks.contains_key((v, t))]
            b.ballots.contains_key((v, u)) && b.acks.contains_key((v, t)) && t < u && (
            b.elections.contains_key(u) ==> b.elections[u].voters.contains(v)) implies keeps_acked(
            b,
            v,
            t,
            b.ballots[(v, u)].log,
            u as int,
        ) by {
            assert(a.acks.contains_key((v, t)));
            if a.ballots.contains_key((v, u)) {
            } else {
                assert(v == n && u == d.term);
            }
        }
    }
    assert(candidate_ok(b, m, n, d)) by {
        if b.elections.contains_key(d.term) && b.elections[d.term].leader == n {
            assert(election_ok(a, m, d.term));
        }
    }
    lemma_step(s, s2, n);
}

proof fn lemma_vote(s: System, n: NodeId, ask: Note)
    requires
        holds(s),
        s.allows(Step::Vote { n, ask }),
    ensures
        holds(s.after(Step::Vote { n, ask })),
        grows(s.record, s.after(Step::Vote { n, ask }).record),
{
    reveal(record_ok);
    let s2 = s.after(Step::Vote { n, ask });
    let a = s.record;
    let b = s2.record;
    let m = s.members;
    let c = s.nodes[n];
    let d = s2.nodes[n];
    assert(node_ok(a, m, n, c));
    assert(note_ok(a, m, ask));
    if a.ballots.contains_key((n, c.term)) {
        lemma_step(s, s2, n);
    } else {
        assert(c.vote is None);
        assert(grows(a, b));
        assert(only_for(a, b, n));
        lemma_old_record(a, b, m);
        lemma_from_leaders_grows(a, b, c.log);
        lemma_commit_ok_grows(a, b, m, c.log, c.commit, c.term, c.term);
        assert forall|t: u64| #[trigger] b.acks.contains_key((n, t)) implies t <= d.term
            && keeps_acked(b, n, t, d.log, d.term + 1) by {
            assert(a.acks.contains_key((n, t)));
            lemma_keeps_acked_grows(a, b, n, t, c.log, c.term + 1, c.term + 1);
        }
        if a.elections.contains_key(c.term) {
            assert(election_ok(a, m, c.term));
            assert(!a.elections[c.term].voters.contains(n));
        }
        assert(c.role != RaftState::Candidate) by {
            if c.role == RaftState::Candidate {
                assert(candidacy_ok(a, m, n, c.term));
            }
        }
        assert(c.role != RaftState::Leader) by {
            if c.role == RaftState::Leader {
                assert(election_ok(a, m, c.term));
                assert(candidacy_ok(a, m, n, c.term));
            }
        }
        assert(record_ok(b, m)) by {
            assert forall|v: NodeId, t: u64| #[trigger] b.ballots.contains_key((v, t)) implies
                ballot_ok(b, m, v, t) by {
                if a.ballots.contains_key((v, t)) {
                    assert(ballot_ok(b, m, v, t));
                }
            }
            assert forall|v: NodeId, t: u64| #[trigger] b.candidacies.contains_key((v, t)) implies
                candidacy_ok(b, m, v, t) by {
                assert(a.candidacies.contains_key((v, t)));
            }
            assert forall|t: u64| #[trigger] b.elections.contains_key(t) implies election_ok(
                b,
                m,
                t,
            ) by {
                assert(a.elections.contains_key(t));
            }
            assert forall|v: NodeId, u: u64, t: u64|
                #![trigger b.ballots.contains_key((v, u)), b.acks.contains_key((v, t))]
                b.ballots.contains_key((v, u)) && b.acks.contains_key((v, t)) && t < u && (
                b.elections.contains_key(u) ==> b.elections[u].voters.contains(
                    v,
                )) implies keeps_acked(b, v, t, b.ballots[(v, u)].log, u as int) by {
                assert(a.acks.contains_key((v, t)));
                if a.ballots.contains_key((v, u)) {
                } else {
                    assert(v == n && u == c.term);
                    assert(!a.elections.contains_key(u));
                    assert(keeps_acked(b, v, t, c.log, c.term + 1));
                    assert forall|i: nat|
                        1 <= i <= b.acks[(v, t)] && b.leader_logs[t][i - 1].term
                            == t implies #[trigger] agree(c.log, b.leader_logs[t], i) || lacked(
                        b,
                        t,
                        i,
                        u as int,
                    ) by {
                        if lacked(b, t, i, c.term + 1) {
                            let w = choose|w: u64| #[trigger]
                                b.elections.contains_key(w) && t < w < c.term + 1 && !agree(
                                    b.elections[w].base,
                                    b.leader_logs[t],
                                    i,
                                );
                            assert(w != c.term);
                        }
                    }
                }
            }
        }
        lemma_step(s, s2, n);
    }
}

proof fn lemma_count(s: System, n: NodeId, from: NodeId)
    requires
        holds(s),
        s.allows(Step::Count { n, from }),
    ensures
        holds(s.after(Step::Count { n, from })),
        grows(s.record, s.after(Step::Count { n, from }).record),
{
    reveal(record_ok);
    let s2 = s.after(Step::Count { n, from });
    let r = s.record;
    let c = s.nodes[n];
    assert(node_ok(r, s.members, n, c));
    assert(note_ok(r, s.members, Note::Grant { from, to: n, term: c.term }));
    assert(ballot_ok(r, s.members, from, c.term));
    assert(candidate_ok(r, s.members, n, s2.nodes[n]));
    lemma_step(s, s2, n);
}

proof fn lemma_lead(s: System, n: NodeId)
    requires
        holds(s),
        s.allows(Step::Lead { n }),
    ensures
        holds(s.after(Step::Lead { n })),
        grows(s.record, s.after(Step::Lead { n }).record),
{
    reveal(record_ok);
    let s2 = s.after(Step::Lead { n });
    let a = s.record;
    let b = s2.record;
    let m = s.members;
    let c = s.nodes[n];
    let d = s2.nodes[n];
    assert(node_ok(a, m, n, c));
    assert(candidate_ok(a, m, n, c));
    assert(is_quorum(m, c.granted));
    if a.elections.contains_key(c.term) {
        assert(election_ok(a, m, c.term));
        let v = law_quorums_meet(m, c.granted, a.elections[c.term].voters);
        assert(a.ballots.contains_key((v, c.term)));
        assert(false);
    }
    assert forall|v: NodeId| !a.acks.contains_key((v, c.term)) by {}
    assert(grows(a, b));
    assert(only_for(a, b, n));
    lemma_old_record(a, b, m);
    lemma_from_leaders_grows(a, b, c.log);
    lemma_commit_ok_grows(a, b, m, c.log, c.commit, c.term, c.term);
    assert(candidacy_ok(a, m, n, c.term));
    assert forall|t: u64| #[trigger] b.acks.contains_key((n, t)) implies t <= d.term
        && keeps_acked(b, n, t, d.log, d.term + 1) by {
        if t != c.term {
            assert(a.acks.contains_key((n, t)));
            lemma_keeps_acked_grows(a, b, n, t, c.log, c.term + 1, c.term + 1);
        }
    }
    assert(record_ok(b, m)) by {
        assert forall|v: NodeId, t: u64| #[trigger] b.ballots.contains_key((v, t)) implies
            ballot_ok(b, m, v, t) by {
            assert(a.ballots.contains_key((v, t)));
        }
        assert forall|v: NodeId, t: u64| #[trigger] b.candidacies.contains_key((v, t)) implies
            candidacy_ok(b, m, v, t) by {
            assert(a.candidacies.contains_key((v, t)));
        }
        assert forall|t: u64| #[trigger] b.elections.contains_key(t) implies election_ok(
            b,
            m,
            t,
        ) by {
            if t != c.term {
                assert(a.elections.contains_key(t));
            } else {
                let e = b.elections[t];
                assert(a.candidacies.contains_key((n, t)));
                assert(b.candidacies.contains_key((n, t)));
                assert forall|w: NodeId| #[trigger]
                    e.voters.contains(w) implies b.ballots.contains_key((w, t)) && b.ballots[(
                    w,
                    t,
                )].candidate == e.leader by {
                    assert(c.granted.contains(w));
                    assert(a.ballots.contains_key((w, t)));
                }
            }
        }
        assert forall|v: NodeId, u: u64, t: u64|
            #![trigger b.ballots.contains_key((v, u)), b.acks.contains_key((v, t))]
            b.ballots.contains_key((v, u)) && b.acks.contains_key((v, t)) && t < u && (
            b.elections.contains_key(u) ==> b.elections[u].voters.contains(v)) implies keeps_acked(
            b,
            v,
            t,
            b.ballots[(v, u)].log,
            u as int,
        ) by {
            assert(a.ballots.contains_key((v, u)));
            assert(a.acks.contains_key((v, t)));
        }
    }
    assert(leader_ok(b, m, n, d));
    lemma_step(s, s2, n);
}

proof fn lemma_append(s: System, n: NodeId, command: Seq<u8>)
    requires
        holds(s),
        s.allows(Step::Append { n, command }),
    ensures
        holds(s.after(Step::Append { n, command })),
        grows(s.record, s.after(Step::Append { n, command }).record),
{
    reveal(record_ok);
    let s2 = s.after(Step::Append { n, command });
    let a = s.record;
    let b = s2.record;
    let m = s.members;
    let c = s.nodes[n];
    let d = s2.nodes[n];
    assert(node_ok(a, m, n, c));
    assert(leader_ok(a, m, n, c));
    assert(election_ok(a, m, c.term));
    lemma_agree_by_entries(c.log, d.log, c.log.len());
    assert(grows(a, b));
    assert(only_for(a, b, n));
    lemma_old_record(a, b, m);
    lemma_from_leaders_grows(a, b, c.log);
    assert(from_leaders(b, d.log)) by {
        assert forall|i: int| 0 <= i < d.log.len() implies {
            let term = (#[trigger] d.log[i]).term;
            &&& b.elections.contains_key(term)
            &&& agree(d.log, b.leader_logs[term], (i + 1) as nat)
        } by {
            if i < c.log.len() {
                let term = c.log[i].term;
                lemma_agree_trans(
                    c.log,
                    d.log,
                    d.log,
                    c.log.len(),
                    d.log.len(),
                );
                lemma_agree_trans(
                    d.log,
                    c.log,
                    b.leader_logs[term],
                    c.log.len(),
                    (i + 1) as nat,
                );
            }
        }
    }
    lemma_commit_ok_grows(a, b, m, c.log, c.commit, c.term, c.term);
    if c.commit > 0 {
        let (t, i) = choose|t: u64, i: nat| #[trigger]
            committed(b, m, t, i) && c.commit <= i && t <= c.term && agree(
                c.log,
                b.leader_logs[t],
                c.commit,
            );
        lemma_agree_trans(c.log, d.log, d.log, c.log.len(), d.log.len());
        lemma_agree_trans(d.log, c.log, b.leader_logs[t], c.log.len(), c.commit);
        assert(committed(b, m, t, i));
    }
    assert forall|t: u64| #[trigger] b.acks.contains_key((n, t)) implies t <= d.term
        && keeps_acked(b, n, t, d.log, d.term + 1) by {
        if t != c.term {
            assert(a.acks.contains_key((n, t)));
            lemma_keeps_acked_grows(a, b, n, t, c.log, c.term + 1, c.term + 1);
            assert forall|i: nat|
                1 <= i <= b.acks[(n, t)] && b.leader_logs[t][i - 1].term == t implies #[trigger] agree(
                d.log,
                b.leader_logs[t],
                i,
            ) || lacked(b, t, i, d.term + 1) by {
                if agree(c.log, b.leader_logs[t], i) {
                    lemma_agree_trans(c.log, d.log, d.log, c.log.len(), d.log.len());
                    lemma_agree_trans(d.log, c.log, b.leader_logs[t], c.log.len(), i);
                }
            }
        }
    }
    assert(record_ok(b, m)) by {
        assert forall|v: NodeId, t: u64| #[trigger] b.ballots.contains_key((v, t)) implies
            ballot_ok(b, m, v, t) by {
            assert(a.ballots.contains_key((v, t)));
        }
        assert forall|v: NodeId, t: u64| #[trigger] b.candidacies.contains_key((v, t)) implies
            candidacy_ok(b, m, v, t) by {
            assert(a.candidacies.contains_key((v, t)));
        }
        assert forall|t: u64| #[trigger] b.elections.contains_key(t) implies election_ok(
            b,
            m,
            t,
        ) by {
            assert(a.elections.contains_key(t));
            if t == c.term {
                let e = a.elections[t];
                assert(a.candidacies.contains_key((e.leader, t)));
                lemma_agree_trans(e.base, c.log, d.log, e.base.len(), c.log.len());
                assert forall|w: NodeId| #[trigger]
                    e.voters.contains(w) implies b.ballots.contains_key((w, t)) && b.ballots[(
                    w,
                    t,
                )].candidate == e.leader by {
                    assert(a.ballots.contains_key((w, t)));
                }
            }
        }
        assert forall|v: NodeId, u: u64, t: u64|
            #![trigger b.ballots.contains_key((v, u)), b.acks.contains_key((v, t))]
            b.ballots.contains_key((v, u)) && b.acks.contains_key((v, t)) && t < u && (
            b.elections.contains_key(u) ==> b.elections[u].voters.contains(v)) implies keeps_acked(
            b,
            v,
            t,
            b.ballots[(v, u)].log,
            u as int,
        ) by {
            assert(a.ballots.contains_key((v, u)));
            assert(a.acks.contains_key((v, t)));
        }
    }
    assert(leader_ok(b, m, n, d)) by {
        assert forall|p: NodeId|
            m.contains(p) && p != n && #[trigger] d.matched_by(p) > d.commit implies b.acks.contains_key(
            (p, d.term),
        ) && d.matched_by(p) <= b.acks[(p, d.term)] by {
            assert(c.matched_by(p) == d.matched_by(p));
        }
    }
    lemma_step(s, s2, n);
}

proof fn lemma_offer(s: System, n: NodeId, prev: nat, count: nat, commit: nat)
    requires
        holds(s),
        s.allows(Step::Offer { n, prev, count, commit }),
    ensures
        holds(s.after(Step::Offer { n, prev, count, commit })),
        grows(s.record, s.after(Step::Offer { n, prev, count, commit }).record),
{
    reveal(record_ok);
    let s2 = s.after(Step::Offer { n, prev, count, commit });
    let r = s.record;
    let c = s.nodes[n];
    assert(node_ok(r, s.members, n, c));
    assert(leader_ok(r, s.members, n, c));
    let note = s.offer_of(n, prev, count, commit);
    if commit > 0 {
        let (t, i) = choose|t: u64, i: nat| #[trigger]
            committed(r, s.members, t, i) && c.commit <= i && t <= c.term && agree(
                c.log,
                r.leader_logs[t],
                c.commit,
            );
        lemma_agree_less(c.log, r.leader_logs[t], c.commit, commit);
        assert(committed(r, s.members, t, i));
    }
    assert(note_ok(r, s.members, note));
    assert(s2.nodes =~= s.nodes.insert(n, s2.nodes[n]));
    lemma_step(s, s2, n);
}

proof fn lemma_count_ack(s: System, n: NodeId, ack: Note)
    requires
        holds(s),
        s.allows(Step::CountAck { n, ack }),
    ensures
        holds(s.after(Step::CountAck { n, ack })),
        grows(s.record, s.after(Step::CountAck { n, ack }).record),
{
    reveal(record_ok);
    let s2 = s.after(Step::CountAck { n, ack });
    let r = s.record;
    let c = s.nodes[n];
    let d = s2.nodes[n];
    assert(node_ok(r, s.members, n, c));
    assert(note_ok(r, s.members, ack));
    assert(leader_ok(r, s.members, n, d)) by {
        assert forall|p: NodeId|
            s.members.contains(p) && p != n && #[trigger] d.matched_by(p)
                > d.commit implies r.acks.contains_key((p, d.term)) && d.matched_by(p) <= r.acks[(
            p,
            d.term,
        )] by {
            if p != ack->Ack_from {
                assert(c.matched_by(p) == d.matched_by(p));
            } else {
                assert(c.matched_by(p) == d.matched_by(p) || d.matched_by(p) == ack->upto);
            }
        }
    }
    lemma_step(s, s2, n);
}

proof fn lemma_presume(s: System, n: NodeId, p: NodeId, upto: nat)
    requires
        holds(s),
        s.allows(Step::Presume { n, p, upto }),
    ensures
        holds(s.after(Step::Presume { n, p, upto })),
        grows(s.record, s.after(Step::Presume { n, p, upto }).record),
{
    reveal(record_ok);
    let s2 = s.after(Step::Presume { n, p, upto });
    let r = s.record;
    let c = s.nodes[n];
    let d = s2.nodes[n];
    assert(node_ok(r, s.members, n, c));
    assert(leader_ok(r, s.members, n, d)) by {
        assert forall|v: NodeId|
            s.members.contains(v) && v != n && #[trigger] d.matched_by(v)
                > d.commit implies r.acks.contains_key((v, d.term)) && d.matched_by(v) <= r.acks[(
            v,
            d.term,
        )] by {
            assert(c.matched_by(v) == d.matched_by(v));
        }
    }
    lemma_step(s, s2, n);
}

proof fn lemma_commit(s: System, n: NodeId, index: nat)
    requires
        holds(s),
        s.allows(Step::Commit { n, index }),
    ensures
        holds(s.after(Step::Commit { n, index })),
        grows(s.record, s.after(Step::Commit { n, index }).record),
        committed(s.record, s.members, s.nodes[n].term, index),
{
    reveal(record_ok);
    let s2 = s.after(Step::Commit { n, index });
    let r = s.record;
    let c = s.nodes[n];
    let d = s2.nodes[n];
    assert(node_ok(r, s.members, n, c));
    assert(leader_ok(r, s.members, n, c));
    let q = c.holders(n, s.members, index);
    assert(acked_by(r, c.term, index, q)) by {
        assert forall|v: NodeId| #[trigger] q.contains(v) implies r.acks.contains_key((v, c.term))
            && r.acks[(v, c.term)] >= index by {
            if v != n {
                assert(c.matched_by(v) >= index);
            }
        }
    }
    assert(is_quorum(s.members, q));
    assert(committed(r, s.members, c.term, index));
    assert(agree(d.log, r.leader_logs[c.term], index));
    assert(leader_ok(r, s.members, n, d)) by {
        assert forall|p: NodeId|
            s.members.contains(p) && p != n && #[trigger] d.matched_by(p)
                > d.commit implies r.acks.contains_key((p, d.term)) && d.matched_by(p) <= r.acks[(
            p,
            d.term,
        )] by {
            assert(c.matched_by(p) == d.matched_by(p));
        }
    }
    lemma_step(s, s2, n);
}

proof fn lemma_apply(s: System, n: NodeId, index: nat)
    requires
        holds(s),
        s.allows(Step::Apply { n, index }),
    ensures
        holds(s.after(Step::Apply { n, index })),
        grows(s.record, s.after(Step::Apply { n, index }).record),
{
    reveal(record_ok);
    let s2 = s.after(Step::Apply { n, index });
    let a = s.record;
    let b = s2.record;
    let m = s.members;
    let c = s.nodes[n];
    assert(node_ok(a, m, n, c));
    assert(grows(a, b));
    lemma_old_record(a, b, m);
    let (t, i) = choose|t: u64, i: nat| #[trigger]
        committed(a, m, t, i) && c.commit <= i && t <= c.term && agree(
            c.log,
            a.leader_logs[t],
            c.commit,
        );
    lemma_committed_grows(a, b, m, t, i);
    lemma_agree_less(c.log, a.leader_logs[t], c.commit, c.commit);
    let e = c.log[index - 1];
    assert(e.index == index);
    assert(committed(b, m, t, i) && 1 <= e.index <= i && b.leader_logs[t][e.index - 1] == e);
    assert(record_ok(b, m)) by {
        assert forall|v: NodeId, t: u64| #[trigger] b.ballots.contains_key((v, t)) implies
            ballot_ok(b, m, v, t) by {
            assert(a.ballots.contains_key((v, t)));
        }
        assert forall|v: NodeId, t: u64| #[trigger] b.candidacies.contains_key((v, t)) implies
            candidacy_ok(b, m, v, t) by {
            assert(a.candidacies.contains_key((v, t)));
        }
        assert forall|t: u64| #[trigger] b.elections.contains_key(t) implies election_ok(
            b,
            m,
            t,
        ) by {
            assert(a.elections.contains_key(t));
        }
        assert forall|v: NodeId, u: u64, t: u64|
            #![trigger b.ballots.contains_key((v, u)), b.acks.contains_key((v, t))]
            b.ballots.contains_key((v, u)) && b.acks.contains_key((v, t)) && t < u && (
            b.elections.contains_key(u) ==> b.elections[u].voters.contains(v)) implies keeps_acked(
            b,
            v,
            t,
            b.ballots[(v, u)].log,
            u as int,
        ) by {
            assert(a.ballots.contains_key((v, u)));
            assert(a.acks.contains_key((v, t)));
        }
    }
    assert(s2.nodes =~= s.nodes.insert(n, s2.nodes[n]));
    lemma_other_node_same(a, b, m, n, c);
    lemma_step(s, s2, n);
}

/// What is applied does not concern what a node holds.
proof fn lemma_other_node_same(a: Record, b: Record, m: Set<NodeId>, n: NodeId, c: Core)
    requires
        record_ok(a, m),
        node_ok(a, m, n, c),
        grows(a, b),
        b == (Record { applied: b.applied, ..a }),
    ensures
        node_ok(b, m, n, c),
{
    let x: NodeId = if n == 0 {
        1
    } else {
        0
    };
    assert(only_for(a, b, x));
    lemma_other_node(a, b, m, x, n, c);
}

/// Logs with entries of the same term at the same place hold the same entries
/// up to there.
pub proof fn lemma_same_term(
    r: Record,
    a: Seq<LogEntryView>,
    b: Seq<LogEntryView>,
    i: int,
)
    requires
        from_leaders(r, a),
        from_leaders(r, b),
        0 <= i < a.len(),
        i < b.len(),
        a[i].term == b[i].term,
    ensures
        agree(a, b, (i + 1) as nat),
{
    let l = r.leader_logs[a[i].term];
    lemma_agree_trans(b, l, l, (i + 1) as nat, (i + 1) as nat);
    lemma_agree_trans(a, l, b, (i + 1) as nat, (i + 1) as nat);
}

/// As far as the log holds the entries by term, the terms are the same; the next
/// one, if there is one on both sides, differs.
pub proof fn lemma_held(log: Seq<LogEntryView>, prev: nat, entries: Seq<LogEntryView>)
    ensures
        held(log, prev, entries) <= entries.len(),
        held(log, prev, entries) > 0 ==> prev + held(log, prev, entries) <= log.len(),
        forall|j: int|
            0 <= j < held(log, prev, entries) ==> log[prev + j].term == (#[trigger] entries[j]).term,
        held(log, prev, entries) < entries.len() && prev + held(log, prev, entries) < log.len()
            ==> log[(prev + held(log, prev, entries)) as int].term != entries[held(
            log,
            prev,
            entries,
        ) as int].term,
    decreases entries.len(),
{
    if entries.len() == 0 || prev >= log.len() || log[prev as int].term != entries[0].term {
    } else {
        let rest = entries.skip(1);
        lemma_held(log, prev + 1, rest);
        let k = held(log, prev + 1, rest);
        assert forall|j: int| 0 <= j < 1 + k implies log[prev + j].term == (
        #[trigger] entries[j]).term by {
            if j > 0 {
                assert(rest[j - 1] == entries[j]);
            }
        }
        if k < rest.len() {
            assert(rest[k as int] == entries[(k + 1) as int]);
        }
    }
}

/// Taking over a leader's entries leaves the log as it was, where it holds them
/// already, or makes it the leader's log up to the last of them. In the second
/// case the two had parted.
pub proof fn lemma_merged(
    r: Record,
    log: Seq<LogEntryView>,
    leader: Seq<LogEntryView>,
    prev: nat,
    prev_term: u64,
    entries: Seq<LogEntryView>,
)
    requires
        from_leaders(r, log),
        from_leaders(r, leader),
        fits(log, prev, prev_term),
        fits(leader, prev, prev_term),
        prev + entries.len() <= leader.len(),
        entries == leader.subrange(prev as int, (prev + entries.len()) as int),
    ensures
        agree(merged(log, prev, entries), leader, prev + entries.len()),
        merged(log, prev, entries) == log || (merged(log, prev, entries) == leader.take(
            (prev + entries.len()) as int,
        ) && !agree(log, leader, prev + entries.len())),
{
    let k = held(log, prev, entries);
    let upto = prev + entries.len();
    lemma_held(log, prev, entries);
    if prev > 0 {
        lemma_same_term(r, log, leader, prev - 1);
    }
    assert(agree(log, leader, prev + k)) by {
        assert(log.take(0) =~= leader.take(0));
        if k > 0 {
            assert(entries[k - 1] == leader[prev + k - 1]);
            lemma_same_term(r, log, leader, prev + k - 1);
        }
    }
    if k < entries.len() {
        lemma_agree_less(log, leader, prev + k, prev + k);
        assert(merged(log, prev, entries) =~= leader.take(upto as int));
        lemma_agree_by_entries(leader.take(upto as int), leader, upto);
        if agree(log, leader, upto) {
            lemma_agree_less(log, leader, upto, upto);
            assert(entries[k as int] == leader[(prev + k) as int]);
            assert(log[(prev + k) as int] == leader[(prev + k) as int]);
        }
    }
}

proof fn lemma_accept(s: System, n: NodeId, offer: Note)
    requires
        holds(s),
        s.allows(Step::Accept { n, offer }),
    ensures
        holds(s.after(Step::Accept { n, offer })),
        grows(s.record, s.after(Step::Accept { n, offer }).record),
{
    let s2 = s.after(Step::Accept { n, offer });
    let a = s.record;
    let b = s2.record;
    let m = s.members;
    let c = s.nodes[n];
    let d = s2.nodes[n];
    let leader = a.leader_logs[c.term];
    let upto = offer->prev + offer->entries.len();
    assert(node_ok(a, m, n, c));
    assert(note_ok(a, m, offer));
    lemma_election(a, m, c.term);
    lemma_merged(a, c.log, leader, offer->prev, offer->prev_term, offer->entries);
    lemma_acks_grow(a, m, n, c, upto);
    assert(b == acks_raised(a, (n, c.term), upto));
    lemma_from_leaders_grows(a, b, c.log);
    lemma_from_leaders_grows(a, b, leader);
    if d.log != c.log {
        lemma_prefix_from_leaders(b, leader, upto);
        assert(terms_at_most(d.log, d.term)) by {
            assert forall|i: int| 0 <= i < d.log.len() implies (#[trigger] d.log[i]).term
                <= d.term by {
                lemma_leader_terms(a, m, c.term, i);
            }
        }
    }
    assert forall|t: u64| #[trigger] b.acks.contains_key((n, t)) implies t <= d.term
        && keeps_acked(b, n, t, d.log, d.term + 1) by {
        assert(t == c.term || a.acks.contains_key((n, t)));
        assert(t <= c.term);
        assert forall|i: nat|
            1 <= i <= b.acks[(n, t)] && b.leader_logs[t][i - 1].term == t implies #[trigger] agree(
            d.log,
            b.leader_logs[t],
            i,
        ) || lacked(b, t, i, d.term + 1) by {
            lemma_accept_keeps(a, m, n, c, d.log, upto, t, i);
            assert(b.elections == a.elections && b.leader_logs == a.leader_logs);
            if lacked(a, t, i, c.term + 1) {
                lemma_lacked_same(a, b, t, i, c.term + 1);
            }
        }
    }
    lemma_accept_commit(a, m, c.term, c.log, d.log, upto, c.commit, offer->commit);
    assert(upto <= d.log.len());
    lemma_commit_ok_grows(a, b, m, d.log, d.commit, c.term, c.term);
    assert(note_ok(b, m, Note::Ack { from: n, to: offer->Offer_from, term: c.term, upto }));
    lemma_step(s, s2, n);
}

/// The record with an acknowledgement raised to `upto`.
spec fn acks_raised(r: Record, key: (NodeId, u64), upto: nat) -> Record {
    Record {
        acks: if r.acks.contains_key(key) && r.acks[key] >= upto {
            r.acks
        } else {
            r.acks.insert(key, upto)
        },
        ..r
    }
}

proof fn lemma_lacked_same(a: Record, b: Record, t: u64, i: nat, until: int)
    requires
        lacked(a, t, i, until),
        a.elections == b.elections,
        a.leader_logs == b.leader_logs,
    ensures
        lacked(b, t, i, until),
{
    let w = choose|w: u64| #[trigger]
        a.elections.contains_key(w) && t < w < until && !agree(
            a.elections[w].base,
            a.leader_logs[t],
            i,
        );
    assert(b.elections.contains_key(w));
}

/// An acknowledgement in the node's own term keeps the record consistent.
proof fn lemma_acks_grow(a: Record, m: Set<NodeId>, n: NodeId, c: Core, upto: nat)
    requires
        record_ok(a, m),
        node_ok(a, m, n, c),
        m.contains(n),
        a.elections.contains_key(c.term),
        upto <= a.leader_logs[c.term].len(),
    ensures
        grows(a, acks_raised(a, (n, c.term), upto)),
        only_for(a, acks_raised(a, (n, c.term), upto), n),
        record_ok(acks_raised(a, (n, c.term), upto), m),
{
    reveal(record_ok);
    let b = acks_raised(a, (n, c.term), upto);
    assert(grows(a, b));
    assert(only_for(a, b, n));
    lemma_old_record(a, b, m);
    assert forall|v: NodeId, t: u64| #[trigger] b.ballots.contains_key((v, t)) implies ballot_ok(
        b,
        m,
        v,
        t,
    ) by {
        assert(a.ballots.contains_key((v, t)));
    }
    assert forall|v: NodeId, t: u64| #[trigger] b.candidacies.contains_key((v, t)) implies
        candidacy_ok(b, m, v, t) by {
        assert(a.candidacies.contains_key((v, t)));
    }
    assert forall|t: u64| #[trigger] b.elections.contains_key(t) implies election_ok(b, m, t) by {
        assert(a.elections.contains_key(t));
    }
    assert forall|v: NodeId, u: u64, t: u64|
        #![trigger b.ballots.contains_key((v, u)), b.acks.contains_key((v, t))]
        b.ballots.contains_key((v, u)) && b.acks.contains_key((v, t)) && t < u && (
        b.elections.contains_key(u) ==> b.elections[u].voters.contains(v)) implies keeps_acked(
        b,
        v,
        t,
        b.ballots[(v, u)].log,
        u as int,
    ) by {
        assert(a.ballots.contains_key((v, u)));
        assert(a.acks.contains_key((v, t)));
    }
}

/// The beginning of a log that comes from leaders comes from them too.
proof fn lemma_prefix_from_leaders(r: Record, log: Seq<LogEntryView>, k: nat)
    requires
        from_leaders(r, log),
        k <= log.len(),
    ensures
        from_leaders(r, log.take(k as int)),
{
    let some = log.take(k as int);
    assert forall|i: int| 0 <= i < some.len() implies {
        let term = (#[trigger] some[i]).term;
        &&& r.elections.contains_key(term)
        &&& agree(some, r.leader_logs[term], (i + 1) as nat)
    } by {
        assert(log[i] == some[i]);
        lemma_agree_by_entries(some, log, k);
        lemma_agree_trans(some, log, r.leader_logs[log[i].term], k, (i + 1) as nat);
    }
}

/// What a node acknowledged is still there after it took over a leader's entries.
proof fn lemma_accept_keeps(
    r: Record,
    m: Set<NodeId>,
    n: NodeId,
    c: Core,
    new: Seq<LogEntryView>,
    upto: nat,
    t: u64,
    i: nat,
)
    requires
        record_ok(r, m),
        node_ok(r, m, n, c),
        r.elections.contains_key(c.term),
        agree(new, r.leader_logs[c.term], upto),
        new == c.log || (new == r.leader_logs[c.term].take(upto as int) && !agree(
            c.log,
            r.leader_logs[c.term],
            upto,
        )),
        1 <= i,
        (t == c.term && i <= upto) || (r.acks.contains_key((n, t)) && i <= r.acks[(n, t)]),
        r.leader_logs[t][i - 1].term == t,
    ensures
        agree(new, r.leader_logs[t], i) || lacked(r, t, i, c.term + 1),
{
    reveal(record_ok);
    let leader = r.leader_logs[c.term];
    let older = r.leader_logs[t];
    if t == c.term && i <= upto {
        lemma_agree_less(new, leader, upto, i);
    } else if !lacked(r, t, i, c.term + 1) {
        assert(keeps_acked(r, n, t, c.log, c.term + 1));
        assert(agree(c.log, older, i));
        if new != c.log {
            if t == c.term {
                lemma_agree_less(c.log, leader, i, upto);
            } else {
                let base = r.elections[c.term].base;
                assert(election_ok(r, m, c.term));
                assert(agree(base, older, i));
                lemma_agree_less(base, leader, base.len(), i);
                // The node's log, the older leader's, the base and the new leader's
                // agree up to `i`.
                lemma_agree_trans(base, older, older, i, i);
                lemma_agree_trans(c.log, older, base, i, i);
                lemma_agree_trans(c.log, base, leader, i, i);
                if upto < i {
                    lemma_agree_less(c.log, leader, i, upto);
                } else {
                    lemma_agree_less(new, leader, upto, i);
                    lemma_agree_trans(base, leader, leader, i, i);
                    lemma_agree_trans(new, leader, base, i, i);
                    lemma_agree_trans(new, base, older, i, i);
                }
            }
        }
    }
}

/// What a node knows to be committed stays so after it took over a leader's
/// entries.
proof fn lemma_accept_commit(
    r: Record,
    m: Set<NodeId>,
    term: u64,
    log: Seq<LogEntryView>,
    new: Seq<LogEntryView>,
    upto: nat,
    known: nat,
    told: nat,
)
    requires
        m.finite(),
        record_ok(r, m),
        r.elections.contains_key(term),
        agree(new, r.leader_logs[term], upto),
        new == log || (new == r.leader_logs[term].take(upto as int) && !agree(
            log,
            r.leader_logs[term],
            upto,
        )),
        commit_ok(r, m, log, known, term),
        commit_ok(r, m, r.leader_logs[term], told, term),
        told <= upto,
    ensures
        commit_ok(
            r,
            m,
            new,
            if told <= known {
                known
            } else {
                told
            },
            term,
        ),
{
    let leader = r.leader_logs[term];
    if told <= known {
        if known > 0 && new != log {
            lemma_committed_in_leader(r, m, log, known, term);
            if upto < known {
                lemma_agree_less(log, leader, known, upto);
            }
            lemma_agree_less(new, leader, upto, known);
            lemma_agree_trans(new, leader, leader, known, known);
            lemma_agree_trans(log, leader, new, known, known);
            lemma_commit_ok_moves(r, m, log, new, known, term);
        }
    } else {
        lemma_agree_less(new, leader, upto, told);
        lemma_agree_trans(new, leader, leader, told, told);
        lemma_commit_ok_moves(r, m, leader, new, told, term);
    }
}

/// What a node knows to be committed is in the log of its term's leader.
pub proof fn lemma_committed_in_leader(
    r: Record,
    m: Set<NodeId>,
    log: Seq<LogEntryView>,
    k: nat,
    term: u64,
)
    requires
        m.finite(),
        record_ok(r, m),
        r.elections.contains_key(term),
        commit_ok(r, m, log, k, term),
        k > 0,
    ensures
        agree(log, r.leader_logs[term], k),
{
    let (t, i) = choose|t: u64, i: nat| #[trigger]
        committed(r, m, t, i) && k <= i && t <= term && agree(log, r.leader_logs[t], k);
    if t < term {
        law_leader_completeness(r, m, t, i, term);
        lemma_agree_less(r.leader_logs[term], r.leader_logs[t], i, k);
        lemma_agree_trans(r.leader_logs[term], r.leader_logs[t], r.leader_logs[t], k, k);
        lemma_agree_trans(log, r.leader_logs[t], r.leader_logs[term], k, k);
    }
}

/// What is committed of a log is so of one that agrees with it.
pub proof fn lemma_commit_ok_moves(
    r: Record,
    m: Set<NodeId>,
    log: Seq<LogEntryView>,
    new: Seq<LogEntryView>,
    k: nat,
    term: u64,
)
    requires
        commit_ok(r, m, log, k, term),
        agree(log, new, k),
    ensures
        commit_ok(r, m, new, k, term),
{
    if k > 0 {
        let (t, i) = choose|t: u64, i: nat| #[trigger]
            committed(r, m, t, i) && k <= i && t <= term && agree(log, r.leader_logs[t], k);
        lemma_agree_trans(log, new, new, k, k);
        lemma_agree_trans(new, log, r.leader_logs[t], k, k);
        assert(committed(r, m, t, i));
    }
}

/// Taking over a leader's entries changes nothing that is committed.
pub proof fn lemma_committed_entries_stay(s: System, n: NodeId, offer: Note, k: nat)
    requires
        holds(s),
        s.allows(Step::Accept { n, offer }),
        commit_ok(s.record, s.members, s.nodes[n].log, k, s.nodes[n].term),
    ensures
        agree(s.nodes[n].log, s.after(Step::Accept { n, offer }).nodes[n].log, k),
{
    let a = s.record;
    let c = s.nodes[n];
    let d = s.after(Step::Accept { n, offer }).nodes[n];
    assert(node_ok(a, s.members, n, c));
    assert(note_ok(a, s.members, offer));
    let leader = a.leader_logs[c.term];
    let upto = offer->prev + offer->entries.len();
    lemma_election(a, s.members, c.term);
    lemma_merged(a, c.log, leader, offer->prev, offer->prev_term, offer->entries);
    if k == 0 {
        assert(c.log.take(0) =~= d.log.take(0));
    } else if d.log != c.log {
        lemma_committed_in_leader(a, s.members, c.log, k, c.term);
        if upto < k {
            lemma_agree_less(c.log, leader, k, upto);
        }
        lemma_agree_less(d.log, leader, upto, k);
        lemma_agree_trans(d.log, leader, leader, k, k);
        lemma_agree_trans(c.log, leader, d.log, k, k);
    }
}

/// Whatever step a node takes, its term does not fall, and what is committed
/// stays in its log.
pub proof fn law_step_keeps_committed(s: System, step: Step, n: NodeId, k: nat)
    requires
        holds(s),
        s.allows(step),
        s.members.contains(n),
        commit_ok(s.record, s.members, s.nodes[n].log, k, s.nodes[n].term),
    ensures
        s.nodes[n].term <= s.after(step).nodes[n].term,
        agree(s.nodes[n].log, s.after(step).nodes[n].log, k),
{
    let c = s.nodes[n];
    let d = s.after(step).nodes[n];
    assert(k <= c.log.len());
    match step {
        Step::Accept { n: m, offer } => {
            if m == n {
                lemma_committed_entries_stay(s, n, offer, k);
            }
        },
        Step::Append { n: m, command } => {
            if m == n {
                lemma_agree_by_entries(c.log, d.log, k);
            }
        },
        _ => {},
    }
}

/// A cluster in which nothing happened yet is consistent.
pub proof fn law_initial_holds(s: System)
    requires
        s.is_initial(),
    ensures
        holds(s),
{
    reveal(record_ok);
}

/// Whatever step a node takes, the cluster stays consistent.
pub proof fn law_step_holds(s: System, step: Step)
    requires
        holds(s),
        s.allows(step),
    ensures
        holds(s.after(step)),
        grows(s.record, s.after(step).record),
{
    match step {
        Step::Adopt { n, term } => lemma_adopt(s, n, term),
        Step::StepDown { n } => lemma_step_down(s, n),
        Step::Stand { n } => lemma_stand(s, n),
        Step::Vote { n, ask } => lemma_vote(s, n, ask),
        Step::Count { n, from } => lemma_count(s, n, from),
        Step::Lead { n } => lemma_lead(s, n),
        Step::Append { n, command } => lemma_append(s, n, command),
        Step::Offer { n, prev, count, commit } => lemma_offer(s, n, prev, count, commit),
        Step::Accept { n, offer } => lemma_accept(s, n, offer),
        Step::CountAck { n, ack } => lemma_count_ack(s, n, ack),
        Step::Presume { n, p, upto } => lemma_presume(s, n, p, upto),
        Step::Commit { n, index } => lemma_commit(s, n, index),
        Step::Apply { n, index } => lemma_apply(s, n, index),
        Step::Restart { n, commit } => lemma_restart(s, n, commit),
    }
}

} // verus!
