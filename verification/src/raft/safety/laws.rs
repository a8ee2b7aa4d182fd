//! What holds of every history of a cluster, whatever is lost, repeated or
//! reordered, whoever crashes, and however logs are compacted in between.

use vstd::prelude::*;

use crate::config::NodeId;
use crate::raft::driver::{InputView, OutputView};
use crate::raft::laws::{
    law_applied_never_falls, law_commit_never_falls, lemma_output_from_action,
};
use crate::raft::log::LogEntryView;
use crate::raft::safety::cluster::{is_history, Cluster, Envelope, Event};
use crate::raft::safety::consistency::{
    commit_ok, committed, grows, holds, law_leader_completeness, lemma_agree_less,
    lemma_agree_trans, lemma_commit_ok_grows, lemma_election, lemma_from_leaders_grows, node_ok,
    record_ok,
};
use crate::raft::safety::handlers::{lemma_act, lemma_recovered, stands};
use crate::raft::safety::protocol::{agree, Core, Record, System};
use crate::raft::safety::refinement::{
    action_ok, keeps, leads_to, lemma_grows_trans, lemma_keeps_on, lemma_node_log,
    lemma_rpc_ok_stays, lemma_shows, mirrors, refines, rpc_ok,
};
use crate::raft::safety::steps::{law_initial_holds, lemma_same_term};
use crate::raft::state::RaftState;
use crate::raft::NodeView;

verus! {

// ── Histories of the cluster are histories of the protocol ──────────────────

/// `b` comes after `a`.
pub open spec fn follows(a: System, b: System) -> bool {
    &&& holds(b)
    &&& b.members == a.members
    &&& a.notes.subset_of(b.notes)
    &&& grows(a.record, b.record)
    &&& forall|n: NodeId| a.members.contains(n) ==> #[trigger] keeps(a, b, n)
}

pub proof fn lemma_follows_on(a: System, b: System, c: System)
    requires
        follows(a, b),
        follows(b, c),
    ensures
        follows(a, c),
{
    lemma_grows_trans(a.record, b.record, c.record);
    assert forall|n: NodeId| a.members.contains(n) implies #[trigger] keeps(a, c, n) by {
        assert(keeps(a, b, n));
        assert(keeps(b, c, n));
        lemma_keeps_on(a, b, c, n);
    }
}

pub proof fn lemma_follows_same(a: System)
    requires
        holds(a),
    ensures
        follows(a, a),
{
    assert forall|n: NodeId| a.members.contains(n) implies #[trigger] keeps(a, a, n) by {
        assert forall|k: nat|
            commit_ok(
                a.record,
                a.members,
                a.nodes[n].log,
                k,
                a.nodes[n].term,
            ) implies #[trigger] agree(a.nodes[n].log, a.nodes[n].log, k) by {}
    }
}

proof fn lemma_leads_follows(a: System, b: System, n: NodeId)
    requires
        leads_to(a, b, n),
    ensures
        follows(a, b),
{
    assert forall|m: NodeId| a.members.contains(m) implies #[trigger] keeps(a, b, m) by {
        if m != n {
            assert(b.nodes[m] == a.nodes[m]);
            assert forall|k: nat|
                commit_ok(
                    a.record,
                    a.members,
                    a.nodes[m].log,
                    k,
                    a.nodes[m].term,
                ) implies #[trigger] agree(a.nodes[m].log, b.nodes[m].log, k) by {}
        }
    }
}

/// Whatever happens to the cluster happens in the protocol.
pub proof fn lemma_event(cl: Cluster, s: System, event: Event) -> (s2: System)
    requires
        refines(cl, s),
        holds(s),
        cl.allows(event),
    ensures
        follows(s, s2),
        refines(cl.after(event), s2),
        forall|m: NodeId|
            m != (match event {
                Event::Input { n, input } => n,
                Event::Restart { n, rng, recovered } => n,
            }) ==> #[trigger] s2.nodes[m] == s.nodes[m],
{
    let cl2 = cl.after(event);
    match event {
        Event::Input { n, input } => {
            let v = cl.nodes[n];
            assert(stands(s, n, v));
            if let InputView::Message { from, rpc } = input {
                assert(rpc_ok(s, from, n, rpc));
            }
            let s2 = lemma_act(s, n, v, input);
            lemma_leads_follows(s, s2, n);
            let (w, actions) = v.act(input);
            let outputs = v.step(input).1;
            assert(cl2.nodes.dom() =~= s2.members);
            assert forall|m: NodeId| #[trigger] s2.members.contains(m) implies mirrors(
                s2.members,
                m,
                s2.nodes[m],
                cl2.nodes[m],
            ) by {
                if m != n {
                    assert(s2.nodes[m] == s.nodes[m]);
                }
            }
            assert forall|e: Envelope| #[trigger] cl2.sent.contains(e) implies rpc_ok(
                s2,
                e.from,
                e.to,
                e.rpc,
            ) by {
                if cl.sent.contains(e) {
                    lemma_rpc_ok_stays(s, s2, n, e.from, e.to, e.rpc);
                } else {
                    let i = lemma_output_from_action(
                        actions,
                        OutputView::Send { to: e.to, rpc: e.rpc },
                    );
                    assert(action_ok(s2, n, actions[i]));
                }
            }
            assert forall|a: (NodeId, LogEntryView)| #[trigger]
                cl2.applied.contains(a) implies s2.record.applied.contains(a.1) by {
                if !cl.applied.contains(a) {
                    let i = lemma_output_from_action(actions, OutputView::Apply(a.1));
                    assert(action_ok(s2, n, actions[i]));
                }
            }
            s2
        },
        Event::Restart { n, rng, recovered } => {
            let v = cl.nodes[n];
            let s2 = lemma_recovered(s, n, v, rng, recovered);
            lemma_leads_follows(s, s2, n);
            assert(cl2.nodes.dom() =~= s2.members);
            assert forall|m: NodeId| #[trigger] s2.members.contains(m) implies mirrors(
                s2.members,
                m,
                s2.nodes[m],
                cl2.nodes[m],
            ) by {
                if m != n {
                    assert(s2.nodes[m] == s.nodes[m]);
                }
            }
            assert forall|e: Envelope| #[trigger] cl2.sent.contains(e) implies rpc_ok(
                s2,
                e.from,
                e.to,
                e.rpc,
            ) by {
                lemma_rpc_ok_stays(s, s2, n, e.from, e.to, e.rpc);
            }
            s2
        },
    }
}

/// The protocol before anything happened.
pub open spec fn started(cl: Cluster) -> System {
    System {
        members: cl.members,
        nodes: cl.nodes.map_values(
            |v: NodeView|
                Core {
                    term: 0,
                    vote: None,
                    role: RaftState::Follower,
                    log: Seq::empty(),
                    commit: 0,
                    granted: Set::empty(),
                    matched: Map::empty(),
                },
        ),
        notes: Set::empty(),
        record: Record {
            ballots: Map::empty(),
            candidacies: Map::empty(),
            elections: Map::empty(),
            leader_logs: Map::empty(),
            acks: Map::empty(),
            applied: Set::empty(),
        },
    }
}

pub proof fn lemma_started(cl: Cluster)
    requires
        cl.is_initial(),
    ensures
        holds(started(cl)),
        refines(cl, started(cl)),
{
    let s = started(cl);
    assert(s.nodes.dom() =~= s.members);
    law_initial_holds(s);
    assert forall|n: NodeId| #[trigger] s.members.contains(n) implies mirrors(
        s.members,
        n,
        s.nodes[n],
        cl.nodes[n],
    ) by {
        assert(cl.nodes[n].is_fresh(n));
        assert(cl.nodes[n].log.entries =~= s.nodes[n].log.skip(0));
    }
}

/// The history `systems` of the protocol goes with the history `states`.
pub open spec fn goes_with(states: Seq<Cluster>, systems: Seq<System>) -> bool {
    &&& systems.len() == states.len()
    &&& forall|i: int|
        0 <= i < states.len() ==> holds(#[trigger] systems[i]) && refines(states[i], systems[i])
    &&& forall|i: int, j: int|
        0 <= i <= j < states.len() ==> #[trigger] follows(systems[i], systems[j])
}

pub proof fn lemma_history(states: Seq<Cluster>, events: Seq<Event>) -> (systems: Seq<System>)
    requires
        is_history(states, events),
    ensures
        goes_with(states, systems),
    decreases events.len(),
{
    if events.len() == 0 {
        let s = started(states[0]);
        lemma_started(states[0]);
        lemma_follows_same(s);
        seq![s]
    } else {
        let k = events.len() - 1;
        let before = states.drop_last();
        assert(is_history(before, events.drop_last())) by {
            assert forall|i: int| 0 <= i < events.drop_last().len() implies before[i].allows(
                #[trigger] events.drop_last()[i],
            ) && before[i + 1] == before[i].after(events.drop_last()[i]) by {
                assert(events.drop_last()[i] == events[i]);
            }
        }
        let old = lemma_history(before, events.drop_last());
        assert(holds(old[k]) && refines(before[k], old[k]));
        assert(states[k].allows(events[k]));
        let s2 = lemma_event(states[k], old[k], events[k]);
        let systems = old.push(s2);
        lemma_follows_same(s2);
        assert forall|i: int, j: int| 0 <= i <= j < states.len() implies #[trigger] follows(
            systems[i],
            systems[j],
        ) by {
            if j == k + 1 {
                if i <= k {
                    assert(follows(old[i], old[k]));
                    lemma_follows_on(old[i], old[k], s2);
                }
            } else {
                assert(follows(old[i], old[j]));
            }
        }
        assert forall|i: int| 0 <= i < states.len() implies holds(#[trigger] systems[i])
            && refines(states[i], systems[i]) by {
            if i <= k {
                assert(holds(old[i]));
                assert(before[i] == states[i]);
            }
        }
        systems
    }
}

// ── What holds of every history ─────────────────────────────────────────────

/// Election Safety: no two nodes ever lead the same term.
pub proof fn law_one_leader_in_a_term(
    states: Seq<Cluster>,
    events: Seq<Event>,
    i: int,
    n: NodeId,
    j: int,
    m: NodeId,
)
    requires
        is_history(states, events),
        0 <= i < states.len(),
        0 <= j < states.len(),
        states[i].members.contains(n),
        states[j].members.contains(m),
        states[i].nodes[n].state == RaftState::Leader,
        states[j].nodes[m].state == RaftState::Leader,
        states[i].nodes[n].current_term == states[j].nodes[m].current_term,
    ensures
        n == m,
{
    let systems = lemma_history(states, events);
    let a = systems[i];
    let b = systems[j];
    assert(refines(states[i], a) && refines(states[j], b));
    assert(mirrors(a.members, n, a.nodes[n], states[i].nodes[n]));
    assert(mirrors(b.members, m, b.nodes[m], states[j].nodes[m]));
    assert(node_ok(a.record, a.members, n, a.nodes[n]));
    assert(node_ok(b.record, b.members, m, b.nodes[m]));
    if i <= j {
        assert(follows(systems[i], systems[j]));
    } else {
        assert(follows(systems[j], systems[i]));
    }
}

/// A node gives its vote to one candidate in a term, across crashes too.
pub proof fn law_one_vote_in_a_term(
    states: Seq<Cluster>,
    events: Seq<Event>,
    i: int,
    j: int,
    n: NodeId,
)
    requires
        is_history(states, events),
        0 <= i < states.len(),
        0 <= j < states.len(),
        states[i].members.contains(n),
        states[i].nodes[n].current_term == states[j].nodes[n].current_term,
        states[i].nodes[n].voted_for is Some,
        states[j].nodes[n].voted_for is Some,
    ensures
        states[i].nodes[n].voted_for == states[j].nodes[n].voted_for,
{
    let systems = lemma_history(states, events);
    let a = systems[i];
    let b = systems[j];
    assert(refines(states[i], a) && refines(states[j], b));
    if i <= j {
        assert(follows(systems[i], systems[j]));
    } else {
        assert(follows(systems[j], systems[i]));
    }
    assert(mirrors(a.members, n, a.nodes[n], states[i].nodes[n]));
    assert(mirrors(b.members, n, b.nodes[n], states[j].nodes[n]));
    let t = a.nodes[n].term;
    assert(node_ok(a.record, a.members, n, a.nodes[n]));
    assert(node_ok(b.record, b.members, n, b.nodes[n]));
    assert(a.record.ballots.contains_key((n, t)));
    assert(b.record.ballots.contains_key((n, t)));
}

/// A node's term never falls, across crashes too.
pub proof fn law_terms_do_not_fall(
    states: Seq<Cluster>,
    events: Seq<Event>,
    i: int,
    j: int,
    n: NodeId,
)
    requires
        is_history(states, events),
        0 <= i <= j < states.len(),
        states[i].members.contains(n),
    ensures
        states[i].nodes[n].current_term <= states[j].nodes[n].current_term,
{
    let systems = lemma_history(states, events);
    assert(refines(states[i], systems[i]) && refines(states[j], systems[j]));
    assert(follows(systems[i], systems[j]));
    assert(keeps(systems[i], systems[j], n));
    assert(mirrors(systems[i].members, n, systems[i].nodes[n], states[i].nodes[n]));
    assert(mirrors(systems[j].members, n, systems[j].nodes[n], states[j].nodes[n]));
}

/// Log Matching: where two logs hold an entry of the same index and term, all
/// entries up to there that both hold are the same.
pub proof fn law_logs_match(
    states: Seq<Cluster>,
    events: Seq<Event>,
    i: int,
    n: NodeId,
    j: int,
    m: NodeId,
    index: u64,
    k: u64,
)
    requires
        is_history(states, events),
        0 <= i < states.len(),
        0 <= j < states.len(),
        states[i].members.contains(n),
        states[j].members.contains(m),
        states[i].nodes[n].log.holds(index),
        states[j].nodes[m].log.holds(index),
        states[i].nodes[n].log.entry(index).term == states[j].nodes[m].log.entry(index).term,
        k <= index,
        states[i].nodes[n].log.holds(k),
        states[j].nodes[m].log.holds(k),
    ensures
        states[i].nodes[n].log.entry(k) == states[j].nodes[m].log.entry(k),
{
    let systems = lemma_history(states, events);
    let a = systems[i];
    let b = systems[j];
    assert(refines(states[i], a) && refines(states[j], b));
    let late = if i <= j {
        b.record
    } else {
        a.record
    };
    assert(grows(a.record, late) && grows(b.record, late)) by {
        assert(follows(a, a) && follows(b, b));
        if i <= j {
            assert(follows(a, b));
        } else {
            assert(follows(b, a));
        }
    }
    assert(mirrors(a.members, n, a.nodes[n], states[i].nodes[n]));
    assert(mirrors(b.members, m, b.nodes[m], states[j].nodes[m]));
    lemma_node_log(a, n);
    lemma_node_log(b, m);
    lemma_shows(a.nodes[n].log, states[i].nodes[n].log);
    lemma_shows(b.nodes[m].log, states[j].nodes[m].log);
    lemma_from_leaders_grows(a.record, late, a.nodes[n].log);
    lemma_from_leaders_grows(b.record, late, b.nodes[m].log);
    lemma_same_term(late, a.nodes[n].log, b.nodes[m].log, index - 1);
    lemma_agree_less(a.nodes[n].log, b.nodes[m].log, index as nat, index as nat);
}

/// Leader Completeness: what a node knew to be committed is in the log of every
/// leader of a later term, as far as a snapshot has not taken its place.
pub proof fn law_leaders_hold_what_is_committed(
    states: Seq<Cluster>,
    events: Seq<Event>,
    i: int,
    n: NodeId,
    j: int,
    m: NodeId,
    index: u64,
)
    requires
        is_history(states, events),
        0 <= i < states.len(),
        0 <= j < states.len(),
        states[i].members.contains(n),
        states[j].members.contains(m),
        states[i].nodes[n].log.holds(index),
        index <= states[i].nodes[n].commit_index,
        states[j].nodes[m].state == RaftState::Leader,
        states[j].nodes[m].current_term > states[i].nodes[n].current_term,
        index >= states[j].nodes[m].log.start_index,
    ensures
        states[j].nodes[m].log.holds(index),
        states[j].nodes[m].log.entry(index) == states[i].nodes[n].log.entry(index),
{
    let systems = lemma_history(states, events);
    let a = systems[i];
    let b = systems[j];
    assert(refines(states[i], a) && refines(states[j], b));
    let late = if i <= j {
        b
    } else {
        a
    };
    assert(follows(a, late) && follows(b, late)) by {
        assert(follows(a, a) && follows(b, b));
        if i <= j {
            assert(follows(a, b));
        } else {
            assert(follows(b, a));
        }
    }
    assert(mirrors(a.members, n, a.nodes[n], states[i].nodes[n]));
    assert(mirrors(b.members, m, b.nodes[m], states[j].nodes[m]));
    lemma_node_log(a, n);
    lemma_node_log(b, m);
    lemma_shows(a.nodes[n].log, states[i].nodes[n].log);
    lemma_shows(b.nodes[m].log, states[j].nodes[m].log);
    let c = a.nodes[n];
    let d = b.nodes[m];
    lemma_commit_ok_grows(a.record, late.record, a.members, c.log, c.commit, c.term, c.term);
    let k = c.commit;
    let (t, x) = choose|t: u64, x: nat| #[trigger]
        committed(late.record, a.members, t, x) && k <= x && t <= c.term && agree(
            c.log,
            late.record.leader_logs[t],
            k,
        );
    let u = d.term;
    let base = late.record.elections[u].base;
    assert(b.record.elections.contains_key(u));
    law_leader_completeness(late.record, a.members, t, x, u);
    lemma_agree_less(base, late.record.leader_logs[t], x, k);
    lemma_agree_trans(base, late.record.leader_logs[t], c.log, k, k);
    lemma_agree_trans(c.log, late.record.leader_logs[t], base, k, k);
    lemma_election(b.record, b.members, u);
    assert(agree(base, d.log, base.len()));
    lemma_agree_trans(c.log, base, d.log, k, base.len());
    lemma_agree_less(c.log, d.log, k, k);
}

/// What a node knew to be committed stays in its log, across crashes too, until
/// a snapshot takes its place.
pub proof fn law_committed_entries_stay(
    states: Seq<Cluster>,
    events: Seq<Event>,
    i: int,
    j: int,
    n: NodeId,
    index: u64,
)
    requires
        is_history(states, events),
        0 <= i <= j < states.len(),
        states[i].members.contains(n),
        states[i].nodes[n].log.holds(index),
        index <= states[i].nodes[n].commit_index,
        index >= states[j].nodes[n].log.start_index,
    ensures
        states[j].nodes[n].log.holds(index),
        states[j].nodes[n].log.entry(index) == states[i].nodes[n].log.entry(index),
{
    let systems = lemma_history(states, events);
    let a = systems[i];
    let b = systems[j];
    assert(refines(states[i], a) && refines(states[j], b));
    assert(follows(a, b));
    assert(keeps(a, b, n));
    assert(mirrors(a.members, n, a.nodes[n], states[i].nodes[n]));
    assert(mirrors(b.members, n, b.nodes[n], states[j].nodes[n]));
    lemma_node_log(a, n);
    lemma_node_log(b, n);
    lemma_shows(a.nodes[n].log, states[i].nodes[n].log);
    lemma_shows(b.nodes[n].log, states[j].nodes[n].log);
    let k = a.nodes[n].commit;
    assert(agree(a.nodes[n].log, b.nodes[n].log, k));
    lemma_agree_less(a.nodes[n].log, b.nodes[n].log, k, k);
}

/// State Machine Safety: whatever two nodes ever apply at the same index is the
/// same entry.
pub proof fn law_state_machines_agree(
    states: Seq<Cluster>,
    events: Seq<Event>,
    i: int,
    n: NodeId,
    x: LogEntryView,
    j: int,
    m: NodeId,
    y: LogEntryView,
)
    requires
        is_history(states, events),
        0 <= i < states.len(),
        0 <= j < states.len(),
        states[i].applied.contains((n, x)),
        states[j].applied.contains((m, y)),
        x.index == y.index,
    ensures
        x == y,
{
    let systems = lemma_history(states, events);
    let a = systems[i];
    let b = systems[j];
    assert(refines(states[i], a) && refines(states[j], b));
    let late = if i <= j {
        b
    } else {
        a
    };
    assert(follows(a, late) && follows(b, late)) by {
        assert(follows(a, a) && follows(b, b));
        if i <= j {
            assert(follows(a, b));
        } else {
            assert(follows(b, a));
        }
    }
    assert(a.record.applied.contains((n, x).1));
    assert(b.record.applied.contains((m, y).1));
    lemma_applied_agree(late, x, y);
}

/// In a consistent cluster, entries that were applied at the same index are the
/// same.
proof fn lemma_applied_agree(s: System, x: LogEntryView, y: LogEntryView)
    requires
        holds(s),
        s.record.applied.contains(x),
        s.record.applied.contains(y),
        x.index == y.index,
    ensures
        x == y,
{
    let r = s.record;
    let m = s.members;
    let (t, k) = lemma_applied_committed(s, x);
    let (u, l) = lemma_applied_committed(s, y);
    if t < u {
        law_leader_completeness(r, m, t, k, u);
        lemma_agree_less(r.leader_logs[u], r.leader_logs[t], k, k);
    } else if u < t {
        law_leader_completeness(r, m, u, l, t);
        lemma_agree_less(r.leader_logs[t], r.leader_logs[u], l, l);
    }
}

proof fn lemma_applied_committed(s: System, x: LogEntryView) -> (at: (u64, nat))
    requires
        holds(s),
        s.record.applied.contains(x),
    ensures
        committed(s.record, s.members, at.0, at.1),
        1 <= x.index <= at.1,
        s.record.leader_logs[at.0][x.index - 1] == x,
{
    reveal(record_ok);
    let r = s.record;
    let (t, k) = choose|t: u64, k: nat| #[trigger]
        committed(r, s.members, t, k) && 1 <= x.index <= k && r.leader_logs[t][x.index - 1] == x;
    (t, k)
}

/// While a node runs, what it knows to be committed does not fall.
pub proof fn law_commitment_never_falls(
    states: Seq<Cluster>,
    events: Seq<Event>,
    i: int,
    n: NodeId,
    input: InputView,
)
    requires
        is_history(states, events),
        0 <= i < events.len(),
        events[i] == (Event::Input { n, input }),
    ensures
        states[i].nodes[n].commit_index <= states[i + 1].nodes[n].commit_index,
        states[i].nodes[n].last_applied <= states[i + 1].nodes[n].last_applied,
        states[i + 1].nodes[n].last_applied <= states[i + 1].nodes[n].commit_index,
        states[i + 1].nodes[n].commit_index <= states[i + 1].nodes[n].log.last_index(),
{
    let systems = lemma_history(states, events);
    let a = systems[i];
    let b = systems[i + 1];
    assert(states[i].allows(events[i]) && states[i + 1] == states[i].after(events[i]));
    assert(refines(states[i], a) && refines(states[i + 1], b));
    assert(follows(a, b));
    assert(keeps(a, b, n));
    let v = states[i].nodes[n];
    let w = states[i + 1].nodes[n];
    assert(mirrors(a.members, n, a.nodes[n], v));
    assert(mirrors(b.members, n, b.nodes[n], w));
    lemma_node_log(a, n);
    lemma_node_log(b, n);
    lemma_shows(b.nodes[n].log, w.log);
    assert(agree(a.nodes[n].log, b.nodes[n].log, a.nodes[n].commit));
    assert(w == v.step(input).0);
    law_commit_never_falls(v, input);
    law_applied_never_falls(v, input);
}

} // verus!
