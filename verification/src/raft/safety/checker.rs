//! The invariant checker never objects to a cluster that runs as it should.

use vstd::prelude::*;

use crate::config::NodeId;
use crate::raft::invariants::{
    agree_at, common_last, differ_at, law_check_decides_log_matching, log_matching, logs_of,
    HistoryView,
};
use crate::raft::safety::cluster::{is_history, Cluster, Event};
use crate::raft::safety::consistency::{holds, lemma_agree_less, node_ok};
use crate::raft::safety::laws::{follows, goes_with, lemma_history};
use crate::raft::safety::protocol::System;
use crate::raft::safety::refinement::{keeps, lemma_node_log, lemma_shows, mirrors, refines};
use crate::raft::safety::steps::lemma_same_term;
use crate::raft::NodeView;

verus! {

/// The checker is shown nodes of the cluster as they are.
pub open spec fn shown_of(cl: Cluster, nodes: Seq<NodeView>) -> bool {
    forall|i: int|
        0 <= i < nodes.len() ==> cl.members.contains((#[trigger] nodes[i]).id)
            && cl.nodes[nodes[i].id] == nodes[i]
}

/// What the checker remembers after it was shown the cluster again and again.
pub open spec fn remembered(shown: Seq<Seq<NodeView>>) -> HistoryView
    decreases shown.len(),
{
    if shown.len() == 0 {
        HistoryView::empty()
    } else {
        remembered(shown.drop_last()).observe(shown.last()).0
    }
}

/// What the checker remembers did happen.
pub open spec fn happened(h: HistoryView, s: System) -> bool {
    &&& forall|t: u64| #[trigger]
        h.leader_by_term.contains_key(t) ==> s.record.elections.contains_key(t)
            && s.record.elections[t].leader == h.leader_by_term[t]
    &&& forall|n: NodeId| #[trigger]
        h.last_term.contains_key(n) ==> s.members.contains(n) && h.last_term[n] <= s.nodes[n].term
    &&& forall|n: NodeId, t: u64| #[trigger]
        h.vote_by_term.contains_key((n, t)) ==> s.record.ballots.contains_key((n, t))
            && s.record.ballots[(n, t)].candidate == h.vote_by_term[(n, t)]
}

pub proof fn lemma_happened_stays(h: HistoryView, a: System, b: System)
    requires
        happened(h, a),
        follows(a, b),
    ensures
        happened(h, b),
{
    assert forall|n: NodeId| #[trigger] h.last_term.contains_key(n) implies b.members.contains(n)
        && h.last_term[n] <= b.nodes[n].term by {
        assert(keeps(a, b, n));
    }
    assert forall|n: NodeId, t: u64| #[trigger] h.vote_by_term.contains_key((n, t)) implies
        b.record.ballots.contains_key((n, t)) && b.record.ballots[(n, t)].candidate
        == h.vote_by_term[(n, t)] by {
        assert(a.record.ballots.contains_key((n, t)));
    }
}

/// A node of a consistent cluster breaks nothing.
proof fn lemma_node_is_fine(h: HistoryView, s: System, v: NodeView)
    requires
        happened(h, s),
        holds(s),
        s.members.contains(v.id),
        mirrors(s.members, v.id, s.nodes[v.id], v),
    ensures
        h.violation(v) is None,
        happened(h.with(v), s),
{
    let n = v.id;
    let c = s.nodes[n];
    lemma_node_log(s, n);
    lemma_shows(c.log, v.log);
    assert(node_ok(s.record, s.members, n, c));
    if v.voted_for is Some {
        assert(s.record.ballots.contains_key((n, c.term)));
        if h.vote_by_term.contains_key((n, c.term)) {
            assert(h.vote_by_term[(n, c.term)] == v.voted_for->0);
        }
    }
}

proof fn lemma_nodes_are_fine(h: HistoryView, s: System, cl: Cluster, nodes: Seq<NodeView>)
    requires
        happened(h, s),
        holds(s),
        refines(cl, s),
        shown_of(cl, nodes),
    ensures
        h.with_nodes(nodes).1 is None,
        happened(h.with_nodes(nodes).0, s),
    decreases nodes.len(),
{
    if nodes.len() > 0 {
        let before = nodes.drop_last();
        assert forall|i: int| 0 <= i < before.len() implies cl.members.contains(
            (#[trigger] before[i]).id,
        ) && cl.nodes[before[i].id] == before[i] by {
            assert(before[i] == nodes[i]);
        }
        lemma_nodes_are_fine(h, s, cl, before);
        let v = nodes[nodes.len() - 1];
        assert(mirrors(s.members, v.id, s.nodes[v.id], cl.nodes[v.id]));
        lemma_node_is_fine(h.with_nodes(before).0, s, v);
    }
}

/// Any two logs of a consistent cluster match.
pub proof fn lemma_logs_match(s: System, a: NodeView, b: NodeView)
    requires
        holds(s),
        s.members.contains(a.id),
        s.members.contains(b.id),
        mirrors(s.members, a.id, s.nodes[a.id], a),
        mirrors(s.members, b.id, s.nodes[b.id], b),
    ensures
        log_matching(a.log, b.log),
{
    let x = s.nodes[a.id].log;
    let y = s.nodes[b.id].log;
    lemma_node_log(s, a.id);
    lemma_node_log(s, b.id);
    lemma_shows(x, a.log);
    lemma_shows(y, b.log);
    assert forall|witness: u64, index: u64|
        1 <= index <= witness <= common_last(a.log, b.log) && #[trigger] agree_at(
            a.log,
            b.log,
            witness,
        ) implies !#[trigger] differ_at(a.log, b.log, index) by {
        let term = a.log.term_at(witness)->Ok_0;
        assert(a.log.contains(witness, term) && b.log.contains(witness, term));
        lemma_same_term(s.record, x, y, witness - 1);
        lemma_agree_less(x, y, witness as nat, witness as nat);
    }
}

/// However often the checker is shown nodes of a cluster, it finds no two leaders
/// of a term, no term that falls, no second vote, nothing committed that is not
/// in the log, and no logs that part and agree again.
pub proof fn law_checker_never_objects(
    states: Seq<Cluster>,
    events: Seq<Event>,
    shown: Seq<Seq<NodeView>>,
    k: int,
)
    requires
        is_history(states, events),
        shown.len() == states.len(),
        forall|i: int| 0 <= i < shown.len() ==> #[trigger] shown_of(states[i], shown[i]),
        0 <= k < shown.len(),
    ensures
        remembered(shown.take(k)).observe(shown[k]).1 is None,
{
    let systems = lemma_history(states, events);
    lemma_never_objects(states, systems, shown, k);
}

proof fn lemma_never_objects(
    states: Seq<Cluster>,
    systems: Seq<System>,
    shown: Seq<Seq<NodeView>>,
    k: int,
)
    requires
        goes_with(states, systems),
        shown.len() == states.len(),
        forall|i: int| 0 <= i < shown.len() ==> #[trigger] shown_of(states[i], shown[i]),
        0 <= k < shown.len(),
    ensures
        remembered(shown.take(k)).observe(shown[k]).1 is None,
        happened(remembered(shown.take(k)).observe(shown[k]).0, systems[k]),
    decreases k,
{
    let h = remembered(shown.take(k));
    let s = systems[k];
    assert(holds(s) && refines(states[k], s));
    if k > 0 {
        lemma_never_objects(states, systems, shown, k - 1);
        assert(shown.take(k).drop_last() =~= shown.take(k - 1));
        assert(follows(systems[k - 1], systems[k]));
        lemma_happened_stays(h, systems[k - 1], s);
    }
    assert(shown_of(states[k], shown[k]));
    lemma_nothing_to_object(h, s, states[k], shown[k]);
}

/// Nodes of a consistent cluster give the checker nothing to object to.
pub proof fn lemma_nothing_to_object(
    h: HistoryView,
    s: System,
    cl: Cluster,
    nodes: Seq<NodeView>,
)
    requires
        happened(h, s),
        holds(s),
        refines(cl, s),
        shown_of(cl, nodes),
    ensures
        h.observe(nodes).1 is None,
        happened(h.observe(nodes).0, s),
{
    lemma_nodes_are_fine(h, s, cl, nodes);
    let logs = logs_of(nodes);
    assert forall|i: int, j: int| 0 <= i < j < logs.len() implies #[trigger] log_matching(
        logs[i],
        logs[j],
    ) by {
        let a = nodes[i];
        let b = nodes[j];
        assert(mirrors(s.members, a.id, s.nodes[a.id], cl.nodes[a.id]));
        assert(mirrors(s.members, b.id, s.nodes[b.id], cl.nodes[b.id]));
        lemma_logs_match(s, a, b);
    }
    law_check_decides_log_matching(logs);
}

} // verus!
