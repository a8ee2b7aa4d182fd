//! What the checker objects to, and that it objects to nothing else.

use vstd::prelude::*;

use crate::raft::duties::{lemma_tail, tail_index};
use crate::raft::invariants::{
    agree_at, common_last, differ_at, law_check_decides_log_matching, log_matching, logs_of, logs_violation,
    HistoryView,
};
use crate::raft::log::RaftLogView;
use crate::raft::replies::{known_term, lemma_term_known};
use crate::raft::state::RaftState;
use crate::raft::NodeView;

verus! {

/// What two states of nodes, seen in this order, must keep to: a node's term does
/// not fall, a term has one leader, and a node votes once in a term.
pub open spec fn may_come_after(a: NodeView, b: NodeView) -> bool {
    &&& a.id == b.id ==> a.current_term <= b.current_term
    &&& a.state == RaftState::Leader && b.state == RaftState::Leader && a.current_term
        == b.current_term ==> a.id == b.id
    &&& a.id == b.id && a.current_term == b.current_term && a.voted_for is Some && b.voted_for
        is Some ==> a.voted_for == b.voted_for
}

/// All states, in the order in which they were seen, keep to it, and none commits
/// more than its log reaches.
pub open spec fn is_safe_history(nodes: Seq<NodeView>) -> bool {
    &&& forall|i: int, j: int|
        0 <= i < j < nodes.len() ==> may_come_after(#[trigger] nodes[i], #[trigger] nodes[j])
    &&& forall|i: int|
        0 <= i < nodes.len() ==> (#[trigger] nodes[i]).commit_index <= tail_index(nodes[i].log)
}

/// Both logs know the term at the index, and it is the same.
pub open spec fn same_term_at(a: RaftLogView, b: RaftLogView, index: u64) -> bool {
    &&& index <= tail_index(a) && index <= tail_index(b)
    &&& known_term(a, index as int) is Some
    &&& known_term(a, index as int) == known_term(b, index as int)
}

/// Where both logs hold an entry at the index, it is the same.
pub open spec fn same_entry_at(a: RaftLogView, b: RaftLogView, index: u64) -> bool {
    a.start_index <= index <= tail_index(a) && b.start_index <= index <= tail_index(b)
        ==> a.entries[index - a.start_index] == b.entries[index - b.start_index]
}

/// Two logs that know the same term at one index hold the same entries up to it.
pub open spec fn logs_agree(a: RaftLogView, b: RaftLogView) -> bool {
    forall|w: u64, i: u64|
        1 <= i <= w && #[trigger] same_term_at(a, b, w) ==> #[trigger] same_entry_at(a, b, i)
}

/// What the checker remembers of the states that it was shown.
spec fn remembers(h: HistoryView, nodes: Seq<NodeView>) -> bool {
    &&& forall|i: int|
        0 <= i < nodes.len() ==> {
            let node = #[trigger] nodes[i];
            &&& h.last_term.contains_key(node.id)
            &&& h.last_term[node.id] >= node.current_term
            &&& node.state == RaftState::Leader ==> h.leader_by_term.contains_key(
                node.current_term,
            ) && h.leader_by_term[node.current_term] == node.id
            &&& node.voted_for is Some ==> h.vote_by_term.contains_key(
                (node.id, node.current_term),
            ) && h.vote_by_term[(node.id, node.current_term)] == node.voted_for->0
        }
    &&& forall|id: u64| #[trigger]
        h.last_term.contains_key(id) ==> exists|i: int|
            0 <= i < nodes.len() && (#[trigger] nodes[i]).id == id && nodes[i].current_term
                == h.last_term[id]
    &&& forall|t: u64| #[trigger]
        h.leader_by_term.contains_key(t) ==> exists|i: int|
            0 <= i < nodes.len() && (#[trigger] nodes[i]).state == RaftState::Leader
                && nodes[i].current_term == t && nodes[i].id == h.leader_by_term[t]
    &&& forall|k: (u64, u64)| #[trigger]
        h.vote_by_term.contains_key(k) ==> exists|i: int|
            0 <= i < nodes.len() && (#[trigger] nodes[i]).id == k.0 && nodes[i].current_term == k.1
                && nodes[i].voted_for == Some(h.vote_by_term[k])
}

/// Every log is contiguous.
pub open spec fn logs_are_proper(nodes: Seq<NodeView>) -> bool {
    forall|i: int| 0 <= i < nodes.len() ==> (#[trigger] nodes[i]).log.proper()
}

proof fn lemma_still_remembers(h: HistoryView, before: Seq<NodeView>, node: NodeView)
    requires
        remembers(h, before),
        h.violation(node) is None,
    ensures
        remembers(h.with(node), before.push(node)),
{
    let after = h.with(node);
    let nodes = before.push(node);
    let n = before.len() as int;
    assert(nodes[n] == node);
    assert forall|i: int| 0 <= i < before.len() implies nodes[i] == #[trigger] before[i] by {}
    assert forall|i: int| 0 <= i < nodes.len() implies {
        let node = #[trigger] nodes[i];
        &&& after.last_term.contains_key(node.id)
        &&& after.last_term[node.id] >= node.current_term
        &&& node.state == RaftState::Leader ==> after.leader_by_term.contains_key(
            node.current_term,
        ) && after.leader_by_term[node.current_term] == node.id
        &&& node.voted_for is Some ==> after.vote_by_term.contains_key(
            (node.id, node.current_term),
        ) && after.vote_by_term[(node.id, node.current_term)] == node.voted_for->0
    } by {
        if i < n {
            assert(before[i] == nodes[i]);
        }
    }
    assert forall|id: u64| #[trigger] after.last_term.contains_key(id) implies exists|i: int|
        0 <= i < nodes.len() && (#[trigger] nodes[i]).id == id && nodes[i].current_term
            == after.last_term[id] by {
        if id == node.id {
            assert(nodes[n].id == id);
        } else {
            assert(h.last_term.contains_key(id));
            let i = choose|i: int|
                0 <= i < before.len() && (#[trigger] before[i]).id == id && before[i].current_term
                    == h.last_term[id];
            assert(nodes[i].id == id);
        }
    }
    assert forall|t: u64| #[trigger] after.leader_by_term.contains_key(t) implies exists|i: int|
        0 <= i < nodes.len() && (#[trigger] nodes[i]).state == RaftState::Leader
            && nodes[i].current_term == t && nodes[i].id == after.leader_by_term[t] by {
        if node.state == RaftState::Leader && t == node.current_term {
            assert(nodes[n].current_term == t);
        } else {
            assert(h.leader_by_term.contains_key(t));
            let i = choose|i: int|
                0 <= i < before.len() && (#[trigger] before[i]).state == RaftState::Leader
                    && before[i].current_term == t && before[i].id == h.leader_by_term[t];
            assert(nodes[i].current_term == t);
        }
    }
    assert forall|k: (u64, u64)| #[trigger] after.vote_by_term.contains_key(k) implies exists|
        i: int,
    |
        0 <= i < nodes.len() && (#[trigger] nodes[i]).id == k.0 && nodes[i].current_term == k.1
            && nodes[i].voted_for == Some(after.vote_by_term[k]) by {
        if node.voted_for is Some && k == (node.id, node.current_term) {
            assert(nodes[n].id == k.0);
        } else {
            assert(h.vote_by_term.contains_key(k));
            let i = choose|i: int|
                0 <= i < before.len() && (#[trigger] before[i]).id == k.0
                    && before[i].current_term == k.1 && before[i].voted_for == Some(
                    h.vote_by_term[k],
                );
            assert(nodes[i].id == k.0);
        }
    }
}

proof fn lemma_objects(h: HistoryView, before: Seq<NodeView>, node: NodeView)
    requires
        remembers(h, before),
        node.log.proper(),
    ensures
        h.violation(node) is None <==> {
            &&& node.commit_index <= tail_index(node.log)
            &&& forall|i: int| 0 <= i < before.len() ==> may_come_after(#[trigger] before[i], node)
        },
{
    lemma_tail(node.log);
    if forall|i: int| 0 <= i < before.len() ==> may_come_after(#[trigger] before[i], node) {
        if h.last_term.contains_key(node.id) {
            let i = choose|i: int|
                0 <= i < before.len() && (#[trigger] before[i]).id == node.id
                    && before[i].current_term == h.last_term[node.id];
            assert(may_come_after(before[i], node));
        }
        if h.leader_by_term.contains_key(node.current_term) {
            let i = choose|i: int|
                0 <= i < before.len() && (#[trigger] before[i]).state == RaftState::Leader
                    && before[i].current_term == node.current_term && before[i].id
                    == h.leader_by_term[node.current_term];
            assert(may_come_after(before[i], node));
        }
        let k = (node.id, node.current_term);
        if h.vote_by_term.contains_key(k) {
            let i = choose|i: int|
                0 <= i < before.len() && (#[trigger] before[i]).id == k.0
                    && before[i].current_term == k.1 && before[i].voted_for == Some(
                    h.vote_by_term[k],
                );
            assert(may_come_after(before[i], node));
        }
    }
}

proof fn lemma_history(nodes: Seq<NodeView>)
    requires
        logs_are_proper(nodes),
    ensures
        HistoryView::empty().with_nodes(nodes).1 is None <==> is_safe_history(nodes),
        HistoryView::empty().with_nodes(nodes).1 is None ==> remembers(
            HistoryView::empty().with_nodes(nodes).0,
            nodes,
        ),
    decreases nodes.len(),
{
    if nodes.len() > 0 {
        let n = nodes.len() - 1;
        let before = nodes.drop_last();
        let node = nodes[n];
        assert(nodes.last() == node);
        assert forall|i: int| 0 <= i < n implies #[trigger] before[i] == nodes[i] by {}
        assert(logs_are_proper(before));
        lemma_history(before);
        let h = HistoryView::empty().with_nodes(before).0;
        if is_safe_history(nodes) {
            assert forall|i: int, j: int| 0 <= i < j < before.len() implies may_come_after(
                #[trigger] before[i],
                #[trigger] before[j],
            ) by {
                assert(may_come_after(nodes[i], nodes[j]));
            }
            assert(is_safe_history(before));
        }
        if is_safe_history(before) {
            lemma_objects(h, before, node);
            if h.violation(node) is None {
                lemma_still_remembers(h, before, node);
                assert(before.push(node) =~= nodes);
                assert forall|i: int, j: int| 0 <= i < j < nodes.len() implies may_come_after(
                    #[trigger] nodes[i],
                    #[trigger] nodes[j],
                ) by {
                    assert(may_come_after(before[i], nodes[j]));
                }
                assert forall|i: int| 0 <= i < nodes.len() implies (
                #[trigger] nodes[i]).commit_index <= tail_index(nodes[i].log) by {
                    if i < n {
                        assert(before[i].commit_index <= tail_index(before[i].log));
                    }
                }
            }
            if is_safe_history(nodes) {
                assert forall|i: int| 0 <= i < before.len() implies may_come_after(
                    #[trigger] before[i],
                    node,
                ) by {
                    assert(may_come_after(nodes[i], nodes[n]));
                }
            }
        }
    }
}

/// The checker objects exactly where the states that it was shown, all since the
/// beginning, do not keep to the rules: where a term fell, a term had two leaders,
/// a node voted twice in a term, or more was committed than a log reaches.
pub proof fn law_checker_objects_to_unsafe_histories(nodes: Seq<NodeView>)
    requires
        logs_are_proper(nodes),
    ensures
        HistoryView::empty().with_nodes(nodes).1 is Some <==> !is_safe_history(nodes),
{
    lemma_history(nodes);
}

/// The checker does not forget between observations: being shown states in two
/// rounds is being shown them all at once.
pub proof fn law_checker_does_not_forget(h: HistoryView, first: Seq<NodeView>, second: Seq<NodeView>)
    requires
        h.with_nodes(first).1 is None,
    ensures
        h.with_nodes(first + second) == h.with_nodes(first).0.with_nodes(second),
    decreases second.len(),
{
    if second.len() == 0 {
        assert(first + second =~= first);
    } else {
        assert((first + second).drop_last() =~= first + second.drop_last());
        assert((first + second).last() == second.last());
        law_checker_does_not_forget(h, first, second.drop_last());
    }
}

proof fn lemma_logs_agree(a: RaftLogView, b: RaftLogView)
    requires
        a.proper(),
        b.proper(),
    ensures
        log_matching(a, b) <==> logs_agree(a, b),
{
    lemma_tail(a);
    lemma_tail(b);
    if log_matching(a, b) {
        assert forall|w: u64, i: u64|
            1 <= i <= w && #[trigger] same_term_at(a, b, w) implies #[trigger] same_entry_at(
            a,
            b,
            i,
        ) by {
            lemma_term_known(a, w);
            lemma_term_known(b, w);
            assert(agree_at(a, b, w));
            assert(!differ_at(a, b, i));
        }
    }
    if logs_agree(a, b) {
        assert forall|witness: u64, index: u64|
            1 <= index <= witness <= common_last(a, b) && #[trigger] agree_at(
                a,
                b,
                witness,
            ) implies !#[trigger] differ_at(a, b, index) by {
            lemma_term_known(a, witness);
            lemma_term_known(b, witness);
            assert(same_term_at(a, b, witness));
            assert(same_entry_at(a, b, index));
        }
    }
}

/// An observation of the whole cluster objects, besides, exactly where two of the
/// logs know the same term at one index and hold different entries up to it.
pub proof fn law_checker_objects_to_logs_that_disagree(h: HistoryView, nodes: Seq<NodeView>)
    requires
        logs_are_proper(nodes),
        h.with_nodes(nodes).1 is None,
    ensures
        h.observe(nodes).1 is None <==> forall|i: int, j: int|
            0 <= i < j < nodes.len() ==> logs_agree(
                (#[trigger] nodes[i]).log,
                (#[trigger] nodes[j]).log,
            ),
        h.observe(nodes).0 == h.with_nodes(nodes).0,
{
    let logs = logs_of(nodes);
    law_check_decides_log_matching(logs);
    assert forall|i: int, j: int| 0 <= i < j < nodes.len() implies log_matching(logs[i], logs[j])
        == logs_agree((#[trigger] nodes[i]).log, (#[trigger] nodes[j]).log) by {
        lemma_logs_agree(nodes[i].log, nodes[j].log);
    }
    if logs_violation(logs, 0) is None {
        assert forall|i: int, j: int| 0 <= i < j < nodes.len() implies logs_agree(
            (#[trigger] nodes[i]).log,
            (#[trigger] nodes[j]).log,
        ) by {
            assert(log_matching(logs[i], logs[j]));
        }
    }
    if forall|i: int, j: int|
        0 <= i < j < nodes.len() ==> logs_agree(
            (#[trigger] nodes[i]).log,
            (#[trigger] nodes[j]).log,
        ) {
        assert forall|i: int, j: int| 0 <= i < j < logs.len() implies #[trigger] log_matching(
            logs[i],
            logs[j],
        ) by {
            assert(logs_agree(nodes[i].log, nodes[j].log));
        }
    }
}

/// The first objection stands, whatever is shown behind it.
pub proof fn law_first_objection_stands(h: HistoryView, nodes: Seq<NodeView>, node: NodeView)
    requires
        h.with_nodes(nodes).1 is Some,
    ensures
        h.with_nodes(nodes.push(node)).1 == h.with_nodes(nodes).1,
        h.observe(nodes.push(node)).1 == h.with_nodes(nodes).1,
{
    assert(nodes.push(node).drop_last() =~= nodes);
}

} // verus!
