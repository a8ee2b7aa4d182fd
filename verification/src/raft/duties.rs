//! What a node owes on each input, and that what should happen does happen: a
//! majority is enough to elect and to commit, clients are answered, and members
//! that lag are brought up to date.

use vstd::prelude::*;

use crate::config::NodeId;
use crate::raft::driver::{output_of, outputs_of, InputView, OutputView};
use crate::raft::election::ActionView;
use crate::raft::laws::lemma_applied_node;
use crate::raft::log::{LogEntryView, RaftLogView};
use crate::raft::replication::{count_at_least, is_reached_by, others_of, reached_by};
use crate::raft::safety::handlers::lemma_count_holders;
use crate::raft::state::RaftState;
use crate::raft::storage::HardState;
use crate::raft::{
    AppendEntriesResponse, AppendEntriesView, NodeView, RequestVoteRequest, RequestVoteResponse,
    RpcView,
};

verus! {

// ── Members ─────────────────────────────────────────────────────────────────

/// The node and its peers.
pub open spec fn members(v: NodeView) -> Set<NodeId> {
    v.peers.to_set().insert(v.id)
}

/// A node that lists nobody twice, itself included or not.
pub open spec fn lists_once(v: NodeView) -> bool {
    v.peers.no_duplicates()
}

pub proof fn lemma_others_listed(peers: Seq<NodeId>, id: NodeId)
    ensures
        forall|p: NodeId| #[trigger]
            others_of(peers, id).contains(p) <==> peers.contains(p) && p != id,
        peers.no_duplicates() ==> others_of(peers, id).no_duplicates(),
    decreases peers.len(),
{
    reveal(Seq::filter);
    let all = others_of(peers, id);
    if peers.len() > 0 {
        let before = peers.drop_last();
        let last = peers[peers.len() - 1];
        let rest = others_of(before, id);
        lemma_others_listed(before, id);
        assert(peers =~= before.push(last));
        assert forall|p: NodeId| peers.contains(p) <==> before.contains(p) || p == last by {
            if before.contains(p) {
                let i = choose|i: int| 0 <= i < before.len() && before[i] == p;
                assert(peers[i] == p);
            }
            if peers.contains(p) && p != last {
                let i = choose|i: int| 0 <= i < peers.len() && peers[i] == p;
                assert(before[i] == p);
            }
        }
        assert forall|p: NodeId| #[trigger] all.contains(p) <==> peers.contains(p) && p != id by {
            if last != id {
                assert(all =~= rest.push(last));
                if rest.contains(p) {
                    let i = choose|i: int| 0 <= i < rest.len() && rest[i] == p;
                    assert(all[i] == p);
                }
                if all.contains(p) && p != last {
                    let i = choose|i: int| 0 <= i < all.len() && all[i] == p;
                    assert(rest[i] == p);
                }
                assert(all[all.len() - 1] == last);
            } else {
                assert(all =~= rest);
            }
        }
        if peers.no_duplicates() {
            assert forall|i: int, j: int| 0 <= i < before.len() && 0 <= j < before.len() && i
                != j implies before[i] != before[j] by {
                assert(peers[i] != peers[j]);
            }
            assert(before.no_duplicates());
            assert(!before.contains(last)) by {
                if before.contains(last) {
                    let i = choose|i: int| 0 <= i < before.len() && before[i] == last;
                    assert(peers[i] != peers[peers.len() - 1]);
                }
            }
            assert(!rest.contains(last));
            if last != id {
                assert(all =~= rest.push(last));
                assert forall|i: int, j: int| 0 <= i < all.len() && 0 <= j < all.len() && i
                    != j implies all[i] != all[j] by {
                    if i < rest.len() && j < rest.len() {
                        assert(rest[i] != rest[j]);
                    } else if i < rest.len() {
                        assert(rest.contains(rest[i]));
                    } else if j < rest.len() {
                        assert(rest.contains(rest[j]));
                    }
                }
            } else {
                assert(all =~= rest);
            }
        }
    }
}

/// The other members are as many as the members without the node.
pub proof fn lemma_members(v: NodeView)
    requires
        lists_once(v),
    ensures
        v.others().no_duplicates(),
        v.others().to_set() == members(v).remove(v.id),
        members(v).finite(),
        members(v).len() == v.others().len() + 1,
{
    lemma_others_listed(v.peers, v.id);
    let others = v.others();
    others.unique_seq_to_set();
    assert forall|p: NodeId| others.to_set().contains(p) <==> members(v).remove(v.id).contains(
        p,
    ) by {
        assert(others.to_set().contains(p) <==> others.contains(p));
        assert(v.peers.to_set().contains(p) <==> v.peers.contains(p));
    }
    assert(others.to_set() =~= members(v).remove(v.id));
    assert(members(v) =~= others.to_set().insert(v.id));
}

// ── Outputs ─────────────────────────────────────────────────────────────────

/// Effects that all are the driver's.
pub proof fn lemma_outputs_map(actions: Seq<ActionView>)
    requires
        forall|i: int| 0 <= i < actions.len() ==> output_of(#[trigger] actions[i]) is Some,
    ensures
        outputs_of(actions).len() == actions.len(),
        forall|i: int|
            0 <= i < actions.len() ==> output_of(#[trigger] actions[i]) == Some(
                outputs_of(actions)[i],
            ),
    decreases actions.len(),
{
    if actions.len() > 0 {
        let before = actions.drop_last();
        assert forall|i: int| 0 <= i < before.len() implies output_of(#[trigger] before[i]) is Some by {
            assert(before[i] == actions[i]);
        }
        lemma_outputs_map(before);
        assert(output_of(actions[actions.len() - 1]) is Some);
        assert forall|i: int| 0 <= i < actions.len() implies output_of(#[trigger] actions[i]) == Some(
            outputs_of(actions)[i],
        ) by {
            if i < before.len() {
                assert(before[i] == actions[i]);
            }
        }
    }
}

pub proof fn lemma_outputs_add(a: Seq<ActionView>, b: Seq<ActionView>)
    ensures
        outputs_of(a + b) == outputs_of(a) + outputs_of(b),
    decreases b.len(),
{
    if b.len() == 0 {
        assert(a + b =~= a);
        assert(outputs_of(a) + outputs_of(b) =~= outputs_of(a));
    } else {
        assert((a + b).drop_last() =~= a + b.drop_last());
        lemma_outputs_add(a, b.drop_last());
        assert(outputs_of(a + b) =~= outputs_of(a) + outputs_of(b));
    }
}

/// What an effect gives the driver is among the outputs.
pub proof fn lemma_output_present(actions: Seq<ActionView>, i: int)
    requires
        0 <= i < actions.len(),
        output_of(actions[i]) is Some,
    ensures
        outputs_of(actions).contains(output_of(actions[i])->0),
    decreases actions.len(),
{
    let before = actions.drop_last();
    let output = output_of(actions[i])->0;
    if i < before.len() {
        assert(before[i] == actions[i]);
        lemma_output_present(before, i);
        let k = choose|k: int| 0 <= k < outputs_of(before).len() && outputs_of(before)[k] == output;
        assert(outputs_of(actions)[k] == output);
    } else {
        assert(outputs_of(actions).last() == output);
    }
}

// ── Commitment ──────────────────────────────────────────────────────────────

/// How far `p` is known to hold the leader's log once `from` has reported `upto`.
pub open spec fn acknowledged(v: NodeView, from: NodeId, upto: u64, p: NodeId) -> u64 {
    let known = if v.match_index.contains_key(p) {
        v.match_index[p]
    } else {
        0
    };
    if p == from && upto > known {
        upto
    } else {
        known
    }
}

/// The members that are known to hold index `i`: the leader itself, and who
/// acknowledged it.
pub open spec fn holders(v: NodeView, from: NodeId, upto: u64, i: u64) -> Set<NodeId> {
    members(v).filter(|p: NodeId| p == v.id || acknowledged(v, from, upto, p) >= i)
}

/// How many of the matches reach an index is how many hold it.
proof fn lemma_holders_counted(v: NodeView, from: NodeId, upto: u64, i: u64)
    requires
        lists_once(v),
        i <= v.log.last_index(),
    ensures
        holders(v, from, upto, i).finite(),
        count_at_least(v.acknowledge(from, upto).matched(), i) == holders(v, from, upto, i).len(),
{
    let w = v.acknowledge(from, upto);
    let others = v.others();
    lemma_members(v);
    lemma_count_holders(others, w, i);
    let some = others.to_set().filter(|p: NodeId| w.match_for(p) >= i);
    let all = holders(v, from, upto, i);
    assert(all =~= some.insert(v.id)) by {
        assert forall|p: NodeId| all.contains(p) <==> some.insert(v.id).contains(p) by {
            assert(others.to_set().contains(p) <==> members(v).contains(p) && p != v.id);
            assert(p != v.id ==> w.match_for(p) == acknowledged(v, from, upto, p));
        }
    }
    assert(!some.contains(v.id));
    let matches = others.map_values(|p: NodeId| w.match_for(p));
    assert(w.others() == others);
    assert(w.matched() == matches.push(v.log.last_index()));
    reveal(Seq::filter);
    assert(matches.push(v.log.last_index()).drop_last() =~= matches);
}

/// More is needed to reach higher.
proof fn lemma_count_falls(s: Seq<u64>, low: u64, high: u64)
    requires
        low <= high,
    ensures
        count_at_least(s, low) >= count_at_least(s, high),
    decreases s.len(),
{
    reveal(Seq::filter);
    if s.len() > 0 {
        lemma_count_falls(s.drop_last(), low, high);
    }
}

/// Where so many reach `i`, some member of the list at or above `i` is the highest
/// that so many reach.
proof fn lemma_reaches(s: Seq<u64>, k: nat, i: u64, bound: u64)
    requires
        1 <= k <= count_at_least(s, i),
        forall|j: int| 0 <= j < s.len() ==> (#[trigger] s[j]) <= bound,
        i <= bound,
    ensures
        exists|n: u64| is_reached_by(s, k, n) && i <= n <= bound,
    decreases bound - i,
{
    let above = s.filter(|x: u64| x >= i);
    if exists|m: u64| s.contains(m) && m > i && count_at_least(s, m) >= k {
        let m = choose|m: u64| s.contains(m) && m > i && count_at_least(s, m) >= k;
        let j = choose|j: int| 0 <= j < s.len() && s[j] == m;
        assert(s[j] <= bound);
        lemma_reaches(s, k, m, bound);
    } else {
        // Then `i` itself must be a member: were all that reach it higher, the
        // lowest of these would be reached by as many.
        if s.contains(i) {
            assert(is_reached_by(s, k, i));
        } else {
            lemma_lowest_above(s, i);
            let m = choose|m: u64| s.contains(m) && m > i && count_at_least(s, m)
                == count_at_least(s, i);
            assert(false);
        }
    }
}

/// The lowest member that reaches `i` is reached by all that reach `i`.
proof fn lemma_lowest_above(s: Seq<u64>, i: u64)
    requires
        !s.contains(i),
        count_at_least(s, i) >= 1,
    ensures
        exists|m: u64| s.contains(m) && m > i && count_at_least(s, m) == count_at_least(s, i),
    decreases s.len(),
{
    reveal(Seq::filter);
    if s.len() > 0 {
        let before = s.drop_last();
        let last = s[s.len() - 1];
        assert(!before.contains(i)) by {
            if before.contains(i) {
                let j = choose|j: int| 0 <= j < before.len() && before[j] == i;
                assert(s[j] == i);
            }
        }
        assert(s.contains(last));
        if count_at_least(before, i) >= 1 {
            lemma_lowest_above(before, i);
            let m = choose|m: u64| before.contains(m) && m > i && count_at_least(before, m)
                == count_at_least(before, i);
            let j = choose|j: int| 0 <= j < before.len() && before[j] == m;
            assert(s[j] == m);
            if i < last < m {
                lemma_count_falls(before, i, last);
                lemma_count_falls(before, last, m);
                assert(count_at_least(s, last) == count_at_least(s, i));
            } else {
                assert(count_at_least(s, m) == count_at_least(s, i));
            }
        } else {
            assert(last > i);
            lemma_count_falls(before, i, last);
            assert(count_at_least(s, last) == count_at_least(s, i));
        }
    }
}

/// A majority commits: where more than half of the members hold an entry of the
/// leader's own term, the report that makes it so commits it, and the entries up
/// to it are handed to the state machine in order.
pub proof fn law_majority_commits(v: NodeView, from: NodeId, m: AppendEntriesResponse, i: u64)
    requires
        v.state == RaftState::Leader,
        m.term == v.current_term,
        m.success,
        lists_once(v),
        v.log.proper(),
        v.log.start_index <= i <= v.log.last_index(),
        forall|k: u64|
            i <= k <= v.log.last_index() ==> (#[trigger] v.log.entries[k - v.log.start_index]).term
                == v.current_term,
        forall|p: NodeId|
            p != v.id && members(v).contains(p) ==> #[trigger] acknowledged(
                v,
                from,
                m.match_index,
                p,
            ) <= v.log.last_index(),
        2 * holders(v, from, m.match_index, i).len() > members(v).len(),
    ensures
        ({
            let (w, outputs) = v.step(
                InputView::Message { from, rpc: RpcView::AppendEntriesResponse(m) },
            );
            &&& w.commit_index >= i
            &&& forall|k: u64|
                v.log.start_index - 1 <= v.last_applied < k <= i ==> outputs.contains(
                    OutputView::Apply(#[trigger] v.log.entries[k - v.log.start_index]),
                )
        }),
{
    let acked = v.acknowledge(from, m.match_index);
    let matches = acked.matched();
    let last = v.log.last_index();
    lemma_members(v);
    lemma_holders_counted(v, from, m.match_index, i);
    assert(acked.others() == v.others());
    assert forall|j: int| 0 <= j < matches.len() implies (#[trigger] matches[j]) <= last by {
        if j < v.others().len() {
            let p = v.others()[j];
            assert(v.others().to_set().contains(p));
            assert(acked.match_for(p) == acknowledged(v, from, m.match_index, p));
        }
    }
    lemma_reaches(matches, v.quorum(), i, last);
    let n = choose|n: u64| is_reached_by(matches, v.quorum(), n) && i <= n <= last;
    let r = reached_by(matches, v.quorum());
    assert(is_reached_by(matches, v.quorum(), r));
    assert(r == n) by {
        assert(matches.contains(n) && matches.contains(r));
        if r < n {
            assert(count_at_least(matches, n) < v.quorum());
        } else if n < r {
            assert(count_at_least(matches, r) < v.quorum());
        }
    }
    assert(v.log.entries[n - v.log.start_index].term == v.current_term);
    assert(v.log.contains(n, v.current_term));
    let counted = NodeView { commit_index: acked.advanced_commit(), ..acked };
    assert(counted.commit_index >= i);
    lemma_applied_node(counted);
    if v.last_applied >= v.log.start_index - 1 {
        lemma_applies_up_to(counted, i);
        let actions = counted.apply_committed().1;
        assert forall|k: u64| v.last_applied < k <= i implies v.step(
            InputView::Message { from, rpc: RpcView::AppendEntriesResponse(m) },
        ).1.contains(OutputView::Apply(#[trigger] v.log.entries[k - v.log.start_index])) by {
            let j = k - v.last_applied - 1;
            assert(actions[j] == (ActionView::ApplyCommittedEntries {
                entry: v.log.entry((v.last_applied + 1 + j) as u64),
            }));
            lemma_output_present(actions, j);
        }
    }
}

/// Applying goes on up to what is committed, as far as the log reaches.
pub proof fn lemma_applies_up_to(v: NodeView, upto: u64)
    requires
        v.log.proper(),
        v.log.start_index - 1 <= v.last_applied,
        upto <= v.commit_index,
        upto <= v.log.last_index(),
    ensures
        v.apply_committed().0.last_applied >= upto,
    decreases u64::MAX - v.last_applied,
{
    lemma_applied_node(v);
    if v.last_applied < upto {
        let next = crate::raft::log::next_up(v.last_applied);
        assert(v.log.holds(next));
        lemma_applies_up_to(NodeView { last_applied: next, ..v }, upto);
    }
}

/// Nothing less commits: a leader moves its commit index only up to an entry of
/// its own term that more than half of the members hold.
pub proof fn law_only_a_majority_commits(v: NodeView, from: NodeId, m: AppendEntriesResponse)
    requires
        v.state == RaftState::Leader,
        m.term == v.current_term,
        lists_once(v),
        v.log.proper(),
    ensures
        ({
            let w = v.step(
                InputView::Message { from, rpc: RpcView::AppendEntriesResponse(m) },
            ).0;
            w.commit_index != v.commit_index ==> {
                &&& m.success
                &&& w.commit_index > v.commit_index
                &&& 2 * holders(v, from, m.match_index, w.commit_index).len() > members(v).len()
                &&& v.log.contains(w.commit_index, v.current_term)
            }
        }),
{
    if m.success {
        let acked = v.acknowledge(from, m.match_index);
        let counted = NodeView { commit_index: acked.advanced_commit(), ..acked };
        lemma_applied_node(counted);
        lemma_members(v);
        let n = counted.commit_index;
        if n != v.commit_index {
            let matches = acked.matched();
            assert(acked.others() == v.others());
            lemma_some_reached(matches, v.quorum());
            assert(is_reached_by(matches, v.quorum(), n));
            assert(n >= 1);
            assert(n <= v.log.last_index());
            lemma_holders_counted(v, from, m.match_index, n);
        }
    }
}

/// Some member is the highest that so many reach.
proof fn lemma_some_reached(s: Seq<u64>, k: nat)
    requires
        1 <= k <= s.len(),
    ensures
        is_reached_by(s, k, reached_by(s, k)),
{
    assert forall|j: int| 0 <= j < s.len() implies (#[trigger] s[j]) <= u64::MAX by {}
    lemma_all_reach_zero(s);
    lemma_reaches(s, k, 0, u64::MAX);
}

proof fn lemma_all_reach_zero(s: Seq<u64>)
    ensures
        count_at_least(s, 0) == s.len(),
    decreases s.len(),
{
    reveal(Seq::filter);
    if s.len() > 0 {
        lemma_all_reach_zero(s.drop_last());
    }
}

// ── Elections ───────────────────────────────────────────────────────────────

/// The term of the log's last entry, or of the snapshot it starts from.
pub open spec fn tail_term(log: RaftLogView) -> u64 {
    if log.entries.len() > 0 {
        log.entries[log.entries.len() - 1].term
    } else {
        log.last_included_term
    }
}

/// The index of the log's last entry, or of the snapshot it starts from.
pub open spec fn tail_index(log: RaftLogView) -> int {
    log.start_index - 1 + log.entries.len()
}

/// The empty entry that a leader of `term` puts behind the log.
pub open spec fn opening(log: RaftLogView, term: u64) -> LogEntryView {
    LogEntryView { index: (tail_index(log) + 1) as u64, term, command: Seq::empty() }
}

/// A majority elects: the vote that gives a candidate more than half of the
/// members makes it the leader of its term. It opens the term with an empty entry,
/// made durable first, and sends it to every other member. With fewer votes it
/// stays a candidate and keeps the vote.
pub proof fn law_majority_elects(v: NodeView, from: NodeId, m: RequestVoteResponse)
    requires
        v.state == RaftState::Candidate,
        m.term == v.current_term,
        m.vote_granted,
        lists_once(v),
        v.election.votes_granted.finite(),
        v.log.proper(),
    ensures
        ({
            let (w, outputs) = v.step(
                InputView::Message { from, rpc: RpcView::RequestVoteResponse(m) },
            );
            let votes = v.election.votes_granted.insert(from);
            let first = opening(v.log, v.current_term);
            &&& w.current_term == v.current_term
            &&& 2 * votes.len() > members(v).len() ==> {
                &&& w.state == RaftState::Leader
                &&& w.leader_id == Some(v.id)
                &&& w.log.entries == v.log.entries.push(first)
                &&& w.log.start_index == v.log.start_index
                &&& outputs.len() > 0
                &&& outputs[0] == (OutputView::PersistLog {
                    truncate_from: None,
                    entries: seq![first],
                })
                &&& forall|p: NodeId|
                    p != v.id && #[trigger] members(v).contains(p) ==> {
                        &&& w.next_index.contains_key(p)
                        &&& w.next_index[p] == tail_index(v.log) + 1
                        &&& w.match_index.contains_key(p)
                        &&& w.match_index[p] == 0
                        &&& outputs.contains(
                            OutputView::Send {
                                to: p,
                                rpc: RpcView::AppendEntries(
                                    AppendEntriesView {
                                        term: v.current_term,
                                        leader_id: v.id,
                                        prev_log_index: tail_index(v.log) as u64,
                                        prev_log_term: if tail_index(v.log) == 0 {
                                            0
                                        } else {
                                            tail_term(v.log)
                                        },
                                        entries: seq![first],
                                        leader_commit: v.commit_index,
                                    },
                                ),
                            },
                        )
                    }
            }
            &&& 2 * votes.len() <= members(v).len() ==> {
                &&& w.state == RaftState::Candidate
                &&& w.election.votes_granted == votes
                &&& outputs.len() == 0
            }
        }),
{
    lemma_members(v);
    let node = v.with_vote(from);
    assert(node.others() == v.others());
    let votes = v.election.votes_granted.insert(from);
    let (w, actions) = v.act(InputView::Message { from, rpc: RpcView::RequestVoteResponse(m) });
    if node.has_won() {
        assert(2 * votes.len() > members(v).len());
        assert(members(node) == members(v));
        lemma_promotion(node);
    } else {
        assert(2 * votes.len() <= members(v).len());
    }
}

/// What a new leader does.
proof fn lemma_promotion(v: NodeView)
    requires
        lists_once(v),
        v.log.proper(),
    ensures
        ({
            let (w, actions) = v.become_leader();
            let outputs = outputs_of(actions);
            let first = opening(v.log, v.current_term);
            &&& outputs.len() > 0
            &&& outputs[0] == (OutputView::PersistLog { truncate_from: None, entries: seq![first] })
            &&& w.log.entries == v.log.entries.push(first)
            &&& forall|p: NodeId|
                p != v.id && #[trigger] members(v).contains(p) ==> {
                    &&& w.next_index.contains_key(p)
                    &&& w.next_index[p] == tail_index(v.log) + 1
                    &&& w.match_index.contains_key(p)
                    &&& w.match_index[p] == 0
                    &&& outputs.contains(
                        OutputView::Send {
                            to: p,
                            rpc: RpcView::AppendEntries(
                                AppendEntriesView {
                                    term: v.current_term,
                                    leader_id: v.id,
                                    prev_log_index: tail_index(v.log) as u64,
                                    prev_log_term: if tail_index(v.log) == 0 {
                                        0
                                    } else {
                                        tail_term(v.log)
                                    },
                                    entries: seq![first],
                                    leader_commit: v.commit_index,
                                },
                            ),
                        },
                    )
                }
        }),
{
    let (w, actions) = v.become_leader();
    let first = opening(v.log, v.current_term);
    lemma_tail(v.log);
    lemma_members(v);
    assert(v.noop() == first);
    let persist = ActionView::PersistLog { truncate_from: None, entries: seq![v.noop()] };
    let head = seq![ActionView::PromoteLeader, persist];
    lemma_outputs_add(head, w.broadcast());
    assert(outputs_of(head) =~= seq![
        OutputView::PersistLog { truncate_from: None, entries: seq![first] },
    ]) by {
        reveal_with_fuel(outputs_of, 3);
        assert(head.drop_last() =~= seq![ActionView::PromoteLeader]);
        assert(seq![ActionView::PromoteLeader].drop_last() =~= Seq::<ActionView>::empty());
    }
    assert forall|p: NodeId| p != v.id && #[trigger] members(v).contains(p) implies {
        &&& w.next_index.contains_key(p)
        &&& w.next_index[p] == tail_index(v.log) + 1
        &&& w.match_index.contains_key(p)
        &&& w.match_index[p] == 0
        &&& outputs_of(actions).contains(
            OutputView::Send {
                to: p,
                rpc: RpcView::AppendEntries(
                    AppendEntriesView {
                        term: v.current_term,
                        leader_id: v.id,
                        prev_log_index: tail_index(v.log) as u64,
                        prev_log_term: if tail_index(v.log) == 0 {
                            0
                        } else {
                            tail_term(v.log)
                        },
                        entries: seq![first],
                        leader_commit: v.commit_index,
                    },
                ),
            },
        )
    } by {
        assert(v.peers.contains(p));
        assert(v.others().to_set().contains(p));
        let j = choose|j: int| 0 <= j < v.others().len() && v.others()[j] == p;
        assert(w.others() == v.others());
        assert(actions[2 + j] == w.broadcast()[j]);
        assert(w.broadcast()[j] == w.send_update(p));
        let m = w.append_entries_to(p);
        assert(w.next_for(p) == tail_index(v.log) + 1);
        assert(!w.needs_snapshot(p));
        assert(w.log.entries.skip(v.log.entries.len() as int) =~= seq![first]);
        assert(m.entries =~= seq![first]);
        assert(m.prev_log_index == tail_index(v.log));
        if v.log.entries.len() > 0 {
            assert(w.log.entries[v.log.entries.len() - 1] == v.log.entries[v.log.entries.len() - 1]);
        }
        assert(m.prev_log_term == if tail_index(v.log) == 0 {
            0
        } else {
            tail_term(v.log)
        });
        lemma_output_present(actions, 2 + j);
    }
}

pub proof fn lemma_tail(log: RaftLogView)
    requires
        log.proper(),
    ensures
        log.last_index() == tail_index(log),
        log.last_term() == tail_term(log),
        log.next_index() == tail_index(log) + 1,
        log.last_included_index() == log.start_index - 1,
{
}

/// A vote is given exactly where it may be: in a term that is not over, to nobody
/// else in that term, and to a candidate whose log ends no earlier than the
/// voter's. The vote is durable before the answer, and the voter waits again.
pub proof fn law_vote_is_given_where_it_may_be(v: NodeView, from: NodeId, m: RequestVoteRequest)
    requires
        v.log.proper(),
    ensures
        ({
            let (w, outputs) = v.step(InputView::Message { from, rpc: RpcView::RequestVote(m) });
            let later = m.term > v.current_term;
            let free = later || v.voted_for is None || v.voted_for == Some(m.candidate_id);
            let as_long = m.last_log_term > tail_term(v.log) || (m.last_log_term == tail_term(v.log)
                && m.last_log_index >= tail_index(v.log));
            let grants = m.term >= v.current_term && free && as_long;
            let term = if later {
                m.term
            } else {
                v.current_term
            };
            let answer = OutputView::Send {
                to: from,
                rpc: RpcView::RequestVoteResponse(
                    RequestVoteResponse { term, vote_granted: grants },
                ),
            };
            let written = OutputView::Persist(
                HardState {
                    current_term: term,
                    voted_for: if grants {
                        Some(m.candidate_id)
                    } else {
                        None
                    },
                },
            );
            &&& w.current_term == term
            &&& outputs == if grants || later {
                seq![written, answer]
            } else {
                seq![answer]
            }
            &&& grants ==> {
                &&& w.voted_for == Some(m.candidate_id)
                &&& w.election.ticks_remaining == v.election.election_timeout_ticks
            }
            &&& !grants ==> w.voted_for == if later {
                None
            } else {
                v.voted_for
            }
            &&& w.log == v.log
            &&& later ==> w.state == RaftState::Follower && w.leader_id is None
        }),
{
    lemma_tail(v.log);
    let actions = v.act(InputView::Message { from, rpc: RpcView::RequestVote(m) }).1;
    lemma_outputs_map(actions);
}

/// A node that hears from no leader stands for election when its time is up, and
/// not before. It enters the next term, votes for itself, makes that durable and
/// asks every other member, with what its log ends with.
pub proof fn law_election_starts_when_time_is_up(v: NodeView)
    requires
        v.state != RaftState::Leader,
        lists_once(v),
        v.log.proper(),
    ensures
        ({
            let (w, outputs) = v.step(InputView::Tick);
            &&& v.election.ticks_remaining > 1 ==> {
                &&& outputs.len() == 0
                &&& w == (NodeView { election: w.election, ..v })
                &&& w.election.ticks_remaining == v.election.ticks_remaining - 1
                &&& w.election.election_timeout_ticks == v.election.election_timeout_ticks
                &&& w.election.votes_granted == v.election.votes_granted
            }
            &&& v.election.ticks_remaining <= 1 && v.current_term < u64::MAX ==> {
                &&& w.current_term == v.current_term + 1
                &&& w.voted_for == Some(v.id)
                &&& w.state == if members(v).len() == 1 {
                    RaftState::Leader
                } else {
                    RaftState::Candidate
                }
                &&& members(v).len() > 1 ==> w.leader_id is None && w.election.votes_granted
                    == Set::empty().insert(v.id)
                &&& outputs.len() > 0
                &&& outputs[0] == OutputView::Persist(
                    HardState {
                        current_term: (v.current_term + 1) as u64,
                        voted_for: Some(v.id),
                    },
                )
                &&& forall|p: NodeId|
                    p != v.id && #[trigger] members(v).contains(p) ==> outputs.contains(
                        OutputView::Send {
                            to: p,
                            rpc: RpcView::RequestVote(
                                RequestVoteRequest {
                                    term: (v.current_term + 1) as u64,
                                    candidate_id: v.id,
                                    last_log_index: tail_index(v.log) as u64,
                                    last_log_term: tail_term(v.log),
                                },
                            ),
                        },
                    )
            }
        }),
{
    lemma_members(v);
    lemma_tail(v.log);
    let (w, actions) = v.act(InputView::Tick);
    if v.election.ticks_remaining <= 1 {
        let node = NodeView { election: v.election.ticked(), ..v };
        let c = node.candidacy();
        assert(c.others() == v.others());
        let effects = seq![ActionView::Persist(c.hard_state())] + c.canvass();
        assert forall|i: int| 0 <= i < effects.len() implies output_of(#[trigger] effects[i])
            is Some by {
            if i > 0 {
                assert(effects[i] == c.canvass()[i - 1]);
            }
        }
        lemma_outputs_map(effects);
        let promotion = c.become_leader().1;
        lemma_outputs_add(effects, promotion);
        assert(output_of(effects[0]) == Some(outputs_of(effects)[0]));
        assert(c.election.votes_granted.len() == 1);
        assert(c.has_won() <==> members(v).len() == 1);
        assert forall|p: NodeId| p != v.id && #[trigger] members(v).contains(p) implies outputs_of(
            actions,
        ).contains(
            OutputView::Send {
                to: p,
                rpc: RpcView::RequestVote(
                    RequestVoteRequest {
                        term: c.current_term,
                        candidate_id: v.id,
                        last_log_index: tail_index(v.log) as u64,
                        last_log_term: tail_term(v.log),
                    },
                ),
            },
        ) by {
            assert(v.others().to_set().contains(p));
            let j = choose|j: int| 0 <= j < v.others().len() && v.others()[j] == p;
            assert(effects[1 + j] == c.ask_for_vote(p));
            assert(actions[1 + j] == effects[1 + j]);
            lemma_output_present(actions, 1 + j);
        }
    }
}

} // verus!
