//! What followers make of a leader's messages, and the leader of their answers.

use vstd::prelude::*;

use crate::config::NodeId;
use crate::raft::driver::{output_of, outputs_of, InputView, OutputView};
use crate::raft::duties::{
    lemma_applies_up_to, lemma_output_present, lemma_outputs_add, lemma_tail, tail_index,
};
use crate::raft::election::ActionView;
use crate::raft::laws::{
    consecutive, in_range, law_merge, lemma_append_consecutive, lemma_applied_node,
    lemma_consecutive_no_gap, lemma_matching_prefix, lemma_no_gap_consecutive,
};
use crate::raft::log::{first_gap, AppendOutcomeView, LogEntryView, LogLookupError, RaftLogView};
use crate::raft::replication::{append_reply, told_commit};
use crate::raft::replies::{known_term, lemma_term_known, update_from};
use crate::raft::snapshot::{SnapshotMeta, SnapshotView};
use crate::raft::state::RaftState;
use crate::raft::storage::{HardState, RecoveredView};
use crate::raft::{
    AppendEntriesResponse, AppendEntriesView, InstallSnapshotResponse, InstallSnapshotView,
    NodeView, RequestVoteResponse, RpcView,
};
use crate::rng::{chacha_range, NodeRngView};

verus! {

// ── AppendEntries ───────────────────────────────────────────────────────────

/// The message's entries follow each other, right behind the one they refer to.
pub open spec fn entries_follow(m: AppendEntriesView) -> bool {
    &&& m.prev_log_index + m.entries.len() < u64::MAX - 1
    &&& forall|j: int|
        0 <= j < m.entries.len() ==> (#[trigger] m.entries[j]).index == m.prev_log_index + 1 + j
}

/// The log holds an entry of this term at this index.
pub open spec fn has_entry(log: RaftLogView, index: int, term: u64) -> bool {
    log.start_index <= index <= tail_index(log) && log.entries[index - log.start_index].term
        == term
}

/// The first `n` entries of the message are in the log, and the one behind them,
/// if there is one, is not.
pub open spec fn has_first(log: RaftLogView, m: AppendEntriesView, n: int) -> bool {
    &&& 0 <= n <= m.entries.len()
    &&& forall|j: int|
        0 <= j < n ==> has_entry(log, (#[trigger] m.entries[j]).index as int, m.entries[j].term)
    &&& n < m.entries.len() ==> !has_entry(
        log,
        m.entries[n].index as int,
        m.entries[n].term,
    )
}

/// What a node in the leader's term becomes, whatever else the message does.
pub open spec fn follows(v: NodeView, w: NodeView, term: u64, leader: NodeId) -> bool {
    &&& w.id == v.id
    &&& w.peers == v.peers
    &&& w.current_term == term
    &&& term > v.current_term ==> w.voted_for is None
    &&& term == v.current_term ==> w.voted_for == v.voted_for
    &&& w.state == RaftState::Follower
    &&& w.leader_id == Some(leader)
    &&& w.election.ticks_remaining == v.election.election_timeout_ticks
    &&& w.election.election_timeout_ticks == v.election.election_timeout_ticks
}

/// What comes before the rest where the term is a later one: the term made durable.
pub open spec fn term_written(v: NodeView, term: u64) -> Seq<OutputView> {
    if term > v.current_term {
        seq![OutputView::Persist(HardState { current_term: term, voted_for: None })]
    } else {
        Seq::empty()
    }
}

proof fn lemma_matches(log: RaftLogView, entry: LogEntryView)
    requires
        log.proper(),
    ensures
        log.matches(entry) == has_entry(log, entry.index as int, entry.term),
{
}

/// What the message makes of the log, in terms of its first entry that is not there.
proof fn lemma_merged(log: RaftLogView, m: AppendEntriesView) -> (n: int)
    requires
        log.proper(),
        entries_follow(m),
        log.start_index - 1 <= m.prev_log_index <= tail_index(log),
    ensures
        has_first(log, m, n),
        n == log.matching_prefix(m.entries),
        log.append_from_leader(m.entries).1 is Ok,
        n == m.entries.len() ==> log.append_from_leader(m.entries).0 == log
            && log.append_from_leader(m.entries).1->Ok_0.is_empty(),
        n < m.entries.len() ==> {
            let (merged, outcome) = log.append_from_leader(m.entries);
            &&& merged.start_index == log.start_index
            &&& merged.last_included_term == log.last_included_term
            &&& merged.entries == log.entries.take(m.prev_log_index + 1 + n - log.start_index)
                + m.entries.skip(n)
            &&& outcome->Ok_0.appended == m.entries.skip(n)
            &&& outcome->Ok_0.truncated_from == if m.prev_log_index + 1 + n <= tail_index(log) {
                Some((m.prev_log_index + 1 + n) as u64)
            } else {
                None
            }
            &&& !outcome->Ok_0.is_empty()
        },
        log.append_from_leader(m.entries).0.proper(),
{
    let n = log.matching_prefix(m.entries) as int;
    lemma_matching_prefix(log, m.entries);
    lemma_tail(log);
    assert forall|j: int| 0 <= j < n implies has_entry(
        log,
        (#[trigger] m.entries[j]).index as int,
        m.entries[j].term,
    ) by {
        lemma_matches(log, m.entries[j]);
    }
    assert(consecutive(m.entries));
    lemma_consecutive_no_gap(m.entries);
    if n < m.entries.len() {
        lemma_matches(log, m.entries[n]);
        let first_index = m.entries[n].index;
        assert(first_index == m.prev_log_index + 1 + n);
        let rest = m.entries.skip(n);
        if n > 0 {
            assert(has_entry(log, m.entries[n - 1].index as int, m.entries[n - 1].term));
        }
        assert(log.start_index <= first_index <= tail_index(log) + 1);
        let cut = log.truncate_from(first_index);
        assert forall|j: int| 0 <= j < rest.len() implies (#[trigger] rest[j]).index
            == rest[0].index + j && rest[j].index < u64::MAX - 1 by {
            assert(rest[j] == m.entries[n + j]);
        }
        assert(rest[0] == m.entries[n]);
        lemma_append_consecutive(cut, rest);
        assert(cut.next_index() == first_index);
        let merged = log.append_from_leader(m.entries).0;
        assert(merged == cut.extend(rest));
        assert forall|i: int| 0 <= i < merged.entries.len() implies (
        #[trigger] merged.entries[i]).index == merged.start_index + i by {
            if i >= cut.entries.len() {
                assert(merged.entries[i] == rest[i - cut.entries.len()]);
            } else {
                assert(merged.entries[i] == log.entries[i]);
            }
        }
    }
    n
}

/// A follower takes entries: where it holds the entry before them, its log then
/// holds them all. What it had stays up to the first that was not there, and
/// nothing of its own behind that. What changed is made durable. It learns what is
/// committed, as far as its log reaches, hands that to the state machine, and
/// answers that it holds everything up to the last entry sent.
pub proof fn law_follower_takes_entries(
    v: NodeView,
    from: NodeId,
    m: AppendEntriesView,
    n: int,
)
    requires
        v.log.proper(),
        m.term >= v.current_term,
        entries_follow(m),
        v.log.start_index - 1 <= m.prev_log_index,
        known_term(v.log, m.prev_log_index as int) == Some(m.prev_log_term),
        has_first(v.log, m, n),
    ensures
        ({
            let (w, outputs) = v.step(InputView::Message { from, rpc: RpcView::AppendEntries(m) });
            let first_new = m.prev_log_index + 1 + n;
            &&& follows(v, w, m.term, m.leader_id)
            &&& w.log.start_index == v.log.start_index
            &&& w.log.last_included_term == v.log.last_included_term
            &&& n == m.entries.len() ==> w.log.entries == v.log.entries
            &&& n < m.entries.len() ==> {
                &&& w.log.entries == v.log.entries.take(first_new - v.log.start_index)
                    + m.entries.skip(n)
                &&& outputs.contains(
                    OutputView::PersistLog {
                        truncate_from: if first_new <= tail_index(v.log) {
                            Some(first_new as u64)
                        } else {
                            None
                        },
                        entries: m.entries.skip(n),
                    },
                )
            }
            &&& w.commit_index == if m.leader_commit <= tail_index(w.log) {
                if m.leader_commit > v.commit_index {
                    m.leader_commit as int
                } else {
                    v.commit_index as int
                }
            } else if tail_index(w.log) > v.commit_index {
                tail_index(w.log)
            } else {
                v.commit_index as int
            }
            &&& v.log.start_index - 1 <= v.last_applied ==> w.last_applied >= w.commit_index
                || w.last_applied >= tail_index(w.log)
            &&& outputs.len() > 0
            &&& outputs.last() == (OutputView::Send {
                to: from,
                rpc: RpcView::AppendEntriesResponse(
                    AppendEntriesResponse {
                        term: m.term,
                        success: true,
                        match_index: (m.prev_log_index + m.entries.len()) as u64,
                    },
                ),
            })
            &&& m.term > v.current_term ==> outputs[0] == OutputView::Persist(
                HardState { current_term: m.term, voted_for: None },
            )
        }),
{
    lemma_taken(v, from, m, n);
    let log = v.log.append_from_leader(m.entries).0;
    let middle = v.log.append_from_leader(m.entries).1->Ok_0;
    let committed = told(v, m);
    let persist = persist_of(middle);
    let applies = committed.apply_committed().1;
    let reply = append_reply(from, m.term, true, (m.prev_log_index + m.entries.len()) as u64);
    let effects = v.adopt_term(m.term).1 + v.adopt_term(m.term).0.demotion();
    let actions = v.act(InputView::Message { from, rpc: RpcView::AppendEntries(m) }).1;
    assert(actions.last() == reply);
    lemma_tail(log);
    if n < m.entries.len() {
        assert(actions[effects.len() as int] == persist[0]);
        lemma_output_present(actions, effects.len() as int);
    }
    if m.term > v.current_term {
        let rest = (persist + applies).push(reply);
        assert(actions =~= effects + rest);
        lemma_outputs_add(effects, rest);
        lemma_effects_outputs(v, m.term);
    }
    if v.log.start_index - 1 <= v.last_applied {
        if committed.commit_index <= log.last_index() {
            lemma_applies_up_to(committed, committed.commit_index);
        } else {
            lemma_applies_up_to(committed, log.last_index());
        }
    }
}

/// The node that took the entries and learnt what is committed.
spec fn told(v: NodeView, m: AppendEntriesView) -> NodeView {
    let follower = v.adopt_term(m.term).0.follow(m.leader_id);
    let log = v.log.append_from_leader(m.entries).0;
    NodeView {
        log,
        commit_index: told_commit(v.commit_index, m.leader_commit, log.last_index()),
        ..follower
    }
}

/// What is made durable of a merge.
spec fn persist_of(outcome: AppendOutcomeView) -> Seq<ActionView> {
    if outcome.is_empty() {
        Seq::empty()
    } else {
        seq![
            ActionView::PersistLog {
                truncate_from: outcome.truncated_from,
                entries: outcome.appended,
            },
        ]
    }
}

proof fn lemma_taken(v: NodeView, from: NodeId, m: AppendEntriesView, n: int)
    requires
        v.log.proper(),
        m.term >= v.current_term,
        entries_follow(m),
        v.log.start_index - 1 <= m.prev_log_index,
        known_term(v.log, m.prev_log_index as int) == Some(m.prev_log_term),
        has_first(v.log, m, n),
    ensures
        ({
            let (w, actions) = v.act(InputView::Message { from, rpc: RpcView::AppendEntries(m) });
            let (log, merge) = v.log.append_from_leader(m.entries);
            let committed = told(v, m);
            let effects = v.adopt_term(m.term).1 + v.adopt_term(m.term).0.demotion();
            let reply = append_reply(
                from,
                m.term,
                true,
                (m.prev_log_index + m.entries.len()) as u64,
            );
            &&& n == v.log.matching_prefix(m.entries)
            &&& merge is Ok
            &&& log.proper()
            &&& n == m.entries.len() ==> log == v.log
            &&& n < m.entries.len() ==> {
                &&& log.start_index == v.log.start_index
                &&& log.last_included_term == v.log.last_included_term
                &&& log.entries == v.log.entries.take(
                    m.prev_log_index + 1 + n - v.log.start_index,
                ) + m.entries.skip(n)
                &&& persist_of(merge->Ok_0) == seq![
                    ActionView::PersistLog {
                        truncate_from: if m.prev_log_index + 1 + n <= tail_index(v.log) {
                            Some((m.prev_log_index + 1 + n) as u64)
                        } else {
                            None
                        },
                        entries: m.entries.skip(n),
                    },
                ]
            }
            &&& w == (NodeView { last_applied: w.last_applied, ..committed })
            &&& w == committed.apply_committed().0
            &&& follows(v, committed, m.term, m.leader_id)
            &&& actions == (effects + persist_of(merge->Ok_0)
                + committed.apply_committed().1).push(reply)
        }),
{
    lemma_tail(v.log);
    let k = lemma_merged(v.log, m);
    assert(k == n) by {
        if k < n {
            assert(has_entry(v.log, m.entries[k].index as int, m.entries[k].term));
        }
        if n < k {
            assert(has_entry(v.log, m.entries[n].index as int, m.entries[n].term));
        }
    }
    let follower = v.adopt_term(m.term).0.follow(m.leader_id);
    assert(follower.log == v.log);
    assert(follower.log.contains(m.prev_log_index, m.prev_log_term));
    lemma_applied_node(told(v, m));
}

/// A follower that does not hold the entry before them takes none: it answers that
/// it does not, and keeps its log and what it knows to be committed.
pub proof fn law_follower_refuses_entries_behind_a_gap(
    v: NodeView,
    from: NodeId,
    m: AppendEntriesView,
)
    requires
        v.log.proper(),
        m.term >= v.current_term,
        known_term(v.log, m.prev_log_index as int) != Some(m.prev_log_term),
    ensures
        ({
            let (w, outputs) = v.step(InputView::Message { from, rpc: RpcView::AppendEntries(m) });
            &&& follows(v, w, m.term, m.leader_id)
            &&& w.log == v.log
            &&& w.commit_index == v.commit_index
            &&& w.last_applied == v.last_applied
            &&& outputs == term_written(v, m.term).push(
                OutputView::Send {
                    to: from,
                    rpc: RpcView::AppendEntriesResponse(
                        AppendEntriesResponse { term: m.term, success: false, match_index: 0 },
                    ),
                },
            )
        }),
{
    lemma_tail(v.log);
    let (adopted, adoption) = v.adopt_term(m.term);
    let actions = v.act(InputView::Message { from, rpc: RpcView::AppendEntries(m) }).1;
    let effects = adoption + adopted.demotion();
    let reply = append_reply(from, m.term, false, 0);
    assert(actions == effects.push(reply));
    assert(actions.drop_last() =~= effects);
    lemma_effects_outputs(v, m.term);
}

/// The entries of the message cannot stand in the log: two that are next to each
/// other do not follow each other, or the first lies below where the log starts or
/// above where it ends.
pub open spec fn cannot_stand(log: RaftLogView, entries: Seq<LogEntryView>) -> bool {
    ||| exists|j: int|
        0 <= j < entries.len() - 1 && (#[trigger] entries[j]).index + 1 != entries[j + 1].index
    ||| entries.len() > 0 && (entries[0].index < log.start_index || entries[0].index > tail_index(
        log,
    ) + 1)
}

/// A follower refuses entries that cannot stand in its log, whole: it keeps its log
/// and answers that it does not hold them.
pub proof fn law_follower_refuses_entries_that_cannot_stand(
    v: NodeView,
    from: NodeId,
    m: AppendEntriesView,
)
    requires
        v.log.proper(),
        m.term >= v.current_term,
        in_range(m.entries),
        cannot_stand(v.log, m.entries),
    ensures
        ({
            let (w, outputs) = v.step(InputView::Message { from, rpc: RpcView::AppendEntries(m) });
            &&& follows(v, w, m.term, m.leader_id)
            &&& w.log == v.log
            &&& w.commit_index == v.commit_index
            &&& w.last_applied == v.last_applied
            &&& outputs == term_written(v, m.term).push(
                OutputView::Send {
                    to: from,
                    rpc: RpcView::AppendEntriesResponse(
                        AppendEntriesResponse { term: m.term, success: false, match_index: 0 },
                    ),
                },
            )
        }),
{
    lemma_tail(v.log);
    lemma_matching_prefix(v.log, m.entries);
    law_merge(v.log, m.entries);
    if first_gap(m.entries) is None {
        lemma_no_gap_consecutive(m.entries);
        assert(!(exists|j: int|
            0 <= j < m.entries.len() - 1 && (#[trigger] m.entries[j]).index + 1 != m.entries[j
                + 1].index));
        assert(v.log.matching_prefix(m.entries) == 0) by {
            if v.log.matching_prefix(m.entries) > 0 {
                assert(v.log.matches(m.entries[0]));
            }
        }
        let rest = m.entries.skip(0);
        assert(rest =~= m.entries);
        if m.entries[0].index > tail_index(v.log) + 1 {
            lemma_append_consecutive(v.log, rest);
        }
    }
    assert(v.log.append_from_leader(m.entries).1 is Err);
    let (adopted, adoption) = v.adopt_term(m.term);
    let actions = v.act(InputView::Message { from, rpc: RpcView::AppendEntries(m) }).1;
    let effects = adoption + adopted.demotion();
    let reply = append_reply(from, m.term, false, 0);
    assert(actions == effects.push(reply));
    assert(actions.drop_last() =~= effects);
    lemma_effects_outputs(v, m.term);
}

/// What adopting a term and following its leader gives the driver.
proof fn lemma_effects_outputs(v: NodeView, term: u64)
    requires
        term >= v.current_term,
    ensures
        outputs_of(v.adopt_term(term).1 + v.adopt_term(term).0.demotion()) == term_written(v, term),
{
    let (adopted, adoption) = v.adopt_term(term);
    let effects = adoption + adopted.demotion();
    reveal_with_fuel(outputs_of, 4);
    if term > v.current_term {
        assert(adopted.demotion() =~= Seq::empty());
        assert(effects =~= adoption);
        assert(adoption.drop_last() =~= seq![ActionView::DemoteFollower]);
        assert(adoption.drop_last().drop_last() =~= Seq::empty());
        assert(outputs_of(effects) =~= term_written(v, term));
    } else {
        assert(effects =~= adopted.demotion());
        assert(effects.len() > 0 ==> effects.drop_last() =~= Seq::empty());
        assert(outputs_of(effects) =~= term_written(v, term));
    }
}

/// A message of an earlier term gets the current term back, and does nothing.
pub proof fn law_late_leader_is_told_the_term(v: NodeView, from: NodeId, rpc: RpcView)
    requires
        match rpc {
            RpcView::AppendEntries(m) => m.term < v.current_term,
            RpcView::InstallSnapshot(m) => m.term < v.current_term,
            _ => false,
        },
    ensures
        v.step(InputView::Message { from, rpc }).0 == v,
        v.step(InputView::Message { from, rpc }).1 == seq![
            OutputView::Send {
                to: from,
                rpc: match rpc {
                    RpcView::AppendEntries(_) => RpcView::AppendEntriesResponse(
                        AppendEntriesResponse {
                            term: v.current_term,
                            success: false,
                            match_index: 0,
                        },
                    ),
                    _ => RpcView::InstallSnapshotResponse(
                        InstallSnapshotResponse { term: v.current_term },
                    ),
                },
            },
        ],
{
    let actions = v.act(InputView::Message { from, rpc }).1;
    reveal_with_fuel(outputs_of, 3);
    assert(actions.len() == 1);
    assert(actions.drop_last() =~= Seq::empty());
}

// ── What the leader makes of the answers ────────────────────────────────────

/// A member that reports what it holds is believed: what is known of it rises to
/// that and never falls, and the next entry to send is the one behind it. What is
/// known of the others stays.
pub proof fn law_leader_records_what_is_held(
    v: NodeView,
    from: NodeId,
    m: AppendEntriesResponse,
    other: NodeId,
)
    requires
        v.state == RaftState::Leader,
        m.term == v.current_term,
        m.success,
        m.match_index < u64::MAX,
        v.match_index.contains_key(from),
    ensures
        ({
            let w = v.step(
                InputView::Message { from, rpc: RpcView::AppendEntriesResponse(m) },
            ).0;
            &&& w.state == RaftState::Leader
            &&& w.log == v.log
            &&& w.match_index.contains_key(from)
            &&& w.match_index[from] == if m.match_index > v.match_index[from] {
                m.match_index
            } else {
                v.match_index[from]
            }
            &&& m.match_index > v.match_index[from] ==> w.next_index.contains_key(from)
                && w.next_index[from] == m.match_index + 1
            &&& m.match_index <= v.match_index[from] ==> w.next_index == v.next_index
            &&& other != from ==> {
                &&& w.match_index.contains_key(other) == v.match_index.contains_key(other)
                &&& w.match_index[other] == v.match_index[other]
                &&& w.next_index.contains_key(other) == v.next_index.contains_key(other)
                &&& w.next_index[other] == v.next_index[other]
            }
        }),
{
    let acked = v.acknowledge(from, m.match_index);
    lemma_applied_node(NodeView { commit_index: acked.advanced_commit(), ..acked });
}

/// A member that refused is asked one entry further back, at once, as far back as
/// the log goes. Nothing else changes.
pub proof fn law_leader_steps_back_after_a_refusal(
    v: NodeView,
    from: NodeId,
    m: AppendEntriesResponse,
)
    requires
        v.state == RaftState::Leader,
        m.term == v.current_term,
        !m.success,
        v.log.proper(),
        v.next_index.contains_key(from),
        1 <= v.next_index[from] <= tail_index(v.log) + 1,
    ensures
        ({
            let (w, outputs) = v.step(
                InputView::Message { from, rpc: RpcView::AppendEntriesResponse(m) },
            );
            let next = if v.next_index[from] > v.log.start_index {
                (v.next_index[from] - 1) as u64
            } else {
                v.log.start_index
            };
            &&& w == (NodeView { next_index: v.next_index.insert(from, next), ..v })
            &&& outputs == seq![OutputView::Send { to: from, rpc: update_from(v, next) }]
        }),
{
    let input = InputView::Message { from, rpc: RpcView::AppendEntriesResponse(m) };
    let (w, actions) = v.act(input);
    lemma_tail(v.log);
    let next = w.next_index[from];
    assert(v.log.entries_from(next) =~= v.log.entries.skip(next - v.log.start_index));
    reveal_with_fuel(outputs_of, 3);
    assert(actions.drop_last() =~= Seq::empty());
    let sent = w.append_entries_to(from);
    assert(sent.prev_log_index == next - 1);
    assert(sent.entries == v.log.entries.skip(next - v.log.start_index));
    assert(sent.prev_log_term == known_term(v.log, next - 1)->0);
    assert(RpcView::AppendEntries(sent) == update_from(v, next));
}

/// A member that installed the leader's snapshot holds everything up to it, and
/// needs the entry behind it next.
pub proof fn law_leader_records_an_installed_snapshot(
    v: NodeView,
    from: NodeId,
    m: InstallSnapshotResponse,
)
    requires
        v.state == RaftState::Leader,
        m.term == v.current_term,
        v.snapshot is Some,
        v.snapshot->0.meta.last_included_index < u64::MAX,
        v.match_index.contains_key(from),
    ensures
        ({
            let (w, outputs) = v.step(
                InputView::Message { from, rpc: RpcView::InstallSnapshotResponse(m) },
            );
            let covered = v.snapshot->0.meta.last_included_index;
            &&& outputs.len() == 0
            &&& covered > v.match_index[from] ==> w == (NodeView {
                match_index: v.match_index.insert(from, covered),
                next_index: v.next_index.insert(from, (covered + 1) as u64),
                ..v
            })
            &&& covered <= v.match_index[from] ==> w == v
        }),
{
}

/// An answer of a later term ends a leader's, a candidate's or a follower's time
/// in this one: it makes the later term durable and knows no leader.
pub proof fn law_answer_of_a_later_term_demotes(v: NodeView, from: NodeId, rpc: RpcView, term: u64)
    requires
        term > v.current_term,
        match rpc {
            RpcView::AppendEntriesResponse(m) => m.term == term,
            RpcView::InstallSnapshotResponse(m) => m.term == term,
            RpcView::RequestVoteResponse(m) => m.term == term,
            _ => false,
        },
    ensures
        ({
            let (w, outputs) = v.step(InputView::Message { from, rpc });
            &&& w.current_term == term
            &&& w.voted_for is None
            &&& w.state == RaftState::Follower
            &&& w.leader_id is None
            &&& w.log == v.log
            &&& w.commit_index == v.commit_index
            &&& outputs == seq![
                OutputView::Persist(HardState { current_term: term, voted_for: None }),
            ]
        }),
{
    let actions = v.act(InputView::Message { from, rpc }).1;
    reveal_with_fuel(outputs_of, 4);
    assert(actions.drop_last() =~= seq![ActionView::DemoteFollower]);
    assert(actions.drop_last().drop_last() =~= Seq::empty());
    assert(outputs_of(actions) =~= seq![
        OutputView::Persist(HardState { current_term: term, voted_for: None }),
    ]);
}

/// An answer that does not count changes nothing and asks for nothing: a vote that
/// was refused, one to a node that is no candidate, any of an earlier term, and
/// what members report to a node that leads no more.
pub proof fn law_answer_that_does_not_count_changes_nothing(v: NodeView, from: NodeId, rpc: RpcView)
    requires
        match rpc {
            RpcView::RequestVoteResponse(m) => m.term <= v.current_term && (v.state
                != RaftState::Candidate || m.term < v.current_term || !m.vote_granted),
            RpcView::AppendEntriesResponse(m) => m.term <= v.current_term && (v.state
                != RaftState::Leader || m.term < v.current_term),
            RpcView::InstallSnapshotResponse(m) => m.term <= v.current_term && (v.state
                != RaftState::Leader || m.term < v.current_term),
            _ => false,
        },
    ensures
        v.step(InputView::Message { from, rpc }) == (v, Seq::<OutputView>::empty()),
{
}

/// A batch without commands changes nothing and asks for nothing.
pub proof fn law_empty_batch_changes_nothing(v: NodeView)
    ensures
        v.step(InputView::ClientCommands(Seq::empty())) == (v, Seq::<OutputView>::empty()),
{
}

/// A node that stands for election draws its next timeout from the configured
/// range, at the place in its stream where it is, and waits that long; a range of
/// one choice takes nothing from the stream.
pub proof fn law_candidate_draws_a_new_timeout(v: NodeView)
    requires
        v.state != RaftState::Leader,
        v.election.ticks_remaining <= 1,
    ensures
        ({
            let w = v.step(InputView::Tick).0;
            let (lo, hi) = (v.election_timeout_min_ticks, v.election_timeout_max_ticks);
            let (drawn, behind) = chacha_range(v.rng.seed, v.rng.word_pos, lo, hi);
            &&& w.election.ticks_remaining == w.election.election_timeout_ticks
            &&& w.election.election_timeout_ticks == if lo >= hi {
                lo
            } else {
                drawn
            }
            &&& w.rng.seed == v.rng.seed
            &&& w.rng.word_pos == if lo >= hi {
                v.rng.word_pos
            } else {
                behind
            }
            &&& w.election_timeout_min_ticks == lo
            &&& w.election_timeout_max_ticks == hi
        }),
{
}

// ── Snapshots ───────────────────────────────────────────────────────────────

/// A snapshot that was taken is kept and made durable where it covers more than
/// the last and no more than what was applied; else it is dropped. The log stays.
pub proof fn law_taken_snapshot_is_made_durable(v: NodeView, s: SnapshotView)
    requires
        v.log.start_index >= 1,
    ensures
        ({
            let (w, outputs) = v.step(InputView::SnapshotTaken(s));
            let useful = v.log.start_index <= s.meta.last_included_index
                && s.meta.last_included_index <= v.last_applied;
            &&& useful ==> {
                &&& w == (NodeView { snapshot: Some(s), ..v })
                &&& outputs == seq![OutputView::PersistSnapshot(s)]
            }
            &&& !useful ==> w == v && outputs.len() == 0
        }),
{
    let actions = v.act(InputView::SnapshotTaken(s)).1;
    reveal_with_fuel(outputs_of, 3);
    assert(actions.len() > 0 ==> actions.drop_last() =~= Seq::empty());
    if actions.len() > 0 {
        assert(outputs_of(actions) =~= seq![OutputView::PersistSnapshot(s)]);
    }
}

/// Once a snapshot is durable the log gives up what it covers, and nothing else.
pub proof fn law_durable_snapshot_trims_the_log(v: NodeView, meta: SnapshotMeta)
    requires
        v.log.proper(),
        v.log.start_index <= meta.last_included_index <= v.last_applied,
        meta.last_included_index <= tail_index(v.log),
        tail_index(v.log) < u64::MAX,
    ensures
        ({
            let (w, outputs) = v.step(InputView::SnapshotPersisted(meta));
            &&& outputs.len() == 0
            &&& w == (NodeView { log: w.log, commit_index: w.commit_index, ..v })
            &&& w.commit_index >= meta.last_included_index
            &&& w.commit_index == v.commit_index || w.commit_index == meta.last_included_index
            &&& w.commit_index >= v.commit_index
            &&& w.log.start_index == meta.last_included_index + 1
            &&& w.log.last_included_term == meta.last_included_term
            &&& w.log.entries == v.log.entries.skip(
                meta.last_included_index + 1 - v.log.start_index,
            )
        }),
{
}

/// A snapshot that does not reach beyond the last, or covers what was not applied,
/// trims nothing.
pub proof fn law_late_snapshot_trims_nothing(v: NodeView, meta: SnapshotMeta)
    requires
        v.log.start_index >= 1,
        meta.last_included_index < v.log.start_index || meta.last_included_index > v.last_applied,
    ensures
        v.step(InputView::SnapshotPersisted(meta)) == (v, Seq::<OutputView>::empty()),
{
}

/// A follower takes a whole snapshot that reaches beyond its own: it is made
/// durable, then given to the state machine, then answered. Its log keeps what is
/// behind the snapshot's last entry where it holds that entry, and else nothing,
/// which is made durable too.
pub proof fn law_follower_takes_a_snapshot(v: NodeView, from: NodeId, m: InstallSnapshotView)
    requires
        v.log.proper(),
        m.term >= v.current_term,
        m.done,
        m.offset == 0,
        v.pending_snapshot is None,
        v.log.start_index <= m.last_included_index < u64::MAX,
    ensures
        ({
            let (w, outputs) = v.step(
                InputView::Message { from, rpc: RpcView::InstallSnapshot(m) },
            );
            let s = SnapshotView {
                meta: SnapshotMeta {
                    last_included_index: m.last_included_index,
                    last_included_term: m.last_included_term,
                },
                data: m.data,
            };
            let agrees = has_entry(v.log, m.last_included_index as int, m.last_included_term);
            let discards = m.last_included_index <= tail_index(v.log) && !agrees;
            &&& follows(v, w, m.term, m.leader_id)
            &&& w.snapshot == Some(s)
            &&& w.pending_snapshot is None
            &&& w.log.start_index == m.last_included_index + 1
            &&& w.log.last_included_term == m.last_included_term
            &&& agrees ==> w.log.entries == v.log.entries.skip(
                m.last_included_index + 1 - v.log.start_index,
            )
            &&& !agrees ==> w.log.entries.len() == 0
            &&& w.commit_index == if v.commit_index > m.last_included_index {
                v.commit_index
            } else {
                m.last_included_index
            }
            &&& w.last_applied == if v.last_applied > m.last_included_index {
                v.last_applied
            } else {
                m.last_included_index
            }
            &&& outputs == term_written(v, m.term) + (seq![OutputView::PersistSnapshot(s)]
                + (if discards {
                seq![
                    OutputView::PersistLog {
                        truncate_from: Some(m.last_included_index),
                        entries: Seq::empty(),
                    },
                ]
            } else {
                Seq::empty()
            })).push(OutputView::ApplySnapshot(s)).push(
                OutputView::Send {
                    to: from,
                    rpc: RpcView::InstallSnapshotResponse(InstallSnapshotResponse { term: m.term }),
                },
            )
        }),
{
    lemma_tail(v.log);
    let (adopted, adoption) = v.adopt_term(m.term);
    let follower = adopted.follow(m.leader_id);
    let effects = adoption + adopted.demotion();
    let s = SnapshotView { meta: m.meta(), data: m.data };
    let reply = crate::raft::snapshot::install_reply(from, m.term);
    let owed = follower.install_effects(s);
    let (w, actions) = v.act(InputView::Message { from, rpc: RpcView::InstallSnapshot(m) });
    assert(follower.with_chunk(m)->0.data == m.data);
    assert(actions == (effects + owed).push(reply));
    assert(actions =~= effects + owed.push(reply));
    lemma_outputs_add(effects, owed.push(reply));
    lemma_effects_outputs(v, m.term);
    let last = owed.push(reply);
    assert forall|i: int| 0 <= i < last.len() implies output_of(#[trigger] last[i]) is Some by {}
    crate::raft::duties::lemma_outputs_map(last);
    assert forall|i: int| 0 <= i < last.len() implies output_of(#[trigger] last[i]) == Some(
        outputs_of(last)[i],
    ) by {}
    assert(output_of(last[0]) == Some(outputs_of(last)[0]));
    assert(output_of(last[1]) == Some(outputs_of(last)[1]));
    assert(output_of(last[2]) == Some(outputs_of(last)[2]));
    if follower.install_discards(s.meta) {
        assert(output_of(last[3]) == Some(outputs_of(last)[3]));
    }
    let discards = m.last_included_index <= tail_index(v.log) && !has_entry(
        v.log,
        m.last_included_index as int,
        m.last_included_term,
    );
    assert(discards == follower.install_discards(s.meta));
    assert(outputs_of(last) =~= (seq![OutputView::PersistSnapshot(s)] + (if discards {
        seq![
            OutputView::PersistLog {
                truncate_from: Some(m.last_included_index),
                entries: Seq::empty(),
            },
        ]
    } else {
        Seq::empty()
    })).push(OutputView::ApplySnapshot(s)).push(
        OutputView::Send {
            to: from,
            rpc: RpcView::InstallSnapshotResponse(InstallSnapshotResponse { term: m.term }),
        },
    ));
}

/// A snapshot that reaches no further than the follower's own is answered and not
/// installed.
pub proof fn law_old_snapshot_is_answered_and_not_installed(
    v: NodeView,
    from: NodeId,
    m: InstallSnapshotView,
)
    requires
        v.log.start_index >= 1,
        m.term >= v.current_term,
        m.done,
        m.last_included_index < v.log.start_index,
    ensures
        ({
            let (w, outputs) = v.step(
                InputView::Message { from, rpc: RpcView::InstallSnapshot(m) },
            );
            &&& follows(v, w, m.term, m.leader_id)
            &&& w.log == v.log
            &&& w.commit_index == v.commit_index
            &&& w.last_applied == v.last_applied
            &&& w.snapshot == v.snapshot
            &&& w.pending_snapshot == v.pending_snapshot
            &&& outputs == term_written(v, m.term).push(
                OutputView::Send {
                    to: from,
                    rpc: RpcView::InstallSnapshotResponse(InstallSnapshotResponse { term: m.term }),
                },
            )
        }),
{
    let (adopted, adoption) = v.adopt_term(m.term);
    let effects = adoption + adopted.demotion();
    let actions = v.act(InputView::Message { from, rpc: RpcView::InstallSnapshot(m) }).1;
    assert(actions.drop_last() =~= effects);
    lemma_effects_outputs(v, m.term);
}

/// A part of a snapshot is kept until the rest comes, and is not answered: the first
/// where nothing or another snapshot is in assembly, and each next one at the place
/// that was reached. A part for any other place is dropped.
pub proof fn law_part_of_a_snapshot_waits_for_the_rest(
    v: NodeView,
    from: NodeId,
    m: InstallSnapshotView,
)
    requires
        m.term >= v.current_term,
        !m.done,
        m.data.len() <= u64::MAX,
    ensures
        ({
            let (w, outputs) = v.step(
                InputView::Message { from, rpc: RpcView::InstallSnapshot(m) },
            );
            let same = v.pending_snapshot is Some && v.pending_snapshot->0.meta.last_included_index
                == m.last_included_index && v.pending_snapshot->0.meta.last_included_term
                == m.last_included_term;
            let pending = w.pending_snapshot->0;
            &&& follows(v, w, m.term, m.leader_id)
            &&& w.log == v.log
            &&& w.commit_index == v.commit_index
            &&& w.last_applied == v.last_applied
            &&& w.snapshot == v.snapshot
            &&& outputs == term_written(v, m.term)
            &&& !same && m.offset == 0 ==> {
                &&& w.pending_snapshot is Some
                &&& pending.meta.last_included_index == m.last_included_index
                &&& pending.meta.last_included_term == m.last_included_term
                &&& pending.data == m.data
                &&& pending.next_offset == m.data.len()
            }
            &&& same && m.offset == v.pending_snapshot->0.next_offset ==> {
                &&& w.pending_snapshot is Some
                &&& pending.meta == v.pending_snapshot->0.meta
                &&& pending.data == v.pending_snapshot->0.data + m.data
                &&& m.offset + m.data.len() <= u64::MAX ==> pending.next_offset == m.offset
                    + m.data.len()
            }
            &&& (!same && m.offset != 0) || (same && m.offset
                != v.pending_snapshot->0.next_offset) ==> w.pending_snapshot == v.pending_snapshot
        }),
{
    lemma_effects_outputs(v, m.term);
}

/// A new leader sends its next heartbeat one interval after it was elected.
pub proof fn law_new_leader_beats_at_its_interval(v: NodeView, from: NodeId, m: RequestVoteResponse)
    requires
        v.state == RaftState::Candidate,
        v.step(InputView::Message { from, rpc: RpcView::RequestVoteResponse(m) }).0.state
            == RaftState::Leader,
    ensures
        v.step(InputView::Message { from, rpc: RpcView::RequestVoteResponse(m) }).0.heartbeat_ticks
            == v.heartbeat_interval_ticks,
{
}

// ── Starting ────────────────────────────────────────────────────────────────

/// A node that starts is a follower without a leader, with what was durable: its
/// term, its vote, its log and its snapshot. It counts as committed and applied
/// what the snapshot covers.
pub proof fn law_restarted_node_has_what_was_durable(
    id: NodeId,
    peers: Seq<NodeId>,
    rng: NodeRngView,
    recovered: RecoveredView,
)
    requires
        recovered.log.start_index >= 1,
    ensures
        ({
            let v = NodeView::of_recovered(id, peers, rng, recovered);
            &&& v.id == id
            &&& v.peers == peers
            &&& v.state == RaftState::Follower
            &&& v.leader_id is None
            &&& v.current_term == recovered.hard_state.current_term
            &&& v.voted_for == recovered.hard_state.voted_for
            &&& v.log == recovered.log
            &&& v.snapshot == recovered.snapshot
            &&& v.commit_index == recovered.log.start_index - 1
            &&& v.last_applied == recovered.log.start_index - 1
            &&& v.election.votes_granted.len() == 0
            &&& v.election.ticks_remaining == v.election.election_timeout_ticks
            &&& v.pending_snapshot is None
        }),
{
}

/// A new node is a follower of term zero without a leader, a vote or an entry, and
/// takes no snapshots until it is told to. Heartbeats come every fifty ticks. A
/// node with a fixed timeout waits five hundred ticks, one that draws its timeout
/// draws it from a hundred and fifty to three hundred.
pub proof fn law_new_node_is_an_empty_follower(id: NodeId, peers: Seq<NodeId>, rng: NodeRngView)
    ensures
        ({
            let fixed = NodeView::of_new(id, peers);
            let drawn = NodeView::of_rng(id, peers, rng);
            &&& is_empty_follower(fixed, id, peers)
            &&& is_empty_follower(drawn, id, peers)
            &&& fixed.election.election_timeout_ticks == 500
            &&& drawn.election.election_timeout_ticks == chacha_range(
                rng.seed,
                rng.word_pos,
                150,
                300,
            ).0
            &&& drawn.election_timeout_min_ticks == 150
            &&& drawn.election_timeout_max_ticks == 300
        }),
{
}

/// A node that has not taken part in anything.
pub open spec fn is_empty_follower(v: NodeView, id: NodeId, peers: Seq<NodeId>) -> bool {
    &&& v.id == id
    &&& v.peers == peers
    &&& v.state == RaftState::Follower
    &&& v.current_term == 0
    &&& v.voted_for is None
    &&& v.leader_id is None
    &&& v.log.entries.len() == 0
    &&& v.log.start_index == 1
    &&& v.log.last_included_term == 0
    &&& v.commit_index == 0
    &&& v.last_applied == 0
    &&& v.snapshot is None
    &&& v.pending_snapshot is None
    &&& v.compaction_threshold == 0
    &&& v.heartbeat_interval_ticks == 50
    &&& v.election.ticks_remaining == v.election.election_timeout_ticks
    &&& v.election.votes_granted.len() == 0
}

// ── Lookups ─────────────────────────────────────────────────────────────────

/// The log answers for every index: with the entry where it holds one, with what
/// was compacted away below its start, and with where it ends for the rest.
pub proof fn law_log_answers_for_every_index(log: RaftLogView, index: u64)
    requires
        log.proper(),
    ensures
        log.holds(index) <==> log.start_index <= index <= tail_index(log),
        log.holds(index) ==> log.entry(index) == log.entries[index - log.start_index]
            && log.entry(index).index == index,
        0 < index < log.start_index ==> log.missing(index) == (LogLookupError::CompactedAway {
            requested: index,
            start_index: log.start_index,
        }),
        index == 0 || index > tail_index(log) ==> log.missing(index) == (
        LogLookupError::OutOfRange { requested: index, last_index: tail_index(log) as u64 }),
        match known_term(log, index as int) {
            Some(term) => log.term_at(index) == Ok::<u64, LogLookupError>(term),
            None => log.term_at(index) == Err::<u64, LogLookupError>(log.missing(index)),
        },
        log.entries_from(index) == if index <= log.start_index {
            log.entries
        } else if index <= tail_index(log) {
            log.entries.skip(index - log.start_index)
        } else {
            Seq::empty()
        },
{
    lemma_tail(log);
    lemma_term_known(log, index);
    if index > log.start_index && index > tail_index(log) {
        assert(log.entries_from(index) =~= Seq::empty());
    }
}

} // verus!
