//! What holds of a node whatever it is given to process.

use vstd::prelude::*;

use crate::config::NodeId;
use crate::raft::driver::{output_of, outputs_of, InputView, OutputView};
use crate::raft::election::{vote_reply, ActionView};
use crate::raft::log::{
    first_gap, next_down, next_up, AppendOutcomeView, LogEntryView, LogIndexError, RaftLogView,
};
use crate::raft::replication::{append_reply, told_commit};
use crate::raft::snapshot::{install_reply, SnapshotView};
use crate::raft::state::RaftState;
use crate::raft::{catch_up_all, NodeView, RpcView};

verus! {

// ── The log ─────────────────────────────────────────────────────────────────

impl RaftLogView {
    /// Consecutive indices, none of them at the largest `u64`.
    pub open spec fn proper(self) -> bool {
        &&& self.wf()
        &&& self.start_index + self.entries.len() < u64::MAX
    }
}

proof fn lemma_append_all_contiguous(log: RaftLogView, incoming: Seq<LogEntryView>)
    requires
        log.wf(),
    ensures
        log.append_all(incoming).0.wf(),
        log.append_all(incoming).0.start_index == log.start_index,
    decreases incoming.len(),
{
    if incoming.len() > 0 && incoming[0].index == log.next_index() {
        lemma_append_all_contiguous(log.push(incoming[0]), incoming.skip(1));
    }
}

/// A log is contiguous at all times: it starts so, and whatever is appended,
/// merged, truncated, compacted or installed, its entries carry consecutive
/// indices from its start on.
pub proof fn law_log_stays_contiguous(
    log: RaftLogView,
    entry: LogEntryView,
    incoming: Seq<LogEntryView>,
    index: u64,
    term: u64,
)
    requires
        log.wf(),
    ensures
        RaftLogView::empty().wf(),
        entry.index == log.next_index() ==> log.push(entry).wf(),
        log.append_from_leader(incoming).0.wf(),
        index >= log.start_index ==> log.truncate_from(index).wf(),
        log.compact(index, term).wf(),
        log.install_snapshot(index, term).wf(),
{
    let held = log.matching_prefix(incoming) as int;
    lemma_matching_prefix(log, incoming);
    if held < incoming.len() && incoming[held].index >= log.start_index {
        let cut = log.truncate_from(incoming[held].index);
        lemma_append_all_contiguous(cut, incoming.skip(held));
    }
}

/// Appended entries read back, and what was there before still does.
pub proof fn law_append_then_read(log: RaftLogView, entry: LogEntryView)
    requires
        log.proper(),
        entry.index == log.next_index(),
    ensures
        log.push(entry).holds(entry.index),
        log.push(entry).entry(entry.index) == entry,
        log.push(entry).term_at(entry.index) == Ok::<
            u64,
            crate::raft::log::LogLookupError,
        >(entry.term),
        log.push(entry).last_index() == entry.index,
        log.push(entry).last_term() == entry.term,
        forall|k: u64|
            k != entry.index ==> #[trigger] log.push(entry).holds(k) == log.holds(k) && (log.holds(
                k,
            ) ==> log.push(entry).entry(k) == log.entry(k)),
{
}

/// Truncating removes exactly the entries at or above the index.
pub proof fn law_truncate_removes_the_suffix(log: RaftLogView, index: u64)
    requires
        log.proper(),
        index >= log.start_index,
    ensures
        log.truncate_from(index).wf(),
        forall|k: u64| #[trigger]
            log.truncate_from(index).holds(k) <==> log.holds(k) && k < index,
        forall|k: u64|
            log.holds(k) && k < index ==> #[trigger] log.truncate_from(index).entry(k) == log.entry(
                k,
            ),
        index <= log.next_index() ==> log.truncate_from(index).next_index() == index,
{
}

/// Compacting up to a held entry keeps every entry above it, and the term at the
/// boundary can still be read.
pub proof fn law_compact_keeps_the_suffix(log: RaftLogView, index: u64)
    requires
        log.proper(),
        log.holds(index),
    ensures
        log.compact(index, log.entry(index).term).wf(),
        log.compact(index, log.entry(index).term).last_index() == log.last_index(),
        log.compact(index, log.entry(index).term).last_term() == log.last_term(),
        log.compact(index, log.entry(index).term).contains(index, log.entry(index).term),
        forall|k: u64| #[trigger]
            log.compact(index, log.entry(index).term).holds(k) <==> log.holds(k) && k > index,
        forall|k: u64|
            log.holds(k) && k > index ==> #[trigger] log.compact(
                index,
                log.entry(index).term,
            ).entry(k) == log.entry(k),
{
}

/// The entries follow each other and reach no further than an index can.
pub open spec fn consecutive(entries: Seq<LogEntryView>) -> bool {
    forall|j: int|
        0 <= j < entries.len() ==> (#[trigger] entries[j]).index == entries[0].index + j
            && entries[j].index < u64::MAX - 1
}

pub proof fn lemma_no_gap_consecutive(entries: Seq<LogEntryView>)
    requires
        first_gap(entries) is None,
        forall|j: int| 0 <= j < entries.len() ==> (#[trigger] entries[j]).index < u64::MAX - 1,
    ensures
        consecutive(entries),
    decreases entries.len(),
{
    if entries.len() >= 2 {
        let rest = entries.skip(1);
        assert forall|j: int| 0 <= j < rest.len() implies (#[trigger] rest[j]).index < u64::MAX
            - 1 by {
            assert(rest[j] == entries[j + 1]);
        }
        lemma_no_gap_consecutive(rest);
        assert forall|j: int| 0 <= j < entries.len() implies (#[trigger] entries[j]).index
            == entries[0].index + j && entries[j].index < u64::MAX - 1 by {
            if j > 0 {
                assert(rest[j - 1] == entries[j]);
                assert(rest[0] == entries[1]);
            }
        }
    }
}

pub proof fn lemma_consecutive_no_gap(entries: Seq<LogEntryView>)
    requires
        consecutive(entries),
    ensures
        first_gap(entries) is None,
    decreases entries.len(),
{
    if entries.len() >= 2 {
        let rest = entries.skip(1);
        assert(entries[1].index == entries[0].index + 1);
        assert forall|j: int| 0 <= j < rest.len() implies (#[trigger] rest[j]).index
            == rest[0].index + j && rest[j].index < u64::MAX - 1 by {
            assert(rest[j] == entries[j + 1]);
        }
        lemma_consecutive_no_gap(rest);
    }
}

/// Entries that follow the tail are all appended; others leave the log as it is.
pub proof fn lemma_append_consecutive(log: RaftLogView, entries: Seq<LogEntryView>)
    requires
        log.proper(),
        consecutive(entries),
    ensures
        entries.len() == 0 || entries[0].index == log.next_index() ==> log.append_all(entries) == (
            log.extend(entries),
            Ok::<(), LogIndexError>(()),
        ),
        entries.len() > 0 && entries[0].index != log.next_index() ==> log.append_all(entries).0
            == log && log.append_all(entries).1 is Err,
    decreases entries.len(),
{
    if entries.len() == 0 {
        assert(log.entries + entries =~= log.entries);
    } else if entries[0].index == log.next_index() {
        let rest = entries.skip(1);
        assert forall|j: int| 0 <= j < rest.len() implies (#[trigger] rest[j]).index
            == rest[0].index + j && rest[j].index < u64::MAX - 1 by {
            assert(rest[j] == entries[j + 1]);
        }
        let next = log.push(entries[0]);
        if rest.len() > 0 {
            assert(rest[0] == entries[1]);
        }
        assert(entries[0].index < u64::MAX - 1);
        assert(next.entries + rest =~= log.entries + entries);
        assert(log.next_index() == log.start_index + log.entries.len());
        lemma_append_consecutive(next, rest);
    }
}

pub proof fn lemma_matching_prefix(log: RaftLogView, entries: Seq<LogEntryView>)
    ensures
        log.matching_prefix(entries) <= entries.len(),
        forall|j: int|
            0 <= j < log.matching_prefix(entries) ==> log.matches(#[trigger] entries[j]),
        log.matching_prefix(entries) < entries.len() ==> !log.matches(
            entries[log.matching_prefix(entries) as int],
        ),
    decreases entries.len(),
{
    if entries.len() > 0 && log.matches(entries[0]) {
        let rest = entries.skip(1);
        lemma_matching_prefix(log, rest);
        assert forall|j: int| 0 <= j < log.matching_prefix(entries) implies log.matches(
            #[trigger] entries[j],
        ) by {
            if j > 0 {
                assert(rest[j - 1] == entries[j]);
            }
        }
        if log.matching_prefix(rest) < rest.len() {
            assert(rest[log.matching_prefix(rest) as int] == entries[log.matching_prefix(
                entries,
            ) as int]);
        }
    }
}

proof fn lemma_all_match(log: RaftLogView, entries: Seq<LogEntryView>)
    requires
        forall|j: int| 0 <= j < entries.len() ==> log.matches(#[trigger] entries[j]),
    ensures
        log.matching_prefix(entries) == entries.len(),
    decreases entries.len(),
{
    if entries.len() > 0 {
        let rest = entries.skip(1);
        assert forall|j: int| 0 <= j < rest.len() implies log.matches(#[trigger] rest[j]) by {
            assert(rest[j] == entries[j + 1]);
        }
        assert(log.matches(entries[0]));
        lemma_all_match(log, rest);
    }
}

/// The incoming entries reach no further than an index can.
pub open spec fn in_range(entries: Seq<LogEntryView>) -> bool {
    forall|j: int| 0 <= j < entries.len() ==> (#[trigger] entries[j]).index < u64::MAX - 1
}

/// Merging a leader's entries is all or nothing. A refused batch changes
/// nothing. An accepted one leaves every incoming entry in the log by index and
/// term, touches nothing below the first that differed, and reports exactly what
/// it cut off and appended.
pub proof fn law_merge(log: RaftLogView, incoming: Seq<LogEntryView>)
    requires
        log.proper(),
        in_range(incoming),
    ensures
        log.append_from_leader(incoming).1 is Err ==> log.append_from_leader(incoming).0 == log,
        log.append_from_leader(incoming).1 is Ok ==> {
            let merged = log.append_from_leader(incoming).0;
            let outcome = log.append_from_leader(incoming).1->Ok_0;
            &&& merged.wf()
            &&& merged.start_index == log.start_index
            &&& forall|j: int| 0 <= j < incoming.len() ==> merged.matches(#[trigger] incoming[j])
            &&& merged == (match outcome.truncated_from {
                Some(index) => log.truncate_from(index),
                None => log,
            }).extend(outcome.appended)
            &&& outcome.appended.len() == 0 ==> merged == log
        },
{
    let held = log.matching_prefix(incoming) as int;
    lemma_matching_prefix(log, incoming);
    let (merged, result) = log.append_from_leader(incoming);
    if first_gap(incoming) is None {
        lemma_no_gap_consecutive(incoming);
        if held == incoming.len() {
            assert(log.entries + Seq::<LogEntryView>::empty() =~= log.entries);
        } else {
            let first_index = incoming[held].index;
            let rest = incoming.skip(held);
            assert forall|j: int| 0 <= j < rest.len() implies (#[trigger] rest[j]).index
                == rest[0].index + j && rest[j].index < u64::MAX - 1 by {
                assert(rest[j] == incoming[held + j]);
            }
            assert(rest[0] == incoming[held]);
            if first_index >= log.start_index {
                let cut = log.truncate_from(first_index);
                lemma_append_consecutive(cut, rest);
                if first_index <= log.next_index() {
                    assert(cut.next_index() == first_index);
                    assert(merged == cut.extend(rest));
                    assert(merged.wf()) by {
                        assert forall|i: int| 0 <= i < merged.entries.len() implies (
                        #[trigger] merged.entries[i]).index == merged.start_index + i by {
                            if i >= cut.entries.len() {
                                assert(merged.entries[i] == rest[i - cut.entries.len()]);
                            }
                        }
                    }
                    assert forall|j: int| 0 <= j < incoming.len() implies merged.matches(
                        #[trigger] incoming[j],
                    ) by {
                        assert(incoming[j].index == incoming[0].index + j);
                        assert(first_index == incoming[0].index + held);
                        if j < held {
                            assert(log.matches(incoming[j]));
                            assert(cut.entry(incoming[j].index) == log.entry(incoming[j].index));
                        } else {
                            assert(merged.entry(incoming[j].index) == rest[j - held]);
                        }
                    }
                    if first_index > log.last_index() {
                        assert(cut.entries =~= log.entries);
                    }
                } else {
                    assert(cut == log);
                }
            }
        }
    }
}

/// Merging the same entries again changes nothing.
pub proof fn law_merge_is_idempotent(log: RaftLogView, incoming: Seq<LogEntryView>)
    requires
        log.proper(),
        in_range(incoming),
        log.append_from_leader(incoming).1 is Ok,
    ensures
        log.append_from_leader(incoming).0.append_from_leader(incoming) == (
            log.append_from_leader(incoming).0,
            Ok::<AppendOutcomeView, LogIndexError>(AppendOutcomeView::unchanged()),
        ),
{
    law_merge(log, incoming);
    lemma_all_match(log.append_from_leader(incoming).0, incoming);
}

// ── What a leader sends ─────────────────────────────────────────────────────

/// A leader brings every member up to date with what its log can serve: a member
/// whose next index lies at or below the compacted boundary gets the snapshot, and
/// any other gets the entries from its next index on, behind an entry that the
/// leader's log knows.
pub proof fn law_broadcast_serves_every_member(v: NodeView, i: int)
    requires
        v.log.proper(),
        0 <= i < v.others().len(),
        1 <= v.next_for(v.others()[i]) <= v.log.next_index(),
        v.log.start_index > 1 ==> v.snapshot is Some,
    ensures
        v.broadcast().len() == v.others().len(),
        ({
            let p = v.others()[i];
            let next = v.next_for(p);
            match v.broadcast()[i] {
                ActionView::Send { to, rpc } => to == p && match rpc {
                    RpcView::InstallSnapshot(m) => {
                        &&& next <= v.log.last_included_index()
                        &&& m.term == v.current_term
                        &&& m.meta() == v.snapshot->0.meta
                        &&& m.data == v.snapshot->0.data
                        &&& m.offset == 0
                        &&& m.done
                    },
                    RpcView::AppendEntries(m) => {
                        &&& next > v.log.last_included_index()
                        &&& m.term == v.current_term
                        &&& m.prev_log_index == next - 1
                        &&& v.log.contains(m.prev_log_index, m.prev_log_term)
                        &&& m.entries == v.log.entries.skip(next - v.log.start_index)
                        &&& m.leader_commit == v.commit_index
                    },
                    _ => false,
                },
                _ => false,
            }
        }),
{
    let p = v.others()[i];
    assert(v.broadcast()[i] == v.send_update(p));
    assert(v.log.entries.skip(0) =~= v.log.entries);
}

// ── Terms, votes and commitment ─────────────────────────────────────────────

pub proof fn lemma_applied_node(v: NodeView)
    ensures
        v.apply_committed().0 == (NodeView {
            last_applied: v.apply_committed().0.last_applied,
            ..v
        }),
        v.last_applied <= v.apply_committed().0.last_applied,
        v.last_applied <= v.commit_index ==> v.apply_committed().0.last_applied <= v.commit_index,
        v.apply_committed().1.len() == v.apply_committed().0.last_applied - v.last_applied,
        forall|i: int|
            0 <= i < v.apply_committed().1.len() ==> v.log.holds((v.last_applied + 1 + i) as u64)
                && (#[trigger] v.apply_committed().1[i])
                == (ActionView::ApplyCommittedEntries {
                entry: v.log.entry((v.last_applied + 1 + i) as u64),
            }),
    decreases u64::MAX - v.last_applied,
{
    let next = next_up(v.last_applied);
    if v.last_applied < v.commit_index && v.log.holds(next) {
        let w = NodeView { last_applied: next, ..v };
        lemma_applied_node(w);
        let rest = w.apply_committed().1;
        let all = v.apply_committed().1;
        assert forall|i: int| 0 <= i < all.len() implies v.log.holds(
            (v.last_applied + 1 + i) as u64,
        ) && (#[trigger] all[i]) == (ActionView::ApplyCommittedEntries {
            entry: v.log.entry((v.last_applied + 1 + i) as u64),
        }) by {
            if i > 0 {
                assert(all[i] == rest[i - 1]);
            }
        }
    }
}

/// A node's term never falls.
pub proof fn law_term_never_falls(v: NodeView, input: InputView)
    ensures
        v.step(input).0.current_term >= v.current_term,
{
    lemma_message_effects(v, input);
}

/// Within a term a node's vote, once given, stays. In the last of all terms a
/// candidacy has no next one to enter.
pub proof fn law_vote_is_kept(v: NodeView, input: InputView)
    requires
        v.current_term < u64::MAX,
        v.step(input).0.current_term == v.current_term,
        v.voted_for is Some,
    ensures
        v.step(input).0.voted_for == v.voted_for,
{
    lemma_message_effects(v, input);
}

/// What a node knows to be committed never falls.
pub proof fn law_commit_never_falls(v: NodeView, input: InputView)
    ensures
        v.step(input).0.commit_index >= v.commit_index,
{
    lemma_message_effects(v, input);
}

/// What a node has applied never falls.
pub proof fn law_applied_never_falls(v: NodeView, input: InputView)
    ensures
        v.step(input).0.last_applied >= v.last_applied,
{
    lemma_message_effects(v, input);
}

/// A node does not change its identity or its peers.
pub proof fn law_membership_is_fixed(v: NodeView, input: InputView)
    ensures
        v.step(input).0.id == v.id,
        v.step(input).0.peers == v.peers,
{
    lemma_message_effects(v, input);
}

/// What one input can do to a node, put together.
proof fn lemma_message_effects(v: NodeView, input: InputView)
    ensures
        v.act(input).0.current_term >= v.current_term,
        v.act(input).0.commit_index >= v.commit_index,
        v.act(input).0.last_applied >= v.last_applied,
        v.act(input).0.id == v.id,
        v.act(input).0.peers == v.peers,
        v.current_term < u64::MAX && v.act(input).0.current_term == v.current_term && v.voted_for
            is Some ==> v.act(input).0.voted_for == v.voted_for,
{
    if let InputView::Message { from, rpc } = input {
        match rpc {
            RpcView::AppendEntries(m) => {
                let follower = v.adopt_term(m.term).0.follow(m.leader_id);
                let log = follower.log.append_from_leader(m.entries).0;
                let merged = NodeView { log, ..follower };
                let committed = NodeView {
                    commit_index: told_commit(merged.commit_index, m.leader_commit, merged.log.last_index()),
                    ..merged
                };
                lemma_applied_node(committed);
            },
            RpcView::AppendEntriesResponse(m) => {
                let acked = v.acknowledge(from, m.match_index);
                lemma_applied_node(NodeView { commit_index: acked.advanced_commit(), ..acked });
            },
            _ => {},
        }
    }
}

/// A message of an earlier term changes nothing but the reply it gets.
pub proof fn law_stale_messages_change_nothing(v: NodeView, from: NodeId, rpc: RpcView)
    requires
        match rpc {
            RpcView::RequestVote(m) => m.term < v.current_term,
            RpcView::RequestVoteResponse(m) => m.term < v.current_term,
            RpcView::AppendEntries(m) => m.term < v.current_term,
            RpcView::AppendEntriesResponse(m) => m.term < v.current_term,
            RpcView::InstallSnapshot(m) => m.term < v.current_term,
            RpcView::InstallSnapshotResponse(m) => m.term < v.current_term,
        },
    ensures
        v.receive(from, rpc).0 == v,
        v.receive(from, rpc).1 == match rpc {
            RpcView::RequestVote(_) => seq![vote_reply(from, v.current_term, false)],
            RpcView::AppendEntries(_) => seq![append_reply(from, v.current_term, false, 0)],
            RpcView::InstallSnapshot(_) => seq![install_reply(from, v.current_term)],
            _ => Seq::empty(),
        },
{
}

/// A message of a later term makes any node a follower in that term, or in that
/// term a voter or a member that follows.
pub proof fn law_later_term_is_adopted(v: NodeView, from: NodeId, rpc: RpcView, term: u64)
    requires
        term > v.current_term,
        term == match rpc {
            RpcView::RequestVote(m) => m.term,
            RpcView::RequestVoteResponse(m) => m.term,
            RpcView::AppendEntries(m) => m.term,
            RpcView::AppendEntriesResponse(m) => m.term,
            RpcView::InstallSnapshot(m) => m.term,
            RpcView::InstallSnapshotResponse(m) => m.term,
        },
    ensures
        v.receive(from, rpc).0.current_term == term,
        v.receive(from, rpc).0.state == RaftState::Follower,
{
    if let RpcView::AppendEntries(m) = rpc {
        let follower = v.adopt_term(m.term).0.follow(m.leader_id);
        let log = follower.log.append_from_leader(m.entries).0;
        let merged = NodeView { log, ..follower };
        let committed = NodeView {
            commit_index: told_commit(merged.commit_index, m.leader_commit, merged.log.last_index()),
            ..merged
        };
        lemma_applied_node(committed);
    }
}

/// Whatever a node is given to process, its log stays contiguous.
pub proof fn law_node_log_stays_contiguous(v: NodeView, input: InputView)
    requires
        v.log.wf(),
    ensures
        v.step(input).0.log.wf(),
{
    match input {
        InputView::Message { from, rpc } => match rpc {
            RpcView::AppendEntries(m) => {
                let follower = v.adopt_term(m.term).0.follow(m.leader_id);
                let log = follower.log.append_from_leader(m.entries).0;
                law_log_stays_contiguous(v.log, v.noop(), m.entries, 0, 0);
                let merged = NodeView { log, ..follower };
                let committed = NodeView {
                    commit_index: told_commit(
                        merged.commit_index,
                        m.leader_commit,
                        merged.log.last_index(),
                    ),
                    ..merged
                };
                lemma_applied_node(committed);
            },
            RpcView::AppendEntriesResponse(m) => {
                let acked = v.acknowledge(from, m.match_index);
                lemma_applied_node(NodeView { commit_index: acked.advanced_commit(), ..acked });
            },
            RpcView::InstallSnapshot(m) => {
                law_log_stays_contiguous(
                    v.log,
                    v.noop(),
                    Seq::empty(),
                    m.last_included_index,
                    m.last_included_term,
                );
            },
            _ => {},
        },
        InputView::ClientCommand(command) => lemma_extended(v, seq![command]),
        InputView::ClientCommands(commands) => lemma_extended(v, commands),
        InputView::SnapshotPersisted(meta) => {
            law_log_stays_contiguous(
                v.log,
                v.noop(),
                Seq::empty(),
                meta.last_included_index,
                meta.last_included_term,
            );
        },
        _ => {},
    }
}

proof fn lemma_extended(v: NodeView, commands: Seq<Seq<u8>>)
    requires
        v.log.wf(),
    ensures
        v.log.extend(v.entries_for(commands)).wf(),
{
    let entries = v.entries_for(commands);
    let log = v.log.extend(entries);
    let n = v.log.entries.len() as int;
    assert forall|i: int| 0 <= i < log.entries.len() implies (#[trigger] log.entries[i]).index
        == if log.start_index + i <= u64::MAX {
        log.start_index + i
    } else {
        u64::MAX as int
    } by {
        if i < n {
            assert(log.entries[i] == v.log.entries[i]);
        } else {
            assert(log.entries[i] == entries[i - n]);
            if n > 0 {
                assert(v.log.entries[n - 1] == v.log.entries.last());
            }
        }
    }
}

// ── Leaders ─────────────────────────────────────────────────────────────────

/// Leader Append-Only: a leader never changes or removes an entry of its log,
/// but for what a snapshot replaces.
pub proof fn law_leader_only_appends(v: NodeView, input: InputView)
    requires
        v.state == RaftState::Leader,
        v.step(input).0.state == RaftState::Leader,
        !(input is SnapshotPersisted),
    ensures
        v.step(input).0.log.start_index == v.log.start_index,
        v.step(input).0.log.entries.take(v.log.entries.len() as int) == v.log.entries,
{
    let w = v.step(input).0;
    assert(v.log.entries.take(v.log.entries.len() as int) =~= v.log.entries);
    match input {
        InputView::Message { from, rpc } => {
            match rpc {
                RpcView::AppendEntries(m) => {
                    let follower = v.adopt_term(m.term).0.follow(m.leader_id);
                    let log = follower.log.append_from_leader(m.entries).0;
                    let merged = NodeView { log, ..follower };
                    let committed = NodeView {
                        commit_index: told_commit(merged.commit_index, m.leader_commit, merged.log.last_index()),
                        ..merged
                    };
                    lemma_applied_node(committed);
                },
                RpcView::AppendEntriesResponse(m) => {
                    let acked = v.acknowledge(from, m.match_index);
                    lemma_applied_node(NodeView { commit_index: acked.advanced_commit(), ..acked });
                },
                _ => {},
            }
        },
        InputView::ClientCommand(command) => {
            let entries = v.entries_for(seq![command]);
            assert((v.log.entries + entries).take(v.log.entries.len() as int) =~= v.log.entries);
        },
        InputView::ClientCommands(commands) => {
            let entries = v.entries_for(commands);
            assert((v.log.entries + entries).take(v.log.entries.len() as int) =~= v.log.entries);
        },
        _ => {},
    }
}

/// Counting replicas, a leader commits only up to an entry of its own term.
pub proof fn law_leader_commits_its_own_term(v: NodeView)
    requires
        v.advanced_commit() != v.commit_index,
    ensures
        v.advanced_commit() > v.commit_index,
        v.log.contains(v.advanced_commit(), v.current_term),
{
}

// ── Effects ─────────────────────────────────────────────────────────────────

/// What the driver owes comes from an effect of the node.
pub proof fn lemma_output_from_action(actions: Seq<ActionView>, output: OutputView) -> (i: int)
    requires
        outputs_of(actions).contains(output),
    ensures
        0 <= i < actions.len(),
        output_of(actions[i]) == Some(output),
    decreases actions.len(),
{
    let before = actions.drop_last();
    if actions.len() > 0 && output_of(actions.last()) == Some(output) {
        actions.len() - 1
    } else {
        let outputs = outputs_of(actions);
        let j = choose|j: int| 0 <= j < outputs.len() && outputs[j] == output;
        assert(outputs_of(before)[j] == output);
        lemma_output_from_action(before, output)
    }
}

/// The output is a write.
pub open spec fn is_write(output: OutputView) -> bool {
    output is Persist || output is PersistLog || output is PersistSnapshot
}

/// The output can be seen from outside the node or by its state machine.
pub open spec fn is_visible(output: OutputView) -> bool {
    output is Send || output is Apply || output is ApplySnapshot
}

/// No write comes after anything that can be seen.
pub open spec fn writes_first(outputs: Seq<OutputView>) -> bool {
    forall|i: int, j: int|
        0 <= i < j < outputs.len() && is_visible(#[trigger] outputs[i]) ==> !is_write(
            #[trigger] outputs[j],
        )
}

/// An effect that is no write.
spec fn no_write(action: ActionView) -> bool {
    !(action is Persist) && !(action is PersistLog) && !(action is PersistSnapshot)
}

/// An effect that cannot be seen.
spec fn unseen(action: ActionView) -> bool {
    !(action is Send) && !(action is ApplyCommittedEntries) && !(action is ApplySnapshot)
}

/// The first `k` effects cannot be seen, and the others are no writes.
spec fn split_at(actions: Seq<ActionView>, k: int) -> bool {
    &&& 0 <= k <= actions.len()
    &&& forall|i: int| 0 <= i < k ==> unseen(#[trigger] actions[i])
    &&& forall|i: int| k <= i < actions.len() ==> no_write(#[trigger] actions[i])
}

proof fn lemma_split_writes_first(actions: Seq<ActionView>, k: int)
    requires
        split_at(actions, k),
    ensures
        writes_first(outputs_of(actions)),
    decreases actions.len(),
{
    if actions.len() > 0 {
        let before = actions.drop_last();
        let last = actions.last();
        let outputs = outputs_of(actions);
        let rest = outputs_of(before);
        if k == actions.len() {
            assert(split_at(before, k - 1));
            lemma_split_writes_first(before, k - 1);
            assert forall|i: int, j: int|
                0 <= i < j < outputs.len() && is_visible(#[trigger] outputs[i]) implies !is_write(
                #[trigger] outputs[j],
            ) by {
                let a = lemma_output_from_action(actions, outputs[i]);
                assert(unseen(actions[a]));
            }
        } else {
            assert(split_at(before, k));
            lemma_split_writes_first(before, k);
            assert(no_write(actions[actions.len() - 1]));
        }
    }
}

/// Every write that an input asks for comes before anything that can be seen of
/// it: messages, applied entries, an installed snapshot.
pub proof fn law_writes_come_first(v: NodeView, input: InputView)
    ensures
        writes_first(v.step(input).1),
{
    let (w, actions) = v.act(input);
    match input {
        InputView::Tick => {
            let ticked = NodeView { heartbeat_ticks: next_down(v.heartbeat_ticks), ..v };
            if v.state == RaftState::Leader {
                if ticked.heartbeat_ticks != 0 {
                    lemma_catch_up_no_write(ticked, ticked.others());
                }
                lemma_split_writes_first(actions, 0);
            } else {
                let node = NodeView { election: v.election.ticked(), ..v };
                if node.election.ticks_remaining == 0 {
                    let c = node.candidacy();
                    if c.has_won() {
                        // Only a node without peers wins by its own vote.
                        assert(c.others().len() == 0);
                        lemma_split_writes_first(actions, 3);
                    } else {
                        lemma_split_writes_first(actions, 1);
                    }
                } else {
                    lemma_split_writes_first(actions, 0);
                }
            }
        },
        InputView::Message { from, rpc } => match rpc {
            RpcView::RequestVote(m) => {
                if actions.len() == 1 {
                    lemma_split_writes_first(actions, 0);
                } else {
                    lemma_split_writes_first(actions, 1);
                }
            },
            RpcView::RequestVoteResponse(m) => {
                if m.term > v.current_term || actions.len() >= 2 {
                    lemma_split_writes_first(actions, 2);
                } else {
                    lemma_split_writes_first(actions, actions.len() as int);
                }
            },
            RpcView::AppendEntries(m) => lemma_append_entries_split(v, from, m),
            RpcView::AppendEntriesResponse(m) => {
                if m.term > v.current_term {
                    lemma_split_writes_first(actions, 2);
                } else {
                    let acked = v.acknowledge(from, m.match_index);
                    lemma_applied_node(NodeView { commit_index: acked.advanced_commit(), ..acked });
                    lemma_split_writes_first(actions, 0);
                }
            },
            RpcView::InstallSnapshot(m) => {
                let (adopted, adoption) = v.adopt_term(m.term);
                let follower = adopted.follow(m.leader_id);
                let effects = adoption + adopted.demotion();
                if m.term < adopted.current_term {
                    lemma_split_writes_first(actions, 0);
                } else if (m.last_included_index <= follower.log.last_included_index() && m.done)
                    || follower.with_chunk(m) is None || !m.done {
                    lemma_split_writes_first(actions, effects.len() as int);
                } else {
                    let data = follower.with_chunk(m)->0.data;
                    let snapshot = SnapshotView { meta: m.meta(), data };
                    let install = follower.install_effects(snapshot);
                    lemma_split_writes_first(actions, effects.len() + install.len() - 1);
                }
            },
            RpcView::InstallSnapshotResponse(m) => {
                lemma_split_writes_first(actions, actions.len() as int);
            },
        },
        InputView::ClientCommand(_) => {
            lemma_split_writes_first(actions, 1);
        },
        InputView::ClientCommands(commands) => {
            if commands.len() == 0 {
                lemma_split_writes_first(actions, 0);
            } else {
                lemma_split_writes_first(actions, 1);
            }
        },
        InputView::SnapshotTaken(_) => {
            lemma_split_writes_first(actions, actions.len() as int);
        },
        InputView::SnapshotPersisted(_) => {
            lemma_split_writes_first(actions, 0);
        },
    }
}

proof fn lemma_catch_up_no_write(v: NodeView, peers: Seq<NodeId>)
    ensures
        split_at(catch_up_all(v, peers), 0),
    decreases peers.len(),
{
    if peers.len() > 0 {
        lemma_catch_up_no_write(v, peers.drop_last());
    }
}

proof fn lemma_append_entries_split(
    v: NodeView,
    from: NodeId,
    m: crate::raft::AppendEntriesView,
)
    ensures
        writes_first(outputs_of(v.handle_append_entries_request(from, m).1)),
{
    let actions = v.handle_append_entries_request(from, m).1;
    let (adopted, adoption) = v.adopt_term(m.term);
    let follower = adopted.follow(m.leader_id);
    let effects = adoption + adopted.demotion();
    if m.term < adopted.current_term {
        lemma_split_writes_first(actions, 0);
    } else if !follower.log.contains(m.prev_log_index, m.prev_log_term)
        || follower.log.append_from_leader(m.entries).1 is Err {
        lemma_split_writes_first(actions, effects.len() as int);
    } else {
        let (log, merge) = follower.log.append_from_leader(m.entries);
        let merged = NodeView { log, ..follower };
        let committed = NodeView {
            commit_index: told_commit(merged.commit_index, m.leader_commit, merged.log.last_index()),
            ..merged
        };
        let applies = committed.apply_committed().1;
        lemma_applied_node(committed);
        let k = effects.len() + if merge->Ok_0.is_empty() {
            0int
        } else {
            1int
        };
        assert forall|i: int| k <= i < actions.len() implies no_write(#[trigger] actions[i]) by {
            if i - k < applies.len() {
                assert(actions[i] == applies[i - k]);
            }
        }
        lemma_split_writes_first(actions, k);
    }
}

/// The entries among the outputs that are handed to the state machine.
pub open spec fn applied_of(outputs: Seq<OutputView>) -> Seq<LogEntryView>
    decreases outputs.len(),
{
    if outputs.len() == 0 {
        Seq::empty()
    } else {
        let rest = applied_of(outputs.drop_last());
        match outputs.last() {
            OutputView::Apply(entry) => rest.push(entry),
            _ => rest,
        }
    }
}

/// The entries that one effect hands to the state machine.
spec fn applied_with(entries: Seq<LogEntryView>, action: ActionView) -> Seq<LogEntryView> {
    match action {
        ActionView::ApplyCommittedEntries { entry } => entries.push(entry),
        _ => entries,
    }
}

/// The entries that the effects hand to the state machine.
spec fn applied_in(actions: Seq<ActionView>) -> Seq<LogEntryView>
    decreases actions.len(),
{
    if actions.len() == 0 {
        Seq::empty()
    } else {
        applied_with(applied_in(actions.drop_last()), actions.last())
    }
}

proof fn lemma_applied_outputs(actions: Seq<ActionView>)
    ensures
        applied_of(outputs_of(actions)) == applied_in(actions),
    decreases actions.len(),
{
    if actions.len() > 0 {
        lemma_applied_outputs(actions.drop_last());
        if let Some(output) = output_of(actions.last()) {
            let rest = outputs_of(actions.drop_last());
            assert(rest.push(output).drop_last() =~= rest);
        }
    }
}

spec fn no_apply(actions: Seq<ActionView>) -> bool {
    forall|i: int|
        0 <= i < actions.len() ==> !((#[trigger] actions[i]) is ApplyCommittedEntries)
}

proof fn lemma_no_apply(actions: Seq<ActionView>)
    requires
        no_apply(actions),
    ensures
        applied_in(actions) == Seq::<LogEntryView>::empty(),
    decreases actions.len(),
{
    if actions.len() > 0 {
        lemma_no_apply(actions.drop_last());
        assert(!(actions[actions.len() - 1] is ApplyCommittedEntries));
    }
}

proof fn lemma_applied_add(a: Seq<ActionView>, b: Seq<ActionView>)
    ensures
        applied_in(a + b) == applied_in(a) + applied_in(b),
    decreases b.len(),
{
    if b.len() == 0 {
        assert(a + b =~= a);
        assert(applied_in(a) + applied_in(b) =~= applied_in(a));
    } else {
        assert((a + b).drop_last() =~= a + b.drop_last());
        lemma_applied_add(a, b.drop_last());
        if let ActionView::ApplyCommittedEntries { entry } = b.last() {
            assert(applied_in(a) + applied_in(b.drop_last()).push(entry) =~= (applied_in(a)
                + applied_in(b.drop_last())).push(entry));
        }
    }
}

/// The entries of the log from behind `from` up to `to`.
pub open spec fn entries_between(log: RaftLogView, from: u64, to: u64) -> Seq<LogEntryView> {
    Seq::new((to - from) as nat, |i: int| log.entry((from + 1 + i) as u64))
}

proof fn lemma_applied_committed(v: NodeView)
    ensures
        applied_in(v.apply_committed().1) == entries_between(
            v.log,
            v.last_applied,
            v.apply_committed().0.last_applied,
        ),
        forall|k: u64|
            v.last_applied < k <= v.apply_committed().0.last_applied ==> #[trigger] v.log.holds(k),
    decreases u64::MAX - v.last_applied,
{
    let next = next_up(v.last_applied);
    if v.last_applied < v.commit_index && v.log.holds(next) {
        let w = NodeView { last_applied: next, ..v };
        lemma_applied_committed(w);
        lemma_applied_node(w);
        let first = ActionView::ApplyCommittedEntries { entry: v.log.entry(next) };
        lemma_applied_add(seq![first], w.apply_committed().1);
        assert(applied_in(seq![first]) =~= seq![v.log.entry(next)]) by {
            assert(seq![first].drop_last() =~= Seq::<ActionView>::empty());
            assert(applied_in(Seq::<ActionView>::empty()) == Seq::<LogEntryView>::empty());
        }
        let to = w.apply_committed().0.last_applied;
        assert(entries_between(v.log, v.last_applied, to) =~= seq![v.log.entry(next)]
            + entries_between(v.log, next, to));
    } else {
        assert(entries_between(v.log, v.last_applied, v.last_applied) =~= Seq::empty());
    }
}

/// The outputs hold a snapshot for the state machine.
pub open spec fn installs(outputs: Seq<OutputView>) -> bool {
    exists|i: int| 0 <= i < outputs.len() && (#[trigger] outputs[i]) is ApplySnapshot
}

/// The outputs hand over the entries of the log from behind the last one that
/// was applied, in order and without a gap, or a snapshot in their place.
pub open spec fn in_order(v: NodeView, w: NodeView, outputs: Seq<OutputView>) -> bool {
    if installs(outputs) {
        applied_of(outputs).len() == 0
    } else {
        &&& applied_of(outputs) == entries_between(w.log, v.last_applied, w.last_applied)
        &&& forall|k: u64| v.last_applied < k <= w.last_applied ==> #[trigger] w.log.holds(k)
    }
}

proof fn lemma_in_order_none(v: NodeView, w: NodeView, actions: Seq<ActionView>)
    requires
        no_apply(actions),
        w.last_applied == v.last_applied || installs(outputs_of(actions)),
    ensures
        in_order(v, w, outputs_of(actions)),
{
    lemma_applied_outputs(actions);
    lemma_no_apply(actions);
    assert(entries_between(w.log, v.last_applied, v.last_applied) =~= Seq::empty());
}

/// Applying what is committed, between effects that apply nothing.
proof fn lemma_in_order_some(
    v: NodeView,
    node: NodeView,
    before: Seq<ActionView>,
    after: Seq<ActionView>,
)
    requires
        node.last_applied == v.last_applied,
        no_apply(before),
        no_apply(after),
        forall|i: int| 0 <= i < before.len() ==> !((#[trigger] before[i]) is ApplySnapshot),
        forall|i: int| 0 <= i < after.len() ==> !((#[trigger] after[i]) is ApplySnapshot),
    ensures
        in_order(
            v,
            node.apply_committed().0,
            outputs_of(before + node.apply_committed().1 + after),
        ),
{
    let applies = node.apply_committed().1;
    let actions = before + applies + after;
    lemma_applied_node(node);
    lemma_applied_committed(node);
    lemma_no_apply(before);
    lemma_no_apply(after);
    lemma_applied_add(before, applies);
    lemma_applied_add(before + applies, after);
    lemma_applied_outputs(actions);
    assert(Seq::<LogEntryView>::empty() + applied_in(applies) + Seq::<LogEntryView>::empty()
        =~= applied_in(applies));
    assert forall|i: int| 0 <= i < actions.len() implies !((
    #[trigger] actions[i]) is ApplySnapshot) by {
        if i < before.len() {
            assert(actions[i] == before[i]);
        } else if i < before.len() + applies.len() {
            assert(actions[i] == applies[i - before.len()]);
        } else {
            assert(actions[i] == after[i - before.len() - applies.len()]);
        }
    }
    lemma_no_snapshot(actions);
}

proof fn lemma_append_entries_in_order(
    v: NodeView,
    from: NodeId,
    m: crate::raft::AppendEntriesView,
)
    ensures
        in_order(
            v,
            v.handle_append_entries_request(from, m).0,
            outputs_of(v.handle_append_entries_request(from, m).1),
        ),
{
    let (w, actions) = v.handle_append_entries_request(from, m);
    let (adopted, adoption) = v.adopt_term(m.term);
    let follower = adopted.follow(m.leader_id);
    let effects = adoption + adopted.demotion();
    let (log, merge) = follower.log.append_from_leader(m.entries);
    if m.term < adopted.current_term || !follower.log.contains(m.prev_log_index, m.prev_log_term)
        || merge is Err {
        lemma_in_order_none(v, w, actions);
    } else {
        let merged = NodeView { log, ..follower };
        let committed = NodeView {
            commit_index: told_commit(merged.commit_index, m.leader_commit, merged.log.last_index()),
            ..merged
        };
        let outcome = merge->Ok_0;
        let persist = if outcome.is_empty() {
            Seq::empty()
        } else {
            seq![
                ActionView::PersistLog {
                    truncate_from: outcome.truncated_from,
                    entries: outcome.appended,
                },
            ]
        };
        let reply = actions.last();
        lemma_in_order_some(v, committed, effects + persist, seq![reply]);
        assert(actions =~= effects + persist + committed.apply_committed().1 + seq![reply]);
    }
}

proof fn lemma_install_in_order(v: NodeView, from: NodeId, m: crate::raft::InstallSnapshotView)
    ensures
        in_order(
            v,
            v.handle_install_snapshot_request(from, m).0,
            outputs_of(v.handle_install_snapshot_request(from, m).1),
        ),
{
    let (w, actions) = v.handle_install_snapshot_request(from, m);
    let follower = v.adopt_term(m.term).0.follow(m.leader_id);
    if w.last_applied != v.last_applied {
        let snapshot = SnapshotView { meta: m.meta(), data: follower.with_chunk(m)->0.data };
        let apply = ActionView::ApplySnapshot(snapshot);
        assert(actions[actions.len() - 2] == apply);
        lemma_output_of_action(actions, actions.len() - 2);
        let outputs = outputs_of(actions);
        let j = choose|j: int|
            0 <= j < outputs.len() && outputs[j] == OutputView::ApplySnapshot(snapshot);
        assert(outputs[j] is ApplySnapshot);
    }
    lemma_in_order_none(v, w, actions);
}

/// A node applies its log in order, one entry after the last it applied, without
/// a gap and without repetition. A snapshot from a leader takes the place of the
/// entries it covers.
pub proof fn law_applies_in_order(v: NodeView, input: InputView)
    ensures
        in_order(v, v.step(input).0, v.step(input).1),
{
    let (w, actions) = v.act(input);
    match input {
        InputView::Message { from, rpc } => match rpc {
            RpcView::AppendEntries(m) => lemma_append_entries_in_order(v, from, m),
            RpcView::InstallSnapshot(m) => lemma_install_in_order(v, from, m),
            RpcView::AppendEntriesResponse(m) => {
                if m.term > v.current_term || v.state != RaftState::Leader || m.term
                    < v.current_term || !m.success {
                    lemma_in_order_none(v, w, actions);
                } else {
                    let acked = v.acknowledge(from, m.match_index);
                    let counted = NodeView { commit_index: acked.advanced_commit(), ..acked };
                    lemma_in_order_some(v, counted, Seq::empty(), Seq::empty());
                    assert(actions =~= Seq::empty() + counted.apply_committed().1 + Seq::empty());
                }
            },
            _ => lemma_in_order_none(v, w, actions),
        },
        InputView::Tick => {
            if v.state == RaftState::Leader {
                let ticked = NodeView { heartbeat_ticks: next_down(v.heartbeat_ticks), ..v };
                lemma_catch_up_no_apply(ticked, ticked.others());
            }
            lemma_in_order_none(v, w, actions);
        },
        _ => lemma_in_order_none(v, w, actions),
    }
}

proof fn lemma_catch_up_no_apply(v: NodeView, peers: Seq<NodeId>)
    ensures
        no_apply(catch_up_all(v, peers)),
    decreases peers.len(),
{
    if peers.len() > 0 {
        lemma_catch_up_no_apply(v, peers.drop_last());
    }
}

/// What an effect asks for is among the outputs.
pub proof fn lemma_output_of_action(actions: Seq<ActionView>, i: int)
    requires
        0 <= i < actions.len(),
        output_of(actions[i]) is Some,
    ensures
        outputs_of(actions).contains(output_of(actions[i])->0),
    decreases actions.len(),
{
    let before = actions.drop_last();
    let outputs = outputs_of(actions);
    if i == actions.len() - 1 {
        assert(outputs.last() == output_of(actions[i])->0);
    } else {
        lemma_output_of_action(before, i);
        let x = output_of(actions[i])->0;
        let j = choose|j: int|
            0 <= j < outputs_of(before).len() && outputs_of(before)[j] == x;
        assert(outputs[j] == x);
    }
}

proof fn lemma_no_snapshot(actions: Seq<ActionView>)
    requires
        forall|i: int| 0 <= i < actions.len() ==> !((#[trigger] actions[i]) is ApplySnapshot),
    ensures
        forall|i: int|
            0 <= i < outputs_of(actions).len() ==> !((#[trigger] outputs_of(actions)[i]) is
                ApplySnapshot),
{
    assert forall|i: int| 0 <= i < outputs_of(actions).len() implies !((#[trigger] outputs_of(
        actions,
    )[i]) is ApplySnapshot) by {
        let j = lemma_output_from_action(actions, outputs_of(actions)[i]);
        assert(!(actions[j] is ApplySnapshot));
    }
}

} // verus!
