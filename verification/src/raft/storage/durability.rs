//! What a node asks to have written is enough to find it again after a crash.

use vstd::prelude::*;

use crate::config::NodeId;
use crate::raft::driver::{output_of, outputs_of, InputView, OutputView};
use crate::raft::election::ActionView;
use crate::raft::laws::{in_range, law_merge};
use crate::raft::log::{next_up, LogEntryView, LogIndexError, RaftLogView};
use crate::raft::replication::told_commit;
use crate::raft::snapshot::{SnapshotMeta, SnapshotView};
use crate::raft::state::RaftState;
use crate::raft::storage::hard_state::HardState;
use crate::raft::storage::memory::{law_commit_then_recover, MemoryView};
use crate::raft::storage::record::{decode_from, ops_fit, LogOpView};
use crate::raft::storage::{
    after_op, base_log, below, contradicts, entries_after, from_index, log_ops, replayed, BatchView,
    RecoveredView,
};
use crate::raft::{catch_up_all, AppendEntriesView, InstallSnapshotView, NodeView, RpcView};
use crate::seqs::{lemma_filter_prefix, lemma_filter_suffix};

verus! {

// ── What is written ─────────────────────────────────────────────────────────

/// The batch with one more output.
pub open spec fn batch_with(batch: BatchView, output: OutputView) -> BatchView {
    match output {
        OutputView::Persist(hard_state) => BatchView { hard_state: Some(hard_state), ..batch },
        OutputView::PersistLog { truncate_from, entries } => BatchView {
            log: batch.log + log_ops(truncate_from, entries),
            ..batch
        },
        OutputView::PersistSnapshot(snapshot) => BatchView { snapshot: Some(snapshot), ..batch },
        _ => batch,
    }
}

/// Everything that the outputs ask to have written.
pub open spec fn batch_of(outputs: Seq<OutputView>) -> BatchView
    decreases outputs.len(),
{
    if outputs.len() == 0 {
        BatchView::empty()
    } else {
        batch_with(batch_of(outputs.drop_last()), outputs.last())
    }
}

/// What one effect adds to a batch.
spec fn with_action(batch: BatchView, action: ActionView) -> BatchView {
    match output_of(action) {
        Some(output) => batch_with(batch, output),
        None => batch,
    }
}

/// Everything that the effects ask to have written.
spec fn writes(actions: Seq<ActionView>) -> BatchView
    decreases actions.len(),
{
    if actions.len() == 0 {
        BatchView::empty()
    } else {
        with_action(writes(actions.drop_last()), actions.last())
    }
}

proof fn lemma_writes_are_outputs(actions: Seq<ActionView>)
    ensures
        batch_of(outputs_of(actions)) == writes(actions),
    decreases actions.len(),
{
    if actions.len() > 0 {
        lemma_writes_are_outputs(actions.drop_last());
        if let Some(output) = output_of(actions.last()) {
            let rest = outputs_of(actions.drop_last());
            assert(rest.push(output).drop_last() =~= rest);
        }
    }
}

/// The effect writes nothing.
spec fn quiet(action: ActionView) -> bool {
    !(action is Persist) && !(action is PersistLog) && !(action is PersistSnapshot)
}

spec fn all_quiet(actions: Seq<ActionView>) -> bool {
    forall|i: int| 0 <= i < actions.len() ==> quiet(#[trigger] actions[i])
}

proof fn lemma_push(actions: Seq<ActionView>, action: ActionView)
    ensures
        writes(actions.push(action)) == with_action(writes(actions), action),
{
    assert(actions.push(action).drop_last() =~= actions);
}

proof fn lemma_quiet_tail(actions: Seq<ActionView>, tail: Seq<ActionView>)
    requires
        all_quiet(tail),
    ensures
        writes(actions + tail) == writes(actions),
    decreases tail.len(),
{
    if tail.len() == 0 {
        assert(actions + tail =~= actions);
    } else {
        assert((actions + tail).drop_last() =~= actions + tail.drop_last());
        lemma_quiet_tail(actions, tail.drop_last());
        assert(quiet(tail[tail.len() - 1]));
    }
}

proof fn lemma_quiet(actions: Seq<ActionView>)
    requires
        all_quiet(actions),
    ensures
        writes(actions) == BatchView::empty(),
{
    lemma_quiet_tail(Seq::empty(), actions);
    assert(Seq::<ActionView>::empty() + actions =~= actions);
}

// ── What is durable ─────────────────────────────────────────────────────────

/// What a store holds of a node.
pub struct DurableView {
    pub hard_state: HardState,
    pub ops: Seq<LogOpView>,
    pub snapshot: Option<SnapshotView>,
}

impl DurableView {
    /// What the store holds after a batch.
    pub open spec fn after(self, batch: BatchView) -> DurableView {
        DurableView {
            hard_state: match batch.hard_state {
                Some(hard_state) => hard_state,
                None => self.hard_state,
            },
            ops: self.ops + batch.log,
            snapshot: match batch.snapshot {
                Some(snapshot) => Some(snapshot),
                None => self.snapshot,
            },
        }
    }
}

/// What a store in memory holds.
pub open spec fn stored_in(store: MemoryView) -> DurableView {
    DurableView {
        hard_state: match store.hard_state {
            Some(hard_state) => hard_state,
            None => HardState::initial(),
        },
        ops: decode_from(store.log_bytes, 0)->Ok_0.0,
        snapshot: store.snapshot,
    }
}

/// The entries that are left of a store's mutations are those of the log, as far
/// as no snapshot covers them.
pub open spec fn entries_durable(log: RaftLogView, entries: Seq<LogEntryView>) -> bool {
    &&& log.proper()
    &&& from_index(entries, log.start_index) == log.entries
    &&& forall|i: int|
        0 <= i < entries.len() && (#[trigger] entries[i]).index == log.start_index - 1
            ==> entries[i].term == log.last_included_term
    &&& forall|i: int| 0 <= i < entries.len() ==> (#[trigger] entries[i]).index >= 1
}

/// The log starts behind the snapshot, or it still holds what the snapshot covers:
/// then the snapshot was taken, and the log is trimmed once it is known to be
/// written.
pub open spec fn log_goes_with(log: RaftLogView, meta: SnapshotMeta) -> bool {
    ||| meta.last_included_index == log.start_index - 1 && meta.last_included_term
        == log.last_included_term
    ||| log.holds(meta.last_included_index) && log.entry(meta.last_included_index).term
        == meta.last_included_term
}

/// The node's log goes with its snapshot.
pub open spec fn covers_snapshot(v: NodeView) -> bool {
    v.snapshot is Some ==> log_goes_with(v.log, v.snapshot->0.meta)
}

/// The log without what its snapshot covers.
pub open spec fn trimmed(log: RaftLogView, snapshot: Option<SnapshotView>) -> RaftLogView {
    match snapshot {
        Some(s) => if log.holds(s.meta.last_included_index) {
            log.compact(s.meta.last_included_index, s.meta.last_included_term)
        } else {
            log
        },
        None => log,
    }
}

/// The store holds the node's term, vote and log, with its snapshot.
pub open spec fn durable(v: NodeView, d: DurableView) -> bool {
    &&& d.hard_state == v.hard_state()
    &&& d.snapshot == v.snapshot
    &&& entries_durable(v.log, entries_after(d.ops))
    &&& match d.snapshot {
        Some(snapshot) => {
            &&& snapshot.meta.last_included_index >= 1
            &&& log_goes_with(v.log, snapshot.meta)
            &&& v.log.holds(snapshot.meta.last_included_index) ==> v.may_compact_to(
                snapshot.meta.last_included_index,
            )
        },
        None => v.log.start_index == 1 && v.log.last_included_term == 0,
    }
}

// ── Log mutations ───────────────────────────────────────────────────────────

proof fn lemma_entries_after_push(ops: Seq<LogOpView>, op: LogOpView)
    ensures
        entries_after(ops.push(op)) == after_op(entries_after(ops), op),
{
    assert(ops.push(op).drop_last() =~= ops);
}

/// No stored entry is above the log's last.
proof fn lemma_stored_below(log: RaftLogView, entries: Seq<LogEntryView>, i: int)
    requires
        entries_durable(log, entries),
        0 <= i < entries.len(),
    ensures
        entries[i].index < log.next_index(),
        entries[i].index >= log.start_index ==> log.holds(entries[i].index) && log.entry(
            entries[i].index,
        ) == entries[i],
{
    let e = entries[i];
    if e.index >= log.start_index {
        lemma_from_index_members(entries, log.start_index);
        assert(from_index(entries, log.start_index).contains(e));
        let j = choose|j: int| 0 <= j < log.entries.len() && log.entries[j] == e;
        assert(e.index == log.start_index + j);
    }
}

proof fn lemma_from_index_members(entries: Seq<LogEntryView>, index: u64)
    ensures
        forall|i: int|
            0 <= i < entries.len() && (#[trigger] entries[i]).index >= index ==> from_index(
                entries,
                index,
            ).contains(entries[i]),
    decreases entries.len(),
{
    reveal(Seq::filter);
    if entries.len() > 0 {
        let before = entries.drop_last();
        lemma_from_index_members(before, index);
        let kept = from_index(entries, index);
        assert forall|i: int|
            0 <= i < entries.len() && (#[trigger] entries[i]).index >= index implies kept.contains(
            entries[i],
        ) by {
            if i < before.len() {
                assert(before[i] == entries[i]);
                assert(from_index(before, index).contains(before[i]));
                let j = choose|j: int|
                    0 <= j < from_index(before, index).len() && from_index(before, index)[j]
                        == before[i];
                assert(kept[j] == entries[i]);
            } else {
                assert(kept.last() == entries[i]);
            }
        }
    }
}

proof fn lemma_from_index_push(entries: Seq<LogEntryView>, e: LogEntryView, index: u64)
    ensures
        from_index(entries.push(e), index) == if e.index >= index {
            from_index(entries, index).push(e)
        } else {
            from_index(entries, index)
        },
{
    reveal(Seq::filter);
    assert(entries.push(e).drop_last() =~= entries);
}

proof fn lemma_below_all(entries: Seq<LogEntryView>, index: u64)
    requires
        forall|i: int| 0 <= i < entries.len() ==> (#[trigger] entries[i]).index < index,
    ensures
        below(entries, index) == entries,
    decreases entries.len(),
{
    reveal(Seq::filter);
    if entries.len() > 0 {
        let before = entries.drop_last();
        assert forall|i: int| 0 <= i < before.len() implies (#[trigger] before[i]).index < index by {
            assert(before[i] == entries[i]);
        }
        lemma_below_all(before, index);
        assert(entries[entries.len() - 1].index < index);
        assert(before.push(entries.last()) =~= entries);
    }
}

proof fn lemma_from_index_none(entries: Seq<LogEntryView>, index: u64)
    requires
        forall|i: int| 0 <= i < entries.len() ==> (#[trigger] entries[i]).index < index,
    ensures
        from_index(entries, index).len() == 0,
    decreases entries.len(),
{
    reveal(Seq::filter);
    if entries.len() > 0 {
        let before = entries.drop_last();
        assert forall|i: int| 0 <= i < before.len() implies (#[trigger] before[i]).index < index by {
            assert(before[i] == entries[i]);
        }
        lemma_from_index_none(before, index);
        assert(entries[entries.len() - 1].index < index);
    }
}

/// Which entries lie below an index does not depend on what lies below another.
proof fn lemma_below_from(entries: Seq<LogEntryView>, from: u64, to: u64)
    ensures
        from_index(below(entries, to), from) == below(from_index(entries, from), to),
        forall|i: int|
            0 <= i < below(entries, to).len() ==> (#[trigger] below(entries, to)[i]).index < to
                && entries.contains(below(entries, to)[i]),
    decreases entries.len(),
{
    reveal(Seq::filter);
    if entries.len() > 0 {
        let before = entries.drop_last();
        let e = entries.last();
        lemma_below_from(before, from, to);
        if e.index < to {
            lemma_from_index_push(below(before, to), e, from);
        }
        if e.index >= from {
            let kept = from_index(before, from);
            assert(kept.push(e).drop_last() =~= kept);
        }
        assert forall|i: int| 0 <= i < below(entries, to).len() implies (
        #[trigger] below(entries, to)[i]).index < to && entries.contains(below(entries, to)[i]) by {
            if i < below(before, to).len() {
                let x = below(before, to)[i];
                assert(before.contains(x));
                let j = choose|j: int| 0 <= j < before.len() && before[j] == x;
                assert(entries[j] == x);
            } else {
                assert(entries[entries.len() - 1] == e);
            }
        }
    }
}

proof fn lemma_from_from(entries: Seq<LogEntryView>, low: u64, high: u64)
    requires
        low <= high,
    ensures
        from_index(from_index(entries, low), high) == from_index(entries, high),
    decreases entries.len(),
{
    reveal(Seq::filter);
    if entries.len() > 0 {
        let before = entries.drop_last();
        let e = entries.last();
        lemma_from_from(before, low, high);
        if e.index >= low {
            lemma_from_index_push(from_index(before, low), e, high);
        }
    }
}

/// Truncating the log and its stored entries.
proof fn lemma_truncated(log: RaftLogView, entries: Seq<LogEntryView>, index: u64)
    requires
        entries_durable(log, entries),
        index >= log.start_index,
    ensures
        entries_durable(log.truncate_from(index), below(entries, index)),
{
    lemma_below_from(entries, log.start_index, index);
    let kept = below(entries, index);
    let n = if index - log.start_index <= log.entries.len() {
        index - log.start_index
    } else {
        log.entries.len() as int
    };
    lemma_below_prefix(log.entries, index, n);
    assert(log.entries.take(log.entries.len() as int) =~= log.entries);
    assert forall|i: int|
        0 <= i < kept.len() && (#[trigger] kept[i]).index == log.start_index
            - 1 implies kept[i].term == log.last_included_term by {
        assert(entries.contains(kept[i]));
        let j = choose|j: int| 0 <= j < entries.len() && entries[j] == kept[i];
        assert(entries[j].index == log.start_index - 1);
    }
}

proof fn lemma_below_prefix(entries: Seq<LogEntryView>, index: u64, n: int)
    requires
        0 <= n <= entries.len(),
        forall|i: int| 0 <= i < n ==> (#[trigger] entries[i]).index < index,
        forall|i: int| n <= i < entries.len() ==> (#[trigger] entries[i]).index >= index,
    ensures
        below(entries, index) == entries.take(n),
{
    lemma_filter_prefix(entries, |e: LogEntryView| e.index < index, n);
}

proof fn lemma_from_suffix(entries: Seq<LogEntryView>, index: u64, n: int)
    requires
        0 <= n <= entries.len(),
        forall|i: int| 0 <= i < n ==> (#[trigger] entries[i]).index < index,
        forall|i: int| n <= i < entries.len() ==> (#[trigger] entries[i]).index >= index,
    ensures
        from_index(entries, index) == entries.skip(n),
{
    lemma_filter_suffix(entries, |e: LogEntryView| e.index >= index, n);
}

/// Appending to the log and to its stored entries.
proof fn lemma_appended(log: RaftLogView, ops: Seq<LogOpView>, more: Seq<LogEntryView>)
    requires
        entries_durable(log, entries_after(ops)),
        log.extend(more).proper(),
    ensures
        entries_durable(log.extend(more), entries_after(ops + log_ops(None, more))),
    decreases more.len(),
{
    if more.len() == 0 {
        assert(ops + log_ops(None, more) =~= ops);
        assert(log.entries + more =~= log.entries);
    } else {
        let less = more.drop_last();
        let e = more.last();
        let shorter = log.extend(less);
        assert(shorter.proper()) by {
            assert forall|i: int| 0 <= i < shorter.entries.len() implies (
            #[trigger] shorter.entries[i]).index == shorter.start_index + i by {
                assert(shorter.entries[i] == log.extend(more).entries[i]);
            }
        }
        lemma_appended(log, ops, less);
        let before = ops + log_ops(None, less);
        assert(ops + log_ops(None, more) =~= before.push(LogOpView::Append(e)));
        lemma_entries_after_push(before, LogOpView::Append(e));
        let stored = entries_after(before);
        assert(log.extend(more).entries =~= shorter.entries.push(e));
        assert(log.extend(more).entries[shorter.entries.len() as int] == e);
        assert(e.index == shorter.next_index());
        assert forall|i: int| 0 <= i < stored.len() implies (#[trigger] stored[i]).index
            < e.index by {
            lemma_stored_below(shorter, stored, i);
        }
        lemma_below_all(stored, e.index);
        lemma_from_index_push(stored, e, log.start_index);
    }
}

/// A log mutation and what is written of it.
proof fn lemma_log_written(
    log: RaftLogView,
    ops: Seq<LogOpView>,
    truncate_from: Option<u64>,
    more: Seq<LogEntryView>,
)
    requires
        entries_durable(log, entries_after(ops)),
        truncate_from is Some ==> truncate_from->0 >= log.start_index,
        (match truncate_from {
            Some(index) => log.truncate_from(index),
            None => log,
        }).extend(more).proper(),
    ensures
        entries_durable(
            (match truncate_from {
                Some(index) => log.truncate_from(index),
                None => log,
            }).extend(more),
            entries_after(ops + log_ops(truncate_from, more)),
        ),
{
    match truncate_from {
        Some(index) => {
            let op = LogOpView::TruncateFrom(index);
            lemma_entries_after_push(ops, op);
            lemma_truncated(log, entries_after(ops), index);
            lemma_appended(log.truncate_from(index), ops.push(op), more);
            assert(ops + log_ops(truncate_from, more) =~= ops.push(op) + log_ops(None, more));
        },
        None => {
            lemma_appended(log, ops, more);
        },
    }
}

/// Moving the log's beginning up to a snapshot.
pub proof fn lemma_compacted(log: RaftLogView, entries: Seq<LogEntryView>, index: u64, term: u64)
    requires
        entries_durable(log, entries),
        log.holds(index),
        log.entry(index).term == term,
    ensures
        entries_durable(log.compact(index, term), entries),
{
    let short = log.compact(index, term);
    lemma_from_from(entries, log.start_index, short.start_index);
    lemma_from_suffix(log.entries, short.start_index, index + 1 - log.start_index);
    assert forall|i: int|
        0 <= i < entries.len() && (#[trigger] entries[i]).index == short.start_index
            - 1 implies entries[i].term == term by {
        lemma_stored_below(log, entries, i);
    }
}

// ── Recovery ────────────────────────────────────────────────────────────────

proof fn lemma_append_all_proper(log: RaftLogView, entries: Seq<LogEntryView>)
    requires
        log.extend(entries).proper(),
    ensures
        log.append_all(entries) == (log.extend(entries), Ok::<(), LogIndexError>(())),
    decreases entries.len(),
{
    if entries.len() == 0 {
        assert(log.entries + entries =~= log.entries);
    } else {
        let rest = entries.skip(1);
        let next = log.push(entries[0]);
        assert(next.entries + rest =~= log.entries + entries);
        assert(log.extend(entries).entries[log.entries.len() as int] == entries[0]);
        if log.entries.len() > 0 {
            assert(log.extend(entries).entries[log.entries.len() - 1] == log.entries.last());
        }
        lemma_append_all_proper(next, rest);
    }
}

/// What is durable of a node is what a restart finds: its term, its vote and its
/// log, trimmed to its snapshot.
pub proof fn law_restart_finds_the_node(v: NodeView, d: DurableView)
    requires
        durable(v, d),
    ensures
        replayed(
            d.ops,
            match d.snapshot {
                Some(snapshot) => Some(snapshot.meta),
                None => None,
            },
        ) == Ok::<RaftLogView, LogIndexError>(trimmed(v.log, v.snapshot)),
        v.left_behind(
            RecoveredView {
                hard_state: d.hard_state,
                log: trimmed(v.log, v.snapshot),
                snapshot: d.snapshot,
            },
        ),
{
    let entries = entries_after(d.ops);
    let log = trimmed(v.log, v.snapshot);
    if let Some(s) = v.snapshot {
        if v.log.holds(s.meta.last_included_index) {
            lemma_compacted(
                v.log,
                entries,
                s.meta.last_included_index,
                s.meta.last_included_term,
            );
        }
    }
    let meta = match d.snapshot {
        Some(snapshot) => Some(snapshot.meta),
        None => None::<SnapshotMeta>,
    };
    let base = base_log(meta);
    assert(base.entries.len() == 0);
    match meta {
        Some(m) => {
            assert(!contradicts(entries, m));
        },
        None => {
            lemma_from_suffix(entries, 1, 0);
            assert(entries.skip(0) =~= entries);
        },
    }
    assert(base.extend(log.entries).entries =~= log.entries);
    lemma_append_all_proper(base, log.entries);
}

// ── Steps ───────────────────────────────────────────────────────────────────

/// The node stays durable where neither its log nor its snapshot changes and a
/// change of its term or vote is written.
proof fn lemma_same_log(v: NodeView, d: DurableView, w: NodeView, batch: BatchView)
    requires
        durable(v, d),
        w.log == v.log,
        w.snapshot == v.snapshot,
        w.last_applied >= v.last_applied,
        batch.log.len() == 0,
        batch.snapshot is None,
        match batch.hard_state {
            Some(hard_state) => hard_state == w.hard_state(),
            None => w.hard_state() == v.hard_state(),
        },
    ensures
        durable(w, d.after(batch)),
{
    assert(d.ops + batch.log =~= d.ops);
}

/// The node stays durable where its log changes as is written.
proof fn lemma_log_changes(
    v: NodeView,
    d: DurableView,
    w: NodeView,
    batch: BatchView,
    truncate_from: Option<u64>,
    more: Seq<LogEntryView>,
)
    requires
        durable(v, d),
        w.snapshot == v.snapshot,
        w.last_applied >= v.last_applied,
        covers_snapshot(w),
        truncate_from is Some ==> truncate_from->0 >= v.log.start_index,
        w.log == (match truncate_from {
            Some(index) => v.log.truncate_from(index),
            None => v.log,
        }).extend(more),
        w.log.proper(),
        batch.log == log_ops(truncate_from, more),
        batch.snapshot is None,
        match batch.hard_state {
            Some(hard_state) => hard_state == w.hard_state(),
            None => w.hard_state() == v.hard_state(),
        },
    ensures
        durable(w, d.after(batch)),
{
    lemma_log_written(v.log, d.ops, truncate_from, more);
}

proof fn lemma_writes_of_adoption(v: NodeView, term: u64)
    ensures
        writes(v.adopt_term(term).1) == (BatchView {
            hard_state: if term > v.current_term {
                Some(v.adopt_term(term).0.hard_state())
            } else {
                None
            },
            ..BatchView::empty()
        }),
        writes(v.adopt_term(term).1 + v.adopt_term(term).0.demotion()) == writes(
            v.adopt_term(term).1,
        ),
{
    let w = v.adopt_term(term).0;
    let empty = Seq::<ActionView>::empty();
    let first = empty.push(ActionView::DemoteFollower);
    lemma_push(empty, ActionView::DemoteFollower);
    lemma_push(first, ActionView::Persist(w.hard_state()));
    if term > v.current_term {
        assert(v.adopt_term(term).1 =~= first.push(ActionView::Persist(w.hard_state())));
    }
    lemma_quiet_tail(v.adopt_term(term).1, w.demotion());
}

/// What an election of oneself writes: the vote, and the first entry of the term
/// where it is won at once.
proof fn lemma_start_election_durable(v: NodeView, d: DurableView)
    requires
        durable(v, d),
        v.start_election().0.log.proper(),
    ensures
        durable(v.start_election().0, d.after(writes(v.start_election().1))),
{
    let c = v.candidacy();
    let persist = Seq::<ActionView>::empty().push(ActionView::Persist(c.hard_state()));
    lemma_push(Seq::empty(), ActionView::Persist(c.hard_state()));
    let effects = seq![ActionView::Persist(c.hard_state())] + c.canvass();
    assert(seq![ActionView::Persist(c.hard_state())] =~= persist);
    lemma_quiet_tail(persist, c.canvass());
    let batch = writes(effects);
    if c.has_won() {
        let (leader, promotion) = c.become_leader();
        let entry = ActionView::PersistLog { truncate_from: None, entries: seq![c.noop()] };
        let some = effects.push(ActionView::PromoteLeader);
        lemma_push(effects, ActionView::PromoteLeader);
        lemma_push(some, entry);
        lemma_quiet_tail(some.push(entry), leader.broadcast());
        assert(effects + promotion =~= some.push(entry) + leader.broadcast());
        let all = writes(effects + promotion);
        assert(all.log =~= log_ops(None, seq![c.noop()]));
        assert(leader.log.entries =~= v.log.extend(seq![c.noop()]).entries);
        lemma_log_changes(v, d, leader, all, None, seq![c.noop()]);
    } else {
        lemma_same_log(v, d, c, batch);
    }
}

proof fn lemma_become_leader_durable(v: NodeView, d: DurableView)
    requires
        durable(v, d),
        v.become_leader().0.log.proper(),
    ensures
        durable(v.become_leader().0, d.after(writes(v.become_leader().1))),
{
    let (leader, promotion) = v.become_leader();
    let entry = ActionView::PersistLog { truncate_from: None, entries: seq![v.noop()] };
    let empty = Seq::<ActionView>::empty();
    let some = empty.push(ActionView::PromoteLeader);
    lemma_push(empty, ActionView::PromoteLeader);
    lemma_push(some, entry);
    lemma_quiet_tail(some.push(entry), leader.broadcast());
    assert(promotion =~= some.push(entry) + leader.broadcast());
    let all = writes(promotion);
    assert(all.log =~= log_ops(None, seq![v.noop()]));
    assert(leader.log.entries =~= v.log.extend(seq![v.noop()]).entries);
    lemma_log_changes(v, d, leader, all, None, seq![v.noop()]);
}

proof fn lemma_tick_durable(v: NodeView, d: DurableView)
    requires
        durable(v, d),
        v.tick().0.log.proper(),
    ensures
        durable(v.tick().0, d.after(writes(v.tick().1))),
{
    let ticked = NodeView { heartbeat_ticks: crate::raft::log::next_down(v.heartbeat_ticks), ..v };
    if v.state != RaftState::Leader {
        let w = NodeView { election: v.election.ticked(), ..v };
        if w.election.ticks_remaining == 0 {
            lemma_start_election_durable(w, d);
        } else {
            lemma_same_log(v, d, w, BatchView::empty());
        }
    } else {
        if ticked.heartbeat_ticks != 0 {
            lemma_catch_up_quiet(ticked, ticked.others());
        }
        assert(all_quiet(v.tick().1));
        lemma_quiet(v.tick().1);
        lemma_same_log(v, d, v.tick().0, BatchView::empty());
    }
}

proof fn lemma_catch_up_quiet(v: NodeView, peers: Seq<NodeId>)
    ensures
        all_quiet(catch_up_all(v, peers)),
    decreases peers.len(),
{
    if peers.len() > 0 {
        lemma_catch_up_quiet(v, peers.drop_last());
    }
}

proof fn lemma_applies_quiet(v: NodeView)
    ensures
        all_quiet(v.apply_committed().1),
        v.apply_committed().0.log == v.log,
        v.apply_committed().0.snapshot == v.snapshot,
        v.apply_committed().0.hard_state() == v.hard_state(),
        v.apply_committed().0.last_applied >= v.last_applied,
    decreases u64::MAX - v.last_applied,
{
    let next = next_up(v.last_applied);
    if v.last_applied < v.commit_index && v.log.holds(next) {
        lemma_applies_quiet(NodeView { last_applied: next, ..v });
    }
}

proof fn lemma_client_durable(v: NodeView, d: DurableView, commands: Seq<Seq<u8>>)
    requires
        durable(v, d),
        v.append_and_replicate(commands).0.log.proper(),
    ensures
        durable(
            v.append_and_replicate(commands).0,
            d.after(writes(v.append_and_replicate(commands).1)),
        ),
{
    let (w, actions) = v.append_and_replicate(commands);
    if v.state != RaftState::Leader {
        lemma_quiet(actions);
        lemma_same_log(v, d, w, BatchView::empty());
    } else {
        let entries = v.entries_for(commands);
        let entry = ActionView::PersistLog { truncate_from: None, entries };
        let first = Seq::<ActionView>::empty().push(entry);
        lemma_push(Seq::empty(), entry);
        lemma_quiet_tail(first, w.broadcast());
        assert(actions =~= first + w.broadcast());
        assert(writes(actions).log =~= log_ops(None, entries));
        lemma_log_changes(v, d, w, writes(actions), None, entries);
    }
}

proof fn lemma_append_entries_durable(
    v: NodeView,
    d: DurableView,
    from: NodeId,
    m: AppendEntriesView,
)
    requires
        durable(v, d),
        in_range(m.entries),
        v.handle_append_entries_request(from, m).0.log.proper(),
        covers_snapshot(v.handle_append_entries_request(from, m).0),
    ensures
        durable(
            v.handle_append_entries_request(from, m).0,
            d.after(writes(v.handle_append_entries_request(from, m).1)),
        ),
{
    let (w, actions) = v.handle_append_entries_request(from, m);
    let (adopted, adoption) = v.adopt_term(m.term);
    let follower = adopted.follow(m.leader_id);
    let effects = adoption + adopted.demotion();
    lemma_writes_of_adoption(v, m.term);
    law_merge(v.log, m.entries);
    let reply = actions.last();
    if m.term < adopted.current_term {
        lemma_quiet(actions);
        lemma_same_log(v, d, w, writes(actions));
    } else if !follower.log.contains(m.prev_log_index, m.prev_log_term)
        || follower.log.append_from_leader(m.entries).1 is Err {
        lemma_push(effects, reply);
        assert(actions =~= effects.push(reply));
        lemma_same_log(v, d, w, writes(actions));
    } else {
        let (log, merge) = follower.log.append_from_leader(m.entries);
        let outcome = merge->Ok_0;
        let merged = NodeView { log, ..follower };
        let committed = NodeView {
            commit_index: told_commit(merged.commit_index, m.leader_commit, merged.log.last_index()),
            ..merged
        };
        let applies = committed.apply_committed().1;
        lemma_applies_quiet(committed);
        if outcome.is_empty() {
            assert(effects + Seq::<ActionView>::empty() + applies =~= effects + applies);
            lemma_quiet_tail(effects, applies);
            lemma_push(effects + applies, reply);
            lemma_same_log(v, d, w, writes(actions));
        } else {
            let entry = ActionView::PersistLog {
                truncate_from: outcome.truncated_from,
                entries: outcome.appended,
            };
            lemma_push(effects, entry);
            assert(effects + seq![entry] =~= effects.push(entry));
            lemma_quiet_tail(effects.push(entry), applies);
            lemma_push(effects.push(entry) + applies, reply);
            assert(writes(actions).log =~= log_ops(outcome.truncated_from, outcome.appended));
            lemma_log_changes(
                v,
                d,
                w,
                writes(actions),
                outcome.truncated_from,
                outcome.appended,
            );
        }
    }
}

proof fn lemma_install_durable(v: NodeView, d: DurableView, from: NodeId, m: InstallSnapshotView)
    requires
        durable(v, d),
        v.handle_install_snapshot_request(from, m).0.log.proper(),
    ensures
        durable(
            v.handle_install_snapshot_request(from, m).0,
            d.after(writes(v.handle_install_snapshot_request(from, m).1)),
        ),
{
    let (w, actions) = v.handle_install_snapshot_request(from, m);
    let (adopted, adoption) = v.adopt_term(m.term);
    let follower = adopted.follow(m.leader_id);
    let effects = adoption + adopted.demotion();
    lemma_writes_of_adoption(v, m.term);
    let reply = crate::raft::snapshot::install_reply(from, adopted.current_term);
    if m.term < adopted.current_term {
        lemma_quiet(actions);
        lemma_same_log(v, d, w, writes(actions));
    } else if m.last_included_index <= follower.log.last_included_index() && m.done {
        lemma_push(effects, reply);
        lemma_same_log(v, d, w, writes(actions));
    } else if follower.with_chunk(m) is None || !m.done {
        lemma_same_log(v, d, w, writes(actions));
    } else {
        let data = follower.with_chunk(m)->0.data;
        let snapshot = SnapshotView { meta: m.meta(), data };
        let index = m.last_included_index;
        let term = m.last_included_term;
        let stored = entries_after(d.ops);
        let persist = ActionView::PersistSnapshot(snapshot);
        let discard = ActionView::PersistLog {
            truncate_from: Some(index),
            entries: Seq::<LogEntryView>::empty(),
        };
        let apply = ActionView::ApplySnapshot(snapshot);
        lemma_push(effects, persist);
        if follower.install_discards(snapshot.meta) {
            lemma_push(effects.push(persist), discard);
            lemma_push(effects.push(persist).push(discard), apply);
            lemma_push(effects.push(persist).push(discard).push(apply), reply);
            assert(actions =~= effects.push(persist).push(discard).push(apply).push(reply));
            let op = LogOpView::TruncateFrom(index);
            assert(log_ops(Some(index), Seq::<LogEntryView>::empty()) =~= seq![op]);
            assert(writes(actions).log =~= seq![op]);
            assert(d.ops + seq![op] =~= d.ops.push(op));
            lemma_entries_after_push(d.ops, op);
            lemma_below_from(stored, index, index);
            let kept = below(stored, index);
            lemma_from_index_none(kept, (index + 1) as u64);
            assert(w.log.entries =~= from_index(kept, w.log.start_index));
            assert forall|i: int| 0 <= i < kept.len() implies (#[trigger] kept[i]).index >= 1 by {
                assert(stored.contains(kept[i]));
                let j = choose|j: int| 0 <= j < stored.len() && stored[j] == kept[i];
                assert(stored[j].index >= 1);
            }
        } else {
            lemma_push(effects.push(persist), apply);
            lemma_push(effects.push(persist).push(apply), reply);
            assert(actions =~= effects.push(persist).push(apply).push(reply));
            assert(writes(actions).log =~= Seq::<LogOpView>::empty());
            assert(d.ops + writes(actions).log =~= d.ops);
            if follower.log.contains(index, term) {
                lemma_compacted(v.log, stored, index, term);
            } else {
                assert forall|i: int| 0 <= i < stored.len() implies (#[trigger] stored[i]).index
                    < index by {
                    lemma_stored_below(v.log, stored, i);
                }
                lemma_from_index_none(stored, (index + 1) as u64);
                assert(w.log.entries =~= from_index(stored, w.log.start_index));
            }
        }
    }
}

/// Whatever a node is given to process, what it asks to have written keeps it
/// durable. A snapshot may be on its way to the store meanwhile: it is taken of
/// entries that the log holds, no leader takes these back before the log is
/// trimmed to it, and the log is trimmed to the snapshot that the node has.
pub proof fn law_step_is_durable(v: NodeView, d: DurableView, input: InputView)
    requires
        durable(v, d),
        v.step(input).0.log.proper(),
        match input {
            InputView::Message { from, rpc } => match rpc {
                RpcView::AppendEntries(m) => in_range(m.entries) && covers_snapshot(
                    v.step(input).0,
                ),
                _ => true,
            },
            InputView::SnapshotTaken(snapshot) => v.took(snapshot.meta),
            InputView::SnapshotPersisted(meta) => v.may_compact_to(meta.last_included_index)
                ==> v.snapshot is Some && v.snapshot->0.meta == meta,
            _ => true,
        },
    ensures
        durable(v.step(input).0, d.after(batch_of(v.step(input).1))),
{
    let (w, actions) = v.act(input);
    lemma_writes_are_outputs(actions);
    match input {
        InputView::Tick => lemma_tick_durable(v, d),
        InputView::ClientCommand(command) => lemma_client_durable(v, d, seq![command]),
        InputView::ClientCommands(commands) => {
            if commands.len() == 0 {
                lemma_same_log(v, d, w, BatchView::empty());
            } else {
                lemma_client_durable(v, d, commands);
            }
        },
        InputView::Message { from, rpc } => match rpc {
            RpcView::RequestVote(m) => {
                let empty = Seq::<ActionView>::empty();
                lemma_push(empty, actions[0]);
                lemma_push(empty.push(actions[0]), actions[1]);
                if actions.len() == 1 {
                    assert(actions =~= empty.push(actions[0]));
                } else {
                    assert(actions =~= empty.push(actions[0]).push(actions[1]));
                }
                lemma_same_log(v, d, w, writes(actions));
            },
            RpcView::RequestVoteResponse(m) => {
                if m.term > v.current_term {
                    lemma_writes_of_adoption(v, m.term);
                    lemma_same_log(v, d, w, writes(actions));
                } else if v.state == RaftState::Candidate && m.term == v.current_term
                    && m.vote_granted && v.with_vote(from).has_won() {
                    lemma_same_log(v, d, v.with_vote(from), BatchView::empty());
                    assert(d.after(BatchView::empty()).ops =~= d.ops);
                    assert(durable(v.with_vote(from), d));
                    lemma_become_leader_durable(v.with_vote(from), d);
                } else {
                    lemma_same_log(v, d, w, writes(actions));
                }
            },
            RpcView::AppendEntries(m) => lemma_append_entries_durable(v, d, from, m),
            RpcView::AppendEntriesResponse(m) => {
                if m.term > v.current_term {
                    lemma_writes_of_adoption(v, m.term);
                    lemma_same_log(v, d, w, writes(actions));
                } else {
                    if v.state == RaftState::Leader && m.term == v.current_term && m.success {
                        let acked = v.acknowledge(from, m.match_index);
                        lemma_applies_quiet(
                            NodeView { commit_index: acked.advanced_commit(), ..acked },
                        );
                    }
                    lemma_quiet(actions);
                    lemma_same_log(v, d, w, writes(actions));
                }
            },
            RpcView::InstallSnapshot(m) => lemma_install_durable(v, d, from, m),
            RpcView::InstallSnapshotResponse(m) => {
                lemma_writes_of_adoption(v, m.term);
                if m.term <= v.current_term {
                    lemma_quiet(actions);
                }
                lemma_same_log(v, d, w, writes(actions));
            },
        },
        InputView::SnapshotTaken(snapshot) => {
            if v.may_compact_to(snapshot.meta.last_included_index) {
                let persist = ActionView::PersistSnapshot(snapshot);
                lemma_push(Seq::empty(), persist);
                assert(actions =~= Seq::empty().push(persist));
                assert(d.ops + writes(actions).log =~= d.ops);
            } else {
                lemma_same_log(v, d, w, writes(actions));
            }
        },
        InputView::SnapshotPersisted(meta) => {
            assert(d.ops + writes(actions).log =~= d.ops);
            if v.may_compact_to(meta.last_included_index) {
                lemma_compacted(
                    v.log,
                    entries_after(d.ops),
                    meta.last_included_index,
                    meta.last_included_term,
                );
            }
        },
    }
}

/// A snapshot that was taken, written and then used to trim the log keeps the
/// node durable.
pub proof fn law_snapshot_is_durable(v: NodeView, d: DurableView, snapshot: SnapshotView)
    requires
        durable(v, d),
        v.took(snapshot.meta),
    ensures
        durable(
            v.step(InputView::SnapshotTaken(snapshot)).0.snapshot_persisted(snapshot.meta),
            d.after(batch_of(v.step(InputView::SnapshotTaken(snapshot)).1)),
        ),
{
    let taken = InputView::SnapshotTaken(snapshot);
    let persisted = InputView::SnapshotPersisted(snapshot.meta);
    law_step_is_durable(v, d, taken);
    let w = v.step(taken).0;
    let stored = d.after(batch_of(v.step(taken).1));
    if v.may_compact_to(snapshot.meta.last_included_index) {
        law_step_is_durable(w, stored, persisted);
        assert(stored.after(batch_of(w.step(persisted).1)).ops =~= stored.ops);
    }
}

/// A store in memory that took the batch recovers what is durable.
pub proof fn law_memory_store_is_durable(store: MemoryView, d: DurableView, batch: BatchView)
    requires
        decode_from(store.log_bytes, 0) is Ok,
        decode_from(store.log_bytes, 0)->Ok_0.0 == d.ops,
        store.snapshot == d.snapshot,
        (match store.hard_state {
            Some(hard_state) => hard_state,
            None => HardState::initial(),
        }) == d.hard_state,
        store.fail_commits == 0,
        ops_fit(batch.log),
    ensures
        store.commit(batch).1 is Ok,
        forall|v: NodeView| #[trigger]
            durable(v, d.after(batch)) ==> store.commit(batch).0.recover() == Ok::<
                RecoveredView,
                crate::error::StorageErrorView,
            >(
                RecoveredView {
                    hard_state: v.hard_state(),
                    log: trimmed(v.log, v.snapshot),
                    snapshot: d.after(batch).snapshot,
                },
            ),
{
    law_commit_then_recover(store, batch);
    assert forall|v: NodeView| #[trigger]
        durable(v, d.after(batch)) implies store.commit(batch).0.recover() == Ok::<
        RecoveredView,
        crate::error::StorageErrorView,
    >(
        RecoveredView {
            hard_state: v.hard_state(),
            log: trimmed(v.log, v.snapshot),
            snapshot: d.after(batch).snapshot,
        },
    ) by {
        law_restart_finds_the_node(v, d.after(batch));
    }
}

} // verus!
