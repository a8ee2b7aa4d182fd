//! What a restart rebuilds of the log, and what a store in memory does.

use vstd::prelude::*;

use crate::error::StorageErrorView;
use crate::raft::log::{LogEntryView, RaftLogView};
use crate::raft::snapshot::SnapshotMeta;
use crate::raft::storage::memory::MemoryView;
use crate::raft::storage::record::{damaged_at, decode_from, LogOpView};
use crate::raft::storage::{
    ascending, base_log, below, entries_after, from_index, kept_beside, replayed, BatchView,
    RecoveredView,
};
use crate::seqs::lemma_filter_members;

verus! {

/// The index from which on a mutation replaces what was there.
pub open spec fn replaces_from(op: LogOpView) -> u64 {
    match op {
        LogOpView::Append(entry) => entry.index,
        LogOpView::TruncateFrom(index) => index,
    }
}

/// The mutation at `k` appended the entry, and no later one replaced it.
pub open spec fn survives(ops: Seq<LogOpView>, k: int, entry: LogEntryView) -> bool {
    &&& 0 <= k < ops.len()
    &&& ops[k] == LogOpView::Append(entry)
    &&& forall|j: int| k < j < ops.len() ==> replaces_from(#[trigger] ops[j]) > entry.index
}

/// The entry was appended and not replaced.
pub open spec fn is_left(ops: Seq<LogOpView>, entry: LogEntryView) -> bool {
    exists|k: int| survives(ops, k, entry)
}

proof fn lemma_left_step(ops: Seq<LogOpView>, entry: LogEntryView)
    requires
        ops.len() > 0,
    ensures
        is_left(ops, entry) <==> ops.last() == LogOpView::Append(entry) || (is_left(
            ops.drop_last(),
            entry,
        ) && replaces_from(ops.last()) > entry.index),
{
    let before = ops.drop_last();
    let n = ops.len() - 1;
    assert(ops[n] == ops.last());
    if is_left(ops, entry) {
        let k = choose|k: int| survives(ops, k, entry);
        if k < n {
            assert(before[k] == ops[k]);
            assert forall|j: int| k < j < before.len() implies replaces_from(#[trigger] before[j])
                > entry.index by {
                assert(before[j] == ops[j]);
            }
            assert(survives(before, k, entry));
            assert(replaces_from(ops[n]) > entry.index);
        }
    }
    if ops.last() == LogOpView::Append(entry) {
        assert(survives(ops, n, entry));
    }
    if is_left(before, entry) && replaces_from(ops.last()) > entry.index {
        let k = choose|k: int| survives(before, k, entry);
        assert(ops[k] == before[k]);
        assert forall|j: int| k < j < ops.len() implies replaces_from(#[trigger] ops[j])
            > entry.index by {
            if j < n {
                assert(before[j] == ops[j]);
            }
        }
        assert(survives(ops, k, entry));
    }
}

proof fn lemma_below(entries: Seq<LogEntryView>, index: u64)
    requires
        ascending(entries),
    ensures
        ascending(below(entries, index)),
        forall|e: LogEntryView| #[trigger]
            below(entries, index).contains(e) <==> entries.contains(e) && e.index < index,
    decreases entries.len(),
{
    let p = |e: LogEntryView| e.index < index;
    lemma_filter_members(entries, p);
    reveal(Seq::filter);
    if entries.len() > 0 {
        let before = entries.drop_last();
        assert forall|i: int, j: int| 0 <= i < j < before.len() implies (
        #[trigger] before[i]).index < (#[trigger] before[j]).index by {
            assert(entries[i].index < entries[j].index);
        }
        lemma_below(before, index);
        let kept = below(before, index);
        assert(entries.last() == entries[entries.len() - 1]);
        if p(entries.last()) {
            let all = kept.push(entries.last());
            assert(below(entries, index) == all);
            assert forall|i: int, j: int| 0 <= i < j < all.len() implies (
            #[trigger] all[i]).index < (#[trigger] all[j]).index by {
                if j == kept.len() {
                    assert(kept.contains(kept[i]));
                    let k = before.index_of(kept[i]);
                    assert(entries[k].index < entries[entries.len() - 1].index);
                }
            }
        }
    }
}

/// What is left of mutations: exactly the entries that were appended and not
/// replaced, in the order of their indices. An entry is replaced by a later one at
/// or below its index, and by a later truncation from there.
pub proof fn law_appended_entries_are_left_unless_replaced(ops: Seq<LogOpView>)
    ensures
        ascending(entries_after(ops)),
        forall|entry: LogEntryView| #[trigger]
            entries_after(ops).contains(entry) <==> is_left(ops, entry),
    decreases ops.len(),
{
    let entries = entries_after(ops);
    if ops.len() == 0 {
        assert forall|entry: LogEntryView| #[trigger] entries.contains(entry) <==> is_left(
            ops,
            entry,
        ) by {}
    } else {
        let old = entries_after(ops.drop_last());
        let op = ops.last();
        law_appended_entries_are_left_unless_replaced(ops.drop_last());
        lemma_below(old, replaces_from(op));
        let kept = below(old, replaces_from(op));
        assert forall|entry: LogEntryView| #[trigger] entries.contains(entry) <==> is_left(
            ops,
            entry,
        ) by {
            lemma_left_step(ops, entry);
            if let LogOpView::Append(e) = op {
                assert(entries == kept.push(e));
                assert(entries[kept.len() as int] == e);
                if kept.contains(entry) {
                    assert(entries[kept.index_of(entry)] == entry);
                }
                if entries.contains(entry) && entry != e {
                    let i = entries.index_of(entry);
                    assert(kept[i] == entry);
                }
            }
        }
        if let LogOpView::Append(e) = op {
            assert forall|i: int, j: int| 0 <= i < j < entries.len() implies (
            #[trigger] entries[i]).index < (#[trigger] entries[j]).index by {
                if j == kept.len() {
                    assert(kept.contains(kept[i]));
                }
            }
        }
    }
}

/// The entry goes with the snapshot: it lies above its boundary, and no entry that
/// is left stands at the boundary with another term.
pub open spec fn stays_beside(
    ops: Seq<LogOpView>,
    boundary: Option<SnapshotMeta>,
    entry: LogEntryView,
) -> bool {
    is_left(ops, entry) && (boundary is Some ==> entry.index > boundary->0.last_included_index
        && !(exists|other: LogEntryView|
        #![trigger is_left(ops, other)]
        is_left(ops, other) && other.index == boundary->0.last_included_index && other.term
            != boundary->0.last_included_term))
}

/// The rebuilt log starts behind the snapshot's boundary and holds exactly the
/// entries that go with the snapshot, without a gap.
pub proof fn law_rebuilt_log_holds_what_is_left(
    ops: Seq<LogOpView>,
    boundary: Option<SnapshotMeta>,
)
    requires
        replayed(ops, boundary) is Ok,
        boundary is Some ==> boundary->0.last_included_index < u64::MAX,
        boundary is Some ==> boundary->0.last_included_index > 0,
    ensures
        ({
            let log = replayed(ops, boundary)->Ok_0;
            &&& boundary is None ==> log.start_index == 1 && log.last_included_term == 0
            &&& boundary is Some ==> log.start_index == boundary->0.last_included_index + 1
                && log.last_included_term == boundary->0.last_included_term
            &&& forall|entry: LogEntryView| #[trigger]
                log.entries.contains(entry) <==> stays_beside(ops, boundary, entry)
            &&& forall|i: int, j: int|
                0 <= i < j < log.entries.len() ==> (#[trigger] log.entries[i]).index < (
                #[trigger] log.entries[j]).index
        }),
{
    let all = entries_after(ops);
    let kept = kept_beside(all, boundary);
    let base = base_log(boundary);
    let log = replayed(ops, boundary)->Ok_0;
    lemma_append_all(base, kept);
    assert(log.entries =~= kept);
    lemma_stays(ops, boundary);
}

/// The entries follow each other from `first` on, without a gap.
pub open spec fn run_from(entries: Seq<LogEntryView>, first: int) -> bool {
    forall|i: int| 0 <= i < entries.len() ==> (#[trigger] entries[i]).index == first + i
}

proof fn lemma_append_run(log: RaftLogView, entries: Seq<LogEntryView>)
    requires
        log.start_index >= 1,
        log.start_index - 1 + log.entries.len() < u64::MAX - 1,
        log.entries.len() > 0 ==> log.entries.last().index == log.start_index + log.entries.len()
            - 1,
        forall|i: int| 0 <= i < entries.len() ==> (#[trigger] entries[i]).index < u64::MAX - 1,
    ensures
        log.append_all(entries).1 is Ok <==> run_from(
            entries,
            log.start_index + log.entries.len() as int,
        ),
    decreases entries.len(),
{
    let first = log.start_index + log.entries.len() as int;
    assert(log.next_index() == first);
    if entries.len() > 0 {
        let rest = entries.skip(1);
        if entries[0].index == first {
            let more = log.push(entries[0]);
            assert forall|i: int| 0 <= i < rest.len() implies (#[trigger] rest[i]).index < u64::MAX
                - 1 by {
                assert(rest[i] == entries[i + 1]);
            }
            lemma_append_run(more, rest);
            if run_from(entries, first) {
                assert forall|i: int| 0 <= i < rest.len() implies (#[trigger] rest[i]).index
                    == first + 1 + i by {
                    assert(rest[i] == entries[i + 1]);
                }
            }
            if run_from(rest, first + 1) {
                assert forall|i: int| 0 <= i < entries.len() implies (#[trigger] entries[i]).index
                    == first + i by {
                    if i > 0 {
                        assert(rest[i - 1] == entries[i]);
                    }
                }
            }
        }
    }
}

/// A log is rebuilt exactly where what goes with the snapshot follows it without a
/// gap; else the restart is refused.
pub proof fn law_rebuilt_log_has_no_gap(ops: Seq<LogOpView>, boundary: Option<SnapshotMeta>)
    requires
        boundary is Some ==> 0 < boundary->0.last_included_index < u64::MAX - 2,
        forall|entry: LogEntryView| #[trigger] is_left(ops, entry) ==> entry.index < u64::MAX - 1,
    ensures
        ({
            let first = if boundary is Some {
                boundary->0.last_included_index + 1
            } else {
                1
            };
            &&& replayed(ops, boundary) is Ok ==> run_from(
                replayed(ops, boundary)->Ok_0.entries,
                first,
            )
            &&& (exists|list: Seq<LogEntryView>| #[trigger]
                run_from(list, first) && forall|entry: LogEntryView| #[trigger]
                    list.contains(entry) <==> stays_beside(ops, boundary, entry)) ==> replayed(
                ops,
                boundary,
            ) is Ok
        }),
{
    let first = if boundary is Some {
        boundary->0.last_included_index + 1
    } else {
        1
    };
    let all = entries_after(ops);
    let kept = kept_beside(all, boundary);
    let base = base_log(boundary);
    law_appended_entries_are_left_unless_replaced(ops);
    lemma_stays(ops, boundary);
    assert forall|i: int| 0 <= i < kept.len() implies (#[trigger] kept[i]).index < u64::MAX - 1 by {
        assert(kept.contains(kept[i]));
        assert(is_left(ops, kept[i]));
    }
    assert(base.start_index == first && base.entries.len() == 0);
    lemma_append_run(base, kept);
    if replayed(ops, boundary) is Ok {
        lemma_append_all(base, kept);
        assert(replayed(ops, boundary)->Ok_0.entries =~= kept);
    }
    if exists|list: Seq<LogEntryView>| #[trigger]
        run_from(list, first) && forall|entry: LogEntryView| #[trigger]
            list.contains(entry) <==> stays_beside(ops, boundary, entry) {
        let list = choose|list: Seq<LogEntryView>| #[trigger]
            run_from(list, first) && forall|entry: LogEntryView| #[trigger]
                list.contains(entry) <==> stays_beside(ops, boundary, entry);
        assert forall|entry: LogEntryView| list.contains(entry) == kept.contains(entry) by {
            assert(list.contains(entry) <==> stays_beside(ops, boundary, entry));
            assert(kept.contains(entry) <==> stays_beside(ops, boundary, entry));
        }
        lemma_same_run(list, kept, first);
    }
}

/// Ascending entries that are those of a run are the run.
proof fn lemma_same_run(list: Seq<LogEntryView>, kept: Seq<LogEntryView>, first: int)
    requires
        run_from(list, first),
        ascending(kept),
        forall|entry: LogEntryView| list.contains(entry) == kept.contains(entry),
    ensures
        run_from(kept, first),
    decreases kept.len(),
{
    assert forall|i: int| 0 <= i < kept.len() implies (#[trigger] kept[i]).index == first + i by {
        lemma_run_at(list, kept, first, i);
    }
}

proof fn lemma_run_at(list: Seq<LogEntryView>, kept: Seq<LogEntryView>, first: int, i: int)
    requires
        run_from(list, first),
        ascending(kept),
        forall|entry: LogEntryView| list.contains(entry) == kept.contains(entry),
        0 <= i < kept.len(),
    ensures
        kept[i].index == first + i,
    decreases i,
{
    assert(kept.contains(kept[i]));
    assert(list.contains(kept[i]));
    let a = list.index_of(kept[i]);
    assert(list[a] == kept[i]);
    if i > 0 {
        lemma_run_at(list, kept, first, i - 1);
        assert(kept[i - 1].index < kept[i].index);
    }
    if a > i {
        assert(list.contains(list[i]));
        assert(kept.contains(list[i]));
        let b = kept.index_of(list[i]);
        assert(kept[b] == list[i]);
        if b < i {
            lemma_run_at(list, kept, first, b);
        } else if b > i {
            assert(kept[i].index < kept[b].index);
        }
    }
}

/// What is kept of the entries, in order.
proof fn lemma_stays(ops: Seq<LogOpView>, boundary: Option<SnapshotMeta>)
    requires
        boundary is Some ==> boundary->0.last_included_index < u64::MAX,
    ensures
        ascending(kept_beside(entries_after(ops), boundary)),
        forall|entry: LogEntryView| #[trigger]
            kept_beside(entries_after(ops), boundary).contains(entry) <==> stays_beside(
                ops,
                boundary,
                entry,
            ),
{
    let all = entries_after(ops);
    let kept = kept_beside(all, boundary);
    law_appended_entries_are_left_unless_replaced(ops);
    assert forall|entry: LogEntryView| #[trigger] kept.contains(entry) <==> stays_beside(
        ops,
        boundary,
        entry,
    ) by {
        assert(all.contains(entry) <==> is_left(ops, entry));
        if let Some(meta) = boundary {
            let above = (meta.last_included_index + 1) as u64;
            lemma_filter_members(all, |e: LogEntryView| e.index >= above);
            if crate::raft::storage::contradicts(all, meta) {
                let i = choose|i: int|
                    0 <= i < all.len() && (#[trigger] all[i]).index == meta.last_included_index
                        && all[i].term != meta.last_included_term;
                assert(all.contains(all[i]));
                assert(is_left(ops, all[i]));
            } else {
                assert forall|other: LogEntryView|
                    #![trigger is_left(ops, other)]
                    is_left(ops, other) && other.index == meta.last_included_index implies
                other.term == meta.last_included_term by {
                    assert(all.contains(other));
                    let i = all.index_of(other);
                    assert(all[i] == other);
                }
                assert(kept == from_index(all, above));
                assert(kept.contains(entry) <==> all.contains(entry) && entry.index >= above);
            }
        }
    }
    if let Some(meta) = boundary {
        let above = (meta.last_included_index + 1) as u64;
        lemma_from_ascending(all, above);
    }
}

proof fn lemma_from_ascending(entries: Seq<LogEntryView>, index: u64)
    requires
        ascending(entries),
    ensures
        ascending(from_index(entries, index)),
    decreases entries.len(),
{
    let p = |e: LogEntryView| e.index >= index;
    reveal(Seq::filter);
    if entries.len() > 0 {
        let before = entries.drop_last();
        assert forall|i: int, j: int| 0 <= i < j < before.len() implies (
        #[trigger] before[i]).index < (#[trigger] before[j]).index by {
            assert(entries[i].index < entries[j].index);
        }
        lemma_from_ascending(before, index);
        lemma_filter_members(before, p);
        let kept = from_index(before, index);
        if p(entries.last()) {
            let all = kept.push(entries.last());
            assert forall|i: int, j: int| 0 <= i < j < all.len() implies (
            #[trigger] all[i]).index < (#[trigger] all[j]).index by {
                if j == kept.len() {
                    assert(kept.contains(kept[i]));
                    let k = before.index_of(kept[i]);
                    assert(entries[k].index < entries[entries.len() - 1].index);
                }
            }
        }
    }
}

proof fn lemma_append_all(log: RaftLogView, entries: Seq<LogEntryView>)
    requires
        log.append_all(entries).1 is Ok,
    ensures
        log.append_all(entries).0.start_index == log.start_index,
        log.append_all(entries).0.last_included_term == log.last_included_term,
        log.append_all(entries).0.entries == log.entries + entries,
    decreases entries.len(),
{
    if entries.len() > 0 {
        let more = log.push(entries[0]);
        lemma_append_all(more, entries.skip(1));
        assert(more.entries + entries.skip(1) =~= log.entries + entries);
    } else {
        assert(log.entries + entries =~= log.entries);
    }
}

// ── The store in memory ─────────────────────────────────────────────────────

/// A commit that fails keeps nothing of its batch: one that was told to fail, of
/// which there are then one fewer to come, and one on a log that is damaged.
pub proof fn law_failed_commit_keeps_nothing(store: MemoryView, batch: BatchView)
    ensures
        ({
            let (after, answer) = store.commit(batch);
            let is_nothing = batch.log.len() == 0 && batch.hard_state is None && batch.snapshot
                is None;
            &&& is_nothing ==> after == store && answer is Ok
            &&& !is_nothing && store.fail_commits > 0 ==> {
                &&& answer == Err::<(), StorageErrorView>(
                    StorageErrorView::Io("injected commit failure"@),
                )
                &&& after == (MemoryView {
                    fail_commits: (store.fail_commits - 1) as u32,
                    ..store
                })
            }
            &&& !is_nothing && store.fail_commits == 0 ==> {
                &&& answer is Ok <==> decode_from(store.log_bytes, 0) is Ok
                &&& answer is Err ==> after == store && answer->Err_0 == damaged_at(
                    decode_from(store.log_bytes, 0)->Err_0,
                )@
                &&& answer is Ok && store.syncs < u64::MAX ==> after.syncs == store.syncs + 1
                &&& answer is Ok ==> after.fail_commits == 0
            }
        }),
{
}

/// What was never written is found as it was before the first write: term zero
/// without a vote, no snapshot, and nothing of a log.
pub proof fn law_unwritten_store_recovers_nothing(store: MemoryView)
    requires
        decode_from(store.log_bytes, 0) is Ok,
        store.recover() is Ok,
    ensures
        ({
            let found = store.recover()->Ok_0;
            &&& store.hard_state is None ==> found.hard_state.current_term == 0
                && found.hard_state.voted_for is None
            &&& store.hard_state is Some ==> found.hard_state == store.hard_state->0
            &&& found.snapshot == store.snapshot
            &&& store.snapshot is None && decode_from(store.log_bytes, 0)->Ok_0.0.len() == 0
                ==> found.log.entries.len() == 0 && found.log.start_index == 1
        }),
{
}

/// A damaged log is not recovered.
pub proof fn law_damaged_store_is_not_recovered(store: MemoryView)
    requires
        decode_from(store.log_bytes, 0) is Err,
    ensures
        store.recover() == Err::<RecoveredView, StorageErrorView>(
            damaged_at(decode_from(store.log_bytes, 0)->Err_0)@,
        ),
{
}

} // verus!
