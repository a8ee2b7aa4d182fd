//! What the plan for a batch must do, step by step.

use vstd::prelude::*;

use crate::raft::storage::disk::{
    collectable, lemma_after_all_add, DiskActionView, DiskView, SegmentIndex,
};
use crate::raft::storage::disk_laws::FilesView;
use crate::raft::storage::record::{
    decode_from, frame, hard_state_bytes, lemma_clean_prefix, op_record, snapshot_bytes, LogOpView,
    KIND_HARD_STATE, KIND_SNAPSHOT,
};
use crate::raft::storage::BatchView;

verus! {

/// A step that only touches segments that take writes.
pub open spec fn is_log_step(step: DiskActionView) -> bool {
    match step {
        DiskActionView::Rotate { .. } => true,
        DiskActionView::OpenSegment { .. } => true,
        DiskActionView::AppendRecord { .. } => true,
        _ => false,
    }
}

/// From step `i` on, what was appended to segment `seq` is synced.
pub open spec fn synced_behind(steps: Seq<DiskActionView>, i: int, seq: u64) -> bool {
    exists|j: int|
        i < j < steps.len() && (#[trigger] steps[j] == (DiskActionView::SyncSegment { seq })
            || steps[j] == (DiskActionView::Rotate { seq }))
}

/// Every record that the steps append is synced behind it, but for those of the
/// segment that takes writes in the end.
spec fn synced_but_active(steps: Seq<DiskActionView>, after: DiskView) -> bool {
    forall|i: int|
        0 <= i < steps.len() && (#[trigger] steps[i]) is AppendRecord ==> (after.active is Some
            && after.active->0.seq == steps[i]->AppendRecord_seq) || synced_behind(
            steps,
            i,
            steps[i]->AppendRecord_seq,
        )
}

proof fn lemma_op_steps(state: DiskView, op: LogOpView)
    ensures
        ({
            let steps = state.op_steps(op);
            let after = state.after_all(steps);
            &&& after.active is Some
            &&& steps.len() > 0
            &&& steps.last() is AppendRecord
            &&& steps.last()->AppendRecord_seq == after.active->0.seq
            &&& forall|i: int| 0 <= i < steps.len() ==> is_log_step(#[trigger] steps[i])
            &&& forall|i: int|
                0 <= i < steps.len() - 1 ==> !((#[trigger] steps[i]) is AppendRecord)
            &&& state.active is Some && state.active->0.seq != after.active->0.seq ==> steps[0]
                == (DiskActionView::Rotate { seq: state.active->0.seq })
            &&& after.rotate_threshold == state.rotate_threshold
        }),
{
    let steps = state.op_steps(op);
    reveal_with_fuel(DiskView::after_all, 4);
    if steps.len() == 3 {
        assert(steps.drop_last() =~= seq![steps[0], steps[1]]);
        assert(steps.drop_last().drop_last() =~= seq![steps[0]]);
        assert(steps.drop_last().drop_last().drop_last() =~= Seq::empty());
    } else if steps.len() == 2 {
        assert(steps.drop_last() =~= seq![steps[0]]);
        assert(steps.drop_last().drop_last() =~= Seq::empty());
    } else {
        assert(steps.drop_last() =~= Seq::empty());
    }
}

proof fn lemma_log_steps(state: DiskView, ops: Seq<LogOpView>)
    ensures
        ({
            let steps = state.log_steps(ops);
            let after = state.after_all(steps);
            &&& forall|i: int| 0 <= i < steps.len() ==> is_log_step(#[trigger] steps[i])
            &&& synced_but_active(steps, after)
            &&& ops.len() > 0 ==> after.active is Some && steps.len() > 0
        }),
    decreases ops.len(),
{
    if ops.len() > 0 {
        let earlier = state.log_steps(ops.drop_last());
        let between = state.after_all(earlier);
        let more = between.op_steps(ops.last());
        let steps = earlier + more;
        lemma_log_steps(state, ops.drop_last());
        lemma_op_steps(between, ops.last());
        lemma_after_all_add(state, earlier, more);
        let after = state.after_all(steps);
        assert forall|i: int| 0 <= i < steps.len() implies is_log_step(#[trigger] steps[i]) by {
            if i < earlier.len() {
                assert(steps[i] == earlier[i]);
            } else {
                assert(steps[i] == more[i - earlier.len()]);
            }
        }
        assert forall|i: int| 0 <= i < steps.len() && (#[trigger] steps[i]) is AppendRecord implies (
        after.active is Some && after.active->0.seq == steps[i]->AppendRecord_seq)
            || synced_behind(steps, i, steps[i]->AppendRecord_seq) by {
            let seq = steps[i]->AppendRecord_seq;
            if i < earlier.len() {
                assert(steps[i] == earlier[i]);
                if synced_behind(earlier, i, seq) {
                    let j = choose|j: int|
                        i < j < earlier.len() && (#[trigger] earlier[j] == (
                        DiskActionView::SyncSegment { seq }) || earlier[j] == (
                        DiskActionView::Rotate { seq }));
                    assert(steps[j] == earlier[j]);
                } else if after.active->0.seq != seq {
                    assert(steps[earlier.len() as int] == more[0]);
                    assert(steps[earlier.len() as int] == (DiskActionView::Rotate { seq }));
                }
            } else {
                assert(steps[i] == more[i - earlier.len()]);
            }
        }
    }
}

/// Nothing of a batch is left unsynced: behind every record that the plan appends
/// to a segment comes a sync of that segment, or its rotation, which syncs it.
pub proof fn law_every_record_is_synced(state: DiskView, batch: BatchView, i: int)
    requires
        0 <= i < state.plan(batch).len(),
        state.plan(batch)[i] is AppendRecord,
    ensures
        synced_behind(state.plan(batch), i, state.plan(batch)[i]->AppendRecord_seq),
{
    let plan = state.plan(batch);
    let first = state.snapshot_steps(batch.snapshot) + state.hard_state_steps(batch.hard_state);
    assert forall|k: int| 0 <= k < first.len() implies !((#[trigger] first[k]) is AppendRecord) by {
        let s = state.snapshot_steps(batch.snapshot);
        if k < s.len() {
            assert(first[k] == s[k]);
        } else {
            assert(first[k] == state.hard_state_steps(batch.hard_state)[k - s.len()]);
        }
    }
    if batch.log.len() > 0 {
        let between = state.after_all(first);
        let steps = between.log_steps(batch.log);
        let logged = first + steps;
        let after = between.after_all(steps);
        lemma_log_steps(between, batch.log);
        lemma_after_all_add(state, first, steps);
        let sync = after.final_sync();
        assert(plan == logged + sync);
        assert(i >= first.len());
        let seq = plan[i]->AppendRecord_seq;
        let at = i - first.len();
        if i >= logged.len() {
            assert(plan[i] == sync[i - logged.len()]);
        } else {
            assert(plan[i] == logged[i]);
            assert(logged[i] == steps[at]);
            if synced_behind(steps, at, seq) {
                let j = choose|j: int|
                    at < j < steps.len() && (#[trigger] steps[j] == (DiskActionView::SyncSegment {
                        seq,
                    }) || steps[j] == (DiskActionView::Rotate { seq }));
                assert(plan[first.len() + j] == steps[j]);
            } else {
                assert(plan[logged.len() as int] == sync[0]);
                assert(plan[logged.len() as int] == (DiskActionView::SyncSegment { seq }));
            }
        }
    }
}

/// A batch shares one sync: however many log mutations it holds, the plan syncs the
/// segment once, in the end, and a batch without log mutations syncs none.
pub proof fn law_batch_shares_one_sync(state: DiskView, batch: BatchView, i: int)
    requires
        0 <= i < state.plan(batch).len(),
    ensures
        state.plan(batch)[i] is SyncSegment <==> batch.log.len() > 0 && i == state.plan(
            batch,
        ).len() - 1,
{
    let plan = state.plan(batch);
    let s = state.snapshot_steps(batch.snapshot);
    let first = s + state.hard_state_steps(batch.hard_state);
    if i < first.len() {
        if i < s.len() {
            assert(first[i] == s[i]);
        } else {
            assert(first[i] == state.hard_state_steps(batch.hard_state)[i - s.len()]);
        }
        assert(plan[i] == first[i]);
    }
    if batch.log.len() > 0 {
        let between = state.after_all(first);
        let steps = between.log_steps(batch.log);
        let logged = first + steps;
        lemma_log_steps(between, batch.log);
        lemma_after_all_add(state, first, steps);
        let sync = state.after_all(logged).final_sync();
        assert(plan == logged + sync);
        assert(sync.len() == 1);
        if first.len() <= i < logged.len() {
            assert(plan[i] == logged[i]);
            assert(logged[i] == steps[i - first.len()]);
            assert(is_log_step(steps[i - first.len()]));
        }
        if i == logged.len() {
            assert(plan[i] == sync[0]);
        }
    }
}

/// A snapshot is durable before anything else of its batch, and before a segment
/// that it makes superfluous goes; then the election state; then the log. Each is
/// written once, whole.
pub proof fn law_snapshot_then_state_then_log(state: DiskView, batch: BatchView, i: int)
    requires
        0 <= i < state.plan(batch).len(),
    ensures
        ({
            let plan = state.plan(batch);
            let gone = if batch.snapshot is Some {
                collectable(
                    state.segments,
                    state.active,
                    batch.snapshot->0.meta.last_included_index,
                ) as int
            } else {
                0
            };
            let snapshots = if batch.snapshot is Some {
                1 + gone
            } else {
                0
            };
            let states: int = if batch.hard_state is Some {
                1
            } else {
                0
            };
            &&& batch.snapshot is Some && i == 0 ==> plan[i] == (DiskActionView::WriteSnapshot {
                bytes: frame(KIND_SNAPSHOT, snapshot_bytes(batch.snapshot->0)),
            })
            &&& batch.snapshot is Some && 0 < i < snapshots ==> plan[i] == (
            DiskActionView::RemoveSegment { seq: state.segments[i - 1].seq })
            &&& batch.hard_state is Some && i == snapshots ==> plan[i] == (
            DiskActionView::WriteHardState {
                bytes: frame(KIND_HARD_STATE, hard_state_bytes(batch.hard_state->0)),
            })
            &&& i >= snapshots + states ==> is_log_step(plan[i]) || plan[i] is SyncSegment
            &&& batch.log.len() == 0 ==> plan.len() == snapshots + states
        }),
{
    let plan = state.plan(batch);
    let s = state.snapshot_steps(batch.snapshot);
    let h = state.hard_state_steps(batch.hard_state);
    let first = s + h;
    if i < first.len() {
        assert(plan[i] == first[i]);
        if i < s.len() {
            assert(first[i] == s[i]);
        } else {
            assert(first[i] == h[i - s.len()]);
        }
    }
    if batch.log.len() > 0 {
        let between = state.after_all(first);
        let steps = between.log_steps(batch.log);
        let logged = first + steps;
        lemma_log_steps(between, batch.log);
        let sync = state.after_all(logged).final_sync();
        assert(plan == logged + sync);
        if first.len() <= i < logged.len() {
            assert(plan[i] == logged[i]);
            assert(logged[i] == steps[i - first.len()]);
            assert(is_log_step(steps[i - first.len()]));
        }
        if i >= logged.len() {
            assert(plan[i] == sync[i - logged.len()]);
        }
    }
}

/// A segment is left for the next one exactly where the record would take it past
/// the limit, so that no segment grows past it by a second record. The record goes
/// to the segment that takes writes then.
pub proof fn law_full_segment_is_left(state: DiskView, op: LogOpView)
    requires
        state.active is Some,
        state.active->0.written + op_record(op).len() <= u64::MAX,
    ensures
        ({
            let steps = state.op_steps(op);
            let full = state.active->0.written + op_record(op).len() > state.rotate_threshold;
            &&& full ==> steps.len() == 3 && steps[0] == (DiskActionView::Rotate {
                seq: state.active->0.seq,
            }) && steps[1] is OpenSegment && steps[2] is AppendRecord
                && steps[2]->AppendRecord_seq == steps[1]->OpenSegment_seq
            &&& !full ==> steps.len() == 1 && steps[0] is AppendRecord
                && steps[0]->AppendRecord_seq == state.active->0.seq
            &&& steps.last()->AppendRecord_bytes == op_record(op)
        }),
{
}

/// Where no segment takes writes, the next one is opened for the record.
pub proof fn law_first_record_opens_a_segment(state: DiskView, op: LogOpView)
    requires
        state.active is None,
    ensures
        ({
            let steps = state.op_steps(op);
            &&& steps.len() == 2
            &&& steps[0] is OpenSegment
            &&& steps[1] is AppendRecord
            &&& steps[1]->AppendRecord_seq == steps[0]->OpenSegment_seq
            &&& steps[1]->AppendRecord_bytes == op_record(op)
        }),
{
}

/// A segment that is opened has a number above all there are.
pub proof fn law_segments_are_numbered_upwards(state: DiskView, i: int)
    requires
        state.wf(),
        state.last_seq() < u64::MAX,
    ensures
        0 <= i < state.segments.len() ==> state.next_seq() > state.segments[i].seq,
        state.active is Some ==> state.next_seq() > state.active->0.seq,
        state.active is None && state.segments.len() == 0 ==> state.next_seq() == 1,
{
    if 0 <= i < state.segments.len() - 1 {
        assert(state.segments[i].seq < state.segments[state.segments.len() - 1].seq);
    }
}

/// Collecting goes as far as it can: the first segment that stays is the one that
/// takes writes, or touches the snapshot's last index or one above.
pub proof fn law_gc_leaves_nothing_superfluous(state: DiskView, snapshot_index: u64)
    ensures
        ({
            let steps = state.gc_steps(snapshot_index);
            &&& steps.len() <= state.segments.len()
            &&& forall|i: int|
                0 <= i < steps.len() ==> (#[trigger] steps[i]) == (DiskActionView::RemoveSegment {
                    seq: state.segments[i].seq,
                }) && state.segments[i].max_index < snapshot_index
            &&& steps.len() < state.segments.len() ==> {
                let stays: SegmentIndex = state.segments[steps.len() as int];
                stays.max_index >= snapshot_index || (state.active is Some && state.active->0.seq
                    == stays.seq)
            }
        }),
    decreases state.segments.len(),
{
    if state.segments.len() > 0 && collectable(state.segments, state.active, snapshot_index) > 0 {
        let rest = DiskView { segments: state.segments.skip(1), ..state };
        law_gc_leaves_nothing_superfluous(rest, snapshot_index);
        let steps = state.gc_steps(snapshot_index);
        let fewer = rest.gc_steps(snapshot_index);
        assert(steps.len() == fewer.len() + 1);
        assert forall|i: int| 0 <= i < steps.len() implies (#[trigger] steps[i]) == (
        DiskActionView::RemoveSegment { seq: state.segments[i].seq })
            && state.segments[i].max_index < snapshot_index by {
            if i > 0 {
                assert(fewer[i - 1] == (DiskActionView::RemoveSegment {
                    seq: rest.segments[i - 1].seq,
                }));
            }
        }
    }
}

/// How many syncs steps cost: two for a file that is replaced, for it and for its
/// directory, one for a segment that is synced or closed, none for the rest.
pub open spec fn syncs_in(steps: Seq<DiskActionView>) -> nat
    decreases steps.len(),
{
    if steps.len() == 0 {
        0
    } else {
        syncs_in(steps.drop_last()) + match steps.last() {
            DiskActionView::WriteSnapshot { .. } => 2nat,
            DiskActionView::WriteHardState { .. } => 2nat,
            DiskActionView::Rotate { .. } => 1nat,
            DiskActionView::SyncSegment { .. } => 1nat,
            _ => 0nat,
        }
    }
}

/// Every sync is counted once.
pub proof fn law_every_sync_is_counted(state: DiskView, steps: Seq<DiskActionView>)
    requires
        state.syncs + syncs_in(steps) <= u64::MAX,
    ensures
        state.after_all(steps).syncs == state.syncs + syncs_in(steps),
    decreases steps.len(),
{
    if steps.len() > 0 {
        law_every_sync_is_counted(state, steps.drop_last());
    }
}

/// The backend knows how long the segment that takes writes is.
pub open spec fn length_is_known(state: DiskView, files: FilesView) -> bool {
    state.active is Some ==> files.segments.contains_key(state.active->0.seq)
        && files.segments[state.active->0.seq].len() == state.active->0.written
}

/// The backend keeps knowing how long the segment that takes writes is, whatever
/// step is done: so it is left for the next one by what its file holds.
pub proof fn law_length_of_the_active_segment_stays_known(
    state: DiskView,
    files: FilesView,
    step: DiskActionView,
)
    requires
        length_is_known(state, files),
        match step {
            DiskActionView::AppendRecord { seq, bytes, .. } => state.active is Some && seq
                == state.active->0.seq && state.active->0.written + bytes.len() <= u64::MAX,
            DiskActionView::RemoveSegment { seq } => state.active is Some ==> seq
                != state.active->0.seq,
            _ => true,
        },
    ensures
        length_is_known(state.after(step), files.done(step)),
        step is OpenSegment ==> state.after(step).active is Some && state.after(step).active->0.seq
            == step->OpenSegment_seq,
        step is Rotate ==> state.after(step).active is None,
{
}

/// The last segment that is found on startup, cut where its last whole record ends,
/// takes writes again, and the backend knows how long it is. The others take none.
pub proof fn law_last_segment_found_takes_writes(
    state: DiskView,
    files: FilesView,
    seq: u64,
    is_last: bool,
)
    requires
        files.segments.contains_key(seq),
        files.segments[seq].len() <= u64::MAX,
        decode_from(files.segments[seq], 0) is Ok,
    ensures
        ({
            let bytes = files.segments[seq];
            let (ops, valid_len) = decode_from(bytes, 0)->Ok_0;
            let after = state.loaded(seq, ops, valid_len as u64, is_last);
            let cut = FilesView {
                segments: files.segments.insert(seq, bytes.take(valid_len)),
                ..files
            };
            &&& is_last ==> after.active is Some && after.active->0.seq == seq && length_is_known(
                after,
                cut,
            )
            &&& !is_last ==> after.active == state.active
            &&& after.rotate_threshold == state.rotate_threshold
        }),
{
    lemma_clean_prefix(files.segments[seq], 0);
}

} // verus!
