//! What was written to disk is found again, whenever a crash comes.

use vstd::prelude::*;

use crate::error::StorageErrorView;
use crate::maps::{keys_in_order, lemma_u64_lt_total, u64_lt};
use crate::raft::log::max_u64;
use crate::raft::snapshot::SnapshotView;
use crate::raft::storage::disk::{
    collectable, law_gc_collects_a_prefix, law_gc_preserves_replay, lemma_after_all_add, max_of,
    max_touched, recovered_from, segment_ops, touched_by, upsert, DiskActionView, DiskView,
    SegmentIndex,
};
use crate::raft::storage::durability::{
    durable, law_restart_finds_the_node, stored_in, trimmed, DurableView,
};
use crate::raft::storage::hard_state::HardState;
use crate::raft::storage::memory::{law_commit_then_recover, MemoryView};
use crate::raft::storage::record::{
    decode_from, frame, law_hard_state_round_trip, law_records_round_trip, law_snapshot_round_trip,
    op_fits, op_record, op_records, ops_fit, payload_fits, snapshot_bytes, stored_hard_state,
    stored_snapshot, LogOpView, KIND_SNAPSHOT,
};
use crate::raft::storage::{replayed, BatchView, RecoveredView};
use crate::raft::NodeView;
use crate::seqs::{
    lemma_filter_prefix, lemma_filter_suffix, lemma_is_sorted_list, lists, strictly_sorted,
};

verus! {

// ── Files ───────────────────────────────────────────────────────────────────

/// The files of a node, with what is durable of them.
pub struct FilesView {
    pub hard_state: Option<Seq<u8>>,
    pub snapshot: Option<Seq<u8>>,
    pub segments: Map<u64, Seq<u8>>,
}

impl FilesView {
    /// No file is there yet.
    pub open spec fn none() -> FilesView {
        FilesView { hard_state: None, snapshot: None, segments: Map::empty() }
    }

    /// The files after a step was done.
    pub open spec fn done(self, step: DiskActionView) -> FilesView {
        match step {
            DiskActionView::WriteSnapshot { bytes } => FilesView { snapshot: Some(bytes), ..self },
            DiskActionView::WriteHardState { bytes } => FilesView {
                hard_state: Some(bytes),
                ..self
            },
            DiskActionView::RemoveSegment { seq } => FilesView {
                segments: self.segments.remove(seq),
                ..self
            },
            DiskActionView::OpenSegment { seq } => FilesView {
                segments: self.segments.insert(seq, Seq::empty()),
                ..self
            },
            DiskActionView::AppendRecord { seq, bytes, touched } => FilesView {
                segments: self.segments.insert(seq, self.segments[seq] + bytes),
                ..self
            },
            _ => self,
        }
    }

    /// The files after steps were done, one after another.
    pub open spec fn done_all(self, steps: Seq<DiskActionView>) -> FilesView
        decreases steps.len(),
    {
        if steps.len() == 0 {
            self
        } else {
            self.done_all(steps.drop_last()).done(steps.last())
        }
    }

    /// What a restart reads of the segments.
    pub open spec fn read(self, seqs: Seq<u64>) -> Seq<Seq<u8>> {
        Seq::new(seqs.len(), |i: int| self.segments[seqs[i]])
    }
}

impl DurableView {
    /// What is durable after a step was done.
    pub open spec fn advanced(self, step: DiskActionView) -> DurableView {
        match step {
            DiskActionView::WriteSnapshot { bytes } => DurableView {
                snapshot: stored_snapshot(bytes),
                ..self
            },
            DiskActionView::WriteHardState { bytes } => DurableView {
                hard_state: stored_hard_state(bytes)->0,
                ..self
            },
            DiskActionView::AppendRecord { seq, bytes, touched } => DurableView {
                ops: self.ops + decode_from(bytes, 0)->Ok_0.0,
                ..self
            },
            _ => self,
        }
    }

    /// What is durable after steps were done, one after another.
    pub open spec fn advanced_all(self, steps: Seq<DiskActionView>) -> DurableView
        decreases steps.len(),
    {
        if steps.len() == 0 {
            self
        } else {
            self.advanced_all(steps.drop_last()).advanced(steps.last())
        }
    }

    /// The state that a restart makes of what is durable.
    pub open spec fn recovered(self) -> Result<RecoveredView, StorageErrorView> {
        let boundary = match self.snapshot {
            Some(snapshot) => Some(snapshot.meta),
            None => None,
        };
        match replayed(self.ops, boundary) {
            Ok(log) => Ok(
                RecoveredView { hard_state: self.hard_state, log, snapshot: self.snapshot },
            ),
            Err(gap) => Err(StorageErrorView::Corruption { segment: None, offset: gap.actual }),
        }
    }

    /// Nothing is durable yet.
    pub open spec fn nothing() -> DurableView {
        DurableView { hard_state: HardState::initial(), ops: Seq::empty(), snapshot: None }
    }
}

/// A segment and the log mutations in it.
pub struct SegmentView {
    pub seq: u64,
    pub ops: Seq<LogOpView>,
}

/// The mutations of segments, one segment after another.
pub open spec fn ops_in(segs: Seq<SegmentView>) -> Seq<LogOpView>
    decreases segs.len(),
{
    if segs.len() == 0 {
        Seq::empty()
    } else {
        ops_in(segs.drop_last()) + segs.last().ops
    }
}

/// What the backend notes of a segment with records.
pub open spec fn noted(seg: SegmentView) -> SegmentIndex {
    SegmentIndex { seq: seg.seq, max_index: max_touched(seg.ops)->0 }
}

/// What the backend knows of the segments: those with records.
pub open spec fn known(segs: Seq<SegmentView>) -> Seq<SegmentIndex>
    decreases segs.len(),
{
    if segs.len() == 0 {
        Seq::empty()
    } else if segs.last().ops.len() == 0 {
        known(segs.drop_last())
    } else {
        known(segs.drop_last()).push(noted(segs.last()))
    }
}

/// The segments stand in ascending order, and their records fit.
pub open spec fn in_good_order(segs: Seq<SegmentView>) -> bool {
    &&& forall|i: int, j: int|
        0 <= i < j < segs.len() ==> (#[trigger] segs[i]).seq < (#[trigger] segs[j]).seq
    &&& forall|i: int| 0 <= i < segs.len() ==> ops_fit((#[trigger] segs[i]).ops)
}

/// The mutations lie wholly below the snapshot.
pub open spec fn below_snapshot(dropped: Seq<LogOpView>, snapshot: Option<SnapshotView>) -> bool {
    forall|i: int|
        0 <= i < dropped.len() ==> snapshot is Some && touched_by(#[trigger] dropped[i])
            < snapshot->0.meta.last_included_index
}

/// The files hold these segments, and what was dropped before them is covered by
/// the snapshot.
pub open spec fn holds_as(
    state: DiskView,
    files: FilesView,
    d: DurableView,
    segs: Seq<SegmentView>,
    dropped: Seq<LogOpView>,
) -> bool {
    &&& in_good_order(segs)
    &&& state.segments == known(segs)
    &&& state.active is Some ==> segs.len() > 0 && state.active->0.seq == segs.last().seq
    &&& forall|seq: u64| #[trigger]
        files.segments.contains_key(seq) <==> exists|i: int|
            0 <= i < segs.len() && (#[trigger] segs[i]).seq == seq
    &&& forall|i: int|
        0 <= i < segs.len() ==> files.segments[(#[trigger] segs[i]).seq] == op_records(segs[i].ops)
    &&& d.ops == dropped + ops_in(segs)
    &&& below_snapshot(dropped, d.snapshot)
    &&& match files.hard_state {
        None => d.hard_state == HardState::initial(),
        Some(bytes) => stored_hard_state(bytes) == Some(d.hard_state),
    }
    &&& match files.snapshot {
        None => d.snapshot is None,
        Some(bytes) => d.snapshot is Some && stored_snapshot(bytes) == d.snapshot,
    }
}

/// The files hold what is durable, and the backend knows them.
#[verifier::opaque]
pub open spec fn on_disk(state: DiskView, files: FilesView, d: DurableView) -> bool {
    exists|segs: Seq<SegmentView>, dropped: Seq<LogOpView>| #[trigger]
        holds_as(state, files, d, segs, dropped)
}

// ── One step ────────────────────────────────────────────────────────────────

/// No segment has this number or a higher one.
pub open spec fn is_new(files: FilesView, seq: u64) -> bool {
    forall|other: u64| #[trigger] files.segments.contains_key(other) ==> other < seq
}

/// The step goes with what the backend knows, with the files and with what is
/// durable.
pub open spec fn may_follow(
    state: DiskView,
    files: FilesView,
    d: DurableView,
    step: DiskActionView,
) -> bool {
    match step {
        DiskActionView::WriteSnapshot { bytes } => {
            &&& stored_snapshot(bytes) is Some
            &&& d.snapshot is Some ==> d.snapshot->0.meta.last_included_index
                <= stored_snapshot(bytes)->0.meta.last_included_index
        },
        DiskActionView::WriteHardState { bytes } => stored_hard_state(bytes) is Some,
        DiskActionView::RemoveSegment { seq } => {
            &&& state.segments.len() > 0
            &&& state.segments[0].seq == seq
            &&& d.snapshot is Some
            &&& state.segments[0].max_index < d.snapshot->0.meta.last_included_index
            &&& state.active is Some ==> state.active->0.seq != seq
        },
        DiskActionView::Rotate { seq } => true,
        DiskActionView::OpenSegment { seq } => state.active is None && is_new(files, seq),
        DiskActionView::AppendRecord { seq, bytes, touched } => {
            &&& state.active is Some
            &&& state.active->0.seq == seq
            &&& exists|op: LogOpView|
                op_fits(op) && touched == touched_by(op) && bytes == #[trigger] op_record(op)
        },
        DiskActionView::SyncSegment { seq } => true,
    }
}

proof fn lemma_ops_in_push(segs: Seq<SegmentView>, seg: SegmentView)
    ensures
        ops_in(segs.push(seg)) == ops_in(segs) + seg.ops,
        known(segs.push(seg)) == if seg.ops.len() == 0 {
            known(segs)
        } else {
            known(segs).push(noted(seg))
        },
{
    assert(segs.push(seg).drop_last() =~= segs);
}

/// The segments known are among the segments.
proof fn lemma_known_seqs(segs: Seq<SegmentView>)
    requires
        in_good_order(segs),
    ensures
        forall|i: int|
            0 <= i < known(segs).len() ==> exists|j: int|
                0 <= j < segs.len() && (#[trigger] segs[j]).ops.len() > 0 && noted(segs[j])
                    == #[trigger] known(segs)[i],
        forall|i: int, j: int|
            0 <= i < j < known(segs).len() ==> (#[trigger] known(segs)[i]).seq < (
            #[trigger] known(segs)[j]).seq,
        forall|i: int|
            0 <= i < known(segs).len() ==> (#[trigger] known(segs)[i]).seq <= segs.last().seq,
        segs.len() > 0 && segs.last().ops.len() == 0 ==> forall|i: int|
            0 <= i < known(segs).len() ==> (#[trigger] known(segs)[i]).seq < segs.last().seq,
    decreases segs.len(),
{
    if segs.len() > 0 {
        let before = segs.drop_last();
        let last = segs[segs.len() - 1];
        lemma_order_prefix(segs);
        lemma_known_seqs(before);
        let all = known(segs);
        let rest = known(before);
        assert forall|i: int| 0 <= i < rest.len() implies (#[trigger] rest[i]).seq < last.seq by {
            assert(segs[before.len() - 1].seq < segs[segs.len() - 1].seq);
        }
        assert forall|i: int| 0 <= i < all.len() implies exists|j: int|
            0 <= j < segs.len() && (#[trigger] segs[j]).ops.len() > 0 && noted(segs[j])
                == #[trigger] all[i] by {
            if i < rest.len() {
                assert(all[i] == rest[i]);
                let j = choose|j: int|
                    0 <= j < before.len() && (#[trigger] before[j]).ops.len() > 0 && noted(
                        before[j],
                    ) == rest[i];
                assert(segs[j] == before[j]);
            } else {
                assert(noted(segs[segs.len() - 1]) == all[i]);
            }
        }
        assert forall|i: int, j: int| 0 <= i < j < all.len() implies (#[trigger] all[i]).seq < (
        #[trigger] all[j]).seq by {
            assert(all[i] == rest[i]);
            if j < rest.len() {
                assert(all[j] == rest[j]);
            }
        }
        assert forall|i: int| 0 <= i < all.len() implies (#[trigger] all[i]).seq
            <= segs.last().seq by {
            if i < rest.len() {
                assert(all[i] == rest[i]);
            }
        }
    }
}

proof fn lemma_order_prefix(segs: Seq<SegmentView>)
    requires
        in_good_order(segs),
        segs.len() > 0,
    ensures
        in_good_order(segs.drop_last()),
{
    let before = segs.drop_last();
    assert forall|i: int, j: int| 0 <= i < j < before.len() implies (#[trigger] before[i]).seq < (
    #[trigger] before[j]).seq by {
        assert(segs[i].seq < segs[j].seq);
    }
    assert forall|i: int| 0 <= i < before.len() implies ops_fit((#[trigger] before[i]).ops) by {
        assert(before[i] == segs[i]);
    }
}

/// The first segment known, and what is left without it.
proof fn lemma_first_known(segs: Seq<SegmentView>) -> (j: int)
    requires
        known(segs).len() > 0,
    ensures
        0 <= j < segs.len(),
        segs[j].ops.len() > 0,
        known(segs)[0] == noted(segs[j]),
        known(segs.remove(j)) == known(segs).skip(1),
        ops_in(segs) == segs[j].ops + ops_in(segs.remove(j)),
        ops_in(segs.take(j)).len() == 0,
    decreases segs.len(),
{
    let before = segs.drop_last();
    let last = segs[segs.len() - 1];
    assert(segs =~= before.push(last));
    lemma_ops_in_push(before, last);
    if known(before).len() > 0 {
        let j = lemma_first_known(before);
        assert(segs.remove(j) =~= before.remove(j).push(last));
        lemma_ops_in_push(before.remove(j), last);
        assert(known(segs).skip(1) =~= known(segs.remove(j)));
        assert(ops_in(segs) =~= segs[j].ops + ops_in(segs.remove(j)));
        assert(segs.take(j) =~= before.take(j));
        j
    } else {
        let j = segs.len() - 1;
        lemma_none_known(before);
        assert(segs.remove(j) =~= before);
        assert(known(segs).skip(1) =~= known(before));
        assert(ops_in(segs) =~= segs[j].ops + ops_in(before));
        assert(segs.take(j) =~= before);
        j
    }
}

proof fn lemma_none_known(segs: Seq<SegmentView>)
    requires
        known(segs).len() == 0,
    ensures
        ops_in(segs).len() == 0,
    decreases segs.len(),
{
    if segs.len() > 0 {
        lemma_none_known(segs.drop_last());
    }
}

proof fn lemma_max_touched(ops: Seq<LogOpView>)
    ensures
        ops.len() > 0 <==> max_touched(ops) is Some,
        forall|i: int| 0 <= i < ops.len() ==> touched_by(#[trigger] ops[i]) <= max_touched(ops)->0,
    decreases ops.len(),
{
    if ops.len() > 0 {
        let before = ops.drop_last();
        lemma_max_touched(before);
        assert forall|i: int| 0 <= i < ops.len() implies touched_by(#[trigger] ops[i])
            <= max_touched(ops)->0 by {
            if i < before.len() {
                assert(before[i] == ops[i]);
            }
        }
    }
}

/// Where a segment is not listed, nothing is known of it.
proof fn lemma_max_of(segments: Seq<SegmentIndex>, seq: u64)
    ensures
        (forall|i: int| 0 <= i < segments.len() ==> (#[trigger] segments[i]).seq != seq) ==> max_of(
            segments,
            seq,
        ) == 0,
        segments.len() > 0 && segments.last().seq == seq ==> max_of(segments, seq)
            == segments.last().max_index,
    decreases segments.len(),
{
    if segments.len() > 0 {
        let before = segments.drop_last();
        lemma_max_of(before, seq);
        if forall|i: int| 0 <= i < segments.len() ==> (#[trigger] segments[i]).seq != seq {
            assert(segments[segments.len() - 1].seq != seq);
            assert forall|i: int| 0 <= i < before.len() implies (#[trigger] before[i]).seq
                != seq by {
                assert(before[i] == segments[i]);
            }
        }
    }
}

/// Putting a segment behind all that are listed.
proof fn lemma_upsert_behind(segments: Seq<SegmentIndex>, seq: u64, max_index: u64)
    requires
        forall|i: int| 0 <= i < segments.len() ==> (#[trigger] segments[i]).seq < seq,
    ensures
        upsert(segments, seq, max_index) == segments.push(SegmentIndex { seq, max_index }),
{
    let n = segments.len() as int;
    lemma_filter_prefix(segments, |s: SegmentIndex| s.seq < seq, n);
    lemma_filter_suffix(segments, |s: SegmentIndex| s.seq > seq, n);
    assert(segments.take(n) =~= segments);
    assert(upsert(segments, seq, max_index) =~= segments.push(SegmentIndex { seq, max_index }));
}

/// Putting a segment in the place of the last one listed.
proof fn lemma_upsert_last(segments: Seq<SegmentIndex>, seq: u64, max_index: u64)
    requires
        segments.len() > 0,
        segments.last().seq == seq,
        forall|i: int| 0 <= i < segments.len() - 1 ==> (#[trigger] segments[i]).seq < seq,
    ensures
        upsert(segments, seq, max_index) == segments.drop_last().push(
            SegmentIndex { seq, max_index },
        ),
{
    let n = segments.len() as int;
    lemma_filter_prefix(segments, |s: SegmentIndex| s.seq < seq, n - 1);
    lemma_filter_suffix(segments, |s: SegmentIndex| s.seq > seq, n);
    assert(upsert(segments, seq, max_index) =~= segments.drop_last().push(
        SegmentIndex { seq, max_index },
    ));
}

/// A step that goes with what is durable keeps the files in order.
proof fn lemma_step(state: DiskView, files: FilesView, d: DurableView, step: DiskActionView)
    requires
        on_disk(state, files, d),
        may_follow(state, files, d, step),
    ensures
        on_disk(state.after(step), files.done(step), d.advanced(step)),
{
    reveal(on_disk);
    let (segs, dropped) = choose|segs: Seq<SegmentView>, dropped: Seq<LogOpView>| #[trigger]
        holds_as(state, files, d, segs, dropped);
    let state2 = state.after(step);
    let files2 = files.done(step);
    let d2 = d.advanced(step);
    match step {
        DiskActionView::RemoveSegment { seq } => {
            lemma_remove(state, files, d, segs, dropped, seq);
        },
        DiskActionView::OpenSegment { seq } => {
            lemma_open(state, files, d, segs, dropped, seq);
        },
        DiskActionView::AppendRecord { seq, bytes, touched } => {
            let op = choose|op: LogOpView|
                op_fits(op) && touched == touched_by(op) && bytes == #[trigger] op_record(op);
            lemma_append(state, files, d, segs, dropped, op);
        },
        _ => {
            assert(holds_as(state2, files2, d2, segs, dropped));
        },
    }
}

proof fn lemma_open(
    state: DiskView,
    files: FilesView,
    d: DurableView,
    segs: Seq<SegmentView>,
    dropped: Seq<LogOpView>,
    seq: u64,
)
    requires
        holds_as(state, files, d, segs, dropped),
        is_new(files, seq),
    ensures
        on_disk(
            state.after(DiskActionView::OpenSegment { seq }),
            files.done(DiskActionView::OpenSegment { seq }),
            d,
        ),
{
    reveal(on_disk);
    let state2 = state.after(DiskActionView::OpenSegment { seq });
    let files2 = files.done(DiskActionView::OpenSegment { seq });
    let more = segs.push(SegmentView { seq, ops: Seq::empty() });
    lemma_ops_in_push(segs, SegmentView { seq, ops: Seq::empty() });
    assert(ops_in(more) =~= ops_in(segs));
    assert forall|i: int| 0 <= i < segs.len() implies (#[trigger] segs[i]).seq < seq by {
        assert(files.segments.contains_key(segs[i].seq));
    }
    assert(in_good_order(more)) by {
        assert forall|i: int, j: int| 0 <= i < j < more.len() implies (#[trigger] more[i]).seq < (
        #[trigger] more[j]).seq by {
            assert(more[i] == segs[i]);
            if j < segs.len() {
                assert(more[j] == segs[j]);
            }
        }
        assert forall|i: int| 0 <= i < more.len() implies ops_fit((#[trigger] more[i]).ops) by {
            if i < segs.len() {
                assert(more[i] == segs[i]);
            }
        }
    }
    assert(op_records(Seq::<LogOpView>::empty()) =~= Seq::<u8>::empty());
    assert forall|s: u64| #[trigger] files2.segments.contains_key(s) <==> exists|i: int|
        0 <= i < more.len() && (#[trigger] more[i]).seq == s by {
        if files2.segments.contains_key(s) {
            if s == seq {
                assert(more[segs.len() as int].seq == s);
            } else {
                let i = choose|i: int| 0 <= i < segs.len() && (#[trigger] segs[i]).seq == s;
                assert(more[i].seq == s);
            }
        }
        if exists|i: int| 0 <= i < more.len() && (#[trigger] more[i]).seq == s {
            let i = choose|i: int| 0 <= i < more.len() && (#[trigger] more[i]).seq == s;
            if i < segs.len() {
                assert(segs[i].seq == s);
            }
        }
    }
    assert forall|i: int| 0 <= i < more.len() implies files2.segments[(#[trigger] more[i]).seq]
        == op_records(more[i].ops) by {
        if i < segs.len() {
            assert(more[i] == segs[i]);
        }
    }
    assert(holds_as(state2, files2, d, more, dropped));
}

proof fn lemma_remove(
    state: DiskView,
    files: FilesView,
    d: DurableView,
    segs: Seq<SegmentView>,
    dropped: Seq<LogOpView>,
    seq: u64,
)
    requires
        holds_as(state, files, d, segs, dropped),
        may_follow(state, files, d, DiskActionView::RemoveSegment { seq }),
    ensures
        on_disk(
            state.after(DiskActionView::RemoveSegment { seq }),
            files.done(DiskActionView::RemoveSegment { seq }),
            d,
        ),
{
    reveal(on_disk);
    let state2 = state.after(DiskActionView::RemoveSegment { seq });
    let files2 = files.done(DiskActionView::RemoveSegment { seq });
    let at = lemma_first_known(segs);
    let rest = segs.remove(at);
    let gone = segs[at].ops;
    lemma_known_seqs(segs);
    assert forall|i: int| 1 <= i < state.segments.len() implies (
    #[trigger] state.segments[i]).seq != seq by {
        assert(known(segs)[0].seq < known(segs)[i].seq);
    }
    lemma_filter_suffix(state.segments, |s: SegmentIndex| s.seq != seq, 1);
    assert(state2.segments == known(rest));
    assert(dropped + ops_in(segs) =~= (dropped + gone) + ops_in(rest));
    lemma_max_touched(gone);
    assert(below_snapshot(dropped + gone, d.snapshot)) by {
        assert forall|i: int| 0 <= i < (dropped + gone).len() implies d.snapshot is Some
            && touched_by(#[trigger] (dropped + gone)[i])
            < d.snapshot->0.meta.last_included_index by {
            if i >= dropped.len() {
                assert((dropped + gone)[i] == gone[i - dropped.len()]);
            } else {
                assert((dropped + gone)[i] == dropped[i]);
            }
        }
    }
    assert forall|i: int| 0 <= i < rest.len() implies #[trigger] rest[i] == segs[if i < at {
        i
    } else {
        i + 1
    }] by {}
    assert(in_good_order(rest)) by {
        assert forall|i: int, j: int| 0 <= i < j < rest.len() implies (#[trigger] rest[i]).seq < (
        #[trigger] rest[j]).seq by {
            let a = if i < at {
                i
            } else {
                i + 1
            };
            let b = if j < at {
                j
            } else {
                j + 1
            };
            assert(segs[a].seq < segs[b].seq);
        }
    }
    if state.active is Some {
        assert(segs[segs.len() - 1] == segs.last());
        assert(at != segs.len() - 1);
        assert(rest.last() == segs.last());
    }
    assert forall|s: u64| #[trigger] files2.segments.contains_key(s) <==> exists|i: int|
        0 <= i < rest.len() && (#[trigger] rest[i]).seq == s by {
        if files2.segments.contains_key(s) {
            let i = choose|i: int| 0 <= i < segs.len() && (#[trigger] segs[i]).seq == s;
            assert(i != at);
            let k = if i < at {
                i
            } else {
                i - 1
            };
            assert(rest[k].seq == s);
        }
        if exists|i: int| 0 <= i < rest.len() && (#[trigger] rest[i]).seq == s {
            let i = choose|i: int| 0 <= i < rest.len() && (#[trigger] rest[i]).seq == s;
            let k = if i < at {
                i
            } else {
                i + 1
            };
            assert(segs[k].seq == s);
            lemma_apart(segs, k, at);
        }
    }
    assert forall|i: int| 0 <= i < rest.len() implies files2.segments[(#[trigger] rest[i]).seq]
        == op_records(rest[i].ops) by {
        let k = if i < at {
            i
        } else {
            i + 1
        };
        assert(rest[i] == segs[k]);
        lemma_apart(segs, k, at);
    }
    assert(holds_as(state2, files2, d, rest, dropped + gone));
}

/// No two segments have the same number.
proof fn lemma_apart(segs: Seq<SegmentView>, i: int, j: int)
    requires
        in_good_order(segs),
        0 <= i < segs.len(),
        0 <= j < segs.len(),
        i != j,
    ensures
        segs[i].seq != segs[j].seq,
{
    if i < j {
        assert(segs[i].seq < segs[j].seq);
    } else {
        assert(segs[j].seq < segs[i].seq);
    }
}

proof fn lemma_append(
    state: DiskView,
    files: FilesView,
    d: DurableView,
    segs: Seq<SegmentView>,
    dropped: Seq<LogOpView>,
    op: LogOpView,
)
    requires
        holds_as(state, files, d, segs, dropped),
        state.active is Some,
        op_fits(op),
    ensures
        ({
            let step = DiskActionView::AppendRecord {
                seq: state.active->0.seq,
                bytes: op_record(op),
                touched: touched_by(op),
            };
            on_disk(state.after(step), files.done(step), d.advanced(step)) && d.advanced(step)
                == (DurableView { ops: d.ops.push(op), ..d })
        }),
{
    reveal(on_disk);
    let seq = state.active->0.seq;
    let step = DiskActionView::AppendRecord {
        seq,
        bytes: op_record(op),
        touched: touched_by(op),
    };
    let state2 = state.after(step);
    let files2 = files.done(step);
    let d2 = d.advanced(step);
    let before = segs.drop_last();
    let last = segs.last();
    let grown = SegmentView { seq, ops: last.ops.push(op) };
    let more = before.push(grown);
    assert(segs =~= before.push(last));
    // What is durable.
    assert(op_records(seq![op]) =~= op_record(op)) by {
        assert(seq![op].drop_last() =~= Seq::<LogOpView>::empty());
        assert(op_records(Seq::<LogOpView>::empty()) =~= Seq::<u8>::empty());
    }
    law_records_round_trip(seq![op]);
    assert(d.ops + seq![op] =~= d.ops.push(op));
    lemma_ops_in_push(before, last);
    lemma_ops_in_push(before, grown);
    assert(ops_in(more) =~= ops_in(segs).push(op));
    assert(d2.ops =~= dropped + ops_in(more));
    // What is known.
    assert(grown.ops.drop_last() =~= last.ops);
    let max = max_u64(max_of(state.segments, seq), touched_by(op));
    lemma_max_of(state.segments, seq);
    lemma_max_touched(last.ops);
    lemma_order_prefix(segs);
    lemma_known_seqs(before);
    let rest = known(before);
    assert forall|i: int| 0 <= i < rest.len() implies (#[trigger] rest[i]).seq < seq by {
        assert(segs[before.len() - 1].seq < segs[segs.len() - 1].seq);
        assert(before.last() == segs[before.len() - 1]);
    }
    if last.ops.len() == 0 {
        lemma_upsert_behind(state.segments, seq, max);
    } else {
        assert(state.segments == rest.push(noted(last)));
        assert forall|i: int| 0 <= i < state.segments.len() - 1 implies (
        #[trigger] state.segments[i]).seq < seq by {
            assert(state.segments[i] == rest[i]);
        }
        lemma_upsert_last(state.segments, seq, max);
        assert(state.segments.drop_last() =~= rest);
    }
    assert(max_touched(grown.ops) == Some(max));
    assert(known(more) == state2.segments);
    // What is stored.
    assert(op_records(grown.ops) == op_records(last.ops) + op_record(op));
    assert(in_good_order(more)) by {
        assert forall|i: int, j: int| 0 <= i < j < more.len() implies (#[trigger] more[i]).seq < (
        #[trigger] more[j]).seq by {
            assert(segs[i].seq < segs[j].seq);
        }
        assert forall|i: int| 0 <= i < more.len() implies ops_fit((#[trigger] more[i]).ops) by {
            if i < before.len() {
                assert(more[i] == segs[i]);
            } else {
                assert(ops_fit(segs[i].ops));
                assert(more[i] == grown);
            }
        }
    }
    assert forall|s: u64| #[trigger] files2.segments.contains_key(s) <==> exists|i: int|
        0 <= i < more.len() && (#[trigger] more[i]).seq == s by {
        assert(files.segments.contains_key(segs[segs.len() - 1].seq));
        if files2.segments.contains_key(s) {
            let i = choose|i: int| 0 <= i < segs.len() && (#[trigger] segs[i]).seq == s;
            assert(more[i].seq == s);
        }
        if exists|i: int| 0 <= i < more.len() && (#[trigger] more[i]).seq == s {
            let i = choose|i: int| 0 <= i < more.len() && (#[trigger] more[i]).seq == s;
            assert(segs[i].seq == s);
        }
    }
    assert forall|i: int| 0 <= i < more.len() implies files2.segments[(#[trigger] more[i]).seq]
        == op_records(more[i].ops) by {
        if i < before.len() {
            assert(more[i] == segs[i]);
            assert(segs[i].seq < segs[segs.len() - 1].seq);
        } else {
            assert(files.segments[segs[segs.len() - 1].seq] == op_records(last.ops));
        }
    }
    assert(holds_as(state2, files2, d2, more, dropped));
}

// ── Plans ───────────────────────────────────────────────────────────────────

/// Each step goes with what the steps before it leave.
#[verifier::opaque]
pub open spec fn follow_each_other(
    state: DiskView,
    files: FilesView,
    d: DurableView,
    steps: Seq<DiskActionView>,
) -> bool {
    forall|k: int|
        0 <= k < steps.len() ==> may_follow(
            state.after_all(steps.take(k)),
            files.done_all(steps.take(k)),
            d.advanced_all(steps.take(k)),
            #[trigger] steps[k],
        )
}

proof fn lemma_steps(
    state: DiskView,
    files: FilesView,
    d: DurableView,
    steps: Seq<DiskActionView>,
    k: int,
)
    requires
        on_disk(state, files, d),
        follow_each_other(state, files, d, steps),
        0 <= k <= steps.len(),
    ensures
        on_disk(
            state.after_all(steps.take(k)),
            files.done_all(steps.take(k)),
            d.advanced_all(steps.take(k)),
        ),
    decreases k,
{
    reveal(follow_each_other);
    if k == 0 {
        assert(steps.take(0) =~= Seq::empty());
    } else {
        lemma_steps(state, files, d, steps, k - 1);
        assert(steps.take(k).drop_last() =~= steps.take(k - 1));
        assert(steps.take(k).last() == steps[k - 1]);
        lemma_step(
            state.after_all(steps.take(k - 1)),
            files.done_all(steps.take(k - 1)),
            d.advanced_all(steps.take(k - 1)),
            steps[k - 1],
        );
    }
}

proof fn lemma_advanced_add(d: DurableView, a: Seq<DiskActionView>, b: Seq<DiskActionView>)
    ensures
        d.advanced_all(a + b) == d.advanced_all(a).advanced_all(b),
    decreases b.len(),
{
    if b.len() == 0 {
        assert(a + b =~= a);
    } else {
        lemma_advanced_add(d, a, b.drop_last());
        assert((a + b).drop_last() =~= a + b.drop_last());
        assert((a + b).last() == b.last());
    }
}

proof fn lemma_done_add(files: FilesView, a: Seq<DiskActionView>, b: Seq<DiskActionView>)
    ensures
        files.done_all(a + b) == files.done_all(a).done_all(b),
    decreases b.len(),
{
    if b.len() == 0 {
        assert(a + b =~= a);
    } else {
        lemma_done_add(files, a, b.drop_last());
        assert((a + b).drop_last() =~= a + b.drop_last());
        assert((a + b).last() == b.last());
    }
}

proof fn lemma_follow_on(
    state: DiskView,
    files: FilesView,
    d: DurableView,
    a: Seq<DiskActionView>,
    b: Seq<DiskActionView>,
)
    requires
        follow_each_other(state, files, d, a),
        follow_each_other(state.after_all(a), files.done_all(a), d.advanced_all(a), b),
    ensures
        follow_each_other(state, files, d, a + b),
{
    reveal(follow_each_other);
    assert forall|k: int| 0 <= k < (a + b).len() implies may_follow(
        state.after_all((a + b).take(k)),
        files.done_all((a + b).take(k)),
        d.advanced_all((a + b).take(k)),
        #[trigger] (a + b)[k],
    ) by {
        if k < a.len() {
            assert((a + b).take(k) =~= a.take(k));
            assert((a + b)[k] == a[k]);
        } else {
            let j = k - a.len();
            assert((a + b).take(k) =~= a + b.take(j));
            assert((a + b)[k] == b[j]);
            lemma_after_all_add(state, a, b.take(j));
            lemma_done_add(files, a, b.take(j));
            lemma_advanced_add(d, a, b.take(j));
        }
    }
}

proof fn lemma_follow_none(state: DiskView, files: FilesView, d: DurableView)
    ensures
        follow_each_other(state, files, d, Seq::empty()),
        state.after_all(Seq::empty()) == state,
        files.done_all(Seq::empty()) == files,
        d.advanced_all(Seq::empty()) == d,
{
    reveal(follow_each_other);
}

proof fn lemma_follow_one(
    state: DiskView,
    files: FilesView,
    d: DurableView,
    step: DiskActionView,
)
    requires
        may_follow(state, files, d, step),
    ensures
        follow_each_other(state, files, d, seq![step]),
        state.after_all(seq![step]) == state.after(step),
        files.done_all(seq![step]) == files.done(step),
        d.advanced_all(seq![step]) == d.advanced(step),
{
    reveal(follow_each_other);
    let empty = Seq::<DiskActionView>::empty();
    assert(seq![step].drop_last() =~= empty);
    assert(seq![step].take(0) =~= empty);
    assert(state.after_all(empty) == state);
    assert(files.done_all(empty) == files);
    assert(d.advanced_all(empty) == d);
}

/// Two plans, one after the other, on files that are in order.
proof fn lemma_both(
    state: DiskView,
    files: FilesView,
    d: DurableView,
    a: Seq<DiskActionView>,
    b: Seq<DiskActionView>,
)
    requires
        follow_each_other(state, files, d, a),
        follow_each_other(state.after_all(a), files.done_all(a), d.advanced_all(a), b),
    ensures
        follow_each_other(state, files, d, a + b),
        state.after_all(a + b) == state.after_all(a).after_all(b),
        files.done_all(a + b) == files.done_all(a).done_all(b),
        d.advanced_all(a + b) == d.advanced_all(a).advanced_all(b),
{
    lemma_follow_on(state, files, d, a, b);
    lemma_after_all_add(state, a, b);
    lemma_done_add(files, a, b);
    lemma_advanced_add(d, a, b);
}

/// A plan that is carried out whole.
proof fn lemma_all_steps(
    state: DiskView,
    files: FilesView,
    d: DurableView,
    steps: Seq<DiskActionView>,
)
    requires
        on_disk(state, files, d),
        follow_each_other(state, files, d, steps),
    ensures
        on_disk(state.after_all(steps), files.done_all(steps), d.advanced_all(steps)),
{
    lemma_steps(state, files, d, steps, steps.len() as int);
    assert(steps.take(steps.len() as int) =~= steps);
}

/// Between two commits some segment takes writes, unless there is none at all.
pub open spec fn settled(state: DiskView, files: FilesView) -> bool {
    state.active is None ==> forall|seq: u64| !#[trigger] files.segments.contains_key(seq)
}

/// The number of the next segment is a new one.
proof fn lemma_next_is_new(state: DiskView, files: FilesView, d: DurableView)
    requires
        on_disk(state, files, d),
        settled(state, files),
        state.next_seq() < u64::MAX,
    ensures
        is_new(files, state.next_seq()),
{
    reveal(on_disk);
    let (segs, dropped) = choose|segs: Seq<SegmentView>, dropped: Seq<LogOpView>| #[trigger]
        holds_as(state, files, d, segs, dropped);
    assert forall|other: u64| #[trigger] files.segments.contains_key(other) implies other
        < state.next_seq() by {
        let i = choose|i: int| 0 <= i < segs.len() && (#[trigger] segs[i]).seq == other;
        assert(segs[segs.len() - 1] == segs.last());
        if i < segs.len() - 1 {
            assert(segs[i].seq < segs[segs.len() - 1].seq);
        }
    }
}

/// The step that appends a record.
pub open spec fn append_of(state: DiskView, op: LogOpView) -> DiskActionView {
    DiskActionView::AppendRecord {
        seq: state.active->0.seq,
        bytes: op_record(op),
        touched: touched_by(op),
    }
}

/// A record is appended.
proof fn lemma_appended(state: DiskView, files: FilesView, d: DurableView, op: LogOpView)
    requires
        on_disk(state, files, d),
        state.active is Some,
        op_fits(op),
    ensures
        ({
            let step = append_of(state, op);
            &&& follow_each_other(state, files, d, seq![step])
            &&& d.advanced_all(seq![step]) == (DurableView { ops: d.ops.push(op), ..d })
            &&& state.after_all(seq![step]).active is Some
            &&& state.after_all(seq![step]).last_seq() <= state.active->0.seq
        }),
{
    reveal(on_disk);
    let (segs, dropped) = choose|segs: Seq<SegmentView>, dropped: Seq<LogOpView>| #[trigger]
        holds_as(state, files, d, segs, dropped);
    let step = append_of(state, op);
    lemma_append(state, files, d, segs, dropped, op);
    assert(may_follow(state, files, d, step));
    lemma_follow_one(state, files, d, step);
    lemma_step(state, files, d, step);
    lemma_listed(state.after(step), files.done(step), d.advanced(step));
}

/// No segment that is listed is above the active one.
proof fn lemma_listed(state: DiskView, files: FilesView, d: DurableView)
    requires
        on_disk(state, files, d),
    ensures
        state.wf(),
        state.active is Some ==> state.last_seq() == state.active->0.seq,
{
    reveal(on_disk);
    let (segs, dropped) = choose|segs: Seq<SegmentView>, dropped: Seq<LogOpView>| #[trigger]
        holds_as(state, files, d, segs, dropped);
    lemma_known_seqs(segs);
}

/// What precedes the record of a log mutation.
proof fn lemma_made_ready(state: DiskView, files: FilesView, d: DurableView, op: LogOpView) -> (
    pre: Seq<DiskActionView>)
    requires
        on_disk(state, files, d),
        settled(state, files),
        state.next_seq() < u64::MAX,
    ensures
        follow_each_other(state, files, d, pre),
        d.advanced_all(pre) == d,
        on_disk(state.after_all(pre), files.done_all(pre), d),
        state.after_all(pre).active is Some,
        state.after_all(pre).active->0.seq <= state.next_seq(),
        state.op_steps(op) == pre + seq![append_of(state.after_all(pre), op)],
{
    let next = state.next_seq();
    lemma_next_is_new(state, files, d);
    let open = DiskActionView::OpenSegment { seq: next };
    if state.must_rotate(op_record(op).len()) {
        let rotate = DiskActionView::Rotate { seq: state.active->0.seq };
        lemma_follow_one(state, files, d, rotate);
        lemma_step(state, files, d, rotate);
        let s1 = state.after(rotate);
        lemma_follow_one(s1, files, d, open);
        lemma_step(s1, files, d, open);
        lemma_both(state, files, d, seq![rotate], seq![open]);
        let pre = seq![rotate] + seq![open];
        assert(state.op_steps(op) =~= pre + seq![append_of(state.after_all(pre), op)]);
        pre
    } else if state.active is None {
        lemma_follow_one(state, files, d, open);
        lemma_step(state, files, d, open);
        let pre = seq![open];
        assert(state.op_steps(op) =~= pre + seq![append_of(state.after_all(pre), op)]);
        pre
    } else {
        let pre = Seq::<DiskActionView>::empty();
        lemma_follow_none(state, files, d);
        lemma_listed(state, files, d);
        assert(state.op_steps(op) =~= pre + seq![append_of(state.after_all(pre), op)]);
        pre
    }
}

/// The steps for one log mutation.
proof fn lemma_op_steps(state: DiskView, files: FilesView, d: DurableView, op: LogOpView)
    requires
        on_disk(state, files, d),
        settled(state, files),
        op_fits(op),
        state.next_seq() < u64::MAX,
    ensures
        follow_each_other(state, files, d, state.op_steps(op)),
        d.advanced_all(state.op_steps(op)) == (DurableView { ops: d.ops.push(op), ..d }),
        state.after_all(state.op_steps(op)).next_seq() <= state.next_seq() + 1,
        state.after_all(state.op_steps(op)).active is Some,
{
    let pre = lemma_made_ready(state, files, d, op);
    let ready = state.after_all(pre);
    lemma_appended(ready, files.done_all(pre), d, op);
    lemma_both(state, files, d, pre, seq![append_of(ready, op)]);
}

/// The steps for log mutations.
proof fn lemma_log_steps(
    state: DiskView,
    files: FilesView,
    d: DurableView,
    ops: Seq<LogOpView>,
)
    requires
        on_disk(state, files, d),
        settled(state, files),
        ops_fit(ops),
        state.next_seq() + ops.len() < u64::MAX,
    ensures
        follow_each_other(state, files, d, state.log_steps(ops)),
        d.advanced_all(state.log_steps(ops)) == (DurableView { ops: d.ops + ops, ..d }),
        state.after_all(state.log_steps(ops)).next_seq() <= state.next_seq() + ops.len(),
        settled(
            state.after_all(state.log_steps(ops)),
            files.done_all(state.log_steps(ops)),
        ),
    decreases ops.len(),
{
    if ops.len() == 0 {
        lemma_follow_none(state, files, d);
        assert(d.ops + ops =~= d.ops);
    } else {
        let fewer = ops.drop_last();
        let op = ops[ops.len() - 1];
        assert forall|i: int| 0 <= i < fewer.len() implies op_fits(#[trigger] fewer[i]) by {
            assert(op_fits(ops[i]));
        }
        assert(op_fits(op));
        lemma_log_steps(state, files, d, fewer);
        let earlier = state.log_steps(fewer);
        let mid = state.after_all(earlier);
        let mid_d = d.advanced_all(earlier);
        lemma_all_steps(state, files, d, earlier);
        lemma_op_steps(mid, files.done_all(earlier), mid_d, op);
        lemma_both(state, files, d, earlier, mid.op_steps(op));
        assert((d.ops + fewer).push(op) =~= d.ops + ops);
    }
}

/// The steps that collect what a snapshot made superfluous.
proof fn lemma_gc_steps(state: DiskView, files: FilesView, d: DurableView, k: nat)
    requires
        on_disk(state, files, d),
        d.snapshot is Some,
        k <= collectable(state.segments, state.active, d.snapshot->0.meta.last_included_index),
    ensures
        ({
            let steps = state.gc_steps(d.snapshot->0.meta.last_included_index).take(k as int);
            &&& follow_each_other(state, files, d, steps)
            &&& d.advanced_all(steps) == d
            &&& state.after_all(steps) == (DiskView {
                segments: state.segments.skip(k as int),
                ..state
            })
            &&& forall|seq: u64| #[trigger]
                files.done_all(steps).segments.contains_key(seq) ==> files.segments.contains_key(
                    seq,
                )
        }),
    decreases k,
{
    let index = d.snapshot->0.meta.last_included_index;
    let all = state.gc_steps(index);
    if k == 0 {
        lemma_follow_none(state, files, d);
        assert(all.take(0) =~= Seq::empty());
        assert(state.segments.skip(0) =~= state.segments);
    } else {
        let before = all.take(k - 1);
        lemma_gc_steps(state, files, d, (k - 1) as nat);
        law_gc_collects_a_prefix(state, index, k - 1);
        lemma_all_steps(state, files, d, before);
        let mid = state.after_all(before);
        let mid_files = files.done_all(before);
        let step = all[k - 1];
        let seq = state.segments[k - 1].seq;
        assert(step == DiskActionView::RemoveSegment { seq });
        assert(mid.segments[0] == state.segments[k - 1]);
        assert(may_follow(mid, mid_files, d, step));
        lemma_follow_one(mid, mid_files, d, step);
        lemma_both(state, files, d, before, seq![step]);
        assert(all.take(k as int) =~= before + seq![step]);
        lemma_listed(mid, mid_files, d);
        lemma_filter_suffix(mid.segments, |s: SegmentIndex| s.seq != seq, 1);
        assert(mid.segments.skip(1) =~= state.segments.skip(k as int));
    }
}

#[verifier::rlimit(40)]
proof fn lemma_snapshot_steps(
    state: DiskView,
    files: FilesView,
    d: DurableView,
    snapshot: Option<SnapshotView>,
)
    requires
        on_disk(state, files, d),
        settled(state, files),
        snapshot is Some ==> {
            &&& payload_fits(snapshot_bytes(snapshot->0))
            &&& d.snapshot is Some ==> d.snapshot->0.meta.last_included_index
                <= snapshot->0.meta.last_included_index
        },
    ensures
        ({
            let steps = state.snapshot_steps(snapshot);
            let after = state.after_all(steps);
            &&& follow_each_other(state, files, d, steps)
            &&& d.advanced_all(steps) == (match snapshot {
                Some(snap) => DurableView { snapshot: Some(snap), ..d },
                None => d,
            })
            &&& after.next_seq() <= state.next_seq()
            &&& settled(after, files.done_all(steps))
        }),
{
    lemma_follow_none(state, files, d);
    if let Some(snap) = snapshot {
        let index = snap.meta.last_included_index;
        let write = DiskActionView::WriteSnapshot {
            bytes: frame(KIND_SNAPSHOT, snapshot_bytes(snap)),
        };
        law_snapshot_round_trip(snap);
        lemma_follow_one(state, files, d, write);
        lemma_step(state, files, d, write);
        let s1 = state.after(write);
        let f1 = files.done(write);
        let d1 = d.advanced(write);
        let k = collectable(s1.segments, s1.active, index);
        let removes = state.gc_steps(index);
        assert(removes =~= s1.gc_steps(index));
        assert(removes.take(k as int) =~= removes);
        lemma_gc_steps(s1, f1, d1, k);
        lemma_both(state, files, d, seq![write], removes);
        lemma_collectable(s1, index);
        assert(k < s1.segments.len() ==> s1.segments.skip(k as int).last()
            == s1.segments.last());
    }
}

proof fn lemma_collectable(state: DiskView, index: u64)
    ensures
        collectable(state.segments, state.active, index) <= state.segments.len(),
    decreases state.segments.len(),
{
    if state.segments.len() > 0 {
        lemma_collectable(DiskView { segments: state.segments.skip(1), ..state }, index);
    }
}

// ── Laws ────────────────────────────────────────────────────────────────────

/// A batch that the files can take: its records fit, the snapshot does not go
/// back, and there are numbers left for segments.
pub open spec fn can_take(state: DiskView, d: DurableView, batch: BatchView) -> bool {
    &&& ops_fit(batch.log)
    &&& state.next_seq() + batch.log.len() < u64::MAX
    &&& batch.snapshot is Some ==> {
        &&& payload_fits(snapshot_bytes(batch.snapshot->0))
        &&& d.snapshot is Some ==> d.snapshot->0.meta.last_included_index
            <= batch.snapshot->0.meta.last_included_index
    }
}

/// A plan does what the batch asks for, each step on what the ones before it
/// leave.
proof fn lemma_plan(state: DiskView, files: FilesView, d: DurableView, batch: BatchView)
    requires
        on_disk(state, files, d),
        settled(state, files),
        can_take(state, d, batch),
    ensures
        follow_each_other(state, files, d, state.plan(batch)),
        d.advanced_all(state.plan(batch)) == d.after(batch),
        settled(state.after_all(state.plan(batch)), files.done_all(state.plan(batch))),
        state.after_all(state.plan(batch)).next_seq() <= state.next_seq() + batch.log.len(),
{
    let snaps = state.snapshot_steps(batch.snapshot);
    lemma_snapshot_steps(state, files, d, batch.snapshot);
    let s1 = state.after_all(snaps);
    let f1 = files.done_all(snaps);
    let d1 = d.advanced_all(snaps);
    lemma_all_steps(state, files, d, snaps);
    let hards = state.hard_state_steps(batch.hard_state);
    let d2 = match batch.hard_state {
        Some(hard_state) => DurableView { hard_state, ..d1 },
        None => d1,
    };
    lemma_follow_none(s1, f1, d1);
    if let Some(hs) = batch.hard_state {
        law_hard_state_round_trip(hs);
        lemma_follow_one(s1, f1, d1, hards[0]);
        assert(hards =~= seq![hards[0]]);
    }
    assert(d1.advanced_all(hards) == d2);
    lemma_both(state, files, d, snaps, hards);
    let first = snaps + hards;
    let s2 = state.after_all(first);
    let f2 = files.done_all(first);
    lemma_all_steps(state, files, d, first);
    assert(s2.next_seq() == s1.next_seq());
    assert(settled(s2, f2));
    if batch.log.len() == 0 {
        assert(d.ops + batch.log =~= d.ops);
    } else {
        let logs = s2.log_steps(batch.log);
        lemma_log_steps(s2, f2, d2, batch.log);
        lemma_both(state, files, d, first, logs);
        let logged = first + logs;
        let s3 = state.after_all(logged);
        let f3 = files.done_all(logged);
        let d3 = d.advanced_all(logged);
        let sync = s3.final_sync();
        lemma_follow_none(s3, f3, d3);
        if s3.active is Some {
            lemma_follow_one(s3, f3, d3, sync[0]);
            assert(sync =~= seq![sync[0]]);
        }
        assert(d3.advanced_all(sync) == d3);
        lemma_both(state, files, d, logged, sync);
    }
}

/// Whenever a crash comes while a batch is written, after whichever step, the
/// files hold what the steps before it made durable: the snapshot, then the
/// election state, then the log mutations in order. Once all steps are done they
/// hold the whole batch, and the next one can come.
pub proof fn law_disk_holds_what_was_written(
    state: DiskView,
    files: FilesView,
    d: DurableView,
    batch: BatchView,
    k: int,
)
    requires
        on_disk(state, files, d),
        settled(state, files),
        can_take(state, d, batch),
        0 <= k <= state.plan(batch).len(),
    ensures
        on_disk(
            state.after_all(state.plan(batch).take(k)),
            files.done_all(state.plan(batch).take(k)),
            d.advanced_all(state.plan(batch).take(k)),
        ),
        k == state.plan(batch).len() ==> d.advanced_all(state.plan(batch).take(k)) == d.after(
            batch,
        ) && settled(
            state.after_all(state.plan(batch).take(k)),
            files.done_all(state.plan(batch).take(k)),
        ),
{
    let steps = state.plan(batch);
    lemma_plan(state, files, d, batch);
    lemma_steps(state, files, d, steps, k);
    if k == steps.len() {
        assert(steps.take(k) =~= steps);
    }
}

/// No segment that a plan opens is there already, neither before the batch nor by
/// an earlier step of it.
pub proof fn law_no_segment_is_opened_twice(
    state: DiskView,
    files: FilesView,
    d: DurableView,
    batch: BatchView,
    k: int,
    seq: u64,
)
    requires
        on_disk(state, files, d),
        settled(state, files),
        can_take(state, d, batch),
        0 <= k < state.plan(batch).len(),
        state.plan(batch)[k] == (DiskActionView::OpenSegment { seq }),
    ensures
        !files.done_all(state.plan(batch).take(k)).segments.contains_key(seq),
{
    reveal(follow_each_other);
    let steps = state.plan(batch);
    lemma_plan(state, files, d, batch);
    assert(may_follow(
        state.after_all(steps.take(k)),
        files.done_all(steps.take(k)),
        d.advanced_all(steps.take(k)),
        steps[k],
    ));
}

/// A backend that has not written yet, whatever its rotation threshold.
pub open spec fn is_unused(state: DiskView) -> bool {
    state.active is None && state.segments.len() == 0
}

/// Before anything was written, nothing is durable.
pub proof fn law_disk_starts_empty(state: DiskView)
    requires
        is_unused(state),
    ensures
        on_disk(state, FilesView::none(), DurableView::nothing()),
        settled(state, FilesView::none()),
{
    reveal(on_disk);
    let segs = Seq::<SegmentView>::empty();
    let dropped = Seq::<LogOpView>::empty();
    assert(known(segs) =~= state.segments);
    assert(dropped + ops_in(segs) =~= DurableView::nothing().ops);
    assert(holds_as(state, FilesView::none(), DurableView::nothing(), segs, dropped));
}

/// The records of the segments that are known hold all mutations.
proof fn lemma_segment_ops(segs: Seq<SegmentView>, files: FilesView, seqs: Seq<u64>)
    requires
        in_good_order(segs),
        forall|i: int|
            0 <= i < segs.len() ==> files.segments[(#[trigger] segs[i]).seq] == op_records(
                segs[i].ops,
            ),
        seqs == Seq::new(known(segs).len(), |i: int| known(segs)[i].seq),
    ensures
        segment_ops(files.read(seqs)) == Ok::<Seq<LogOpView>, StorageErrorView>(ops_in(segs)),
    decreases segs.len(),
{
    if segs.len() == 0 {
        assert(files.read(seqs) =~= Seq::empty());
    } else {
        let before = segs.drop_last();
        let last = segs[segs.len() - 1];
        lemma_order_prefix(segs);
        assert forall|i: int| 0 <= i < before.len() implies files.segments[(
        #[trigger] before[i]).seq] == op_records(before[i].ops) by {
            assert(before[i] == segs[i]);
        }
        let rest = Seq::new(known(before).len(), |i: int| known(before)[i].seq);
        lemma_segment_ops(before, files, rest);
        if last.ops.len() == 0 {
            assert(seqs =~= rest);
            assert(ops_in(segs) =~= ops_in(before));
        } else {
            assert(seqs =~= rest.push(last.seq));
            let contents = files.read(seqs);
            assert(contents.drop_last() =~= files.read(rest));
            assert(contents.last() == op_records(last.ops));
            assert(ops_fit(segs[segs.len() - 1].ops));
            law_records_round_trip(last.ops);
        }
    }
}

/// A restart reads the records of every segment.
proof fn lemma_read(
    state: DiskView,
    files: FilesView,
    d: DurableView,
    segs: Seq<SegmentView>,
    dropped: Seq<LogOpView>,
)
    requires
        holds_as(state, files, d, segs, dropped),
    ensures
        segment_ops(files.read(state.to_read())) == Ok::<Seq<LogOpView>, StorageErrorView>(
            ops_in(segs),
        ),
{
    let seqs = state.to_read();
    let listed = Seq::new(known(segs).len(), |i: int| known(segs)[i].seq);
    lemma_segment_ops(segs, files, listed);
    match state.active {
        None => {
            assert(seqs =~= listed);
        },
        Some(active) => {
            lemma_known_seqs(segs);
            let before = segs.drop_last();
            let last = segs[segs.len() - 1];
            if last.ops.len() == 0 {
                lemma_upsert_behind(state.segments, active.seq, 0);
                assert(seqs =~= listed.push(active.seq));
                let contents = files.read(seqs);
                assert(contents.drop_last() =~= files.read(listed));
                assert(last.ops =~= Seq::<LogOpView>::empty());
                assert(contents.last() == op_records(last.ops));
                assert(ops_fit(segs[segs.len() - 1].ops));
                law_records_round_trip(last.ops);
                assert(ops_in(segs) + last.ops =~= ops_in(segs));
            } else {
                assert(state.segments == known(before).push(noted(last)));
                assert forall|i: int| 0 <= i < state.segments.len() - 1 implies (
                #[trigger] state.segments[i]).seq < active.seq by {
                    assert(state.segments[i].seq < state.segments[state.segments.len() - 1].seq);
                }
                lemma_upsert_last(state.segments, active.seq, 0);
                assert(seqs =~= listed);
            }
        },
    }
}

/// What a restart reads is what is durable: the election state, the snapshot and
/// the log that the mutations and the snapshot describe, though segments were
/// collected in between.
pub proof fn law_disk_recovers_what_is_durable(state: DiskView, files: FilesView, d: DurableView)
    requires
        on_disk(state, files, d),
    ensures
        recovered_from(files.hard_state, files.snapshot, files.read(state.to_read()))
            == d.recovered(),
{
    reveal(on_disk);
    let (segs, dropped) = choose|segs: Seq<SegmentView>, dropped: Seq<LogOpView>| #[trigger]
        holds_as(state, files, d, segs, dropped);
    lemma_read(state, files, d, segs, dropped);
    let kept = ops_in(segs);
    match d.snapshot {
        Some(snapshot) => {
            law_gc_preserves_replay(dropped, kept, snapshot.meta);
        },
        None => {
            if dropped.len() > 0 {
                assert(touched_by(dropped[0]) >= 0);
            }
            assert(dropped + kept =~= kept);
        },
    }
}

/// A node whose writes were all done is found again on disk: its term, its vote,
/// its log and its snapshot.
pub proof fn law_disk_restart_finds_the_node(
    state: DiskView,
    files: FilesView,
    d: DurableView,
    v: NodeView,
)
    requires
        on_disk(state, files, d),
        durable(v, d),
    ensures
        recovered_from(files.hard_state, files.snapshot, files.read(state.to_read())) == Ok::<
            RecoveredView,
            StorageErrorView,
        >(RecoveredView { hard_state: v.hard_state(), log: trimmed(v.log, v.snapshot), snapshot: v.snapshot }),
{
    law_disk_recovers_what_is_durable(state, files, d);
    law_restart_finds_the_node(v, d);
}

/// The numbers of all segments, in ascending order.
pub open spec fn segment_numbers(files: FilesView) -> Seq<u64> {
    keys_in_order(files.segments)
}

/// What a backend knows after it found the first `k` of its segments on startup.
pub open spec fn opened(fresh: DiskView, files: FilesView, seqs: Seq<u64>, k: nat) -> DiskView
    decreases k,
{
    if k == 0 {
        fresh
    } else {
        let seq = seqs[k - 1];
        let (ops, valid_len) = decode_from(files.segments[seq], 0)->Ok_0;
        opened(fresh, files, seqs, (k - 1) as nat).loaded(
            seq,
            ops,
            valid_len as u64,
            k == seqs.len(),
        )
    }
}

/// What a backend knows after it found all its segments on startup.
pub open spec fn reopened(fresh: DiskView, files: FilesView) -> DiskView {
    opened(fresh, files, segment_numbers(files), segment_numbers(files).len())
}

proof fn lemma_opened_prefix(
    fresh: DiskView,
    files: FilesView,
    seqs: Seq<u64>,
    segs: Seq<SegmentView>,
    k: nat,
)
    requires
        is_unused(fresh),
        in_good_order(segs),
        seqs == Seq::new(segs.len(), |i: int| segs[i].seq),
        forall|i: int|
            0 <= i < segs.len() ==> files.segments[(#[trigger] segs[i]).seq] == op_records(
                segs[i].ops,
            ),
        k <= segs.len(),
    ensures
        opened(fresh, files, seqs, k).segments == known(segs.take(k as int)),
        k < segs.len() || k == 0 ==> opened(fresh, files, seqs, k).active is None,
        k == segs.len() && k > 0 ==> {
            &&& opened(fresh, files, seqs, k).active is Some
            &&& opened(fresh, files, seqs, k).active->0.seq == segs.last().seq
        },
    decreases k,
{
    if k == 0 {
        assert(known(segs.take(0)) =~= fresh.segments);
    } else {
        lemma_opened_prefix(fresh, files, seqs, segs, (k - 1) as nat);
        let before = opened(fresh, files, seqs, (k - 1) as nat);
        let seg = segs[k - 1];
        let some = segs.take(k as int);
        assert(some.drop_last() =~= segs.take(k - 1));
        assert(some.last() == seg);
        assert(ops_fit(seg.ops));
        law_records_round_trip(seg.ops);
        lemma_max_touched(seg.ops);
        assert(in_good_order(segs.take(k - 1))) by {
            assert forall|i: int, j: int| 0 <= i < j < k - 1 implies (
            #[trigger] segs.take(k - 1)[i]).seq < (#[trigger] segs.take(k - 1)[j]).seq by {
                assert(segs[i].seq < segs[j].seq);
            }
        }
        lemma_known_seqs(segs.take(k - 1));
        assert forall|i: int| 0 <= i < before.segments.len() implies (
        #[trigger] before.segments[i]).seq < seg.seq by {
            assert(segs.take(k - 1).last() == segs[k - 2]);
            assert(segs[k - 2].seq < segs[k - 1].seq);
        }
        if seg.ops.len() > 0 {
            lemma_upsert_behind(before.segments, seg.seq, max_touched(seg.ops)->0);
        }
    }
}

/// A backend that is opened on files finds in them what is durable.
pub proof fn law_disk_reopens(
    state: DiskView,
    files: FilesView,
    d: DurableView,
    fresh: DiskView,
)
    requires
        on_disk(state, files, d),
        is_unused(fresh),
    ensures
        on_disk(reopened(fresh, files), files, d),
        settled(reopened(fresh, files), files),
{
    reveal(on_disk);
    let (segs, dropped) = choose|segs: Seq<SegmentView>, dropped: Seq<LogOpView>| #[trigger]
        holds_as(state, files, d, segs, dropped);
    let seqs = Seq::new(segs.len(), |i: int| segs[i].seq);
    assert(strictly_sorted(seqs, u64_lt())) by {
        assert forall|i: int, j: int| 0 <= i < j < seqs.len() implies u64_lt()(
            #[trigger] seqs[i],
            #[trigger] seqs[j],
        ) by {
            assert(segs[i].seq < segs[j].seq);
        }
    }
    assert(lists(seqs, files.segments.dom())) by {
        assert forall|seq: u64| files.segments.dom().contains(seq) == #[trigger] seqs.contains(
            seq,
        ) by {
            assert(files.segments.contains_key(seq) == files.segments.dom().contains(seq));
            if files.segments.contains_key(seq) {
                let i = choose|i: int| 0 <= i < segs.len() && (#[trigger] segs[i]).seq == seq;
                assert(seqs[i] == seq);
            }
            if seqs.contains(seq) {
                let i = choose|i: int| 0 <= i < seqs.len() && seqs[i] == seq;
                assert(segs[i].seq == seq);
            }
        }
    }
    lemma_u64_lt_total();
    lemma_is_sorted_list(seqs, files.segments.dom(), u64_lt());
    lemma_opened_prefix(fresh, files, seqs, segs, segs.len());
    assert(segs.take(segs.len() as int) =~= segs);
    let state2 = reopened(fresh, files);
    assert(holds_as(state2, files, d, segs, dropped));
}

// ── Disk and memory ─────────────────────────────────────────────────────────

/// A backend and its files after batches were written, one after another.
pub open spec fn after_batches(state: DiskView, files: FilesView, batches: Seq<BatchView>) -> (
    DiskView,
    FilesView,
)
    decreases batches.len(),
{
    if batches.len() == 0 {
        (state, files)
    } else {
        let (s, f) = after_batches(state, files, batches.drop_last());
        (s.after_all(s.plan(batches.last())), f.done_all(s.plan(batches.last())))
    }
}

/// How many log mutations the batches hold.
pub open spec fn ops_in_batches(batches: Seq<BatchView>) -> nat
    decreases batches.len(),
{
    if batches.len() == 0 {
        0
    } else {
        ops_in_batches(batches.drop_last()) + batches.last().log.len()
    }
}

/// The last snapshot among the batches.
pub open spec fn last_snapshot(batches: Seq<BatchView>) -> Option<SnapshotView>
    decreases batches.len(),
{
    if batches.len() == 0 {
        None
    } else if batches.last().snapshot is Some {
        batches.last().snapshot
    } else {
        last_snapshot(batches.drop_last())
    }
}

/// The records of every batch fit, and no snapshot goes back behind an earlier
/// one.
pub open spec fn batches_fit(batches: Seq<BatchView>) -> bool {
    forall|i: int|
        0 <= i < batches.len() ==> {
            let earlier = last_snapshot(batches.take(i));
            &&& ops_fit((#[trigger] batches[i]).log)
            &&& batches[i].snapshot is Some ==> {
                &&& payload_fits(snapshot_bytes(batches[i].snapshot->0))
                &&& earlier is Some ==> earlier->0.meta.last_included_index
                    <= batches[i].snapshot->0.meta.last_included_index
            }
        }
}

/// What both stores hold after the same batches.
proof fn lemma_same_batches(fresh: DiskView, batches: Seq<BatchView>) -> (d: DurableView)
    requires
        is_unused(fresh),
        batches_fit(batches),
        ops_in_batches(batches) + 1 < u64::MAX,
    ensures
        ({
            let (state, files) = after_batches(fresh, FilesView::none(), batches);
            let store = MemoryView::empty().after_commits(batches);
            &&& on_disk(state, files, d)
            &&& settled(state, files)
            &&& state.next_seq() <= 1 + ops_in_batches(batches)
            &&& d.snapshot == last_snapshot(batches)
            &&& store.fail_commits == 0
            &&& decode_from(store.log_bytes, 0) is Ok
            &&& stored_in(store) == d
        }),
    decreases batches.len(),
{
    let none = FilesView::none();
    if batches.len() == 0 {
        law_disk_starts_empty(fresh);
        law_records_round_trip(Seq::empty());
        assert(op_records(Seq::<LogOpView>::empty()) =~= Seq::<u8>::empty());
        DurableView::nothing()
    } else {
        let fewer = batches.drop_last();
        let batch = batches[batches.len() - 1];
        assert forall|i: int| 0 <= i < fewer.len() implies {
            let earlier = last_snapshot(fewer.take(i));
            &&& ops_fit((#[trigger] fewer[i]).log)
            &&& fewer[i].snapshot is Some ==> {
                &&& payload_fits(snapshot_bytes(fewer[i].snapshot->0))
                &&& earlier is Some ==> earlier->0.meta.last_included_index
                    <= fewer[i].snapshot->0.meta.last_included_index
            }
        } by {
            assert(fewer[i] == batches[i]);
            assert(fewer.take(i) =~= batches.take(i));
        }
        let d = lemma_same_batches(fresh, fewer);
        let (state, files) = after_batches(fresh, none, fewer);
        assert(batches.take(batches.len() - 1) =~= fewer);
        assert(can_take(state, d, batch));
        lemma_plan(state, files, d, batch);
        lemma_all_steps(state, files, d, state.plan(batch));
        let store = MemoryView::empty().after_commits(fewer);
        law_commit_then_recover(store, batch);
        let after = store.commit(batch).0;
        assert(stored_in(after).ops == stored_in(store).ops + batch.log);
        d.after(batch)
    }
}

/// Disk and memory never diverge: given the same batches, in the same order, both
/// stores recover the same election state, log and snapshot. Deleting old
/// segments changes nothing, and neither does opening the files anew.
pub proof fn law_disk_and_memory_recover_the_same(
    fresh: DiskView,
    batches: Seq<BatchView>,
    anew: DiskView,
)
    requires
        is_unused(fresh),
        is_unused(anew),
        batches_fit(batches),
        ops_in_batches(batches) + 1 < u64::MAX,
    ensures
        ({
            let (state, files) = after_batches(fresh, FilesView::none(), batches);
            let memory = MemoryView::empty().after_commits(batches).recover();
            &&& recovered_from(
                files.hard_state,
                files.snapshot,
                files.read(state.to_read()),
            ) == memory
            &&& recovered_from(
                files.hard_state,
                files.snapshot,
                files.read(reopened(anew, files).to_read()),
            ) == memory
        }),
{
    let d = lemma_same_batches(fresh, batches);
    let (state, files) = after_batches(fresh, FilesView::none(), batches);
    law_disk_recovers_what_is_durable(state, files, d);
    law_disk_reopens(state, files, d, anew);
    law_disk_recovers_what_is_durable(reopened(anew, files), files, d);
}

} // verus!
