//! Segment-file durable storage backend: what to write, in which order, and
//! what a restart makes of the files. Touching files is the runtime's part.
//!
//! Layout under `data_dir`:
//!   hard_state        — single-record atomic file (write .tmp → fsync → rename → fsync dir)
//!   snapshot          — same atomic pattern
//!   log/{seq:020}.seg — append-only record stream; only the highest-seq segment
//!                       may have a torn tail (truncated on open)

use vstd::prelude::*;

use crate::error::{StorageError, StorageErrorView};
use crate::raft::log::{max_u64, next_up, LogEntryView};
use crate::raft::replication::acked_index;
use crate::raft::snapshot::{SnapshotMeta, SnapshotView};
use crate::raft::storage::hard_state::HardState;
use crate::raft::storage::record::{
    damaged_at, decode, decode_from, decode_hard_state, decode_snapshot, encode,
    encode_hard_state, encode_snapshot, frame, hard_state_bytes, op_record, ops_view,
    snapshot_bytes, stored_hard_state, stored_snapshot, LogOp, LogOpView, KIND_HARD_STATE,
    KIND_SNAPSHOT,
};
use crate::raft::storage::{
    after_op, below, contradicts, entries_after, from_index, kept_beside, replay, replayed,
    BatchView, Recovered, RecoveredView, WriteBatch,
};
use crate::seqs::{
    lemma_filter_add, lemma_filter_filter, lemma_filter_members, lemma_filter_prefix,
    lemma_filter_suffix,
};
use crate::text::{
    chars_of, lemma_padded_value, padded_decimal, parse_u64, parsed_u64, pow10, push_padded,
    push_str,
};

verus! {

/// Segments grow to 16 MiB.
pub const DEFAULT_ROTATE_THRESHOLD: u64 = 16_777_216;

/// The segment that takes writes, and how many bytes it holds.
#[derive(Debug, Clone, Copy, PartialEq, Eq, Structural)]
pub struct ActiveSegment {
    pub seq: u64,
    pub written: u64,
}

/// A segment and the highest index (append index or truncation point) that its
/// records touch.
#[derive(Debug, Clone, Copy, PartialEq, Eq, Structural)]
pub struct SegmentIndex {
    pub seq: u64,
    pub max_index: u64,
}

/// What the runtime has to do to files, one step after another. A step counts
/// as done only when it is durable.
#[derive(Debug, PartialEq, Eq)]
pub enum DiskAction {
    /// Replace the snapshot file: temporary file, sync, rename, sync directory.
    WriteSnapshot { bytes: Vec<u8> },
    /// Replace the election state file in the same way.
    WriteHardState { bytes: Vec<u8> },
    /// Delete a segment.
    RemoveSegment { seq: u64 },
    /// Sync the active segment and close it.
    Rotate { seq: u64 },
    /// Create a segment, which must not exist, and make it the active one.
    OpenSegment { seq: u64 },
    /// Append a record to the active segment.
    AppendRecord { seq: u64, bytes: Vec<u8>, touched: u64 },
    /// Sync the active segment.
    SyncSegment { seq: u64 },
}

/// What a [`DiskAction`] holds.
pub enum DiskActionView {
    WriteSnapshot { bytes: Seq<u8> },
    WriteHardState { bytes: Seq<u8> },
    RemoveSegment { seq: u64 },
    Rotate { seq: u64 },
    OpenSegment { seq: u64 },
    AppendRecord { seq: u64, bytes: Seq<u8>, touched: u64 },
    SyncSegment { seq: u64 },
}

impl View for DiskAction {
    type V = DiskActionView;

    open spec fn view(&self) -> DiskActionView {
        match self {
            DiskAction::WriteSnapshot { bytes } => DiskActionView::WriteSnapshot { bytes: bytes@ },
            DiskAction::WriteHardState { bytes } => DiskActionView::WriteHardState {
                bytes: bytes@,
            },
            DiskAction::RemoveSegment { seq } => DiskActionView::RemoveSegment { seq: *seq },
            DiskAction::Rotate { seq } => DiskActionView::Rotate { seq: *seq },
            DiskAction::OpenSegment { seq } => DiskActionView::OpenSegment { seq: *seq },
            DiskAction::AppendRecord { seq, bytes, touched } => DiskActionView::AppendRecord {
                seq: *seq,
                bytes: bytes@,
                touched: *touched,
            },
            DiskAction::SyncSegment { seq } => DiskActionView::SyncSegment { seq: *seq },
        }
    }
}

/// What a list of steps holds, in order.
pub open spec fn steps_view(steps: Seq<DiskAction>) -> Seq<DiskActionView> {
    Seq::new(steps.len(), |i: int| steps[i]@)
}

/// The backend's knowledge of its files.
#[derive(Debug)]
pub struct DiskStorage {
    data_dir: String,
    active: Option<ActiveSegment>,
    /// Kept up to date on every write; used for GC.
    segments: Vec<SegmentIndex>,
    syncs: u64,
    rotate_threshold: u64,
}

/// What a [`DiskStorage`] holds.
#[verifier::ext_equal]
pub struct DiskView {
    pub data_dir: Seq<char>,
    pub active: Option<ActiveSegment>,
    pub segments: Seq<SegmentIndex>,
    pub syncs: u64,
    pub rotate_threshold: u64,
}

impl View for DiskStorage {
    type V = DiskView;

    closed spec fn view(&self) -> DiskView {
        DiskView {
            data_dir: self.data_dir@,
            active: self.active,
            segments: self.segments@,
            syncs: self.syncs,
            rotate_threshold: self.rotate_threshold,
        }
    }
}

/// The index that a log mutation touches.
pub open spec fn touched_by(op: LogOpView) -> u64 {
    match op {
        LogOpView::Append(e) => e.index,
        LogOpView::TruncateFrom(i) => i,
    }
}

/// The highest index that `ops` touch.
pub open spec fn max_touched(ops: Seq<LogOpView>) -> Option<u64>
    decreases ops.len(),
{
    if ops.len() == 0 {
        None
    } else {
        match max_touched(ops.drop_last()) {
            None => Some(touched_by(ops.last())),
            Some(m) => Some(max_u64(m, touched_by(ops.last()))),
        }
    }
}

/// `segments` with `seq` mapped to `max_index`.
pub open spec fn upsert(segments: Seq<SegmentIndex>, seq: u64, max_index: u64) -> Seq<
    SegmentIndex,
> {
    segments.filter(|s: SegmentIndex| s.seq < seq).push(SegmentIndex { seq, max_index })
        + segments.filter(|s: SegmentIndex| s.seq > seq)
}

/// The highest index known for `seq`, zero for a segment that is not known.
pub open spec fn max_of(segments: Seq<SegmentIndex>, seq: u64) -> u64
    decreases segments.len(),
{
    if segments.len() == 0 {
        0
    } else if segments.last().seq == seq {
        segments.last().max_index
    } else {
        max_of(segments.drop_last(), seq)
    }
}

/// How many leading segments lie wholly below `snapshot_index` and take no
/// writes.
pub open spec fn collectable(
    segments: Seq<SegmentIndex>,
    active: Option<ActiveSegment>,
    snapshot_index: u64,
) -> nat
    decreases segments.len(),
{
    if segments.len() == 0 || segments[0].max_index >= snapshot_index || (active is Some
        && active->0.seq == segments[0].seq) {
        0
    } else {
        1 + collectable(segments.skip(1), active, snapshot_index)
    }
}

impl DiskView {
    /// A backend that knows of no file yet.
    pub open spec fn fresh(data_dir: Seq<char>) -> DiskView {
        DiskView {
            data_dir,
            active: None,
            segments: Seq::empty(),
            syncs: 0,
            rotate_threshold: DEFAULT_ROTATE_THRESHOLD,
        }
    }

    /// Segments are listed in ascending order, each once.
    pub open spec fn wf(self) -> bool {
        forall|i: int, j: int|
            0 <= i < j < self.segments.len() ==> (#[trigger] self.segments[i]).seq < (
            #[trigger] self.segments[j]).seq
    }

    /// The highest segment there is, known or active; zero where there is none.
    pub open spec fn last_seq(self) -> u64 {
        let listed = if self.segments.len() == 0 {
            0
        } else {
            self.segments.last().seq
        };
        match self.active {
            Some(active) => max_u64(listed, active.seq),
            None => listed,
        }
    }

    /// The sequence number of the next segment.
    pub open spec fn next_seq(self) -> u64 {
        next_up(self.last_seq())
    }

    /// The knowledge after a segment was found on startup.
    pub open spec fn loaded(
        self,
        seq: u64,
        ops: Seq<LogOpView>,
        valid_len: u64,
        is_last: bool,
    ) -> DiskView {
        DiskView {
            segments: match max_touched(ops) {
                Some(max) => upsert(self.segments, seq, max),
                None => self.segments,
            },
            active: if is_last {
                Some(ActiveSegment { seq, written: valid_len })
            } else {
                self.active
            },
            ..self
        }
    }

    /// The knowledge after a step was done.
    pub open spec fn after(self, step: DiskActionView) -> DiskView {
        match step {
            DiskActionView::WriteSnapshot { bytes } => DiskView {
                syncs: next_up(next_up(self.syncs)),
                ..self
            },
            DiskActionView::WriteHardState { bytes } => DiskView {
                syncs: next_up(next_up(self.syncs)),
                ..self
            },
            DiskActionView::RemoveSegment { seq } => DiskView {
                segments: self.segments.filter(|s: SegmentIndex| s.seq != seq),
                ..self
            },
            DiskActionView::Rotate { seq } => DiskView {
                active: None,
                syncs: next_up(self.syncs),
                ..self
            },
            DiskActionView::OpenSegment { seq } => DiskView {
                active: Some(ActiveSegment { seq, written: 0 }),
                ..self
            },
            DiskActionView::AppendRecord { seq, bytes, touched } => match self.active {
                None => self,
                Some(active) => DiskView {
                    active: Some(
                        ActiveSegment {
                            seq: active.seq,
                            written: acked_index(active.written, bytes.len()),
                        },
                    ),
                    segments: upsert(
                        self.segments,
                        seq,
                        max_u64(max_of(self.segments, seq), touched),
                    ),
                    ..self
                },
            },
            DiskActionView::SyncSegment { seq } => DiskView { syncs: next_up(self.syncs), ..self },
        }
    }

    /// The knowledge after steps were done, one after another.
    pub open spec fn after_all(self, steps: Seq<DiskActionView>) -> DiskView
        decreases steps.len(),
    {
        if steps.len() == 0 {
            self
        } else {
            self.after_all(steps.drop_last()).after(steps.last())
        }
    }

    /// Whether a record of `len` bytes takes the active segment past its limit.
    pub open spec fn must_rotate(self, len: nat) -> bool {
        self.active is Some && acked_index(self.active->0.written, len) > self.rotate_threshold
    }

    /// The steps for one log mutation: where the active segment is full, sync it
    /// and open the next one; then append.
    pub open spec fn op_steps(self, op: LogOpView) -> Seq<DiskActionView> {
        let bytes = op_record(op);
        let append = |seq: u64|
            DiskActionView::AppendRecord { seq, bytes, touched: touched_by(op) };
        if self.must_rotate(bytes.len()) {
            seq![
                DiskActionView::Rotate { seq: self.active->0.seq },
                DiskActionView::OpenSegment { seq: self.next_seq() },
                append(self.next_seq()),
            ]
        } else if self.active is None {
            seq![
                DiskActionView::OpenSegment { seq: self.next_seq() },
                append(self.next_seq()),
            ]
        } else {
            seq![append(self.active->0.seq)]
        }
    }

    /// The steps for log mutations, each planned on what the earlier ones leave.
    pub open spec fn log_steps(self, ops: Seq<LogOpView>) -> Seq<DiskActionView>
        decreases ops.len(),
    {
        if ops.len() == 0 {
            Seq::empty()
        } else {
            let earlier = self.log_steps(ops.drop_last());
            earlier + self.after_all(earlier).op_steps(ops.last())
        }
    }

    /// The steps that delete the segments a snapshot made superfluous.
    pub open spec fn gc_steps(self, snapshot_index: u64) -> Seq<DiskActionView> {
        Seq::new(
            collectable(self.segments, self.active, snapshot_index),
            |i: int| DiskActionView::RemoveSegment { seq: self.segments[i].seq },
        )
    }

    /// The steps for the snapshot of a batch: write it, then collect.
    pub open spec fn snapshot_steps(self, snapshot: Option<SnapshotView>) -> Seq<DiskActionView> {
        match snapshot {
            None => Seq::empty(),
            Some(snap) => seq![
                DiskActionView::WriteSnapshot {
                    bytes: frame(KIND_SNAPSHOT, snapshot_bytes(snap)),
                },
            ] + self.gc_steps(snap.meta.last_included_index),
        }
    }

    /// The steps for the election state of a batch.
    pub open spec fn hard_state_steps(self, hard_state: Option<HardState>) -> Seq<
        DiskActionView,
    > {
        match hard_state {
            None => Seq::empty(),
            Some(hs) => seq![
                DiskActionView::WriteHardState {
                    bytes: frame(KIND_HARD_STATE, hard_state_bytes(hs)),
                },
            ],
        }
    }

    /// The sync behind the last record of a batch.
    pub open spec fn final_sync(self) -> Seq<DiskActionView> {
        match self.active {
            None => Seq::empty(),
            Some(active) => seq![DiskActionView::SyncSegment { seq: active.seq }],
        }
    }

    /// The steps for a batch: snapshot, then election state, then log.
    pub open spec fn plan(self, batch: BatchView) -> Seq<DiskActionView> {
        let first = self.snapshot_steps(batch.snapshot) + self.hard_state_steps(batch.hard_state);
        if batch.log.len() == 0 {
            first
        } else {
            let logged = first + self.after_all(first).log_steps(batch.log);
            logged + self.after_all(logged).final_sync()
        }
    }

    /// The segments that a restart reads, in ascending order: the known ones and
    /// the active one.
    pub open spec fn to_read(self) -> Seq<u64> {
        let all = match self.active {
            None => self.segments,
            Some(active) => upsert(self.segments, active.seq, 0),
        };
        Seq::new(all.len(), |i: int| all[i].seq)
    }
}

/// Steps are done one after another.
pub proof fn lemma_after_all_add(state: DiskView, a: Seq<DiskActionView>, b: Seq<DiskActionView>)
    ensures
        state.after_all(a + b) == state.after_all(a).after_all(b),
    decreases b.len(),
{
    if b.len() == 0 {
        assert(a + b =~= a);
    } else {
        lemma_after_all_add(state, a, b.drop_last());
        assert((a + b).drop_last() =~= a + b.drop_last());
        assert((a + b).last() == b.last());
    }
}

// ── segment names ───────────────────────────────────────────────────────────

/// The file name of a segment.
pub open spec fn segment_name(seq: u64) -> Seq<char> {
    padded_decimal(seq as nat, 20) + ".seg"@
}

/// The segment that a file name stands for.
pub open spec fn named_segment(name: Seq<char>) -> Option<u64> {
    let stem = name.len() - 4;
    if stem >= 0 && name.skip(stem) == ".seg"@ {
        parsed_u64(name.take(stem))
    } else {
        None
    }
}

/// A segment is found again by its file name.
pub proof fn law_segment_name_parses(seq: u64)
    ensures
        named_segment(segment_name(seq)) == Some(seq),
{
    reveal_strlit(".seg");
    let digits = padded_decimal(seq as nat, 20);
    assert(pow10(20) > u64::MAX) by {
        reveal_with_fuel(pow10, 21);
    }
    lemma_padded_value(seq as nat, 20);
    let name = segment_name(seq);
    assert(name.len() == 24);
    assert(name.skip(20) =~= ".seg"@);
    assert(name.take(20) =~= digits);
}

/// The order in which segments are loaded: the numbers that were found, lowest
/// first. The last of them is the segment that was active.
pub fn load_order(found: Vec<u64>) -> (r: Vec<u64>)
    ensures
        r@.to_multiset() == found@.to_multiset(),
        forall|i: int, j: int| 0 <= i <= j < r@.len() ==> r@[i] <= r@[j],
{
    let mut r: Vec<u64> = Vec::new();
    let mut k: usize = 0;
    assert(r@ =~= found@.take(0));
    while k < found.len()
        invariant
            k <= found@.len(),
            r@.to_multiset() == found@.take(k as int).to_multiset(),
            r@.len() == k,
            forall|i: int, j: int| 0 <= i <= j < r@.len() ==> r@[i] <= r@[j],
        decreases found@.len() - k,
    {
        let seq: u64 = found[k];
        let mut at: usize = 0;
        while at < r.len() && r[at] <= seq
            invariant
                at <= r@.len(),
                forall|i: int| 0 <= i < at ==> r@[i] <= seq,
            decreases r@.len() - at,
        {
            at += 1;
        }
        let ghost before = r@;
        r.insert(at, seq);
        k += 1;
        proof {
            broadcast use vstd::seq_lib::group_to_multiset_ensures;

            assert(r@.remove(at as int) =~= before);
            assert(r@[at as int] == seq);
            assert(r@.contains(seq));
            assert(r@.to_multiset() =~= before.to_multiset().insert(seq));
            assert(found@.take(k as int) =~= found@.take(k - 1).push(seq));
        }
    }
    assert(found@.take(k as int) =~= found@);
    r
}

/// Renders the file name of a segment.
pub fn segment_file_name(seq: u64) -> (r: String)
    ensures
        r@ == segment_name(seq),
{
    let mut out: String = String::new();
    push_padded(&mut out, seq, 20);
    push_str(&mut out, ".seg");
    assert(out@ =~= segment_name(seq));
    out
}

/// Reads the segment number out of a file name.
pub fn parse_segment_name(name: &str) -> (r: Option<u64>)
    ensures
        r == named_segment(name@),
{
    proof {
        reveal_strlit(".seg");
    }
    let chars = chars_of(name);
    if chars.len() < 4 {
        return None;
    }
    let stem: usize = chars.len() - 4;
    let suffix: bool = chars[stem] == '.' && chars[stem + 1] == 's' && chars[stem + 2] == 'e'
        && chars[stem + 3] == 'g';
    proof {
        let tail = name@.skip(stem as int);
        if suffix {
            assert(tail =~= ".seg"@);
        } else {
            assert(tail[0] == chars@[stem as int] && tail[1] == chars@[stem + 1] && tail[2]
                == chars@[stem + 2] && tail[3] == chars@[stem + 3]);
            assert(".seg"@[0] == '.' && ".seg"@[1] == 's' && ".seg"@[2] == 'e' && ".seg"@[3]
                == 'g');
        }
    }
    if !suffix {
        return None;
    }
    let mut chars = chars;
    chars.truncate(stem);
    assert(chars@ =~= name@.take(stem as int));
    parse_u64(&chars)
}

// ── the backend ─────────────────────────────────────────────────────────────

/// Maps `seq` to `max_index`, keeping the order.
fn insert_segment(segments: &mut Vec<SegmentIndex>, seq: u64, max_index: u64)
    requires
        forall|i: int, j: int|
            0 <= i < j < old(segments)@.len() ==> (#[trigger] old(segments)@[i]).seq < (
            #[trigger] old(segments)@[j]).seq,
    ensures
        final(segments)@ == upsert(old(segments)@, seq, max_index),
        forall|i: int, j: int|
            0 <= i < j < final(segments)@.len() ==> (#[trigger] final(segments)@[i]).seq < (
            #[trigger] final(segments)@[j]).seq,
{
    let ghost before = segments@;
    let mut n: usize = 0;
    while n < segments.len() && segments[n].seq < seq
        invariant
            n <= segments@.len(),
            segments@ == before,
            forall|i: int| 0 <= i < n ==> (#[trigger] before[i]).seq < seq,
        decreases segments@.len() - n,
    {
        n += 1;
    }
    let ghost lower = |s: SegmentIndex| s.seq < seq;
    let ghost higher = |s: SegmentIndex| s.seq > seq;
    let ghost m = if n < before.len() && before[n as int].seq == seq {
        n + 1
    } else {
        n as int
    };
    proof {
        assert forall|i: int| n <= i < before.len() implies (#[trigger] before[i]).seq >= seq by {
            if i > n {
                assert(before[n as int].seq < before[i].seq);
            }
        }
        assert forall|i: int| m <= i < before.len() implies (#[trigger] before[i]).seq > seq by {
            if i > n {
                assert(before[n as int].seq < before[i].seq);
            }
        }
        lemma_filter_prefix(before, lower, n as int);
        lemma_filter_suffix(before, higher, m);
    }
    let entry = SegmentIndex { seq, max_index };
    if n < segments.len() && segments[n].seq == seq {
        segments[n] = entry;
    } else {
        segments.insert(n, entry);
    }
    assert(segments@ =~= before.take(n as int).push(entry) + before.skip(m));
}

/// Drops `seq`, keeping the order.
fn remove_segment(segments: &mut Vec<SegmentIndex>, seq: u64)
    requires
        forall|i: int, j: int|
            0 <= i < j < old(segments)@.len() ==> (#[trigger] old(segments)@[i]).seq < (
            #[trigger] old(segments)@[j]).seq,
    ensures
        final(segments)@ == old(segments)@.filter(|s: SegmentIndex| s.seq != seq),
        forall|i: int, j: int|
            0 <= i < j < final(segments)@.len() ==> (#[trigger] final(segments)@[i]).seq < (
            #[trigger] final(segments)@[j]).seq,
{
    let ghost before = segments@;
    let ghost other = |s: SegmentIndex| s.seq != seq;
    let mut n: usize = 0;
    while n < segments.len() && segments[n].seq != seq
        invariant
            n <= segments@.len(),
            segments@ == before,
            forall|i: int| 0 <= i < n ==> (#[trigger] before[i]).seq != seq,
        decreases segments@.len() - n,
    {
        n += 1;
    }
    if n == segments.len() {
        proof {
            lemma_filter_prefix(before, other, n as int);
            assert(before.take(n as int) =~= before);
        }
        return;
    }
    let _ = segments.remove(n);
    proof {
        let head = before.take(n as int);
        let rest = before.skip(n + 1);
        assert(before =~= head.push(before[n as int]) + rest);
        lemma_filter_add(head.push(before[n as int]), rest, other);
        lemma_filter_prefix(head.push(before[n as int]), other, n as int);
        assert(head.push(before[n as int]).take(n as int) =~= head);
        lemma_filter_prefix(rest, other, rest.len() as int);
        assert(rest.take(rest.len() as int) =~= rest);
        assert(segments@ =~= head + rest);
    }
}

/// The highest index known for `seq`, zero for a segment that is not known.
fn find_max(segments: &Vec<SegmentIndex>, seq: u64) -> (r: u64)
    ensures
        r == max_of(segments@, seq),
{
    let mut n: usize = segments.len();
    assert(segments@.take(n as int) =~= segments@);
    while n > 0
        invariant
            n <= segments@.len(),
            max_of(segments@, seq) == max_of(segments@.take(n as int), seq),
        decreases n,
    {
        assert(segments@.take(n as int).drop_last() =~= segments@.take(n - 1));
        if segments[n - 1].seq == seq {
            return segments[n - 1].max_index;
        }
        n -= 1;
    }
    0
}

/// The highest index that `ops` touch.
pub fn max_index_of(ops: &Vec<LogOp>) -> (r: Option<u64>)
    ensures
        r == max_touched(ops_view(ops@)),
{
    let ghost all = ops_view(ops@);
    let mut best: Option<u64> = None;
    let mut i: usize = 0;
    while i < ops.len()
        invariant
            i <= ops@.len(),
            all == ops_view(ops@),
            best == max_touched(all.take(i as int)),
        decreases ops@.len() - i,
    {
        let touched: u64 = op_index(&ops[i]);
        best = match best {
            None => Some(touched),
            Some(m) => Some(
                if m >= touched {
                    m
                } else {
                    touched
                },
            ),
        };
        i += 1;
        assert(all.take(i as int).drop_last() =~= all.take(i - 1));
        assert(all.take(i as int).last() == ops@[i - 1]@);
    }
    assert(all.take(i as int) =~= all);
    best
}

/// The index that a log mutation touches.
fn op_index(op: &LogOp) -> (r: u64)
    ensures
        r == touched_by(op@),
{
    match op {
        LogOp::Append(e) => e.index,
        LogOp::TruncateFrom(i) => *i,
    }
}

impl DiskStorage {
    /// The ordering invariant of the segment list.
    pub open spec fn wf(&self) -> bool {
        self@.wf()
    }

    /// A backend under `data_dir` that knows of no file yet.
    pub fn new(data_dir: String) -> (r: DiskStorage)
        ensures
            r@ == DiskView::fresh(data_dir@),
            r.wf(),
    {
        let r = DiskStorage {
            data_dir,
            active: None,
            segments: Vec::new(),
            syncs: 0,
            rotate_threshold: DEFAULT_ROTATE_THRESHOLD,
        };
        assert(r@ =~= DiskView::fresh(data_dir@));
        r
    }

    /// Path to the directory holding segment files and atomic state files.
    pub fn data_dir(&self) -> (r: &str)
        ensures
            r@ == self@.data_dir,
    {
        self.data_dir.as_str()
    }

    /// Lowers the segment rotation threshold. Tests set this to a small value
    /// (e.g. 512 bytes) to exercise rotation without writing megabytes.
    pub fn set_rotate_threshold(&mut self, bytes: u64)
        requires
            old(self).wf(),
        ensures
            final(self)@ == (DiskView { rotate_threshold: bytes, ..old(self)@ }),
            final(self).wf(),
    {
        self.rotate_threshold = bytes;
    }

    /// Number of fsyncs performed so far.
    pub fn sync_count(&self) -> (r: u64)
        ensures
            r == self@.syncs,
    {
        self.syncs
    }

    /// Takes note of a segment found on startup, and says to which length its
    /// file must be cut, if it must.
    ///
    /// Non-last segments: a torn tail or any damage is `Corruption { segment,
    /// offset }`. Last segment: a torn tail on the final record is cut off; damage
    /// to an earlier record in that segment is still `Corruption`.
    pub fn load_segment(&mut self, seq: u64, bytes: &[u8], is_last: bool) -> (r: Result<
        Option<usize>,
        StorageError,
    >)
        requires
            old(self).wf(),
        ensures
            final(self).wf(),
            match (decode_from(bytes@, 0), r) {
                (Err(at), Err(e)) => final(self)@ == old(self)@ && e@ == (
                StorageErrorView::Corruption {
                    segment: if is_last {
                        None
                    } else {
                        Some(seq)
                    },
                    offset: at as u64,
                }),
                (Ok((ops, valid_len)), Err(e)) => !is_last && valid_len < bytes@.len()
                    && final(self)@ == old(self)@ && e@ == (StorageErrorView::Corruption {
                    segment: Some(seq),
                    offset: valid_len as u64,
                }),
                (Ok((ops, valid_len)), Ok(cut)) => (is_last || valid_len == bytes@.len()) && cut
                    == (if valid_len < bytes@.len() {
                    Some(valid_len as usize)
                } else {
                    None
                }) && final(self)@ == old(self)@.loaded(seq, ops, valid_len as u64, is_last),
                _ => false,
            },
    {
        let decoded = match decode(bytes) {
            Ok(decoded) => decoded,
            Err(e) => {
                let located = match e {
                    StorageError::Corruption { segment, offset } if !is_last => {
                        StorageError::Corruption { segment: Some(seq), offset }
                    },
                    other => other,
                };
                return Err(located);
            },
        };
        let torn: bool = decoded.valid_len < bytes.len();
        if torn && !is_last {
            return Err(
                StorageError::Corruption { segment: Some(seq), offset: decoded.valid_len as u64 },
            );
        }
        match max_index_of(&decoded.ops) {
            Some(max) => insert_segment(&mut self.segments, seq, max),
            None => {},
        }
        if is_last {
            self.active = Some(ActiveSegment { seq, written: decoded.valid_len as u64 });
        }
        if torn {
            Ok(Some(decoded.valid_len))
        } else {
            Ok(None)
        }
    }

    /// Takes note that a step was done.
    pub fn completed(&mut self, step: &DiskAction)
        requires
            old(self).wf(),
        ensures
            final(self)@ == old(self)@.after(step@),
            final(self).wf(),
    {
        let ghost before = self@;
        match step {
            DiskAction::WriteSnapshot { bytes } => {
                self.syncs = self.syncs.saturating_add(2);
            },
            DiskAction::WriteHardState { bytes } => {
                self.syncs = self.syncs.saturating_add(2);
            },
            DiskAction::RemoveSegment { seq } => {
                remove_segment(&mut self.segments, *seq);
            },
            DiskAction::Rotate { seq } => {
                self.active = None;
                self.syncs = self.syncs.saturating_add(1);
            },
            DiskAction::OpenSegment { seq } => {
                self.active = Some(ActiveSegment { seq: *seq, written: 0 });
            },
            DiskAction::AppendRecord { seq, bytes, touched } => {
                match self.active {
                    None => {},
                    Some(active) => {
                        self.active = Some(
                            ActiveSegment {
                                seq: active.seq,
                                written: active.written.saturating_add(bytes.len() as u64),
                            },
                        );
                        let max: u64 = find_max(&self.segments, *seq);
                        let max: u64 = if max >= *touched {
                            max
                        } else {
                            *touched
                        };
                        insert_segment(&mut self.segments, *seq, max);
                    },
                }
            },
            DiskAction::SyncSegment { seq } => {
                self.syncs = self.syncs.saturating_add(1);
            },
        }
        assert(self@ =~= before.after(step@));
    }

    /// Takes note that steps were done, one after another.
    fn completed_all(&mut self, steps: &Vec<DiskAction>)
        requires
            old(self).wf(),
        ensures
            final(self)@ == old(self)@.after_all(steps_view(steps@)),
            final(self).wf(),
    {
        let ghost before = self@;
        let ghost all = steps_view(steps@);
        let mut i: usize = 0;
        while i < steps.len()
            invariant
                i <= steps@.len(),
                all == steps_view(steps@),
                self.wf(),
                self@ == before.after_all(all.take(i as int)),
            decreases steps@.len() - i,
        {
            self.completed(&steps[i]);
            i += 1;
            assert(all.take(i as int).drop_last() =~= all.take(i - 1));
            assert(all.take(i as int).last() == steps@[i - 1]@);
        }
        assert(all.take(i as int) =~= all);
    }

    /// The same knowledge, to plan on.
    fn copy(&self) -> (r: DiskStorage)
        ensures
            r@ == self@,
    {
        let segments = self.segments.clone();
        assert(segments@ =~= self.segments@);
        DiskStorage {
            data_dir: self.data_dir.clone(),
            active: self.active,
            segments,
            syncs: self.syncs,
            rotate_threshold: self.rotate_threshold,
        }
    }

    /// The sequence number of the next segment, above every closed one and the
    /// active one, so that none is used twice.
    pub fn next_seq(&self) -> (r: u64)
        ensures
            r == self@.next_seq(),
    {
        let mut last: u64 = 0;
        if self.segments.len() > 0 {
            last = self.segments[self.segments.len() - 1].seq;
        }
        match self.active {
            Some(active) => {
                if active.seq > last {
                    last = active.seq;
                }
            },
            None => {},
        }
        last.saturating_add(1)
    }

    /// The steps that make one log mutation durable but for the last sync.
    ///
    /// If the write would push the segment past `rotate_threshold`, the active
    /// segment is synced first, then a new segment opens.
    pub fn plan_log_op(&self, op: &LogOp) -> (r: Vec<DiskAction>)
        ensures
            steps_view(r@) == self@.op_steps(op@),
    {
        let mut bytes: Vec<u8> = Vec::new();
        let _ = encode(op, &mut bytes);
        assert(bytes@ =~= op_record(op@));
        let mut steps: Vec<DiskAction> = Vec::new();
        let touched: u64 = op_index(op);
        let next: u64 = self.next_seq();
        match self.active {
            Some(active) => {
                if active.written.saturating_add(bytes.len() as u64) > self.rotate_threshold {
                    steps.push(DiskAction::Rotate { seq: active.seq });
                    steps.push(DiskAction::OpenSegment { seq: next });
                    steps.push(DiskAction::AppendRecord { seq: next, bytes, touched });
                } else {
                    steps.push(DiskAction::AppendRecord { seq: active.seq, bytes, touched });
                }
            },
            None => {
                steps.push(DiskAction::OpenSegment { seq: next });
                steps.push(DiskAction::AppendRecord { seq: next, bytes, touched });
            },
        }
        assert(steps_view(steps@) =~= self@.op_steps(op@));
        steps
    }

    /// The steps that delete a *prefix* of segments fully below `snapshot_index`.
    ///
    /// Two constraints, both load-bearing:
    ///
    /// 1. **Prefix only.** Deleting a segment removes its records from the replay
    ///    stream. A later `TruncateFrom` can depend on appends in an earlier
    ///    segment, so removing one from the middle changes what replay rebuilds.
    ///    Iteration stops at the first segment that is not fully covered.
    ///
    /// 2. **Strictly below the boundary** (`max_index < snapshot_index`, not `<=`).
    ///    [`replay`] decides whether to keep entries above the snapshot by
    ///    comparing the term of the entry *at* `snapshot_index`. Discarding that
    ///    entry turns a detected conflict into "already compacted, keep the tail",
    ///    which resurrects entries from a branch the snapshot supersedes.
    pub fn gc_segments(&self, snapshot_index: u64) -> (r: Vec<DiskAction>)
        ensures
            steps_view(r@) == self@.gc_steps(snapshot_index),
    {
        let mut steps: Vec<DiskAction> = Vec::new();
        let ghost all = self.segments@;
        let mut i: usize = 0;
        assert(all.skip(0) =~= all);
        while i < self.segments.len()
            invariant
                i <= self.segments@.len(),
                all == self.segments@,
                collectable(all, self.active, snapshot_index) == i + collectable(
                    all.skip(i as int),
                    self.active,
                    snapshot_index,
                ),
                steps_view(steps@) =~= Seq::new(
                    i as nat,
                    |k: int| DiskActionView::RemoveSegment { seq: all[k].seq },
                ),
            ensures
                steps_view(steps@) =~= Seq::new(
                    i as nat,
                    |k: int| DiskActionView::RemoveSegment { seq: all[k].seq },
                ),
                collectable(all, self.active, snapshot_index) == i,
            decreases self.segments@.len() - i,
        {
            let segment = self.segments[i];
            assert(all.skip(i as int)[0] == segment);
            assert(all.skip(i as int).skip(1) =~= all.skip(i + 1));
            let writable: bool = match self.active {
                Some(active) => active.seq == segment.seq,
                None => false,
            };
            if segment.max_index >= snapshot_index || writable {
                break ;
            }
            let ghost held = steps_view(steps@);
            let step = DiskAction::RemoveSegment { seq: segment.seq };
            steps.push(step);
            assert(steps_view(steps@) =~= held.push(step@));
            i += 1;
        }
        assert(steps_view(steps@) =~= self@.gc_steps(snapshot_index));
        steps
    }

    /// The steps that make a batch durable, in fixed order: snapshot → hard
    /// state → log.
    ///
    /// Hard state precedes log so a crash mid-batch never leaves higher-term
    /// log entries under a stale `currentTerm`/`votedFor` (Raft election safety).
    /// Snapshot still comes first: the boundary must be durable before any
    /// truncate that depends on it.
    ///
    /// Sync budget per batch: 1 per touched log segment + 2 per atomic file
    /// written (file fsync + directory rename fsync). An empty batch is a no-op.
    pub fn plan_commit(&self, batch: &WriteBatch) -> (r: Vec<DiskAction>)
        requires
            self.wf(),
        ensures
            steps_view(r@) == self@.plan(batch@),
    {
        let ghost s0 = self@;
        let mut state = self.copy();
        let mut steps: Vec<DiskAction> = Vec::new();
        // 1. Snapshot — atomic write, then GC segments fully below its boundary.
        match &batch.snapshot {
            Some(snap) => {
                let mut bytes: Vec<u8> = Vec::new();
                let _ = encode_snapshot(snap, &mut bytes);
                assert(bytes@ =~= frame(KIND_SNAPSHOT, snapshot_bytes(snap@)));
                steps.push(DiskAction::WriteSnapshot { bytes });
                let mut collected = self.gc_segments(snap.meta.last_included_index);
                let ghost gc = steps_view(collected@);
                steps.append(&mut collected);
            },
            None => {},
        }
        assert(steps_view(steps@) =~= s0.snapshot_steps(batch@.snapshot));
        // 2. Hard state — atomic write before log mutations in the same batch.
        match &batch.hard_state {
            Some(hs) => {
                let mut bytes: Vec<u8> = Vec::new();
                let _ = encode_hard_state(hs, &mut bytes);
                assert(bytes@ =~= frame(KIND_HARD_STATE, hard_state_bytes(*hs)));
                steps.push(DiskAction::WriteHardState { bytes });
            },
            None => {},
        }
        let ghost first = s0.snapshot_steps(batch@.snapshot) + s0.hard_state_steps(
            batch@.hard_state,
        );
        assert(steps_view(steps@) =~= first);
        // 3. Log ops — write all, then one sync on the active segment.
        if batch.log.len() == 0 {
            return steps;
        }
        state.completed_all(&steps);
        let ghost s1 = s0.after_all(first);
        let ghost ops = batch@.log;
        let mut i: usize = 0;
        assert(first + s1.log_steps(ops.take(0)) =~= first);
        while i < batch.log.len()
            invariant
                i <= batch.log@.len(),
                ops == ops_view(batch.log@),
                state.wf(),
                s1 == s0.after_all(first),
                steps_view(steps@) == first + s1.log_steps(ops.take(i as int)),
                state@ == s1.after_all(s1.log_steps(ops.take(i as int))),
            decreases batch.log@.len() - i,
        {
            let mut more = state.plan_log_op(&batch.log[i]);
            state.completed_all(&more);
            let ghost held = steps_view(steps@);
            let ghost added = steps_view(more@);
            steps.append(&mut more);
            assert(steps_view(steps@) =~= held + added);
            i += 1;
            proof {
                let earlier = s1.log_steps(ops.take(i - 1));
                assert(ops.take(i as int).drop_last() =~= ops.take(i - 1));
                assert(ops.take(i as int).last() == batch.log@[i - 1]@);
                lemma_after_all_add(s1, earlier, added);
                assert(held + added =~= first + (earlier + added));
            }
        }
        assert(ops.take(i as int) =~= ops);
        proof {
            lemma_after_all_add(s0, first, s1.log_steps(ops));
        }
        match state.active {
            Some(active) => {
                let ghost held = steps_view(steps@);
                let step = DiskAction::SyncSegment { seq: active.seq };
                steps.push(step);
                assert(steps_view(steps@) =~= held + seq![step@]);
            },
            None => {
                assert(steps_view(steps@) + Seq::<DiskActionView>::empty() =~= steps_view(steps@));
            },
        }
        steps
    }

    /// The segments to read on recovery, in ascending order, with an empty
    /// active segment that no record has touched yet.
    pub fn segments_to_read(&self) -> (r: Vec<u64>)
        requires
            self.wf(),
        ensures
            r@ == self@.to_read(),
    {
        let mut all = self.segments.clone();
        assert(all@ =~= self.segments@);
        assert(all@ == self@.segments && self@.wf());
        match self.active {
            Some(active) => insert_segment(&mut all, active.seq, 0),
            None => {},
        }
        let mut seqs: Vec<u64> = Vec::new();
        let mut i: usize = 0;
        while i < all.len()
            invariant
                i <= all@.len(),
                seqs@ =~= Seq::new(i as nat, |k: int| all@[k].seq),
            decreases all@.len() - i,
        {
            seqs.push(all[i].seq);
            i += 1;
        }
        assert(seqs@ =~= self@.to_read());
        seqs
    }
}

// ── recovery ────────────────────────────────────────────────────────────────

/// The log mutations of all segments, one segment after another, or the first
/// damage.
pub open spec fn segment_ops(segments: Seq<Seq<u8>>) -> Result<Seq<LogOpView>, StorageErrorView>
    decreases segments.len(),
{
    if segments.len() == 0 {
        Ok(Seq::empty())
    } else {
        match (segment_ops(segments.drop_last()), decode_from(segments.last(), 0)) {
            (Err(e), _) => Err(e),
            (Ok(_), Err(at)) => Err(damaged_at(at)@),
            (Ok(earlier), Ok((ops, _))) => Ok(earlier + ops),
        }
    }
}

/// The state that a restart makes of the files: the election state file, the
/// snapshot file and the segments in ascending order.
pub open spec fn recovered_from(
    hard_state: Option<Seq<u8>>,
    snapshot: Option<Seq<u8>>,
    segments: Seq<Seq<u8>>,
) -> Result<RecoveredView, StorageErrorView> {
    let hs = match hard_state {
        None => Some(HardState::initial()),
        Some(bytes) => stored_hard_state(bytes),
    };
    let snap = match snapshot {
        None => None,
        Some(bytes) => stored_snapshot(bytes),
    };
    let meta = match snap {
        Some(s) => Some(s.meta),
        None => None,
    };
    if hs is None || (snapshot is Some && snap is None) {
        Err(damaged_at(0)@)
    } else {
        match segment_ops(segments) {
            Err(e) => Err(e),
            Ok(ops) => match replayed(ops, meta) {
                Err(gap) => Err(
                    StorageErrorView::Corruption { segment: None, offset: gap.actual },
                ),
                Ok(log) => Ok(RecoveredView { hard_state: hs->0, log, snapshot: snap }),
            },
        }
    }
}

/// What an optional file holds.
pub open spec fn file_view(file: Option<Vec<u8>>) -> Option<Seq<u8>> {
    match file {
        Some(bytes) => Some(bytes@),
        None => None,
    }
}

/// What a list of files holds, in order.
pub open spec fn files_view(files: Seq<Vec<u8>>) -> Seq<Seq<u8>> {
    Seq::new(files.len(), |i: int| files[i]@)
}

/// Rebuilds durable state from the files' contents.
///
/// Segments were already validated and torn tails truncated on open. This
/// decodes them once more and passes all ops through [`replay`].
pub fn recover_from(
    hard_state: &Option<Vec<u8>>,
    snapshot: &Option<Vec<u8>>,
    segments: &Vec<Vec<u8>>,
) -> (r: Result<Recovered, StorageError>)
    ensures
        match r {
            Ok(recovered) => recovered_from(
                file_view(*hard_state),
                file_view(*snapshot),
                files_view(segments@),
            ) == Ok::<RecoveredView, StorageErrorView>(recovered@),
            Err(e) => recovered_from(
                file_view(*hard_state),
                file_view(*snapshot),
                files_view(segments@),
            ) == Err::<RecoveredView, StorageErrorView>(e@),
        },
{
    let hs = match hard_state {
        None => HardState::default(),
        Some(bytes) => match decode_hard_state(bytes.as_slice()) {
            Ok(hs) => hs,
            Err(e) => {
                return Err(e);
            },
        },
    };
    let snap = match snapshot {
        None => None,
        Some(bytes) => match decode_snapshot(bytes.as_slice()) {
            Ok(snap) => Some(snap),
            Err(e) => {
                return Err(e);
            },
        },
    };
    let ghost files = files_view(segments@);
    let mut ops: Vec<LogOp> = Vec::new();
    let mut i: usize = 0;
    assert(ops_view(ops@) =~= Seq::<LogOpView>::empty());
    while i < segments.len()
        invariant
            i <= segments@.len(),
            files == files_view(segments@),
            segment_ops(files.take(i as int)) == Ok::<Seq<LogOpView>, StorageErrorView>(
                ops_view(ops@),
            ),
            file_view(*snapshot) is Some ==> snap is Some,
            hard_state is None ==> hs == HardState::initial(),
            hard_state is Some ==> stored_hard_state(file_view(*hard_state)->0) == Some(hs),
            snapshot is None ==> snap is None,
            snapshot is Some ==> stored_snapshot(file_view(*snapshot)->0) == Some(snap->0@),
        decreases segments@.len() - i,
    {
        proof {
            assert(files.take(i + 1).drop_last() =~= files.take(i as int));
            assert(files.take(i + 1).last() == segments@[i as int]@);
        }
        match decode(segments[i].as_slice()) {
            Ok(decoded) => {
                let mut more = decoded.ops;
                let ghost held = ops_view(ops@);
                let ghost added = ops_view(more@);
                ops.append(&mut more);
                assert(ops_view(ops@) =~= held + added);
            },
            Err(e) => {
                proof {
                    lemma_segment_damage(files, i + 1);
                }
                return Err(e);
            },
        }
        i += 1;
    }
    assert(files.take(i as int) =~= files);
    let meta: Option<&SnapshotMeta> = match &snap {
        Some(s) => Some(&s.meta),
        None => None,
    };
    match replay(ops.as_slice(), meta) {
        Ok(log) => Ok(Recovered { hard_state: hs, log, snapshot: snap }),
        Err(e) => Err(e),
    }
}

/// Damage in an earlier segment is what counts.
proof fn lemma_segment_damage(segments: Seq<Seq<u8>>, n: int)
    requires
        0 <= n <= segments.len(),
        segment_ops(segments.take(n)) is Err,
    ensures
        segment_ops(segments) == segment_ops(segments.take(n)),
    decreases segments.len() - n,
{
    if n == segments.len() {
        assert(segments.take(n) =~= segments);
    } else {
        assert(segments.take(n + 1).drop_last() =~= segments.take(n));
        lemma_segment_damage(segments, n + 1);
    }
}

// ── laws ────────────────────────────────────────────────────────────────────

/// What lies at or above `index` after a mutation does not depend on what lies
/// below it before.
proof fn lemma_after_op_from(a: Seq<LogEntryView>, b: Seq<LogEntryView>, op: LogOpView, index: u64)
    requires
        from_index(a, index) == from_index(b, index),
    ensures
        from_index(after_op(a, op), index) == from_index(after_op(b, op), index),
{
    reveal(Seq::filter);
    let at_or_above = |e: LogEntryView| e.index >= index;
    let cut = touched_by(op);
    let kept = |e: LogEntryView| e.index < cut;
    let both = |e: LogEntryView| e.index >= index && e.index < cut;
    lemma_filter_filter(a, kept, at_or_above, both);
    lemma_filter_filter(a, at_or_above, kept, both);
    lemma_filter_filter(b, kept, at_or_above, both);
    lemma_filter_filter(b, at_or_above, kept, both);
    assert(from_index(below(a, cut), index) == from_index(below(b, cut), index));
    if let LogOpView::Append(e) = op {
        assert(below(a, cut).push(e).drop_last() =~= below(a, cut));
        assert(below(b, cut).push(e).drop_last() =~= below(b, cut));
    }
}

/// Mutations that touch only what lies below `index` leave nothing at or above
/// it.
proof fn lemma_only_below(ops: Seq<LogOpView>, index: u64)
    requires
        forall|i: int| 0 <= i < ops.len() ==> touched_by(#[trigger] ops[i]) < index,
    ensures
        from_index(entries_after(ops), index) == Seq::<LogEntryView>::empty(),
    decreases ops.len(),
{
    reveal(Seq::filter);
    if ops.len() > 0 {
        let init = ops.drop_last();
        lemma_only_below(init, index);
        let none = Seq::<LogEntryView>::empty();
        assert(from_index(none, index) =~= none);
        lemma_after_op_from(entries_after(init), none, ops.last(), index);
        assert(below(none, touched_by(ops.last())) =~= none);
        if let LogOpView::Append(e) = ops.last() {
            assert(none.push(e).drop_last() =~= none);
        }
    }
}

/// What lies at or above `index` comes from the mutations behind those that
/// touch only what lies below it.
proof fn lemma_dropped_prefix(dropped: Seq<LogOpView>, kept: Seq<LogOpView>, index: u64)
    requires
        forall|i: int| 0 <= i < dropped.len() ==> touched_by(#[trigger] dropped[i]) < index,
    ensures
        from_index(entries_after(dropped + kept), index) == from_index(
            entries_after(kept),
            index,
        ),
    decreases kept.len(),
{
    if kept.len() == 0 {
        reveal(Seq::filter);
        lemma_only_below(dropped, index);
        assert(dropped + kept =~= dropped);
    } else {
        lemma_dropped_prefix(dropped, kept.drop_last(), index);
        assert((dropped + kept).drop_last() =~= dropped + kept.drop_last());
        assert((dropped + kept).last() == kept.last());
        lemma_after_op_from(
            entries_after(dropped + kept.drop_last()),
            entries_after(kept.drop_last()),
            kept.last(),
            index,
        );
    }
}

/// Whether an entry contradicts a snapshot is seen in the entries at or above
/// its boundary.
proof fn lemma_contradicts_from(a: Seq<LogEntryView>, b: Seq<LogEntryView>, meta: SnapshotMeta)
    requires
        from_index(a, meta.last_included_index) == from_index(b, meta.last_included_index),
        contradicts(a, meta),
    ensures
        contradicts(b, meta),
{
    let p = |e: LogEntryView| e.index >= meta.last_included_index;
    lemma_filter_members(a, p);
    lemma_filter_members(b, p);
    let i = choose|i: int|
        0 <= i < a.len() && (#[trigger] a[i]).index == meta.last_included_index && a[i].term
            != meta.last_included_term;
    assert(a.filter(p).contains(a[i]));
    let j = b.filter(p).index_of(a[i]);
    assert(b.contains(b.filter(p)[j]));
    let k = b.index_of(a[i]);
    assert(b[k] == a[i]);
}

/// Collecting segments never changes what a restart rebuilds: log mutations that
/// touch only indices below the snapshot's boundary may be dropped from the
/// front of the stream.
pub proof fn law_gc_preserves_replay(
    dropped: Seq<LogOpView>,
    kept: Seq<LogOpView>,
    meta: SnapshotMeta,
)
    requires
        forall|i: int|
            0 <= i < dropped.len() ==> touched_by(#[trigger] dropped[i])
                < meta.last_included_index,
    ensures
        replayed(dropped + kept, Some(meta)) == replayed(kept, Some(meta)),
{
    let index = meta.last_included_index;
    let above = next_up(index);
    let all = entries_after(dropped + kept);
    let rest = entries_after(kept);
    lemma_dropped_prefix(dropped, kept, index);
    let p = |e: LogEntryView| e.index >= index;
    let q = |e: LogEntryView| e.index >= above;
    lemma_filter_filter(all, p, q, q);
    lemma_filter_filter(rest, p, q, q);
    if contradicts(all, meta) {
        lemma_contradicts_from(all, rest, meta);
    }
    if contradicts(rest, meta) {
        lemma_contradicts_from(rest, all, meta);
    }
    assert(kept_beside(all, Some(meta)) == kept_beside(rest, Some(meta)));
}

/// Only segments that lie wholly below the snapshot are collected, only from
/// the front, and never the one that takes writes.
pub proof fn law_gc_collects_a_prefix(state: DiskView, snapshot_index: u64, i: int)
    requires
        0 <= i < collectable(state.segments, state.active, snapshot_index),
    ensures
        i < state.segments.len(),
        state.segments[i].max_index < snapshot_index,
        state.active is Some ==> state.active->0.seq != state.segments[i].seq,
    decreases state.segments.len(),
{
    if i > 0 {
        let rest = DiskView { segments: state.segments.skip(1), ..state };
        law_gc_collects_a_prefix(rest, snapshot_index, i - 1);
    }
}

} // verus!
