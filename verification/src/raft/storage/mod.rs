//! Raft-specific persistence types and storage boundary.
//!
//! This module owns data that must survive a node restart. Backend mechanics
//! remain behind the storage implementation rather than in the Raft core.
//!
//! - [`memory`] — in-memory backend for the sim and unit tests
//! - [`disk`]   — decisions of the segment-file backend

pub mod crc;
pub mod disk;
pub mod disk_laws;
pub mod durability;
pub mod hard_state;
pub mod layout;
pub mod memory;
pub mod plans;
pub mod record;
pub mod replaying;

pub use disk::DiskStorage;
pub use hard_state::HardState;
pub use memory::MemoryStorage;
pub use record::LogOp;

use vstd::prelude::*;

use crate::config::StorageBackend;
use crate::error::{Error, StorageError};
use crate::raft::log::{
    entries_view, next_up, LogEntry, LogEntryView, LogIndexError, RaftLog, RaftLogView,
};
use crate::raft::snapshot::{Snapshot, SnapshotMeta, SnapshotView};
use crate::raft::snapshot_view;
use crate::seqs::{lemma_filter_prefix, lemma_filter_suffix};
use record::{ops_view, LogOpView};

verus! {

/// What [`open`] found the configuration to ask for.
#[derive(Debug)]
pub enum OpenedStorage {
    /// The in-memory store, ready for use.
    Memory(MemoryStorage),
    /// The segment-file store under `data_dir`, for the runtime to open.
    Disk { data_dir: String },
}

/// Opens the configured storage backend.
///
/// `Memory` is for the simulator and unit tests. `Disk` names the directory of
/// the segment-file store; opening files is the runtime's part.
pub fn open(backend: &StorageBackend) -> (r: OpenedStorage)
    ensures
        match (backend, r) {
            (StorageBackend::Memory, OpenedStorage::Memory(m)) => m@
                == memory::MemoryView::empty(),
            (StorageBackend::Disk { data_dir }, OpenedStorage::Disk { data_dir: d }) => d@
                == data_dir@,
            _ => false,
        },
{
    match backend {
        StorageBackend::Memory => OpenedStorage::Memory(MemoryStorage::default()),
        StorageBackend::Disk { data_dir } => OpenedStorage::Disk { data_dir: data_dir.clone() },
    }
}

// ── public types ────────────────────────────────────────────────────────────

/// Durable state a node restarts from. Everything else resets.
///
/// `log` carries the snapshot boundary and must be built by [`replay`], never
/// assembled by hand.
#[derive(Debug, PartialEq, Eq)]
pub struct Recovered {
    pub hard_state: HardState,
    pub log: RaftLog,
    pub snapshot: Option<Snapshot>,
}

/// What a [`Recovered`] holds.
pub struct RecoveredView {
    pub hard_state: HardState,
    pub log: RaftLogView,
    pub snapshot: Option<SnapshotView>,
}

impl View for Recovered {
    type V = RecoveredView;

    open spec fn view(&self) -> RecoveredView {
        RecoveredView {
            hard_state: self.hard_state,
            log: self.log@,
            snapshot: snapshot_view(self.snapshot),
        }
    }
}

impl Clone for Recovered {
    fn clone(&self) -> (r: Self)
        ensures
            r@ == self@,
    {
        Recovered {
            hard_state: self.hard_state,
            log: self.log.clone(),
            snapshot: match &self.snapshot {
                Some(snapshot) => Some(snapshot.clone()),
                None => None,
            },
        }
    }
}

/// All mutations produced by one driver turn.
///
/// `commit` makes the whole batch durable in a single group-commit call.
/// Durable order is: snapshot → hard state → log.
#[derive(Debug)]
pub struct WriteBatch {
    /// Last `Persist` effect in the batch wins.
    pub hard_state: Option<HardState>,
    /// Log ops in output order (appends and truncations).
    pub log: Vec<LogOp>,
    pub snapshot: Option<Snapshot>,
}

/// What a [`WriteBatch`] holds.
#[verifier::ext_equal]
pub struct BatchView {
    pub hard_state: Option<HardState>,
    pub log: Seq<LogOpView>,
    pub snapshot: Option<SnapshotView>,
}

impl View for WriteBatch {
    type V = BatchView;

    open spec fn view(&self) -> BatchView {
        BatchView {
            hard_state: self.hard_state,
            log: ops_view(self.log@),
            snapshot: snapshot_view(self.snapshot),
        }
    }
}

impl BatchView {
    /// The batch that writes nothing.
    pub open spec fn empty() -> BatchView {
        BatchView { hard_state: None, log: Seq::empty(), snapshot: None }
    }

    /// Whether the batch writes nothing.
    pub open spec fn is_empty(self) -> bool {
        self.hard_state is None && self.log.len() == 0 && self.snapshot is None
    }
}

impl Default for WriteBatch {
    fn default() -> (r: Self)
        ensures
            r@ == BatchView::empty(),
    {
        let r = WriteBatch { hard_state: None, log: Vec::new(), snapshot: None };
        assert(r@ =~= BatchView::empty());
        r
    }
}

impl WriteBatch {
    /// Returns whether the batch writes nothing.
    pub fn is_empty(&self) -> (r: bool)
        ensures
            r == self@.is_empty(),
    {
        self.hard_state.is_none() && self.log.len() == 0 && self.snapshot.is_none()
    }
}

// ── Storage trait ───────────────────────────────────────────────────────────

/// A place where a node's durable state is kept.
pub trait Storage {
    /// Makes the whole batch durable; one sync per touched file.
    fn commit(&mut self, batch: &WriteBatch) -> Result<(), Error>;

    /// Rebuilds durable state. Torn tail tolerated; corruption is an error.
    fn recover(&self) -> Result<Recovered, Error>;

    /// Number of fsyncs performed so far. Used in group-commit tests.
    fn sync_count(&self) -> u64;
}

// ── replay ──────────────────────────────────────────────────────────────────

/// The mutations that a log output stands for.
pub open spec fn log_ops(truncate_from: Option<u64>, entries: Seq<LogEntryView>) -> Seq<
    LogOpView,
> {
    let appends = Seq::new(entries.len(), |i: int| LogOpView::Append(entries[i]));
    match truncate_from {
        Some(index) => seq![LogOpView::TruncateFrom(index)] + appends,
        None => appends,
    }
}

/// The entries below `index`.
pub open spec fn below(entries: Seq<LogEntryView>, index: u64) -> Seq<LogEntryView> {
    entries.filter(|e: LogEntryView| e.index < index)
}

/// The entries at or above `index`.
pub open spec fn from_index(entries: Seq<LogEntryView>, index: u64) -> Seq<LogEntryView> {
    entries.filter(|e: LogEntryView| e.index >= index)
}

/// The entries that are left after one more mutation: an append replaces what
/// was at or above its index.
pub open spec fn after_op(entries: Seq<LogEntryView>, op: LogOpView) -> Seq<LogEntryView> {
    match op {
        LogOpView::Append(e) => below(entries, e.index).push(e),
        LogOpView::TruncateFrom(i) => below(entries, i),
    }
}

/// The entries that are left after `ops`, in index order.
pub open spec fn entries_after(ops: Seq<LogOpView>) -> Seq<LogEntryView>
    decreases ops.len(),
{
    if ops.len() == 0 {
        Seq::empty()
    } else {
        after_op(entries_after(ops.drop_last()), ops.last())
    }
}

/// Whether an entry contradicts the snapshot at its boundary.
pub open spec fn contradicts(entries: Seq<LogEntryView>, meta: SnapshotMeta) -> bool {
    exists|i: int|
        0 <= i < entries.len() && (#[trigger] entries[i]).index == meta.last_included_index
            && entries[i].term != meta.last_included_term
}

/// The entries to keep beside a snapshot: those above its boundary, and none
/// where the boundary shows that they belong to another branch.
pub open spec fn kept_beside(entries: Seq<LogEntryView>, meta: Option<SnapshotMeta>) -> Seq<
    LogEntryView,
> {
    match meta {
        None => entries,
        Some(m) => if contradicts(entries, m) {
            Seq::empty()
        } else {
            from_index(entries, next_up(m.last_included_index))
        },
    }
}

/// The empty log behind a snapshot.
pub open spec fn base_log(meta: Option<SnapshotMeta>) -> RaftLogView {
    match meta {
        None => RaftLogView::empty(),
        Some(m) => RaftLogView::empty().install_snapshot(
            m.last_included_index,
            m.last_included_term,
        ),
    }
}

/// The log that `ops` and the snapshot describe, or where it has a gap.
pub open spec fn replayed(ops: Seq<LogOpView>, meta: Option<SnapshotMeta>) -> Result<
    RaftLogView,
    LogIndexError,
> {
    let (log, appended) = base_log(meta).append_all(kept_beside(entries_after(ops), meta));
    match appended {
        Ok(_) => Ok(log),
        Err(gap) => Err(gap),
    }
}

/// The snapshot boundary, where there is one.
pub open spec fn meta_of(meta: Option<&SnapshotMeta>) -> Option<SnapshotMeta> {
    match meta {
        Some(m) => Some(*m),
        None => None,
    }
}

/// Entries in strictly ascending index order.
pub open spec fn ascending(entries: Seq<LogEntryView>) -> bool {
    forall|i: int, j: int|
        0 <= i < j < entries.len() ==> (#[trigger] entries[i]).index < (
        #[trigger] entries[j]).index
}

/// Drops the entries at or above `index`.
fn drop_from(entries: &mut Vec<LogEntry>, index: u64)
    requires
        ascending(entries_view(old(entries)@)),
    ensures
        entries_view(final(entries)@) == below(entries_view(old(entries)@), index),
        ascending(entries_view(final(entries)@)),
        forall|i: int|
            0 <= i < final(entries)@.len() ==> (#[trigger] entries_view(
                final(entries)@,
            )[i]).index < index,
{
    let ghost before = entries_view(entries@);
    let mut n: usize = entries.len();
    while n > 0 && entries[n - 1].index >= index
        invariant
            n <= entries@.len(),
            before == entries_view(entries@),
            forall|i: int| n <= i < before.len() ==> (#[trigger] before[i]).index >= index,
        decreases n,
    {
        n -= 1;
    }
    entries.truncate(n);
    proof {
        if n > 0 {
            assert(before[n - 1].index < index);
        }
        assert(entries_view(entries@) =~= before.take(n as int));
        lemma_filter_prefix(before, |e: LogEntryView| e.index < index, n as int);
    }
}

/// Rebuilds a [`RaftLog`] from a sequence of log ops and an optional snapshot.
///
/// This is the only way a recovered log gets constructed; both the memory and
/// disk backends call it to recover.
///
/// ## Algorithm
///
/// 1. Fold ops into entries in ascending index order:
///    - `Append(e)` drops all entries ≥ `e.index`, then adds `e`.
///    - `TruncateFrom(i)` drops all entries ≥ `i`.
///
/// 2. Reconcile with the snapshot boundary `(idx, term)`:
///    - Entry at `idx` has the same term → keep entries above `idx`.
///    - Entry at `idx` has a different term → drop everything (stale branch).
///    - No entry at `idx` (already compacted) → keep entries above `idx`.
///
/// 3. Build the log: `install_snapshot` sets the boundary; then `append` each
///    kept entry. A gap returns `Corruption`.
pub fn replay(ops: &[LogOp], snap_meta: Option<&SnapshotMeta>) -> (r: Result<
    RaftLog,
    StorageError,
>)
    ensures
        match r {
            Ok(log) => replayed(ops_view(ops@), meta_of(snap_meta)) == Ok::<
                RaftLogView,
                LogIndexError,
            >(log@),
            Err(e) => replayed(ops_view(ops@), meta_of(snap_meta)) is Err && e == (
            StorageError::Corruption {
                segment: None,
                offset: replayed(ops_view(ops@), meta_of(snap_meta))->Err_0.actual,
            }),
        },
{
    let meta: Option<SnapshotMeta> = match snap_meta {
        Some(meta) => Some(*meta),
        None => None,
    };
    let ghost all = ops_view(ops@);
    let mut entries: Vec<LogEntry> = Vec::new();
    let mut i: usize = 0;
    assert(entries_view(entries@) =~= entries_after(all.take(0)));
    while i < ops.len()
        invariant
            i <= ops@.len(),
            all == ops_view(ops@),
            entries_view(entries@) == entries_after(all.take(i as int)),
            ascending(entries_view(entries@)),
        decreases ops@.len() - i,
    {
        match &ops[i] {
            LogOp::Append(e) => {
                drop_from(&mut entries, e.index);
                let ghost held = entries_view(entries@);
                let entry = e.clone();
                entries.push(entry);
                assert(entries_view(entries@) =~= held.push(entry@));
            },
            LogOp::TruncateFrom(index) => {
                drop_from(&mut entries, *index);
            },
        }
        i += 1;
        proof {
            assert(all.take(i as int).drop_last() =~= all.take(i - 1));
            assert(all.take(i as int).last() == ops@[i - 1]@);
        }
    }
    assert(all.take(i as int) =~= all);
    let ghost sparse = entries_view(entries@);
    let mut log = RaftLog::new();
    let mut first: usize = 0;
    match meta {
        None => {},
        Some(meta) => {
            let (kept_from, contradiction): (usize, bool) = boundary(&entries, meta);
            if contradiction {
                first = entries.len();
            } else {
                first = kept_from;
            }
            log.install_snapshot(meta.last_included_index, meta.last_included_term);
        },
    }
    let ghost kept = kept_beside(sparse, meta);
    assert(kept =~= sparse.skip(first as int));
    let ghost base = log@;
    let mut k: usize = first;
    assert(kept.skip(0) =~= kept);
    while k < entries.len()
        invariant
            first <= k <= entries@.len(),
            sparse == entries_view(entries@),
            kept == sparse.skip(first as int),
            meta == meta_of(snap_meta),
            kept == kept_beside(entries_after(ops_view(ops@)), meta),
            base == base_log(meta),
            base.append_all(kept) == log@.append_all(kept.skip(k - first)),
        decreases entries@.len() - k,
    {
        proof {
            assert(kept.skip(k - first)[0] == entries@[k as int]@);
            assert(kept.skip(k - first).skip(1) =~= kept.skip(k + 1 - first));
        }
        match log.append(entries[k].clone()) {
            Ok(_) => {},
            Err(gap) => {
                return Err(StorageError::Corruption { segment: None, offset: gap.actual });
            },
        }
        k += 1;
    }
    assert(kept.skip(k - first) =~= Seq::<LogEntryView>::empty());
    Ok(log)
}

/// Where the entries above the snapshot's boundary begin, and whether the entry
/// at the boundary contradicts the snapshot.
fn boundary(entries: &Vec<LogEntry>, meta: SnapshotMeta) -> (r: (usize, bool))
    requires
        ascending(entries_view(entries@)),
    ensures
        r.0 <= entries@.len(),
        r.1 == contradicts(entries_view(entries@), meta),
        entries_view(entries@).skip(r.0 as int) == from_index(
            entries_view(entries@),
            next_up(meta.last_included_index),
        ),
{
    let ghost all = entries_view(entries@);
    let above: u64 = meta.last_included_index.saturating_add(1);
    let mut contradiction: bool = false;
    let mut n: usize = 0;
    let mut i: usize = 0;
    while i < entries.len()
        invariant
            i <= entries@.len(),
            n <= i,
            all == entries_view(entries@),
            ascending(all),
            above == next_up(meta.last_included_index),
            contradiction == contradicts(all.take(i as int), meta),
            forall|j: int| 0 <= j < n ==> (#[trigger] all[j]).index < above,
            forall|j: int| n <= j < i ==> (#[trigger] all[j]).index >= above,
        decreases entries@.len() - i,
    {
        let entry = &entries[i];
        let ghost seen = all.take(i as int);
        let ghost more = all.take(i + 1);
        assert(more =~= seen.push(entry@));
        if entry.index == meta.last_included_index && entry.term != meta.last_included_term {
            contradiction = true;
            assert(more[i as int].index == meta.last_included_index);
        }
        if entry.index < above {
            proof {
                if n < i {
                    assert(all[n as int].index < all[i as int].index);
                }
            }
            n = i + 1;
        }
        proof {
            if contradicts(seen, meta) {
                let j = choose|j: int|
                    0 <= j < seen.len() && (#[trigger] seen[j]).index
                        == meta.last_included_index && seen[j].term != meta.last_included_term;
                assert(more[j] == seen[j]);
            }
            if contradicts(more, meta) {
                let j = choose|j: int|
                    0 <= j < more.len() && (#[trigger] more[j]).index
                        == meta.last_included_index && more[j].term != meta.last_included_term;
                if j < i {
                    assert(seen[j] == more[j]);
                }
            }
        }
        i += 1;
    }
    proof {
        assert(all.take(i as int) =~= all);
        lemma_filter_suffix(all, |e: LogEntryView| e.index >= above, n as int);
    }
    (n, contradiction)
}

} // verus!
