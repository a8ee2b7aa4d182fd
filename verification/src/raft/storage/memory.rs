//! In-memory storage backend for the simulator and unit tests.
//!
//! Holds the same byte stream that a disk segment file would hold, so
//! `record::decode` + `replay` work identically on both backends.

use vstd::prelude::*;

use crate::error::{Error, StorageError, StorageErrorView};
use crate::raft::log::next_up;
use crate::raft::snapshot::{Snapshot, SnapshotMeta, SnapshotView};
use crate::raft::snapshot_view;
use crate::raft::storage::hard_state::HardState;
use crate::raft::storage::record::{
    damaged_at, decode, decode_from, encode_all, lemma_clean_prefix, lemma_decode_extends,
    lemma_decode_records, op_records, ops_fit, LogOpView,
};
use crate::raft::storage::{
    replay, replayed, BatchView, Recovered, RecoveredView, Storage, WriteBatch,
};

verus! {

/// Durable state kept in memory.
#[derive(Debug)]
pub struct MemoryStorage {
    /// Encoded log record stream — same byte layout as a disk segment file.
    log_bytes: Vec<u8>,
    hard_state: Option<HardState>,
    snapshot: Option<Snapshot>,
    syncs: u64,
    /// How many more commits fail, for drivers that must survive it.
    fail_commits: u32,
}

/// What a [`MemoryStorage`] holds.
#[verifier::ext_equal]
pub struct MemoryView {
    pub log_bytes: Seq<u8>,
    pub hard_state: Option<HardState>,
    pub snapshot: Option<SnapshotView>,
    pub syncs: u64,
    pub fail_commits: u32,
}

impl View for MemoryStorage {
    type V = MemoryView;

    closed spec fn view(&self) -> MemoryView {
        MemoryView {
            log_bytes: self.log_bytes@,
            hard_state: self.hard_state,
            snapshot: snapshot_view(self.snapshot),
            syncs: self.syncs,
            fail_commits: self.fail_commits,
        }
    }
}

impl MemoryView {
    /// The store that nothing was written to.
    pub open spec fn empty() -> MemoryView {
        MemoryView {
            log_bytes: Seq::empty(),
            hard_state: None,
            snapshot: None,
            syncs: 0,
            fail_commits: 0,
        }
    }

    /// The store after `batch`, and whether it took the batch. A torn tail of an
    /// earlier write is cut off first; a damaged log takes no more writes.
    pub open spec fn commit(self, batch: BatchView) -> (MemoryView, Result<(), StorageErrorView>) {
        if batch.is_empty() {
            (self, Ok(()))
        } else if self.fail_commits > 0 {
            (
                MemoryView { fail_commits: (self.fail_commits - 1) as u32, ..self },
                Err(StorageErrorView::Io("injected commit failure"@)),
            )
        } else {
            match decode_from(self.log_bytes, 0) {
                Err(at) => (self, Err(damaged_at(at)@)),
                Ok((_, valid_len)) => (
                    MemoryView {
                        log_bytes: self.log_bytes.take(valid_len) + op_records(batch.log),
                        hard_state: if batch.hard_state is Some {
                            batch.hard_state
                        } else {
                            self.hard_state
                        },
                        snapshot: if batch.snapshot is Some {
                            batch.snapshot
                        } else {
                            self.snapshot
                        },
                        syncs: next_up(self.syncs),
                        ..self
                    },
                    Ok(()),
                ),
            }
        }
    }

    /// The store after batches, one after another.
    pub open spec fn after_commits(self, batches: Seq<BatchView>) -> MemoryView
        decreases batches.len(),
    {
        if batches.len() == 0 {
            self
        } else {
            self.after_commits(batches.drop_last()).commit(batches.last()).0
        }
    }

    /// The boundary of the stored snapshot.
    pub open spec fn boundary(self) -> Option<SnapshotMeta> {
        match self.snapshot {
            Some(s) => Some(s.meta),
            None => None,
        }
    }

    /// The state that a restart finds.
    pub open spec fn recover(self) -> Result<RecoveredView, StorageErrorView> {
        match decode_from(self.log_bytes, 0) {
            Err(at) => Err(damaged_at(at)@),
            Ok((ops, _)) => match replayed(ops, self.boundary()) {
                Err(gap) => Err(
                    StorageErrorView::Corruption { segment: None, offset: gap.actual },
                ),
                Ok(log) => Ok(
                    RecoveredView {
                        hard_state: match self.hard_state {
                            Some(hs) => hs,
                            None => HardState::initial(),
                        },
                        log,
                        snapshot: self.snapshot,
                    },
                ),
            },
        }
    }
}

/// What was committed is recovered: after a batch, the log mutations of the
/// store are those it had and then those of the batch, and the election state
/// and the snapshot are the batch's where it has them.
pub proof fn law_commit_then_recover(store: MemoryView, batch: BatchView)
    requires
        decode_from(store.log_bytes, 0) is Ok,
        store.fail_commits == 0,
        ops_fit(batch.log),
    ensures
        store.commit(batch).1 is Ok,
        ({
            let after = store.commit(batch).0;
            &&& decode_from(after.log_bytes, 0) is Ok
            &&& decode_from(after.log_bytes, 0)->Ok_0.0 == decode_from(
                store.log_bytes,
                0,
            )->Ok_0.0 + batch.log
            &&& after.hard_state == if batch.hard_state is Some {
                batch.hard_state
            } else {
                store.hard_state
            }
            &&& after.snapshot == if batch.snapshot is Some {
                batch.snapshot
            } else {
                store.snapshot
            }
        }),
{
    let bytes = store.log_bytes;
    let (ops, valid_len) = decode_from(bytes, 0)->Ok_0;
    if batch.is_empty() {
        assert(ops + batch.log =~= ops);
    } else {
        lemma_clean_prefix(bytes, 0);
        let after = store.commit(batch).0.log_bytes;
        let records = op_records(batch.log);
        lemma_decode_extends(bytes, after, 0);
        assert(after.subrange(valid_len, valid_len + records.len()) =~= records);
        lemma_decode_records(after, valid_len, batch.log);
        assert(ops + (batch.log + Seq::<LogOpView>::empty()) =~= ops + batch.log);
    }
}

impl Default for MemoryStorage {
    fn default() -> (r: Self)
        ensures
            r@ == MemoryView::empty(),
    {
        let r = MemoryStorage {
            log_bytes: Vec::new(),
            hard_state: None,
            snapshot: None,
            syncs: 0,
            fail_commits: 0,
        };
        assert(r@ =~= MemoryView::empty());
        r
    }
}

impl Clone for MemoryStorage {
    fn clone(&self) -> (r: Self)
        ensures
            r@ == self@,
    {
        let log_bytes = crate::raft::log::copy_bytes(&self.log_bytes);
        let snapshot = match &self.snapshot {
            Some(s) => Some(s.clone()),
            None => None,
        };
        MemoryStorage {
            log_bytes,
            hard_state: self.hard_state,
            snapshot,
            syncs: self.syncs,
            fail_commits: self.fail_commits,
        }
    }
}

impl MemoryStorage {
    /// Exposes the raw log bytes for byte-level corruption tests.
    pub fn log_bytes_mut(&mut self) -> (r: &mut Vec<u8>)
        ensures
            r@ == old(self)@.log_bytes,
            final(self)@ == (MemoryView { log_bytes: final(r)@, ..old(self)@ }),
    {
        &mut self.log_bytes
    }

    /// Next `n` commits fail with a synthetic IO error (fail-closed driver tests).
    pub fn fail_next_commits(&mut self, n: u32)
        ensures
            final(self)@ == (MemoryView { fail_commits: n, ..old(self)@ }),
    {
        self.fail_commits = n;
    }
}

impl Storage for MemoryStorage {
    fn commit(&mut self, batch: &WriteBatch) -> (r: Result<(), Error>)
        ensures
            final(self)@ == old(self)@.commit(batch@).0,
            match r {
                Ok(_) => old(self)@.commit(batch@).1 is Ok,
                Err(e) => e is Storage && old(self)@.commit(batch@).1 == Err::<
                    (),
                    StorageErrorView,
                >(e->Storage_0@),
            },
    {
        let ghost before = self@;
        if batch.is_empty() {
            return Ok(());
        }
        if self.fail_commits > 0 {
            self.fail_commits = self.fail_commits - 1;
            assert(self@ =~= before.commit(batch@).0);
            return Err(Error::Storage(StorageError::Io("injected commit failure".to_owned())));
        }
        // Drop any torn tail left by a prior partial write before extending.

        let decoded = match decode(self.log_bytes.as_slice()) {
            Ok(decoded) => decoded,
            Err(e) => {
                return Err(Error::Storage(e));
            },
        };
        if decoded.valid_len < self.log_bytes.len() {
            self.log_bytes.truncate(decoded.valid_len);
        }
        assert(self.log_bytes@ =~= before.log_bytes.take(decoded.valid_len as int));
        // Same durable order as on disk: snapshot → hard state → log.
        match &batch.snapshot {
            Some(snap) => {
                self.snapshot = Some(snap.clone());
            },
            None => {},
        }
        match batch.hard_state {
            Some(hs) => {
                self.hard_state = Some(hs);
            },
            None => {},
        }
        let _ = encode_all(&batch.log, &mut self.log_bytes);
        // One "sync" per non-empty batch models the fsync cost in group-commit tests.
        self.syncs = self.syncs.saturating_add(1);
        assert(self@ =~= before.commit(batch@).0);
        Ok(())
    }

    fn recover(&self) -> (r: Result<Recovered, Error>)
        ensures
            match r {
                Ok(recovered) => self@.recover() == Ok::<RecoveredView, StorageErrorView>(
                    recovered@,
                ),
                Err(e) => e is Storage && self@.recover() == Err::<
                    RecoveredView,
                    StorageErrorView,
                >(e->Storage_0@),
            },
    {
        let decoded = match decode(self.log_bytes.as_slice()) {
            Ok(decoded) => decoded,
            Err(e) => {
                return Err(Error::Storage(e));
            },
        };
        let snap_meta: Option<&SnapshotMeta> = match &self.snapshot {
            Some(s) => Some(&s.meta),
            None => None,
        };
        let log = match replay(decoded.ops.as_slice(), snap_meta) {
            Ok(log) => log,
            Err(e) => {
                return Err(Error::Storage(e));
            },
        };
        let hard_state = match self.hard_state {
            Some(hs) => hs,
            None => HardState::default(),
        };
        let snapshot = match &self.snapshot {
            Some(s) => Some(s.clone()),
            None => None,
        };
        Ok(Recovered { hard_state, log, snapshot })
    }

    fn sync_count(&self) -> (r: u64)
        ensures
            r == self@.syncs,
    {
        self.syncs
    }
}

} // verus!
