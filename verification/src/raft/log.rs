//! Raft log and log entry definitions.

use vstd::prelude::*;

use crate::text::{decimal, push_str, push_u64};

verus! {

/// One replicated state-machine operation.
#[derive(Debug, PartialEq, Eq)]
pub struct LogEntry {
    /// One-based, contiguous position in the Raft log.
    pub index: u64,
    /// Term of the leader that created the entry.
    pub term: u64,
    /// Serialized state-machine command, such as Put, Delete, or CAS.
    pub command: Vec<u8>,
}

/// What a [`LogEntry`] holds.
pub struct LogEntryView {
    pub index: u64,
    pub term: u64,
    pub command: Seq<u8>,
}

impl View for LogEntry {
    type V = LogEntryView;

    open spec fn view(&self) -> LogEntryView {
        LogEntryView { index: self.index, term: self.term, command: self.command@ }
    }
}

impl Clone for LogEntry {
    fn clone(&self) -> (r: Self)
        ensures
            r@ == self@,
    {
        LogEntry { index: self.index, term: self.term, command: copy_bytes(&self.command) }
    }
}

impl LogEntry {
    /// Creates a log entry. [`RaftLog`] validates its index when appending it.
    pub fn new(index: u64, term: u64, command: Vec<u8>) -> (r: Self)
        ensures
            r@ == (LogEntryView { index, term, command: command@ }),
    {
        Self { index, term, command }
    }
}

/// What a list of entries holds, in order.
pub open spec fn entries_view(entries: Seq<LogEntry>) -> Seq<LogEntryView> {
    Seq::new(entries.len(), |i: int| entries[i]@)
}

/// Copies a byte string.
pub fn copy_bytes(bytes: &Vec<u8>) -> (r: Vec<u8>)
    ensures
        r@ == bytes@,
{
    let r = bytes.clone();
    assert(r@ =~= bytes@);
    r
}

/// Copies the entries of `entries` from position `from` on.
pub fn copy_entries(entries: &[LogEntry], from: usize) -> (r: Vec<LogEntry>)
    requires
        from <= entries@.len(),
    ensures
        entries_view(r@) == entries_view(entries@).skip(from as int),
{
    let mut r: Vec<LogEntry> = Vec::new();
    let mut i: usize = from;
    while i < entries.len()
        invariant
            from <= i <= entries@.len(),
            entries_view(r@) =~= entries_view(entries@).subrange(from as int, i as int),
        decreases entries@.len() - i,
    {
        let entry = entries[i].clone();
        let ghost held = r@;
        r.push(entry);
        i += 1;
        assert(entries_view(r@) =~= entries_view(held).push(entry@));
        assert(entry@ == entries_view(entries@)[i - 1]);
    }
    assert(entries_view(r@) =~= entries_view(entries@).skip(from as int));
    r
}

/// An operation that would violate Raft's contiguous-log invariant.
#[derive(Debug, Clone, Copy, PartialEq, Eq, Structural)]
pub struct LogIndexError {
    /// Index the log needed next.
    pub expected: u64,
    /// Index supplied by the caller.
    pub actual: u64,
}

impl LogIndexError {
    /// The text of the error.
    pub open spec fn message_text(self) -> Seq<char> {
        "expected contiguous log index "@ + decimal(self.expected as nat) + ", received "@
            + decimal(self.actual as nat)
    }

    /// Renders the error for a person.
    pub fn message(&self) -> (r: String)
        ensures
            r@ == self.message_text(),
    {
        let mut out: String = String::new();
        push_str(&mut out, "expected contiguous log index ");
        push_u64(&mut out, self.expected);
        push_str(&mut out, ", received ");
        push_u64(&mut out, self.actual);
        assert(out@ =~= self.message_text());
        out
    }
}

/// The mutation [`RaftLog::append_from_leader`] applied to the local log.
///
/// Empty when every incoming entry already matched. Otherwise the driver must
/// make `truncated_from` (if any) and then `appended` durable before the
/// success reply that depends on them.
#[derive(Debug, PartialEq, Eq)]
pub struct AppendOutcome {
    /// First index removed from the local suffix, if a conflict removed any.
    pub truncated_from: Option<u64>,
    /// Entries appended, in index order.
    pub appended: Vec<LogEntry>,
}

/// What an [`AppendOutcome`] holds.
pub struct AppendOutcomeView {
    pub truncated_from: Option<u64>,
    pub appended: Seq<LogEntryView>,
}

impl View for AppendOutcome {
    type V = AppendOutcomeView;

    open spec fn view(&self) -> AppendOutcomeView {
        AppendOutcomeView {
            truncated_from: self.truncated_from,
            appended: entries_view(self.appended@),
        }
    }
}

impl Clone for AppendOutcome {
    fn clone(&self) -> (r: Self)
        ensures
            r@ == self@,
    {
        let appended = copy_entries(self.appended.as_slice(), 0);
        assert(entries_view(appended@) =~= entries_view(self.appended@));
        AppendOutcome { truncated_from: self.truncated_from, appended }
    }
}

impl AppendOutcomeView {
    /// The outcome of a merge that left the log as it was.
    pub open spec fn unchanged() -> AppendOutcomeView {
        AppendOutcomeView { truncated_from: None, appended: Seq::empty() }
    }

    /// Whether the log was left as it was.
    pub open spec fn is_empty(self) -> bool {
        self.truncated_from is None && self.appended.len() == 0
    }
}

impl Default for AppendOutcome {
    fn default() -> (r: Self)
        ensures
            r@ == AppendOutcomeView::unchanged(),
    {
        let r = AppendOutcome { truncated_from: None, appended: Vec::new() };
        assert(r@.appended =~= Seq::<LogEntryView>::empty());
        r
    }
}

impl AppendOutcome {
    /// Returns whether the log was left unchanged.
    pub fn is_empty(&self) -> (r: bool)
        ensures
            r == self@.is_empty(),
    {
        self.truncated_from.is_none() && self.appended.len() == 0
    }
}

/// A log lookup that cannot be satisfied without inventing a wrong answer.
#[derive(Debug, Clone, Copy, PartialEq, Eq, Structural)]
pub enum LogLookupError {
    /// `requested` is past the log's tail; it has never been appended.
    OutOfRange { requested: u64, last_index: u64 },
    /// `requested` was discarded by [`RaftLog::compact`]; a snapshot covers it.
    CompactedAway { requested: u64, start_index: u64 },
}

impl LogLookupError {
    /// The text of the error.
    pub open spec fn message_text(self) -> Seq<char> {
        match self {
            LogLookupError::OutOfRange { requested, last_index } => "log index "@ + decimal(
                requested as nat,
            ) + " is out of range (last index is "@ + decimal(last_index as nat) + ")"@,
            LogLookupError::CompactedAway { requested, start_index } => "log index "@ + decimal(
                requested as nat,
            ) + " was compacted away (log starts at "@ + decimal(start_index as nat) + ")"@,
        }
    }

    /// Renders the error for a person.
    pub fn message(&self) -> (r: String)
        ensures
            r@ == self.message_text(),
    {
        let mut out: String = String::new();
        push_str(&mut out, "log index ");
        match self {
            LogLookupError::OutOfRange { requested, last_index } => {
                push_u64(&mut out, *requested);
                push_str(&mut out, " is out of range (last index is ");
                push_u64(&mut out, *last_index);
            },
            LogLookupError::CompactedAway { requested, start_index } => {
                push_u64(&mut out, *requested);
                push_str(&mut out, " was compacted away (log starts at ");
                push_u64(&mut out, *start_index);
            },
        }
        push_str(&mut out, ")");
        assert(out@ =~= self.message_text());
        out
    }
}

/// Ordered, contiguous entries held by one Raft node.
///
/// Index zero is not an entry. It is the empty-prefix sentinel used by
/// `AppendEntries` when a follower must receive the first entry.
#[derive(Debug, PartialEq, Eq)]
pub struct RaftLog {
    entries: Vec<LogEntry>,
    /// Index of the oldest entry still held. Entries below this were removed
    /// by [`RaftLog::compact`]; nothing has been compacted while this is 1.
    start_index: u64,
    /// Term at `start_index - 1`, after compaction.
    last_included_term: u64,
}

/// What a [`RaftLog`] holds.
#[verifier::ext_equal]
pub struct RaftLogView {
    pub entries: Seq<LogEntryView>,
    pub start_index: u64,
    pub last_included_term: u64,
}

/// One more than `x`, or the largest index.
pub open spec fn next_up(x: u64) -> u64 {
    if x == u64::MAX {
        x
    } else {
        (x + 1) as u64
    }
}

/// One less than `x`, or zero.
pub open spec fn next_down(x: u64) -> u64 {
    if x == 0 {
        0
    } else {
        (x - 1) as u64
    }
}

/// The smaller of two indices.
pub open spec fn min_u64(a: u64, b: u64) -> u64 {
    if a <= b {
        a
    } else {
        b
    }
}

/// The larger of two indices.
pub open spec fn max_u64(a: u64, b: u64) -> u64 {
    if a >= b {
        a
    } else {
        b
    }
}

impl RaftLogView {
    /// The log that nothing was ever appended to.
    pub open spec fn empty() -> RaftLogView {
        RaftLogView { entries: Seq::empty(), start_index: 1, last_included_term: 0 }
    }

    /// Entries carry consecutive indices from `start_index` on. An index stops
    /// growing at the largest `u64`.
    pub open spec fn wf(self) -> bool {
        &&& self.start_index >= 1
        &&& forall|i: int|
            0 <= i < self.entries.len() ==> (#[trigger] self.entries[i]).index == if self.start_index
                + i <= u64::MAX {
                self.start_index + i
            } else {
                u64::MAX as int
            }
    }

    pub open spec fn last_included_index(self) -> u64 {
        next_down(self.start_index)
    }

    pub open spec fn last_index(self) -> u64 {
        if self.entries.len() == 0 {
            self.last_included_index()
        } else {
            self.entries.last().index
        }
    }

    pub open spec fn last_term(self) -> u64 {
        if self.entries.len() == 0 {
            self.last_included_term
        } else {
            self.entries.last().term
        }
    }

    pub open spec fn next_index(self) -> u64 {
        next_up(self.last_index())
    }

    /// Whether an entry at `index` is held.
    pub open spec fn holds(self, index: u64) -> bool {
        self.start_index <= index < self.start_index + self.entries.len()
    }

    /// The entry at `index`, where one is held.
    pub open spec fn entry(self, index: u64) -> LogEntryView {
        self.entries[index - self.start_index]
    }

    /// Why there is no entry at `index`.
    pub open spec fn missing(self, index: u64) -> LogLookupError {
        if index != 0 && index < self.start_index {
            LogLookupError::CompactedAway { requested: index, start_index: self.start_index }
        } else {
            LogLookupError::OutOfRange { requested: index, last_index: self.last_index() }
        }
    }

    /// The term at `index`: zero for the empty prefix, the snapshot's term at
    /// its boundary, the entry's term where an entry is held.
    pub open spec fn term_at(self, index: u64) -> Result<u64, LogLookupError> {
        if index == 0 {
            Ok(0)
        } else if index + 1 == self.start_index {
            Ok(self.last_included_term)
        } else if self.holds(index) {
            Ok(self.entry(index).term)
        } else {
            Err(self.missing(index))
        }
    }

    /// Whether the log agrees with `term` at `index`.
    pub open spec fn contains(self, index: u64, term: u64) -> bool {
        self.term_at(index) == Ok::<u64, LogLookupError>(term)
    }

    /// The entries at or after `index`.
    pub open spec fn entries_from(self, index: u64) -> Seq<LogEntryView> {
        if index <= self.start_index {
            self.entries
        } else if index - self.start_index <= self.entries.len() {
            self.entries.skip(index - self.start_index)
        } else {
            Seq::empty()
        }
    }

    /// The log after a snapshot up to `index` replaced a prefix of it.
    pub open spec fn compact(self, index: u64, term: u64) -> RaftLogView {
        let new_start = next_up(index);
        if new_start <= self.start_index {
            self
        } else {
            RaftLogView {
                entries: if new_start - self.start_index <= self.entries.len() {
                    self.entries.skip(new_start - self.start_index)
                } else {
                    Seq::empty()
                },
                start_index: new_start,
                last_included_term: term,
            }
        }
    }

    /// The log after a follower installed a snapshot up to `index`: the suffix
    /// stays only where the log agrees with the snapshot's boundary.
    pub open spec fn install_snapshot(self, index: u64, term: u64) -> RaftLogView {
        if self.contains(index, term) {
            self.compact(index, term)
        } else {
            RaftLogView {
                entries: Seq::empty(),
                start_index: next_up(index),
                last_included_term: term,
            }
        }
    }

    /// The log with `entry` at its end.
    pub open spec fn push(self, entry: LogEntryView) -> RaftLogView {
        RaftLogView { entries: self.entries.push(entry), ..self }
    }

    /// The log with `entries` at its end.
    pub open spec fn extend(self, entries: Seq<LogEntryView>) -> RaftLogView {
        RaftLogView { entries: self.entries + entries, ..self }
    }

    /// The log without the entries at or above `index`, which is no lower than
    /// `start_index`.
    pub open spec fn truncate_from(self, index: u64) -> RaftLogView {
        if index - self.start_index <= self.entries.len() {
            RaftLogView { entries: self.entries.take(index - self.start_index), ..self }
        } else {
            self
        }
    }

    /// Appending `incoming` entry by entry, stopping at the first one that does
    /// not follow the tail.
    pub open spec fn append_all(self, incoming: Seq<LogEntryView>) -> (
        RaftLogView,
        Result<(), LogIndexError>,
    )
        decreases incoming.len(),
    {
        if incoming.len() == 0 {
            (self, Ok(()))
        } else if incoming[0].index != self.next_index() {
            (
                self,
                Err(LogIndexError { expected: self.next_index(), actual: incoming[0].index }),
            )
        } else {
            self.push(incoming[0]).append_all(incoming.skip(1))
        }
    }

    /// Whether the entry is already held with the same term.
    pub open spec fn matches(self, entry: LogEntryView) -> bool {
        self.holds(entry.index) && self.entry(entry.index).term == entry.term
    }

    /// How many leading entries of `incoming` are already held.
    pub open spec fn matching_prefix(self, incoming: Seq<LogEntryView>) -> nat
        decreases incoming.len(),
    {
        if incoming.len() == 0 || !self.matches(incoming[0]) {
            0
        } else {
            1 + self.matching_prefix(incoming.skip(1))
        }
    }

    /// The log after merging a leader's entries, and what the merge answers.
    pub open spec fn append_from_leader(self, incoming: Seq<LogEntryView>) -> (
        RaftLogView,
        Result<AppendOutcomeView, LogIndexError>,
    ) {
        let held = self.matching_prefix(incoming) as int;
        if first_gap(incoming) is Some {
            (self, Err(first_gap(incoming)->0))
        } else if held == incoming.len() {
            (self, Ok(AppendOutcomeView::unchanged()))
        } else {
            let first_index = incoming[held].index;
            if first_index < self.start_index {
                (self, Err(LogIndexError { expected: self.start_index, actual: first_index }))
            } else {
                let (log, appended) = self.truncate_from(first_index).append_all(
                    incoming.skip(held),
                );
                match appended {
                    Err(e) => (log, Err(e)),
                    Ok(_) => (
                        log,
                        Ok(
                            AppendOutcomeView {
                                truncated_from: if first_index <= self.last_index() {
                                    Some(first_index)
                                } else {
                                    None
                                },
                                appended: incoming.skip(held),
                            },
                        ),
                    ),
                }
            }
        }
    }
}

/// The first place where two neighbours of `entries` are not consecutive.
pub open spec fn first_gap(entries: Seq<LogEntryView>) -> Option<LogIndexError>
    decreases entries.len(),
{
    if entries.len() < 2 {
        None
    } else if entries[1].index != next_up(entries[0].index) {
        Some(LogIndexError { expected: next_up(entries[0].index), actual: entries[1].index })
    } else {
        first_gap(entries.skip(1))
    }
}

impl View for RaftLog {
    type V = RaftLogView;

    closed spec fn view(&self) -> RaftLogView {
        RaftLogView {
            entries: entries_view(self.entries@),
            start_index: self.start_index,
            last_included_term: self.last_included_term,
        }
    }
}

/// Whether two byte strings are equal.
fn same_bytes(a: &Vec<u8>, b: &Vec<u8>) -> (r: bool)
    ensures
        r == (a@ == b@),
{
    if a.len() != b.len() {
        return false;
    }
    let mut i: usize = 0;
    while i < a.len()
        invariant
            i <= a@.len() == b@.len(),
            forall|j: int| 0 <= j < i ==> a@[j] == b@[j],
        decreases a@.len() - i,
    {
        if a[i] != b[i] {
            return false;
        }
        i += 1;
    }
    assert(a@ =~= b@);
    true
}

/// Whether two entries are equal.
pub(crate) fn same_entry(a: &LogEntry, b: &LogEntry) -> (r: bool)
    ensures
        r == (a@ == b@),
{
    a.index == b.index && a.term == b.term && same_bytes(&a.command, &b.command)
}

/// Compares entries.
fn same_entries(a: &Vec<LogEntry>, b: &Vec<LogEntry>) -> (r: bool)
    ensures
        r == (entries_view(a@) == entries_view(b@)),
{
    if a.len() != b.len() {
        assert(entries_view(a@).len() != entries_view(b@).len());
        return false;
    }
    let mut i: usize = 0;
    while i < a.len()
        invariant
            i <= a@.len() == b@.len(),
            forall|j: int| 0 <= j < i ==> entries_view(a@)[j] == entries_view(b@)[j],
        decreases a@.len() - i,
    {
        if !same_entry(&a[i], &b[i]) {
            assert(entries_view(a@)[i as int] != entries_view(b@)[i as int]);
            return false;
        }
        i += 1;
    }
    assert(entries_view(a@) =~= entries_view(b@));
    true
}

impl Clone for RaftLog {
    fn clone(&self) -> (r: Self)
        ensures
            r@ == self@,
    {
        let entries = copy_entries(self.entries.as_slice(), 0);
        let r = RaftLog {
            entries,
            start_index: self.start_index,
            last_included_term: self.last_included_term,
        };
        assert(r@ =~= self@);
        r
    }
}

impl Default for RaftLog {
    fn default() -> (r: Self)
        ensures
            r@ == RaftLogView::empty(),
    {
        let r = Self { entries: Vec::new(), start_index: 1, last_included_term: 0 };
        assert(r@ =~= RaftLogView::empty());
        r
    }
}

impl RaftLog {
    /// Whether the logs hold the same.
    pub(crate) fn same_as(&self, other: &RaftLog) -> (r: bool)
        ensures
            r == (self@ == other@),
    {
        self.start_index == other.start_index && self.last_included_term
            == other.last_included_term && same_entries(&self.entries, &other.entries)
    }

    /// Creates an empty log.
    pub fn new() -> (r: Self)
        ensures
            r@ == RaftLogView::empty(),
    {
        Self::default()
    }

    /// Returns the index at which the next entry must be appended.
    pub fn next_index(&self) -> (r: u64)
        ensures
            r == self@.next_index(),
    {
        self.last_index().saturating_add(1)
    }

    /// Returns the last entry index, or the last compacted index for an
    /// otherwise-empty log, or zero if nothing has ever been appended.
    pub fn last_index(&self) -> (r: u64)
        ensures
            r == self@.last_index(),
    {
        if self.entries.len() == 0 {
            self.start_index.saturating_sub(1)
        } else {
            self.entries[self.entries.len() - 1].index
        }
    }

    /// Returns the last entry term.
    ///
    /// After compaction leaves an empty suffix, this is the snapshot's
    /// `last_included_term` rather than zero.
    pub fn last_term(&self) -> (r: u64)
        ensures
            r == self@.last_term(),
    {
        if self.entries.len() == 0 {
            self.last_included_term
        } else {
            self.entries[self.entries.len() - 1].term
        }
    }

    /// Returns an entry at a one-based Raft index.
    pub fn entry(&self, index: u64) -> (r: Result<&LogEntry, LogLookupError>)
        ensures
            match r {
                Ok(e) => self@.holds(index) && e@ == self@.entry(index),
                Err(e) => !self@.holds(index) && e == self@.missing(index),
            },
    {
        if index != 0 && index < self.start_index {
            return Err(
                LogLookupError::CompactedAway { requested: index, start_index: self.start_index },
            );
        }
        if index < self.start_index || index - self.start_index >= self.entries.len() as u64 {
            return Err(
                LogLookupError::OutOfRange { requested: index, last_index: self.last_index() },
            );
        }
        Ok(&self.entries[(index - self.start_index) as usize])
    }

    /// Returns the term at `index`; the empty prefix at index zero has term zero.
    ///
    /// `term_at(last_included_index)` returns the snapshot's included term so the
    /// first `AppendEntries` after compaction can still anchor on the boundary.
    pub fn term_at(&self, index: u64) -> (r: Result<u64, LogLookupError>)
        ensures
            r == self@.term_at(index),
    {
        if index == 0 {
            return Ok(0);
        }
        // Snapshot boundary: index == start_index - 1 == last_included_index.
        if self.start_index != 0 && index == self.start_index - 1 {
            return Ok(self.last_included_term);
        }
        match self.entry(index) {
            Ok(entry) => Ok(entry.term),
            Err(e) => Err(e),
        }
    }

    /// Checks the `prev_log_index` / `prev_log_term` AppendEntries condition.
    pub fn contains(&self, index: u64, term: u64) -> (r: bool)
        ensures
            r == self@.contains(index, term),
    {
        match self.term_at(index) {
            Ok(held) => held == term,
            Err(_) => false,
        }
    }

    /// Returns copies of entries beginning at `index`, or no entries past the tail.
    ///
    /// An `index` before the oldest held entry still returns every entry the
    /// log holds, since all of them satisfy "at or after `index`".
    pub fn entries_from(&self, index: u64) -> (r: Vec<LogEntry>)
        ensures
            entries_view(r@) == self@.entries_from(index),
    {
        if index <= self.start_index {
            let r = copy_entries(self.entries.as_slice(), 0);
            assert(entries_view(r@) =~= self@.entries);
            return r;
        }
        if index - self.start_index > self.entries.len() as u64 {
            let r: Vec<LogEntry> = Vec::new();
            assert(entries_view(r@) =~= Seq::<LogEntryView>::empty());
            return r;
        }
        copy_entries(self.entries.as_slice(), (index - self.start_index) as usize)
    }

    /// Index of the last entry covered by a snapshot (0 before any compaction).
    pub fn last_included_index(&self) -> (r: u64)
        ensures
            r == self@.last_included_index(),
    {
        self.start_index.saturating_sub(1)
    }

    /// Term of the last entry covered by a snapshot (0 before any compaction).
    pub fn last_included_term(&self) -> (r: u64)
        ensures
            r == self@.last_included_term,
    {
        self.last_included_term
    }

    /// Discards entries at or before `last_included_index`, recording that a
    /// snapshot now covers them. A no-op if nothing new is being compacted.
    pub fn compact(&mut self, last_included_index: u64, last_included_term: u64)
        ensures
            final(self)@ == old(self)@.compact(last_included_index, last_included_term),
    {
        let new_start: u64 = last_included_index.saturating_add(1);
        if new_start <= self.start_index {
            return;
        }
        let discard: u64 = new_start - self.start_index;
        let ghost before = self@;
        if discard <= self.entries.len() as u64 {
            let kept = self.entries.split_off(discard as usize);
            self.entries = kept;
        } else {
            self.entries.clear();
        }
        self.start_index = new_start;
        self.last_included_term = last_included_term;
        assert(self@ =~= before.compact(last_included_index, last_included_term));
    }

    /// Follower install: keeps the suffix if `(index, term)` matches locally,
    /// else clears the log.
    pub fn install_snapshot(&mut self, last_included_index: u64, last_included_term: u64)
        ensures
            final(self)@ == old(self)@.install_snapshot(last_included_index, last_included_term),
    {
        if self.contains(last_included_index, last_included_term) {
            // The boundary matches a local entry: the suffix after it is still valid.
            self.compact(last_included_index, last_included_term);
        } else {
            // The snapshot supersedes or conflicts with the local entries.
            let ghost before = self@;
            self.entries.clear();
            self.start_index = last_included_index.saturating_add(1);
            self.last_included_term = last_included_term;
            assert(self@ =~= before.install_snapshot(last_included_index, last_included_term));
        }
    }

    /// Returns the index of the oldest entry still held.
    pub fn start_index(&self) -> (r: u64)
        ensures
            r == self@.start_index,
    {
        self.start_index
    }

    /// Appends an entry only when it directly follows the current log tail.
    pub fn append(&mut self, entry: LogEntry) -> (r: Result<(), LogIndexError>)
        ensures
            match r {
                Ok(_) => entry.index == old(self)@.next_index() && final(self)@ == old(self)@.push(
                    entry@,
                ),
                Err(e) => entry.index != old(self)@.next_index() && *final(self) == *old(self) && e
                    == (LogIndexError { expected: old(self)@.next_index(), actual: entry.index }),
            },
    {
        let expected: u64 = self.next_index();
        if entry.index != expected {
            return Err(LogIndexError { expected, actual: entry.index });
        }
        let ghost before = self@;
        self.entries.push(entry);
        assert(self@ =~= before.push(entry@));
        Ok(())
    }

    /// Merges entries sent by a leader after the caller has verified the common prefix.
    ///
    /// Entries with equal index and term are retained. At the first term conflict,
    /// the local suffix is replaced by the leader's suffix. An invalid incoming batch
    /// is rejected before changing the local log.
    ///
    /// Returns the exact mutation performed so the driver can make it durable.
    pub fn append_from_leader(&mut self, incoming: &[LogEntry]) -> (r: Result<
        AppendOutcome,
        LogIndexError,
    >)
        ensures
            final(self)@ == old(self)@.append_from_leader(entries_view(incoming@)).0,
            match r {
                Ok(outcome) => old(self)@.append_from_leader(entries_view(incoming@)).1 == Ok::<
                    AppendOutcomeView,
                    LogIndexError,
                >(outcome@),
                Err(e) => old(self)@.append_from_leader(entries_view(incoming@)).1 == Err::<
                    AppendOutcomeView,
                    LogIndexError,
                >(e),
            },
    {
        let ghost before = self@;
        let ghost all = entries_view(incoming@);
        match Self::validate_contiguous(incoming) {
            Ok(_) => {},
            Err(e) => {
                return Err(e);
            },
        }
        let mut position: usize = 0;
        assert(all.skip(0) =~= all);
        while position < incoming.len() && self.has(&incoming[position])
            invariant
                position <= incoming@.len(),
                all == entries_view(incoming@),
                self@ == before,
                before.matching_prefix(all) == position + before.matching_prefix(
                    all.skip(position as int),
                ),
            decreases incoming@.len() - position,
        {
            proof {
                let rest = all.skip(position as int);
                assert(rest[0] == incoming@[position as int]@);
                assert(rest.skip(1) =~= all.skip(position + 1));
            }
            position += 1;
        }
        proof {
            let rest = all.skip(position as int);
            if position < incoming@.len() {
                assert(rest[0] == incoming@[position as int]@);
            }
            assert(before.matching_prefix(rest) == 0);
        }
        if position == incoming.len() {
            return Ok(AppendOutcome::default());
        }
        let first_index: u64 = incoming[position].index;
        let truncated_from: Option<u64> = if first_index <= self.last_index() {
            Some(first_index)
        } else {
            None
        };
        match self.truncate_from(first_index) {
            Ok(_) => {},
            Err(e) => {
                return Err(e);
            },
        }
        let appended = copy_entries(incoming, position);
        let ghost cut = self@;
        let ghost suffix = all.skip(position as int);
        let mut i: usize = 0;
        assert(suffix.skip(0) =~= suffix);
        while i < appended.len()
            invariant
                i <= appended@.len(),
                entries_view(appended@) == suffix,
                suffix == all.skip(position as int),
                all == entries_view(incoming@),
                position < incoming@.len(),
                first_index == all[position as int].index,
                before == old(self)@,
                first_gap(all) is None,
                before.matching_prefix(all) == position,
                before.start_index <= first_index,
                cut == before.truncate_from(first_index),
                cut.append_all(suffix) == self@.append_all(suffix.skip(i as int)),
            decreases appended@.len() - i,
        {
            proof {
                let rest = suffix.skip(i as int);
                assert(rest[0] == appended@[i as int]@);
                assert(rest.skip(1) =~= suffix.skip(i + 1));
            }
            match self.append(appended[i].clone()) {
                Ok(_) => {},
                Err(e) => {
                    return Err(e);
                },
            }
            i += 1;
        }
        Ok(AppendOutcome { truncated_from, appended })
    }

    /// How many of the entries held carry a command.
    pub fn command_count(&self) -> (r: u64)
        ensures
            r == self@.entries.filter(|e: LogEntryView| e.command.len() > 0).len() as u64,
            self@.entries.filter(|e: LogEntryView| e.command.len() > 0).len()
                <= self@.entries.len(),
    {
        let ghost all = self@.entries;
        let ghost p = |e: LogEntryView| e.command.len() > 0;
        let mut count: u64 = 0;
        let mut i: usize = 0;
        proof {
            reveal(Seq::filter);
        }
        while i < self.entries.len()
            invariant
                i <= self.entries@.len(),
                all == entries_view(self.entries@),
                p == (|e: LogEntryView| e.command.len() > 0),
                count == all.take(i as int).filter(p).len(),
                count <= i,
            decreases self.entries@.len() - i,
        {
            proof {
                reveal(Seq::filter);
                assert(all.take(i + 1).drop_last() =~= all.take(i as int));
                assert(all.take(i + 1).last() == self.entries@[i as int]@);
            }
            if self.entries[i].command.len() > 0 {
                count += 1;
            }
            i += 1;
        }
        assert(all.take(i as int) =~= all);
        count
    }

    /// Whether the entry is already held with the same term.
    fn has(&self, entry: &LogEntry) -> (r: bool)
        ensures
            r == self@.matches(entry@),
    {
        match self.entry(entry.index) {
            Ok(local) => local.term == entry.term,
            Err(_) => false,
        }
    }

    /// Removes every entry whose index is at least `index`.
    ///
    /// An `index` below [`RaftLog::start_index`] is rejected rather than
    /// clamped: those entries are covered by a snapshot, and truncating there
    /// would silently discard the entire log. `expected` carries the lowest
    /// index this log can legally truncate at.
    pub fn truncate_from(&mut self, index: u64) -> (r: Result<(), LogIndexError>)
        ensures
            match r {
                Ok(_) => index >= old(self)@.start_index && final(self)@
                    == old(self)@.truncate_from(index),
                Err(e) => index < old(self)@.start_index && *final(self) == *old(self) && e == (
                LogIndexError { expected: old(self)@.start_index, actual: index }),
            },
    {
        if index < self.start_index {
            return Err(LogIndexError { expected: self.start_index, actual: index });
        }
        let ghost before = self@;
        let length: u64 = index - self.start_index;
        if length <= self.entries.len() as u64 {
            self.entries.truncate(length as usize);
        }
        assert(self@ =~= before.truncate_from(index));
        Ok(())
    }

    /// Checks that the entries carry consecutive indices.
    pub fn validate_contiguous(entries: &[LogEntry]) -> (r: Result<(), LogIndexError>)
        ensures
            match r {
                Ok(_) => first_gap(entries_view(entries@)) is None,
                Err(e) => first_gap(entries_view(entries@)) == Some(e),
            },
    {
        let ghost all = entries_view(entries@);
        if entries.len() < 2 {
            return Ok(());
        }
        let mut i: usize = 0;
        assert(all.skip(0) =~= all);
        while i < entries.len() - 1
            invariant
                2 <= entries@.len(),
                i <= entries@.len() - 1,
                all == entries_view(entries@),
                first_gap(all) == first_gap(all.skip(i as int)),
            decreases entries@.len() - i,
        {
            let expected: u64 = entries[i].index.saturating_add(1);
            proof {
                let rest = all.skip(i as int);
                assert(rest[0] == entries@[i as int]@);
                assert(rest[1] == entries@[i + 1]@);
                assert(rest.skip(1) =~= all.skip(i + 1));
            }
            if entries[i + 1].index != expected {
                return Err(LogIndexError { expected, actual: entries[i + 1].index });
            }
            i += 1;
        }
        Ok(())
    }
}

} // verus!
