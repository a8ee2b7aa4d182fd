//! Record framing for log segments and single-record atomic files.
//!
//! Wire format per record:
//!   [len: u32 LE][crc32c: u32 LE][kind: u8][payload: len-1 bytes]
//!
//! `len` = 1 (kind byte) + payload length.
//! CRC covers the kind byte and the payload.
//!
//! Kind bytes:
//!   1 — LogOp::Append(LogEntry)    — log stream
//!   2 — LogOp::TruncateFrom(u64)   — log stream
//!   3 — HardState                  — single-record atomic file
//!   4 — Snapshot                   — single-record atomic file

use vstd::bytes::{
    lemma_auto_spec_u32_to_from_le_bytes, lemma_auto_spec_u64_to_from_le_bytes,
    spec_u32_from_le_bytes, u32_from_le_bytes, u32_to_le_bytes,
};
use vstd::prelude::*;
use vstd::slice::slice_subrange;

use crate::codec::{
    get_opt_u64, get_string, get_u64, lemma_opt_u64_round_trip, lemma_stands_split,
    lemma_string_round_trip, lemma_u64_round_trip, opt_u64_bytes, put_opt_u64, put_string, put_u64,
    read_opt_u64, read_string, read_u64, stands_at, string_bytes, u32_bytes, u64_bytes,
};
use crate::error::StorageError;
use crate::raft::log::{LogEntry, LogEntryView};
use crate::raft::snapshot::{Snapshot, SnapshotMeta, SnapshotView};
use crate::raft::storage::crc::{
    crc32c, crc32c_append, crc32c_of, law_changed_byte_changes_the_checksum, law_checksum_goes_on,
};
use crate::raft::storage::hard_state::HardState;

verus! {

pub const KIND_APPEND: u8 = 1;

pub const KIND_TRUNCATE: u8 = 2;

pub const KIND_HARD_STATE: u8 = 3;

pub const KIND_SNAPSHOT: u8 = 4;

// ── public types ────────────────────────────────────────────────────────────

/// A single log mutation, used both as a `WriteBatch` element and a record kind.
#[derive(Debug, PartialEq, Eq)]
pub enum LogOp {
    Append(LogEntry),
    TruncateFrom(u64),
}

/// What a [`LogOp`] holds.
pub enum LogOpView {
    Append(LogEntryView),
    TruncateFrom(u64),
}

impl View for LogOp {
    type V = LogOpView;

    open spec fn view(&self) -> LogOpView {
        match self {
            LogOp::Append(e) => LogOpView::Append(e@),
            LogOp::TruncateFrom(i) => LogOpView::TruncateFrom(*i),
        }
    }
}

impl Clone for LogOp {
    fn clone(&self) -> (r: Self)
        ensures
            r@ == self@,
    {
        match self {
            LogOp::Append(e) => LogOp::Append(e.clone()),
            LogOp::TruncateFrom(i) => LogOp::TruncateFrom(*i),
        }
    }
}

/// What a list of log mutations holds, in order.
pub open spec fn ops_view(ops: Seq<LogOp>) -> Seq<LogOpView> {
    Seq::new(ops.len(), |i: int| ops[i]@)
}

/// Result of decoding a log byte stream.
#[derive(Debug)]
pub struct Decoded {
    /// All valid ops decoded from the stream, in order.
    pub ops: Vec<LogOp>,
    /// Byte length of the clean prefix (everything before the torn tail, if any).
    /// Truncate the segment file to this length to remove the torn tail.
    pub valid_len: usize,
}

// ── layout ──────────────────────────────────────────────────────────────────

/// The checksum of a record: over the kind byte, then the payload.
pub open spec fn record_crc(kind: u8, payload: Seq<u8>) -> u32 {
    crc32c_of(crc32c_of(0, seq![kind]), payload)
}

/// The length field of a record. It is four bytes wide.
pub open spec fn record_len(payload: Seq<u8>) -> u32 {
    ((1 + payload.len()) % 0x1_0000_0000) as u32
}

/// One record.
pub open spec fn frame(kind: u8, payload: Seq<u8>) -> Seq<u8> {
    u32_bytes(record_len(payload)) + u32_bytes(record_crc(kind, payload)) + seq![kind] + payload
}

/// The encoding of a log entry.
pub open spec fn entry_bytes(e: LogEntryView) -> Seq<u8> {
    u64_bytes(e.index) + (u64_bytes(e.term) + string_bytes(e.command))
}

/// The entry that `s` starts with.
pub open spec fn entry_of(s: Seq<u8>) -> Option<LogEntryView> {
    match get_u64(s, 0) {
        Err(_) => None,
        Ok((index, p1)) => match get_u64(s, p1) {
            Err(_) => None,
            Ok((term, p2)) => match get_string(s, p2) {
                Err(_) => None,
                Ok((command, _)) => Some(LogEntryView { index, term, command }),
            },
        },
    }
}

/// The encoding of the durable election state.
pub open spec fn hard_state_bytes(hs: HardState) -> Seq<u8> {
    u64_bytes(hs.current_term) + opt_u64_bytes(hs.voted_for)
}

/// The durable election state that `s` starts with.
pub open spec fn hard_state_of(s: Seq<u8>) -> Option<HardState> {
    match get_u64(s, 0) {
        Err(_) => None,
        Ok((current_term, p1)) => match get_opt_u64(s, p1) {
            Err(_) => None,
            Ok((voted_for, _)) => Some(HardState { current_term, voted_for }),
        },
    }
}

/// The encoding of a snapshot.
pub open spec fn snapshot_bytes(snap: SnapshotView) -> Seq<u8> {
    u64_bytes(snap.meta.last_included_index) + (u64_bytes(snap.meta.last_included_term)
        + string_bytes(snap.data))
}

/// The snapshot that `s` starts with.
pub open spec fn snapshot_of(s: Seq<u8>) -> Option<SnapshotView> {
    match get_u64(s, 0) {
        Err(_) => None,
        Ok((last_included_index, p1)) => match get_u64(s, p1) {
            Err(_) => None,
            Ok((last_included_term, p2)) => match get_string(s, p2) {
                Err(_) => None,
                Ok((data, _)) => Some(
                    SnapshotView {
                        meta: SnapshotMeta { last_included_index, last_included_term },
                        data,
                    },
                ),
            },
        },
    }
}

/// The record of one log mutation.
pub open spec fn op_record(op: LogOpView) -> Seq<u8> {
    match op {
        LogOpView::Append(e) => frame(KIND_APPEND, entry_bytes(e)),
        LogOpView::TruncateFrom(i) => frame(KIND_TRUNCATE, u64_bytes(i)),
    }
}

/// The records of log mutations, one after another.
pub open spec fn op_records(ops: Seq<LogOpView>) -> Seq<u8>
    decreases ops.len(),
{
    if ops.len() == 0 {
        Seq::empty()
    } else {
        op_records(ops.drop_last()) + op_record(ops.last())
    }
}

/// What a log stream holds at a position.
pub enum RecordAt {
    /// The stream ends here, cleanly or in the middle of a write.
    End,
    /// A complete record that is damaged.
    Damaged,
    /// A log mutation, and the position after its record.
    Op { op: LogOpView, end: int },
}

/// The log mutation that a checked record holds.
pub open spec fn op_of(kind: u8, payload: Seq<u8>) -> Option<LogOpView> {
    if kind == KIND_APPEND {
        match entry_of(payload) {
            Some(e) => Some(LogOpView::Append(e)),
            None => None,
        }
    } else if kind == KIND_TRUNCATE {
        match get_u64(payload, 0) {
            Ok((i, _)) => Some(LogOpView::TruncateFrom(i)),
            Err(_) => None,
        }
    } else {
        None
    }
}

/// Reads the stream at `pos`. A record that runs past the end, and a final one
/// with a bad checksum or an unknown kind, is what a crash in the middle of a
/// write leaves. Any other damage is corruption.
pub open spec fn record_at(bytes: Seq<u8>, pos: int) -> RecordAt {
    let len = spec_u32_from_le_bytes(bytes.subrange(pos, pos + 4));
    let crc = spec_u32_from_le_bytes(bytes.subrange(pos + 4, pos + 8));
    let end = pos + 8 + len;
    let kind = bytes[pos + 8];
    let payload = bytes.subrange(pos + 9, end);
    if pos + 9 > bytes.len() {
        RecordAt::End
    } else if len == 0 {
        RecordAt::Damaged
    } else if end > bytes.len() {
        RecordAt::End
    } else if crc != record_crc(kind, payload) || (kind != KIND_APPEND && kind != KIND_TRUNCATE) {
        if end == bytes.len() {
            RecordAt::End
        } else {
            RecordAt::Damaged
        }
    } else {
        match op_of(kind, payload) {
            Some(op) => RecordAt::Op { op, end },
            None => RecordAt::Damaged,
        }
    }
}

/// The log mutations from `pos` on and the end of the clean prefix, or the
/// position of the first damaged record.
pub open spec fn decode_from(bytes: Seq<u8>, pos: int) -> Result<(Seq<LogOpView>, int), int>
    decreases bytes.len() - pos,
{
    match record_at(bytes, pos) {
        RecordAt::End => Ok((Seq::empty(), pos)),
        RecordAt::Damaged => Err(pos),
        RecordAt::Op { op, end } => if end <= pos {
            Err(pos)
        } else {
            match decode_from(bytes, end) {
                Err(at) => Err(at),
                Ok((ops, valid_len)) => Ok((seq![op] + ops, valid_len)),
            }
        },
    }
}

/// The record of a single-record file: kind and payload, where it is whole and
/// its checksum holds.
pub open spec fn single_record(bytes: Seq<u8>) -> Option<(u8, Seq<u8>)> {
    let len = spec_u32_from_le_bytes(bytes.subrange(0, 4));
    let crc = spec_u32_from_le_bytes(bytes.subrange(4, 8));
    let payload = bytes.subrange(9, 8 + len);
    if bytes.len() >= 9 && 1 <= len && 8 + len <= bytes.len() && crc == record_crc(
        bytes[8],
        payload,
    ) {
        Some((bytes[8], payload))
    } else {
        None
    }
}

/// The payload of a single-record file of the expected kind.
pub open spec fn single_payload(bytes: Seq<u8>, expected_kind: u8) -> Option<Seq<u8>> {
    match single_record(bytes) {
        Some((kind, payload)) => if kind == expected_kind {
            Some(payload)
        } else {
            None
        },
        None => None,
    }
}

/// The durable election state in a single-record file.
pub open spec fn stored_hard_state(bytes: Seq<u8>) -> Option<HardState> {
    match single_payload(bytes, KIND_HARD_STATE) {
        Some(payload) => hard_state_of(payload),
        None => None,
    }
}

/// The snapshot in a single-record file.
pub open spec fn stored_snapshot(bytes: Seq<u8>) -> Option<SnapshotView> {
    match single_payload(bytes, KIND_SNAPSHOT) {
        Some(payload) => snapshot_of(payload),
        None => None,
    }
}

/// Damage in a stream whose segment is not known.
pub open spec fn damaged_at(offset: int) -> StorageError {
    StorageError::Corruption { segment: None, offset: offset as u64 }
}

// ── encoding ────────────────────────────────────────────────────────────────

/// Appends one record.
pub fn write_framed(kind: u8, payload: &Vec<u8>, out: &mut Vec<u8>)
    ensures
        final(out)@ == old(out)@ + frame(kind, payload@),
{
    let ghost before = out@;
    let len: u32 = ((payload.len() as u64 % 0x1_0000_0000 + 1) % 0x1_0000_0000) as u32;
    assert(len == record_len(payload@));
    let kinds: [u8; 1] = [kind];
    assert(kinds@ =~= seq![kind]);
    let crc: u32 = crc32c_append(crc32c(&kinds), payload.as_slice());
    let mut len_bytes = u32_to_le_bytes(len);
    let mut crc_bytes = u32_to_le_bytes(crc);
    out.append(&mut len_bytes);
    out.append(&mut crc_bytes);
    out.push(kind);
    out.extend_from_slice(payload.as_slice());
    assert(out@ =~= before + frame(kind, payload@));
}

/// Encodes one log op into `out`.
pub fn encode(op: &LogOp, out: &mut Vec<u8>) -> (r: Result<(), StorageError>)
    ensures
        r is Ok,
        final(out)@ == old(out)@ + op_record(op@),
{
    let mut payload: Vec<u8> = Vec::new();
    match op {
        LogOp::Append(e) => {
            put_u64(&mut payload, e.index);
            put_u64(&mut payload, e.term);
            put_string(&mut payload, &e.command);
            assert(payload@ =~= entry_bytes(e@));
            write_framed(KIND_APPEND, &payload, out);
        },
        LogOp::TruncateFrom(i) => {
            put_u64(&mut payload, *i);
            assert(payload@ =~= u64_bytes(*i));
            write_framed(KIND_TRUNCATE, &payload, out);
        },
    }
    Ok(())
}

/// Encodes a `HardState` as a single record into `out`.
pub fn encode_hard_state(hs: &HardState, out: &mut Vec<u8>) -> (r: Result<(), StorageError>)
    ensures
        r is Ok,
        final(out)@ == old(out)@ + frame(KIND_HARD_STATE, hard_state_bytes(*hs)),
{
    let mut payload: Vec<u8> = Vec::new();
    put_u64(&mut payload, hs.current_term);
    put_opt_u64(&mut payload, hs.voted_for);
    assert(payload@ =~= hard_state_bytes(*hs));
    write_framed(KIND_HARD_STATE, &payload, out);
    Ok(())
}

/// Encodes a `Snapshot` as a single record into `out`.
pub fn encode_snapshot(snap: &Snapshot, out: &mut Vec<u8>) -> (r: Result<(), StorageError>)
    ensures
        r is Ok,
        final(out)@ == old(out)@ + frame(KIND_SNAPSHOT, snapshot_bytes(snap@)),
{
    let mut payload: Vec<u8> = Vec::new();
    put_u64(&mut payload, snap.meta.last_included_index);
    put_u64(&mut payload, snap.meta.last_included_term);
    put_string(&mut payload, &snap.data);
    assert(payload@ =~= snapshot_bytes(snap@));
    write_framed(KIND_SNAPSHOT, &payload, out);
    Ok(())
}

// ── decoding ────────────────────────────────────────────────────────────────

/// Reads the four-byte integer at `offset`.
fn read_u32_le(bytes: &[u8], offset: usize) -> (r: u32)
    requires
        offset + 4 <= bytes.len(),
    ensures
        r == spec_u32_from_le_bytes(bytes@.subrange(offset as int, offset + 4)),
{
    u32_from_le_bytes(slice_subrange(bytes, offset, offset + 4))
}

/// Decodes the entry that `payload` starts with.
fn decode_entry(payload: &[u8]) -> (r: Option<LogEntry>)
    ensures
        match r {
            Some(e) => entry_of(payload@) == Some(e@),
            None => entry_of(payload@) is None,
        },
{
    let (index, p1): (u64, usize) = match read_u64(payload, 0) {
        Ok(read) => read,
        Err(_) => {
            return None;
        },
    };
    let (term, p2): (u64, usize) = match read_u64(payload, p1) {
        Ok(read) => read,
        Err(_) => {
            return None;
        },
    };
    match read_string(payload, p2) {
        Ok((command, _)) => Some(LogEntry::new(index, term, command)),
        Err(_) => None,
    }
}

/// Decodes the log mutation of a checked record.
fn decode_op(kind: u8, payload: &[u8]) -> (r: Option<LogOp>)
    ensures
        match r {
            Some(op) => op_of(kind, payload@) == Some(op@),
            None => op_of(kind, payload@) is None,
        },
{
    if kind == KIND_APPEND {
        match decode_entry(payload) {
            Some(e) => Some(LogOp::Append(e)),
            None => None,
        }
    } else if kind == KIND_TRUNCATE {
        match read_u64(payload, 0) {
            Ok((i, _)) => Some(LogOp::TruncateFrom(i)),
            Err(_) => None,
        }
    } else {
        None
    }
}

/// Decodes a log stream (multiple records).
///
/// **Torn tail**: a record that runs past `bytes`, or a bad CRC on the *final*
/// record, is an expected artifact of a crash mid-write. Decoding stops there
/// and returns the clean prefix in `valid_len` without error.
///
/// **Corruption**: a complete record earlier in the stream with a bad CRC or
/// an unknown kind is returned as `StorageError::Corruption { offset }`.
pub fn decode(bytes: &[u8]) -> (r: Result<Decoded, StorageError>)
    ensures
        match r {
            Ok(decoded) => decode_from(bytes@, 0) == Ok::<(Seq<LogOpView>, int), int>(
                (ops_view(decoded.ops@), decoded.valid_len as int),
            ) && decoded.valid_len <= bytes@.len(),
            Err(e) => decode_from(bytes@, 0) is Err && e == damaged_at(
                decode_from(bytes@, 0)->Err_0,
            ),
        },
{
    let mut ops: Vec<LogOp> = Vec::new();
    let mut pos: usize = 0;
    let ghost whole = decode_from(bytes@, 0);
    proof {
        if let Ok((rest, valid_len)) = whole {
            assert(ops_view(ops@) + rest =~= rest);
        }
    }
    loop
        invariant
            pos <= bytes@.len(),
            whole == decode_from(bytes@, 0),
            match decode_from(bytes@, pos as int) {
                Ok((rest, valid_len)) => whole == Ok::<(Seq<LogOpView>, int), int>(
                    (ops_view(ops@) + rest, valid_len),
                ),
                Err(at) => whole == Err::<(Seq<LogOpView>, int), int>(at),
            },
        ensures
            pos <= bytes@.len(),
            whole == decode_from(bytes@, 0),
            whole == Ok::<(Seq<LogOpView>, int), int>((ops_view(ops@), pos as int)),
        decreases bytes@.len() - pos,
    {
        let remaining: usize = bytes.len() - pos;
        assert(ops_view(ops@) + Seq::<LogOpView>::empty() =~= ops_view(ops@));
        // Minimum header is 9 bytes: 4 (len) + 4 (crc) + 1 (kind).
        if remaining < 9 {
            break ;
        }
        let len: u32 = read_u32_le(bytes, pos);
        let crc_stored: u32 = read_u32_le(bytes, pos + 4);
        if len == 0 {
            // No kind byte: structurally malformed.
            return Err(StorageError::Corruption { segment: None, offset: pos as u64 });
        }
        // Total record: 4 (len field) + 4 (crc field) + len bytes.

        if len as u64 > (remaining - 8) as u64 {
            break ;  // record extends past buffer → torn tail
        }
        let record_end: usize = pos + 8 + len as usize;
        let kind: u8 = bytes[pos + 8];
        let payload = slice_subrange(bytes, pos + 9, record_end);
        let kinds: [u8; 1] = [kind];
        assert(kinds@ =~= seq![kind]);
        let crc_computed: u32 = crc32c_append(crc32c(&kinds), payload);
        let known: bool = kind == KIND_APPEND || kind == KIND_TRUNCATE;
        if crc_computed != crc_stored || !known {
            if record_end == bytes.len() {
                break ;  // bad CRC or unknown kind on the final record → torn tail
            }
            return Err(StorageError::Corruption { segment: None, offset: pos as u64 });
        }
        let ghost held = ops_view(ops@);
        match decode_op(kind, payload) {
            Some(op) => {
                ops.push(op);
                proof {
                    assert(record_at(bytes@, pos as int) == RecordAt::Op {
                        op: op@,
                        end: record_end as int,
                    });
                    assert(ops_view(ops@) =~= held.push(op@));
                    if let Ok((rest, valid_len)) = decode_from(bytes@, record_end as int) {
                        assert(held + (seq![op@] + rest) =~= held.push(op@) + rest);
                    }
                }
            },
            None => {
                return Err(StorageError::Corruption { segment: None, offset: pos as u64 });
            },
        }
        pos = record_end;
    }
    Ok(Decoded { ops, valid_len: pos })
}

/// Decodes the payload of a single-record file (hard_state or snapshot).
///
/// The whole file is one record with `expected_kind`. Any structural or CRC
/// error is `Corruption`.
fn decode_single(bytes: &[u8], expected_kind: u8) -> (r: Result<&[u8], StorageError>)
    ensures
        match r {
            Ok(payload) => single_payload(bytes@, expected_kind) == Some(payload@),
            Err(e) => single_payload(bytes@, expected_kind) is None && e == damaged_at(0),
        },
{
    let damaged = StorageError::Corruption { segment: None, offset: 0 };
    if bytes.len() < 9 {
        return Err(damaged);
    }
    let len: u32 = read_u32_le(bytes, 0);
    let crc_stored: u32 = read_u32_le(bytes, 4);
    if len == 0 || len as u64 > (bytes.len() - 8) as u64 {
        return Err(damaged);
    }
    let kind: u8 = bytes[8];
    let payload = slice_subrange(bytes, 9, 8 + len as usize);
    let kinds: [u8; 1] = [kind];
    assert(kinds@ =~= seq![kind]);
    let crc_computed: u32 = crc32c_append(crc32c(&kinds), payload);
    if crc_computed != crc_stored || kind != expected_kind {
        return Err(damaged);
    }
    Ok(payload)
}

/// Decodes a `HardState` from a single-record atomic file.
pub fn decode_hard_state(bytes: &[u8]) -> (r: Result<HardState, StorageError>)
    ensures
        match r {
            Ok(hs) => stored_hard_state(bytes@) == Some(hs),
            Err(e) => stored_hard_state(bytes@) is None && e == damaged_at(0),
        },
{
    let payload = match decode_single(bytes, KIND_HARD_STATE) {
        Ok(payload) => payload,
        Err(e) => {
            return Err(e);
        },
    };
    let damaged = StorageError::Corruption { segment: None, offset: 0 };
    let (current_term, p1): (u64, usize) = match read_u64(payload, 0) {
        Ok(read) => read,
        Err(_) => {
            return Err(damaged);
        },
    };
    match read_opt_u64(payload, p1) {
        Ok((voted_for, _)) => Ok(HardState { current_term, voted_for }),
        Err(_) => Err(damaged),
    }
}

/// Decodes a `Snapshot` from a single-record atomic file.
pub fn decode_snapshot(bytes: &[u8]) -> (r: Result<Snapshot, StorageError>)
    ensures
        match r {
            Ok(snap) => stored_snapshot(bytes@) == Some(snap@),
            Err(e) => stored_snapshot(bytes@) is None && e == damaged_at(0),
        },
{
    let payload = match decode_single(bytes, KIND_SNAPSHOT) {
        Ok(payload) => payload,
        Err(e) => {
            return Err(e);
        },
    };
    let damaged = StorageError::Corruption { segment: None, offset: 0 };
    let (last_included_index, p1): (u64, usize) = match read_u64(payload, 0) {
        Ok(read) => read,
        Err(_) => {
            return Err(damaged);
        },
    };
    let (last_included_term, p2): (u64, usize) = match read_u64(payload, p1) {
        Ok(read) => read,
        Err(_) => {
            return Err(damaged);
        },
    };
    match read_string(payload, p2) {
        Ok((data, _)) => Ok(
            Snapshot::new(SnapshotMeta::new(last_included_index, last_included_term), data),
        ),
        Err(_) => Err(damaged),
    }
}

/// Appends the records of `ops`.
pub fn encode_all(ops: &Vec<LogOp>, out: &mut Vec<u8>) -> (r: Result<(), StorageError>)
    ensures
        r is Ok,
        final(out)@ == old(out)@ + op_records(ops_view(ops@)),
{
    let ghost before = out@;
    let ghost all = ops_view(ops@);
    let mut i: usize = 0;
    assert(before + op_records(all.take(0)) =~= before);
    while i < ops.len()
        invariant
            i <= ops@.len(),
            all == ops_view(ops@),
            out@ == before + op_records(all.take(i as int)),
        decreases ops@.len() - i,
    {
        let _ = encode(&ops[i], out);
        i += 1;
        proof {
            assert(all.take(i as int).drop_last() =~= all.take(i - 1));
            assert(all.take(i as int).last() == ops@[i - 1]@);
            assert(out@ =~= before + op_records(all.take(i as int)));
        }
    }
    assert(all.take(i as int) =~= all);
    Ok(())
}

// ── laws ────────────────────────────────────────────────────────────────────

/// Whether the payload's length fits the length field of its record.
pub open spec fn payload_fits(payload: Seq<u8>) -> bool {
    1 + payload.len() <= u32::MAX
}

/// Whether the record of `op` fits its length field.
pub open spec fn op_fits(op: LogOpView) -> bool {
    match op {
        LogOpView::Append(e) => payload_fits(entry_bytes(e)),
        LogOpView::TruncateFrom(_) => true,
    }
}

/// Whether every record fits its length field.
pub open spec fn ops_fit(ops: Seq<LogOpView>) -> bool {
    forall|i: int| 0 <= i < ops.len() ==> op_fits(#[trigger] ops[i])
}

/// What decoding a stream gives whose first mutations are `ops`.
pub open spec fn prepend(
    ops: Seq<LogOpView>,
    rest: Result<(Seq<LogOpView>, int), int>,
) -> Result<(Seq<LogOpView>, int), int> {
    match rest {
        Ok((more, valid_len)) => Ok((ops + more, valid_len)),
        Err(at) => Err(at),
    }
}

/// An entry that was encoded is decoded again, whatever follows it.
pub proof fn law_entry_round_trip(e: LogEntryView, rest: Seq<u8>)
    requires
        e.command.len() <= u64::MAX,
    ensures
        entry_of(entry_bytes(e) + rest) == Some(e),
{
    let s = entry_bytes(e) + rest;
    assert(s.subrange(0, entry_bytes(e).len() as int) =~= entry_bytes(e));
    lemma_stands_split(s, 0, u64_bytes(e.index), u64_bytes(e.term) + string_bytes(e.command));
    lemma_u64_round_trip(s, 0, e.index);
    lemma_stands_split(s, 8, u64_bytes(e.term), string_bytes(e.command));
    lemma_u64_round_trip(s, 8, e.term);
    lemma_string_round_trip(s, 16, e.command);
}

/// A durable election state that was encoded is decoded again.
pub proof fn law_hard_state_round_trip(hs: HardState)
    ensures
        stored_hard_state(frame(KIND_HARD_STATE, hard_state_bytes(hs))) == Some(hs),
{
    let s = hard_state_bytes(hs);
    lemma_auto_spec_u64_to_from_le_bytes();
    assert(s.subrange(0, s.len() as int) =~= s);
    lemma_stands_split(s, 0, u64_bytes(hs.current_term), opt_u64_bytes(hs.voted_for));
    lemma_u64_round_trip(s, 0, hs.current_term);
    lemma_opt_u64_round_trip(s, 8, hs.voted_for);
    lemma_single_round_trip(KIND_HARD_STATE, s);
}

/// A snapshot that was encoded is decoded again.
pub proof fn law_snapshot_round_trip(snap: SnapshotView)
    requires
        payload_fits(snapshot_bytes(snap)),
    ensures
        stored_snapshot(frame(KIND_SNAPSHOT, snapshot_bytes(snap))) == Some(snap),
{
    let s = snapshot_bytes(snap);
    let tail = u64_bytes(snap.meta.last_included_term) + string_bytes(snap.data);
    lemma_auto_spec_u64_to_from_le_bytes();
    assert(s.subrange(0, s.len() as int) =~= s);
    lemma_stands_split(s, 0, u64_bytes(snap.meta.last_included_index), tail);
    lemma_u64_round_trip(s, 0, snap.meta.last_included_index);
    lemma_stands_split(
        s,
        8,
        u64_bytes(snap.meta.last_included_term),
        string_bytes(snap.data),
    );
    lemma_u64_round_trip(s, 8, snap.meta.last_included_term);
    lemma_string_round_trip(s, 16, snap.data);
    lemma_single_round_trip(KIND_SNAPSHOT, s);
}

/// Where a record stands: its fields, one by one.
proof fn lemma_frame_fields(bytes: Seq<u8>, pos: int, kind: u8, payload: Seq<u8>)
    requires
        stands_at(bytes, pos, frame(kind, payload)),
        payload_fits(payload),
    ensures
        frame(kind, payload).len() == 9 + payload.len(),
        spec_u32_from_le_bytes(bytes.subrange(pos, pos + 4)) == 1 + payload.len(),
        spec_u32_from_le_bytes(bytes.subrange(pos + 4, pos + 8)) == record_crc(kind, payload),
        bytes[pos + 8] == kind,
        bytes.subrange(pos + 9, pos + 9 + payload.len()) == payload,
{
    lemma_auto_spec_u32_to_from_le_bytes();
    let len = u32_bytes(record_len(payload));
    let crc = u32_bytes(record_crc(kind, payload));
    lemma_stands_split(bytes, pos, len + crc + seq![kind], payload);
    lemma_stands_split(bytes, pos, len + crc, seq![kind]);
    lemma_stands_split(bytes, pos, len, crc);
    assert(bytes.subrange(pos + 8, pos + 9)[0] == kind);
}

proof fn lemma_single_round_trip(kind: u8, payload: Seq<u8>)
    requires
        payload_fits(payload),
    ensures
        single_payload(frame(kind, payload), kind) == Some(payload),
{
    let s = frame(kind, payload);
    assert(s.subrange(0, s.len() as int) =~= s);
    lemma_frame_fields(s, 0, kind, payload);
}

/// A whole record is read as the mutation it was written for.
proof fn lemma_record_at(bytes: Seq<u8>, pos: int, op: LogOpView)
    requires
        stands_at(bytes, pos, op_record(op)),
        op_fits(op),
    ensures
        record_at(bytes, pos) == (RecordAt::Op { op, end: pos + op_record(op).len() }),
        op_record(op).len() >= 9,
{
    lemma_auto_spec_u64_to_from_le_bytes();
    match op {
        LogOpView::Append(e) => {
            lemma_frame_fields(bytes, pos, KIND_APPEND, entry_bytes(e));
            law_entry_round_trip(e, Seq::empty());
            assert(entry_bytes(e) + Seq::<u8>::empty() =~= entry_bytes(e));
        },
        LogOpView::TruncateFrom(i) => {
            let s = u64_bytes(i);
            lemma_frame_fields(bytes, pos, KIND_TRUNCATE, s);
            assert(s.subrange(0, s.len() as int) =~= s);
            lemma_u64_round_trip(s, 0, i);
        },
    }
}

/// Records that stand in a stream are decoded in order, and decoding goes on
/// behind them.
pub proof fn lemma_decode_records(bytes: Seq<u8>, pos: int, ops: Seq<LogOpView>)
    requires
        stands_at(bytes, pos, op_records(ops)),
        ops_fit(ops),
    ensures
        decode_from(bytes, pos) == prepend(
            ops,
            decode_from(bytes, pos + op_records(ops).len()),
        ),
    decreases ops.len(),
{
    if ops.len() == 0 {
        let rest = decode_from(bytes, pos);
        if let Ok((more, _)) = rest {
            assert(ops + more =~= more);
        }
    } else {
        let init = ops.drop_last();
        let mid = pos + op_records(init).len();
        lemma_stands_split(bytes, pos, op_records(init), op_record(ops.last()));
        lemma_decode_records(bytes, pos, init);
        lemma_record_at(bytes, mid, ops.last());
        let rest = decode_from(bytes, pos + op_records(ops).len());
        if let Ok((more, _)) = rest {
            assert(init + (seq![ops.last()] + more) =~= ops + more);
        }
    }
}

/// The records of log mutations decode to these mutations, with nothing left
/// over.
pub proof fn law_records_round_trip(ops: Seq<LogOpView>)
    requires
        ops_fit(ops),
    ensures
        decode_from(op_records(ops), 0) == Ok::<(Seq<LogOpView>, int), int>(
            (ops, op_records(ops).len() as int),
        ),
{
    let s = op_records(ops);
    assert(s.subrange(0, s.len() as int) =~= s);
    lemma_decode_records(s, 0, ops);
    assert(ops + Seq::<LogOpView>::empty() =~= ops);
}

/// The records of a prefix are a prefix of the records.
proof fn lemma_records_prefix(ops: Seq<LogOpView>, n: int)
    requires
        0 <= n <= ops.len(),
    ensures
        op_records(ops.take(n)).len() <= op_records(ops).len(),
        op_records(ops).take(op_records(ops.take(n)).len() as int) == op_records(ops.take(n)),
    decreases ops.len() - n,
{
    if n == ops.len() {
        assert(ops.take(n) =~= ops);
        assert(op_records(ops).take(op_records(ops).len() as int) =~= op_records(ops));
    } else {
        lemma_records_prefix(ops, n + 1);
        let longer = op_records(ops.take(n + 1));
        let shorter = op_records(ops.take(n));
        assert(ops.take(n + 1).drop_last() =~= ops.take(n));
        assert(longer == shorter + op_record(ops[n]));
        assert(op_records(ops).take(shorter.len() as int) =~= longer.take(shorter.len() as int));
        assert(longer.take(shorter.len() as int) =~= shorter);
    }
}

/// A crash may cut the stream at any byte: what is decoded is exactly the
/// mutations whose records were written whole, and the clean prefix ends behind
/// the last of them.
pub proof fn law_torn_tail(ops: Seq<LogOpView>, n: int, cut: int)
    requires
        ops_fit(ops),
        0 <= n <= ops.len(),
        op_records(ops.take(n)).len() <= cut <= op_records(ops).len(),
        n < ops.len() ==> cut < op_records(ops.take(n + 1)).len(),
    ensures
        decode_from(op_records(ops).take(cut), 0) == Ok::<(Seq<LogOpView>, int), int>(
            (ops.take(n), op_records(ops.take(n)).len() as int),
        ),
{
    let all = op_records(ops);
    let torn = all.take(cut);
    let whole = op_records(ops.take(n));
    let pos = whole.len() as int;
    lemma_records_prefix(ops, n);
    assert(torn.subrange(0, pos) =~= all.take(pos));
    lemma_decode_records(torn, 0, ops.take(n));
    assert(ops.take(n) + Seq::<LogOpView>::empty() =~= ops.take(n));
    if n < ops.len() {
        let op = ops[n];
        lemma_records_prefix(ops, n + 1);
        assert(ops.take(n + 1).drop_last() =~= ops.take(n));
        let longer = op_records(ops.take(n + 1));
        assert(longer == whole + op_record(op));
        assert(all.subrange(pos, pos + op_record(op).len()) =~= all.take(
            longer.len() as int,
        ).subrange(pos, longer.len() as int));
        assert(longer.subrange(pos, longer.len() as int) =~= op_record(op));
        assert(stands_at(all, pos, op_record(op)));
        if pos + 9 <= cut {
            match op {
                LogOpView::Append(e) => {
                    lemma_frame_fields(all, pos, KIND_APPEND, entry_bytes(e));
                },
                LogOpView::TruncateFrom(i) => {
                    lemma_auto_spec_u64_to_from_le_bytes();
                    lemma_frame_fields(all, pos, KIND_TRUNCATE, u64_bytes(i));
                },
            }
            assert(torn.subrange(pos, pos + 4) =~= all.subrange(pos, pos + 4));
        }
        assert(record_at(torn, pos) == RecordAt::End);
    } else {
        assert(ops.take(n) =~= ops);
        assert(record_at(torn, pos) == RecordAt::End);
    }
}

/// Where the record of each mutation starts.
pub open spec fn record_start(ops: Seq<LogOpView>, j: int) -> int {
    op_records(ops.take(j)).len() as int
}

/// The bytes are the records, but for what stands behind the length of the one at
/// `j`, whose stored checksum does not hold any more.
pub open spec fn damaged_record(bytes: Seq<u8>, ops: Seq<LogOpView>, j: int) -> bool {
    let start = record_start(ops, j);
    let end = record_start(ops, j + 1);
    &&& 0 <= j < ops.len()
    &&& bytes.len() == op_records(ops).len()
    &&& forall|i: int|
        (0 <= i < start + 4 || end <= i < bytes.len()) ==> #[trigger] bytes[i] == op_records(ops)[i]
    &&& spec_u32_from_le_bytes(bytes.subrange(start + 4, start + 8)) != record_crc(
        bytes[start + 8],
        bytes.subrange(start + 9, end),
    )
}

/// The fields in front of the record of the mutation at `j`.
proof fn lemma_record_span(ops: Seq<LogOpView>, j: int)
    requires
        ops_fit(ops),
        0 <= j < ops.len(),
    ensures
        record_start(ops, j) + 9 <= record_start(ops, j + 1) <= op_records(ops).len(),
        record_start(ops, j + 1) == op_records(ops).len() <==> j == ops.len() - 1,
        spec_u32_from_le_bytes(
            op_records(ops).subrange(record_start(ops, j), record_start(ops, j) + 4),
        ) == record_start(ops, j + 1) - record_start(ops, j) - 8,
{
    let all = op_records(ops);
    let op = ops[j];
    let pos = record_start(ops, j);
    let whole = op_records(ops.take(j));
    let longer = op_records(ops.take(j + 1));
    lemma_records_prefix(ops, j);
    lemma_records_prefix(ops, j + 1);
    assert(ops.take(j + 1).drop_last() =~= ops.take(j));
    assert(longer == whole + op_record(op));
    assert(all.subrange(pos, pos + op_record(op).len()) =~= all.take(longer.len() as int).subrange(
        pos,
        longer.len() as int,
    ));
    assert(longer.subrange(pos, longer.len() as int) =~= op_record(op));
    assert(stands_at(all, pos, op_record(op)));
    match op {
        LogOpView::Append(e) => {
            lemma_frame_fields(all, pos, KIND_APPEND, entry_bytes(e));
        },
        LogOpView::TruncateFrom(i) => {
            lemma_auto_spec_u64_to_from_le_bytes();
            lemma_frame_fields(all, pos, KIND_TRUNCATE, u64_bytes(i));
        },
    }
    if j < ops.len() - 1 {
        let next = ops[j + 1];
        let more = op_records(ops.take(j + 2));
        lemma_records_prefix(ops, j + 2);
        assert(ops.take(j + 2).drop_last() =~= ops.take(j + 1));
        assert(more == longer + op_record(next));
        lemma_auto_spec_u32_to_from_le_bytes();
        assert(op_record(next).len() >= 9);
    } else {
        assert(ops.take(j + 1) =~= ops);
    }
}

/// A record whose checksum does not hold is corruption where it starts, unless it
/// is the last: then it is what a crash in the middle of a write leaves, and the
/// mutations before it are all there is.
pub proof fn law_damaged_record(ops: Seq<LogOpView>, j: int, bytes: Seq<u8>)
    requires
        ops_fit(ops),
        damaged_record(bytes, ops, j),
    ensures
        j < ops.len() - 1 ==> decode_from(bytes, 0) == Err::<(Seq<LogOpView>, int), int>(
            record_start(ops, j),
        ),
        j == ops.len() - 1 ==> decode_from(bytes, 0) == Ok::<(Seq<LogOpView>, int), int>(
            (ops.take(j), record_start(ops, j)),
        ),
{
    let all = op_records(ops);
    let pos = record_start(ops, j);
    let whole = op_records(ops.take(j));
    lemma_record_span(ops, j);
    lemma_records_prefix(ops, j);
    assert(bytes.subrange(0, pos) =~= all.take(pos));
    assert forall|i: int| 0 <= i < j implies op_fits(#[trigger] ops.take(j)[i]) by {
        assert(op_fits(ops[i]));
    }
    lemma_decode_records(bytes, 0, ops.take(j));
    assert(bytes.subrange(pos, pos + 4) =~= all.subrange(pos, pos + 4));
    assert(ops.take(j) + Seq::<LogOpView>::empty() =~= ops.take(j));
}

/// A record in which one byte behind the length was changed does not hold its
/// checksum any more.
proof fn lemma_changed_record(kind: u8, payload: Seq<u8>, at: int, byte: u8)
    requires
        4 <= at < frame(kind, payload).len(),
        frame(kind, payload)[at] != byte,
    ensures
        ({
            let bytes = frame(kind, payload).update(at, byte);
            spec_u32_from_le_bytes(bytes.subrange(4, 8)) != record_crc(
                bytes[8],
                bytes.subrange(9, bytes.len() as int),
            )
        }),
{
    let whole = frame(kind, payload);
    let bytes = whole.update(at, byte);
    let crc = record_crc(kind, payload);
    lemma_auto_spec_u32_to_from_le_bytes();
    assert(whole.subrange(4, 8) =~= u32_bytes(crc));
    assert(whole.subrange(9, whole.len() as int) =~= payload);
    let stored = bytes.subrange(4, 8);
    let rest = bytes.subrange(9, bytes.len() as int);
    if at < 8 {
        assert(rest =~= payload);
        assert(stored[at - 4] != whole.subrange(4, 8)[at - 4]);
    } else {
        assert(stored =~= u32_bytes(crc));
        if at == 8 {
            assert(rest =~= payload);
            assert(seq![kind].update(0, byte) =~= seq![byte]);
            law_changed_byte_changes_the_checksum(0, seq![kind], 0, byte);
            law_checksum_goes_on(crc32c_of(0, seq![byte]), crc32c_of(0, seq![kind]), payload);
        } else {
            assert(rest =~= payload.update(at - 9, byte));
            law_changed_byte_changes_the_checksum(
                crc32c_of(0, seq![kind]),
                payload,
                at - 9,
                byte,
            );
        }
    }
}

/// A changed byte is found: where one byte of a record behind its length was
/// changed, reading reports corruption where the record starts, unless it is the
/// last one. Then the mutations before it are all there is.
pub proof fn law_changed_byte_is_found(ops: Seq<LogOpView>, j: int, at: int, byte: u8)
    requires
        ops_fit(ops),
        0 <= j < ops.len(),
        record_start(ops, j) + 4 <= at < record_start(ops, j + 1),
        op_records(ops)[at] != byte,
    ensures
        j < ops.len() - 1 ==> decode_from(op_records(ops).update(at, byte), 0) == Err::<
            (Seq<LogOpView>, int),
            int,
        >(record_start(ops, j)),
        j == ops.len() - 1 ==> decode_from(op_records(ops).update(at, byte), 0) == Ok::<
            (Seq<LogOpView>, int),
            int,
        >((ops.take(j), record_start(ops, j))),
{
    let all = op_records(ops);
    let bytes = all.update(at, byte);
    let start = record_start(ops, j);
    let end = record_start(ops, j + 1);
    let record = op_record(ops[j]);
    lemma_record_span(ops, j);
    lemma_records_prefix(ops, j + 1);
    assert(ops.take(j + 1).drop_last() =~= ops.take(j));
    let longer = op_records(ops.take(j + 1));
    assert(longer == op_records(ops.take(j)) + record);
    assert(longer.subrange(start, end) =~= record);
    assert(all.subrange(start, end) =~= all.take(end).subrange(start, end));
    let changed = bytes.subrange(start, end);
    assert(changed =~= record.update(at - start, byte));
    assert(record[at - start] == all.subrange(start, end)[at - start]);
    match ops[j] {
        LogOpView::Append(e) => lemma_changed_record(
            KIND_APPEND,
            entry_bytes(e),
            at - start,
            byte,
        ),
        LogOpView::TruncateFrom(i) => lemma_changed_record(
            KIND_TRUNCATE,
            u64_bytes(i),
            at - start,
            byte,
        ),
    }
    assert(changed.subrange(4, 8) =~= bytes.subrange(start + 4, start + 8));
    assert(changed.subrange(9, changed.len() as int) =~= bytes.subrange(start + 9, end));
    assert(damaged_record(bytes, ops, j));
    law_damaged_record(ops, j, bytes);
}

/// A file of one record that was cut short, or whose checksum does not hold, is
/// damaged.
proof fn lemma_single_damaged(kind: u8, payload: Seq<u8>, bytes: Seq<u8>)
    requires
        payload_fits(payload),
        is_broken(bytes, frame(kind, payload)),
    ensures
        single_record(bytes) is None,
{
    let whole = frame(kind, payload);
    assert(whole.subrange(0, whole.len() as int) =~= whole);
    lemma_frame_fields(whole, 0, kind, payload);
    if bytes.len() >= 9 {
        assert(bytes.subrange(0, 4) =~= whole.subrange(0, 4));
    }
}

/// The bytes are what is left of a whole record after a crash cut it short or
/// after what stands behind its length was damaged, so that its checksum does not
/// hold.
pub open spec fn is_broken(bytes: Seq<u8>, whole: Seq<u8>) -> bool {
    ||| exists|cut: int| 0 <= cut < whole.len() && bytes == #[trigger] whole.take(cut)
    ||| {
        &&& bytes.len() == whole.len()
        &&& forall|i: int| 0 <= i < 4 ==> #[trigger] bytes[i] == whole[i]
        &&& spec_u32_from_le_bytes(bytes.subrange(4, 8)) != record_crc(
            bytes[8],
            bytes.subrange(9, bytes.len() as int),
        )
    }
}

/// A snapshot file that was cut short or whose checksum does not hold is not
/// read, and neither is one that holds an election state.
pub proof fn law_broken_snapshot_is_rejected(snap: SnapshotView, bytes: Seq<u8>, hs: HardState)
    requires
        payload_fits(snapshot_bytes(snap)),
    ensures
        is_broken(bytes, frame(KIND_SNAPSHOT, snapshot_bytes(snap))) ==> stored_snapshot(bytes)
            is None,
        stored_snapshot(frame(KIND_HARD_STATE, hard_state_bytes(hs))) is None,
{
    if is_broken(bytes, frame(KIND_SNAPSHOT, snapshot_bytes(snap))) {
        lemma_single_damaged(KIND_SNAPSHOT, snapshot_bytes(snap), bytes);
    }
    lemma_auto_spec_u64_to_from_le_bytes();
    lemma_single_round_trip(KIND_HARD_STATE, hard_state_bytes(hs));
}

/// An election state file that was cut short or whose checksum does not hold is
/// not read, and neither is one that holds a snapshot.
pub proof fn law_broken_hard_state_is_rejected(hs: HardState, bytes: Seq<u8>, snap: SnapshotView)
    requires
        payload_fits(snapshot_bytes(snap)),
    ensures
        is_broken(bytes, frame(KIND_HARD_STATE, hard_state_bytes(hs))) ==> stored_hard_state(bytes)
            is None,
        stored_hard_state(frame(KIND_SNAPSHOT, snapshot_bytes(snap))) is None,
{
    lemma_auto_spec_u64_to_from_le_bytes();
    if is_broken(bytes, frame(KIND_HARD_STATE, hard_state_bytes(hs))) {
        lemma_single_damaged(KIND_HARD_STATE, hard_state_bytes(hs), bytes);
    }
    lemma_single_round_trip(KIND_SNAPSHOT, snapshot_bytes(snap));
}

/// A changed byte is found in a snapshot file and in an election state file, behind
/// the length.
pub proof fn law_changed_state_file_is_rejected(
    snap: SnapshotView,
    hs: HardState,
    at: int,
    byte: u8,
)
    requires
        payload_fits(snapshot_bytes(snap)),
        4 <= at,
    ensures
        ({
            let whole = frame(KIND_SNAPSHOT, snapshot_bytes(snap));
            at < whole.len() && whole[at] != byte ==> stored_snapshot(whole.update(at, byte))
                is None
        }),
        ({
            let whole = frame(KIND_HARD_STATE, hard_state_bytes(hs));
            at < whole.len() && whole[at] != byte ==> stored_hard_state(whole.update(at, byte))
                is None
        }),
{
    let file = frame(KIND_SNAPSHOT, snapshot_bytes(snap));
    if at < file.len() && file[at] != byte {
        lemma_changed_record(KIND_SNAPSHOT, snapshot_bytes(snap), at, byte);
        assert(is_broken(file.update(at, byte), file));
        law_broken_snapshot_is_rejected(snap, file.update(at, byte), hs);
    }
    let state = frame(KIND_HARD_STATE, hard_state_bytes(hs));
    if at < state.len() && state[at] != byte {
        lemma_changed_record(KIND_HARD_STATE, hard_state_bytes(hs), at, byte);
        assert(is_broken(state.update(at, byte), state));
        law_broken_hard_state_is_rejected(hs, state.update(at, byte), snap);
    }
}

/// A record is read the same way wherever its bytes stand.
proof fn lemma_record_local(a: Seq<u8>, b: Seq<u8>, pos: int)
    requires
        0 <= pos,
        record_at(a, pos) is Op,
        record_at(a, pos)->end <= b.len(),
        forall|i: int| pos <= i < record_at(a, pos)->end ==> a[i] == b[i],
    ensures
        record_at(b, pos) == record_at(a, pos),
        record_at(a, pos)->end > pos,
        record_at(a, pos)->end <= a.len(),
{
    let end = record_at(a, pos)->end;
    assert(a.subrange(pos, pos + 4) =~= b.subrange(pos, pos + 4));
    assert(a.subrange(pos + 4, pos + 8) =~= b.subrange(pos + 4, pos + 8));
    assert(a.subrange(pos + 9, end) =~= b.subrange(pos + 9, end));
}

/// The clean prefix ends in the stream.
pub proof fn lemma_clean_prefix(a: Seq<u8>, pos: int)
    requires
        0 <= pos <= a.len(),
        decode_from(a, pos) is Ok,
    ensures
        pos <= decode_from(a, pos)->Ok_0.1 <= a.len(),
    decreases a.len() - pos,
{
    if let RecordAt::Op { op, end } = record_at(a, pos) {
        if pos < end <= a.len() {
            lemma_clean_prefix(a, end);
        }
    }
}

/// Once a stream was cut to its clean prefix, what is appended is decoded
/// behind the mutations that were there.
pub proof fn lemma_decode_extends(a: Seq<u8>, b: Seq<u8>, pos: int)
    requires
        0 <= pos <= a.len(),
        decode_from(a, pos) is Ok,
        decode_from(a, pos)->Ok_0.1 <= b.len(),
        forall|i: int| 0 <= i < decode_from(a, pos)->Ok_0.1 ==> a[i] == b[i],
    ensures
        decode_from(b, pos) == prepend(
            decode_from(a, pos)->Ok_0.0,
            decode_from(b, decode_from(a, pos)->Ok_0.1),
        ),
    decreases a.len() - pos,
{
    match record_at(a, pos) {
        RecordAt::Op { op, end } => {
            if end > pos {
                let (ops, valid_len) = decode_from(a, end)->Ok_0;
                if end <= a.len() {
                    lemma_clean_prefix(a, end);
                    lemma_decode_extends(a, b, end);
                    lemma_record_local(a, b, pos);
                    if let Ok((more, _)) = decode_from(b, valid_len) {
                        assert(seq![op] + (ops + more) =~= (seq![op] + ops) + more);
                    }
                }
            }
        },
        _ => {
            if let Ok((more, _)) = decode_from(b, pos) {
                assert(Seq::<LogOpView>::empty() + more =~= more);
            }
        },
    }
}

} // verus!
