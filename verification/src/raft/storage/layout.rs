//! How records lie in a file.

use vstd::bytes::{lemma_auto_spec_u32_to_from_le_bytes, spec_u32_from_le_bytes};
use vstd::prelude::*;

use crate::codec::{opt_u64_bytes, string_bytes, u64_bytes};
use crate::raft::snapshot::SnapshotView;
use crate::raft::storage::crc::{crc32c_of, remainder};
use crate::raft::storage::hard_state::HardState;
use crate::raft::storage::record::{
    entry_bytes, frame, hard_state_bytes, op_record, op_records, snapshot_bytes, LogOpView,
    KIND_HARD_STATE, KIND_SNAPSHOT,
};

verus! {

proof fn lemma_remainder_of_parts(register: u32, a: Seq<u8>, b: Seq<u8>)
    ensures
        remainder(register, a + b) == remainder(remainder(register, a), b),
    decreases b.len(),
{
    if b.len() == 0 {
        assert(a + b =~= a);
    } else {
        lemma_remainder_of_parts(register, a, b.drop_last());
        assert((a + b).drop_last() =~= a + b.drop_last());
        assert((a + b).last() == b.last());
    }
}

/// A checksum that goes on over more bytes is the checksum of all of them.
pub proof fn law_checksum_of_parts_is_that_of_the_whole(crc: u32, a: Seq<u8>, b: Seq<u8>)
    ensures
        crc32c_of(crc32c_of(crc, a), b) == crc32c_of(crc, a + b),
{
    reveal(crc32c_of);
    lemma_remainder_of_parts(!crc, a, b);
    let x = remainder(!crc, a);
    assert(!(!x) == x) by (bit_vector);
}

/// A record lies in a file as its length, its checksum, its kind and its payload.
/// The length counts the kind and the payload, and so does the checksum.
pub proof fn law_record_lies_as_length_checksum_kind_payload(kind: u8, payload: Seq<u8>)
    requires
        1 + payload.len() <= u32::MAX,
    ensures
        ({
            let record = frame(kind, payload);
            &&& record.len() == 9 + payload.len()
            &&& spec_u32_from_le_bytes(record.subrange(0, 4)) == 1 + payload.len()
            &&& spec_u32_from_le_bytes(record.subrange(4, 8)) == crc32c_of(0, seq![kind] + payload)
            &&& record[8] == kind
            &&& record.skip(9) == payload
        }),
{
    lemma_auto_spec_u32_to_from_le_bytes();
    let record = frame(kind, payload);
    let len = crate::raft::storage::record::record_len(payload);
    let crc = crate::raft::storage::record::record_crc(kind, payload);
    assert(record.subrange(0, 4) =~= crate::codec::u32_bytes(len));
    assert(record.subrange(4, 8) =~= crate::codec::u32_bytes(crc));
    assert(record.skip(9) =~= payload);
    law_checksum_of_parts_is_that_of_the_whole(0, seq![kind], payload);
}

/// Each record says what it is: an entry, a truncation, an election state or a
/// snapshot, and holds the fields one after another.
pub proof fn law_each_kind_of_record_is_told_apart(
    op: LogOpView,
    hard_state: HardState,
    snapshot: SnapshotView,
)
    ensures
        op matches LogOpView::Append(e) ==> op_record(op) == frame(
            1,
            u64_bytes(e.index) + u64_bytes(e.term) + string_bytes(e.command),
        ),
        op matches LogOpView::TruncateFrom(index) ==> op_record(op) == frame(2, u64_bytes(index)),
        KIND_HARD_STATE == 3,
        hard_state_bytes(hard_state) == u64_bytes(hard_state.current_term) + opt_u64_bytes(
            hard_state.voted_for,
        ),
        KIND_SNAPSHOT == 4,
        snapshot_bytes(snapshot) == u64_bytes(snapshot.meta.last_included_index) + u64_bytes(
            snapshot.meta.last_included_term,
        ) + string_bytes(snapshot.data),
{
    if let LogOpView::Append(e) = op {
        assert(entry_bytes(e) =~= u64_bytes(e.index) + u64_bytes(e.term) + string_bytes(e.command));
    }
    assert(snapshot_bytes(snapshot) =~= u64_bytes(snapshot.meta.last_included_index) + u64_bytes(
        snapshot.meta.last_included_term,
    ) + string_bytes(snapshot.data));
}

/// Records lie one behind another, in the order of the mutations.
pub proof fn law_records_lie_one_behind_another(a: Seq<LogOpView>, b: Seq<LogOpView>)
    ensures
        op_records(a + b) == op_records(a) + op_records(b),
        a.len() == 1 ==> op_records(a) == op_record(a[0]),
    decreases b.len(),
{
    if b.len() == 0 {
        assert(a + b =~= a);
        assert(op_records(a) + op_records(b) =~= op_records(a));
    } else {
        law_records_lie_one_behind_another(a, b.drop_last());
        assert((a + b).drop_last() =~= a + b.drop_last());
        assert(op_records(a + b) =~= op_records(a) + op_records(b));
    }
    if a.len() == 1 {
        assert(a.drop_last() =~= Seq::empty());
        assert(op_records(a.drop_last()) =~= Seq::empty());
        assert(op_records(a) =~= op_record(a[0]));
    }
}

} // verus!
