//! What holds of the key-value store as a whole.

use vstd::bytes::lemma_auto_spec_u64_to_from_le_bytes;
use vstd::prelude::*;

use crate::codec::{
    lemma_stands_split, lemma_string_round_trip, lemma_u64_round_trip, stands_at, string_bytes,
    u64_bytes, DecodeError,
};
use crate::kv::command::{
    law_result_round_trip, result_bytes, result_fits, CommandView, ResultView,
};
use crate::kv::idempotency::{
    checked, request_of, swept, ClientMeta, ClientStateView, RequestView, TableView,
    SESSION_TTL_ENTRIES,
};
use crate::kv::store::{key_lt, lemma_key_lt_total, ValueView};
use crate::kv::{
    all_session_bytes, all_slot_bytes, clients_bytes, data_bytes, get_session, get_sessions,
    get_slot, get_slots, kv_bytes, kv_of, session_bytes, slot_bytes, sorted_ids, sorted_keys,
    ClientId, KvView,
};
use crate::maps::{lemma_u64_lt_total, u64_lt};
use crate::raft::log::LogEntryView;
use crate::seqs::lemma_sorted_list;

verus! {

/// Whether the keys are ones that a machine can hold: finitely many, with lengths
/// that 64 bits can hold.
pub open spec fn data_fits(kv: KvView) -> bool {
    &&& kv.data.dom().finite()
    &&& sorted_keys(kv).len() <= u64::MAX
    &&& forall|k: Seq<u8>| #[trigger]
        kv.data.contains_key(k) ==> k.len() <= u64::MAX && kv.data[k].value.len() <= u64::MAX
}

/// Whether the sessions are ones that a machine can hold.
pub open spec fn clients_fit(kv: KvView) -> bool {
    &&& kv.clients.dom().finite()
    &&& sorted_ids(kv).len() <= u64::MAX
    &&& forall|id: ClientId| #[trigger]
        kv.clients.contains_key(id) ==> result_fits(kv.clients[id].cached_result)
}

/// Whether a store is one that a machine can hold.
pub open spec fn kv_fits(kv: KvView) -> bool {
    data_fits(kv) && clients_fit(kv)
}

/// The slots of one key more at the front.
proof fn lemma_slots_front(keys: Seq<Seq<u8>>, data: Map<Seq<u8>, ValueView>)
    requires
        keys.len() > 0,
    ensures
        all_slot_bytes(keys, data) == slot_bytes(keys[0], data[keys[0]]) + all_slot_bytes(
            keys.skip(1),
            data,
        ),
    decreases keys.len(),
{
    let first = slot_bytes(keys[0], data[keys[0]]);
    if keys.len() == 1 {
        assert(keys.drop_last() =~= Seq::empty());
        assert(keys.skip(1) =~= Seq::empty());
        assert(all_slot_bytes(keys.drop_last(), data) =~= Seq::empty());
        assert(all_slot_bytes(keys, data) =~= first);
        assert(first + all_slot_bytes(keys.skip(1), data) =~= first);
    } else {
        let init = keys.drop_last();
        lemma_slots_front(init, data);
        assert(init.skip(1) =~= keys.skip(1).drop_last());
        let last = slot_bytes(keys.last(), data[keys.last()]);
        assert(first + all_slot_bytes(init.skip(1), data) + last =~= first + (all_slot_bytes(
            init.skip(1),
            data,
        ) + last));
    }
}

/// The sessions of one client more at the front.
proof fn lemma_sessions_front(ids: Seq<ClientId>, clients: TableView)
    requires
        ids.len() > 0,
    ensures
        all_session_bytes(ids, clients) == session_bytes(ids[0], clients[ids[0]])
            + all_session_bytes(ids.skip(1), clients),
    decreases ids.len(),
{
    let first = session_bytes(ids[0], clients[ids[0]]);
    if ids.len() == 1 {
        assert(ids.drop_last() =~= Seq::empty());
        assert(ids.skip(1) =~= Seq::empty());
        assert(all_session_bytes(ids.drop_last(), clients) =~= Seq::empty());
        assert(all_session_bytes(ids, clients) =~= first);
        assert(first + all_session_bytes(ids.skip(1), clients) =~= first);
    } else {
        let init = ids.drop_last();
        lemma_sessions_front(init, clients);
        assert(init.skip(1) =~= ids.skip(1).drop_last());
        let last = session_bytes(ids.last(), clients[ids.last()]);
        assert(first + all_session_bytes(init.skip(1), clients) + last =~= first + (
        all_session_bytes(init.skip(1), clients) + last));
    }
}

proof fn lemma_slot_round_trip(s: Seq<u8>, pos: int, key: Seq<u8>, value: ValueView)
    requires
        stands_at(s, pos, slot_bytes(key, value)),
        key.len() <= u64::MAX,
        value.value.len() <= u64::MAX,
    ensures
        get_slot(s, pos) == Ok::<(Seq<u8>, ValueView, int), DecodeError>(
            (key, value, pos + slot_bytes(key, value).len()),
        ),
{
    let tail = string_bytes(value.value) + u64_bytes(value.version);
    lemma_stands_split(s, pos, string_bytes(key), tail);
    lemma_string_round_trip(s, pos, key);
    let p1 = pos + string_bytes(key).len();
    lemma_stands_split(s, p1, string_bytes(value.value), u64_bytes(value.version));
    lemma_string_round_trip(s, p1, value.value);
    lemma_u64_round_trip(s, p1 + string_bytes(value.value).len(), value.version);
}

proof fn lemma_session_round_trip(s: Seq<u8>, pos: int, id: ClientId, state: ClientStateView)
    requires
        stands_at(s, pos, session_bytes(id, state)),
        result_fits(state.cached_result),
    ensures
        get_session(s, pos) == Ok::<(ClientId, ClientStateView, int), DecodeError>(
            (id, state, pos + session_bytes(id, state).len()),
        ),
{
    lemma_auto_spec_u64_to_from_le_bytes();
    let t2 = result_bytes(state.cached_result) + u64_bytes(state.last_seen_index);
    let t1 = u64_bytes(state.last_sequence_number) + t2;
    lemma_stands_split(s, pos, u64_bytes(id), t1);
    lemma_u64_round_trip(s, pos, id);
    lemma_stands_split(s, pos + 8, u64_bytes(state.last_sequence_number), t2);
    lemma_u64_round_trip(s, pos + 8, state.last_sequence_number);
    lemma_stands_split(
        s,
        pos + 16,
        result_bytes(state.cached_result),
        u64_bytes(state.last_seen_index),
    );
    law_result_round_trip(s, pos + 16, state.cached_result);
    lemma_u64_round_trip(
        s,
        pos + 16 + result_bytes(state.cached_result).len(),
        state.last_seen_index,
    );
}

/// `acc` with the values of `keys` put in.
spec fn fill<K, V>(acc: Map<K, V>, keys: Seq<K>, data: Map<K, V>) -> Map<K, V> {
    acc.union_prefer_right(Map::new(|k: K| keys.contains(k), |k: K| data[k]))
}

proof fn lemma_fill_front<K, V>(acc: Map<K, V>, keys: Seq<K>, data: Map<K, V>)
    requires
        keys.len() > 0,
    ensures
        fill(acc.insert(keys[0], data[keys[0]]), keys.skip(1), data) == fill(acc, keys, data),
{
    let rest = keys.skip(1);
    assert forall|k: K| keys.contains(k) == (k == keys[0] || rest.contains(k)) by {
        if keys.contains(k) && k != keys[0] {
            let i = keys.index_of(k);
            assert(rest[i - 1] == k);
        }
        if rest.contains(k) {
            assert(keys[rest.index_of(k) + 1] == k);
        }
    }
    assert(fill(acc.insert(keys[0], data[keys[0]]), rest, data) =~= fill(acc, keys, data));
}

proof fn lemma_slots_round_trip(
    s: Seq<u8>,
    pos: int,
    keys: Seq<Seq<u8>>,
    data: Map<Seq<u8>, ValueView>,
    acc: Map<Seq<u8>, ValueView>,
)
    requires
        stands_at(s, pos, all_slot_bytes(keys, data)),
        forall|i: int|
            0 <= i < keys.len() ==> (#[trigger] keys[i]).len() <= u64::MAX
                && data[keys[i]].value.len() <= u64::MAX,
    ensures
        get_slots(s, pos, keys.len(), acc) == Ok::<(Map<Seq<u8>, ValueView>, int), DecodeError>(
            (fill(acc, keys, data), pos + all_slot_bytes(keys, data).len()),
        ),
    decreases keys.len(),
{
    if keys.len() == 0 {
        assert(fill(acc, keys, data) =~= acc);
    } else {
        let key = keys[0];
        let first = slot_bytes(key, data[key]);
        lemma_slots_front(keys, data);
        lemma_stands_split(s, pos, first, all_slot_bytes(keys.skip(1), data));
        lemma_slot_round_trip(s, pos, key, data[key]);
        lemma_slots_round_trip(
            s,
            pos + first.len(),
            keys.skip(1),
            data,
            acc.insert(key, data[key]),
        );
        lemma_fill_front(acc, keys, data);
    }
}

proof fn lemma_sessions_round_trip(
    s: Seq<u8>,
    pos: int,
    ids: Seq<ClientId>,
    clients: TableView,
    acc: TableView,
)
    requires
        stands_at(s, pos, all_session_bytes(ids, clients)),
        forall|i: int|
            0 <= i < ids.len() ==> result_fits(clients[#[trigger] ids[i]].cached_result),
    ensures
        get_sessions(s, pos, ids.len(), acc) == Ok::<(TableView, int), DecodeError>(
            (fill(acc, ids, clients), pos + all_session_bytes(ids, clients).len()),
        ),
    decreases ids.len(),
{
    if ids.len() == 0 {
        assert(fill(acc, ids, clients) =~= acc);
    } else {
        let id = ids[0];
        let first = session_bytes(id, clients[id]);
        lemma_sessions_front(ids, clients);
        lemma_stands_split(s, pos, first, all_session_bytes(ids.skip(1), clients));
        lemma_session_round_trip(s, pos, id, clients[id]);
        lemma_sessions_round_trip(
            s,
            pos + first.len(),
            ids.skip(1),
            clients,
            acc.insert(id, clients[id]),
        );
        lemma_fill_front(acc, ids, clients);
    }
}

/// A snapshot restores the store it was taken of, keys and sessions alike,
/// whatever follows it.
pub proof fn law_snapshot_restores(kv: KvView, rest: Seq<u8>)
    requires
        kv_fits(kv),
    ensures
        kv_of(kv_bytes(kv) + rest) == Ok::<KvView, DecodeError>(kv),
{
    lemma_auto_spec_u64_to_from_le_bytes();
    lemma_key_lt_total();
    lemma_u64_lt_total();
    let keys = sorted_keys(kv);
    let ids = sorted_ids(kv);
    lemma_sorted_list(kv.data.dom(), key_lt());
    lemma_sorted_list(kv.clients.dom(), u64_lt());
    let s = kv_bytes(kv) + rest;
    assert(s.subrange(0, kv_bytes(kv).len() as int) =~= kv_bytes(kv));
    lemma_stands_split(s, 0, data_bytes(kv), clients_bytes(kv));
    lemma_stands_split(s, 0, u64_bytes(keys.len() as u64), all_slot_bytes(keys, kv.data));
    lemma_u64_round_trip(s, 0, keys.len() as u64);
    assert forall|i: int| 0 <= i < keys.len() implies (#[trigger] keys[i]).len() <= u64::MAX
        && kv.data[keys[i]].value.len() <= u64::MAX by {
        assert(keys.contains(keys[i]));
        assert(kv.data.dom().contains(keys[i]));
        assert(kv.data.contains_key(keys[i]));
    }
    lemma_slots_round_trip(s, 8, keys, kv.data, Map::empty());
    assert(fill(Map::empty(), keys, kv.data) =~= kv.data) by {
        assert forall|k: Seq<u8>| kv.data.contains_key(k) == keys.contains(k) by {
            assert(kv.data.dom().contains(k) == keys.contains(k));
        }
    }
    let p2 = data_bytes(kv).len() as int;
    lemma_stands_split(s, p2, u64_bytes(ids.len() as u64), all_session_bytes(ids, kv.clients));
    lemma_u64_round_trip(s, p2, ids.len() as u64);
    assert forall|i: int| 0 <= i < ids.len() implies result_fits(
        kv.clients[#[trigger] ids[i]].cached_result,
    ) by {
        assert(ids.contains(ids[i]));
        assert(kv.clients.dom().contains(ids[i]));
        assert(kv.clients.contains_key(ids[i]));
    }
    lemma_sessions_round_trip(s, p2 + 8, ids, kv.clients, Map::empty());
    assert(fill(Map::empty(), ids, kv.clients) =~= kv.clients) by {
        assert forall|k: ClientId| kv.clients.contains_key(k) == ids.contains(k) by {
            assert(kv.clients.dom().contains(k) == ids.contains(k));
        }
    }
}

/// Applying entries one after another.
pub open spec fn apply_all(kv: KvView, entries: Seq<LogEntryView>) -> KvView
    decreases entries.len(),
{
    if entries.len() == 0 {
        kv
    } else {
        apply_all(kv, entries.drop_last()).apply(entries.last()).0
    }
}

proof fn lemma_apply_all_add(kv: KvView, a: Seq<LogEntryView>, b: Seq<LogEntryView>)
    ensures
        apply_all(kv, a + b) == apply_all(apply_all(kv, a), b),
    decreases b.len(),
{
    if b.len() == 0 {
        assert(a + b =~= a);
    } else {
        lemma_apply_all_add(kv, a, b.drop_last());
        assert((a + b).drop_last() =~= a + b.drop_last());
        assert((a + b).last() == b.last());
    }
}

/// A node that restores a snapshot and applies the entries behind it ends with
/// the same store as one that applied every entry itself: it even knows the
/// requests that it never saw.
pub proof fn law_snapshot_stands_for_prefix(
    kv: KvView,
    covered: Seq<LogEntryView>,
    rest: Seq<LogEntryView>,
)
    requires
        kv_fits(apply_all(kv, covered)),
    ensures
        kv_of(kv_bytes(apply_all(kv, covered))) is Ok,
        apply_all(kv_of(kv_bytes(apply_all(kv, covered)))->Ok_0, rest) == apply_all(
            kv,
            covered + rest,
        ),
{
    let at = apply_all(kv, covered);
    law_snapshot_restores(at, Seq::empty());
    assert(kv_bytes(at) + Seq::<u8>::empty() =~= kv_bytes(at));
    lemma_apply_all_add(kv, covered, rest);
}

/// An entry without a command changes nothing.
pub proof fn law_noop_changes_nothing(kv: KvView, entry: LogEntryView)
    requires
        entry.command.len() == 0,
    ensures
        kv.apply(entry) == (kv, Ok::<ResultView, Seq<char>>(ResultView::Noop)),
{
}

/// A request is applied at most once: once it was answered, a retry — whatever
/// else was applied since, as long as the session is still that one — gets the
/// same answer and leaves every key alone.
pub proof fn law_retry_is_answered_from_the_session(
    kv: KvView,
    request: RequestView,
    index: u64,
    later: KvView,
    retry: RequestView,
    later_index: u64,
)
    requires
        request.client is Some,
        retry.client == request.client,
        checked(kv.clients, request.client->0, index).1 !is Stale,
        kv.apply_request(request, index).1 is Ok,
        ({
            let after = kv.apply_request(request, index).0;
            let id = request.client->0.client_id;
            later.clients.contains_key(id) && later.clients[id].last_sequence_number
                == after.clients[id].last_sequence_number && later.clients[id].cached_result
                == after.clients[id].cached_result
        }),
    ensures
        later.apply_request(retry, later_index).0.data == later.data,
        later.apply_request(retry, later_index).1 == kv.apply_request(request, index).1,
        kv.apply_request(request, index).0.clients.contains_key(request.client->0.client_id),
{
}

/// The client's newest request is the one with `meta`, it was answered with
/// `result`, and the client was seen at `index` or later.
pub open spec fn remembers(kv: KvView, meta: ClientMeta, result: ResultView, index: u64) -> bool {
    &&& kv.clients.contains_key(meta.client_id)
    &&& kv.clients[meta.client_id].last_sequence_number == meta.seq_num
    &&& kv.clients[meta.client_id].cached_result == result
    &&& kv.clients[meta.client_id].last_seen_index >= index
}

/// The entry stands within the time to live behind `index`, and the client has not
/// moved past the request with `meta` in it.
pub open spec fn comes_in_time(entry: LogEntryView, meta: ClientMeta, index: u64) -> bool {
    &&& index <= entry.index <= index + SESSION_TTL_ENTRIES
    &&& match request_of(entry.command) {
        Ok(request) => match request.client {
            Some(other) => other.client_id == meta.client_id ==> other.seq_num <= meta.seq_num,
            None => true,
        },
        Err(_) => true,
    }
}

proof fn lemma_still_remembers(
    kv: KvView,
    entries: Seq<LogEntryView>,
    meta: ClientMeta,
    result: ResultView,
    index: u64,
)
    requires
        remembers(kv, meta, result, index),
        forall|i: int| 0 <= i < entries.len() ==> comes_in_time(#[trigger] entries[i], meta, index),
    ensures
        remembers(apply_all(kv, entries), meta, result, index),
    decreases entries.len(),
{
    if entries.len() > 0 {
        let before = apply_all(kv, entries.drop_last());
        lemma_still_remembers(kv, entries.drop_last(), meta, result, index);
        let entry = entries[entries.len() - 1];
        assert(comes_in_time(entry, meta, index));
        if let Ok(request) = request_of(entry.command) {
            let after = before.apply_request(request, entry.index).0;
            assert(remembers(after, meta, result, index));
        }
    }
}

/// A request is applied at most once: once an entry was answered, a retry — with
/// whatever entries in between, as long as they come within the time to live and
/// the client has not moved on — gets the same answer and leaves every key alone.
pub proof fn law_retry_in_time_gets_the_same_answer(
    kv: KvView,
    entry: LogEntryView,
    between: Seq<LogEntryView>,
    retry: LogEntryView,
    meta: ClientMeta,
)
    requires
        entry.command.len() > 0,
        request_of(entry.command) is Ok,
        request_of(entry.command)->Ok_0.client == Some(meta),
        checked(kv.clients, meta, entry.index).1 !is Stale,
        kv.apply(entry).1 is Ok,
        forall|i: int|
            0 <= i < between.len() ==> comes_in_time(#[trigger] between[i], meta, entry.index),
        retry.command.len() > 0,
        request_of(retry.command) is Ok,
        request_of(retry.command)->Ok_0.client == Some(meta),
    ensures
        ({
            let (after, answer) = kv.apply(entry);
            let later = apply_all(after, between);
            later.apply(retry).1 == answer && later.apply(retry).0.data == later.data
        }),
{
    let (after, answer) = kv.apply(entry);
    assert(remembers(after, meta, answer->Ok_0, entry.index));
    lemma_still_remembers(after, between, meta, answer->Ok_0, entry.index);
}

/// A request older than the client's newest is never applied again.
pub proof fn law_stale_request_changes_no_key(kv: KvView, request: RequestView, index: u64)
    requires
        request.client is Some,
        kv.clients.contains_key(request.client->0.client_id),
        request.client->0.seq_num
            < kv.clients[request.client->0.client_id].last_sequence_number,
    ensures
        kv.apply_request(request, index).0.data == kv.data,
        kv.apply_request(request, index).1 == Ok::<ResultView, Seq<char>>(ResultView::Noop),
{
}

/// A sweep keeps every session that was seen within the time to live, so a
/// client that keeps retrying is never forgotten, and drops every other one.
pub proof fn law_sweep_keeps_the_living(
    table: TableView,
    meta: ClientMeta,
    index: u64,
    sweep_index: u64,
)
    requires
        table.contains_key(meta.client_id),
        sweep_index <= index + SESSION_TTL_ENTRIES,
        checked(table, meta, index).1 !is Fresh,
    ensures
        swept(checked(table, meta, index).0, sweep_index).contains_key(meta.client_id),
        swept(checked(table, meta, index).0, sweep_index)[meta.client_id] == checked(
            table,
            meta,
            index,
        ).0[meta.client_id],
{
}

/// A command touches no key but its own.
pub proof fn law_other_keys_stay(kv: KvView, command: CommandView, other: Seq<u8>)
    requires
        match command {
            CommandView::Get { key } => true,
            CommandView::Put { key, value } => key != other,
            CommandView::Delete { key } => key != other,
            CommandView::Cas { key, expected_version, value } => key != other,
        },
    ensures
        kv.apply_command(command).0.get(other) == kv.get(other),
        kv.apply_command(command).0.version(other) == kv.version(other),
        kv.apply_command(command).0.clients == kv.clients,
{
}

/// What was written is read back, under a version one above the last.
pub proof fn law_write_is_read_back(kv: KvView, key: Seq<u8>, value: Seq<u8>)
    requires
        kv.version(key) != Some(u64::MAX),
    ensures
        ({
            let (after, result) = kv.apply_command(CommandView::Put { key, value });
            &&& after.get(key) == Some(value)
            &&& after.version(key) == kv.next_version(key)
            &&& result is Ok
        }),
{
}

/// What was deleted is gone.
pub proof fn law_deleted_is_gone(kv: KvView, key: Seq<u8>)
    ensures
        kv.apply_command(CommandView::Delete { key }).0.get(key) is None,
        kv.apply_command(CommandView::Delete { key }).0.version(key) is None,
{
}

/// Of two swaps that expect the same version, only the first can win.
pub proof fn law_one_swap_wins(
    kv: KvView,
    key: Seq<u8>,
    expected_version: Option<u64>,
    first: Option<Seq<u8>>,
    second: Option<Seq<u8>>,
)
    requires
        expected_version is Some || first is Some,
        ({
            let result = kv.apply_command(
                CommandView::Cas { key, expected_version, value: first },
            ).1;
            result is Ok && result->Ok_0->outcome is Applied
        }),
    ensures
        ({
            let after = kv.apply_command(
                CommandView::Cas { key, expected_version, value: first },
            ).0;
            let (same, result) = after.apply_command(
                CommandView::Cas { key, expected_version, value: second },
            );
            &&& same == after
            &&& result is Ok
            &&& result->Ok_0->outcome is Failed
        }),
{
}

/// A swap that fails, and a command that fails, changes nothing.
pub proof fn law_failure_changes_nothing(kv: KvView, command: CommandView)
    requires
        kv.apply_command(command).1 is Err || (kv.apply_command(command).1->Ok_0 is Cas
            && kv.apply_command(command).1->Ok_0->outcome is Failed),
    ensures
        kv.apply_command(command).0 == kv,
{
}

// ── Versions ────────────────────────────────────────────────────────────────

/// No key has version zero.
pub open spec fn is_versioned(kv: KvView) -> bool {
    forall|k: Seq<u8>| #[trigger] kv.data.contains_key(k) ==> kv.data[k].version != 0
}

/// What a state machine may go through. A snapshot that is restored was taken of
/// a machine that went through such steps itself.
pub enum KvStep {
    Apply(LogEntryView),
    Request { request: RequestView, index: u64 },
    Command(CommandView),
    Restore(Seq<KvStep>),
}

/// The store that a new machine holds after the steps.
pub open spec fn reached(steps: Seq<KvStep>) -> KvView
    decreases steps,
{
    if steps.len() == 0 {
        KvView::empty()
    } else {
        let before = reached(steps.drop_last());
        match steps.last() {
            KvStep::Apply(entry) => before.apply(entry).0,
            KvStep::Request { request, index } => before.apply_request(request, index).0,
            KvStep::Command(command) => before.apply_command(command).0,
            KvStep::Restore(other) => match kv_of(kv_bytes(reached(other))) {
                Ok(kv) => kv,
                Err(_) => before,
            },
        }
    }
}

/// Every machine of which a snapshot is taken on the way is one that fits.
pub open spec fn steps_fit(steps: Seq<KvStep>) -> bool
    decreases steps,
{
    steps.len() > 0 ==> steps_fit(steps.drop_last()) && match steps.last() {
        KvStep::Restore(other) => steps_fit(other) && kv_fits(reached(other)),
        _ => true,
    }
}

proof fn lemma_command_versioned(kv: KvView, command: CommandView)
    requires
        is_versioned(kv),
    ensures
        is_versioned(kv.apply_command(command).0),
{
}

proof fn lemma_request_versioned(kv: KvView, request: RequestView, index: u64)
    requires
        is_versioned(kv),
    ensures
        is_versioned(kv.apply_request(request, index).0),
{
    lemma_command_versioned(kv, request.command);
    if let Some(meta) = request.client {
        let seen = KvView { clients: checked(kv.clients, meta, index).0, ..kv };
        lemma_command_versioned(seen, request.command);
    }
}

/// Versions start at one: whatever a machine goes through, restored snapshots
/// among it, no key has version zero, and exactly the keys with a value have a
/// version.
pub proof fn law_versions_start_at_one(steps: Seq<KvStep>, key: Seq<u8>)
    requires
        steps_fit(steps),
    ensures
        is_versioned(reached(steps)),
        reached(steps).version(key) != Some(0u64),
        reached(steps).version(key) is Some <==> reached(steps).get(key) is Some,
    decreases steps,
{
    if steps.len() > 0 {
        let before = reached(steps.drop_last());
        law_versions_start_at_one(steps.drop_last(), key);
        match steps.last() {
            KvStep::Apply(entry) => {
                if let Ok(request) = request_of(entry.command) {
                    lemma_request_versioned(before, request, entry.index);
                }
            },
            KvStep::Request { request, index } => lemma_request_versioned(before, request, index),
            KvStep::Command(command) => lemma_command_versioned(before, command),
            KvStep::Restore(other) => {
                let kv = reached(other);
                law_versions_start_at_one(other, key);
                law_snapshot_restores(kv, Seq::empty());
                assert(kv_bytes(kv) + Seq::<u8>::empty() =~= kv_bytes(kv));
            },
        }
    }
}

/// A restore gives back the machine that the snapshot was taken of: the same
/// values, versions and sessions. So a retry of a request that only that machine
/// applied is answered from its session.
pub proof fn law_restored_machine_is_the_same(kv: KvView)
    requires
        kv_fits(kv),
    ensures
        kv_of(kv_bytes(kv)) is Ok,
        forall|key: Seq<u8>| #[trigger]
            (kv_of(kv_bytes(kv))->Ok_0).get(key) == kv.get(key),
        forall|key: Seq<u8>| #[trigger]
            (kv_of(kv_bytes(kv))->Ok_0).version(key) == kv.version(key),
        forall|entry: LogEntryView| #[trigger]
            (kv_of(kv_bytes(kv))->Ok_0).apply(entry) == kv.apply(entry),
{
    law_snapshot_restores(kv, Seq::empty());
    assert(kv_bytes(kv) + Seq::<u8>::empty() =~= kv_bytes(kv));
}

} // verus!
