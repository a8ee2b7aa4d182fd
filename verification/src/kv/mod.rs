//! Key-value state machine.

pub mod answers;
pub mod command;
pub mod decoding;
pub mod idempotency;
pub mod laws;
pub mod store;

pub use command::{CasOutcome, Command, CommandResult};
pub use idempotency::{ClientMeta, ClientRequest, ClientState, IdempotencyTable};

use std::collections::BTreeMap;

use vstd::prelude::*;

use crate::codec::{
    get_string, get_u64, put_string, put_u64, read_string, read_u64, string_bytes, u64_bytes,
    DecodeError,
};
use crate::error::KvError;
use crate::raft::log::{copy_bytes, LogEntry, LogEntryView};
use crate::maps::{ascending_keys, keys_in_order};
use crate::seqs::{lemma_is_sorted_list, lists, sorted_list};
use command::{
    command_decode_failed, decode_failed, get_result, lemma_result_fits, put_result, read_result,
    result_bytes, result_fits, CasView, CommandView, ResultView,
};
use idempotency::{
    check, checked, gc, record, recorded, request_of, swept, table_view, ClientStateView, Dedup,
    DedupView, RequestView, TableView,
};
use laws::{clients_fit, data_fits, kv_fits, law_snapshot_restores};
use store::{key_lt, keys_of, lemma_key_lt_asymmetric, OrderedStore, ValueEntry, ValueView};

verus! {

broadcast use vstd::std_specs::btree::group_btree_axioms;

pub type ClientId = u64;

pub type SequenceNumber = u64;

/// Deterministic key-value state machine backed by an ordered map.
#[derive(Debug, PartialEq, Eq)]
pub struct KvStateMachine {
    data: OrderedStore,
    /// Ordered so that snapshot bytes are identical on every node.
    pub idempotency: IdempotencyTable,
}

/// What a [`KvStateMachine`] holds.
#[verifier::ext_equal]
pub struct KvView {
    pub data: Map<Seq<u8>, ValueView>,
    pub clients: TableView,
}

impl View for KvStateMachine {
    type V = KvView;

    closed spec fn view(&self) -> KvView {
        KvView { data: self.data@, clients: table_view(self.idempotency@) }
    }
}

impl KvView {
    /// The store without keys and sessions.
    pub open spec fn empty() -> KvView {
        KvView { data: Map::empty(), clients: Map::empty() }
    }

    /// The value under `key`.
    pub open spec fn get(self, key: Seq<u8>) -> Option<Seq<u8>> {
        if self.data.contains_key(key) {
            Some(self.data[key].value)
        } else {
            None
        }
    }

    /// The version of `key`.
    pub open spec fn version(self, key: Seq<u8>) -> Option<u64> {
        if self.data.contains_key(key) {
            Some(self.data[key].version)
        } else {
            None
        }
    }

    /// The version that the next write gives `key`: 1 for a new key, and none
    /// once the counter is exhausted.
    pub open spec fn next_version(self, key: Seq<u8>) -> Option<u64> {
        match self.version(key) {
            None => Some(1),
            Some(v) => if v < u64::MAX {
                Some((v + 1) as u64)
            } else {
                None
            },
        }
    }

    /// The store with `value` under `key`.
    pub open spec fn with(self, key: Seq<u8>, value: Seq<u8>, version: u64) -> KvView {
        KvView { data: self.data.insert(key, ValueView { value, version }), ..self }
    }

    /// The store without `key`.
    pub open spec fn without(self, key: Seq<u8>) -> KvView {
        KvView { data: self.data.remove(key), ..self }
    }

    /// The store after one command, and its result. A command that fails
    /// changes nothing.
    pub open spec fn apply_command(self, command: CommandView) -> (
        KvView,
        Result<ResultView, Seq<char>>,
    ) {
        match command {
            CommandView::Get { key } => (
                self,
                Ok(ResultView::Get { value: self.get(key), version: self.version(key) }),
            ),
            CommandView::Put { key, value } => match self.next_version(key) {
                None => (self, Err("key version overflow"@)),
                Some(version) => (
                    self.with(key, value, version),
                    Ok(ResultView::Put { previous: self.get(key), set_version: version }),
                ),
            },
            CommandView::Delete { key } => (
                self.without(key),
                Ok(ResultView::Delete { previous: self.get(key) }),
            ),
            CommandView::Cas { key, expected_version, value } => if self.version(key)
                != expected_version {
                (
                    self,
                    Ok(
                        ResultView::Cas {
                            outcome: CasView::Failed {
                                actual_version: self.version(key),
                                actual_value: self.get(key),
                            },
                        },
                    ),
                )
            } else {
                match (value, self.next_version(key)) {
                    (None, _) => (
                        self.without(key),
                        Ok(
                            ResultView::Cas {
                                outcome: CasView::Applied {
                                    previous: self.get(key),
                                    version: None,
                                },
                            },
                        ),
                    ),
                    (Some(_), None) => (self, Err("key version overflow"@)),
                    (Some(value), Some(version)) => (
                        self.with(key, value, version),
                        Ok(
                            ResultView::Cas {
                                outcome: CasView::Applied {
                                    previous: self.get(key),
                                    version: Some(version),
                                },
                            },
                        ),
                    ),
                }
            },
        }
    }

    /// The store after the sweep that `index` may call for.
    pub open spec fn sweep(self, index: u64) -> KvView {
        KvView { clients: swept(self.clients, index), ..self }
    }

    /// The store after a request at `index`, and its result. A retry is answered
    /// from the session, and a request that the client has moved past is
    /// answered with nothing.
    pub open spec fn apply_request(self, request: RequestView, index: u64) -> (
        KvView,
        Result<ResultView, Seq<char>>,
    ) {
        match request.client {
            None => match self.apply_command(request.command) {
                (after, Ok(result)) => (after.sweep(index), Ok(result)),
                (after, Err(e)) => (after, Err(e)),
            },
            Some(meta) => {
                let (clients, verdict) = checked(self.clients, meta, index);
                let seen = KvView { clients, ..self };
                match verdict {
                    DedupView::Replay(cached) => (seen.sweep(index), Ok(cached)),
                    DedupView::Stale => (seen.sweep(index), Ok(ResultView::Noop)),
                    DedupView::Fresh => match seen.apply_command(request.command) {
                        (after, Err(e)) => (after, Err(e)),
                        (after, Ok(result)) => (
                            KvView {
                                clients: recorded(after.clients, meta, result, index),
                                ..after
                            }.sweep(index),
                            Ok(result),
                        ),
                    },
                }
            },
        }
    }

    /// The store after a replicated entry, and its result.
    pub open spec fn apply(self, entry: LogEntryView) -> (KvView, Result<ResultView, Seq<char>>) {
        if entry.command.len() == 0 {
            (self, Ok(ResultView::Noop))
        } else {
            match request_of(entry.command) {
                Err(e) => (self, Err(command_decode_failed(e))),
                Ok(request) => self.apply_request(request, entry.index),
            }
        }
    }
}

// ── snapshot layout ─────────────────────────────────────────────────────────

/// The encoding of a key and what is stored under it.
pub open spec fn slot_bytes(key: Seq<u8>, value: ValueView) -> Seq<u8> {
    string_bytes(key) + (string_bytes(value.value) + u64_bytes(value.version))
}

/// The encoding of a client and its session.
pub open spec fn session_bytes(id: ClientId, state: ClientStateView) -> Seq<u8> {
    u64_bytes(id) + (u64_bytes(state.last_sequence_number) + (result_bytes(state.cached_result)
        + u64_bytes(state.last_seen_index)))
}

/// The encodings of the slots of `keys`, one after another.
pub open spec fn all_slot_bytes(keys: Seq<Seq<u8>>, data: Map<Seq<u8>, ValueView>) -> Seq<u8>
    decreases keys.len(),
{
    if keys.len() == 0 {
        Seq::empty()
    } else {
        all_slot_bytes(keys.drop_last(), data) + slot_bytes(keys.last(), data[keys.last()])
    }
}

/// The encodings of the sessions of `ids`, one after another.
pub open spec fn all_session_bytes(ids: Seq<ClientId>, clients: TableView) -> Seq<u8>
    decreases ids.len(),
{
    if ids.len() == 0 {
        Seq::empty()
    } else {
        all_session_bytes(ids.drop_last(), clients) + session_bytes(
            ids.last(),
            clients[ids.last()],
        )
    }
}

/// The keys of a store, in ascending order.
pub open spec fn sorted_keys(kv: KvView) -> Seq<Seq<u8>> {
    sorted_list(kv.data.dom(), key_lt())
}

/// The clients of a store, in ascending order.
pub open spec fn sorted_ids(kv: KvView) -> Seq<ClientId> {
    keys_in_order(kv.clients)
}

/// The encoding of the slots of a store: how many, then each in key order.
pub open spec fn data_bytes(kv: KvView) -> Seq<u8> {
    u64_bytes(sorted_keys(kv).len() as u64) + all_slot_bytes(sorted_keys(kv), kv.data)
}

/// The encoding of the sessions of a store: how many, then each in order.
pub open spec fn clients_bytes(kv: KvView) -> Seq<u8> {
    u64_bytes(sorted_ids(kv).len() as u64) + all_session_bytes(sorted_ids(kv), kv.clients)
}

/// The snapshot of a store.
pub open spec fn kv_bytes(kv: KvView) -> Seq<u8> {
    data_bytes(kv) + clients_bytes(kv)
}

/// The slot at `pos`, and the position after it.
pub open spec fn get_slot(s: Seq<u8>, pos: int) -> Result<
    (Seq<u8>, ValueView, int),
    DecodeError,
> {
    match get_string(s, pos) {
        Err(e) => Err(e),
        Ok((key, p1)) => match get_string(s, p1) {
            Err(e) => Err(e),
            Ok((value, p2)) => match get_u64(s, p2) {
                Err(e) => Err(e),
                Ok((version, p3)) => Ok((key, ValueView { value, version }, p3)),
            },
        },
    }
}

/// The session at `pos`, and the position after it.
pub open spec fn get_session(s: Seq<u8>, pos: int) -> Result<
    (ClientId, ClientStateView, int),
    DecodeError,
> {
    match get_u64(s, pos) {
        Err(e) => Err(e),
        Ok((id, p1)) => match get_u64(s, p1) {
            Err(e) => Err(e),
            Ok((last_sequence_number, p2)) => match get_result(s, p2) {
                Err(e) => Err(e),
                Ok((cached_result, p3)) => match get_u64(s, p3) {
                    Err(e) => Err(e),
                    Ok((last_seen_index, p4)) => Ok(
                        (
                            id,
                            ClientStateView {
                                last_sequence_number,
                                cached_result,
                                last_seen_index,
                            },
                            p4,
                        ),
                    ),
                },
            },
        },
    }
}

/// `n` slots from `pos` on, put into `data`, and the position after them.
pub open spec fn get_slots(s: Seq<u8>, pos: int, n: nat, data: Map<Seq<u8>, ValueView>) -> Result<
    (Map<Seq<u8>, ValueView>, int),
    DecodeError,
>
    decreases n,
{
    if n == 0 {
        Ok((data, pos))
    } else {
        match get_slot(s, pos) {
            Err(e) => Err(e),
            Ok((key, value, end)) => get_slots(s, end, (n - 1) as nat, data.insert(key, value)),
        }
    }
}

/// `n` sessions from `pos` on, put into `clients`, and the position after them.
pub open spec fn get_sessions(s: Seq<u8>, pos: int, n: nat, clients: TableView) -> Result<
    (TableView, int),
    DecodeError,
>
    decreases n,
{
    if n == 0 {
        Ok((clients, pos))
    } else {
        match get_session(s, pos) {
            Err(e) => Err(e),
            Ok((id, state, end)) => get_sessions(s, end, (n - 1) as nat, clients.insert(id, state)),
        }
    }
}

/// The store that `s` starts with.
pub open spec fn kv_of(s: Seq<u8>) -> Result<KvView, DecodeError> {
    match get_u64(s, 0) {
        Err(e) => Err(e),
        Ok((n, p1)) => match get_slots(s, p1, n as nat, Map::empty()) {
            Err(e) => Err(e),
            Ok((data, p2)) => match get_u64(s, p2) {
                Err(e) => Err(e),
                Ok((m, p3)) => match get_sessions(s, p3, m as nat, Map::empty()) {
                    Err(e) => Err(e),
                    Ok((clients, _)) => Ok(KvView { data, clients }),
                },
            },
        },
    }
}

impl Default for KvStateMachine {
    fn default() -> (r: Self)
        ensures
            r@ == KvView::empty(),
    {
        KvStateMachine::new()
    }
}

impl Clone for KvStateMachine {
    fn clone(&self) -> (r: Self)
        ensures
            r@ == self@,
    {
        KvStateMachine { data: self.data.clone(), idempotency: self.idempotency.clone() }
    }
}

impl KvStateMachine {
    /// Creates an empty state machine.
    pub fn new() -> (r: Self)
        ensures
            r@ == KvView::empty(),
    {
        let r = Self { data: OrderedStore::new(), idempotency: BTreeMap::new() };
        assert(r@ =~= KvView::empty());
        r
    }

    /// Returns the current value for `key`, if present.
    pub fn get(&self, key: &[u8]) -> (r: Option<&[u8]>)
        ensures
            match r {
                Some(value) => self@.get(key@) == Some(value@),
                None => self@.get(key@) is None,
            },
    {
        match self.data.get(key) {
            Some(entry) => Some(entry.value.as_slice()),
            None => None,
        }
    }

    /// Returns the current version for `key`, if present.
    pub fn version(&self, key: &[u8]) -> (r: Option<u64>)
        ensures
            r == self@.version(key@),
    {
        match self.data.get(key) {
            Some(entry) => Some(entry.version),
            None => None,
        }
    }

    /// A copy of the value under `key`.
    fn value_of(&self, key: &Vec<u8>) -> (r: Option<Vec<u8>>)
        ensures
            crate::codec::opt_view(r) == self@.get(key@),
    {
        match self.data.get(key.as_slice()) {
            Some(entry) => Some(copy_bytes(&entry.value)),
            None => None,
        }
    }

    /// Applies a replicated log entry, deduplicating client retries.
    ///
    /// The deduplication check runs before the command takes effect, and the
    /// session is recorded in the same call, so the table update is atomic with
    /// the state change.
    ///
    /// Empty commands are Raft leader no-ops and leave the store unchanged.
    pub fn apply(&mut self, entry: &LogEntry) -> (r: Result<CommandResult, KvError>)
        ensures
            final(self)@ == old(self)@.apply(entry@).0,
            match (old(self)@.apply(entry@).1, r) {
                (Ok(result), Ok(given)) => given@ == result,
                (Err(text), Err(error)) => error@ == text,
                _ => false,
            },
    {
        if entry.command.len() == 0 {
            return Ok(CommandResult::Noop);
        }
        let request = match ClientRequest::decode(entry.command.as_slice()) {
            Ok(request) => request,
            Err(e) => {
                return Err(e);
            },
        };
        self.apply_request(request, entry.index)
    }

    /// Applies a decoded request at a log index, deduplicating client retries.
    pub fn apply_request(&mut self, request: ClientRequest, index: u64) -> (r: Result<
        CommandResult,
        KvError,
    >)
        ensures
            final(self)@ == old(self)@.apply_request(request@, index).0,
            match (old(self)@.apply_request(request@, index).1, r) {
                (Ok(result), Ok(given)) => given@ == result,
                (Err(text), Err(error)) => error@ == text,
                _ => false,
            },
    {
        let ghost before = self@;
        let meta = match request.client {
            Some(meta) => meta,
            None => {
                let result = match self.apply_command(request.command) {
                    Ok(result) => result,
                    Err(e) => {
                        return Err(e);
                    },
                };
                gc(&mut self.idempotency, index);
                return Ok(result);
            },
        };
        match check(&mut self.idempotency, meta, index) {
            Dedup::Replay(cached) => {
                gc(&mut self.idempotency, index);
                return Ok(cached);
            },
            Dedup::Stale => {
                gc(&mut self.idempotency, index);
                return Ok(CommandResult::Noop);
            },
            Dedup::Fresh => {},
        }
        assert(self@ =~= before);
        let result = match self.apply_command(request.command) {
            Ok(result) => result,
            Err(e) => {
                return Err(e);
            },
        };
        record(&mut self.idempotency, meta, result.clone(), index);
        gc(&mut self.idempotency, index);
        Ok(result)
    }

    /// Applies a decoded command as one atomic state transition.
    ///
    /// This is the raw transition and does **not** deduplicate; [`Self::apply`]
    /// is the deduplicating entry point for replicated entries.
    pub fn apply_command(&mut self, command: Command) -> (r: Result<CommandResult, KvError>)
        ensures
            final(self)@ == old(self)@.apply_command(command@).0,
            match (old(self)@.apply_command(command@).1, r) {
                (Ok(result), Ok(given)) => given@ == result,
                (Err(text), Err(error)) => error@ == text,
                _ => false,
            },
    {
        match command {
            Command::Get { key } => {
                let value = self.value_of(&key);
                let version = self.version(key.as_slice());
                Ok(CommandResult::Get { value, version })
            },
            Command::Put { key, value } => {
                let previous = self.value_of(&key);
                let version: u64 = match self.version(key.as_slice()) {
                    Some(v) => {
                        if v == u64::MAX {
                            return Err(KvError::Internal("key version overflow".to_owned()));
                        }
                        v + 1
                    },
                    None => 1,
                };
                self.data.insert(key, ValueEntry { value, version });
                Ok(CommandResult::Put { previous, version })
            },
            Command::Delete { key } => {
                let previous = self.value_of(&key);
                self.data.remove(key.as_slice());
                Ok(CommandResult::Delete { previous })
            },
            Command::Cas { key, expected_version, value } => {
                let actual_version = self.version(key.as_slice());
                let stored = self.value_of(&key);
                if actual_version != expected_version {
                    return Ok(
                        CommandResult::Cas {
                            outcome: CasOutcome::Failed { actual_version, actual_value: stored },
                        },
                    );
                }
                match value {
                    Some(new_value) => {
                        let version: u64 = match actual_version {
                            Some(v) => {
                                if v == u64::MAX {
                                    return Err(
                                        KvError::Internal("key version overflow".to_owned()),
                                    );
                                }
                                v + 1
                            },
                            None => 1,
                        };
                        self.data.insert(key, ValueEntry { value: new_value, version });
                        Ok(
                            CommandResult::Cas {
                                outcome: CasOutcome::Applied {
                                    previous: stored,
                                    version: Some(version),
                                },
                            },
                        )
                    },
                    None => {
                        self.data.remove(key.as_slice());
                        Ok(
                            CommandResult::Cas {
                                outcome: CasOutcome::Applied { previous: stored, version: None },
                            },
                        )
                    },
                }
            },
        }
    }

    /// Serializes the full store into a deterministic byte snapshot. The bytes
    /// restore it.
    pub fn snapshot(&self) -> (r: Result<Vec<u8>, KvError>)
        ensures
            r is Ok,
            r->Ok_0@ == kv_bytes(self@),
            kv_fits(self@),
            kv_of(r->Ok_0@) == Ok::<KvView, DecodeError>(self@),
    {
        let mut out: Vec<u8> = Vec::new();
        self.put_data(&mut out);
        self.put_clients(&mut out);
        assert(out@ =~= kv_bytes(self@));
        proof {
            law_snapshot_restores(self@, Seq::empty());
            assert(out@ + Seq::<u8>::empty() =~= out@);
        }
        Ok(out)
    }

    fn put_data(&self, out: &mut Vec<u8>)
        ensures
            final(out)@ == old(out)@ + data_bytes(self@),
            data_fits(self@),
    {
        let ghost before = out@;
        let slots = self.data.slots();
        let ghost keys = keys_of(slots@);
        proof {
            lemma_key_lt_asymmetric();
            lemma_is_sorted_list(keys, self@.data.dom(), key_lt());
        }
        put_u64(out, slots.len() as u64);
        let ghost head = u64_bytes(keys.len() as u64);
        let mut i: usize = 0;
        assert(before + head + all_slot_bytes(keys.take(0), self@.data) =~= before + head);
        while i < slots.len()
            invariant
                i <= slots@.len(),
                keys == keys_of(slots@),
                forall|k: int|
                    0 <= k < slots@.len() ==> self@.data.contains_key((#[trigger] slots@[k]).key@)
                        && self@.data[slots@[k].key@] == slots@[k].entry@,
                out@ == before + head + all_slot_bytes(keys.take(i as int), self@.data),
            decreases slots@.len() - i,
        {
            let slot = &slots[i];
            put_string(out, &slot.key);
            put_string(out, &slot.entry.value);
            put_u64(out, slot.entry.version);
            i += 1;
            proof {
                assert(keys.take(i as int).drop_last() =~= keys.take(i - 1));
                assert(keys.take(i as int).last() == slots@[i - 1].key@);
                assert(out@ =~= before + head + all_slot_bytes(keys.take(i as int), self@.data));
            }
        }
        assert(keys.take(i as int) =~= keys);
        assert(out@ =~= before + data_bytes(self@));
        proof {
            vstd::seq_lib::seq_to_set_is_finite(keys);
            assert(keys.to_set() =~= self@.data.dom()) by {
                assert forall|k: Seq<u8>| keys.to_set().contains(k) == self@.data.dom().contains(
                    k,
                ) by {
                    assert(self@.data.dom().contains(k) == keys.contains(k));
                }
            }
            assert forall|k: Seq<u8>| #[trigger] self@.data.contains_key(k) implies k.len()
                <= u64::MAX && self@.data[k].value.len() <= u64::MAX by {
                assert(self@.data.dom().contains(k));
                assert(keys.contains(k));
                let j = choose|j: int| 0 <= j < keys.len() && keys[j] == k;
                let slot = slots@[j];
                assert(slot.key@ == k);
                assert(slot.key.len() <= usize::MAX);
                assert(slot.entry.value.len() <= usize::MAX);
            }
        }
    }

    fn put_clients(&self, out: &mut Vec<u8>)
        ensures
            final(out)@ == old(out)@ + clients_bytes(self@),
            clients_fit(self@),
    {
        let ghost before = out@;
        let ids = ascending_keys(&self.idempotency);
        let ghost all = ids@;
        assert(self@.clients.dom() =~= self.idempotency@.dom());
        put_u64(out, ids.len() as u64);
        let ghost head = u64_bytes(all.len() as u64);
        let mut i: usize = 0;
        assert(before + head + all_session_bytes(all.take(0), self@.clients) =~= before + head);
        while i < ids.len()
            invariant
                i <= ids@.len(),
                all == ids@,
                lists(all, self.idempotency@.dom()),
                forall|k: int|
                    0 <= k < i ==> result_fits(self@.clients[#[trigger] all[k]].cached_result),
                out@ == before + head + all_session_bytes(all.take(i as int), self@.clients),
            decreases ids@.len() - i,
        {
            let id: ClientId = ids[i];
            assert(all.contains(id));
            assert(self.idempotency@.dom().contains(id));
            match self.idempotency.get(&id) {
                Some(state) => {
                    put_u64(out, id);
                    put_u64(out, state.last_sequence_number);
                    put_result(out, &state.cached_result);
                    put_u64(out, state.last_seen_index);
                    assert(state@ == self@.clients[id]);
                    proof {
                        lemma_result_fits(state.cached_result);
                    }
                },
                None => {
                    assert(false);
                },
            }
            i += 1;
            proof {
                assert(all.take(i as int).drop_last() =~= all.take(i - 1));
                assert(all.take(i as int).last() == id);
                assert(out@ =~= before + head + all_session_bytes(
                    all.take(i as int),
                    self@.clients,
                ));
            }
        }
        assert(all.take(i as int) =~= all);
        assert(out@ =~= before + clients_bytes(self@));
        proof {
            vstd::seq_lib::seq_to_set_is_finite(all);
            assert(all.to_set() =~= self@.clients.dom()) by {
                assert forall|id: ClientId| all.to_set().contains(id) == self@.clients.dom().contains(
                    id,
                ) by {
                    assert(self.idempotency@.dom().contains(id) == all.contains(id));
                }
            }
            assert forall|id: ClientId| #[trigger] self@.clients.contains_key(id) implies
                result_fits(self@.clients[id].cached_result) by {
                assert(self.idempotency@.dom().contains(id));
                assert(all.contains(id));
                let j = choose|j: int| 0 <= j < all.len() && all[j] == id;
                assert(result_fits(self@.clients[all[j]].cached_result));
            }
        }
    }

    /// Restores store contents from a snapshot previously produced by
    /// [`Self::snapshot`]. Bytes that are no snapshot change nothing.
    pub fn restore(&mut self, snapshot: &[u8]) -> (r: Result<(), KvError>)
        ensures
            match (kv_of(snapshot@), r) {
                (Ok(kv), Ok(_)) => final(self)@ == kv,
                (Err(e), Err(error)) => final(self)@ == old(self)@ && error@
                    == "snapshot decode failed: "@ + e.message_text(),
                _ => false,
            },
    {
        match read_store(snapshot) {
            Ok((data, idempotency)) => {
                self.data = data;
                self.idempotency = idempotency;
                assert(self@ =~= kv_of(snapshot@)->Ok_0);
                Ok(())
            },
            Err(e) => Err(decode_failed("snapshot decode failed: ", e)),
        }
    }
}

/// Reads the store that `bytes` start with.
fn read_store(bytes: &[u8]) -> (r: Result<(OrderedStore, IdempotencyTable), DecodeError>)
    ensures
        match r {
            Ok((data, table)) => kv_of(bytes@) == Ok::<KvView, DecodeError>(
                KvView { data: data@, clients: table_view(table@) },
            ),
            Err(e) => kv_of(bytes@) == Err::<KvView, DecodeError>(e),
        },
{
    let (n, p1): (u64, usize) = match read_u64(bytes, 0) {
        Ok(read) => read,
        Err(e) => {
            return Err(e);
        },
    };
    let (data, p2): (OrderedStore, usize) = match read_slots(bytes, p1, n) {
        Ok(read) => read,
        Err(e) => {
            return Err(e);
        },
    };
    let (m, p3): (u64, usize) = match read_u64(bytes, p2) {
        Ok(read) => read,
        Err(e) => {
            return Err(e);
        },
    };
    match read_sessions(bytes, p3, m) {
        Ok((table, _)) => Ok((data, table)),
        Err(e) => Err(e),
    }
}

/// Reads `n` slots from `pos` on.
fn read_slots(bytes: &[u8], pos: usize, n: u64) -> (r: Result<(OrderedStore, usize), DecodeError>)
    requires
        pos <= bytes@.len(),
    ensures
        match r {
            Ok((data, end)) => get_slots(bytes@, pos as int, n as nat, Map::empty()) == Ok::<
                (Map<Seq<u8>, ValueView>, int),
                DecodeError,
            >((data@, end as int)) && end <= bytes@.len(),
            Err(e) => get_slots(bytes@, pos as int, n as nat, Map::empty()) == Err::<
                (Map<Seq<u8>, ValueView>, int),
                DecodeError,
            >(e),
        },
{
    let mut data = OrderedStore::new();
    let mut at: usize = pos;
    let mut left: u64 = n;
    while left > 0
        invariant
            at <= bytes@.len(),
            get_slots(bytes@, pos as int, n as nat, Map::empty()) == get_slots(
                bytes@,
                at as int,
                left as nat,
                data@,
            ),
        decreases left,
    {
        let (key, p1): (Vec<u8>, usize) = match read_string(bytes, at) {
            Ok(read) => read,
            Err(e) => {
                return Err(e);
            },
        };
        let (value, p2): (Vec<u8>, usize) = match read_string(bytes, p1) {
            Ok(read) => read,
            Err(e) => {
                return Err(e);
            },
        };
        let (version, p3): (u64, usize) = match read_u64(bytes, p2) {
            Ok(read) => read,
            Err(e) => {
                return Err(e);
            },
        };
        data.insert(key, ValueEntry { value, version });
        at = p3;
        left -= 1;
    }
    Ok((data, at))
}

/// Reads the session at `pos`.
fn read_session(bytes: &[u8], pos: usize) -> (r: Result<
    (ClientId, ClientState, usize),
    DecodeError,
>)
    requires
        pos <= bytes@.len(),
    ensures
        match r {
            Ok((id, state, end)) => get_session(bytes@, pos as int) == Ok::<
                (ClientId, ClientStateView, int),
                DecodeError,
            >((id, state@, end as int)) && end <= bytes@.len(),
            Err(e) => get_session(bytes@, pos as int) == Err::<
                (ClientId, ClientStateView, int),
                DecodeError,
            >(e),
        },
{
    let (id, p1): (u64, usize) = match read_u64(bytes, pos) {
        Ok(read) => read,
        Err(e) => {
            return Err(e);
        },
    };
    let (last_sequence_number, p2): (u64, usize) = match read_u64(bytes, p1) {
        Ok(read) => read,
        Err(e) => {
            return Err(e);
        },
    };
    let (cached_result, p3): (CommandResult, usize) = match read_result(bytes, p2) {
        Ok(read) => read,
        Err(e) => {
            return Err(e);
        },
    };
    match read_u64(bytes, p3) {
        Ok((last_seen_index, p4)) => Ok(
            (id, ClientState { last_sequence_number, cached_result, last_seen_index }, p4),
        ),
        Err(e) => Err(e),
    }
}

/// Reads `n` sessions from `pos` on.
fn read_sessions(bytes: &[u8], pos: usize, n: u64) -> (r: Result<
    (IdempotencyTable, usize),
    DecodeError,
>)
    requires
        pos <= bytes@.len(),
    ensures
        match r {
            Ok((table, end)) => get_sessions(bytes@, pos as int, n as nat, Map::empty()) == Ok::<
                (TableView, int),
                DecodeError,
            >((table_view(table@), end as int)) && end <= bytes@.len(),
            Err(e) => get_sessions(bytes@, pos as int, n as nat, Map::empty()) == Err::<
                (TableView, int),
                DecodeError,
            >(e),
        },
{
    let mut table: IdempotencyTable = BTreeMap::new();
    let mut at: usize = pos;
    let mut left: u64 = n;
    assert(table_view(table@) =~= Map::empty());
    while left > 0
        invariant
            at <= bytes@.len(),
            get_sessions(bytes@, pos as int, n as nat, Map::empty()) == get_sessions(
                bytes@,
                at as int,
                left as nat,
                table_view(table@),
            ),
        decreases left,
    {
        let (id, state, end): (ClientId, ClientState, usize) = match read_session(bytes, at) {
            Ok(read) => read,
            Err(e) => {
                return Err(e);
            },
        };
        let ghost before = table_view(table@);
        let ghost added = state@;
        table.insert(id, state);
        assert(table_view(table@) =~= before.insert(id, added));
        at = end;
        left -= 1;
    }
    Ok((table, at))
}

} // verus!
