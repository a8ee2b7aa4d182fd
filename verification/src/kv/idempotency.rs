//! Client request deduplication.
//!
//! Raft replicates each entry exactly once, but a client whose response was lost
//! retries, and that retry becomes a *new* log entry. Exactly-once application is
//! this module's job: the state machine records the newest sequence number and
//! result per client, and replays the cached result instead of applying twice.
//!
//! The check lives at the state machine rather than the leader so that a leader
//! change between the original request and the retry cannot lose it.

use std::collections::BTreeMap;

use vstd::bytes::lemma_auto_spec_u64_to_from_le_bytes;
use vstd::prelude::*;

use crate::codec::{
    get_u64, get_u8, lemma_stands_split, lemma_u64_round_trip, lemma_u8_round_trip, put_u64, put_u8,
    read_u64, read_u8, u64_bytes, DecodeError,
};
use crate::error::KvError;
use crate::kv::command::{
    command_bytes, command_decode_failed, command_fits, decode_failed, get_command,
    law_command_round_trip, put_command, read_command, Command, CommandResult, CommandView,
    ResultView,
};
use crate::kv::{ClientId, SequenceNumber};
use crate::maps::{ascending_keys, u64_lt};
use crate::seqs::{lists, strictly_sorted};

verus! {

broadcast use vstd::std_specs::btree::group_btree_axioms;

/// Identifies which client sent a request, and where it sits in that client's
/// own sequence.
#[derive(Debug, Clone, Copy, PartialEq, Eq, Structural)]
pub struct ClientMeta {
    pub client_id: ClientId,
    pub seq_num: SequenceNumber,
}

/// A command plus the client identity used to deduplicate retries.
#[derive(Debug, PartialEq, Eq)]
pub struct ClientRequest {
    /// `None` for internally generated commands, which are never deduplicated
    /// and never occupy a session slot.
    pub client: Option<ClientMeta>,
    pub command: Command,
}

/// What a [`ClientRequest`] holds.
pub struct RequestView {
    pub client: Option<ClientMeta>,
    pub command: CommandView,
}

impl View for ClientRequest {
    type V = RequestView;

    open spec fn view(&self) -> RequestView {
        RequestView { client: self.client, command: self.command@ }
    }
}

impl Clone for ClientRequest {
    fn clone(&self) -> (r: Self)
        ensures
            r@ == self@,
    {
        ClientRequest { client: self.client, command: self.command.clone() }
    }
}

/// The encoding of an optional client identity.
pub open spec fn client_bytes(client: Option<ClientMeta>) -> Seq<u8> {
    match client {
        None => seq![0u8],
        Some(meta) => seq![1u8] + (u64_bytes(meta.client_id) + u64_bytes(meta.seq_num)),
    }
}

/// The encoding of a request.
pub open spec fn request_bytes(r: RequestView) -> Seq<u8> {
    client_bytes(r.client) + command_bytes(r.command)
}

/// The optional client identity at `pos`, and the position after it.
pub open spec fn get_client(s: Seq<u8>, pos: int) -> Result<
    (Option<ClientMeta>, int),
    DecodeError,
> {
    match get_u8(s, pos) {
        Err(e) => Err(e),
        Ok((tag, p1)) => if tag == 0 {
            Ok((None, p1))
        } else if tag == 1 {
            match get_u64(s, p1) {
                Err(e) => Err(e),
                Ok((client_id, p2)) => match get_u64(s, p2) {
                    Err(e) => Err(e),
                    Ok((seq_num, p3)) => Ok((Some(ClientMeta { client_id, seq_num }), p3)),
                },
            }
        } else {
            Err(DecodeError::OptionTag { tag })
        },
    }
}

/// The request that `s` starts with.
pub open spec fn request_of(s: Seq<u8>) -> Result<RequestView, DecodeError> {
    match get_client(s, 0) {
        Err(e) => Err(e),
        Ok((client, p1)) => match get_command(s, p1) {
            Err(e) => Err(e),
            Ok((command, _)) => Ok(RequestView { client, command }),
        },
    }
}

/// A request that was encoded is decoded again, whatever follows it.
pub proof fn law_request_round_trip(r: RequestView, rest: Seq<u8>)
    requires
        command_fits(r.command),
    ensures
        request_of(request_bytes(r) + rest) == Ok::<RequestView, DecodeError>(r),
{
    let s = request_bytes(r) + rest;
    lemma_auto_spec_u64_to_from_le_bytes();
    assert(s.subrange(0, request_bytes(r).len() as int) =~= request_bytes(r));
    lemma_stands_split(s, 0, client_bytes(r.client), command_bytes(r.command));
    match r.client {
        None => {
            lemma_u8_round_trip(s, 0, 0);
        },
        Some(meta) => {
            let tail = u64_bytes(meta.client_id) + u64_bytes(meta.seq_num);
            lemma_stands_split(s, 0, seq![1u8], tail);
            lemma_u8_round_trip(s, 0, 1);
            lemma_stands_split(s, 1, u64_bytes(meta.client_id), u64_bytes(meta.seq_num));
            lemma_u64_round_trip(s, 1, meta.client_id);
            lemma_u64_round_trip(s, 9, meta.seq_num);
        },
    }
    law_command_round_trip(s, client_bytes(r.client).len() as int, r.command);
}

/// Reads the optional client identity at `pos`.
fn read_client(bytes: &[u8], pos: usize) -> (r: Result<(Option<ClientMeta>, usize), DecodeError>)
    requires
        pos <= bytes@.len(),
    ensures
        match r {
            Ok((c, end)) => get_client(bytes@, pos as int) == Ok::<
                (Option<ClientMeta>, int),
                DecodeError,
            >((c, end as int)) && end <= bytes@.len(),
            Err(e) => get_client(bytes@, pos as int) == Err::<
                (Option<ClientMeta>, int),
                DecodeError,
            >(e),
        },
{
    let (tag, p1): (u8, usize) = match read_u8(bytes, pos) {
        Ok(read) => read,
        Err(e) => {
            return Err(e);
        },
    };
    if tag == 0 {
        return Ok((None, p1));
    }
    if tag != 1 {
        return Err(DecodeError::OptionTag { tag });
    }
    let (client_id, p2): (u64, usize) = match read_u64(bytes, p1) {
        Ok(read) => read,
        Err(e) => {
            return Err(e);
        },
    };
    match read_u64(bytes, p2) {
        Ok((seq_num, p3)) => Ok((Some(ClientMeta { client_id, seq_num }), p3)),
        Err(e) => Err(e),
    }
}

impl ClientRequest {
    /// A client-issued request, subject to deduplication.
    pub fn new(client_id: ClientId, seq_num: SequenceNumber, command: Command) -> (r: Self)
        ensures
            r@ == (RequestView {
                client: Some(ClientMeta { client_id, seq_num }),
                command: command@,
            }),
    {
        Self { client: Some(ClientMeta { client_id, seq_num }), command }
    }

    /// A command with no originating client. Applied every time it is seen.
    pub fn internal(command: Command) -> (r: Self)
        ensures
            r@ == (RequestView { client: None, command: command@ }),
    {
        Self { client: None, command }
    }

    /// Serializes this request with bincode for log storage / transport.
    pub fn encode(&self) -> (r: Result<Vec<u8>, KvError>)
        ensures
            r is Ok,
            r->Ok_0@ == request_bytes(self@),
    {
        let mut out: Vec<u8> = Vec::new();
        match self.client {
            None => put_u8(&mut out, 0),
            Some(meta) => {
                put_u8(&mut out, 1);
                put_u64(&mut out, meta.client_id);
                put_u64(&mut out, meta.seq_num);
            },
        }
        put_command(&mut out, &self.command);
        assert(out@ =~= request_bytes(self@));
        Ok(out)
    }

    /// Deserializes a request previously produced by [`ClientRequest::encode`].
    pub fn decode(bytes: &[u8]) -> (r: Result<Self, KvError>)
        ensures
            match (request_of(bytes@), r) {
                (Ok(request), Ok(decoded)) => decoded@ == request,
                (Err(e), Err(error)) => error@ == command_decode_failed(e),
                _ => false,
            },
    {
        let (client, p1): (Option<ClientMeta>, usize) = match read_client(bytes, 0) {
            Ok(read) => read,
            Err(e) => {
                return Err(decode_failed("command decode failed: ", e));
            },
        };
        match read_command(bytes, p1) {
            Ok((command, _)) => Ok(ClientRequest { client, command }),
            Err(e) => Err(decode_failed("command decode failed: ", e)),
        }
    }
}

/// Sessions are evicted once this many committed entries have been applied since
/// the client was last seen.
///
/// The TTL is counted in committed log positions and never in wall-clock time.
/// Every node applies the same entries in the same order, so an index-driven
/// eviction fires at the same entry on every node and the tables stay identical.
/// A wall-clock TTL is read independently on each node, crosses its threshold at
/// a different entry on each, and diverges the dedup tables — and therefore the
/// snapshots. That is the exact failure class this project exists to catch,
/// arriving through the mechanism meant to prevent it.
pub const SESSION_TTL_ENTRIES: u64 = 1_024;

/// How often [`gc`] sweeps, in committed entries. Index-driven for the same
/// reason as the TTL: a timer-driven sweep fires at a different entry per node.
pub const GC_INTERVAL_ENTRIES: u64 = 128;

/// One client's session: the newest sequence number applied, the result that
/// produced, and the committed index at which the client was last seen.
#[derive(Debug, PartialEq, Eq)]
pub struct ClientState {
    pub last_sequence_number: SequenceNumber,
    pub cached_result: CommandResult,
    pub last_seen_index: u64,
}

/// What a [`ClientState`] holds.
pub struct ClientStateView {
    pub last_sequence_number: SequenceNumber,
    pub cached_result: ResultView,
    pub last_seen_index: u64,
}

impl View for ClientState {
    type V = ClientStateView;

    open spec fn view(&self) -> ClientStateView {
        ClientStateView {
            last_sequence_number: self.last_sequence_number,
            cached_result: self.cached_result@,
            last_seen_index: self.last_seen_index,
        }
    }
}

impl Clone for ClientState {
    fn clone(&self) -> (r: Self)
        ensures
            r@ == self@,
    {
        ClientState {
            last_sequence_number: self.last_sequence_number,
            cached_result: self.cached_result.clone(),
            last_seen_index: self.last_seen_index,
        }
    }
}

/// Client sessions, ordered because the table is serialized into the snapshot.
///
/// A `HashMap` iterates in an order that varies per process, so two nodes
/// holding identical sessions would emit different snapshot bytes.
pub type IdempotencyTable = BTreeMap<ClientId, ClientState>;

/// The sessions of a table.
pub type TableView = Map<ClientId, ClientStateView>;

/// What an [`IdempotencyTable`] holds.
pub open spec fn table_view(table: Map<ClientId, ClientState>) -> TableView {
    Map::new(|id: ClientId| table.contains_key(id), |id: ClientId| table[id]@)
}

/// What the table says about an incoming request.
#[derive(Debug, PartialEq, Eq)]
pub enum Dedup {
    /// Never applied. Apply it, then record the result.
    Fresh,
    /// An exact retry of this client's newest request. Return this result and
    /// apply nothing.
    Replay(CommandResult),
    /// Older than this client's newest request, so the client already saw that
    /// response and moved on. Only the newest result is cached, so there is
    /// nothing to return — but it must not be applied a second time.
    Stale,
}

/// What a [`Dedup`] holds.
pub enum DedupView {
    Fresh,
    Replay(ResultView),
    Stale,
}

impl View for Dedup {
    type V = DedupView;

    open spec fn view(&self) -> DedupView {
        match self {
            Dedup::Fresh => DedupView::Fresh,
            Dedup::Replay(result) => DedupView::Replay(result@),
            Dedup::Stale => DedupView::Stale,
        }
    }
}

impl Clone for Dedup {
    fn clone(&self) -> (r: Self)
        ensures
            r@ == self@,
    {
        match self {
            Dedup::Fresh => Dedup::Fresh,
            Dedup::Replay(result) => Dedup::Replay(result.clone()),
            Dedup::Stale => Dedup::Stale,
        }
    }
}

/// The table after a request was looked up at `applied_index`, and what the
/// table says about it. A retry renews the session.
pub open spec fn checked(table: TableView, meta: ClientMeta, applied_index: u64) -> (
    TableView,
    DedupView,
) {
    let id = meta.client_id;
    let renewed = table.insert(
        id,
        ClientStateView { last_seen_index: applied_index, ..table[id] },
    );
    if !table.contains_key(id) || meta.seq_num > table[id].last_sequence_number {
        (table, DedupView::Fresh)
    } else if meta.seq_num == table[id].last_sequence_number {
        (renewed, DedupView::Replay(table[id].cached_result))
    } else {
        (renewed, DedupView::Stale)
    }
}

/// The table after a request was applied for the first time.
pub open spec fn recorded(
    table: TableView,
    meta: ClientMeta,
    result: ResultView,
    applied_index: u64,
) -> TableView {
    table.insert(
        meta.client_id,
        ClientStateView {
            last_sequence_number: meta.seq_num,
            cached_result: result,
            last_seen_index: applied_index,
        },
    )
}

/// Whether a session has been untouched for too long.
pub open spec fn expired(state: ClientStateView, applied_index: u64) -> bool {
    applied_index - state.last_seen_index > SESSION_TTL_ENTRIES
}

/// Whether the sessions are swept at `applied_index`.
pub open spec fn sweeps_at(applied_index: u64) -> bool {
    applied_index != 0 && applied_index % GC_INTERVAL_ENTRIES == 0
}

/// The table after the sweep that `applied_index` may call for.
pub open spec fn swept(table: TableView, applied_index: u64) -> TableView {
    if sweeps_at(applied_index) {
        Map::new(
            |id: ClientId| table.contains_key(id) && !expired(table[id], applied_index),
            |id: ClientId| table[id],
        )
    } else {
        table
    }
}

/// Classifies a request against the sending client's session, and refreshes that
/// session's last-seen position.
///
/// A duplicate proves the client is alive and still retrying, so it renews the
/// session against [`gc`]. Without that renewal a client retrying across the TTL
/// would be evicted mid-retry and its next attempt re-applied — the exact
/// exactly-once break that eviction is supposed to avoid.
///
/// Clones the cached result on the replay path only; duplicates are rare.
pub fn check(table: &mut IdempotencyTable, meta: ClientMeta, applied_index: u64) -> (r: Dedup)
    ensures
        (table_view(final(table)@), r@) == checked(table_view(old(table)@), meta, applied_index),
{
    let ghost before = table_view(table@);
    let ghost expected = checked(before, meta, applied_index);
    match table.remove(&meta.client_id) {
        None => {
            assert(table_view(table@) =~= before);
            Dedup::Fresh
        },
        Some(state) => {
            let mut state = state;
            let verdict = if meta.seq_num == state.last_sequence_number {
                state.last_seen_index = applied_index;
                Dedup::Replay(state.cached_result.clone())
            } else if meta.seq_num < state.last_sequence_number {
                state.last_seen_index = applied_index;
                Dedup::Stale
            } else {
                Dedup::Fresh
            };
            table.insert(meta.client_id, state);
            assert(table_view(table@) =~= expected.0);
            verdict
        },
    }
}

/// Records the result of a freshly applied request.
pub fn record(
    table: &mut IdempotencyTable,
    meta: ClientMeta,
    result: CommandResult,
    applied_index: u64,
)
    ensures
        table_view(final(table)@) == recorded(
            table_view(old(table)@),
            meta,
            result@,
            applied_index,
        ),
{
    let ghost before = table_view(table@);
    table.insert(
        meta.client_id,
        ClientState {
            last_sequence_number: meta.seq_num,
            cached_result: result,
            last_seen_index: applied_index,
        },
    );
    assert(table_view(table@) =~= recorded(before, meta, result@, applied_index));
}

/// Evicts sessions untouched for [`SESSION_TTL_ENTRIES`] committed entries.
///
/// Sweeps only on a [`GC_INTERVAL_ENTRIES`] boundary so the cost is amortized
/// rather than paid on every apply. Both the trigger and the threshold are
/// functions of the committed index, so every node evicts the same sessions at
/// the same entry and the tables stay byte-identical across the sweep.
///
/// A `last_seen_index` ahead of `applied_index` means a broken invariant
/// upstream — Raft snapshots only advance — and counts as an age of 0, which
/// retains the session. Eviction is the destructive direction, so an unreadable
/// age fails toward keeping.
pub fn gc(table: &mut IdempotencyTable, applied_index: u64)
    ensures
        table_view(final(table)@) == swept(table_view(old(table)@), applied_index),
{
    let ghost before = table@;
    if applied_index == 0 || applied_index % GC_INTERVAL_ENTRIES != 0 {
        return;
    }
    let ids = ascending_keys(table);
    let mut i: usize = 0;
    while i < ids.len()
        invariant
            i <= ids@.len(),
            lists(ids@, before.dom()),
            strictly_sorted(ids@, u64_lt()),
            forall|id: ClientId| #[trigger]
                table@.contains_key(id) ==> before.contains_key(id) && table@[id] == before[id],
            forall|id: ClientId| #[trigger]
                before.contains_key(id) ==> (table@.contains_key(id) == !(ids@.take(
                    i as int,
                ).contains(id) && expired(before[id]@, applied_index))),
        decreases ids@.len() - i,
    {
        let id: ClientId = ids[i];
        proof {
            assert(ids@.contains(id));
            assert(before.dom().contains(id));
            if ids@.take(i as int).contains(id) {
                let j = ids@.take(i as int).index_of(id);
                assert(u64_lt()(ids@[j], ids@[i as int]));
            }
        }
        let stale: bool = match table.get(&id) {
            Some(state) => applied_index.saturating_sub(state.last_seen_index)
                > SESSION_TTL_ENTRIES,
            None => false,
        };
        if stale {
            table.remove(&id);
        }
        proof {
            let seen = ids@.take(i as int);
            let more = ids@.take(i + 1);
            assert(more =~= seen.push(id));
            assert forall|k: ClientId| more.contains(k) == (seen.contains(k) || k == id) by {
                if seen.contains(k) {
                    assert(more[seen.index_of(k)] == k);
                }
                assert(more[i as int] == id);
            }
        }
        i += 1;
    }
    proof {
        assert(ids@.take(i as int) =~= ids@);
        assert forall|id: ClientId| before.contains_key(id) implies ids@.contains(id) by {
            assert(before.dom().contains(id));
        }
        assert(table_view(table@) =~= swept(table_view(before), applied_index));
    }
}

} // verus!
