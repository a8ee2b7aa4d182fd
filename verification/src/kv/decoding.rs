//! Which bytes are read as a request or a result: those that writing it gives, and
//! no others.

use vstd::bytes::{lemma_auto_spec_u32_to_from_le_bytes, lemma_auto_spec_u64_to_from_le_bytes};
use vstd::prelude::*;

use crate::codec::{
    get_opt_string, get_opt_u64, get_string, get_u32, get_u64, get_u8, opt_string_bytes,
    opt_u64_bytes, stands_at, string_bytes, u32_bytes, u64_bytes,
};
use crate::kv::command::{
    cas_bytes, command_bytes, command_fits, get_cas, get_command, get_result, result_bytes,
    result_fits, ResultView,
};
use crate::kv::idempotency::{
    client_bytes, get_client, law_request_round_trip, request_bytes, request_of, RequestView,
};
use crate::kv::store::{key_lt, lemma_key_lt_asymmetric, lex_lt};
use crate::kv::{all_session_bytes, all_slot_bytes, kv_bytes, ClientId, KvView};
use crate::maps::u64_lt;
use crate::seqs::{lemma_is_sorted_list, strictly_sorted};

verus! {

proof fn lemma_join(s: Seq<u8>, pos: int, a: Seq<u8>, b: Seq<u8>)
    requires
        stands_at(s, pos, a),
        stands_at(s, pos + a.len(), b),
    ensures
        stands_at(s, pos, a + b),
{
    assert(s.subrange(pos, pos + (a + b).len()) =~= s.subrange(pos, pos + a.len()) + s.subrange(
        pos + a.len(),
        pos + a.len() + b.len(),
    ));
}

proof fn lemma_u8_stands(s: Seq<u8>, pos: int)
    requires
        0 <= pos,
        get_u8(s, pos) is Ok,
    ensures
        stands_at(s, pos, seq![get_u8(s, pos)->Ok_0.0]),
        get_u8(s, pos)->Ok_0.1 == pos + 1,
{
    assert(s.subrange(pos, pos + 1) =~= seq![s[pos]]);
}

proof fn lemma_u32_stands(s: Seq<u8>, pos: int)
    requires
        0 <= pos,
        get_u32(s, pos) is Ok,
    ensures
        stands_at(s, pos, u32_bytes(get_u32(s, pos)->Ok_0.0)),
        u32_bytes(get_u32(s, pos)->Ok_0.0).len() == 4,
        get_u32(s, pos)->Ok_0.1 == pos + 4,
{
    lemma_auto_spec_u32_to_from_le_bytes();
    assert(s.subrange(pos, pos + 4).len() == 4);
}

proof fn lemma_u64_stands(s: Seq<u8>, pos: int)
    requires
        0 <= pos,
        get_u64(s, pos) is Ok,
    ensures
        stands_at(s, pos, u64_bytes(get_u64(s, pos)->Ok_0.0)),
        u64_bytes(get_u64(s, pos)->Ok_0.0).len() == 8,
        get_u64(s, pos)->Ok_0.1 == pos + 8,
{
    lemma_auto_spec_u64_to_from_le_bytes();
    assert(s.subrange(pos, pos + 8).len() == 8);
}

proof fn lemma_string_stands(s: Seq<u8>, pos: int)
    requires
        0 <= pos,
        get_string(s, pos) is Ok,
    ensures
        ({
            let (v, end) = get_string(s, pos)->Ok_0;
            &&& stands_at(s, pos, string_bytes(v))
            &&& end == pos + string_bytes(v).len()
            &&& v.len() <= u64::MAX
        }),
{
    lemma_u64_stands(s, pos);
    let (n, at) = get_u64(s, pos)->Ok_0;
    let v = s.subrange(at, at + n);
    assert(v.len() == n);
    lemma_join(s, pos, u64_bytes(n), v);
}

proof fn lemma_opt_u64_stands(s: Seq<u8>, pos: int)
    requires
        0 <= pos,
        get_opt_u64(s, pos) is Ok,
    ensures
        ({
            let (v, end) = get_opt_u64(s, pos)->Ok_0;
            &&& stands_at(s, pos, opt_u64_bytes(v))
            &&& end == pos + opt_u64_bytes(v).len()
        }),
{
    lemma_u8_stands(s, pos);
    let (tag, at) = get_u8(s, pos)->Ok_0;
    if tag == 1 {
        lemma_u64_stands(s, at);
        lemma_join(s, pos, seq![1u8], u64_bytes(get_u64(s, at)->Ok_0.0));
    }
}

proof fn lemma_opt_string_stands(s: Seq<u8>, pos: int)
    requires
        0 <= pos,
        get_opt_string(s, pos) is Ok,
    ensures
        ({
            let (v, end) = get_opt_string(s, pos)->Ok_0;
            &&& stands_at(s, pos, opt_string_bytes(v))
            &&& end == pos + opt_string_bytes(v).len()
            &&& v is Some ==> v->0.len() <= u64::MAX
        }),
{
    lemma_u8_stands(s, pos);
    let (tag, at) = get_u8(s, pos)->Ok_0;
    if tag == 1 {
        lemma_string_stands(s, at);
        lemma_join(s, pos, seq![1u8], string_bytes(get_string(s, at)->Ok_0.0));
    }
}

/// Bytes that are read as a command are those that writing it gives.
pub proof fn law_command_is_read_from_its_own_bytes(s: Seq<u8>, pos: int)
    requires
        0 <= pos,
        get_command(s, pos) is Ok,
    ensures
        ({
            let (c, end) = get_command(s, pos)->Ok_0;
            &&& stands_at(s, pos, command_bytes(c))
            &&& end == pos + command_bytes(c).len()
            &&& command_fits(c)
        }),
{
    lemma_u32_stands(s, pos);
    let (tag, p1) = get_u32(s, pos)->Ok_0;
    lemma_string_stands(s, p1);
    let (key, p2) = get_string(s, p1)->Ok_0;
    if tag == 0 || tag == 2 {
        lemma_join(s, pos, u32_bytes(tag), string_bytes(key));
    } else if tag == 1 {
        lemma_string_stands(s, p2);
        let value = get_string(s, p2)->Ok_0.0;
        lemma_join(s, p1, string_bytes(key), string_bytes(value));
        lemma_join(s, pos, u32_bytes(tag), string_bytes(key) + string_bytes(value));
    } else {
        lemma_opt_u64_stands(s, p2);
        let (expected, p3) = get_opt_u64(s, p2)->Ok_0;
        lemma_opt_string_stands(s, p3);
        let value = get_opt_string(s, p3)->Ok_0.0;
        let tail = opt_u64_bytes(expected) + opt_string_bytes(value);
        lemma_join(s, p2, opt_u64_bytes(expected), opt_string_bytes(value));
        lemma_join(s, p1, string_bytes(key), tail);
        lemma_join(s, pos, u32_bytes(tag), string_bytes(key) + tail);
    }
}

/// Bytes that are read as a request start with those that writing it gives.
pub proof fn law_request_is_read_from_its_own_bytes(s: Seq<u8>)
    requires
        request_of(s) is Ok,
    ensures
        command_fits(request_of(s)->Ok_0.command),
        stands_at(s, 0, request_bytes(request_of(s)->Ok_0)),
{
    lemma_u8_stands(s, 0);
    let (tag, q1) = get_u8(s, 0)->Ok_0;
    let (client, p1) = get_client(s, 0)->Ok_0;
    if tag == 1 {
        lemma_u64_stands(s, 1);
        let id = get_u64(s, 1)->Ok_0.0;
        lemma_u64_stands(s, 9);
        let number = get_u64(s, 9)->Ok_0.0;
        lemma_join(s, 1, u64_bytes(id), u64_bytes(number));
        lemma_join(s, 0, seq![1u8], u64_bytes(id) + u64_bytes(number));
    }
    assert(stands_at(s, 0, client_bytes(client)));
    assert(p1 == client_bytes(client).len());
    law_command_is_read_from_its_own_bytes(s, p1);
    lemma_join(s, 0, client_bytes(client), command_bytes(get_command(s, p1)->Ok_0.0));
}

/// A request that was cut short is not read as one.
pub proof fn law_cut_request_is_rejected(r: RequestView, n: int)
    requires
        command_fits(r.command),
        0 <= n < request_bytes(r).len(),
    ensures
        request_of(request_bytes(r).take(n)) is Err,
{
    let whole = request_bytes(r);
    let s = whole.take(n);
    if request_of(s) is Ok {
        let other = request_of(s)->Ok_0;
        law_request_is_read_from_its_own_bytes(s);
        let k = request_bytes(other).len() as int;
        let rest = whole.skip(k);
        assert(s.subrange(0, k) =~= request_bytes(other));
        assert(request_bytes(other) + rest =~= whole);
        law_request_round_trip(other, rest);
        law_request_round_trip(r, Seq::empty());
        assert(whole + Seq::<u8>::empty() =~= whole);
    }
}

/// Two requests that differ are written differently, and neither starts with the
/// other.
pub proof fn law_requests_are_told_apart(a: RequestView, b: RequestView, rest: Seq<u8>)
    requires
        command_fits(a.command),
        command_fits(b.command),
        request_bytes(a) + rest == request_bytes(b),
    ensures
        a == b,
{
    law_request_round_trip(a, rest);
    law_request_round_trip(b, Seq::empty());
    assert(request_bytes(b) + Seq::<u8>::empty() =~= request_bytes(b));
}

/// Bytes that are read as a result are those that writing it gives.
pub proof fn law_result_is_read_from_its_own_bytes(s: Seq<u8>, pos: int)
    requires
        0 <= pos,
        get_result(s, pos) is Ok,
    ensures
        ({
            let (r, end) = get_result(s, pos)->Ok_0;
            &&& stands_at(s, pos, result_bytes(r))
            &&& end == pos + result_bytes(r).len()
            &&& result_fits(r)
        }),
{
    lemma_u32_stands(s, pos);
    let (tag, p1) = get_u32(s, pos)->Ok_0;
    if tag == 1 || tag == 2 || tag == 3 {
        lemma_opt_string_stands(s, p1);
        let (value, p2) = get_opt_string(s, p1)->Ok_0;
        let head = opt_string_bytes(value);
        if tag == 1 {
            lemma_opt_u64_stands(s, p2);
            let tail = opt_u64_bytes(get_opt_u64(s, p2)->Ok_0.0);
            lemma_join(s, p1, head, tail);
            lemma_join(s, pos, u32_bytes(tag), head + tail);
        } else if tag == 2 {
            lemma_u64_stands(s, p2);
            let tail = u64_bytes(get_u64(s, p2)->Ok_0.0);
            lemma_join(s, p1, head, tail);
            lemma_join(s, pos, u32_bytes(tag), head + tail);
        } else {
            lemma_join(s, pos, u32_bytes(tag), head);
        }
    } else if tag == 4 {
        lemma_cas_stands(s, p1);
        lemma_join(s, pos, u32_bytes(tag), cas_bytes(get_cas(s, p1)->Ok_0.0));
    }
}

proof fn lemma_cas_stands(s: Seq<u8>, pos: int)
    requires
        0 <= pos,
        get_cas(s, pos) is Ok,
    ensures
        ({
            let (c, end) = get_cas(s, pos)->Ok_0;
            &&& stands_at(s, pos, cas_bytes(c))
            &&& end == pos + cas_bytes(c).len()
            &&& result_fits(ResultView::Cas { outcome: c })
        }),
{
    lemma_u32_stands(s, pos);
    let (tag, p1) = get_u32(s, pos)->Ok_0;
    if tag == 0 {
        lemma_opt_string_stands(s, p1);
        let (value, p2) = get_opt_string(s, p1)->Ok_0;
        lemma_opt_u64_stands(s, p2);
        let head = opt_string_bytes(value);
        let tail = opt_u64_bytes(get_opt_u64(s, p2)->Ok_0.0);
        lemma_join(s, p1, head, tail);
        lemma_join(s, pos, u32_bytes(tag), head + tail);
    } else {
        lemma_opt_u64_stands(s, p1);
        let (version, p2) = get_opt_u64(s, p1)->Ok_0;
        lemma_opt_string_stands(s, p2);
        let head = opt_u64_bytes(version);
        let tail = opt_string_bytes(get_opt_string(s, p2)->Ok_0.0);
        lemma_join(s, p1, head, tail);
        lemma_join(s, pos, u32_bytes(tag), head + tail);
    }
}

// ── Snapshots ───────────────────────────────────────────────────────────────

/// The keys with their values and versions, one after another.
pub open spec fn keys_laid_out(keys: Seq<Seq<u8>>, kv: KvView) -> Seq<u8>
    decreases keys.len(),
{
    if keys.len() == 0 {
        Seq::empty()
    } else {
        let key = keys.last();
        keys_laid_out(keys.drop_last(), kv) + string_bytes(key) + string_bytes(kv.data[key].value)
            + u64_bytes(kv.data[key].version)
    }
}

/// The clients with their sessions, one after another.
pub open spec fn clients_laid_out(ids: Seq<ClientId>, kv: KvView) -> Seq<u8>
    decreases ids.len(),
{
    if ids.len() == 0 {
        Seq::empty()
    } else {
        let id = ids.last();
        let session = kv.clients[id];
        clients_laid_out(ids.drop_last(), kv) + u64_bytes(id) + u64_bytes(
            session.last_sequence_number,
        ) + result_bytes(session.cached_result) + u64_bytes(session.last_seen_index)
    }
}

proof fn lemma_keys_laid_out(keys: Seq<Seq<u8>>, kv: KvView)
    ensures
        all_slot_bytes(keys, kv.data) == keys_laid_out(keys, kv),
    decreases keys.len(),
{
    if keys.len() > 0 {
        lemma_keys_laid_out(keys.drop_last(), kv);
        assert(all_slot_bytes(keys, kv.data) =~= keys_laid_out(keys, kv));
    }
}

proof fn lemma_clients_laid_out(ids: Seq<ClientId>, kv: KvView)
    ensures
        all_session_bytes(ids, kv.clients) == clients_laid_out(ids, kv),
    decreases ids.len(),
{
    if ids.len() > 0 {
        lemma_clients_laid_out(ids.drop_last(), kv);
        assert(all_session_bytes(ids, kv.clients) =~= clients_laid_out(ids, kv));
    }
}

/// A snapshot lies as the number of keys, the keys in ascending order, the number of
/// clients and the clients in ascending order: the same store has the same bytes on
/// every node, however it came about.
pub proof fn law_snapshot_lies_in_ascending_order(
    kv: KvView,
    keys: Seq<Seq<u8>>,
    ids: Seq<ClientId>,
)
    requires
        forall|key: Seq<u8>| kv.data.contains_key(key) == #[trigger] keys.contains(key),
        forall|i: int, j: int|
            0 <= i < j < keys.len() ==> lex_lt(#[trigger] keys[i], #[trigger] keys[j]),
        forall|id: ClientId| kv.clients.contains_key(id) == #[trigger] ids.contains(id),
        forall|i: int, j: int| 0 <= i < j < ids.len() ==> #[trigger] ids[i] < #[trigger] ids[j],
    ensures
        kv_bytes(kv) == u64_bytes(keys.len() as u64) + keys_laid_out(keys, kv) + u64_bytes(
            ids.len() as u64,
        ) + clients_laid_out(ids, kv),
{
    lemma_key_lt_asymmetric();
    assert forall|key: Seq<u8>| kv.data.dom().contains(key) == #[trigger] keys.contains(key) by {
        assert(kv.data.contains_key(key) == keys.contains(key));
    }
    assert(strictly_sorted(keys, key_lt())) by {
        assert forall|i: int, j: int| 0 <= i < j < keys.len() implies key_lt()(
            #[trigger] keys[i],
            #[trigger] keys[j],
        ) by {
            assert(lex_lt(keys[i], keys[j]));
        }
    }
    lemma_is_sorted_list(keys, kv.data.dom(), key_lt());
    assert forall|id: ClientId| kv.clients.dom().contains(id) == #[trigger] ids.contains(id) by {
        assert(kv.clients.contains_key(id) == ids.contains(id));
    }
    assert(strictly_sorted(ids, u64_lt())) by {
        assert forall|i: int, j: int| 0 <= i < j < ids.len() implies u64_lt()(
            #[trigger] ids[i],
            #[trigger] ids[j],
        ) by {
            assert(ids[i] < ids[j]);
        }
    }
    lemma_is_sorted_list(ids, kv.clients.dom(), u64_lt());
    lemma_keys_laid_out(keys, kv);
    lemma_clients_laid_out(ids, kv);
    assert(kv_bytes(kv) =~= u64_bytes(keys.len() as u64) + keys_laid_out(keys, kv) + u64_bytes(
        ids.len() as u64,
    ) + clients_laid_out(ids, kv));
}

} // verus!
