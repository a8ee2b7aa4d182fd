//! What commands answer, and which requests take effect.

use vstd::prelude::*;

use crate::kv::command::{command_fits, CasView, CommandView, ResultView};
use crate::kv::idempotency::{
    law_request_round_trip, request_bytes, request_of, ClientMeta, ClientStateView, RequestView,
};
use crate::kv::laws::apply_all;
use crate::kv::store::{lex_lt, ValueView};
use crate::kv::{ClientId, KvView};
use crate::raft::log::LogEntryView;

verus! {

// ── What a command answers ──────────────────────────────────────────────────

/// The answer to a Get: what the command returns, and nothing else.
pub open spec fn answer_to_get(kv: KvView, key: Seq<u8>) -> ResultView {
    kv.apply_command(CommandView::Get { key }).1->Ok_0
}

/// A Get answers with the value and the version that the store holds, with
/// neither where the key is absent, and changes nothing.
pub proof fn law_get_answers_with_what_is_held(kv: KvView, key: Seq<u8>)
    ensures
        ({
            let (after, answer) = kv.apply_command(CommandView::Get { key });
            &&& after == kv
            &&& kv.data.contains_key(key) ==> answer == Ok::<ResultView, Seq<char>>(
                ResultView::Get {
                    value: Some(kv.data[key].value),
                    version: Some(kv.data[key].version),
                },
            )
            &&& !kv.data.contains_key(key) ==> answer == Ok::<ResultView, Seq<char>>(
                ResultView::Get { value: None, version: None },
            )
            &&& kv.get(key) == answer->Ok_0->value
            &&& kv.version(key) == answer->Ok_0->Get_version
        }),
{
}

/// A Put succeeds unless the key has the last version. It answers with the value
/// that a Get found before it. The key's version goes up by one and starts at one,
/// and a Get afterwards finds the value under the version that the Put reported.
/// No other key changes.
pub proof fn law_put_is_found_by_get(kv: KvView, key: Seq<u8>, value: Seq<u8>)
    ensures
        ({
            let before = answer_to_get(kv, key);
            let (after, answer) = kv.apply_command(CommandView::Put { key, value });
            if before->Get_version == Some(u64::MAX) {
                after == kv && answer == Err::<ResultView, Seq<char>>("key version overflow"@)
            } else {
                &&& answer is Ok
                &&& answer->Ok_0 is Put
                &&& answer->Ok_0->Put_previous == before->value
                &&& before->Get_version is None ==> answer->Ok_0->set_version == 1
                &&& before->Get_version is Some ==> answer->Ok_0->set_version
                    == before->Get_version->0 + 1
                &&& answer_to_get(after, key) == (ResultView::Get {
                    value: Some(value),
                    version: Some(answer->Ok_0->set_version),
                })
                &&& forall|other: Seq<u8>|
                    other != key ==> #[trigger] answer_to_get(after, other) == answer_to_get(
                        kv,
                        other,
                    )
                &&& after.data == kv.data.insert(
                    key,
                    ValueView { value, version: answer->Ok_0->set_version },
                )
                &&& after.clients == kv.clients
            }
        }),
{
}

/// A Delete always succeeds and answers with the value that a Get found before it.
/// A Get afterwards finds nothing. No other key changes.
pub proof fn law_delete_leaves_nothing_to_get(kv: KvView, key: Seq<u8>)
    ensures
        ({
            let before = answer_to_get(kv, key);
            let (after, answer) = kv.apply_command(CommandView::Delete { key });
            &&& answer == Ok::<ResultView, Seq<char>>(
                ResultView::Delete { previous: before->value },
            )
            &&& answer_to_get(after, key) == (ResultView::Get { value: None, version: None })
            &&& forall|other: Seq<u8>|
                other != key ==> #[trigger] answer_to_get(after, other) == answer_to_get(kv, other)
            &&& after.data == kv.data.remove(key)
            &&& after.clients == kv.clients
        }),
{
}

/// A swap of a value is a Put where the expected version is the one that a Get
/// finds, and a swap to nothing is then a Delete: it leaves the same store and
/// reports the same previous value and version, and it fails where the Put fails.
/// Otherwise it changes nothing and reports what a Get finds.
pub proof fn law_swap_is_put_or_delete_on_the_expected_version(
    kv: KvView,
    key: Seq<u8>,
    expected_version: Option<u64>,
    value: Option<Seq<u8>>,
)
    ensures
        ({
            let before = answer_to_get(kv, key);
            let (after, answer) = kv.apply_command(
                CommandView::Cas { key, expected_version, value },
            );
            if before->Get_version != expected_version {
                &&& after == kv
                &&& answer == Ok::<ResultView, Seq<char>>(
                    ResultView::Cas {
                        outcome: CasView::Failed {
                            actual_version: before->Get_version,
                            actual_value: before->value,
                        },
                    },
                )
            } else if value is Some {
                let (put, put_answer) = kv.apply_command(CommandView::Put { key, value: value->0 });
                &&& after == put
                &&& put_answer is Err ==> answer == put_answer
                &&& put_answer is Ok ==> answer == Ok::<ResultView, Seq<char>>(
                    ResultView::Cas {
                        outcome: CasView::Applied {
                            previous: put_answer->Ok_0->Put_previous,
                            version: Some(put_answer->Ok_0->set_version),
                        },
                    },
                )
            } else {
                let (deleted, deleted_answer) = kv.apply_command(CommandView::Delete { key });
                &&& after == deleted
                &&& answer == Ok::<ResultView, Seq<char>>(
                    ResultView::Cas {
                        outcome: CasView::Applied {
                            previous: deleted_answer->Ok_0->Delete_previous,
                            version: None,
                        },
                    },
                )
            }
        }),
{
}

// ── Which requests take effect ──────────────────────────────────────────────

/// The client has no session, or none of its requests came as late as this one.
pub open spec fn was_never_seen(kv: KvView, meta: ClientMeta) -> bool {
    !kv.clients.contains_key(meta.client_id) || kv.clients[meta.client_id].last_sequence_number
        < meta.seq_num
}

/// A request that was never seen takes effect: the keys and the answer are those
/// of the command itself. Its client's session then holds the request's number
/// and the answer, as of the index. A command that fails leaves no trace.
pub proof fn law_unseen_request_takes_effect(
    kv: KvView,
    meta: ClientMeta,
    command: CommandView,
    index: u64,
)
    requires
        was_never_seen(kv, meta),
    ensures
        ({
            let (plain, plain_answer) = kv.apply_command(command);
            let (after, answer) = kv.apply_request(
                RequestView { client: Some(meta), command },
                index,
            );
            &&& after.data == plain.data
            &&& answer == plain_answer
            &&& answer is Err ==> after == kv
            &&& answer is Ok ==> after.clients.contains_key(meta.client_id)
                && after.clients[meta.client_id] == (ClientStateView {
                last_sequence_number: meta.seq_num,
                cached_result: answer->Ok_0,
                last_seen_index: index,
            })
        }),
{
    let seen = KvView { clients: kv.clients, ..kv };
    assert(seen == kv);
}

/// A request without a client takes effect every time, and touches no session that
/// is still alive.
pub proof fn law_internal_request_takes_effect(kv: KvView, command: CommandView, index: u64)
    ensures
        ({
            let (plain, plain_answer) = kv.apply_command(command);
            let (after, answer) = kv.apply_request(RequestView { client: None, command }, index);
            &&& after.data == plain.data
            &&& answer == plain_answer
        }),
{
}

/// A request that was seen takes no effect: a retry of the newest one gets the
/// answer that was kept, an older one gets none, and either keeps the session
/// alive as of the index.
pub proof fn law_seen_request_takes_no_effect(
    kv: KvView,
    meta: ClientMeta,
    command: CommandView,
    index: u64,
)
    requires
        !was_never_seen(kv, meta),
    ensures
        ({
            let session = kv.clients[meta.client_id];
            let (after, answer) = kv.apply_request(
                RequestView { client: Some(meta), command },
                index,
            );
            &&& after.data == kv.data
            &&& meta.seq_num == session.last_sequence_number ==> answer == Ok::<
                ResultView,
                Seq<char>,
            >(session.cached_result)
            &&& meta.seq_num < session.last_sequence_number ==> answer == Ok::<
                ResultView,
                Seq<char>,
            >(ResultView::Noop)
            &&& after.clients.contains_key(meta.client_id)
            &&& after.clients[meta.client_id] == (ClientStateView {
                last_seen_index: index,
                ..session
            })
        }),
{
}

/// What a request does to the sessions of other clients: nothing, but that every
/// hundred and twenty-eighth index takes away those that were last seen more than
/// a thousand and twenty-four entries ago. A request whose command fails takes
/// away none.
pub proof fn law_only_old_sessions_go(
    kv: KvView,
    request: RequestView,
    index: u64,
    other: ClientId,
)
    requires
        request.client is Some ==> request.client->0.client_id != other,
    ensures
        ({
            let (after, answer) = kv.apply_request(request, index);
            let goes = answer is Ok && index > 0 && index % 128 == 0 && index
                - kv.clients[other].last_seen_index > 1024;
            &&& after.clients.contains_key(other) <==> kv.clients.contains_key(other) && !goes
            &&& after.clients.contains_key(other) ==> after.clients[other] == kv.clients[other]
        }),
{
}

/// An entry that carries a request does what the request does, at the entry's
/// index.
pub proof fn law_entry_does_what_its_request_does(
    kv: KvView,
    entry: LogEntryView,
    request: RequestView,
)
    requires
        command_fits(request.command),
        entry.command == request_bytes(request),
    ensures
        kv.apply(entry) == kv.apply_request(request, entry.index),
{
    law_request_round_trip(request, Seq::empty());
    assert(request_bytes(request) + Seq::<u8>::empty() =~= request_bytes(request));
    if let None = request.client {
        assert(request_bytes(request)[0] == 0u8);
    } else {
        assert(request_bytes(request)[0] == 1u8);
    }
}

/// An entry with bytes that are no request fails and changes nothing.
pub proof fn law_unreadable_entry_changes_nothing(kv: KvView, entry: LogEntryView)
    requires
        entry.command.len() > 0,
        request_of(entry.command) is Err,
    ensures
        kv.apply(entry).0 == kv,
        kv.apply(entry).1 is Err,
{
}

/// An entry of a request by a client.
pub open spec fn entry_of(entry: LogEntryView, meta: ClientMeta, command: CommandView) -> bool {
    command_fits(command) && entry.command == request_bytes(
        RequestView { client: Some(meta), command },
    )
}

/// A client that numbers its requests upwards sees each take effect, in order: as
/// many as it sends, whatever gaps it leaves between the numbers, the keys end up
/// as if the commands alone had been applied.
pub proof fn law_numbered_requests_all_take_effect(
    kv: KvView,
    entries: Seq<LogEntryView>,
    metas: Seq<ClientMeta>,
    commands: Seq<CommandView>,
    client: ClientId,
)
    requires
        entries.len() == metas.len() == commands.len(),
        !kv.clients.contains_key(client),
        forall|i: int|
            0 <= i < entries.len() ==> #[trigger] metas[i].client_id == client && entry_of(
                entries[i],
                metas[i],
                commands[i],
            ),
        forall|i: int, j: int|
            0 <= i < j < metas.len() ==> (#[trigger] metas[i]).seq_num < (
            #[trigger] metas[j]).seq_num,
    ensures
        apply_all(kv, entries).data == all_commands(kv, commands).data,
{
    lemma_numbered_requests(kv, entries, metas, commands, client);
}

/// Commands applied one after another.
pub open spec fn all_commands(kv: KvView, commands: Seq<CommandView>) -> KvView
    decreases commands.len(),
{
    if commands.len() == 0 {
        kv
    } else {
        all_commands(kv, commands.drop_last()).apply_command(commands.last()).0
    }
}

/// The keys after a command depend on the keys before it alone.
proof fn lemma_data_alone(a: KvView, b: KvView, command: CommandView)
    requires
        a.data == b.data,
    ensures
        a.apply_command(command).0.data == b.apply_command(command).0.data,
        a.apply_command(command).1 == b.apply_command(command).1,
{
}

proof fn lemma_numbered_requests(
    kv: KvView,
    entries: Seq<LogEntryView>,
    metas: Seq<ClientMeta>,
    commands: Seq<CommandView>,
    client: ClientId,
)
    requires
        entries.len() == metas.len() == commands.len(),
        !kv.clients.contains_key(client),
        forall|i: int|
            0 <= i < entries.len() ==> #[trigger] metas[i].client_id == client && entry_of(
                entries[i],
                metas[i],
                commands[i],
            ),
        forall|i: int, j: int|
            0 <= i < j < metas.len() ==> (#[trigger] metas[i]).seq_num < (
            #[trigger] metas[j]).seq_num,
    ensures
        ({
            let after = apply_all(kv, entries);
            &&& after.data == all_commands(kv, commands).data
            &&& after.clients.contains_key(client) ==> entries.len() > 0
                && after.clients[client].last_sequence_number <= metas.last().seq_num
        }),
    decreases entries.len(),
{
    if entries.len() > 0 {
        let n = entries.len() - 1;
        let before = apply_all(kv, entries.drop_last());
        let fewer = metas.drop_last();
        assert forall|i: int| 0 <= i < n implies #[trigger] fewer[i].client_id == client
            && entry_of(entries.drop_last()[i], fewer[i], commands.drop_last()[i]) by {
            assert(metas[i].client_id == client);
        }
        assert forall|i: int, j: int| 0 <= i < j < fewer.len() implies (
        #[trigger] fewer[i]).seq_num < (#[trigger] fewer[j]).seq_num by {
            assert(metas[i].seq_num < metas[j].seq_num);
        }
        lemma_numbered_requests(kv, entries.drop_last(), fewer, commands.drop_last(), client);
        let meta = metas[n];
        assert(meta.client_id == client);
        if n > 0 {
            assert(fewer.last() == metas[n - 1]);
            assert(metas[n - 1].seq_num < metas[n].seq_num);
        }
        assert(was_never_seen(before, meta));
        let request = RequestView { client: Some(meta), command: commands[n] };
        law_entry_does_what_its_request_does(before, entries[n], request);
        law_unseen_request_takes_effect(before, meta, commands[n], entries[n].index);
        lemma_data_alone(before, all_commands(kv, commands.drop_last()), commands[n]);
        assert(metas.last() == meta);
    }
}

// ── The order of keys ───────────────────────────────────────────────────────

/// Up to `k` the keys are the same, and there the first ends or has the lower byte.
pub open spec fn parts_below(a: Seq<u8>, b: Seq<u8>, k: int) -> bool {
    &&& 0 <= k <= a.len()
    &&& k < b.len()
    &&& forall|i: int| 0 <= i < k ==> #[trigger] a[i] == b[i]
    &&& k == a.len() || a[k] < b[k]
}

/// Keys are ordered byte by byte: the first byte that differs decides, and of two
/// keys of which one starts with the other the shorter comes first.
pub proof fn law_keys_are_ordered_byte_by_byte(a: Seq<u8>, b: Seq<u8>)
    ensures
        lex_lt(a, b) <==> exists|k: int| parts_below(a, b, k),
    decreases a.len(),
{
    if a.len() == 0 {
        if b.len() > 0 {
            assert(parts_below(a, b, 0));
        }
    } else if b.len() > 0 {
        let ra = a.skip(1);
        let rb = b.skip(1);
        law_keys_are_ordered_byte_by_byte(ra, rb);
        if a[0] < b[0] {
            assert(parts_below(a, b, 0));
        }
        if a[0] == b[0] && lex_lt(ra, rb) {
            let k = choose|k: int| parts_below(ra, rb, k);
            assert forall|i: int| 0 <= i < k + 1 implies #[trigger] a[i] == b[i] by {
                if i > 0 {
                    assert(ra[i - 1] == rb[i - 1]);
                }
            }
            if k < ra.len() {
                assert(a[k + 1] == ra[k] && b[k + 1] == rb[k]);
            }
            assert(parts_below(a, b, k + 1));
        }
        if exists|k: int| parts_below(a, b, k) {
            let k = choose|k: int| parts_below(a, b, k);
            if k > 0 {
                assert(a[0] == b[0]);
                assert forall|i: int| 0 <= i < k - 1 implies #[trigger] ra[i] == rb[i] by {
                    assert(a[i + 1] == b[i + 1]);
                }
                assert(parts_below(ra, rb, k - 1));
            }
        }
    }
}

} // verus!
