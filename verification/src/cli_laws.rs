//! What `ferrite validate` and `ferrite init` make of their arguments.

use vstd::prelude::*;

use crate::cli::{
    addr_text_of, first_at_sign, flag_members, flags_view, id_of, is_space, trim_end, trim_start,
    trimmed, CliErrorView, FlagView, InitArgs, ValidateArgs,
};
use crate::config::{
    opt_rows, rows_of, BackendView, LogFormat, MemberView, NodeId, RaftConfig, RawPeer,
    RawRaftConfig, RawView,
};
use crate::config_files::{
    describes_a_node, holds_rows, law_configuration_holds_what_the_file_says,
    law_which_files_are_accepted, lists_id, rows_are_good,
};
use crate::config_reports::{
    law_every_issue_is_answered, law_every_problem_of_a_setting_is_reported,
};
use crate::issue::IssueView;
use crate::text::{decimal, law_decimal_parses};
use crate::validation::{source_view, validated};

verus! {

// ── Flags ───────────────────────────────────────────────────────────────────

/// Nothing but white space.
pub open spec fn all_space(s: Seq<char>) -> bool {
    forall|i: int| 0 <= i < s.len() ==> is_space(#[trigger] s[i])
}

/// A text that neither starts nor ends with white space.
pub open spec fn is_bare(s: Seq<char>) -> bool {
    s.len() > 0 && !is_space(s[0]) && !is_space(s.last())
}

proof fn lemma_trim_start(before: Seq<char>, s: Seq<char>)
    requires
        all_space(before),
        s.len() > 0,
        !is_space(s[0]),
    ensures
        trim_start(before + s) == s,
    decreases before.len(),
{
    if before.len() == 0 {
        assert(before + s =~= s);
    } else {
        assert((before + s)[0] == before[0]);
        assert((before + s).skip(1) =~= before.skip(1) + s);
        assert forall|i: int| 0 <= i < before.skip(1).len() implies is_space(
            #[trigger] before.skip(1)[i],
        ) by {
            assert(before.skip(1)[i] == before[i + 1]);
        }
        lemma_trim_start(before.skip(1), s);
    }
}

proof fn lemma_trim_end(s: Seq<char>, after: Seq<char>)
    requires
        all_space(after),
        s.len() > 0,
        !is_space(s.last()),
    ensures
        trim_end(s + after) == s,
    decreases after.len(),
{
    if after.len() == 0 {
        assert(s + after =~= s);
    } else {
        assert((s + after).last() == after[after.len() - 1]);
        assert((s + after).drop_last() =~= s + after.drop_last());
        assert forall|i: int| 0 <= i < after.drop_last().len() implies is_space(
            #[trigger] after.drop_last()[i],
        ) by {
            assert(after.drop_last()[i] == after[i]);
        }
        lemma_trim_end(s, after.drop_last());
    }
}

/// White space around a text goes, and nothing else.
pub proof fn law_trimming_removes_the_space_around(
    before: Seq<char>,
    s: Seq<char>,
    after: Seq<char>,
)
    requires
        all_space(before),
        all_space(after),
        is_bare(s),
    ensures
        trimmed(before + s + after) == s,
{
    assert(before + s + after =~= before + (s + after));
    assert((s + after)[0] == s[0]);
    lemma_trim_start(before, s + after);
    lemma_trim_end(s, after);
}

proof fn lemma_at_sign(head: Seq<char>, tail: Seq<char>)
    requires
        forall|i: int| 0 <= i < head.len() ==> #[trigger] head[i] != '@',
    ensures
        first_at_sign(head.push('@') + tail) == Some(head.len() as int),
    decreases head.len(),
{
    let s = head.push('@') + tail;
    if head.len() == 0 {
        assert(s[0] == '@');
    } else {
        assert(s[0] == head[0]);
        assert(s.skip(1) =~= head.skip(1).push('@') + tail);
        assert forall|i: int| 0 <= i < head.skip(1).len() implies #[trigger] head.skip(1)[i]
            != '@' by {
            assert(head.skip(1)[i] == head[i + 1]);
        }
        lemma_at_sign(head.skip(1), tail);
    }
}

proof fn lemma_no_at_sign(s: Seq<char>)
    requires
        forall|i: int| 0 <= i < s.len() ==> #[trigger] s[i] != '@',
    ensures
        first_at_sign(s) is None,
    decreases s.len(),
{
    if s.len() > 0 {
        assert(s[0] != '@');
        assert forall|i: int| 0 <= i < s.skip(1).len() implies #[trigger] s.skip(1)[i] != '@' by {
            assert(s.skip(1)[i] == s[i + 1]);
        }
        lemma_no_at_sign(s.skip(1));
    }
}

pub proof fn lemma_decimal_chars(n: nat)
    ensures
        forall|i: int|
            0 <= i < decimal(n).len() ==> '0' <= #[trigger] decimal(n)[i] && decimal(n)[i] <= '9',
        decimal(n).len() > 0,
    decreases n,
{
    if n >= 10 {
        lemma_decimal_chars(n / 10);
    }
}

/// A flag `<id>@<host:port>` names the id before its first `@` and the address
/// behind it, with or without white space around either. Zero names nobody.
pub proof fn law_flag_names_id_and_address(
    s1: Seq<char>,
    id: u64,
    s2: Seq<char>,
    s3: Seq<char>,
    addr: Seq<char>,
    s4: Seq<char>,
)
    requires
        all_space(s1),
        all_space(s2),
        all_space(s3),
        all_space(s4),
        is_bare(addr),
    ensures
        ({
            let flag = (s1 + decimal(id as nat) + s2).push('@') + (s3 + addr + s4);
            &&& addr_text_of(flag) == Some(addr)
            &&& id != 0 ==> id_of(flag) == Some(id)
            &&& id == 0 ==> id_of(flag) is None
        }),
{
    let head = s1 + decimal(id as nat) + s2;
    let tail = s3 + addr + s4;
    let flag = head.push('@') + tail;
    let digits = decimal(id as nat);
    lemma_decimal_chars(id as nat);
    assert forall|i: int| 0 <= i < head.len() implies #[trigger] head[i] != '@' by {
        if i < s1.len() {
            assert(head[i] == s1[i]);
        } else if i < s1.len() + digits.len() {
            assert(head[i] == digits[i - s1.len()]);
        } else {
            assert(head[i] == s2[i - s1.len() - digits.len()]);
        }
    }
    lemma_at_sign(head, tail);
    assert(flag.take(head.len() as int) =~= head);
    assert(flag.skip(head.len() as int + 1) =~= tail);
    law_trimming_removes_the_space_around(s3, addr, s4);
    assert(digits[0] >= '0');
    assert(digits[digits.len() - 1] >= '0');
    law_trimming_removes_the_space_around(s1, digits, s2);
    law_decimal_parses(id);
}

/// A text without an `@` names nobody.
pub proof fn law_flag_needs_an_at_sign(flag: Seq<char>)
    requires
        forall|i: int| 0 <= i < flag.len() ==> #[trigger] flag[i] != '@',
    ensures
        id_of(flag) is None,
        addr_text_of(flag) is None,
{
    lemma_no_at_sign(flag);
}

/// The flag names a member: its id is one, and its address is one.
pub open spec fn names_member(flag: FlagView) -> bool {
    id_of(flag.input) is Some && flag.addr is Some
}

/// Flags that all name a member give those members, each at its place; else the
/// first that names none is reported as it was written.
pub proof fn law_flags_give_their_members(flags: Seq<FlagView>)
    ensures
        (forall|i: int| 0 <= i < flags.len() ==> names_member(#[trigger] flags[i])) ==> {
            &&& flag_members(flags) is Ok
            &&& flag_members(flags)->Ok_0.len() == flags.len()
            &&& forall|i: int|
                0 <= i < flags.len() ==> (#[trigger] flag_members(flags)->Ok_0[i]) == (
                MemberView { id: id_of(flags[i].input)->0, addr: flags[i].addr->0 })
        },
        forall|i: int|
            0 <= i < flags.len() && !names_member(#[trigger] flags[i]) && (forall|j: int|
                0 <= j < i ==> names_member(#[trigger] flags[j])) ==> flag_members(flags) == Err::<
                Seq<MemberView>,
                Seq<char>,
            >(flags[i].input),
    decreases flags.len(),
{
    if flags.len() > 0 {
        let before = flags.drop_last();
        let n = flags.len() - 1;
        law_flags_give_their_members(before);
        assert forall|i: int| 0 <= i < n implies #[trigger] before[i] == flags[i] by {}
        assert(flags.last() == flags[n]);
        if forall|i: int| 0 <= i < n ==> names_member(#[trigger] flags[i]) {
            assert forall|i: int| 0 <= i < n implies names_member(#[trigger] before[i]) by {
                assert(names_member(flags[i]));
            }
            if names_member(flags[n]) {
                let members = flag_members(before)->Ok_0;
                assert(flag_members(flags)->Ok_0 == members.push(flags[n].member()->0));
                assert forall|i: int| 0 <= i < flags.len() implies (
                #[trigger] flag_members(flags)->Ok_0[i]) == (MemberView {
                    id: id_of(flags[i].input)->0,
                    addr: flags[i].addr->0,
                }) by {
                    if i < n {
                        assert(members[i].id == id_of(before[i].input)->0);
                    }
                }
            }
        }
        assert forall|i: int|
            0 <= i < flags.len() && !names_member(#[trigger] flags[i]) && (forall|j: int|
                0 <= j < i ==> names_member(#[trigger] flags[j])) implies flag_members(flags)
            == Err::<Seq<MemberView>, Seq<char>>(flags[i].input) by {
            if i < n {
                assert(!names_member(before[i]));
                assert forall|j: int| 0 <= j < i implies names_member(#[trigger] before[j]) by {
                    assert(names_member(flags[j]));
                }
            }
        }
    }
}

// ── ferrite validate ────────────────────────────────────────────────────────

/// What the file that the arguments name says of timing; nothing without a file.
pub open spec fn file_timing(args: ValidateArgs) -> RawRaftConfig {
    match args.config {
        Some(Ok(file)) => file.raft,
        _ => RawRaftConfig {
            heartbeat_interval_ms: None,
            rpc_timeout_ms: None,
            election_timeout_min_ms: None,
            election_timeout_max_ms: None,
            compaction_threshold: None,
        },
    }
}

/// The argument where it is given, else the file's value, else the default.
pub open spec fn resolved(flag: Option<u64>, file: Option<u64>, default: u64) -> u64 {
    if flag is Some {
        flag->0
    } else if file is Some {
        file->0
    } else {
        default
    }
}

/// Each timing is the command-line argument of the same name where that is given,
/// else the file's value, else the default.
pub open spec fn every_timing_resolved(args: ValidateArgs, raft: RaftConfig) -> bool {
    let file = file_timing(args);
    &&& raft.heartbeat_interval.ms == resolved(
        args.heartbeat_interval_ms,
        file.heartbeat_interval_ms,
        50,
    )
    &&& raft.rpc_timeout.ms == resolved(args.rpc_timeout_ms, file.rpc_timeout_ms, 100)
    &&& raft.election_timeout_min.ms == resolved(
        args.election_timeout_min_ms,
        file.election_timeout_min_ms,
        300,
    )
    &&& raft.election_timeout_max.ms == resolved(
        args.election_timeout_max_ms,
        file.election_timeout_max_ms,
        600,
    )
    &&& raft.compaction_threshold == resolved(None, file.compaction_threshold, 1000)
}

/// Where validating succeeds, the command line wins over the file and the file
/// over the defaults, for every timing.
pub proof fn law_validate_resolves_every_timing(args: ValidateArgs)
    requires
        args.outcome() is Ok,
    ensures
        every_timing_resolved(args, args.outcome()->Ok_0.raft),
{
    let flags = args.overrides(
        flag_members(flags_view(args.peers@))->Ok_0,
        flag_members(flags_view(args.client_endpoints@))->Ok_0,
    );
    match source_view(args.config) {
        Some(Ok(raw)) => law_configuration_holds_what_the_file_says(raw.overridden(flags)),
        _ => law_configuration_holds_what_the_file_says(RawView::empty().overridden(flags)),
    }
}

/// The map holds the members that the flags name and no others.
pub open spec fn holds_flags(map: Map<NodeId, Seq<char>>, flags: Seq<FlagView>) -> bool {
    &&& forall|i: int|
        0 <= i < flags.len() ==> id_of((#[trigger] flags[i]).input) is Some && map.contains_key(
            id_of(flags[i].input)->0,
        ) && Some(map[id_of(flags[i].input)->0]) == flags[i].addr
    &&& forall|id: NodeId| #[trigger]
        map.contains_key(id) ==> exists|i: int|
            0 <= i < flags.len() && id_of((#[trigger] flags[i]).input) == Some(id)
}

proof fn lemma_holds_flags(map: Map<NodeId, Seq<char>>, flags: Seq<FlagView>)
    requires
        flag_members(flags) is Ok,
        holds_rows(map, rows_of(flag_members(flags)->Ok_0)),
    ensures
        holds_flags(map, flags),
{
    law_flags_give_their_members(flags);
    lemma_all_named(flags);
    let members = flag_members(flags)->Ok_0;
    let rows = rows_of(members);
    assert forall|i: int| 0 <= i < flags.len() implies id_of((#[trigger] flags[i]).input) is Some
        && map.contains_key(id_of(flags[i].input)->0) && Some(map[id_of(flags[i].input)->0])
        == flags[i].addr by {
        assert(names_member(flags[i]));
        assert(rows[i].id == members[i].id);
        assert(lists_id(rows, rows[i].id));
    }
    assert forall|id: NodeId| #[trigger] map.contains_key(id) implies exists|i: int|
        0 <= i < flags.len() && id_of((#[trigger] flags[i]).input) == Some(id) by {
        assert(lists_id(rows, id));
        let i = choose|i: int| 0 <= i < rows.len() && (#[trigger] rows[i]).id == id;
        assert(members[i].id == id);
        assert(names_member(flags[i]));
        assert(id_of(flags[i].input) == Some(id));
    }
}

proof fn lemma_all_named(flags: Seq<FlagView>)
    requires
        flag_members(flags) is Ok,
    ensures
        forall|i: int| 0 <= i < flags.len() ==> names_member(#[trigger] flags[i]),
    decreases flags.len(),
{
    if flags.len() > 0 {
        let before = flags.drop_last();
        lemma_all_named(before);
        assert forall|i: int| 0 <= i < flags.len() implies names_member(#[trigger] flags[i]) by {
            if i < before.len() {
                assert(names_member(before[i]));
            }
        }
    }
}

/// Where validating succeeds, the peers are those that the `--peer` flags name,
/// and where there is no such flag those of the file; and so with the endpoints.
/// Everything else is what the file says.
pub proof fn law_validate_resolves_every_member(args: ValidateArgs)
    requires
        args.outcome() is Ok,
    ensures
        ({
            let config = args.outcome()->Ok_0;
            &&& args.config is Some && args.config->0 is Ok
            &&& Some(config.cluster.node_id) == args.config->0->Ok_0@.node_id
            &&& args.peers@.len() > 0 ==> holds_flags(
                config.cluster.peers,
                flags_view(args.peers@),
            )
            &&& args.peers@.len() == 0 ==> holds_rows(
                config.cluster.peers,
                args.config->0->Ok_0@.peers,
            )
            &&& args.client_endpoints@.len() > 0 ==> holds_flags(
                config.cluster.kv_advertise,
                flags_view(args.client_endpoints@),
            )
            &&& args.client_endpoints@.len() == 0 ==> holds_rows(
                config.cluster.kv_advertise,
                args.config->0->Ok_0@.client_endpoints,
            )
        }),
{
    let peers = flags_view(args.peers@);
    let endpoints = flags_view(args.client_endpoints@);
    let flags = args.overrides(flag_members(peers)->Ok_0, flag_members(endpoints)->Ok_0);
    law_flags_give_their_members(peers);
    law_flags_give_their_members(endpoints);
    lemma_all_named(peers);
    lemma_all_named(endpoints);
    match source_view(args.config) {
        Some(Ok(raw)) => {
            let config = args.outcome()->Ok_0;
            law_configuration_holds_what_the_file_says(raw.overridden(flags));
            if args.peers@.len() > 0 {
                lemma_holds_flags(config.cluster.peers, peers);
            }
            if args.client_endpoints@.len() > 0 {
                lemma_holds_flags(config.cluster.kv_advertise, endpoints);
            }
        },
        Some(Err(_)) => {},
        None => {
            law_which_files_are_accepted(RawView::empty().overridden(flags));
        },
    }
}

/// The map holds what the rows of a file's table say, and nothing else.
pub open spec fn holds_table(map: Map<NodeId, Seq<char>>, table: Option<Vec<RawPeer>>) -> bool {
    &&& forall|i: int|
        table is Some && 0 <= i < table->0@.len() ==> map.contains_key(
            (#[trigger] table->0@[i]).id,
        ) && table->0@[i].addr.parsed is Ok && map[table->0@[i].id]
            == table->0@[i].addr.parsed->Ok_0.text@
    &&& forall|id: NodeId| #[trigger]
        map.contains_key(id) ==> table is Some && exists|i: int|
            0 <= i < table->0@.len() && (#[trigger] table->0@[i]).id == id
}

proof fn lemma_holds_table(map: Map<NodeId, Seq<char>>, table: Option<Vec<RawPeer>>)
    requires
        holds_rows(map, opt_rows(table)),
        rows_are_good(opt_rows(table)),
    ensures
        holds_table(map, table),
{
    let rows = opt_rows(table);
    assert forall|i: int| table is Some && 0 <= i < table->0@.len() implies map.contains_key(
        (#[trigger] table->0@[i]).id,
    ) && table->0@[i].addr.parsed is Ok && map[table->0@[i].id]
        == table->0@[i].addr.parsed->Ok_0.text@ by {
        assert(rows[i] == table->0@[i]@);
        assert(lists_id(rows, rows[i].id));
    }
    assert forall|id: NodeId| #[trigger] map.contains_key(id) implies table is Some && exists|
        i: int,
    |
        0 <= i < table->0@.len() && (#[trigger] table->0@[i]).id == id by {
        assert(lists_id(rows, id));
        let i = choose|i: int| 0 <= i < rows.len() && (#[trigger] rows[i]).id == id;
        assert(rows[i] == table->0@[i]@);
        assert(table->0@[i].id == id);
    }
}

/// Where validating succeeds, everything that no flag replaces is what the tables of
/// the file say: who the node is, where it listens, its members, where it stores and
/// how it logs.
pub proof fn law_validate_takes_the_rest_from_the_file(args: ValidateArgs)
    requires
        args.outcome() is Ok,
    ensures
        ({
            let config = args.outcome()->Ok_0;
            let file = args.config->0->Ok_0;
            &&& args.config is Some && args.config->0 is Ok
            &&& file.cluster.node_id == Some(config.cluster.node_id)
            &&& file.cluster.listen_addr is Some && file.cluster.listen_addr->0.parsed is Ok
            &&& config.cluster.raft_bind == file.cluster.listen_addr->0.parsed->Ok_0.text@
            &&& file.cluster.client_addr is Some && file.cluster.client_addr->0.parsed is Ok
            &&& config.cluster.kv_bind == file.cluster.client_addr->0.parsed->Ok_0.text@
            &&& args.peers@.len() == 0 ==> holds_table(config.cluster.peers, file.cluster.peers)
            &&& args.client_endpoints@.len() == 0 ==> holds_table(
                config.cluster.kv_advertise,
                file.cluster.client_endpoints,
            )
            &&& file.storage.backend is None ==> config.backend is Memory
            &&& file.storage.backend is Some && file.storage.backend->0@ == "disk"@
                ==> config.backend == (BackendView::Disk { data_dir: file.storage.data_dir->0@ })
                && file.storage.data_dir is Some
            &&& file.logging.format is None ==> config.format == LogFormat::Pretty
            &&& file.logging.format is Some && file.logging.format->0@ == "json"@ ==> config.format
                == LogFormat::Json
        }),
{
    let peers = flags_view(args.peers@);
    let endpoints = flags_view(args.client_endpoints@);
    let flags = args.overrides(flag_members(peers)->Ok_0, flag_members(endpoints)->Ok_0);
    law_flags_give_their_members(peers);
    law_flags_give_their_members(endpoints);
    lemma_all_named(peers);
    lemma_all_named(endpoints);
    law_validate_resolves_every_member(args);
    let file = args.config->0->Ok_0;
    let merged = file@.overridden(flags);
    law_which_files_are_accepted(merged);
    law_configuration_holds_what_the_file_says(merged);
    let config = args.outcome()->Ok_0;
    reveal_strlit("disk");
    reveal_strlit("memory");
    assert("disk"@.len() == 4 && "memory"@.len() == 6);
    if args.peers@.len() == 0 {
        lemma_holds_table(config.cluster.peers, file.cluster.peers);
    }
    if args.client_endpoints@.len() == 0 {
        lemma_holds_table(config.cluster.kv_advertise, file.cluster.client_endpoints);
    }
}

/// The file with the flags in place of what they replace.
pub open spec fn is_file_with_flags(
    merged: RawView,
    args: ValidateArgs,
    file: RawView,
    peers: Seq<MemberView>,
    endpoints: Seq<MemberView>,
) -> bool {
    &&& merged.node_id == file.node_id
    &&& merged.listen_addr == file.listen_addr
    &&& merged.client_addr == file.client_addr
    &&& merged.peers == if peers.len() > 0 {
        rows_of(peers)
    } else {
        file.peers
    }
    &&& merged.client_endpoints == if endpoints.len() > 0 {
        rows_of(endpoints)
    } else {
        file.client_endpoints
    }
    &&& merged.raft.heartbeat_interval_ms == if args.heartbeat_interval_ms is Some {
        args.heartbeat_interval_ms
    } else {
        file.raft.heartbeat_interval_ms
    }
    &&& merged.raft.rpc_timeout_ms == if args.rpc_timeout_ms is Some {
        args.rpc_timeout_ms
    } else {
        file.raft.rpc_timeout_ms
    }
    &&& merged.raft.election_timeout_min_ms == if args.election_timeout_min_ms is Some {
        args.election_timeout_min_ms
    } else {
        file.raft.election_timeout_min_ms
    }
    &&& merged.raft.election_timeout_max_ms == if args.election_timeout_max_ms is Some {
        args.election_timeout_max_ms
    } else {
        file.raft.election_timeout_max_ms
    }
    &&& merged.raft.compaction_threshold == file.raft.compaction_threshold
    &&& merged.backend == file.backend
    &&& merged.data_dir == file.data_dir
    &&& merged.format == file.format
}

/// Validating succeeds exactly where every flag names a member, a file was read,
/// and the file with the flags in place of what they replace describes a node.
pub proof fn law_validate_succeeds_where_the_merged_file_describes_a_node(
    args: ValidateArgs,
    merged: RawView,
)
    requires
        args.config is Some,
        args.config->0 is Ok,
        flag_members(flags_view(args.peers@)) is Ok,
        flag_members(flags_view(args.client_endpoints@)) is Ok,
        is_file_with_flags(
            merged,
            args,
            args.config->0->Ok_0@,
            flag_members(flags_view(args.peers@))->Ok_0,
            flag_members(flags_view(args.client_endpoints@))->Ok_0,
        ),
    ensures
        args.outcome() is Ok <==> describes_a_node(merged),
{
    let flags = args.overrides(
        flag_members(flags_view(args.peers@))->Ok_0,
        flag_members(flags_view(args.client_endpoints@))->Ok_0,
    );
    let file = args.config->0->Ok_0@;
    assert(file.overridden(flags) =~= merged);
    law_which_files_are_accepted(merged);
}

/// A malformed flag is reported before anything else, `--peer` flags before
/// `--client-endpoint` flags, and a file that could not be read or parsed with
/// what was wrong with it. Without a file nothing is resolved.
pub proof fn law_validate_reports_what_is_wrong(args: ValidateArgs, i: int)
    ensures
        ({
            let peers = flags_view(args.peers@);
            let endpoints = flags_view(args.client_endpoints@);
            &&& 0 <= i < peers.len() && !names_member(peers[i]) && (forall|j: int|
                0 <= j < i ==> names_member(#[trigger] peers[j])) ==> args.outcome() == Err::<
                crate::config::ConfigView,
                CliErrorView,
            >(CliErrorView::MalformedPeerFlag { input: peers[i].input })
            &&& (forall|j: int| 0 <= j < peers.len() ==> names_member(#[trigger] peers[j])) ==> {
                &&& 0 <= i < endpoints.len() && !names_member(endpoints[i]) && (forall|j: int|
                    0 <= j < i ==> names_member(#[trigger] endpoints[j])) ==> args.outcome()
                    == Err::<crate::config::ConfigView, CliErrorView>(
                    CliErrorView::MalformedEndpointFlag { input: endpoints[i].input },
                )
                &&& (forall|j: int|
                    0 <= j < endpoints.len() ==> names_member(#[trigger] endpoints[j])) ==> {
                    &&& args.config is Some && args.config->0 is Err ==> args.outcome() == Err::<
                        crate::config::ConfigView,
                        CliErrorView,
                    >(CliErrorView::Config(args.config->0->Err_0@))
                    &&& args.config is None ==> args.outcome() is Err && args.outcome()->Err_0
                        is Config
                }
            }
        }),
{
    let peers = flags_view(args.peers@);
    let endpoints = flags_view(args.client_endpoints@);
    law_flags_give_their_members(peers);
    law_flags_give_their_members(endpoints);
    if args.config is None && flag_members(peers) is Ok && flag_members(endpoints) is Ok {
        let flags = args.overrides(flag_members(peers)->Ok_0, flag_members(endpoints)->Ok_0);
        law_which_files_are_accepted(RawView::empty().overridden(flags));
    }
}

/// Without a file, and without anything on the command line, that is what is
/// reported. With something on the command line it is the first thing that is, and
/// then comes all that is wrong with the command line alone.
pub proof fn law_missing_file_is_reported_first(args: ValidateArgs)
    requires
        args.config is None,
        flag_members(flags_view(args.peers@)) is Ok,
        flag_members(flags_view(args.client_endpoints@)) is Ok,
    ensures
        ({
            let bare = args.peers@.len() == 0 && args.client_endpoints@.len() == 0
                && args.heartbeat_interval_ms is None && args.rpc_timeout_ms is None
                && args.election_timeout_min_ms is None && args.election_timeout_max_ms is None;
            let answer = args.outcome();
            &&& answer is Err
            &&& answer->Err_0 is Config
            &&& answer->Err_0->Config_0 is Validation
            &&& bare ==> answer->Err_0->Config_0->errors == seq![IssueView::NoSource.text()]
            &&& !bare ==> answer->Err_0->Config_0->errors.len() > 1
                && answer->Err_0->Config_0->errors[0] == IssueView::NoFile.text()
                && answer->Err_0->Config_0->errors.contains(IssueView::NodeIdRequired.text())
        }),
{
    let peers = flags_view(args.peers@);
    let endpoints = flags_view(args.client_endpoints@);
    law_flags_give_their_members(peers);
    law_flags_give_their_members(endpoints);
    lemma_all_named(peers);
    lemma_all_named(endpoints);
    let flags = args.overrides(flag_members(peers)->Ok_0, flag_members(endpoints)->Ok_0);
    let merged = RawView::empty().overridden(flags);
    law_every_problem_of_a_setting_is_reported(merged, IssueView::NodeIdRequired);
    law_every_issue_is_answered(merged, IssueView::NodeIdRequired);
    let errors = validated(merged)->Err_0->errors;
    let all = seq![IssueView::NoFile.text()] + errors;
    let i = errors.index_of(IssueView::NodeIdRequired.text());
    assert(all[i + 1] == IssueView::NodeIdRequired.text());
}

// ── ferrite init ────────────────────────────────────────────────────────────

/// Arguments are good exactly where at least one node is asked for and the two
/// port ranges end below the last port and do not meet.
pub proof fn law_init_accepts_ports_that_do_not_meet(args: InitArgs)
    ensures
        args.complaint() is None <==> {
            &&& args.nodes >= 1
            &&& args.base_port + args.nodes <= 65536
            &&& args.client_port + args.nodes <= 65536
            &&& args.base_port + args.nodes <= args.client_port || args.client_port + args.nodes
                <= args.base_port
        },
{
}

/// One file is made for each node, no two under one name.
pub proof fn law_init_makes_a_file_for_each_node(args: InitArgs, i: int, j: int)
    requires
        0 <= i < j < args.nodes,
    ensures
        args.files().len() == args.nodes,
        args.files()[i].name != args.files()[j].name,
{
    reveal_strlit("node");
    reveal_strlit(".toml");
    let a = decimal((i + 1) as nat);
    let b = decimal((j + 1) as nat);
    law_decimal_parses((i + 1) as u64);
    law_decimal_parses((j + 1) as u64);
    let m = args.files()[i].name;
    let n = args.files()[j].name;
    if m == n {
        assert(a =~= m.subrange(4, m.len() - 5));
        assert(b =~= n.subrange(4, n.len() - 5));
    }
}

} // verus!
