//! What is reported of a configuration file that is not accepted.

use vstd::prelude::*;

use crate::config::{NodeId, RawAddrView, RawRaftConfig, RawView};
use crate::config_files::{
    given_or, lemma_good_rows, lemma_holds_rows, lemma_listed, lists_id, lists_member,
    rows_are_good,
};
use crate::config_laws::lemma_keys;
use crate::issue::{AddrField, IssueView, MemberList, TimingField};
use crate::maps::keys_in_order;
use crate::validation::{
    accepted, addr_of, backend_of, collisions, endpoints_of, format_of, is_endpoint, issues_of,
    limit_issues, matching_issues, missing_endpoints, node_id_issues, node_id_of, order_issues,
    own_peer_issues, peer_list_issues, peers_of, reports, surplus_endpoints, timing_issues,
    timing_of, validated, where_so, zero_issues,
};

verus! {

/// What a file gives for a number of the timing, or else the default.
pub open spec fn number_of(raw: RawRaftConfig, field: TimingField) -> u64 {
    match field {
        TimingField::HeartbeatInterval => given_or(raw.heartbeat_interval_ms, 50),
        TimingField::RpcTimeout => given_or(raw.rpc_timeout_ms, 100),
        TimingField::ElectionTimeoutMin => given_or(raw.election_timeout_min_ms, 300),
        TimingField::ElectionTimeoutMax => given_or(raw.election_timeout_max_ms, 600),
        TimingField::CompactionThreshold => given_or(raw.compaction_threshold, 1000),
    }
}

/// The first of two times must be below the second.
pub open spec fn must_be_below(low: TimingField, high: TimingField) -> bool {
    ||| low == TimingField::HeartbeatInterval && high == TimingField::RpcTimeout
    ||| low == TimingField::RpcTimeout && high == TimingField::ElectionTimeoutMin
    ||| low == TimingField::ElectionTimeoutMin && high == TimingField::ElectionTimeoutMax
}

/// What a file gives for an address of the node.
pub open spec fn address_of(raw: RawView, addr_field: AddrField) -> Option<RawAddrView> {
    match addr_field {
        AddrField::ListenAddr => raw.listen_addr,
        AddrField::ClientAddr => raw.client_addr,
    }
}

/// The node's own address, where it is given and is one.
pub open spec fn is_bound_to(raw: RawView, addr_field: AddrField, addr: Seq<char>) -> bool {
    let given = address_of(raw, addr_field);
    given is Some && given->0.text.len() > 0 && given->0.parsed == Ok::<Seq<char>, Seq<char>>(addr)
}

/// The file has this problem with one of its settings.
pub open spec fn has_problem(raw: RawView, issue: IssueView) -> bool {
    match issue {
        IssueView::Zero { field } => number_of(raw.raft, field) == 0,
        IssueView::AboveMaximum { field, ms } => field != TimingField::CompactionThreshold && ms
            == number_of(raw.raft, field) && ms > 600_000,
        IssueView::NotBelow { low, low_ms, high, high_ms } => must_be_below(low, high) && low_ms
            == number_of(raw.raft, low) && high_ms == number_of(raw.raft, high) && 0 < high_ms
            <= low_ms,
        IssueView::NodeIdRequired => raw.node_id is None,
        IssueView::NodeIdZero => raw.node_id == Some(0u64),
        IssueView::AddrRequired { addr_field } => address_of(raw, addr_field) is None
            || address_of(raw, addr_field)->0.text.len() == 0,
        IssueView::AddrInvalid { addr_field, input, reason } => {
            let given = address_of(raw, addr_field);
            given is Some && input.len() > 0 && given->0.text == input && given->0.parsed == Err::<
                Seq<char>,
                Seq<char>,
            >(reason)
        },
        IssueView::PeersEmpty => raw.peers.len() == 0,
        IssueView::DataDirRequired => raw.backend is Some && raw.backend->0 == "disk"@
            && raw.data_dir is None,
        IssueView::RocksDb => raw.backend is Some && raw.backend->0 == "rocksdb"@,
        IssueView::UnknownBackend { input } => raw.backend == Some(input) && input != "memory"@
            && input != "disk"@ && input != "rocksdb"@,
        IssueView::UnknownFormat { input } => raw.format == Some(input) && input != "pretty"@
            && input != "json"@,
        _ => false,
    }
}

/// The issue is one of those of a single setting.
pub open spec fn is_of_one_setting(issue: IssueView) -> bool {
    match issue {
        IssueView::Zero { .. } => true,
        IssueView::AboveMaximum { .. } => true,
        IssueView::NotBelow { .. } => true,
        IssueView::NodeIdRequired => true,
        IssueView::NodeIdZero => true,
        IssueView::AddrRequired { .. } => true,
        IssueView::AddrInvalid { .. } => true,
        IssueView::PeersEmpty => true,
        IssueView::DataDirRequired => true,
        IssueView::RocksDb => true,
        IssueView::UnknownBackend { .. } => true,
        IssueView::UnknownFormat { .. } => true,
        _ => false,
    }
}

proof fn lemma_add(a: Seq<IssueView>, b: Seq<IssueView>, x: IssueView)
    ensures
        (a + b).contains(x) <==> a.contains(x) || b.contains(x),
{
    if a.contains(x) {
        assert((a + b)[a.index_of(x)] == x);
    }
    if b.contains(x) {
        assert((a + b)[a.len() + b.index_of(x)] == x);
    }
    if (a + b).contains(x) {
        let i = (a + b).index_of(x);
        if i < a.len() {
            assert(a[i] == x);
        } else {
            assert(b[i - a.len()] == x);
        }
    }
}

proof fn lemma_adds()
    ensures
        forall|a: Seq<IssueView>, b: Seq<IssueView>, x: IssueView| #[trigger]
            (a + b).contains(x) <==> a.contains(x) || b.contains(x),
        forall|applies: bool, y: IssueView, x: IssueView| #[trigger]
            where_so(applies, y).contains(x) <==> applies && x == y,
{
    assert forall|a: Seq<IssueView>, b: Seq<IssueView>, x: IssueView| #[trigger]
        (a + b).contains(x) <==> a.contains(x) || b.contains(x) by {
        lemma_add(a, b, x);
    }
    assert forall|applies: bool, y: IssueView, x: IssueView| #[trigger]
        where_so(applies, y).contains(x) <==> applies && x == y by {
        if applies {
            assert(where_so(applies, y)[0] == y);
        }
    }
}

proof fn lemma_one(y: IssueView, x: IssueView)
    ensures
        seq![y].contains(x) <==> x == y,
{
    assert(seq![y][0] == y);
}

proof fn lemma_timing_issues(raw: RawRaftConfig, issue: IssueView)
    ensures
        timing_issues(timing_of(raw)).contains(issue) <==> match issue {
            IssueView::Zero { field } => number_of(raw, field) == 0,
            IssueView::AboveMaximum { field, ms } => field != TimingField::CompactionThreshold
                && ms == number_of(raw, field) && ms > 600_000,
            IssueView::NotBelow { low, low_ms, high, high_ms } => must_be_below(low, high)
                && low_ms == number_of(raw, low) && high_ms == number_of(raw, high) && 0 < high_ms
                <= low_ms,
            _ => false,
        },
{
    lemma_adds();
    let t = timing_of(raw);
    assert(zero_issues(t).contains(issue) <==> issue is Zero && number_of(
        raw,
        issue->Zero_field,
    ) == 0);
    assert(limit_issues(t).contains(issue) <==> issue is AboveMaximum && issue->AboveMaximum_field
        != TimingField::CompactionThreshold && issue->ms == number_of(
        raw,
        issue->AboveMaximum_field,
    ) && issue->ms > 600_000);
    assert(order_issues(t).contains(issue) <==> issue is NotBelow && must_be_below(
        issue->low,
        issue->high,
    ) && issue->low_ms == number_of(raw, issue->low) && issue->high_ms == number_of(
        raw,
        issue->high,
    ) && 0 < issue->high_ms <= issue->low_ms);
}

/// Issues of member lists.
spec fn is_of_a_list(issue: IssueView) -> bool {
    match issue {
        IssueView::ReservedId { .. } => true,
        IssueView::DuplicateId { .. } => true,
        IssueView::MemberAddrInvalid { .. } => true,
        IssueView::DuplicateAddr { .. } => true,
        _ => false,
    }
}

proof fn lemma_accepted_issues(list: MemberList, rows: Seq<crate::config::RowView>, x: IssueView)
    ensures
        accepted(list, rows).1.contains(x) ==> is_of_a_list(x),
    decreases rows.len(),
{
    if rows.len() > 0 {
        lemma_accepted_issues(list, rows.drop_last(), x);
        let before = accepted(list, rows.drop_last()).1;
        let all = accepted(list, rows).1;
        if all.contains(x) {
            let i = all.index_of(x);
            if i < before.len() {
                assert(before[i] == x);
            }
        }
    }
}

proof fn lemma_missing_issues(ids: Seq<NodeId>, endpoints: Map<NodeId, Seq<char>>, x: IssueView)
    ensures
        missing_endpoints(ids, endpoints).contains(x) <==> x is MissingEndpoint && ids.contains(
            x->MissingEndpoint_id,
        ) && !endpoints.contains_key(x->MissingEndpoint_id),
        surplus_endpoints(ids, endpoints).contains(x) <==> x is EndpointWithoutPeer
            && ids.contains(x->EndpointWithoutPeer_id) && !endpoints.contains_key(
            x->EndpointWithoutPeer_id,
        ),
    decreases ids.len(),
{
    if ids.len() > 0 {
        lemma_missing_issues(ids.drop_last(), endpoints, x);
        lemma_adds();
        lemma_last(ids, x->MissingEndpoint_id);
        lemma_last(ids, x->EndpointWithoutPeer_id);
    }
}

proof fn lemma_last(ids: Seq<NodeId>, id: NodeId)
    requires
        ids.len() > 0,
    ensures
        ids.contains(id) <==> ids.drop_last().contains(id) || ids.last() == id,
{
    let before = ids.drop_last();
    if before.contains(id) {
        assert(ids[before.index_of(id)] == id);
    }
    assert(ids[ids.len() - 1] == ids.last());
    if ids.contains(id) && ids.last() != id {
        let i = ids.index_of(id);
        assert(before[i] == id);
    }
}

proof fn lemma_collision_issues(
    ids: Seq<NodeId>,
    peers: Map<NodeId, Seq<char>>,
    endpoints: Map<NodeId, Seq<char>>,
    x: IssueView,
)
    ensures
        collisions(ids, peers, endpoints).contains(x) <==> x is Collision && ids.contains(
            x->Collision_id,
        ) && peers[x->Collision_id] == x->Collision_addr && is_endpoint(
            x->Collision_addr,
            endpoints,
        ),
    decreases ids.len(),
{
    if ids.len() > 0 {
        lemma_collision_issues(ids.drop_last(), peers, endpoints, x);
        lemma_adds();
        lemma_last(ids, x->Collision_id);
    }
}

/// The issues of a file, setting by setting.
proof fn lemma_issue_in(raw: RawView, x: IssueView)
    ensures
        issues_of(raw).contains(x) <==> {
            let node_id = node_id_of(raw.node_id);
            let listen = addr_of(raw.listen_addr, AddrField::ListenAddr);
            let client = addr_of(raw.client_addr, AddrField::ClientAddr);
            ||| timing_issues(timing_of(raw.raft)).contains(x)
            ||| node_id_issues(raw.node_id).contains(x)
            ||| listen.1.contains(x)
            ||| client.1.contains(x)
            ||| peer_list_issues(raw.peers).contains(x)
            ||| own_peer_issues(
                node_id,
                listen.0,
                peers_of(raw),
                accepted(MemberList::Peers, raw.peers).0.len() > 0,
            ).contains(x)
            ||| accepted(MemberList::ClientEndpoints, raw.client_endpoints).1.contains(x)
            ||| matching_issues(node_id, client.0, peers_of(raw), endpoints_of(raw)).contains(x)
            ||| backend_of(raw.backend, raw.data_dir).1.contains(x)
            ||| format_of(raw.format).1.contains(x)
        },
{
    lemma_adds();
}

/// Every problem of a single setting is reported, and nothing else is reported of
/// one: each with the setting and the value that it is about.
pub proof fn law_every_problem_of_a_setting_is_reported(raw: RawView, issue: IssueView)
    requires
        is_of_one_setting(issue),
    ensures
        issues_of(raw).contains(issue) <==> has_problem(raw, issue),
{
    lemma_issue_in(raw, issue);
    lemma_adds();
    lemma_timing_issues(raw.raft, issue);
    lemma_accepted_issues(MemberList::Peers, raw.peers, issue);
    lemma_accepted_issues(MemberList::ClientEndpoints, raw.client_endpoints, issue);
    let p = peers_of(raw);
    let e = endpoints_of(raw);
    lemma_missing_issues(keys_in_order(p), e, issue);
    lemma_missing_issues(keys_in_order(e), p, issue);
    lemma_collision_issues(keys_in_order(p), p, e, issue);
    lemma_one(IssueView::NodeIdRequired, issue);
    lemma_one(IssueView::AddrRequired { addr_field: AddrField::ListenAddr }, issue);
    lemma_one(IssueView::AddrRequired { addr_field: AddrField::ClientAddr }, issue);
    if raw.listen_addr is Some && raw.listen_addr->0.parsed is Err {
        lemma_one(
            IssueView::AddrInvalid {
                addr_field: AddrField::ListenAddr,
                input: raw.listen_addr->0.text,
                reason: raw.listen_addr->0.parsed->Err_0,
            },
            issue,
        );
    }
    if raw.client_addr is Some && raw.client_addr->0.parsed is Err {
        lemma_one(
            IssueView::AddrInvalid {
                addr_field: AddrField::ClientAddr,
                input: raw.client_addr->0.text,
                reason: raw.client_addr->0.parsed->Err_0,
            },
            issue,
        );
    }
    lemma_one(IssueView::DataDirRequired, issue);
    lemma_one(IssueView::RocksDb, issue);
    lemma_one(IssueView::UnknownBackend { input: raw.backend->0 }, issue);
    lemma_one(IssueView::UnknownFormat { input: raw.format->0 }, issue);
    reveal_strlit("disk");
    reveal_strlit("memory");
    reveal_strlit("rocksdb");
    reveal_strlit("json");
    reveal_strlit("pretty");
    assert("disk"@.len() == 4 && "memory"@.len() == 6 && "rocksdb"@.len() == 7);
    assert("json"@.len() == 4 && "pretty"@.len() == 6);
}

/// The two lists, or a list and the node, do not go together.
pub open spec fn lists_clash(raw: RawView, issue: IssueView) -> bool {
    match issue {
        IssueView::NodeNotAPeer { id } => raw.node_id == Some(id) && id != 0 && raw.peers.len() > 0
            && !lists_id(raw.peers, id),
        IssueView::ListenAddrMismatch { bind, id, addr } => raw.node_id == Some(id)
            && is_bound_to(raw, AddrField::ListenAddr, bind) && lists_member(raw.peers, id, addr)
            && bind != addr,
        IssueView::MissingEndpoint { id } => lists_id(raw.peers, id) && !lists_id(
            raw.client_endpoints,
            id,
        ),
        IssueView::EndpointWithoutPeer { id } => lists_id(raw.client_endpoints, id) && !lists_id(
            raw.peers,
            id,
        ),
        IssueView::ClientAddrMismatch { bind, id, addr } => raw.node_id == Some(id)
            && is_bound_to(raw, AddrField::ClientAddr, bind) && lists_member(
            raw.client_endpoints,
            id,
            addr,
        ) && bind != addr,
        IssueView::Collision { id, addr } => lists_member(raw.peers, id, addr) && exists|other|
            lists_member(raw.client_endpoints, other, addr),
        _ => false,
    }
}

/// The issue is one between lists, or a list and the node.
pub open spec fn is_between_lists(issue: IssueView) -> bool {
    match issue {
        IssueView::NodeNotAPeer { .. } => true,
        IssueView::ListenAddrMismatch { .. } => true,
        IssueView::MissingEndpoint { .. } => true,
        IssueView::EndpointWithoutPeer { .. } => true,
        IssueView::ClientAddrMismatch { .. } => true,
        IssueView::Collision { .. } => true,
        _ => false,
    }
}

proof fn lemma_backend_and_format(raw: RawView, x: IssueView)
    requires
        is_between_lists(x),
    ensures
        !backend_of(raw.backend, raw.data_dir).1.contains(x),
        !format_of(raw.format).1.contains(x),
        !node_id_issues(raw.node_id).contains(x),
        !addr_of(raw.listen_addr, AddrField::ListenAddr).1.contains(x),
        !addr_of(raw.client_addr, AddrField::ClientAddr).1.contains(x),
        !timing_issues(timing_of(raw.raft)).contains(x),
        !peer_list_issues(raw.peers).contains(x),
{
    lemma_adds();
    lemma_timing_issues(raw.raft, x);
    lemma_accepted_issues(MemberList::Peers, raw.peers, x);
}

/// Where the rows of both lists are good, everything that does not go together is
/// reported, and nothing else is.
pub proof fn law_every_clash_of_the_lists_is_reported(raw: RawView, issue: IssueView)
    requires
        is_between_lists(issue),
        rows_are_good(raw.peers),
        rows_are_good(raw.client_endpoints),
    ensures
        issues_of(raw).contains(issue) <==> lists_clash(raw, issue),
{
    lemma_issue_in(raw, issue);
    lemma_backend_and_format(raw, issue);
    lemma_adds();
    let p = peers_of(raw);
    let e = endpoints_of(raw);
    lemma_good_rows(MemberList::Peers, raw.peers);
    lemma_good_rows(MemberList::ClientEndpoints, raw.client_endpoints);
    lemma_holds_rows(MemberList::Peers, raw.peers);
    lemma_holds_rows(MemberList::ClientEndpoints, raw.client_endpoints);
    lemma_keys(p);
    lemma_keys(e);
    lemma_missing_issues(keys_in_order(p), e, issue);
    lemma_missing_issues(keys_in_order(e), p, issue);
    lemma_collision_issues(keys_in_order(p), p, e, issue);
    let id = node_id_of(raw.node_id);
    assert(!lists_id(raw.peers, 0)) by {
        if lists_id(raw.peers, 0) {
            let i = choose|i: int| 0 <= i < raw.peers.len() && (#[trigger] raw.peers[i]).id == 0;
            assert(raw.peers[i].id != 0);
        }
    }
    assert(!lists_id(raw.client_endpoints, 0)) by {
        if lists_id(raw.client_endpoints, 0) {
            let i = choose|i: int|
                0 <= i < raw.client_endpoints.len() && (#[trigger] raw.client_endpoints[i]).id == 0;
            assert(raw.client_endpoints[i].id != 0);
        }
    }
    match issue {
        IssueView::ListenAddrMismatch { bind, id, addr } => {
            lemma_listed(p, raw.peers, id, addr);
        },
        IssueView::ClientAddrMismatch { bind, id, addr } => {
            lemma_listed(e, raw.client_endpoints, id, addr);
        },
        IssueView::Collision { id, addr } => {
            lemma_listed(p, raw.peers, id, addr);
            assert(is_endpoint(addr, e) <==> exists|other: NodeId|
                lists_member(raw.client_endpoints, other, addr)) by {
                assert forall|other: NodeId| #[trigger] lists_member(
                    raw.client_endpoints,
                    other,
                    addr,
                ) <==> e.contains_key(other) && e[other] == addr by {
                    lemma_listed(e, raw.client_endpoints, other, addr);
                }
                if is_endpoint(addr, e) {
                    let other = choose|other: NodeId| #[trigger]
                        e.contains_key(other) && e[other] == addr;
                    assert(lists_member(raw.client_endpoints, other, addr));
                }
            }
        },
        _ => {},
    }
}

/// Every row of a list is accepted or reported, never both, and a row with the
/// reserved id is reported as such.
pub proof fn law_every_row_is_accepted_or_reported(
    list: MemberList,
    rows: Seq<crate::config::RowView>,
)
    ensures
        accepted(list, rows).0.len() + accepted(list, rows).1.len() == rows.len(),
        accepted(list, rows).1.contains(IssueView::ReservedId { list }) <==> lists_id(rows, 0),
        forall|i: int|
            0 <= i < accepted(list, rows).0.len() ==> lists_member(
                rows,
                (#[trigger] accepted(list, rows).0[i]).id,
                accepted(list, rows).0[i].addr,
            ),
    decreases rows.len(),
{
    let zero = IssueView::ReservedId { list };
    if rows.len() > 0 {
        let n = rows.len() - 1;
        let fewer = rows.drop_last();
        law_every_row_is_accepted_or_reported(list, fewer);
        let (members, issues) = accepted(list, fewer);
        let (all, more) = accepted(list, rows);
        assert(rows[n] == rows.last());
        assert forall|i: int| 0 <= i < n implies #[trigger] fewer[i] == rows[i] by {}
        assert(lists_id(rows, 0) <==> lists_id(fewer, 0) || rows.last().id == 0) by {
            if lists_id(fewer, 0) {
                let i = choose|i: int| 0 <= i < fewer.len() && (#[trigger] fewer[i]).id == 0;
                assert(rows[i].id == 0);
            }
            if lists_id(rows, 0) {
                let i = choose|i: int| 0 <= i < rows.len() && (#[trigger] rows[i]).id == 0;
                if i < n {
                    assert(fewer[i].id == 0);
                }
            }
        }
        if more != issues {
            let added = more.last();
            assert(more == issues.push(added));
            lemma_add(issues, seq![added], zero);
            lemma_one(added, zero);
            assert(issues + seq![added] =~= more);
        }
        assert forall|i: int| 0 <= i < all.len() implies lists_member(
            rows,
            (#[trigger] all[i]).id,
            all[i].addr,
        ) by {
            if i < members.len() {
                assert(lists_member(fewer, members[i].id, members[i].addr));
                let j = choose|j: int|
                    0 <= j < fewer.len() && (#[trigger] fewer[j]).id == members[i].id
                        && fewer[j].addr.parsed->Ok_0 == members[i].addr;
                assert(rows[j].id == all[i].id);
            } else {
                assert(rows[n].id == all[i].id);
            }
        }
    }
}

/// A file that is not accepted is answered with the text of every issue, in order.
pub proof fn law_every_issue_is_answered(raw: RawView, issue: IssueView)
    requires
        issues_of(raw).contains(issue),
    ensures
        validated(raw) is Err,
        validated(raw)->Err_0 is Validation,
        validated(raw)->Err_0->errors.contains(issue.text()),
        validated(raw)->Err_0->errors.len() == issues_of(raw).len(),
{
    reveal(validated);
    let i = issues_of(raw).index_of(issue);
    assert(reports(issues_of(raw))[i] == issue.text());
}

} // verus!
