//! The rules a configuration must meet. All errors are collected before
//! returning, so the user sees the full picture at once.

use std::collections::BTreeMap;

use vstd::prelude::*;

use crate::config::{
    addrs_view, apply_overrides, members_view, opt_addr, opt_text, peers_view, rows_view,
    texts_view, BackendView, ClusterConfig, ClusterView, Config, ConfigError, ConfigErrorView,
    ConfigView, LogFormat, LoggingConfig, MemberView, Millis, NodeId, Overrides, OverridesView,
    RaftConfig, RaftPeer, RawAddr, RawAddrView, RawConfig, RawPeer, RawRaftConfig, RawView, RowView,
    SocketAddr, StorageBackend, StorageConfig, DEFAULT_COMPACTION_THRESHOLD,
    DEFAULT_ELECTION_TIMEOUT_MAX_MS, DEFAULT_ELECTION_TIMEOUT_MIN_MS, DEFAULT_HEARTBEAT_MS,
    DEFAULT_RPC_TIMEOUT_MS, MAX_TIMING_MS,
};
use crate::issue::{issues_view, AddrField, Issue, IssueView, MemberList, TimingField};
use crate::maps::{ascending_keys, keys_in_order};
use crate::seqs::lists;

verus! {

broadcast use vstd::std_specs::btree::group_btree_axioms;

// ── The rules ───────────────────────────────────────────────────────────────

/// The issue, where it applies.
pub open spec fn where_so(applies: bool, issue: IssueView) -> Seq<IssueView> {
    if applies {
        seq![issue]
    } else {
        Seq::empty()
    }
}

/// The number, or its default.
pub open spec fn or_default(v: Option<u64>, default: u64) -> u64 {
    match v {
        Some(x) => x,
        None => default,
    }
}

/// The timing of a file, with defaults for what it omits.
pub open spec fn timing_of(raw: RawRaftConfig) -> RaftConfig {
    RaftConfig {
        heartbeat_interval: Millis {
            ms: or_default(raw.heartbeat_interval_ms, DEFAULT_HEARTBEAT_MS),
        },
        rpc_timeout: Millis { ms: or_default(raw.rpc_timeout_ms, DEFAULT_RPC_TIMEOUT_MS) },
        election_timeout_min: Millis {
            ms: or_default(raw.election_timeout_min_ms, DEFAULT_ELECTION_TIMEOUT_MIN_MS),
        },
        election_timeout_max: Millis {
            ms: or_default(raw.election_timeout_max_ms, DEFAULT_ELECTION_TIMEOUT_MAX_MS),
        },
        compaction_threshold: or_default(raw.compaction_threshold, DEFAULT_COMPACTION_THRESHOLD),
    }
}

/// A number that must not be zero.
pub open spec fn zero_issue(field: TimingField, value: u64) -> Seq<IssueView> {
    where_so(value == 0, IssueView::Zero { field })
}

/// A time that must not be above the limit.
pub open spec fn limit_issue(field: TimingField, ms: u64) -> Seq<IssueView> {
    where_so(ms > MAX_TIMING_MS, IssueView::AboveMaximum { field, ms })
}

/// Two times of which the first must be below the second. A zero is reported
/// elsewhere.
pub open spec fn order_issue(
    low: TimingField,
    low_ms: u64,
    high: TimingField,
    high_ms: u64,
) -> Seq<IssueView> {
    where_so(
        low_ms > 0 && high_ms > 0 && low_ms >= high_ms,
        IssueView::NotBelow { low, low_ms, high, high_ms },
    )
}

/// The numbers that must not be zero.
pub open spec fn zero_issues(t: RaftConfig) -> Seq<IssueView> {
    zero_issue(TimingField::HeartbeatInterval, t.heartbeat_interval.ms) + zero_issue(
        TimingField::RpcTimeout,
        t.rpc_timeout.ms,
    ) + zero_issue(TimingField::ElectionTimeoutMin, t.election_timeout_min.ms) + zero_issue(
        TimingField::ElectionTimeoutMax,
        t.election_timeout_max.ms,
    ) + zero_issue(TimingField::CompactionThreshold, t.compaction_threshold)
}

/// The times that must not be above the limit.
pub open spec fn limit_issues(t: RaftConfig) -> Seq<IssueView> {
    limit_issue(TimingField::HeartbeatInterval, t.heartbeat_interval.ms) + limit_issue(
        TimingField::RpcTimeout,
        t.rpc_timeout.ms,
    ) + limit_issue(TimingField::ElectionTimeoutMin, t.election_timeout_min.ms) + limit_issue(
        TimingField::ElectionTimeoutMax,
        t.election_timeout_max.ms,
    )
}

/// The times that must ascend.
pub open spec fn order_issues(t: RaftConfig) -> Seq<IssueView> {
    order_issue(
        TimingField::HeartbeatInterval,
        t.heartbeat_interval.ms,
        TimingField::RpcTimeout,
        t.rpc_timeout.ms,
    ) + order_issue(
        TimingField::RpcTimeout,
        t.rpc_timeout.ms,
        TimingField::ElectionTimeoutMin,
        t.election_timeout_min.ms,
    ) + order_issue(
        TimingField::ElectionTimeoutMin,
        t.election_timeout_min.ms,
        TimingField::ElectionTimeoutMax,
        t.election_timeout_max.ms,
    )
}

/// What is wrong with the timing.
pub open spec fn timing_issues(t: RaftConfig) -> Seq<IssueView> {
    zero_issues(t) + limit_issues(t) + order_issues(t)
}

/// What is wrong with the node's own id.
pub open spec fn node_id_issues(node_id: Option<NodeId>) -> Seq<IssueView> {
    match node_id {
        None => seq![IssueView::NodeIdRequired],
        Some(id) => where_so(id == 0, IssueView::NodeIdZero),
    }
}

/// The node's own id, zero where it has none.
pub open spec fn node_id_of(node_id: Option<NodeId>) -> NodeId {
    match node_id {
        None => 0,
        Some(id) => id,
    }
}

/// An address that must be there and be one, and what is wrong with it.
pub open spec fn addr_of(addr: Option<RawAddrView>, addr_field: AddrField) -> (
    Option<Seq<char>>,
    Seq<IssueView>,
) {
    match addr {
        None => (None, seq![IssueView::AddrRequired { addr_field }]),
        Some(a) => if a.text.len() == 0 {
            (None, seq![IssueView::AddrRequired { addr_field }])
        } else {
            match a.parsed {
                Ok(parsed) => (Some(parsed), Seq::empty()),
                Err(reason) => (
                    None,
                    seq![IssueView::AddrInvalid { addr_field, input: a.text, reason }],
                ),
            }
        },
    }
}

/// Whether a member with this id is there.
pub open spec fn has_id(members: Seq<MemberView>, id: NodeId) -> bool {
    exists|i: int| 0 <= i < members.len() && (#[trigger] members[i]).id == id
}

/// The member that holds the address.
pub open spec fn holder_of(members: Seq<MemberView>, addr: Seq<char>) -> Option<NodeId>
    decreases members.len(),
{
    if members.len() == 0 {
        None
    } else if members.last().addr == addr {
        Some(members.last().id)
    } else {
        holder_of(members.drop_last(), addr)
    }
}

/// The rows of a list that are good, in order, and what is wrong with the
/// others: each id and each address may occur once, and zero is no id.
pub open spec fn accepted(list: MemberList, rows: Seq<RowView>) -> (
    Seq<MemberView>,
    Seq<IssueView>,
)
    decreases rows.len(),
{
    if rows.len() == 0 {
        (Seq::empty(), Seq::empty())
    } else {
        let (members, issues) = accepted(list, rows.drop_last());
        let row = rows.last();
        if row.id == 0 {
            (members, issues.push(IssueView::ReservedId { list }))
        } else if has_id(members, row.id) {
            (members, issues.push(IssueView::DuplicateId { list, id: row.id }))
        } else {
            match row.addr.parsed {
                Err(reason) => (
                    members,
                    issues.push(
                        IssueView::MemberAddrInvalid {
                            list,
                            id: row.id,
                            input: row.addr.text,
                            reason,
                        },
                    ),
                ),
                Ok(addr) => match holder_of(members, addr) {
                    Some(first) => (
                        members,
                        issues.push(IssueView::DuplicateAddr { list, addr, first, id: row.id }),
                    ),
                    None => (members.push(MemberView { id: row.id, addr }), issues),
                },
            }
        }
    }
}

/// The addresses of members by id.
pub open spec fn by_id(members: Seq<MemberView>) -> Map<NodeId, Seq<char>>
    decreases members.len(),
{
    if members.len() == 0 {
        Map::empty()
    } else {
        by_id(members.drop_last()).insert(members.last().id, members.last().addr)
    }
}

/// What is wrong with the peers as a list.
pub open spec fn peer_list_issues(rows: Seq<RowView>) -> Seq<IssueView> {
    let (members, issues) = accepted(MemberList::Peers, rows);
    where_so(rows.len() == 0, IssueView::PeersEmpty) + issues + where_so(
        members.len() == 0 && rows.len() > 0,
        IssueView::NoValidPeers,
    )
}

/// What is wrong with the node's place among the peers.
pub open spec fn own_peer_issues(
    node_id: NodeId,
    bind: Option<Seq<char>>,
    peers: Map<NodeId, Seq<char>>,
    any_peer: bool,
) -> Seq<IssueView> {
    where_so(
        node_id != 0 && any_peer && !peers.contains_key(node_id),
        IssueView::NodeNotAPeer { id: node_id },
    ) + where_so(
        bind is Some && peers.contains_key(node_id) && bind->0 != peers[node_id],
        IssueView::ListenAddrMismatch { bind: bind->0, id: node_id, addr: peers[node_id] },
    )
}

/// Peers without an endpoint, in order of `ids`.
pub open spec fn missing_endpoints(ids: Seq<NodeId>, endpoints: Map<NodeId, Seq<char>>) -> Seq<
    IssueView,
>
    decreases ids.len(),
{
    if ids.len() == 0 {
        Seq::empty()
    } else {
        missing_endpoints(ids.drop_last(), endpoints) + where_so(
            !endpoints.contains_key(ids.last()),
            IssueView::MissingEndpoint { id: ids.last() },
        )
    }
}

/// Endpoints without a peer, in order of `ids`.
pub open spec fn surplus_endpoints(ids: Seq<NodeId>, peers: Map<NodeId, Seq<char>>) -> Seq<
    IssueView,
>
    decreases ids.len(),
{
    if ids.len() == 0 {
        Seq::empty()
    } else {
        surplus_endpoints(ids.drop_last(), peers) + where_so(
            !peers.contains_key(ids.last()),
            IssueView::EndpointWithoutPeer { id: ids.last() },
        )
    }
}

/// Whether the address is that of an endpoint.
pub open spec fn is_endpoint(addr: Seq<char>, endpoints: Map<NodeId, Seq<char>>) -> bool {
    exists|id: NodeId| #[trigger] endpoints.contains_key(id) && endpoints[id] == addr
}

/// Peers whose address is an endpoint, too, in order of `ids`.
pub open spec fn collisions(
    ids: Seq<NodeId>,
    peers: Map<NodeId, Seq<char>>,
    endpoints: Map<NodeId, Seq<char>>,
) -> Seq<IssueView>
    decreases ids.len(),
{
    if ids.len() == 0 {
        Seq::empty()
    } else {
        collisions(ids.drop_last(), peers, endpoints) + where_so(
            is_endpoint(peers[ids.last()], endpoints),
            IssueView::Collision { id: ids.last(), addr: peers[ids.last()] },
        )
    }
}

/// What is wrong between peers and endpoints.
pub open spec fn matching_issues(
    node_id: NodeId,
    bind: Option<Seq<char>>,
    peers: Map<NodeId, Seq<char>>,
    endpoints: Map<NodeId, Seq<char>>,
) -> Seq<IssueView> {
    missing_endpoints(keys_in_order(peers), endpoints) + surplus_endpoints(
        keys_in_order(endpoints),
        peers,
    ) + where_so(
        bind is Some && endpoints.contains_key(node_id) && bind->0 != endpoints[node_id],
        IssueView::ClientAddrMismatch { bind: bind->0, id: node_id, addr: endpoints[node_id] },
    ) + collisions(keys_in_order(peers), peers, endpoints)
}

/// The storage backend, and what is wrong with it.
pub open spec fn backend_of(backend: Option<Seq<char>>, data_dir: Option<Seq<char>>) -> (
    BackendView,
    Seq<IssueView>,
) {
    if backend is None || backend == Some("memory"@) {
        (BackendView::Memory, Seq::empty())
    } else if backend == Some("disk"@) {
        match data_dir {
            Some(dir) => (BackendView::Disk { data_dir: dir }, Seq::empty()),
            None => (BackendView::Memory, seq![IssueView::DataDirRequired]),
        }
    } else if backend == Some("rocksdb"@) {
        (BackendView::Memory, seq![IssueView::RocksDb])
    } else {
        (BackendView::Memory, seq![IssueView::UnknownBackend { input: backend->0 }])
    }
}

/// The log format, and what is wrong with it.
pub open spec fn format_of(format: Option<Seq<char>>) -> (LogFormat, Seq<IssueView>) {
    if format is None || format == Some("pretty"@) {
        (LogFormat::Pretty, Seq::empty())
    } else if format == Some("json"@) {
        (LogFormat::Json, Seq::empty())
    } else {
        (LogFormat::Pretty, seq![IssueView::UnknownFormat { input: format->0 }])
    }
}

/// The peers of a file that are good.
pub open spec fn peers_of(raw: RawView) -> Map<NodeId, Seq<char>> {
    by_id(accepted(MemberList::Peers, raw.peers).0)
}

/// The endpoints of a file that are good.
pub open spec fn endpoints_of(raw: RawView) -> Map<NodeId, Seq<char>> {
    by_id(accepted(MemberList::ClientEndpoints, raw.client_endpoints).0)
}

/// Everything that is wrong with a file, in the order of its settings.
pub open spec fn issues_of(raw: RawView) -> Seq<IssueView> {
    let node_id = node_id_of(raw.node_id);
    let (raft_bind, listen_issues) = addr_of(raw.listen_addr, AddrField::ListenAddr);
    let (kv_bind, client_issues) = addr_of(raw.client_addr, AddrField::ClientAddr);
    timing_issues(timing_of(raw.raft)) + node_id_issues(raw.node_id) + listen_issues
        + client_issues + peer_list_issues(raw.peers) + own_peer_issues(
        node_id,
        raft_bind,
        peers_of(raw),
        accepted(MemberList::Peers, raw.peers).0.len() > 0,
    ) + accepted(MemberList::ClientEndpoints, raw.client_endpoints).1 + matching_issues(
        node_id,
        kv_bind,
        peers_of(raw),
        endpoints_of(raw),
    ) + backend_of(raw.backend, raw.data_dir).1 + format_of(raw.format).1
}

/// The configuration that a file without issues stands for.
pub open spec fn config_of(raw: RawView) -> ConfigView {
    ConfigView {
        cluster: ClusterView {
            node_id: node_id_of(raw.node_id),
            raft_bind: addr_of(raw.listen_addr, AddrField::ListenAddr).0->0,
            kv_bind: addr_of(raw.client_addr, AddrField::ClientAddr).0->0,
            peers: peers_of(raw),
            kv_advertise: endpoints_of(raw),
        },
        raft: timing_of(raw.raft),
        backend: backend_of(raw.backend, raw.data_dir).0,
        format: format_of(raw.format).0,
    }
}

/// The reports of issues, in order.
pub open spec fn reports(issues: Seq<IssueView>) -> Seq<Seq<char>> {
    Seq::new(issues.len(), |i: int| issues[i].text())
}

/// What validating a file gives.
#[verifier::opaque]
pub open spec fn validated(raw: RawView) -> Result<ConfigView, ConfigErrorView> {
    if issues_of(raw).len() == 0 {
        Ok(config_of(raw))
    } else {
        Err(ConfigErrorView::Validation { errors: reports(issues_of(raw)) })
    }
}

/// What loading a configuration gives: from what a file was parsed to, or from
/// no file.
pub open spec fn loaded(
    source: Option<Result<RawView, ConfigErrorView>>,
    overrides: OverridesView,
) -> Result<ConfigView, ConfigErrorView> {
    match source {
        Some(Err(e)) => Err(e),
        Some(Ok(raw)) => validated(raw.overridden(overrides)),
        None => if overrides.is_empty() {
            Err(ConfigErrorView::Validation { errors: seq![IssueView::NoSource.text()] })
        } else {
            match validated(RawView::empty().overridden(overrides)) {
                Ok(config) => Ok(config),
                Err(e) => Err(
                    match e {
                        ConfigErrorView::Validation { errors } => ConfigErrorView::Validation {
                            errors: seq![IssueView::NoFile.text()] + errors,
                        },
                        other => other,
                    },
                ),
            }
        },
    }
}

// ── Checking them ───────────────────────────────────────────────────────────

/// Adds the issue, where it applies.
fn note(issues: &mut Vec<Issue>, applies: bool, issue: Issue)
    ensures
        issues_view(final(issues)@) == issues_view(old(issues)@) + where_so(applies, issue@),
{
    let ghost before = issues_view(issues@);
    if applies {
        issues.push(issue);
    }
    assert(issues_view(issues@) =~= before + where_so(applies, issue@));
}

/// The number, or its default.
fn value_or(v: Option<u64>, default: u64) -> (r: u64)
    ensures
        r == or_default(v, default),
{
    match v {
        Some(x) => x,
        None => default,
    }
}

/// Checks the numbers that must not be zero.
fn check_zeroes(t: &RaftConfig, issues: &mut Vec<Issue>)
    ensures
        issues_view(final(issues)@) == issues_view(old(issues)@) + zero_issues(*t),
{
    let ghost before = issues_view(issues@);
    note(
        issues,
        t.heartbeat_interval.ms == 0,
        Issue::Zero { field: TimingField::HeartbeatInterval },
    );
    note(issues, t.rpc_timeout.ms == 0, Issue::Zero { field: TimingField::RpcTimeout });
    note(
        issues,
        t.election_timeout_min.ms == 0,
        Issue::Zero { field: TimingField::ElectionTimeoutMin },
    );
    note(
        issues,
        t.election_timeout_max.ms == 0,
        Issue::Zero { field: TimingField::ElectionTimeoutMax },
    );
    note(
        issues,
        t.compaction_threshold == 0,
        Issue::Zero { field: TimingField::CompactionThreshold },
    );
    assert(issues_view(issues@) =~= before + zero_issues(*t));
}

/// Checks the times that must not be above the limit.
fn check_limits(t: &RaftConfig, issues: &mut Vec<Issue>)
    ensures
        issues_view(final(issues)@) == issues_view(old(issues)@) + limit_issues(*t),
{
    let ghost before = issues_view(issues@);
    let hb: u64 = t.heartbeat_interval.ms;
    let rpc: u64 = t.rpc_timeout.ms;
    let emin: u64 = t.election_timeout_min.ms;
    let emax: u64 = t.election_timeout_max.ms;
    note(
        issues,
        hb > MAX_TIMING_MS,
        Issue::AboveMaximum { field: TimingField::HeartbeatInterval, ms: hb },
    );
    note(
        issues,
        rpc > MAX_TIMING_MS,
        Issue::AboveMaximum { field: TimingField::RpcTimeout, ms: rpc },
    );
    note(
        issues,
        emin > MAX_TIMING_MS,
        Issue::AboveMaximum { field: TimingField::ElectionTimeoutMin, ms: emin },
    );
    note(
        issues,
        emax > MAX_TIMING_MS,
        Issue::AboveMaximum { field: TimingField::ElectionTimeoutMax, ms: emax },
    );
    assert(issues_view(issues@) =~= before + limit_issues(*t));
}

/// Checks the times that must ascend.
fn check_order(t: &RaftConfig, issues: &mut Vec<Issue>)
    ensures
        issues_view(final(issues)@) == issues_view(old(issues)@) + order_issues(*t),
{
    let ghost before = issues_view(issues@);
    let hb: u64 = t.heartbeat_interval.ms;
    let rpc: u64 = t.rpc_timeout.ms;
    let emin: u64 = t.election_timeout_min.ms;
    let emax: u64 = t.election_timeout_max.ms;
    note(
        issues,
        hb > 0 && rpc > 0 && hb >= rpc,
        Issue::NotBelow {
            low: TimingField::HeartbeatInterval,
            low_ms: hb,
            high: TimingField::RpcTimeout,
            high_ms: rpc,
        },
    );
    note(
        issues,
        rpc > 0 && emin > 0 && rpc >= emin,
        Issue::NotBelow {
            low: TimingField::RpcTimeout,
            low_ms: rpc,
            high: TimingField::ElectionTimeoutMin,
            high_ms: emin,
        },
    );
    note(
        issues,
        emin > 0 && emax > 0 && emin >= emax,
        Issue::NotBelow {
            low: TimingField::ElectionTimeoutMin,
            low_ms: emin,
            high: TimingField::ElectionTimeoutMax,
            high_ms: emax,
        },
    );
    assert(issues_view(issues@) =~= before + order_issues(*t));
}

/// Reads the timing, with defaults for what is omitted.
pub fn resolve_timing(raw: &RawRaftConfig) -> (r: RaftConfig)
    ensures
        r == timing_of(*raw),
{
    RaftConfig {
        heartbeat_interval: Millis {
            ms: value_or(raw.heartbeat_interval_ms, DEFAULT_HEARTBEAT_MS),
        },
        rpc_timeout: Millis { ms: value_or(raw.rpc_timeout_ms, DEFAULT_RPC_TIMEOUT_MS) },
        election_timeout_min: Millis {
            ms: value_or(raw.election_timeout_min_ms, DEFAULT_ELECTION_TIMEOUT_MIN_MS),
        },
        election_timeout_max: Millis {
            ms: value_or(raw.election_timeout_max_ms, DEFAULT_ELECTION_TIMEOUT_MAX_MS),
        },
        compaction_threshold: value_or(raw.compaction_threshold, DEFAULT_COMPACTION_THRESHOLD),
    }
}

/// Reads the timing and checks it.
fn check_timing(raw: &RawRaftConfig, issues: &mut Vec<Issue>) -> (r: RaftConfig)
    ensures
        r == timing_of(*raw),
        issues_view(final(issues)@) == issues_view(old(issues)@) + timing_issues(timing_of(*raw)),
{
    let ghost before = issues_view(issues@);
    let r = resolve_timing(raw);
    check_zeroes(&r, issues);
    check_limits(&r, issues);
    check_order(&r, issues);
    assert(issues_view(issues@) =~= before + timing_issues(r));
    r
}

/// Reads the node's own id and checks it.
fn check_node_id(node_id: Option<NodeId>, issues: &mut Vec<Issue>) -> (r: NodeId)
    ensures
        r == node_id_of(node_id),
        issues_view(final(issues)@) == issues_view(old(issues)@) + node_id_issues(node_id),
{
    match node_id {
        None => {
            note(issues, true, Issue::NodeIdRequired);
            0
        },
        Some(id) => {
            note(issues, id == 0, Issue::NodeIdZero);
            id
        },
    }
}

/// What an optional address text holds.
pub open spec fn opt_bind(addr: Option<SocketAddr>) -> Option<Seq<char>> {
    match addr {
        Some(a) => Some(a@),
        None => None,
    }
}

/// Reads an address and checks it.
pub fn parse_addr_field(
    value: &Option<RawAddr>,
    addr_field: AddrField,
    issues: &mut Vec<Issue>,
) -> (r: Option<SocketAddr>)
    ensures
        opt_bind(r) == addr_of(opt_addr(*value), addr_field).0,
        issues_view(final(issues)@) == issues_view(old(issues)@) + addr_of(
            opt_addr(*value),
            addr_field,
        ).1,
{
    let ghost before = issues_view(issues@);
    match value {
        None => {
            note(issues, true, Issue::AddrRequired { addr_field });
            None
        },
        Some(addr) => {
            let empty: bool = addr.text == "".to_owned();
            proof {
                reveal_strlit("");
                assert(empty == (addr.text@.len() == 0)) by {
                    if addr.text@.len() == 0 {
                        assert(addr.text@ =~= ""@);
                    }
                }
            }
            if empty {
                note(issues, true, Issue::AddrRequired { addr_field });
                return None;
            }
            match &addr.parsed {
                Ok(parsed) => {
                    assert(before + Seq::<IssueView>::empty() =~= before);
                    Some(parsed.clone())
                },
                Err(reason) => {
                    note(
                        issues,
                        true,
                        Issue::AddrInvalid {
                            addr_field,
                            input: addr.text.clone(),
                            reason: reason.clone(),
                        },
                    );
                    None
                },
            }
        },
    }
}

/// Whether a member with this id is there.
fn contains_id(members: &Vec<(NodeId, SocketAddr)>, id: NodeId) -> (r: bool)
    ensures
        r == has_id(members_view(members@), id),
{
    let ghost all = members_view(members@);
    let mut i: usize = 0;
    while i < members.len()
        invariant
            i <= members@.len(),
            all == members_view(members@),
            forall|j: int| 0 <= j < i ==> (#[trigger] all[j]).id != id,
        decreases members@.len() - i,
    {
        if members[i].0 == id {
            assert(all[i as int].id == id);
            return true;
        }
        i += 1;
    }
    false
}

/// The member that holds the address.
fn find_holder(members: &Vec<(NodeId, SocketAddr)>, addr: &SocketAddr) -> (r: Option<NodeId>)
    ensures
        r == holder_of(members_view(members@), addr@),
{
    let ghost all = members_view(members@);
    let mut n: usize = members.len();
    assert(all.take(n as int) =~= all);
    while n > 0
        invariant
            n <= members@.len(),
            all == members_view(members@),
            holder_of(all, addr@) == holder_of(all.take(n as int), addr@),
        decreases n,
    {
        proof {
            assert(all.take(n as int).drop_last() =~= all.take(n - 1));
            assert(all.take(n as int).last() == all[n - 1]);
        }
        if members[n - 1].1.same(addr) {
            return Some(members[n - 1].0);
        }
        n -= 1;
    }
    None
}

/// Reads the rows of a list and checks them.
fn check_members(list: MemberList, rows: &Vec<RawPeer>, issues: &mut Vec<Issue>) -> (r: Vec<
    (NodeId, SocketAddr),
>)
    ensures
        members_view(r@) == accepted(list, rows_view(rows@)).0,
        issues_view(final(issues)@) == issues_view(old(issues)@) + accepted(
            list,
            rows_view(rows@),
        ).1,
{
    let ghost before = issues_view(issues@);
    let ghost all = rows_view(rows@);
    let mut members: Vec<(NodeId, SocketAddr)> = Vec::new();
    let mut i: usize = 0;
    proof {
        assert(members_view(members@) =~= accepted(list, all.take(0)).0);
        assert(before + accepted(list, all.take(0)).1 =~= before);
    }
    while i < rows.len()
        invariant
            i <= rows@.len(),
            all == rows_view(rows@),
            members_view(members@) == accepted(list, all.take(i as int)).0,
            issues_view(issues@) == before + accepted(list, all.take(i as int)).1,
        decreases rows@.len() - i,
    {
        let row = &rows[i];
        let ghost held = accepted(list, all.take(i as int)).1;
        let ghost kept = members@;
        i += 1;
        proof {
            assert(all.take(i as int).drop_last() =~= all.take(i - 1));
            assert(all.take(i as int).last() == row@);
            assert forall|x: IssueView| #[trigger]
                (before + held.push(x)) == (before + held) + seq![x] by {
                assert(before + held.push(x) =~= (before + held) + seq![x]);
            }
        }
        if row.id == 0 {
            note(issues, true, Issue::ReservedId { list });
            assert(before + held.push(IssueView::ReservedId { list }) == (before + held) + seq![
                IssueView::ReservedId { list },
            ]);
            continue ;
        }
        if contains_id(&members, row.id) {
            note(issues, true, Issue::DuplicateId { list, id: row.id });
            assert(before + held.push(IssueView::DuplicateId { list, id: row.id }) == (before
                + held) + seq![IssueView::DuplicateId { list, id: row.id }]);
            continue ;
        }
        let addr = match &row.addr.parsed {
            Ok(addr) => addr,
            Err(reason) => {
                let issue = Issue::MemberAddrInvalid {
                    list,
                    id: row.id,
                    input: row.addr.text.clone(),
                    reason: reason.clone(),
                };
                let ghost x = issue@;
                note(issues, true, issue);
                assert(before + held.push(x) == (before + held) + seq![x]);
                continue ;
            },
        };
        match find_holder(&members, addr) {
            Some(first) => {
                let issue = Issue::DuplicateAddr {
                    list,
                    addr: addr.text.clone(),
                    first,
                    id: row.id,
                };
                let ghost x = issue@;
                note(issues, true, issue);
                assert(before + held.push(x) == (before + held) + seq![x]);
            },
            None => {
                let member = (row.id, addr.clone());
                members.push(member);
                assert(members_view(members@) =~= members_view(kept).push(
                    MemberView { id: row.id, addr: addr@ },
                ));
            },
        }
    }
    assert(all.take(i as int) =~= all);
    members
}

/// Maps the peers by id.
fn peer_map(members: &Vec<(NodeId, SocketAddr)>) -> (r: BTreeMap<NodeId, RaftPeer>)
    ensures
        peers_view(r@) == by_id(members_view(members@)),
{
    let ghost all = members_view(members@);
    let mut map: BTreeMap<NodeId, RaftPeer> = BTreeMap::new();
    let mut i: usize = 0;
    assert(peers_view(map@) =~= by_id(all.take(0)));
    while i < members.len()
        invariant
            i <= members@.len(),
            all == members_view(members@),
            peers_view(map@) == by_id(all.take(i as int)),
        decreases members@.len() - i,
    {
        let ghost before = peers_view(map@);
        let addr = members[i].1.clone();
        let ghost text = addr@;
        map.insert(members[i].0, RaftPeer { addr });
        i += 1;
        proof {
            assert(all.take(i as int).drop_last() =~= all.take(i - 1));
            assert(all.take(i as int).last() == all[i - 1]);
            assert(peers_view(map@) =~= before.insert(members@[i - 1].0, text));
        }
    }
    assert(all.take(i as int) =~= all);
    map
}

/// Maps the endpoints by id.
fn addr_map(members: &Vec<(NodeId, SocketAddr)>) -> (r: BTreeMap<NodeId, SocketAddr>)
    ensures
        addrs_view(r@) == by_id(members_view(members@)),
{
    let ghost all = members_view(members@);
    let mut map: BTreeMap<NodeId, SocketAddr> = BTreeMap::new();
    let mut i: usize = 0;
    assert(addrs_view(map@) =~= by_id(all.take(0)));
    while i < members.len()
        invariant
            i <= members@.len(),
            all == members_view(members@),
            addrs_view(map@) == by_id(all.take(i as int)),
        decreases members@.len() - i,
    {
        let ghost before = addrs_view(map@);
        let addr = members[i].1.clone();
        let ghost text = addr@;
        map.insert(members[i].0, addr);
        i += 1;
        proof {
            assert(all.take(i as int).drop_last() =~= all.take(i - 1));
            assert(all.take(i as int).last() == all[i - 1]);
            assert(addrs_view(map@) =~= before.insert(members@[i - 1].0, text));
        }
    }
    assert(all.take(i as int) =~= all);
    map
}

/// Checks the node's place among the peers.
fn check_own_peer(
    node_id: NodeId,
    bind: &Option<SocketAddr>,
    peers: &BTreeMap<NodeId, RaftPeer>,
    any_peer: bool,
    issues: &mut Vec<Issue>,
)
    ensures
        issues_view(final(issues)@) == issues_view(old(issues)@) + own_peer_issues(
            node_id,
            opt_bind(*bind),
            peers_view(peers@),
            any_peer,
        ),
{
    let ghost before = issues_view(issues@);
    let ghost map = peers_view(peers@);
    note(
        issues,
        node_id != 0 && any_peer && !peers.contains_key(&node_id),
        Issue::NodeNotAPeer { id: node_id },
    );
    let ghost mid = issues_view(issues@);
    match (bind, peers.get(&node_id)) {
        (Some(bind), Some(own)) => {
            note(
                issues,
                !bind.same(&own.addr),
                Issue::ListenAddrMismatch {
                    bind: bind.text.clone(),
                    id: node_id,
                    addr: own.addr.text.clone(),
                },
            );
        },
        _ => {},
    }
    assert(issues_view(issues@) =~= before + own_peer_issues(
        node_id,
        opt_bind(*bind),
        map,
        any_peer,
    ));
}

/// Whether the address is that of an endpoint.
fn used_by_endpoint(
    addr: &SocketAddr,
    endpoints: &BTreeMap<NodeId, SocketAddr>,
    ids: &Vec<NodeId>,
) -> (r: bool)
    requires
        lists(ids@, endpoints@.dom()),
    ensures
        r == is_endpoint(addr@, addrs_view(endpoints@)),
{
    let ghost map = addrs_view(endpoints@);
    let mut i: usize = 0;
    while i < ids.len()
        invariant
            i <= ids@.len(),
            map == addrs_view(endpoints@),
            lists(ids@, endpoints@.dom()),
            forall|j: int| 0 <= j < i ==> map[#[trigger] ids@[j]] != addr@,
        decreases ids@.len() - i,
    {
        let id: NodeId = ids[i];
        assert(ids@.contains(id));
        assert(endpoints@.dom().contains(id));
        match endpoints.get(&id) {
            Some(kv) => {
                assert(map.contains_key(id) && map[id] == kv@);
                if kv.same(addr) {
                    return true;
                }
            },
            None => {},
        }
        i += 1;
    }
    proof {
        if is_endpoint(addr@, map) {
            let id = choose|id: NodeId| #[trigger] map.contains_key(id) && map[id] == addr@;
            assert(endpoints@.dom().contains(id));
            assert(ids@.contains(id));
            let j = ids@.index_of(id);
            assert(map[ids@[j]] != addr@);
        }
    }
    false
}

/// Checks peers and endpoints against each other.
fn check_matching(
    node_id: NodeId,
    bind: &Option<SocketAddr>,
    peers: &BTreeMap<NodeId, RaftPeer>,
    endpoints: &BTreeMap<NodeId, SocketAddr>,
    issues: &mut Vec<Issue>,
)
    ensures
        issues_view(final(issues)@) == issues_view(old(issues)@) + matching_issues(
            node_id,
            opt_bind(*bind),
            peers_view(peers@),
            addrs_view(endpoints@),
        ),
{
    let ghost before = issues_view(issues@);
    let ghost p = peers_view(peers@);
    let ghost e = addrs_view(endpoints@);
    let peer_ids = ascending_keys(peers);
    let endpoint_ids = ascending_keys(endpoints);
    let ghost pids = peer_ids@;
    let ghost eids = endpoint_ids@;
    assert(p.dom() =~= peers@.dom());
    assert(e.dom() =~= endpoints@.dom());
    // The two must be a bijection (same key sets).
    let mut i: usize = 0;
    assert(before + missing_endpoints(pids.take(0), e) =~= before);
    while i < peer_ids.len()
        invariant
            i <= peer_ids@.len(),
            pids == peer_ids@,
            e == addrs_view(endpoints@),
            issues_view(issues@) == before + missing_endpoints(pids.take(i as int), e),
        decreases peer_ids@.len() - i,
    {
        let id: NodeId = peer_ids[i];
        let ghost held = issues_view(issues@);
        note(issues, !endpoints.contains_key(&id), Issue::MissingEndpoint { id });
        i += 1;
        proof {
            assert(pids.take(i as int).drop_last() =~= pids.take(i - 1));
            assert(pids.take(i as int).last() == id);
            assert(issues_view(issues@) =~= before + missing_endpoints(pids.take(i as int), e));
        }
    }
    assert(pids.take(i as int) =~= pids);
    let ghost b1 = before + missing_endpoints(pids, e);
    let mut j: usize = 0;
    assert(b1 + surplus_endpoints(eids.take(0), p) =~= b1);
    while j < endpoint_ids.len()
        invariant
            j <= endpoint_ids@.len(),
            eids == endpoint_ids@,
            p == peers_view(peers@),
            issues_view(issues@) == b1 + surplus_endpoints(eids.take(j as int), p),
        decreases endpoint_ids@.len() - j,
    {
        let id: NodeId = endpoint_ids[j];
        note(issues, !peers.contains_key(&id), Issue::EndpointWithoutPeer { id });
        j += 1;
        proof {
            assert(eids.take(j as int).drop_last() =~= eids.take(j - 1));
            assert(eids.take(j as int).last() == id);
            assert(issues_view(issues@) =~= b1 + surplus_endpoints(eids.take(j as int), p));
        }
    }
    assert(eids.take(j as int) =~= eids);
    let ghost b2 = b1 + surplus_endpoints(eids, p);
    match (bind, endpoints.get(&node_id)) {
        (Some(bind), Some(advertised)) => {
            note(
                issues,
                !bind.same(advertised),
                Issue::ClientAddrMismatch {
                    bind: bind.text.clone(),
                    id: node_id,
                    addr: advertised.text.clone(),
                },
            );
        },
        _ => {},
    }
    let ghost mismatch = where_so(
        opt_bind(*bind) is Some && e.contains_key(node_id) && opt_bind(*bind)->0 != e[node_id],
        IssueView::ClientAddrMismatch {
            bind: opt_bind(*bind)->0,
            id: node_id,
            addr: e[node_id],
        },
    );
    let ghost b3 = b2 + mismatch;
    assert(issues_view(issues@) =~= b3);
    // No Raft addr may equal any KV addr.
    let mut k: usize = 0;
    assert(b3 + collisions(pids.take(0), p, e) =~= b3);
    while k < peer_ids.len()
        invariant
            k <= peer_ids@.len(),
            pids == peer_ids@,
            lists(pids, peers@.dom()),
            lists(endpoint_ids@, endpoints@.dom()),
            p == peers_view(peers@),
            e == addrs_view(endpoints@),
            issues_view(issues@) == b3 + collisions(pids.take(k as int), p, e),
        decreases peer_ids@.len() - k,
    {
        let id: NodeId = peer_ids[k];
        assert(pids.contains(id));
        assert(peers@.dom().contains(id));
        match peers.get(&id) {
            Some(peer) => {
                assert(p[id] == peer.addr@);
                let used: bool = used_by_endpoint(&peer.addr, endpoints, &endpoint_ids);
                note(issues, used, Issue::Collision { id, addr: peer.addr.text.clone() });
            },
            None => {
                assert(false);
            },
        }
        k += 1;
        proof {
            assert(pids.take(k as int).drop_last() =~= pids.take(k - 1));
            assert(pids.take(k as int).last() == id);
            assert(issues_view(issues@) =~= b3 + collisions(pids.take(k as int), p, e));
        }
    }
    assert(pids.take(k as int) =~= pids);
    assert(issues_view(issues@) =~= before + matching_issues(node_id, opt_bind(*bind), p, e));
}

/// Whether a text is a given one.
fn text_is(text: &String, literal: &str) -> (r: bool)
    ensures
        r == (text@ == literal@),
{
    *text == literal.to_owned()
}

/// Reads the storage backend and checks it.
fn check_storage(
    backend: &Option<String>,
    data_dir: &Option<String>,
    issues: &mut Vec<Issue>,
) -> (r: StorageConfig)
    ensures
        r.backend@ == backend_of(opt_text(*backend), opt_text(*data_dir)).0,
        issues_view(final(issues)@) == issues_view(old(issues)@) + backend_of(
            opt_text(*backend),
            opt_text(*data_dir),
        ).1,
{
    let ghost before = issues_view(issues@);
    assert(before + Seq::<IssueView>::empty() =~= before);
    proof {
        reveal_strlit("memory");
        reveal_strlit("disk");
        reveal_strlit("rocksdb");
        assert("memory"@.len() == 6 && "disk"@.len() == 4 && "rocksdb"@.len() == 7);
    }
    match backend {
        None => StorageConfig::default(),
        Some(name) => {
            if text_is(name, "memory") {
                return StorageConfig::default();
            }
            // "disk" = durable backend (sled / segment file). "rocksdb" is rejected by
            // name so the deprecated MVP label cannot re-enter configs.
            if text_is(name, "disk") {
                match data_dir {
                    Some(dir) => {
                        return StorageConfig {
                            backend: StorageBackend::Disk { data_dir: dir.clone() },
                        };
                    },
                    None => {
                        note(issues, true, Issue::DataDirRequired);
                    },
                }
            } else if text_is(name, "rocksdb") {
                note(issues, true, Issue::RocksDb);
            } else {
                note(issues, true, Issue::UnknownBackend { input: name.clone() });
            }
            StorageConfig::default()
        },
    }
}

/// Reads the log format and checks it.
fn check_logging(format: &Option<String>, issues: &mut Vec<Issue>) -> (r: LoggingConfig)
    ensures
        r.format == format_of(opt_text(*format)).0,
        issues_view(final(issues)@) == issues_view(old(issues)@) + format_of(opt_text(*format)).1,
{
    let ghost before = issues_view(issues@);
    assert(before + Seq::<IssueView>::empty() =~= before);
    proof {
        reveal_strlit("pretty");
        reveal_strlit("json");
        assert("pretty"@.len() == 6 && "json"@.len() == 4);
    }
    match format {
        None => LoggingConfig::default(),
        Some(name) => {
            if text_is(name, "pretty") {
                LoggingConfig::default()
            } else if text_is(name, "json") {
                LoggingConfig { format: LogFormat::Json }
            } else {
                note(issues, true, Issue::UnknownFormat { input: name.clone() });
                LoggingConfig::default()
            }
        },
    }
}

/// Reports issues, in order.
fn report(issues: &Vec<Issue>) -> (r: Vec<String>)
    ensures
        texts_view(r@) == reports(issues_view(issues@)),
{
    let ghost all = reports(issues_view(issues@));
    let mut errors: Vec<String> = Vec::new();
    let mut i: usize = 0;
    while i < issues.len()
        invariant
            i <= issues@.len(),
            all == reports(issues_view(issues@)),
            texts_view(errors@) =~= all.take(i as int),
        decreases issues@.len() - i,
    {
        let text = issues[i].message();
        let ghost held = errors@;
        errors.push(text);
        i += 1;
        assert(texts_view(errors@) =~= texts_view(held).push(text@));
    }
    assert(texts_view(errors@) =~= all);
    errors
}

/// Checks a configuration and resolves it.
///
/// Collects ALL errors before returning so the user sees the full picture at once.
pub fn validate(raw: RawConfig) -> (r: Result<Config, ConfigError>)
    ensures
        match (validated(raw@), r) {
            (Ok(expected), Ok(config)) => config@ == expected,
            (Err(expected), Err(error)) => error@ == expected,
            _ => false,
        },
{
    let ghost view = raw@;
    proof {
        reveal(validated);
    }
    let mut issues: Vec<Issue> = Vec::new();
    assert(issues_view(issues@) =~= Seq::<IssueView>::empty());
    let raft = check_timing(&raw.raft, &mut issues);
    let ghost i1 = issues_view(issues@);
    let node_id = check_node_id(raw.cluster.node_id, &mut issues);
    let ghost i2 = issues_view(issues@);
    let raft_bind = parse_addr_field(
        &raw.cluster.listen_addr,
        AddrField::ListenAddr,
        &mut issues,
    );
    let ghost i3 = issues_view(issues@);
    let kv_bind = parse_addr_field(&raw.cluster.client_addr, AddrField::ClientAddr, &mut issues);
    let ghost i4 = issues_view(issues@);
    let raw_peers: Vec<RawPeer> = match raw.cluster.peers {
        Some(rows) => rows,
        None => Vec::new(),
    };
    assert(rows_view(raw_peers@) =~= view.peers);
    note(&mut issues, raw_peers.len() == 0, Issue::PeersEmpty);
    let peer_members = check_members(MemberList::Peers, &raw_peers, &mut issues);
    // Rows present but every entry rejected (bad addrs / reserved ids) — avoid a
    // silent empty set.
    note(
        &mut issues,
        peer_members.len() == 0 && raw_peers.len() > 0,
        Issue::NoValidPeers,
    );
    let ghost i5 = issues_view(issues@);
    assert(i5 =~= i4 + peer_list_issues(view.peers));
    let peers = peer_map(&peer_members);
    check_own_peer(node_id, &raft_bind, &peers, peer_members.len() > 0, &mut issues);
    let ghost i6 = issues_view(issues@);
    let raw_endpoints: Vec<RawPeer> = match raw.cluster.client_endpoints {
        Some(rows) => rows,
        None => Vec::new(),
    };
    assert(rows_view(raw_endpoints@) =~= view.client_endpoints);
    let endpoint_members = check_members(
        MemberList::ClientEndpoints,
        &raw_endpoints,
        &mut issues,
    );
    let ghost i7 = issues_view(issues@);
    let kv_advertise = addr_map(&endpoint_members);
    check_matching(node_id, &kv_bind, &peers, &kv_advertise, &mut issues);
    let ghost i8 = issues_view(issues@);
    let storage = check_storage(&raw.storage.backend, &raw.storage.data_dir, &mut issues);
    let logging = check_logging(&raw.logging.format, &mut issues);
    assert(issues_view(issues@) =~= issues_of(view));
    if issues.len() > 0 {
        return Err(ConfigError::Validation { errors: report(&issues) });
    }
    proof {
        let parts = issues_of(view);
        assert(i3.len() == 0 && i4.len() == 0);
    }
    match (raft_bind, kv_bind) {
        (Some(raft_bind), Some(kv_bind)) => {
            let config = Config {
                cluster: ClusterConfig { node_id, raft_bind, kv_bind, peers, kv_advertise },
                raft,
                storage,
                logging,
            };
            assert(config@ =~= config_of(view));
            Ok(config)
        },
        // A missing address is always an issue, and there is none.
        _ => Err(ConfigError::Validation { errors: Vec::new() }),
    }
}

impl Config {
    /// Load, merge overrides, and validate configuration.
    ///
    /// `source` is what the configuration file was parsed to, and `None` where no
    /// file was named. [`Overrides`] cannot supply `node_id` / bind addresses, so
    /// flags alone cannot describe a cluster: no file and no flag is a single clear
    /// validation error instead of a pile of "required" fields.
    pub fn load(source: Option<Result<RawConfig, ConfigError>>, overrides: Overrides) -> (r: Result<
        Config,
        ConfigError,
    >)
        ensures
            match (loaded(source_view(source), overrides@), r) {
                (Ok(expected), Ok(config)) => config@ == expected,
                (Err(expected), Err(error)) => error@ == expected,
                _ => false,
            },
    {
        match source {
            Some(parsed) => Config::from_toml_str(parsed, overrides),
            None => {
                if overrides.is_empty() {
                    let mut errors: Vec<String> = Vec::new();
                    errors.push(Issue::NoSource.message());
                    assert(texts_view(errors@) =~= seq![IssueView::NoSource.text()]);
                    return Err(ConfigError::Validation { errors });
                }
                // Flags present but still incomplete without a file: validate after the
                // merge so the user sees every missing field, led by a source hint.

                let mut raw = RawConfig::default();
                apply_overrides(&mut raw, overrides);
                match validate(raw) {
                    Ok(config) => Ok(config),
                    Err(ConfigError::Validation { errors }) => {
                        let mut errors = errors;
                        let ghost held = texts_view(errors@);
                        errors.insert(0, Issue::NoFile.message());
                        assert(texts_view(errors@) =~= seq![IssueView::NoFile.text()] + held);
                        Err(ConfigError::Validation { errors })
                    },
                    Err(other) => Err(other),
                }
            },
        }
    }

    /// Merges overrides into a parsed TOML text and validates the result. Used by
    /// `ferrite init` to validate generated node files before writing them to disk.
    pub fn from_toml_str(parsed: Result<RawConfig, ConfigError>, overrides: Overrides) -> (r:
        Result<Config, ConfigError>)
        ensures
            match (loaded(Some(parsed_view(parsed)), overrides@), r) {
                (Ok(expected), Ok(config)) => config@ == expected,
                (Err(expected), Err(error)) => error@ == expected,
                _ => false,
            },
    {
        match parsed {
            Ok(raw) => {
                let mut raw = raw;
                apply_overrides(&mut raw, overrides);
                validate(raw)
            },
            Err(e) => Err(e),
        }
    }
}

/// What a parse result holds.
pub open spec fn parsed_view(parsed: Result<RawConfig, ConfigError>) -> Result<
    RawView,
    ConfigErrorView,
> {
    match parsed {
        Ok(raw) => Ok(raw@),
        Err(e) => Err(e@),
    }
}

/// What an optional parse result holds.
pub open spec fn source_view(source: Option<Result<RawConfig, ConfigError>>) -> Option<
    Result<RawView, ConfigErrorView>,
> {
    match source {
        Some(parsed) => Some(parsed_view(parsed)),
        None => None,
    }
}

} // verus!
