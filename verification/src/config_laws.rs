//! What holds of every configuration that is accepted, and which configurations
//! are.

use vstd::prelude::*;

use crate::cli::{loopback, loopback_members, InitArgs};
use crate::config::{
    rows_of, BackendView, ConfigView, LogFormat, MemberView, NodeId, OverridesView, RaftConfig,
    RawAddrView, RawRaftConfig, RawView, DEFAULT_COMPACTION_THRESHOLD,
    DEFAULT_ELECTION_TIMEOUT_MAX_MS, DEFAULT_ELECTION_TIMEOUT_MIN_MS, DEFAULT_HEARTBEAT_MS,
    DEFAULT_RPC_TIMEOUT_MS, MAX_TIMING_MS,
};
use crate::issue::{AddrField, IssueView, MemberList};
use crate::maps::{keys_in_order, lemma_u64_lt_total, u64_lt};
use crate::seqs::lemma_sorted_list;
use crate::text::{decimal, law_decimal_parses};
use crate::validation::{
    accepted, addr_of, backend_of, by_id, collisions, endpoints_of, format_of, has_id, holder_of,
    is_endpoint, issues_of, loaded, matching_issues, missing_endpoints, node_id_issues, node_id_of,
    or_default, own_peer_issues, peer_list_issues, peers_of, surplus_endpoints, timing_issues,
    timing_of, validated,
};

verus! {

/// The timing ascends, and stays within the limit.
pub open spec fn timing_is_sound(t: RaftConfig) -> bool {
    &&& 0 < t.heartbeat_interval.ms < t.rpc_timeout.ms < t.election_timeout_min.ms
        < t.election_timeout_max.ms <= MAX_TIMING_MS
    &&& t.compaction_threshold > 0
}

/// No two members share an address.
pub open spec fn addresses_differ(members: Map<NodeId, Seq<char>>) -> bool {
    forall|a: NodeId, b: NodeId|
        #![trigger members.contains_key(a), members.contains_key(b)]
        members.contains_key(a) && members.contains_key(b) && members[a] == members[b] ==> a == b
}

/// What a node may rely on: it is one of the peers and binds what they know of
/// it, every peer has one endpoint and every endpoint a peer, and no address is
/// used twice.
pub open spec fn is_sound(config: ConfigView) -> bool {
    let peers = config.cluster.peers;
    let endpoints = config.cluster.kv_advertise;
    let id = config.cluster.node_id;
    &&& id != 0
    &&& peers.contains_key(id)
    &&& peers[id] == config.cluster.raft_bind
    &&& endpoints.contains_key(id)
    &&& endpoints[id] == config.cluster.kv_bind
    &&& !peers.contains_key(0)
    &&& peers.dom() =~= endpoints.dom()
    &&& peers.dom().finite()
    &&& addresses_differ(peers)
    &&& addresses_differ(endpoints)
    &&& forall|a: NodeId, b: NodeId|
        #![trigger peers.contains_key(a), endpoints.contains_key(b)]
        peers.contains_key(a) && endpoints.contains_key(b) ==> peers[a] != endpoints[b]
    &&& timing_is_sound(config.raft)
}

// ── Member lists ────────────────────────────────────────────────────────────

/// Ids and addresses occur once, and zero is no id.
pub open spec fn distinct(members: Seq<MemberView>) -> bool {
    &&& forall|i: int| 0 <= i < members.len() ==> (#[trigger] members[i]).id != 0
    &&& forall|i: int, j: int|
        0 <= i < j < members.len() ==> (#[trigger] members[i]).id != (#[trigger] members[j]).id
            && members[i].addr != members[j].addr
}

pub proof fn lemma_holder_none(members: Seq<MemberView>, addr: Seq<char>)
    ensures
        holder_of(members, addr) is None <==> forall|i: int|
            0 <= i < members.len() ==> (#[trigger] members[i]).addr != addr,
    decreases members.len(),
{
    if members.len() > 0 {
        let before = members.drop_last();
        lemma_holder_none(before, addr);
        assert(members[members.len() - 1] == members.last());
        assert forall|i: int| 0 <= i < before.len() implies #[trigger] before[i] == members[i] by {}
        if holder_of(members, addr) is None {
            assert forall|i: int| 0 <= i < members.len() implies (#[trigger] members[i]).addr
                != addr by {
                if i < before.len() {
                    assert(before[i].addr != addr);
                }
            }
        } else if members.last().addr != addr {
            let i = choose|i: int| 0 <= i < before.len() && (#[trigger] before[i]).addr == addr;
            assert(members[i].addr == addr);
        }
    }
}

/// Whatever rows are given, those that are accepted are distinct.
proof fn lemma_accepted_distinct(list: MemberList, rows: Seq<crate::config::RowView>)
    ensures
        distinct(accepted(list, rows).0),
    decreases rows.len(),
{
    if rows.len() > 0 {
        lemma_accepted_distinct(list, rows.drop_last());
        let members = accepted(list, rows.drop_last()).0;
        let row = rows.last();
        if let Ok(addr) = row.addr.parsed {
            lemma_holder_none(members, addr);
        }
        let after = accepted(list, rows).0;
        if after != members {
            assert forall|i: int, j: int| 0 <= i < j < after.len() implies (
            #[trigger] after[i]).id != (#[trigger] after[j]).id && after[i].addr
                != after[j].addr by {
                assert(after[i] == members[i]);
            }
        }
    }
}

/// The members of a map made of distinct members.
pub proof fn lemma_by_id(members: Seq<MemberView>)
    requires
        distinct(members),
    ensures
        by_id(members).dom().finite(),
        forall|id: NodeId| #[trigger] by_id(members).contains_key(id) <==> has_id(members, id),
        forall|i: int|
            0 <= i < members.len() ==> by_id(members).contains_key((#[trigger] members[i]).id)
                && by_id(members)[members[i].id] == members[i].addr,
        addresses_differ(by_id(members)),
        !by_id(members).contains_key(0),
    decreases members.len(),
{
    let map = by_id(members);
    if members.len() > 0 {
        let before = members.drop_last();
        let last = members.last();
        assert(members[members.len() - 1] == last);
        assert forall|i: int| 0 <= i < before.len() implies #[trigger] before[i] == members[i] by {}
        lemma_by_id(before);
        assert forall|id: NodeId| #[trigger] map.contains_key(id) <==> has_id(members, id) by {
            if has_id(before, id) {
                let i = choose|i: int| 0 <= i < before.len() && (#[trigger] before[i]).id == id;
                assert(members[i].id == id);
            }
            if has_id(members, id) && id != last.id {
                let i = choose|i: int| 0 <= i < members.len() && (#[trigger] members[i]).id == id;
                assert(before[i].id == id);
            }
        }
        assert forall|i: int| 0 <= i < members.len() implies map.contains_key(
            (#[trigger] members[i]).id,
        ) && map[members[i].id] == members[i].addr by {
            if i < before.len() {
                assert(before[i].id != last.id);
            }
        }
    }
    assert forall|a: NodeId, b: NodeId|
        #![trigger map.contains_key(a), map.contains_key(b)]
        map.contains_key(a) && map.contains_key(b) && map[a] == map[b] implies a == b by {
        let i = choose|i: int| 0 <= i < members.len() && (#[trigger] members[i]).id == a;
        let j = choose|j: int| 0 <= j < members.len() && (#[trigger] members[j]).id == b;
        assert(map[members[i].id] == members[i].addr);
        assert(map[members[j].id] == members[j].addr);
    }
}

/// Distinct members are all accepted.
proof fn lemma_distinct_accepted(list: MemberList, members: Seq<MemberView>)
    requires
        distinct(members),
    ensures
        accepted(list, rows_of(members)).0 == members,
        accepted(list, rows_of(members)).1.len() == 0,
    decreases members.len(),
{
    if members.len() == 0 {
        assert(accepted(list, rows_of(members)).0 =~= members);
    } else {
        let before = members.drop_last();
        let last = members.last();
        assert(members[members.len() - 1] == last);
        assert forall|i: int| 0 <= i < before.len() implies #[trigger] before[i] == members[i] by {}
        lemma_distinct_accepted(list, before);
        assert(rows_of(members).drop_last() =~= rows_of(before));
        lemma_holder_none(before, last.addr);
        assert(!has_id(before, last.id));
        assert(before.push(last) =~= members);
    }
}

// ── Between the lists ───────────────────────────────────────────────────────

proof fn lemma_missing(ids: Seq<NodeId>, endpoints: Map<NodeId, Seq<char>>)
    ensures
        missing_endpoints(ids, endpoints).len() == 0 <==> forall|i: int|
            0 <= i < ids.len() ==> endpoints.contains_key(#[trigger] ids[i]),
    decreases ids.len(),
{
    if ids.len() > 0 {
        let before = ids.drop_last();
        lemma_missing(before, endpoints);
        assert(ids[ids.len() - 1] == ids.last());
        assert forall|i: int| 0 <= i < before.len() implies #[trigger] before[i] == ids[i] by {}
        if missing_endpoints(ids, endpoints).len() == 0 {
            assert forall|i: int| 0 <= i < ids.len() implies endpoints.contains_key(
                #[trigger] ids[i],
            ) by {
                if i < before.len() {
                    assert(endpoints.contains_key(before[i]));
                }
            }
        }
        if forall|i: int| 0 <= i < ids.len() ==> endpoints.contains_key(#[trigger] ids[i]) {
            assert forall|i: int| 0 <= i < before.len() implies endpoints.contains_key(
                #[trigger] before[i],
            ) by {
                assert(endpoints.contains_key(ids[i]));
            }
        }
    }
}

proof fn lemma_surplus(ids: Seq<NodeId>, peers: Map<NodeId, Seq<char>>)
    ensures
        surplus_endpoints(ids, peers).len() == missing_endpoints(ids, peers).len(),
    decreases ids.len(),
{
    if ids.len() > 0 {
        lemma_surplus(ids.drop_last(), peers);
    }
}

proof fn lemma_collisions(
    ids: Seq<NodeId>,
    peers: Map<NodeId, Seq<char>>,
    endpoints: Map<NodeId, Seq<char>>,
)
    ensures
        collisions(ids, peers, endpoints).len() == 0 <==> forall|i: int|
            0 <= i < ids.len() ==> !is_endpoint(peers[#[trigger] ids[i]], endpoints),
    decreases ids.len(),
{
    if ids.len() > 0 {
        let before = ids.drop_last();
        lemma_collisions(before, peers, endpoints);
        assert(ids[ids.len() - 1] == ids.last());
        assert forall|i: int| 0 <= i < before.len() implies #[trigger] before[i] == ids[i] by {}
        if collisions(ids, peers, endpoints).len() == 0 {
            assert forall|i: int| 0 <= i < ids.len() implies !is_endpoint(
                peers[#[trigger] ids[i]],
                endpoints,
            ) by {
                if i < before.len() {
                    assert(!is_endpoint(peers[before[i]], endpoints));
                }
            }
        }
        if forall|i: int| 0 <= i < ids.len() ==> !is_endpoint(peers[#[trigger] ids[i]], endpoints) {
            assert forall|i: int| 0 <= i < before.len() implies !is_endpoint(
                peers[#[trigger] before[i]],
                endpoints,
            ) by {
                assert(!is_endpoint(peers[ids[i]], endpoints));
            }
        }
    }
}

pub proof fn lemma_keys(map: Map<NodeId, Seq<char>>)
    requires
        map.dom().finite(),
    ensures
        forall|id: NodeId| map.contains_key(id) <==> #[trigger] keys_in_order(map).contains(id),
{
    lemma_u64_lt_total();
    lemma_sorted_list(map.dom(), u64_lt());
}

/// There is nothing wrong between peers and endpoints exactly where each peer
/// has an endpoint and each endpoint a peer, the node binds its endpoint, and no
/// address is both.
pub proof fn lemma_matching(
    node_id: NodeId,
    bind: Option<Seq<char>>,
    peers: Map<NodeId, Seq<char>>,
    endpoints: Map<NodeId, Seq<char>>,
)
    requires
        peers.dom().finite(),
        endpoints.dom().finite(),
    ensures
        matching_issues(node_id, bind, peers, endpoints).len() == 0 <==> {
            &&& peers.dom() =~= endpoints.dom()
            &&& bind is Some && endpoints.contains_key(node_id) ==> bind->0 == endpoints[node_id]
            &&& forall|a: NodeId, b: NodeId|
                #![trigger peers.contains_key(a), endpoints.contains_key(b)]
                peers.contains_key(a) && endpoints.contains_key(b) ==> peers[a] != endpoints[b]
        },
{
    let p = keys_in_order(peers);
    let e = keys_in_order(endpoints);
    lemma_keys(peers);
    lemma_keys(endpoints);
    lemma_missing(p, endpoints);
    lemma_missing(e, peers);
    lemma_surplus(e, peers);
    lemma_collisions(p, peers, endpoints);
    if matching_issues(node_id, bind, peers, endpoints).len() == 0 {
        assert forall|id: NodeId| peers.contains_key(id) implies endpoints.contains_key(id) by {
            assert(p.contains(id));
        }
        assert forall|id: NodeId| endpoints.contains_key(id) implies peers.contains_key(id) by {
            assert(e.contains(id));
        }
        assert forall|a: NodeId, b: NodeId|
            #![trigger peers.contains_key(a), endpoints.contains_key(b)]
            peers.contains_key(a) && endpoints.contains_key(b) implies peers[a] != endpoints[b] by {
            assert(p.contains(a));
            let i = choose|i: int| 0 <= i < p.len() && p[i] == a;
            assert(!is_endpoint(peers[p[i]], endpoints));
        }
    }
    if peers.dom() =~= endpoints.dom() && (bind is Some && endpoints.contains_key(node_id)
        ==> bind->0 == endpoints[node_id]) && (forall|a: NodeId, b: NodeId|
        #![trigger peers.contains_key(a), endpoints.contains_key(b)]
        peers.contains_key(a) && endpoints.contains_key(b) ==> peers[a] != endpoints[b]) {
        assert forall|i: int| 0 <= i < p.len() implies endpoints.contains_key(#[trigger] p[i]) by {
            assert(p.contains(p[i]));
            assert(peers.dom().contains(p[i]));
        }
        assert forall|i: int| 0 <= i < e.len() implies peers.contains_key(#[trigger] e[i]) by {
            assert(e.contains(e[i]));
            assert(endpoints.dom().contains(e[i]));
        }
        assert forall|i: int| 0 <= i < p.len() implies !is_endpoint(
            peers[#[trigger] p[i]],
            endpoints,
        ) by {
            assert(p.contains(p[i]));
            assert(peers.contains_key(p[i]));
        }
    }
}

pub proof fn lemma_timing(t: RaftConfig)
    ensures
        timing_issues(t).len() == 0 <==> timing_is_sound(t),
{
}

// ── Laws ────────────────────────────────────────────────────────────────────

/// Every configuration that is accepted is sound.
#[verifier::rlimit(40)]
pub proof fn law_accepted_configurations_are_sound(raw: RawView)
    requires
        validated(raw) is Ok,
    ensures
        is_sound(validated(raw)->Ok_0),
{
    reveal(validated);
    let members = accepted(MemberList::Peers, raw.peers).0;
    let endpoints = accepted(MemberList::ClientEndpoints, raw.client_endpoints).0;
    let node_id = node_id_of(raw.node_id);
    lemma_accepted_distinct(MemberList::Peers, raw.peers);
    lemma_accepted_distinct(MemberList::ClientEndpoints, raw.client_endpoints);
    lemma_by_id(members);
    lemma_by_id(endpoints);
    lemma_matching(
        node_id,
        addr_of(raw.client_addr, AddrField::ClientAddr).0,
        peers_of(raw),
        endpoints_of(raw),
    );
    lemma_timing(timing_of(raw.raft));
    lemma_parts(raw);
}

/// The issues of a file, setting by setting.
pub open spec fn parts_of(raw: RawView) -> Seq<Seq<IssueView>> {
    let node_id = node_id_of(raw.node_id);
    let (raft_bind, listen_issues) = addr_of(raw.listen_addr, AddrField::ListenAddr);
    let (kv_bind, client_issues) = addr_of(raw.client_addr, AddrField::ClientAddr);
    seq![
        timing_issues(timing_of(raw.raft)),
        node_id_issues(raw.node_id),
        listen_issues,
        client_issues,
        peer_list_issues(raw.peers),
        own_peer_issues(
            node_id,
            raft_bind,
            peers_of(raw),
            accepted(MemberList::Peers, raw.peers).0.len() > 0,
        ),
        accepted(MemberList::ClientEndpoints, raw.client_endpoints).1,
        matching_issues(node_id, kv_bind, peers_of(raw), endpoints_of(raw)),
        backend_of(raw.backend, raw.data_dir).1,
        format_of(raw.format).1,
    ]
}

pub proof fn lemma_parts(raw: RawView)
    ensures
        issues_of(raw).len() == 0 <==> forall|i: int|
            0 <= i < parts_of(raw).len() ==> (#[trigger] parts_of(raw)[i]).len() == 0,
{
    let p = parts_of(raw);
    assert(issues_of(raw).len() == p[0].len() + p[1].len() + p[2].len() + p[3].len() + p[4].len()
        + p[5].len() + p[6].len() + p[7].len() + p[8].len() + p[9].len());
}

/// A flag wins over the file, and the file over the default.
pub proof fn law_flag_then_file_then_default(raw: RawView, flags: OverridesView)
    requires
        loaded(Some(Ok(raw)), flags) is Ok,
    ensures
        ({
            let t = (loaded(Some(Ok(raw)), flags)->Ok_0).raft;
            &&& t.heartbeat_interval.ms == or_default(
                flags.heartbeat_interval_ms,
                or_default(raw.raft.heartbeat_interval_ms, DEFAULT_HEARTBEAT_MS),
            )
            &&& t.rpc_timeout.ms == or_default(
                flags.rpc_timeout_ms,
                or_default(raw.raft.rpc_timeout_ms, DEFAULT_RPC_TIMEOUT_MS),
            )
            &&& t.election_timeout_min.ms == or_default(
                flags.election_timeout_min_ms,
                or_default(raw.raft.election_timeout_min_ms, DEFAULT_ELECTION_TIMEOUT_MIN_MS),
            )
            &&& t.election_timeout_max.ms == or_default(
                flags.election_timeout_max_ms,
                or_default(raw.raft.election_timeout_max_ms, DEFAULT_ELECTION_TIMEOUT_MAX_MS),
            )
            &&& t.compaction_threshold == or_default(
                raw.raft.compaction_threshold,
                DEFAULT_COMPACTION_THRESHOLD,
            )
        }),
{
    reveal(validated);
}

/// Members given by flags replace those of the file: what is accepted holds the
/// flags' members and no other.
pub proof fn law_member_flags_replace_the_file(raw: RawView, flags: OverridesView)
    requires
        loaded(Some(Ok(raw)), flags) is Ok,
    ensures
        flags.peers.len() > 0 ==> {
            let peers = (loaded(Some(Ok(raw)), flags)->Ok_0).cluster.peers;
            forall|id: NodeId| #[trigger]
                peers.contains_key(id) ==> flags.peers.contains(MemberView { id, addr: peers[id] })
        },
        flags.kv_advertise.len() > 0 ==> {
            let endpoints = (loaded(Some(Ok(raw)), flags)->Ok_0).cluster.kv_advertise;
            forall|id: NodeId| #[trigger]
                endpoints.contains_key(id) ==> flags.kv_advertise.contains(
                    MemberView { id, addr: endpoints[id] },
                )
        },
{
    reveal(validated);
    let merged = raw.overridden(flags);
    if flags.peers.len() > 0 {
        lemma_accepted_from(MemberList::Peers, flags.peers);
    }
    if flags.kv_advertise.len() > 0 {
        lemma_accepted_from(MemberList::ClientEndpoints, flags.kv_advertise);
    }
}

/// What is accepted of members is among them.
proof fn lemma_accepted_from(list: MemberList, members: Seq<MemberView>)
    ensures
        forall|i: int|
            0 <= i < accepted(list, rows_of(members)).0.len() ==> members.contains(
                #[trigger] accepted(list, rows_of(members)).0[i],
            ),
        forall|id: NodeId| #[trigger]
            by_id(accepted(list, rows_of(members)).0).contains_key(id) ==> members.contains(
                MemberView { id, addr: by_id(accepted(list, rows_of(members)).0)[id] },
            ),
    decreases members.len(),
{
    if members.len() > 0 {
        let before = members.drop_last();
        let last = members.last();
        lemma_accepted_from(list, before);
        assert(rows_of(members).drop_last() =~= rows_of(before));
        assert(members[members.len() - 1] == last);
        assert forall|m: MemberView| before.contains(m) implies members.contains(m) by {
            let i = choose|i: int| 0 <= i < before.len() && before[i] == m;
            assert(members[i] == m);
        }
        let old = accepted(list, rows_of(before)).0;
        let new = accepted(list, rows_of(members)).0;
        if new != old {
            assert(new == old.push(last));
            assert(new.drop_last() =~= old);
        }
        assert forall|i: int| 0 <= i < new.len() implies members.contains(#[trigger] new[i]) by {
            if i < old.len() {
                assert(before.contains(old[i]));
            }
        }
        assert forall|id: NodeId| #[trigger] by_id(new).contains_key(id) implies members.contains(
            MemberView { id, addr: by_id(new)[id] },
        ) by {
            if id == last.id && new != old {
                assert(by_id(new)[id] == last.addr);
            } else {
                assert(before.contains(MemberView { id, addr: by_id(old)[id] }));
            }
        }
    }
}

/// The settings that the file of the node at place `i` holds.
pub open spec fn generated(args: InitArgs, i: int) -> RawView {
    let listen = loopback((args.base_port + i) as nat);
    let client = loopback((args.client_port + i) as nat);
    RawView {
        node_id: Some((i + 1) as u64),
        listen_addr: Some(RawAddrView { text: listen, parsed: Ok(listen) }),
        client_addr: Some(RawAddrView { text: client, parsed: Ok(client) }),
        peers: rows_of(args.peers()),
        client_endpoints: rows_of(args.endpoints()),
        raft: RawRaftConfig {
            heartbeat_interval_ms: Some(50),
            rpc_timeout_ms: Some(100),
            election_timeout_min_ms: Some(300),
            election_timeout_max_ms: Some(600),
            compaction_threshold: Some(1000),
        },
        backend: Some("disk"@),
        data_dir: Some(args.data_dir((i + 1) as nat)),
        format: Some("pretty"@),
    }
}

proof fn lemma_loopback_differs(a: nat, b: nat)
    requires
        a <= u64::MAX,
        b <= u64::MAX,
        loopback(a) == loopback(b),
    ensures
        a == b,
{
    reveal_strlit("127.0.0.1:");
    let head = "127.0.0.1:"@;
    assert(decimal(a) =~= loopback(a).skip(head.len() as int));
    assert(decimal(b) =~= loopback(b).skip(head.len() as int));
    law_decimal_parses(a as u64);
    law_decimal_parses(b as u64);
}

proof fn lemma_loopback_distinct(first: u16, n: nat)
    requires
        first + n <= 65536,
    ensures
        distinct(loopback_members(first, n)),
{
    let members = loopback_members(first, n);
    assert forall|i: int, j: int| 0 <= i < j < members.len() implies (#[trigger] members[i]).id != (
    #[trigger] members[j]).id && members[i].addr != members[j].addr by {
        if members[i].addr == members[j].addr {
            lemma_loopback_differs((first + i) as nat, (first + j) as nat);
        }
    }
}

/// Every file that `init` generates is accepted, and each node of the cluster
/// gets its own: the ports and the directory that go with its id.
pub proof fn law_generated_files_are_accepted(args: InitArgs, i: int)
    requires
        args.complaint() is None,
        0 <= i < args.nodes,
    ensures
        validated(generated(args, i)) is Ok,
        ({
            let config = validated(generated(args, i))->Ok_0;
            &&& config.cluster.node_id == i + 1
            &&& config.cluster.raft_bind == loopback((args.base_port + i) as nat)
            &&& config.cluster.kv_bind == loopback((args.client_port + i) as nat)
            &&& config.raft == RaftConfig::defaults()
            &&& config.backend == (BackendView::Disk { data_dir: args.data_dir((i + 1) as nat) })
            &&& config.format == LogFormat::Pretty
            &&& forall|id: NodeId| #[trigger]
                config.cluster.peers.contains_key(id) <==> 1 <= id <= args.nodes
            &&& is_sound(config)
        }),
{
    reveal(validated);
    let raw = generated(args, i);
    let n = args.nodes as nat;
    let peers = args.peers();
    let endpoints = args.endpoints();
    assert(args.base_port + n <= 65536 && args.client_port + n <= 65536);
    lemma_loopback_distinct(args.base_port, n);
    lemma_loopback_distinct(args.client_port, n);
    lemma_distinct_accepted(MemberList::Peers, peers);
    lemma_distinct_accepted(MemberList::ClientEndpoints, endpoints);
    lemma_by_id(peers);
    lemma_by_id(endpoints);
    let p = peers_of(raw);
    let e = endpoints_of(raw);
    assert forall|id: NodeId| #[trigger] p.contains_key(id) <==> 1 <= id <= n by {
        if 1 <= id <= n {
            assert(peers[id - 1].id == id);
        }
    }
    assert forall|id: NodeId| #[trigger] e.contains_key(id) <==> 1 <= id <= n by {
        if 1 <= id <= n {
            assert(endpoints[id - 1].id == id);
        }
    }
    assert forall|a: NodeId, b: NodeId|
        #![trigger p.contains_key(a), e.contains_key(b)]
        p.contains_key(a) && e.contains_key(b) implies p[a] != e[b] by {
        assert(p[peers[a - 1].id] == peers[a - 1].addr);
        assert(e[endpoints[b - 1].id] == endpoints[b - 1].addr);
        if p[a] == e[b] {
            lemma_loopback_differs(
                (args.base_port + a - 1) as nat,
                (args.client_port + b - 1) as nat,
            );
        }
    }
    assert(p[peers[i].id] == peers[i].addr);
    assert(e[endpoints[i].id] == endpoints[i].addr);
    assert(p.dom() =~= e.dom()) by {
        assert forall|id: NodeId| p.dom().contains(id) <==> e.dom().contains(id) by {
            assert(p.contains_key(id) <==> e.contains_key(id));
        }
    }
    let node_id = (i + 1) as u64;
    let kv_bind = addr_of(raw.client_addr, AddrField::ClientAddr).0;
    reveal_strlit("127.0.0.1:");
    reveal_strlit("memory");
    reveal_strlit("disk");
    reveal_strlit("pretty");
    assert("disk"@ != "memory"@) by {
        assert("disk"@.len() != "memory"@.len());
    }
    lemma_matching(node_id, kv_bind, p, e);
    lemma_timing(timing_of(raw.raft));
    lemma_parts(raw);
    let parts = parts_of(raw);
    assert forall|k: int| 0 <= k < parts.len() implies (#[trigger] parts[k]).len() == 0 by {
        assert(parts[4].len() == 0);
        assert(parts[5].len() == 0);
        assert(parts[7].len() == 0);
    }
    law_accepted_configurations_are_sound(raw);
}

} // verus!
