//! Which configuration files are accepted, and what is made of them.

use vstd::prelude::*;

use crate::config::{
    BackendView, LogFormat, MemberView, NodeId, RawAddrView, RawRaftConfig, RawView, RowView,
};
use crate::config_laws::{
    distinct, lemma_by_id, lemma_holder_none, lemma_matching, lemma_parts, lemma_timing, parts_of,
};
use crate::issue::{AddrField, MemberList};
use crate::validation::{
    accepted, addr_of, by_id, endpoints_of, has_id, node_id_of, peers_of, timing_of, validated,
};

verus! {

/// An address is given and is one.
pub open spec fn names_an_address(addr: Option<RawAddrView>) -> bool {
    addr is Some && addr->0.text.len() > 0 && addr->0.parsed is Ok
}

/// Every row has an id other than zero and an address, and no two rows share
/// either.
pub open spec fn rows_are_good(rows: Seq<RowView>) -> bool {
    &&& forall|i: int|
        0 <= i < rows.len() ==> (#[trigger] rows[i]).id != 0 && rows[i].addr.parsed is Ok
    &&& forall|i: int, j: int|
        0 <= i < j < rows.len() ==> (#[trigger] rows[i]).id != (#[trigger] rows[j]).id
            && rows[i].addr.parsed->Ok_0 != rows[j].addr.parsed->Ok_0
}

/// A row has this id.
pub open spec fn lists_id(rows: Seq<RowView>, id: NodeId) -> bool {
    exists|i: int| 0 <= i < rows.len() && (#[trigger] rows[i]).id == id
}

/// A row has this id and this address.
pub open spec fn lists_member(rows: Seq<RowView>, id: NodeId, addr: Seq<char>) -> bool {
    exists|i: int|
        0 <= i < rows.len() && (#[trigger] rows[i]).id == id && rows[i].addr.parsed->Ok_0 == addr
}

/// No address stands in both lists.
pub open spec fn share_no_address(peers: Seq<RowView>, endpoints: Seq<RowView>) -> bool {
    forall|i: int, j: int|
        0 <= i < peers.len() && 0 <= j < endpoints.len() ==> (
        #[trigger] peers[i]).addr.parsed->Ok_0 != (#[trigger] endpoints[j]).addr.parsed->Ok_0
}

/// The number that a file gives, or else the default.
pub open spec fn given_or(v: Option<u64>, default: u64) -> u64 {
    if v is Some {
        v->0
    } else {
        default
    }
}

/// The timing ascends from above zero and stays within ten minutes, and some
/// entries make a snapshot due.
pub open spec fn times_well(raw: RawRaftConfig) -> bool {
    &&& 0 < given_or(raw.heartbeat_interval_ms, 50) < given_or(raw.rpc_timeout_ms, 100) < given_or(
        raw.election_timeout_min_ms,
        300,
    ) < given_or(raw.election_timeout_max_ms, 600) <= 600_000
    &&& given_or(raw.compaction_threshold, 1000) > 0
}

/// What a file must say: who the node is, where it listens, all members with their
/// addresses, itself among them, and nothing unknown.
pub open spec fn describes_a_node(raw: RawView) -> bool {
    &&& raw.node_id is Some && raw.node_id->0 != 0
    &&& names_an_address(raw.listen_addr)
    &&& names_an_address(raw.client_addr)
    &&& rows_are_good(raw.peers)
    &&& rows_are_good(raw.client_endpoints)
    &&& lists_member(raw.peers, raw.node_id->0, raw.listen_addr->0.parsed->Ok_0)
    &&& lists_member(raw.client_endpoints, raw.node_id->0, raw.client_addr->0.parsed->Ok_0)
    &&& forall|id: NodeId| #[trigger]
        lists_id(raw.peers, id) <==> lists_id(raw.client_endpoints, id)
    &&& share_no_address(raw.peers, raw.client_endpoints)
    &&& times_well(raw.raft)
    &&& raw.backend is None || raw.backend->0 == "memory"@ || (raw.backend->0 == "disk"@
        && raw.data_dir is Some)
    &&& raw.format is None || raw.format->0 == "pretty"@ || raw.format->0 == "json"@
}

/// The map holds the members of the rows and no others.
pub open spec fn holds_rows(map: Map<NodeId, Seq<char>>, rows: Seq<RowView>) -> bool {
    &&& forall|id: NodeId| #[trigger] map.contains_key(id) <==> lists_id(rows, id)
    &&& forall|i: int|
        0 <= i < rows.len() ==> map[(#[trigger] rows[i]).id] == rows[i].addr.parsed->Ok_0
}

/// The members that rows name.
pub open spec fn members_of(rows: Seq<RowView>) -> Seq<MemberView> {
    Seq::new(
        rows.len(),
        |i: int| MemberView { id: rows[i].id, addr: rows[i].addr.parsed->Ok_0 },
    )
}

pub proof fn lemma_good_rows(list: MemberList, rows: Seq<RowView>)
    ensures
        accepted(list, rows).1.len() == 0 <==> rows_are_good(rows),
        rows_are_good(rows) ==> accepted(list, rows).0 == members_of(rows),
    decreases rows.len(),
{
    if rows.len() == 0 {
        assert(members_of(rows) =~= Seq::empty());
    } else {
        let n = rows.len() - 1;
        let before = rows.drop_last();
        let row = rows[n];
        assert(rows.last() == row);
        lemma_good_rows(list, before);
        assert forall|i: int| 0 <= i < n implies #[trigger] before[i] == rows[i] by {}
        let members = accepted(list, before).0;
        if rows_are_good(rows) {
            assert(rows_are_good(before)) by {
                assert forall|i: int| 0 <= i < n implies (#[trigger] before[i]).id != 0
                    && before[i].addr.parsed is Ok by {
                    assert(rows[i].id != 0);
                }
                assert forall|i: int, j: int| 0 <= i < j < n implies (#[trigger] before[i]).id != (
                #[trigger] before[j]).id && before[i].addr.parsed->Ok_0
                    != before[j].addr.parsed->Ok_0 by {
                    assert(rows[i].id != rows[j].id);
                }
            }
        }
        if rows_are_good(before) {
            assert(members == members_of(before));
            if row.addr.parsed is Ok {
                lemma_holder_none(members, row.addr.parsed->Ok_0);
            }
            if rows_are_good(rows) {
                assert(row.id != 0);
                assert forall|i: int| 0 <= i < members.len() implies (#[trigger] members[i]).id
                    != row.id && members[i].addr != row.addr.parsed->Ok_0 by {
                    assert(rows[i].id != rows[n].id);
                }
                assert(members.push(MemberView { id: row.id, addr: row.addr.parsed->Ok_0 })
                    =~= members_of(rows));
            }
            if accepted(list, rows).1.len() == 0 {
                assert forall|i: int, j: int| 0 <= i < j < rows.len() implies (
                #[trigger] rows[i]).id != (#[trigger] rows[j]).id && rows[i].addr.parsed->Ok_0
                    != rows[j].addr.parsed->Ok_0 by {
                    if j == n {
                        assert(members[i].id == rows[i].id);
                        assert(members[i].addr == rows[i].addr.parsed->Ok_0);
                    } else {
                        assert(before[i].id != before[j].id);
                    }
                }
                assert forall|i: int| 0 <= i < rows.len() implies (#[trigger] rows[i]).id != 0
                    && rows[i].addr.parsed is Ok by {
                    if i < n {
                        assert(before[i].id != 0);
                    }
                }
            }
        }
    }
}

pub proof fn lemma_holds_rows(list: MemberList, rows: Seq<RowView>)
    requires
        rows_are_good(rows),
    ensures
        holds_rows(by_id(accepted(list, rows).0), rows),
        by_id(accepted(list, rows).0).dom().finite(),
        accepted(list, rows).0.len() == rows.len(),
{
    lemma_good_rows(list, rows);
    let members = members_of(rows);
    let map = by_id(members);
    assert(distinct(members)) by {
        assert forall|i: int| 0 <= i < members.len() implies (#[trigger] members[i]).id != 0 by {
            assert(rows[i].id != 0);
        }
        assert forall|i: int, j: int| 0 <= i < j < members.len() implies (
        #[trigger] members[i]).id != (#[trigger] members[j]).id && members[i].addr
            != members[j].addr by {
            assert(rows[i].id != rows[j].id);
        }
    }
    lemma_by_id(members);
    assert forall|i: int| 0 <= i < rows.len() implies map[(#[trigger] rows[i]).id]
        == rows[i].addr.parsed->Ok_0 by {
        assert(members[i].id == rows[i].id);
    }
    assert forall|id: NodeId| #[trigger] map.contains_key(id) <==> lists_id(rows, id) by {
        if lists_id(rows, id) {
            let i = choose|i: int| 0 <= i < rows.len() && (#[trigger] rows[i]).id == id;
            assert(members[i].id == id);
        }
        if has_id(members, id) {
            let i = choose|i: int| 0 <= i < members.len() && (#[trigger] members[i]).id == id;
            assert(rows[i].id == id);
        }
    }
}

pub proof fn lemma_listed(map: Map<NodeId, Seq<char>>, rows: Seq<RowView>, id: NodeId, addr: Seq<char>)
    requires
        holds_rows(map, rows),
    ensures
        lists_member(rows, id, addr) <==> map.contains_key(id) && map[id] == addr,
{
    if lists_member(rows, id, addr) {
        let i = choose|i: int|
            0 <= i < rows.len() && (#[trigger] rows[i]).id == id && rows[i].addr.parsed->Ok_0
                == addr;
        assert(lists_id(rows, id));
        assert(map[rows[i].id] == addr);
    }
    if map.contains_key(id) {
        assert(lists_id(rows, id));
        let i = choose|i: int| 0 <= i < rows.len() && (#[trigger] rows[i]).id == id;
        assert(map[rows[i].id] == rows[i].addr.parsed->Ok_0);
    }
}

proof fn lemma_rows_match(
    p: Map<NodeId, Seq<char>>,
    peers: Seq<RowView>,
    e: Map<NodeId, Seq<char>>,
    endpoints: Seq<RowView>,
)
    requires
        holds_rows(p, peers),
        holds_rows(e, endpoints),
    ensures
        p.dom() =~= e.dom() <==> forall|id: NodeId| #[trigger]
            lists_id(peers, id) <==> lists_id(endpoints, id),
        share_no_address(peers, endpoints) <==> forall|a: NodeId, b: NodeId|
            #![trigger p.contains_key(a), e.contains_key(b)]
            p.contains_key(a) && e.contains_key(b) ==> p[a] != e[b],
{
    if p.dom() =~= e.dom() {
        assert forall|id: NodeId| #[trigger] lists_id(peers, id) <==> lists_id(endpoints, id) by {
            assert(p.dom().contains(id) <==> e.dom().contains(id));
            assert(p.contains_key(id) <==> lists_id(peers, id));
            assert(e.contains_key(id) <==> lists_id(endpoints, id));
        }
    }
    if forall|id: NodeId| #[trigger] lists_id(peers, id) <==> lists_id(endpoints, id) {
        assert forall|id: NodeId| p.dom().contains(id) <==> e.dom().contains(id) by {
            assert(p.contains_key(id) <==> lists_id(peers, id));
            assert(e.contains_key(id) <==> lists_id(endpoints, id));
        }
    }
    if share_no_address(peers, endpoints) {
        assert forall|a: NodeId, b: NodeId|
            #![trigger p.contains_key(a), e.contains_key(b)]
            p.contains_key(a) && e.contains_key(b) implies p[a] != e[b] by {
            let i = choose|i: int| 0 <= i < peers.len() && (#[trigger] peers[i]).id == a;
            let j = choose|j: int| 0 <= j < endpoints.len() && (#[trigger] endpoints[j]).id == b;
            assert(p[peers[i].id] == peers[i].addr.parsed->Ok_0);
            assert(e[endpoints[j].id] == endpoints[j].addr.parsed->Ok_0);
        }
    }
    if forall|a: NodeId, b: NodeId|
        #![trigger p.contains_key(a), e.contains_key(b)]
        p.contains_key(a) && e.contains_key(b) ==> p[a] != e[b] {
        assert forall|i: int, j: int|
            0 <= i < peers.len() && 0 <= j < endpoints.len() implies (
        #[trigger] peers[i]).addr.parsed->Ok_0 != (
        #[trigger] endpoints[j]).addr.parsed->Ok_0 by {
            assert(lists_id(peers, peers[i].id));
            assert(lists_id(endpoints, endpoints[j].id));
            assert(p.contains_key(peers[i].id) && e.contains_key(endpoints[j].id));
        }
    }
}

/// A file is accepted exactly where it describes a node.
pub proof fn law_which_files_are_accepted(raw: RawView)
    ensures
        validated(raw) is Ok <==> describes_a_node(raw),
{
    reveal(validated);
    lemma_parts(raw);
    lemma_timing(timing_of(raw.raft));
    lemma_good_rows(MemberList::Peers, raw.peers);
    lemma_good_rows(MemberList::ClientEndpoints, raw.client_endpoints);
    let parts = parts_of(raw);
    if validated(raw) is Ok {
        assert(parts[0].len() == 0 && parts[1].len() == 0 && parts[2].len() == 0 && parts[3].len()
            == 0 && parts[4].len() == 0 && parts[5].len() == 0 && parts[6].len() == 0
            && parts[7].len() == 0 && parts[8].len() == 0 && parts[9].len() == 0);
        assert(rows_are_good(raw.peers) && rows_are_good(raw.client_endpoints));
    }
    if rows_are_good(raw.peers) && rows_are_good(raw.client_endpoints) {
        let p = peers_of(raw);
        let e = endpoints_of(raw);
        lemma_holds_rows(MemberList::Peers, raw.peers);
        lemma_holds_rows(MemberList::ClientEndpoints, raw.client_endpoints);
        lemma_rows_match(p, raw.peers, e, raw.client_endpoints);
        let id = node_id_of(raw.node_id);
        lemma_matching(id, addr_of(raw.client_addr, AddrField::ClientAddr).0, p, e);
        lemma_listed(p, raw.peers, id, raw.listen_addr->0.parsed->Ok_0);
        lemma_listed(e, raw.client_endpoints, id, raw.client_addr->0.parsed->Ok_0);
        if describes_a_node(raw) {
            assert(raw.peers.len() > 0);
            assert(parts[4].len() == 0);
            assert(parts[5].len() == 0);
        }
        if validated(raw) is Ok {
            assert(p.contains_key(id));
            assert(p.dom().contains(id));
            assert(e.contains_key(id));
        }
    }
}

/// An accepted file says what the configuration holds, setting by setting, and
/// what it leaves out has its default.
pub proof fn law_configuration_holds_what_the_file_says(raw: RawView)
    requires
        validated(raw) is Ok,
    ensures
        ({
            let config = validated(raw)->Ok_0;
            &&& Some(config.cluster.node_id) == raw.node_id
            &&& Ok::<Seq<char>, Seq<char>>(config.cluster.raft_bind) == raw.listen_addr->0.parsed
            &&& Ok::<Seq<char>, Seq<char>>(config.cluster.kv_bind) == raw.client_addr->0.parsed
            &&& holds_rows(config.cluster.peers, raw.peers)
            &&& holds_rows(config.cluster.kv_advertise, raw.client_endpoints)
            &&& config.raft.heartbeat_interval.ms == given_or(raw.raft.heartbeat_interval_ms, 50)
            &&& config.raft.rpc_timeout.ms == given_or(raw.raft.rpc_timeout_ms, 100)
            &&& config.raft.election_timeout_min.ms == given_or(
                raw.raft.election_timeout_min_ms,
                300,
            )
            &&& config.raft.election_timeout_max.ms == given_or(
                raw.raft.election_timeout_max_ms,
                600,
            )
            &&& config.raft.compaction_threshold == given_or(raw.raft.compaction_threshold, 1000)
            &&& config.backend == if raw.backend is Some && raw.backend->0 == "disk"@ {
                BackendView::Disk { data_dir: raw.data_dir->0 }
            } else {
                BackendView::Memory
            }
            &&& config.format == if raw.format is Some && raw.format->0 == "json"@ {
                LogFormat::Json
            } else {
                LogFormat::Pretty
            }
        }),
{
    law_which_files_are_accepted(raw);
    reveal(validated);
    lemma_holds_rows(MemberList::Peers, raw.peers);
    lemma_holds_rows(MemberList::ClientEndpoints, raw.client_endpoints);
    reveal_strlit("disk");
    reveal_strlit("memory");
    reveal_strlit("json");
    reveal_strlit("pretty");
    assert("disk"@ != "memory"@) by {
        assert("disk"@.len() != "memory"@.len());
    }
    assert("json"@ != "pretty"@) by {
        assert("json"@.len() != "pretty"@.len());
    }
}

} // verus!
