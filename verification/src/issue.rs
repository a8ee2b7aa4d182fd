//! What can be wrong with a configuration, and how it is reported.

use vstd::prelude::*;

use crate::config::{NodeId, MAX_TIMING_MS};
use crate::text::{debug_quoted, debug_text, decimal, push_str, push_u64};

verus! {

/// A numeric setting of the `[raft]` table.
#[derive(Debug, Clone, Copy, PartialEq, Eq, Structural)]
pub enum TimingField {
    HeartbeatInterval,
    RpcTimeout,
    ElectionTimeoutMin,
    ElectionTimeoutMax,
    CompactionThreshold,
}

impl TimingField {
    /// The key of the setting in its table.
    pub open spec fn key(self) -> Seq<char> {
        match self {
            TimingField::HeartbeatInterval => "heartbeat_interval_ms"@,
            TimingField::RpcTimeout => "rpc_timeout_ms"@,
            TimingField::ElectionTimeoutMin => "election_timeout_min_ms"@,
            TimingField::ElectionTimeoutMax => "election_timeout_max_ms"@,
            TimingField::CompactionThreshold => "compaction_threshold"@,
        }
    }

    fn push_key(&self, out: &mut String)
        ensures
            final(out)@ == old(out)@ + self.key(),
    {
        let text: &str = match self {
            TimingField::HeartbeatInterval => "heartbeat_interval_ms",
            TimingField::RpcTimeout => "rpc_timeout_ms",
            TimingField::ElectionTimeoutMin => "election_timeout_min_ms",
            TimingField::ElectionTimeoutMax => "election_timeout_max_ms",
            TimingField::CompactionThreshold => "compaction_threshold",
        };
        push_str(out, text);
    }
}

/// An address that a node binds.
#[derive(Debug, Clone, Copy, PartialEq, Eq, Structural)]
pub enum AddrField {
    ListenAddr,
    ClientAddr,
}

impl AddrField {
    /// The full key of the setting.
    pub open spec fn key(self) -> Seq<char> {
        match self {
            AddrField::ListenAddr => "cluster.listen_addr"@,
            AddrField::ClientAddr => "cluster.client_addr"@,
        }
    }

    fn push_key(&self, out: &mut String)
        ensures
            final(out)@ == old(out)@ + self.key(),
    {
        let text: &str = match self {
            AddrField::ListenAddr => "cluster.listen_addr",
            AddrField::ClientAddr => "cluster.client_addr",
        };
        push_str(out, text);
    }
}

/// A list of members with their addresses.
#[derive(Debug, Clone, Copy, PartialEq, Eq, Structural)]
pub enum MemberList {
    Peers,
    ClientEndpoints,
}

impl MemberList {
    /// The full key of the list.
    pub open spec fn key(self) -> Seq<char> {
        match self {
            MemberList::Peers => "cluster.peers"@,
            MemberList::ClientEndpoints => "cluster.client_endpoints"@,
        }
    }

    fn push_key(&self, out: &mut String)
        ensures
            final(out)@ == old(out)@ + self.key(),
    {
        let text: &str = match self {
            MemberList::Peers => "cluster.peers",
            MemberList::ClientEndpoints => "cluster.client_endpoints",
        };
        push_str(out, text);
    }
}

/// One thing that is wrong with a configuration.
#[derive(Debug, PartialEq, Eq)]
pub enum Issue {
    /// A number that must not be zero.
    Zero { field: TimingField },
    /// A time above the limit.
    AboveMaximum { field: TimingField, ms: u64 },
    /// A time that must be below another one.
    NotBelow { low: TimingField, low_ms: u64, high: TimingField, high_ms: u64 },
    NodeIdRequired,
    NodeIdZero,
    AddrRequired { addr_field: AddrField },
    AddrInvalid { addr_field: AddrField, input: String, reason: String },
    PeersEmpty,
    /// A member with the reserved id zero.
    ReservedId { list: MemberList },
    DuplicateId { list: MemberList, id: NodeId },
    MemberAddrInvalid { list: MemberList, id: NodeId, input: String, reason: String },
    DuplicateAddr { list: MemberList, addr: String, first: NodeId, id: NodeId },
    NoValidPeers,
    NodeNotAPeer { id: NodeId },
    ListenAddrMismatch { bind: String, id: NodeId, addr: String },
    MissingEndpoint { id: NodeId },
    EndpointWithoutPeer { id: NodeId },
    ClientAddrMismatch { bind: String, id: NodeId, addr: String },
    /// A Raft address that is a client address, too.
    Collision { id: NodeId, addr: String },
    DataDirRequired,
    RocksDb,
    UnknownBackend { input: String },
    UnknownFormat { input: String },
    /// Neither a file nor a flag says anything.
    NoSource,
    /// Flags alone cannot say everything.
    NoFile,
}

/// What an [`Issue`] holds.
pub enum IssueView {
    Zero { field: TimingField },
    AboveMaximum { field: TimingField, ms: u64 },
    NotBelow { low: TimingField, low_ms: u64, high: TimingField, high_ms: u64 },
    NodeIdRequired,
    NodeIdZero,
    AddrRequired { addr_field: AddrField },
    AddrInvalid { addr_field: AddrField, input: Seq<char>, reason: Seq<char> },
    PeersEmpty,
    ReservedId { list: MemberList },
    DuplicateId { list: MemberList, id: NodeId },
    MemberAddrInvalid { list: MemberList, id: NodeId, input: Seq<char>, reason: Seq<char> },
    DuplicateAddr { list: MemberList, addr: Seq<char>, first: NodeId, id: NodeId },
    NoValidPeers,
    NodeNotAPeer { id: NodeId },
    ListenAddrMismatch { bind: Seq<char>, id: NodeId, addr: Seq<char> },
    MissingEndpoint { id: NodeId },
    EndpointWithoutPeer { id: NodeId },
    ClientAddrMismatch { bind: Seq<char>, id: NodeId, addr: Seq<char> },
    Collision { id: NodeId, addr: Seq<char> },
    DataDirRequired,
    RocksDb,
    UnknownBackend { input: Seq<char> },
    UnknownFormat { input: Seq<char> },
    NoSource,
    NoFile,
}

impl View for Issue {
    type V = IssueView;

    open spec fn view(&self) -> IssueView {
        match self {
            Issue::Zero { field } => IssueView::Zero { field: *field },
            Issue::AboveMaximum { field, ms } => IssueView::AboveMaximum {
                field: *field,
                ms: *ms,
            },
            Issue::NotBelow { low, low_ms, high, high_ms } => IssueView::NotBelow {
                low: *low,
                low_ms: *low_ms,
                high: *high,
                high_ms: *high_ms,
            },
            Issue::NodeIdRequired => IssueView::NodeIdRequired,
            Issue::NodeIdZero => IssueView::NodeIdZero,
            Issue::AddrRequired { addr_field } => IssueView::AddrRequired {
                addr_field: *addr_field,
            },
            Issue::AddrInvalid { addr_field, input, reason } => IssueView::AddrInvalid {
                addr_field: *addr_field,
                input: input@,
                reason: reason@,
            },
            Issue::PeersEmpty => IssueView::PeersEmpty,
            Issue::ReservedId { list } => IssueView::ReservedId { list: *list },
            Issue::DuplicateId { list, id } => IssueView::DuplicateId { list: *list, id: *id },
            Issue::MemberAddrInvalid { list, id, input, reason } => IssueView::MemberAddrInvalid {
                list: *list,
                id: *id,
                input: input@,
                reason: reason@,
            },
            Issue::DuplicateAddr { list, addr, first, id } => IssueView::DuplicateAddr {
                list: *list,
                addr: addr@,
                first: *first,
                id: *id,
            },
            Issue::NoValidPeers => IssueView::NoValidPeers,
            Issue::NodeNotAPeer { id } => IssueView::NodeNotAPeer { id: *id },
            Issue::ListenAddrMismatch { bind, id, addr } => IssueView::ListenAddrMismatch {
                bind: bind@,
                id: *id,
                addr: addr@,
            },
            Issue::MissingEndpoint { id } => IssueView::MissingEndpoint { id: *id },
            Issue::EndpointWithoutPeer { id } => IssueView::EndpointWithoutPeer { id: *id },
            Issue::ClientAddrMismatch { bind, id, addr } => IssueView::ClientAddrMismatch {
                bind: bind@,
                id: *id,
                addr: addr@,
            },
            Issue::Collision { id, addr } => IssueView::Collision { id: *id, addr: addr@ },
            Issue::DataDirRequired => IssueView::DataDirRequired,
            Issue::RocksDb => IssueView::RocksDb,
            Issue::UnknownBackend { input } => IssueView::UnknownBackend { input: input@ },
            Issue::UnknownFormat { input } => IssueView::UnknownFormat { input: input@ },
            Issue::NoSource => IssueView::NoSource,
            Issue::NoFile => IssueView::NoFile,
        }
    }
}

/// What a list of issues holds, in order.
pub open spec fn issues_view(issues: Seq<Issue>) -> Seq<IssueView> {
    Seq::new(issues.len(), |i: int| issues[i]@)
}

impl IssueView {
    /// How the issue is reported.
    pub open spec fn text(self) -> Seq<char> {
        match self {
            IssueView::Zero { field } => "raft."@ + field.key() + ": must not be 0"@,
            IssueView::AboveMaximum { field, ms } => "raft."@ + field.key() + " ("@ + decimal(
                ms as nat,
            ) + ") exceeds maximum allowed "@ + decimal(MAX_TIMING_MS as nat)
                + " ms (10 minutes)"@,
            IssueView::NotBelow { low, low_ms, high, high_ms } => "raft."@ + low.key() + " ("@
                + decimal(low_ms as nat) + ") must be < "@ + high.key() + " ("@ + decimal(
                high_ms as nat,
            ) + ")"@,
            IssueView::NodeIdRequired => "cluster.node_id: required"@,
            IssueView::NodeIdZero => "cluster.node_id: must not be 0"@,
            IssueView::AddrRequired { addr_field } => addr_field.key() + ": required"@,
            IssueView::AddrInvalid { addr_field, input, reason } => addr_field.key()
                + ": invalid socket address "@ + debug_text(input) + ": "@ + reason,
            IssueView::PeersEmpty => "cluster.peers: must not be empty"@,
            IssueView::ReservedId { list } => list.key() + ": id 0 is reserved"@,
            IssueView::DuplicateId { list, id } => list.key() + (if list == MemberList::Peers {
                ": duplicate peer id "@
            } else {
                ": duplicate id "@
            }) + decimal(id as nat),
            IssueView::MemberAddrInvalid { list, id, input, reason } => list.key() + "["@
                + decimal(id as nat) + "].addr: invalid address "@ + debug_text(input) + ": "@
                + reason,
            IssueView::DuplicateAddr { list, addr, first, id } => list.key()
                + ": duplicate addr "@ + addr + " (ids "@ + decimal(first as nat) + " and "@
                + decimal(id as nat) + ")"@,
            IssueView::NoValidPeers =>
                "cluster.peers: no valid peer entries after parsing (check id/addr errors above)"@,
            IssueView::NodeNotAPeer { id } => "cluster.node_id ("@ + decimal(id as nat)
                + ") is absent from cluster.peers"@,
            IssueView::ListenAddrMismatch { bind, id, addr } => "cluster.listen_addr ("@ + bind
                + ") does not match peers["@ + decimal(id as nat) + "].addr ("@ + addr + ")"@,
            IssueView::MissingEndpoint { id } =>
                "cluster.client_endpoints: missing entry for peer id "@ + decimal(id as nat)
                + " (if peers were replaced via --peer, also pass matching --client-endpoint flags)"@,
            IssueView::EndpointWithoutPeer { id } => "cluster.client_endpoints: id "@ + decimal(
                id as nat,
            )
                + " has no matching peer (if endpoints were replaced via --client-endpoint, also pass matching --peer flags)"@,
            IssueView::ClientAddrMismatch { bind, id, addr } => "cluster.client_addr ("@ + bind
                + ") does not match client_endpoints["@ + decimal(id as nat) + "].addr ("@ + addr
                + ")"@,
            IssueView::Collision { id, addr } => "cluster.peers["@ + decimal(id as nat)
                + "].addr ("@ + addr
                + ") collides with a client_endpoints addr; Raft and KV must not share a port"@,
            IssueView::DataDirRequired =>
                "storage.data_dir: required when storage.backend = \"disk\""@,
            IssueView::RocksDb =>
                "storage.backend: \"rocksdb\" is not supported; use \"disk\" (sled/segment) or \"memory\""@,
            IssueView::UnknownBackend { input } => "storage.backend: unknown value "@
                + debug_text(input) + "; expected \"memory\" or \"disk\""@,
            IssueView::UnknownFormat { input } => "logging.format: unknown value "@ + debug_text(
                input,
            ) + "; expected \"pretty\" or \"json\""@,
            IssueView::NoSource =>
                "no configuration source: pass --config <path> (cluster identity cannot be built from flags alone yet)"@,
            IssueView::NoFile =>
                "no --config path: Overrides cannot supply node_id/listen_addr/client_addr yet; provide a TOML file (flag-only cluster load is not supported)"@,
        }
    }
}

impl Issue {
    /// Renders the issue for a person.
    pub fn message(&self) -> (r: String)
        ensures
            r@ == self@.text(),
    {
        let mut out: String = String::new();
        match self {
            Issue::Zero { field } => {
                push_str(&mut out, "raft.");
                field.push_key(&mut out);
                push_str(&mut out, ": must not be 0");
            },
            Issue::AboveMaximum { field, ms } => {
                push_str(&mut out, "raft.");
                field.push_key(&mut out);
                push_str(&mut out, " (");
                push_u64(&mut out, *ms);
                push_str(&mut out, ") exceeds maximum allowed ");
                push_u64(&mut out, MAX_TIMING_MS);
                push_str(&mut out, " ms (10 minutes)");
            },
            Issue::NotBelow { low, low_ms, high, high_ms } => {
                push_str(&mut out, "raft.");
                low.push_key(&mut out);
                push_str(&mut out, " (");
                push_u64(&mut out, *low_ms);
                push_str(&mut out, ") must be < ");
                high.push_key(&mut out);
                push_str(&mut out, " (");
                push_u64(&mut out, *high_ms);
                push_str(&mut out, ")");
            },
            Issue::NodeIdRequired => push_str(&mut out, "cluster.node_id: required"),
            Issue::NodeIdZero => push_str(&mut out, "cluster.node_id: must not be 0"),
            Issue::AddrRequired { addr_field } => {
                addr_field.push_key(&mut out);
                push_str(&mut out, ": required");
            },
            Issue::AddrInvalid { addr_field, input, reason } => {
                addr_field.push_key(&mut out);
                push_str(&mut out, ": invalid socket address ");
                push_str(&mut out, debug_quoted(input.as_str()).as_str());
                push_str(&mut out, ": ");
                push_str(&mut out, reason.as_str());
            },
            Issue::PeersEmpty => push_str(&mut out, "cluster.peers: must not be empty"),
            Issue::ReservedId { list } => {
                list.push_key(&mut out);
                push_str(&mut out, ": id 0 is reserved");
            },
            Issue::DuplicateId { list, id } => {
                list.push_key(&mut out);
                match list {
                    MemberList::Peers => push_str(&mut out, ": duplicate peer id "),
                    MemberList::ClientEndpoints => push_str(&mut out, ": duplicate id "),
                }
                push_u64(&mut out, *id);
            },
            Issue::MemberAddrInvalid { list, id, input, reason } => {
                list.push_key(&mut out);
                push_str(&mut out, "[");
                push_u64(&mut out, *id);
                push_str(&mut out, "].addr: invalid address ");
                push_str(&mut out, debug_quoted(input.as_str()).as_str());
                push_str(&mut out, ": ");
                push_str(&mut out, reason.as_str());
            },
            Issue::DuplicateAddr { list, addr, first, id } => {
                list.push_key(&mut out);
                push_str(&mut out, ": duplicate addr ");
                push_str(&mut out, addr.as_str());
                push_str(&mut out, " (ids ");
                push_u64(&mut out, *first);
                push_str(&mut out, " and ");
                push_u64(&mut out, *id);
                push_str(&mut out, ")");
            },
            Issue::NoValidPeers => push_str(
                &mut out,
                "cluster.peers: no valid peer entries after parsing (check id/addr errors above)",
            ),
            Issue::NodeNotAPeer { id } => {
                push_str(&mut out, "cluster.node_id (");
                push_u64(&mut out, *id);
                push_str(&mut out, ") is absent from cluster.peers");
            },
            Issue::ListenAddrMismatch { bind, id, addr } => {
                push_str(&mut out, "cluster.listen_addr (");
                push_str(&mut out, bind.as_str());
                push_str(&mut out, ") does not match peers[");
                push_u64(&mut out, *id);
                push_str(&mut out, "].addr (");
                push_str(&mut out, addr.as_str());
                push_str(&mut out, ")");
            },
            Issue::MissingEndpoint { id } => {
                push_str(&mut out, "cluster.client_endpoints: missing entry for peer id ");
                push_u64(&mut out, *id);
                push_str(
                    &mut out,
                    " (if peers were replaced via --peer, also pass matching --client-endpoint flags)",
                );
            },
            Issue::EndpointWithoutPeer { id } => {
                push_str(&mut out, "cluster.client_endpoints: id ");
                push_u64(&mut out, *id);
                push_str(
                    &mut out,
                    " has no matching peer (if endpoints were replaced via --client-endpoint, also pass matching --peer flags)",
                );
            },
            Issue::ClientAddrMismatch { bind, id, addr } => {
                push_str(&mut out, "cluster.client_addr (");
                push_str(&mut out, bind.as_str());
                push_str(&mut out, ") does not match client_endpoints[");
                push_u64(&mut out, *id);
                push_str(&mut out, "].addr (");
                push_str(&mut out, addr.as_str());
                push_str(&mut out, ")");
            },
            Issue::Collision { id, addr } => {
                push_str(&mut out, "cluster.peers[");
                push_u64(&mut out, *id);
                push_str(&mut out, "].addr (");
                push_str(&mut out, addr.as_str());
                push_str(
                    &mut out,
                    ") collides with a client_endpoints addr; Raft and KV must not share a port",
                );
            },
            Issue::DataDirRequired => push_str(
                &mut out,
                "storage.data_dir: required when storage.backend = \"disk\"",
            ),
            Issue::RocksDb => push_str(
                &mut out,
                "storage.backend: \"rocksdb\" is not supported; use \"disk\" (sled/segment) or \"memory\"",
            ),
            Issue::UnknownBackend { input } => {
                push_str(&mut out, "storage.backend: unknown value ");
                push_str(&mut out, debug_quoted(input.as_str()).as_str());
                push_str(&mut out, "; expected \"memory\" or \"disk\"");
            },
            Issue::UnknownFormat { input } => {
                push_str(&mut out, "logging.format: unknown value ");
                push_str(&mut out, debug_quoted(input.as_str()).as_str());
                push_str(&mut out, "; expected \"pretty\" or \"json\"");
            },
            Issue::NoSource => push_str(
                &mut out,
                "no configuration source: pass --config <path> (cluster identity cannot be built from flags alone yet)",
            ),
            Issue::NoFile => push_str(
                &mut out,
                "no --config path: Overrides cannot supply node_id/listen_addr/client_addr yet; provide a TOML file (flag-only cluster load is not supported)",
            ),
        }
        assert(out@ =~= self@.text());
        out
    }
}

} // verus!
