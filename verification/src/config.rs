//! Node and cluster configuration.
//!
//! # Call sequence
//!
//! ```text
//! TOML file  ──┐
//! CLI flags  ──┤──▶  Config::load  ──▶  validate  ──▶  Config
//! defaults   ──┘
//! ```
//!
//! Priority: CLI flag > file value > compiled default.
//! Entry point: [`Config::load`]. Never construct [`Config`] directly.

pub use crate::validation::validate;

use std::collections::BTreeMap;

use vstd::prelude::*;

use crate::text::push_str;

verus! {

broadcast use vstd::std_specs::btree::group_btree_axioms;

// ── Type alias ──────────────────────────────────────────────────────────────

/// Stable integer identity for a Raft voter. `0` is reserved / invalid.
pub type NodeId = u64;

// ── Addresses ───────────────────────────────────────────────────────────────

/// A socket address, held as its canonical text (`127.0.0.1:7001`,
/// `[::1]:7001`). Two addresses are equal exactly when their texts are.
#[derive(Debug, PartialEq, Eq)]
pub struct SocketAddr {
    pub text: String,
}

impl View for SocketAddr {
    type V = Seq<char>;

    open spec fn view(&self) -> Seq<char> {
        self.text@
    }
}

impl Clone for SocketAddr {
    fn clone(&self) -> (r: Self)
        ensures
            r@ == self@,
    {
        SocketAddr { text: self.text.clone() }
    }
}

impl SocketAddr {
    /// Whether two addresses are equal.
    pub fn same(&self, other: &SocketAddr) -> (r: bool)
        ensures
            r == (self@ == other@),
    {
        self.text == other.text
    }

    /// Whether this is an IPv6 address, whose text puts the host in brackets.
    pub fn is_ipv6(&self) -> (r: bool)
        ensures
            r == (self@.len() > 0 && self@[0] == '['),
    {
        let chars = crate::text::chars_of(self.text.as_str());
        chars.len() > 0 && chars[0] == '['
    }
}

/// An address as it was written, and what the socket-address parser made of it.
#[derive(Debug, PartialEq, Eq)]
pub struct RawAddr {
    pub text: String,
    /// The address, or the parser's message.
    pub parsed: Result<SocketAddr, String>,
}

/// What a [`RawAddr`] holds.
pub struct RawAddrView {
    pub text: Seq<char>,
    pub parsed: Result<Seq<char>, Seq<char>>,
}

impl View for RawAddr {
    type V = RawAddrView;

    open spec fn view(&self) -> RawAddrView {
        RawAddrView {
            text: self.text@,
            parsed: match self.parsed {
                Ok(addr) => Ok(addr@),
                Err(reason) => Err(reason@),
            },
        }
    }
}

// ── Peer (Raft membership) ──────────────────────────────────────────────────

/// One Raft voter: identity + consensus endpoint.
///
/// Contains only what the Raft protocol needs. Client routing lives in
/// [`ClusterConfig::kv_advertise`], not here.
#[derive(Debug, PartialEq, Eq)]
pub struct RaftPeer {
    /// Address this peer binds for Raft RPCs (`RequestVote`, `AppendEntries`,
    /// `InstallSnapshot`). Must equal [`ClusterConfig::raft_bind`] for self.
    pub addr: SocketAddr,
}

impl View for RaftPeer {
    type V = Seq<char>;

    open spec fn view(&self) -> Seq<char> {
        self.addr@
    }
}

impl Clone for RaftPeer {
    fn clone(&self) -> (r: Self)
        ensures
            r@ == self@,
    {
        RaftPeer { addr: self.addr.clone() }
    }
}

// ── Cluster config ──────────────────────────────────────────────────────────

/// Cluster identity and addressing for one node.
///
/// # Voter set
/// [`peers`](ClusterConfig::peers) is the **bootstrap voter set**, including this node.
/// Every quorum decision uses `peers.len() / 2 + 1`. Never exclude self.
///
/// # Client advertise
/// [`kv_advertise`](ClusterConfig::kv_advertise) is **not** part of Raft membership.
/// Followers use it to populate `leader_hint` so clients know which KV address to dial.
/// Every voter must have an entry here.
#[derive(Debug, PartialEq, Eq)]
pub struct ClusterConfig {
    /// This node's stable identity within the cluster.
    pub node_id: NodeId,
    /// Local socket this node binds for **Raft RPC** traffic.
    ///
    /// Must match `peers[node_id].addr` exactly; validation rejects any mismatch.
    /// TOML key: `cluster.listen_addr`.
    pub raft_bind: SocketAddr,
    /// Local socket this node binds for **KV API** (client-facing) traffic.
    ///
    /// Must match `kv_advertise[node_id]` exactly. Must not overlap any Raft addr.
    /// TOML key: `cluster.client_addr`.
    pub kv_bind: SocketAddr,
    /// Bootstrap Raft voter set. Keyed by [`NodeId`]; values hold the consensus endpoint.
    ///
    /// - Includes self (`node_id` must be present).
    /// - Quorum = `peers.len() / 2 + 1`.
    /// - `BTreeMap` keeps iteration order deterministic (never `HashMap`).
    pub peers: BTreeMap<NodeId, RaftPeer>,
    /// Per-node KV addresses advertised to clients for `leader_hint` redirection.
    ///
    /// Keys must exactly match `peers` keys (bijection enforced at load time).
    /// Not used for quorum — Raft only reads `peers`.
    /// TOML key: `cluster.client_endpoints`.
    pub kv_advertise: BTreeMap<NodeId, SocketAddr>,
}

/// What a [`ClusterConfig`] holds.
#[verifier::ext_equal]
pub struct ClusterView {
    pub node_id: NodeId,
    pub raft_bind: Seq<char>,
    pub kv_bind: Seq<char>,
    pub peers: Map<NodeId, Seq<char>>,
    pub kv_advertise: Map<NodeId, Seq<char>>,
}

/// The addresses of peers.
pub open spec fn peers_view(peers: Map<NodeId, RaftPeer>) -> Map<NodeId, Seq<char>> {
    Map::new(|id: NodeId| peers.contains_key(id), |id: NodeId| peers[id]@)
}

/// The addresses of endpoints.
pub open spec fn addrs_view(addrs: Map<NodeId, SocketAddr>) -> Map<NodeId, Seq<char>> {
    Map::new(|id: NodeId| addrs.contains_key(id), |id: NodeId| addrs[id]@)
}

impl View for ClusterConfig {
    type V = ClusterView;

    open spec fn view(&self) -> ClusterView {
        ClusterView {
            node_id: self.node_id,
            raft_bind: self.raft_bind@,
            kv_bind: self.kv_bind@,
            peers: peers_view(self.peers@),
            kv_advertise: addrs_view(self.kv_advertise@),
        }
    }
}

impl Clone for ClusterConfig {
    fn clone(&self) -> (r: Self)
        ensures
            r@ == self@,
    {
        let peers = self.peers.clone();
        let kv_advertise = self.kv_advertise.clone();
        assert(peers_view(peers@) =~= peers_view(self.peers@));
        assert(addrs_view(kv_advertise@) =~= addrs_view(self.kv_advertise@));
        ClusterConfig {
            node_id: self.node_id,
            raft_bind: self.raft_bind.clone(),
            kv_bind: self.kv_bind.clone(),
            peers,
            kv_advertise,
        }
    }
}

impl ClusterConfig {
    /// Quorum size for this voter set: `peers.len() / 2 + 1`.
    pub fn quorum(&self) -> (r: usize)
        ensures
            r == self.peers@.dom().len() / 2 + 1,
    {
        self.peers.len() / 2 + 1
    }

    /// KV address to advertise for the given node id (used in `leader_hint`).
    pub fn kv_addr_for(&self, id: NodeId) -> (r: Option<SocketAddr>)
        ensures
            match r {
                Some(addr) => self@.kv_advertise.contains_key(id) && addr@
                    == self@.kv_advertise[id],
                None => !self@.kv_advertise.contains_key(id),
            },
    {
        match self.kv_advertise.get(&id) {
            Some(addr) => Some(addr.clone()),
            None => None,
        }
    }
}

// ── Raft timing config ──────────────────────────────────────────────────────

/// A span of time in milliseconds.
#[derive(Debug, Clone, Copy, PartialEq, Eq, Structural)]
pub struct Millis {
    pub ms: u64,
}

impl Millis {
    /// How many milliseconds the span has.
    pub fn as_millis(&self) -> (r: u128)
        ensures
            r == self.ms,
    {
        self.ms as u128
    }
}

/// Timing parameters for the Raft protocol.
///
/// # Invariant (enforced at load)
/// `heartbeat_interval < rpc_timeout < election_timeout_min < election_timeout_max`
///
/// Defaults satisfy `broadcastTime ≪ electionTimeout` per the Raft paper.
#[derive(Debug, Clone, Copy, PartialEq, Eq, Structural)]
pub struct RaftConfig {
    /// How often the leader sends heartbeats. Default: 50 ms.
    pub heartbeat_interval: Millis,
    /// Per-RPC deadline. Default: 100 ms.
    pub rpc_timeout: Millis,
    /// Lower bound of the random election timeout window. Default: 300 ms.
    pub election_timeout_min: Millis,
    /// Upper bound of the random election timeout window. Default: 600 ms.
    pub election_timeout_max: Millis,
    /// Log entries before a snapshot compaction is triggered. Default: 1000.
    pub compaction_threshold: u64,
}

/// Default heartbeat interval in milliseconds.
pub const DEFAULT_HEARTBEAT_MS: u64 = 50;

/// Default per-RPC deadline in milliseconds.
pub const DEFAULT_RPC_TIMEOUT_MS: u64 = 100;

/// Default election timeout lower bound in milliseconds.
pub const DEFAULT_ELECTION_TIMEOUT_MIN_MS: u64 = 300;

/// Default election timeout upper bound in milliseconds.
pub const DEFAULT_ELECTION_TIMEOUT_MAX_MS: u64 = 600;

/// Default log compaction threshold (entry count).
pub const DEFAULT_COMPACTION_THRESHOLD: u64 = 1000;

/// Reject any single timing field above this (10 minutes). Guards absurd TOML values.
pub const MAX_TIMING_MS: u64 = 600_000;

impl RaftConfig {
    /// The timing that applies where nothing is set.
    pub open spec fn defaults() -> RaftConfig {
        RaftConfig {
            heartbeat_interval: Millis { ms: DEFAULT_HEARTBEAT_MS },
            rpc_timeout: Millis { ms: DEFAULT_RPC_TIMEOUT_MS },
            election_timeout_min: Millis { ms: DEFAULT_ELECTION_TIMEOUT_MIN_MS },
            election_timeout_max: Millis { ms: DEFAULT_ELECTION_TIMEOUT_MAX_MS },
            compaction_threshold: DEFAULT_COMPACTION_THRESHOLD,
        }
    }

    /// Whether the election timeout leaves too little room above the heartbeat,
    /// so that elections start under scheduler jitter.
    pub fn spurious_elections_likely(&self) -> (r: bool)
        ensures
            r == (0 < self.election_timeout_min.ms < 5 * self.heartbeat_interval.ms),
    {
        let heartbeat: u64 = self.heartbeat_interval.ms;
        let room: u64 = self.election_timeout_min.ms;
        room > 0 && (heartbeat > u64::MAX / 5 || room < 5 * heartbeat)
    }
}

impl Default for RaftConfig {
    fn default() -> (r: Self)
        ensures
            r == RaftConfig::defaults(),
    {
        Self {
            heartbeat_interval: Millis { ms: DEFAULT_HEARTBEAT_MS },
            rpc_timeout: Millis { ms: DEFAULT_RPC_TIMEOUT_MS },
            election_timeout_min: Millis { ms: DEFAULT_ELECTION_TIMEOUT_MIN_MS },
            election_timeout_max: Millis { ms: DEFAULT_ELECTION_TIMEOUT_MAX_MS },
            compaction_threshold: DEFAULT_COMPACTION_THRESHOLD,
        }
    }
}

// ── Storage config ──────────────────────────────────────────────────────────

/// Persistence backend selection.
///
/// `Disk` is the durable path (sled or a segment file behind `Storage` — **not** RocksDB).
#[derive(Debug, PartialEq, Eq)]
pub enum StorageBackend {
    Memory,
    /// On-disk store rooted at `data_dir`.
    Disk { data_dir: String },
}

/// What a [`StorageBackend`] holds.
pub enum BackendView {
    Memory,
    Disk { data_dir: Seq<char> },
}

impl View for StorageBackend {
    type V = BackendView;

    open spec fn view(&self) -> BackendView {
        match self {
            StorageBackend::Memory => BackendView::Memory,
            StorageBackend::Disk { data_dir } => BackendView::Disk { data_dir: data_dir@ },
        }
    }
}

impl Clone for StorageBackend {
    fn clone(&self) -> (r: Self)
        ensures
            r@ == self@,
    {
        match self {
            StorageBackend::Memory => StorageBackend::Memory,
            StorageBackend::Disk { data_dir } => StorageBackend::Disk { data_dir: data_dir.clone() },
        }
    }
}

impl Default for StorageBackend {
    fn default() -> (r: Self)
        ensures
            r@ == BackendView::Memory,
    {
        StorageBackend::Memory
    }
}

#[derive(Debug, PartialEq, Eq)]
pub struct StorageConfig {
    pub backend: StorageBackend,
}

impl Clone for StorageConfig {
    fn clone(&self) -> (r: Self)
        ensures
            r.backend@ == self.backend@,
    {
        StorageConfig { backend: self.backend.clone() }
    }
}

impl Default for StorageConfig {
    fn default() -> (r: Self)
        ensures
            r.backend@ == BackendView::Memory,
    {
        StorageConfig { backend: StorageBackend::default() }
    }
}

// ── Logging config ──────────────────────────────────────────────────────────

#[derive(Debug, Clone, Copy, PartialEq, Eq, Structural)]
pub enum LogFormat {
    Pretty,
    Json,
}

impl Default for LogFormat {
    fn default() -> (r: Self)
        ensures
            r == LogFormat::Pretty,
    {
        LogFormat::Pretty
    }
}

#[derive(Debug, Clone, Copy, PartialEq, Eq, Structural)]
pub struct LoggingConfig {
    pub format: LogFormat,
}

impl Default for LoggingConfig {
    fn default() -> (r: Self)
        ensures
            r.format == LogFormat::Pretty,
    {
        LoggingConfig { format: LogFormat::default() }
    }
}

// ── Root config ─────────────────────────────────────────────────────────────

/// Complete node configuration. Built by [`Config::load`]; never constructed directly.
#[derive(Debug)]
pub struct Config {
    pub cluster: ClusterConfig,
    pub raft: RaftConfig,
    pub storage: StorageConfig,
    pub logging: LoggingConfig,
}

/// What a [`Config`] holds.
#[verifier::ext_equal]
pub struct ConfigView {
    pub cluster: ClusterView,
    pub raft: RaftConfig,
    pub backend: BackendView,
    pub format: LogFormat,
}

impl View for Config {
    type V = ConfigView;

    open spec fn view(&self) -> ConfigView {
        ConfigView {
            cluster: self.cluster@,
            raft: self.raft,
            backend: self.storage.backend@,
            format: self.logging.format,
        }
    }
}

impl Clone for Config {
    fn clone(&self) -> (r: Self)
        ensures
            r@ == self@,
    {
        Config {
            cluster: self.cluster.clone(),
            raft: self.raft,
            storage: self.storage.clone(),
            logging: self.logging,
        }
    }
}

// ── CLI overrides ───────────────────────────────────────────────────────────

/// Values supplied via CLI flags that override file or defaults.
///
/// A non-empty `peers` or `kv_advertise` **replaces** the file's list entirely — no union.
/// Partial merge of two cluster definitions is an error, not a feature.
#[derive(Debug)]
pub struct Overrides {
    /// `--peer 1@127.0.0.1:7001`. Replaces file `cluster.peers` entirely if non-empty.
    pub peers: Vec<(NodeId, SocketAddr)>,
    /// `--client-endpoint 1@127.0.0.1:8001`. Replaces file `cluster.client_endpoints` if non-empty.
    pub kv_advertise: Vec<(NodeId, SocketAddr)>,
    /// `--heartbeat-interval-ms <n>`.
    pub heartbeat_interval_ms: Option<u64>,
    /// `--rpc-timeout-ms <n>`.
    pub rpc_timeout_ms: Option<u64>,
    /// `--election-timeout-min-ms <n>`.
    pub election_timeout_min_ms: Option<u64>,
    /// `--election-timeout-max-ms <n>`.
    pub election_timeout_max_ms: Option<u64>,
}

/// A member and its address.
pub struct MemberView {
    pub id: NodeId,
    pub addr: Seq<char>,
}

/// What an [`Overrides`] holds.
pub struct OverridesView {
    pub peers: Seq<MemberView>,
    pub kv_advertise: Seq<MemberView>,
    pub heartbeat_interval_ms: Option<u64>,
    pub rpc_timeout_ms: Option<u64>,
    pub election_timeout_min_ms: Option<u64>,
    pub election_timeout_max_ms: Option<u64>,
}

/// What a list of members holds, in order.
pub open spec fn members_view(members: Seq<(NodeId, SocketAddr)>) -> Seq<MemberView> {
    Seq::new(members.len(), |i: int| MemberView { id: members[i].0, addr: members[i].1@ })
}

impl View for Overrides {
    type V = OverridesView;

    open spec fn view(&self) -> OverridesView {
        OverridesView {
            peers: members_view(self.peers@),
            kv_advertise: members_view(self.kv_advertise@),
            heartbeat_interval_ms: self.heartbeat_interval_ms,
            rpc_timeout_ms: self.rpc_timeout_ms,
            election_timeout_min_ms: self.election_timeout_min_ms,
            election_timeout_max_ms: self.election_timeout_max_ms,
        }
    }
}

impl OverridesView {
    /// Overrides that override nothing.
    pub open spec fn none() -> OverridesView {
        OverridesView {
            peers: Seq::empty(),
            kv_advertise: Seq::empty(),
            heartbeat_interval_ms: None,
            rpc_timeout_ms: None,
            election_timeout_min_ms: None,
            election_timeout_max_ms: None,
        }
    }

    /// Whether nothing is overridden.
    pub open spec fn is_empty(self) -> bool {
        &&& self.peers.len() == 0
        &&& self.kv_advertise.len() == 0
        &&& self.heartbeat_interval_ms is None
        &&& self.rpc_timeout_ms is None
        &&& self.election_timeout_min_ms is None
        &&& self.election_timeout_max_ms is None
    }
}

impl Default for Overrides {
    fn default() -> (r: Self)
        ensures
            r@ == OverridesView::none(),
    {
        let r = Overrides {
            peers: Vec::new(),
            kv_advertise: Vec::new(),
            heartbeat_interval_ms: None,
            rpc_timeout_ms: None,
            election_timeout_min_ms: None,
            election_timeout_max_ms: None,
        };
        assert(r@.peers =~= Seq::<MemberView>::empty());
        assert(r@.kv_advertise =~= Seq::<MemberView>::empty());
        r
    }
}

impl Overrides {
    /// Whether nothing is overridden.
    pub fn is_empty(&self) -> (r: bool)
        ensures
            r == self@.is_empty(),
    {
        self.peers.len() == 0 && self.kv_advertise.len() == 0
            && self.heartbeat_interval_ms.is_none() && self.rpc_timeout_ms.is_none()
            && self.election_timeout_min_ms.is_none() && self.election_timeout_max_ms.is_none()
    }
}

// ── Error ───────────────────────────────────────────────────────────────────

/// Errors produced during config load or validation.
///
/// CLI-specific parse errors (malformed `--peer` / `--client-endpoint` flags) live in
/// `cli::CliError`, not here.
#[derive(Debug, PartialEq, Eq)]
pub enum ConfigError {
    /// The file could not be read.
    Io(String),
    /// The file is no TOML of the expected shape.
    Toml(String),
    /// One or more named fields failed validation. All errors are collected before returning.
    Validation { errors: Vec<String> },
}

/// What a [`ConfigError`] holds.
pub enum ConfigErrorView {
    Io(Seq<char>),
    Toml(Seq<char>),
    Validation { errors: Seq<Seq<char>> },
}

/// What a list of texts holds, in order.
pub open spec fn texts_view(texts: Seq<String>) -> Seq<Seq<char>> {
    Seq::new(texts.len(), |i: int| texts[i]@)
}

impl View for ConfigError {
    type V = ConfigErrorView;

    open spec fn view(&self) -> ConfigErrorView {
        match self {
            ConfigError::Io(text) => ConfigErrorView::Io(text@),
            ConfigError::Toml(text) => ConfigErrorView::Toml(text@),
            ConfigError::Validation { errors } => ConfigErrorView::Validation {
                errors: texts_view(errors@),
            },
        }
    }
}

/// The texts with a line break between any two of them.
pub open spec fn joined_lines(texts: Seq<Seq<char>>) -> Seq<char>
    decreases texts.len(),
{
    if texts.len() == 0 {
        Seq::empty()
    } else if texts.len() == 1 {
        texts[0]
    } else {
        joined_lines(texts.drop_last()) + "\n"@ + texts.last()
    }
}

impl ConfigErrorView {
    /// How the error is reported.
    pub open spec fn text(self) -> Seq<char> {
        match self {
            ConfigErrorView::Io(text) => "could not read config file: "@ + text,
            ConfigErrorView::Toml(text) => "could not parse TOML: "@ + text,
            ConfigErrorView::Validation { errors } => "config validation failed:\n"@
                + joined_lines(errors),
        }
    }
}

impl ConfigError {
    /// Renders the error for a person.
    pub fn message(&self) -> (r: String)
        ensures
            r@ == self@.text(),
    {
        let mut out: String = String::new();
        match self {
            ConfigError::Io(text) => {
                push_str(&mut out, "could not read config file: ");
                push_str(&mut out, text.as_str());
                assert(out@ =~= self@.text());
            },
            ConfigError::Toml(text) => {
                push_str(&mut out, "could not parse TOML: ");
                push_str(&mut out, text.as_str());
                assert(out@ =~= self@.text());
            },
            ConfigError::Validation { errors } => {
                push_str(&mut out, "config validation failed:\n");
                let ghost head = "config validation failed:\n"@;
                assert(out@ =~= head);
                let ghost all = texts_view(errors@);
                let mut i: usize = 0;
                assert(head + joined_lines(all.take(0)) =~= head);
                while i < errors.len()
                    invariant
                        i <= errors@.len(),
                        all == texts_view(errors@),
                        out@ == head + joined_lines(all.take(i as int)),
                    decreases errors@.len() - i,
                {
                    let ghost before = out@;
                    if i > 0 {
                        push_str(&mut out, "\n");
                    }
                    push_str(&mut out, errors[i].as_str());
                    i += 1;
                    proof {
                        let seen = all.take(i as int);
                        assert(seen.drop_last() =~= all.take(i - 1));
                        assert(seen.last() == errors@[i - 1]@);
                        assert(out@ =~= head + joined_lines(seen));
                    }
                }
                assert(all.take(i as int) =~= all);
            },
        }
        out
    }
}

// ── Raw configuration ───────────────────────────────────────────────────────
//
// These mirror the TOML structure exactly. All cluster fields are `Option` so
// defaults and overrides can fill in what the file omits. Converted to domain
// types in `validate()`.

/// A row of a member list.
#[derive(Debug, PartialEq, Eq)]
pub struct RawPeer {
    pub id: NodeId,
    pub addr: RawAddr,
}

/// A row of the list of client endpoints.
pub type RawEndpoint = RawPeer;

/// What a [`RawPeer`] holds.
pub struct RowView {
    pub id: NodeId,
    pub addr: RawAddrView,
}

impl View for RawPeer {
    type V = RowView;

    open spec fn view(&self) -> RowView {
        RowView { id: self.id, addr: self.addr@ }
    }
}

/// The `[cluster]` table.
#[derive(Debug)]
pub struct RawClusterConfig {
    pub node_id: Option<NodeId>,
    /// Maps to [`ClusterConfig::raft_bind`].
    pub listen_addr: Option<RawAddr>,
    /// Maps to [`ClusterConfig::kv_bind`].
    pub client_addr: Option<RawAddr>,
    pub peers: Option<Vec<RawPeer>>,
    /// Maps to [`ClusterConfig::kv_advertise`].
    pub client_endpoints: Option<Vec<RawEndpoint>>,
}

/// The `[raft]` table.
#[derive(Debug, Clone, Copy, PartialEq, Eq, Structural)]
pub struct RawRaftConfig {
    pub heartbeat_interval_ms: Option<u64>,
    pub rpc_timeout_ms: Option<u64>,
    pub election_timeout_min_ms: Option<u64>,
    pub election_timeout_max_ms: Option<u64>,
    pub compaction_threshold: Option<u64>,
}

/// The `[storage]` table.
#[derive(Debug)]
pub struct RawStorageConfig {
    /// "memory" | "disk"
    pub backend: Option<String>,
    pub data_dir: Option<String>,
}

/// The `[logging]` table.
#[derive(Debug)]
pub struct RawLoggingConfig {
    /// "pretty" | "json"
    pub format: Option<String>,
}

/// A configuration file.
#[derive(Debug)]
pub struct RawConfig {
    pub cluster: RawClusterConfig,
    pub raft: RawRaftConfig,
    pub storage: RawStorageConfig,
    pub logging: RawLoggingConfig,
}

/// What a [`RawConfig`] holds. A list that is absent is an empty list.
#[verifier::ext_equal]
pub struct RawView {
    pub node_id: Option<NodeId>,
    pub listen_addr: Option<RawAddrView>,
    pub client_addr: Option<RawAddrView>,
    pub peers: Seq<RowView>,
    pub client_endpoints: Seq<RowView>,
    pub raft: RawRaftConfig,
    pub backend: Option<Seq<char>>,
    pub data_dir: Option<Seq<char>>,
    pub format: Option<Seq<char>>,
}

/// What an optional address holds.
pub open spec fn opt_addr(addr: Option<RawAddr>) -> Option<RawAddrView> {
    match addr {
        Some(a) => Some(a@),
        None => None,
    }
}

/// What an optional text holds.
pub open spec fn opt_text(text: Option<String>) -> Option<Seq<char>> {
    match text {
        Some(t) => Some(t@),
        None => None,
    }
}

/// What rows hold, in order.
pub open spec fn rows_view(rows: Seq<RawPeer>) -> Seq<RowView> {
    Seq::new(rows.len(), |i: int| rows[i]@)
}

/// What optional rows hold, in order.
pub open spec fn opt_rows(rows: Option<Vec<RawPeer>>) -> Seq<RowView> {
    match rows {
        Some(r) => rows_view(r@),
        None => Seq::empty(),
    }
}

impl View for RawConfig {
    type V = RawView;

    open spec fn view(&self) -> RawView {
        RawView {
            node_id: self.cluster.node_id,
            listen_addr: opt_addr(self.cluster.listen_addr),
            client_addr: opt_addr(self.cluster.client_addr),
            peers: opt_rows(self.cluster.peers),
            client_endpoints: opt_rows(self.cluster.client_endpoints),
            raft: self.raft,
            backend: opt_text(self.storage.backend),
            data_dir: opt_text(self.storage.data_dir),
            format: opt_text(self.logging.format),
        }
    }
}

impl RawView {
    /// A file that says nothing.
    pub open spec fn empty() -> RawView {
        RawView {
            node_id: None,
            listen_addr: None,
            client_addr: None,
            peers: Seq::empty(),
            client_endpoints: Seq::empty(),
            raft: RawRaftConfig {
                heartbeat_interval_ms: None,
                rpc_timeout_ms: None,
                election_timeout_min_ms: None,
                election_timeout_max_ms: None,
                compaction_threshold: None,
            },
            backend: None,
            data_dir: None,
            format: None,
        }
    }

    /// The file with the overrides merged in.
    pub open spec fn overridden(self, overrides: OverridesView) -> RawView {
        RawView {
            peers: if overrides.peers.len() > 0 {
                rows_of(overrides.peers)
            } else {
                self.peers
            },
            client_endpoints: if overrides.kv_advertise.len() > 0 {
                rows_of(overrides.kv_advertise)
            } else {
                self.client_endpoints
            },
            raft: RawRaftConfig {
                heartbeat_interval_ms: first_some(
                    overrides.heartbeat_interval_ms,
                    self.raft.heartbeat_interval_ms,
                ),
                rpc_timeout_ms: first_some(overrides.rpc_timeout_ms, self.raft.rpc_timeout_ms),
                election_timeout_min_ms: first_some(
                    overrides.election_timeout_min_ms,
                    self.raft.election_timeout_min_ms,
                ),
                election_timeout_max_ms: first_some(
                    overrides.election_timeout_max_ms,
                    self.raft.election_timeout_max_ms,
                ),
                ..self.raft
            },
            ..self
        }
    }
}

/// The first of two optional numbers that is there.
pub open spec fn first_some(a: Option<u64>, b: Option<u64>) -> Option<u64> {
    match a {
        Some(v) => Some(v),
        None => b,
    }
}

/// Members as rows of a file.
pub open spec fn rows_of(members: Seq<MemberView>) -> Seq<RowView> {
    Seq::new(
        members.len(),
        |i: int| RowView {
            id: members[i].id,
            addr: RawAddrView { text: members[i].addr, parsed: Ok(members[i].addr) },
        },
    )
}

impl Default for RawRaftConfig {
    fn default() -> (r: Self)
        ensures
            r == RawView::empty().raft,
    {
        RawRaftConfig {
            heartbeat_interval_ms: None,
            rpc_timeout_ms: None,
            election_timeout_min_ms: None,
            election_timeout_max_ms: None,
            compaction_threshold: None,
        }
    }
}

impl Default for RawClusterConfig {
    fn default() -> (r: Self)
        ensures
            r.node_id is None,
            r.listen_addr is None,
            r.client_addr is None,
            r.peers is None,
            r.client_endpoints is None,
    {
        RawClusterConfig {
            node_id: None,
            listen_addr: None,
            client_addr: None,
            peers: None,
            client_endpoints: None,
        }
    }
}

impl Default for RawStorageConfig {
    fn default() -> (r: Self)
        ensures
            r.backend is None,
            r.data_dir is None,
    {
        RawStorageConfig { backend: None, data_dir: None }
    }
}

impl Default for RawLoggingConfig {
    fn default() -> (r: Self)
        ensures
            r.format is None,
    {
        RawLoggingConfig { format: None }
    }
}

impl Default for RawConfig {
    fn default() -> (r: Self)
        ensures
            r@ == RawView::empty(),
    {
        let r = RawConfig {
            cluster: RawClusterConfig::default(),
            raft: RawRaftConfig::default(),
            storage: RawStorageConfig::default(),
            logging: RawLoggingConfig::default(),
        };
        assert(r@ =~= RawView::empty());
        r
    }
}

// ── Override merge ──────────────────────────────────────────────────────────

/// Turns members into rows of a file.
fn member_rows(members: Vec<(NodeId, SocketAddr)>) -> (r: Vec<RawPeer>)
    ensures
        rows_view(r@) == rows_of(members_view(members@)),
{
    let ghost all = rows_of(members_view(members@));
    let mut rows: Vec<RawPeer> = Vec::new();
    let mut i: usize = 0;
    while i < members.len()
        invariant
            i <= members@.len(),
            all == rows_of(members_view(members@)),
            rows_view(rows@) =~= all.take(i as int),
        decreases members@.len() - i,
    {
        let addr = members[i].1.clone();
        let row = RawPeer {
            id: members[i].0,
            addr: RawAddr { text: addr.text.clone(), parsed: Ok(addr) },
        };
        let ghost held = rows@;
        rows.push(row);
        i += 1;
        assert(rows_view(rows@) =~= rows_view(held).push(row@));
    }
    assert(rows_view(rows@) =~= all);
    rows
}

/// Merges the overrides into a file's values.
pub fn apply_overrides(raw: &mut RawConfig, overrides: Overrides)
    ensures
        final(raw)@ == old(raw)@.overridden(overrides@),
{
    let ghost before = raw@;
    let ghost given = overrides@;
    if overrides.peers.len() > 0 {
        raw.cluster.peers = Some(member_rows(overrides.peers));
    }
    if overrides.kv_advertise.len() > 0 {
        raw.cluster.client_endpoints = Some(member_rows(overrides.kv_advertise));
    }
    if overrides.heartbeat_interval_ms.is_some() {
        raw.raft.heartbeat_interval_ms = overrides.heartbeat_interval_ms;
    }
    if overrides.rpc_timeout_ms.is_some() {
        raw.raft.rpc_timeout_ms = overrides.rpc_timeout_ms;
    }
    if overrides.election_timeout_min_ms.is_some() {
        raw.raft.election_timeout_min_ms = overrides.election_timeout_min_ms;
    }
    if overrides.election_timeout_max_ms.is_some() {
        raw.raft.election_timeout_max_ms = overrides.election_timeout_max_ms;
    }
    assert(raw@ =~= before.overridden(given));
}

} // verus!
