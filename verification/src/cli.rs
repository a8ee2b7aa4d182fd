//! CLI command implementations: `ferrite validate` and `ferrite init`.
//!
//! This module owns everything user-facing but argv, files and terminals:
//! argument structs, flag parsing, and the `run_*` functions that decide what
//! each subcommand does. They take plain structs so they can be tested without
//! touching argv.

use vstd::prelude::*;
use vstd::string::StrSliceExecFns;

use crate::cli_laws::{every_timing_resolved, law_validate_resolves_every_timing};
use crate::config::{
    members_view, Config, ConfigError, ConfigErrorView, ConfigView, MemberView, NodeId, Overrides,
    OverridesView, RawConfig, SocketAddr,
};
use crate::text::{
    chars_of, debug_quoted, debug_text, decimal, parse_u64, parsed_u64, push_str, push_u64,
};
use crate::validation::{loaded, source_view};

verus! {

// ── Error ───────────────────────────────────────────────────────────────────

/// Errors of a subcommand.
#[derive(Debug, PartialEq, Eq)]
pub enum CliError {
    MalformedPeerFlag { input: String },
    MalformedEndpointFlag { input: String },
    Config(ConfigError),
    /// The operating system refused an operation.
    Io(String),
    Init(String),
}

/// What a [`CliError`] holds.
pub enum CliErrorView {
    MalformedPeerFlag { input: Seq<char> },
    MalformedEndpointFlag { input: Seq<char> },
    Config(ConfigErrorView),
    Io(Seq<char>),
    Init(Seq<char>),
}

impl View for CliError {
    type V = CliErrorView;

    open spec fn view(&self) -> CliErrorView {
        match self {
            CliError::MalformedPeerFlag { input } => CliErrorView::MalformedPeerFlag {
                input: input@,
            },
            CliError::MalformedEndpointFlag { input } => CliErrorView::MalformedEndpointFlag {
                input: input@,
            },
            CliError::Config(e) => CliErrorView::Config(e@),
            CliError::Io(text) => CliErrorView::Io(text@),
            CliError::Init(text) => CliErrorView::Init(text@),
        }
    }
}

impl CliErrorView {
    /// How the error is reported.
    pub open spec fn text(self) -> Seq<char> {
        match self {
            CliErrorView::MalformedPeerFlag { input } => "invalid --peer value "@ + debug_text(
                input,
            ) + ": expected `<id>@<host:port>`, e.g. `1@127.0.0.1:7001`"@,
            CliErrorView::MalformedEndpointFlag { input } => "invalid --client-endpoint value "@
                + debug_text(input) + ": expected `<id>@<host:port>`, e.g. `1@127.0.0.1:8001`"@,
            CliErrorView::Config(e) => e.text(),
            CliErrorView::Io(text) => "i/o error: "@ + text,
            CliErrorView::Init(text) => text,
        }
    }
}

impl CliError {
    /// Renders the error for a person.
    pub fn message(&self) -> (r: String)
        ensures
            r@ == self@.text(),
    {
        let mut out: String = String::new();
        match self {
            CliError::MalformedPeerFlag { input } => {
                push_str(&mut out, "invalid --peer value ");
                push_str(&mut out, debug_quoted(input.as_str()).as_str());
                push_str(&mut out, ": expected `<id>@<host:port>`, e.g. `1@127.0.0.1:7001`");
            },
            CliError::MalformedEndpointFlag { input } => {
                push_str(&mut out, "invalid --client-endpoint value ");
                push_str(&mut out, debug_quoted(input.as_str()).as_str());
                push_str(&mut out, ": expected `<id>@<host:port>`, e.g. `1@127.0.0.1:8001`");
            },
            CliError::Config(e) => {
                return e.message();
            },
            CliError::Io(text) => {
                push_str(&mut out, "i/o error: ");
                push_str(&mut out, text.as_str());
            },
            CliError::Init(text) => push_str(&mut out, text.as_str()),
        }
        assert(out@ =~= self@.text());
        out
    }
}

// ── Flag parsing ────────────────────────────────────────────────────────────

/// Whether a character is white space in Unicode.
pub open spec fn is_space(c: char) -> bool {
    ||| '\u{9}' <= c && c <= '\u{d}'
    ||| c == ' '
    ||| c == '\u{85}'
    ||| c == '\u{a0}'
    ||| c == '\u{1680}'
    ||| '\u{2000}' <= c && c <= '\u{200a}'
    ||| c == '\u{2028}'
    ||| c == '\u{2029}'
    ||| c == '\u{202f}'
    ||| c == '\u{205f}'
    ||| c == '\u{3000}'
}

/// The text without the white space that it starts with.
pub open spec fn trim_start(s: Seq<char>) -> Seq<char>
    decreases s.len(),
{
    if s.len() > 0 && is_space(s[0]) {
        trim_start(s.skip(1))
    } else {
        s
    }
}

/// The text without the white space that it ends with.
pub open spec fn trim_end(s: Seq<char>) -> Seq<char>
    decreases s.len(),
{
    if s.len() > 0 && is_space(s.last()) {
        trim_end(s.drop_last())
    } else {
        s
    }
}

/// The text without white space around it.
pub open spec fn trimmed(s: Seq<char>) -> Seq<char> {
    trim_end(trim_start(s))
}

/// The place of the first `@`.
pub open spec fn first_at_sign(s: Seq<char>) -> Option<int>
    decreases s.len(),
{
    if s.len() == 0 {
        None
    } else if s[0] == '@' {
        Some(0)
    } else {
        match first_at_sign(s.skip(1)) {
            Some(i) => Some(i + 1),
            None => None,
        }
    }
}

/// The address text of a flag: what follows the first `@`, trimmed.
pub open spec fn addr_text_of(flag: Seq<char>) -> Option<Seq<char>> {
    match first_at_sign(flag) {
        Some(i) => Some(trimmed(flag.skip(i + 1))),
        None => None,
    }
}

/// The node id of a flag: what stands before the first `@`, trimmed. Zero is
/// reserved.
pub open spec fn id_of(flag: Seq<char>) -> Option<NodeId> {
    match first_at_sign(flag) {
        Some(i) => match parsed_u64(trimmed(flag.take(i))) {
            Some(id) => if id == 0 {
                None
            } else {
                Some(id)
            },
            None => None,
        },
        None => None,
    }
}

/// Whether a character is white space in Unicode.
pub fn is_whitespace(c: char) -> (r: bool)
    ensures
        r == is_space(c),
{
    ('\u{9}' <= c && c <= '\u{d}') || c == ' ' || c == '\u{85}' || c == '\u{a0}' || c
        == '\u{1680}' || ('\u{2000}' <= c && c <= '\u{200a}') || c == '\u{2028}' || c
        == '\u{2029}' || c == '\u{202f}' || c == '\u{205f}' || c == '\u{3000}'
}

/// Where the trimmed part of `s[from..to]` begins and ends.
fn trim_bounds(s: &Vec<char>, from: usize, to: usize) -> (r: (usize, usize))
    requires
        from <= to <= s@.len(),
    ensures
        from <= r.0 <= r.1 <= to,
        s@.subrange(r.0 as int, r.1 as int) == trimmed(s@.subrange(from as int, to as int)),
{
    let ghost whole = s@.subrange(from as int, to as int);
    let mut lo: usize = from;
    while lo < to && is_whitespace(s[lo])
        invariant
            from <= lo <= to <= s@.len(),
            trim_start(whole) == trim_start(s@.subrange(lo as int, to as int)),
        decreases to - lo,
    {
        assert(s@.subrange(lo as int, to as int).skip(1) =~= s@.subrange(lo + 1, to as int));
        lo += 1;
    }
    let ghost rest = s@.subrange(lo as int, to as int);
    assert(trim_start(whole) == rest);
    let mut hi: usize = to;
    while hi > lo && is_whitespace(s[hi - 1])
        invariant
            from <= lo <= hi <= to <= s@.len(),
            trim_end(rest) == trim_end(s@.subrange(lo as int, hi as int)),
        decreases hi,
    {
        assert(s@.subrange(lo as int, hi as int).drop_last() =~= s@.subrange(
            lo as int,
            hi - 1,
        ));
        hi -= 1;
    }
    (lo, hi)
}

/// The place of the first `@`.
fn find_at_sign(s: &Vec<char>) -> (r: Option<usize>)
    ensures
        match r {
            Some(i) => first_at_sign(s@) == Some(i as int) && i < s@.len(),
            None => first_at_sign(s@) is None,
        },
{
    let mut i: usize = 0;
    assert(s@.skip(0) =~= s@);
    while i < s.len()
        invariant
            i <= s@.len(),
            first_at_sign(s@) == (match first_at_sign(s@.skip(i as int)) {
                Some(j) => Some(i + j),
                None => None,
            }),
        decreases s@.len() - i,
    {
        assert(s@.skip(i as int)[0] == s@[i as int]);
        assert(s@.skip(i as int).skip(1) =~= s@.skip(i + 1));
        if s[i] == '@' {
            return Some(i);
        }
        i += 1;
    }
    None
}

/// The address text of a flag, for the socket-address parser.
pub fn flag_addr_text(flag: &str) -> (r: Option<String>)
    ensures
        match r {
            Some(text) => addr_text_of(flag@) == Some(text@),
            None => addr_text_of(flag@) is None,
        },
{
    let chars = chars_of(flag);
    match find_at_sign(&chars) {
        Some(at) => {
            let end: usize = chars.len();
            let (lo, hi): (usize, usize) = trim_bounds(&chars, at + 1, end);
            assert(chars@.subrange(at + 1, chars@.len() as int) =~= flag@.skip(at + 1));
            Some(flag.substring_char(lo, hi).to_owned())
        },
        None => None,
    }
}

/// Parse `<id>@<host:port>` as used by `--peer` and `--client-endpoint` flags.
/// `addr` is what the socket-address parser made of [`flag_addr_text`].
/// Returns `None` on any format error (caller wraps in the appropriate error variant).
pub fn parse_id_addr(flag: &str, addr: &Option<SocketAddr>) -> (r: Option<(NodeId, SocketAddr)>)
    ensures
        match r {
            Some((id, parsed)) => id_of(flag@) == Some(id) && addr is Some && parsed@
                == addr->0@,
            None => id_of(flag@) is None || addr is None,
        },
{
    let chars = chars_of(flag);
    let at: usize = match find_at_sign(&chars) {
        Some(at) => at,
        None => {
            return None;
        },
    };
    let (lo, hi): (usize, usize) = trim_bounds(&chars, 0, at);
    assert(chars@.subrange(0, at as int) =~= flag@.take(at as int));
    let digits = chars_of(flag.substring_char(lo, hi));
    match (parse_u64(&digits), addr) {
        (Some(id), Some(parsed)) => {
            if id == 0 {
                return None;  // 0 is reserved
            }
            Some((id, parsed.clone()))
        },
        _ => None,
    }
}

/// A flag as it was given, and what the socket-address parser made of its
/// address text.
#[derive(Debug, PartialEq, Eq)]
pub struct MemberFlag {
    pub input: String,
    pub addr: Option<SocketAddr>,
}

/// What a [`MemberFlag`] holds.
pub struct FlagView {
    pub input: Seq<char>,
    pub addr: Option<Seq<char>>,
}

impl View for MemberFlag {
    type V = FlagView;

    open spec fn view(&self) -> FlagView {
        FlagView {
            input: self.input@,
            addr: match self.addr {
                Some(a) => Some(a@),
                None => None,
            },
        }
    }
}

/// What flags hold, in order.
pub open spec fn flags_view(flags: Seq<MemberFlag>) -> Seq<FlagView> {
    Seq::new(flags.len(), |i: int| flags[i]@)
}

impl FlagView {
    /// The member that the flag names, if it is well-formed.
    pub open spec fn member(self) -> Option<MemberView> {
        match (id_of(self.input), self.addr) {
            (Some(id), Some(addr)) => Some(MemberView { id, addr }),
            _ => None,
        }
    }
}

/// The members that flags name, in order, or the first flag that is malformed.
pub open spec fn flag_members(flags: Seq<FlagView>) -> Result<Seq<MemberView>, Seq<char>>
    decreases flags.len(),
{
    if flags.len() == 0 {
        Ok(Seq::empty())
    } else {
        match (flag_members(flags.drop_last()), flags.last().member()) {
            (Err(input), _) => Err(input),
            (Ok(_), None) => Err(flags.last().input),
            (Ok(members), Some(member)) => Ok(members.push(member)),
        }
    }
}

proof fn lemma_malformed_prefix(flags: Seq<FlagView>, n: int)
    requires
        0 <= n <= flags.len(),
        flag_members(flags.take(n)) is Err,
    ensures
        flag_members(flags) == flag_members(flags.take(n)),
    decreases flags.len() - n,
{
    if n == flags.len() {
        assert(flags.take(n) =~= flags);
    } else {
        assert(flags.take(n + 1).drop_last() =~= flags.take(n));
        lemma_malformed_prefix(flags, n + 1);
    }
}

/// Parses flags into members, or names the first that is malformed.
fn parse_flags(flags: &[MemberFlag]) -> (r: Result<Vec<(NodeId, SocketAddr)>, String>)
    ensures
        match r {
            Ok(members) => flag_members(flags_view(flags@)) == Ok::<Seq<MemberView>, Seq<char>>(
                members_view(members@),
            ),
            Err(input) => flag_members(flags_view(flags@)) == Err::<Seq<MemberView>, Seq<char>>(
                input@,
            ),
        },
{
    let ghost all = flags_view(flags@);
    let mut members: Vec<(NodeId, SocketAddr)> = Vec::new();
    let mut i: usize = 0;
    assert(members_view(members@) =~= Seq::<MemberView>::empty());
    while i < flags.len()
        invariant
            i <= flags@.len(),
            all == flags_view(flags@),
            flag_members(all.take(i as int)) == Ok::<Seq<MemberView>, Seq<char>>(
                members_view(members@),
            ),
        decreases flags@.len() - i,
    {
        let flag = &flags[i];
        proof {
            assert(all.take(i + 1).drop_last() =~= all.take(i as int));
            assert(all.take(i + 1).last() == flag@);
        }
        match parse_id_addr(flag.input.as_str(), &flag.addr) {
            Some(member) => {
                let ghost held = members@;
                members.push(member);
                assert(members_view(members@) =~= members_view(held).push(
                    MemberView { id: member.0, addr: member.1@ },
                ));
            },
            None => {
                proof {
                    lemma_malformed_prefix(all, i + 1);
                }
                return Err(flag.input.clone());
            },
        }
        i += 1;
    }
    assert(all.take(i as int) =~= all);
    Ok(members)
}

/// Parse `--peer` flag values into `(NodeId, SocketAddr)` pairs.
pub fn parse_peer_flags(flags: &[MemberFlag]) -> (r: Result<
    Vec<(NodeId, SocketAddr)>,
    CliError,
>)
    ensures
        match (flag_members(flags_view(flags@)), r) {
            (Ok(expected), Ok(members)) => members_view(members@) == expected,
            (Err(input), Err(e)) => e@ == (CliErrorView::MalformedPeerFlag { input }),
            _ => false,
        },
{
    match parse_flags(flags) {
        Ok(members) => Ok(members),
        Err(input) => Err(CliError::MalformedPeerFlag { input }),
    }
}

/// Parse `--client-endpoint` flag values into `(NodeId, SocketAddr)` pairs.
pub fn parse_endpoint_flags(flags: &[MemberFlag]) -> (r: Result<
    Vec<(NodeId, SocketAddr)>,
    CliError,
>)
    ensures
        match (flag_members(flags_view(flags@)), r) {
            (Ok(expected), Ok(members)) => members_view(members@) == expected,
            (Err(input), Err(e)) => e@ == (CliErrorView::MalformedEndpointFlag { input }),
            _ => false,
        },
{
    match parse_flags(flags) {
        Ok(members) => Ok(members),
        Err(input) => Err(CliError::MalformedEndpointFlag { input }),
    }
}

// ── `ferrite validate` ──────────────────────────────────────────────────────

/// Arguments for `ferrite validate`. Populated from argv by the binary; passed here
/// directly in tests.
#[derive(Debug)]
pub struct ValidateArgs {
    /// What the TOML config file was parsed to; `None` where no file was named.
    pub config: Option<Result<RawConfig, ConfigError>>,
    /// `--peer <id>@<host:port>` flags. Replaces `cluster.peers` entirely if non-empty.
    pub peers: Vec<MemberFlag>,
    /// `--client-endpoint <id>@<host:port>` flags. Replaces `cluster.client_endpoints` if non-empty.
    pub client_endpoints: Vec<MemberFlag>,
    /// `--heartbeat-interval-ms <n>` override.
    pub heartbeat_interval_ms: Option<u64>,
    /// `--rpc-timeout-ms <n>` override.
    pub rpc_timeout_ms: Option<u64>,
    /// `--election-timeout-min-ms <n>` override.
    pub election_timeout_min_ms: Option<u64>,
    /// `--election-timeout-max-ms <n>` override.
    pub election_timeout_max_ms: Option<u64>,
}

impl Default for ValidateArgs {
    fn default() -> (r: Self)
        ensures
            r.config is None,
            r.peers@.len() == 0,
            r.client_endpoints@.len() == 0,
            r.heartbeat_interval_ms is None,
            r.rpc_timeout_ms is None,
            r.election_timeout_min_ms is None,
            r.election_timeout_max_ms is None,
    {
        ValidateArgs {
            config: None,
            peers: Vec::new(),
            client_endpoints: Vec::new(),
            heartbeat_interval_ms: None,
            rpc_timeout_ms: None,
            election_timeout_min_ms: None,
            election_timeout_max_ms: None,
        }
    }
}

impl ValidateArgs {
    /// The overrides that the flags stand for.
    pub open spec fn overrides(
        self,
        peers: Seq<MemberView>,
        kv_advertise: Seq<MemberView>,
    ) -> OverridesView {
        OverridesView {
            peers,
            kv_advertise,
            heartbeat_interval_ms: self.heartbeat_interval_ms,
            rpc_timeout_ms: self.rpc_timeout_ms,
            election_timeout_min_ms: self.election_timeout_min_ms,
            election_timeout_max_ms: self.election_timeout_max_ms,
        }
    }

    /// What validating gives: the flags are read first, peers before endpoints.
    pub open spec fn outcome(self) -> Result<ConfigView, CliErrorView> {
        match (
            flag_members(flags_view(self.peers@)),
            flag_members(flags_view(self.client_endpoints@)),
        ) {
            (Err(input), _) => Err(CliErrorView::MalformedPeerFlag { input }),
            (Ok(_), Err(input)) => Err(CliErrorView::MalformedEndpointFlag { input }),
            (Ok(peers), Ok(endpoints)) => match loaded(
                source_view(self.config),
                self.overrides(peers, endpoints),
            ) {
                Ok(config) => Ok(config),
                Err(e) => Err(CliErrorView::Config(e)),
            },
        }
    }
}

/// Run `ferrite validate`: load, merge overrides, validate, return resolved config.
/// The binary prints the config on success or the error message on failure.
pub fn run_validate(args: ValidateArgs) -> (r: Result<Config, CliError>)
    ensures
        match (args.outcome(), r) {
            (Ok(expected), Ok(config)) => config@ == expected,
            (Err(expected), Err(e)) => e@ == expected,
            _ => false,
        },
        r matches Ok(config) ==> every_timing_resolved(args, config.raft),
{
    proof {
        if args.outcome() is Ok {
            law_validate_resolves_every_timing(args);
        }
    }
    let peers = match parse_peer_flags(args.peers.as_slice()) {
        Ok(peers) => peers,
        Err(e) => {
            return Err(e);
        },
    };
    let kv_advertise = match parse_endpoint_flags(args.client_endpoints.as_slice()) {
        Ok(endpoints) => endpoints,
        Err(e) => {
            return Err(e);
        },
    };
    let overrides = Overrides {
        peers,
        kv_advertise,
        heartbeat_interval_ms: args.heartbeat_interval_ms,
        rpc_timeout_ms: args.rpc_timeout_ms,
        election_timeout_min_ms: args.election_timeout_min_ms,
        election_timeout_max_ms: args.election_timeout_max_ms,
    };
    match Config::load(args.config, overrides) {
        Ok(config) => Ok(config),
        Err(e) => Err(CliError::Config(e)),
    }
}

// ── `ferrite init` ──────────────────────────────────────────────────────────

/// Arguments for `ferrite init`.
#[derive(Debug)]
pub struct InitArgs {
    /// Number of nodes to generate. Must be >= 1.
    pub nodes: usize,
    /// Output directory. Created if it does not exist.
    pub dir: String,
    /// First Raft port. Node `i` gets `base_port + (i - 1)`. Default: 7001.
    pub base_port: u16,
    /// First KV/client port. Node `i` gets `client_port + (i - 1)`. Default: 8001.
    pub client_port: u16,
    /// Overwrite existing `node*.toml` files. Does not remove other files.
    pub force: bool,
}

impl Default for InitArgs {
    fn default() -> (r: Self)
        ensures
            r.nodes == 1,
            r.dir@ == "."@,
            r.base_port == 7001,
            r.client_port == 8001,
            !r.force,
    {
        Self {
            nodes: 1,
            dir: ".".to_owned(),
            base_port: 7001,
            client_port: 8001,
            force: false,
        }
    }
}

/// A file to write: its name in the output directory, and its text.
#[derive(Debug, PartialEq, Eq)]
pub struct NodeFile {
    pub name: String,
    pub content: String,
}

/// What a [`NodeFile`] holds.
pub struct FileView {
    pub name: Seq<char>,
    pub content: Seq<char>,
}

impl View for NodeFile {
    type V = FileView;

    open spec fn view(&self) -> FileView {
        FileView { name: self.name@, content: self.content@ }
    }
}

/// What files hold, in order.
pub open spec fn node_files_view(files: Seq<NodeFile>) -> Seq<FileView> {
    Seq::new(files.len(), |i: int| files[i]@)
}

/// The last of `n` ports from `first` on.
pub open spec fn last_port(first: u16, n: nat) -> nat {
    let last = (first + n - 1) as nat;
    if last <= u64::MAX {
        last
    } else {
        u64::MAX as nat
    }
}

impl InitArgs {
    /// What is wrong with the arguments.
    pub open spec fn complaint(self) -> Option<Seq<char>> {
        let n = self.nodes as nat;
        let raft_last = last_port(self.base_port, n);
        let client_last = last_port(self.client_port, n);
        let base = decimal(self.base_port as nat);
        let client = decimal(self.client_port as nat);
        if n < 1 {
            Some("--nodes must be >= 1"@)
        } else if raft_last > 65535 {
            Some(
                "--base-port "@ + base + " with --nodes "@ + decimal(n) + " reaches port "@
                    + decimal(raft_last) + " > 65535"@,
            )
        } else if client_last > 65535 {
            Some(
                "--client-port "@ + client + " with --nodes "@ + decimal(n) + " reaches port "@
                    + decimal(client_last) + " > 65535"@,
            )
        } else if self.base_port <= client_last && self.client_port <= raft_last {
            Some(
                "raft port range "@ + base + "..="@ + decimal(raft_last)
                    + " overlaps with client port range "@ + client + "..="@ + decimal(
                    client_last,
                ) + "; choose non-overlapping --base-port and --client-port"@,
            )
        } else {
            None
        }
    }

    /// The complaint about an output directory that holds something.
    pub open spec fn dir_complaint(self) -> Seq<char> {
        "directory "@ + self.dir@ + " is not empty; use --force to overwrite node*.toml files"@
    }
}

/// The loopback addresses of `n` nodes, with ports from `first` on.
pub open spec fn loopback_members(first: u16, n: nat) -> Seq<MemberView> {
    Seq::new(n, |i: int| MemberView { id: (i + 1) as u64, addr: loopback((first + i) as nat) })
}

/// A loopback address.
pub open spec fn loopback(port: nat) -> Seq<char> {
    "127.0.0.1:"@ + decimal(port)
}

/// The tables of members, one after another.
pub open spec fn member_tables(header: Seq<char>, members: Seq<MemberView>) -> Seq<char>
    decreases members.len(),
{
    if members.len() == 0 {
        Seq::empty()
    } else {
        member_tables(header, members.drop_last()) + (header + "id   = "@ + decimal(
            members.last().id as nat,
        ) + "\naddr = \""@ + members.last().addr + "\"\n"@)
    }
}

/// The text of a node's file.
pub open spec fn node_toml(
    node_id: u64,
    raft_bind: Seq<char>,
    kv_bind: Seq<char>,
    peers: Seq<MemberView>,
    endpoints: Seq<MemberView>,
    data_dir: Seq<char>,
) -> Seq<char> {
    "[cluster]\nnode_id     = "@ + decimal(node_id as nat) + "\nlisten_addr = \""@ + raft_bind
        + "\"\nclient_addr = \""@ + kv_bind + "\"\n"@ + member_tables(
        "\n[[cluster.peers]]\n"@,
        peers,
    ) + member_tables("\n[[cluster.client_endpoints]]\n"@, endpoints) + "\n[raft]\n"@
        + "heartbeat_interval_ms   = 50\n"@ + "rpc_timeout_ms          = 100\n"@
        + "election_timeout_min_ms = 300\n"@ + "election_timeout_max_ms = 600\n"@
        + "compaction_threshold    = 1000\n"@ + "\n[storage]\nbackend  = \"disk\"\ndata_dir = \""@
        + data_dir + "\"\n\n[logging]\nformat = \"pretty\"\n"@
}

impl InitArgs {
    /// The Raft addresses of all nodes.
    pub open spec fn peers(self) -> Seq<MemberView> {
        loopback_members(self.base_port, self.nodes as nat)
    }

    /// The client addresses of all nodes.
    pub open spec fn endpoints(self) -> Seq<MemberView> {
        loopback_members(self.client_port, self.nodes as nat)
    }

    /// The data directory of a node.
    pub open spec fn data_dir(self, node_id: nat) -> Seq<char> {
        "./data/node"@ + decimal(node_id)
    }

    /// The file of the node at place `i`.
    pub open spec fn file(self, i: int) -> FileView {
        let id = (i + 1) as nat;
        FileView {
            name: "node"@ + decimal(id) + ".toml"@,
            content: node_toml(
                id as u64,
                loopback((self.base_port + i) as nat),
                loopback((self.client_port + i) as nat),
                self.peers(),
                self.endpoints(),
                self.data_dir(id),
            ),
        }
    }

    /// The files of all nodes.
    pub open spec fn files(self) -> Seq<FileView> {
        Seq::new(self.nodes as nat, |i: int| self.file(i))
    }
}

/// Rejects bad inputs (nodes, port overflow, port range overlap) before the disk
/// is touched.
pub fn check_init(args: &InitArgs) -> (r: Result<(), CliError>)
    ensures
        match (args.complaint(), r) {
            (None, Ok(_)) => true,
            (Some(text), Err(e)) => e@ == CliErrorView::Init(text),
            _ => false,
        },
{
    if args.nodes < 1 {
        return Err(CliError::Init("--nodes must be >= 1".to_owned()));
    }
    let n: u64 = args.nodes as u64;
    let base: u64 = args.base_port as u64;
    let client: u64 = args.client_port as u64;
    let raft_last: u64 = base.saturating_add(n - 1);
    let client_last: u64 = client.saturating_add(n - 1);
    let mut out: String = String::new();
    if raft_last > 65535 {
        push_str(&mut out, "--base-port ");
        push_u64(&mut out, base);
        push_str(&mut out, " with --nodes ");
        push_u64(&mut out, n);
        push_str(&mut out, " reaches port ");
        push_u64(&mut out, raft_last);
        push_str(&mut out, " > 65535");
        assert(out@ =~= args.complaint()->0);
        return Err(CliError::Init(out));
    }
    if client_last > 65535 {
        push_str(&mut out, "--client-port ");
        push_u64(&mut out, client);
        push_str(&mut out, " with --nodes ");
        push_u64(&mut out, n);
        push_str(&mut out, " reaches port ");
        push_u64(&mut out, client_last);
        push_str(&mut out, " > 65535");
        assert(out@ =~= args.complaint()->0);
        return Err(CliError::Init(out));
    }
    // Two ranges overlap when each begins no later than the other ends.

    if base <= client_last && client <= raft_last {
        push_str(&mut out, "raft port range ");
        push_u64(&mut out, base);
        push_str(&mut out, "..=");
        push_u64(&mut out, raft_last);
        push_str(&mut out, " overlaps with client port range ");
        push_u64(&mut out, client);
        push_str(&mut out, "..=");
        push_u64(&mut out, client_last);
        push_str(&mut out, "; choose non-overlapping --base-port and --client-port");
        assert(out@ =~= args.complaint()->0);
        return Err(CliError::Init(out));
    }
    Ok(())
}

/// Renders a loopback address.
fn loopback_text(port: u64) -> (r: String)
    ensures
        r@ == loopback(port as nat),
{
    let mut out: String = String::new();
    push_str(&mut out, "127.0.0.1:");
    push_u64(&mut out, port);
    assert(out@ =~= loopback(port as nat));
    out
}

/// What members as id and address text hold, in order.
pub open spec fn text_members(members: Seq<(u64, String)>) -> Seq<MemberView> {
    Seq::new(members.len(), |i: int| MemberView { id: members[i].0, addr: members[i].1@ })
}

/// Lists the loopback addresses of `n` nodes.
fn loopback_table(first: u16, n: usize) -> (r: Vec<(u64, String)>)
    requires
        first + n <= 65536,
    ensures
        text_members(r@) == loopback_members(first, n as nat),
{
    let ghost all = loopback_members(first, n as nat);
    let mut members: Vec<(u64, String)> = Vec::new();
    let mut i: usize = 0;
    while i < n
        invariant
            i <= n,
            first + n <= 65536,
            all == loopback_members(first, n as nat),
            text_members(members@) =~= all.take(i as int),
        decreases n - i,
    {
        let addr = loopback_text(first as u64 + i as u64);
        let ghost text = addr@;
        let ghost held = members@;
        members.push((i as u64 + 1, addr));
        i += 1;
        assert(text_members(members@) =~= text_members(held).push(
            MemberView { id: i as u64, addr: text },
        ));
    }
    assert(text_members(members@) =~= all);
    members
}

/// Run `ferrite init`: decides which files to write.
///
/// `dir_non_empty` says whether the output directory exists and holds something.
///
/// Validation order:
/// 1. Reject bad inputs (nodes, port overflow, port range overlap).
/// 2. Reject non-empty `--dir` without `--force`.
/// 3. Generate all TOML strings, for the runtime to validate with
///    `Config::from_toml_str` and to write only after all pass.
pub fn run_init(args: &InitArgs, dir_non_empty: bool) -> (r: Result<Vec<NodeFile>, CliError>)
    ensures
        match r {
            Ok(files) => args.complaint() is None && (!dir_non_empty || args.force)
                && node_files_view(files@) == args.files(),
            Err(e) => match args.complaint() {
                Some(text) => e@ == CliErrorView::Init(text),
                None => dir_non_empty && !args.force && e@ == CliErrorView::Init(
                    args.dir_complaint(),
                ),
            },
        },
{
    match check_init(args) {
        Ok(_) => {},
        Err(e) => {
            return Err(e);
        },
    }
    if dir_non_empty && !args.force {
        let mut out: String = String::new();
        push_str(&mut out, "directory ");
        push_str(&mut out, args.dir.as_str());
        push_str(&mut out, " is not empty; use --force to overwrite node*.toml files");
        assert(out@ =~= args.dir_complaint());
        return Err(CliError::Init(out));
    }
    // All node files share identical peers and client_endpoints.

    let peers = loopback_table(args.base_port, args.nodes);
    let endpoints = loopback_table(args.client_port, args.nodes);
    assert(text_members(peers@).len() == args.nodes);
    assert(text_members(endpoints@).len() == args.nodes);
    let ghost all = args.files();
    let mut files: Vec<NodeFile> = Vec::new();
    let mut i: usize = 0;
    while i < args.nodes
        invariant
            i <= args.nodes,
            args.nodes <= 65536,
            peers@.len() == args.nodes,
            endpoints@.len() == args.nodes,
            text_members(peers@) == args.peers(),
            text_members(endpoints@) == args.endpoints(),
            all == args.files(),
            node_files_view(files@) =~= all.take(i as int),
        decreases args.nodes - i,
    {
        let node_id: u64 = i as u64 + 1;
        let mut data_dir: String = String::new();
        push_str(&mut data_dir, "./data/node");
        push_u64(&mut data_dir, node_id);
        assert(data_dir@ =~= args.data_dir(node_id as nat));
        let mut name: String = String::new();
        push_str(&mut name, "node");
        push_u64(&mut name, node_id);
        push_str(&mut name, ".toml");
        assert(name@ =~= args.file(i as int).name);
        proof {
            assert(text_members(peers@)[i as int].addr == peers@[i as int].1@);
            assert(text_members(endpoints@)[i as int].addr == endpoints@[i as int].1@);
        }
        let content = render_node_toml(
            node_id,
            peers[i].1.as_str(),
            endpoints[i].1.as_str(),
            &peers,
            &endpoints,
            data_dir.as_str(),
        );
        let ghost held = files@;
        let file = NodeFile { name, content };
        files.push(file);
        i += 1;
        assert(node_files_view(files@) =~= node_files_view(held).push(file@));
    }
    assert(node_files_view(files@) =~= all);
    Ok(files)
}

/// The error for a generated file that would fail validation.
pub fn init_rejected(node_id: u64, e: &ConfigError) -> (r: CliError)
    ensures
        r@ == CliErrorView::Init(
            "node"@ + decimal(node_id as nat) + ".toml would fail validation: "@ + e@.text(),
        ),
{
    let mut out: String = String::new();
    push_str(&mut out, "node");
    push_u64(&mut out, node_id);
    push_str(&mut out, ".toml would fail validation: ");
    push_str(&mut out, e.message().as_str());
    assert(out@ =~= "node"@ + decimal(node_id as nat) + ".toml would fail validation: "@
        + e@.text());
    CliError::Init(out)
}

// ── TOML renderer ───────────────────────────────────────────────────────────

/// Appends the tables of members.
fn push_member_tables(out: &mut String, header: &str, members: &Vec<(u64, String)>)
    ensures
        final(out)@ == old(out)@ + member_tables(header@, text_members(members@)),
{
    let ghost before = out@;
    let ghost all = text_members(members@);
    let mut i: usize = 0;
    assert(before + member_tables(header@, all.take(0)) =~= before);
    while i < members.len()
        invariant
            i <= members@.len(),
            all == text_members(members@),
            out@ == before + member_tables(header@, all.take(i as int)),
        decreases members@.len() - i,
    {
        push_str(out, header);
        push_str(out, "id   = ");
        push_u64(out, members[i].0);
        push_str(out, "\naddr = \"");
        push_str(out, members[i].1.as_str());
        push_str(out, "\"\n");
        i += 1;
        proof {
            assert(all.take(i as int).drop_last() =~= all.take(i - 1));
            assert(all.take(i as int).last() == all[i - 1]);
            assert(out@ =~= before + member_tables(header@, all.take(i as int)));
        }
    }
    assert(all.take(i as int) =~= all);
}

/// Produce the TOML file content for one node. Peers and endpoints are identical
/// across all files; only `node_id`, `raft_bind`, `kv_bind`, and `data_dir` vary.
pub fn render_node_toml(
    node_id: u64,
    raft_bind: &str,
    kv_bind: &str,
    peers: &Vec<(u64, String)>,
    endpoints: &Vec<(u64, String)>,
    data_dir: &str,
) -> (r: String)
    ensures
        r@ == node_toml(
            node_id,
            raft_bind@,
            kv_bind@,
            text_members(peers@),
            text_members(endpoints@),
            data_dir@,
        ),
{
    let mut out: String = String::new();
    push_str(&mut out, "[cluster]\nnode_id     = ");
    push_u64(&mut out, node_id);
    push_str(&mut out, "\nlisten_addr = \"");
    push_str(&mut out, raft_bind);
    push_str(&mut out, "\"\nclient_addr = \"");
    push_str(&mut out, kv_bind);
    push_str(&mut out, "\"\n");
    push_member_tables(&mut out, "\n[[cluster.peers]]\n", peers);
    push_member_tables(&mut out, "\n[[cluster.client_endpoints]]\n", endpoints);
    push_str(&mut out, "\n[raft]\n");
    push_str(&mut out, "heartbeat_interval_ms   = 50\n");
    push_str(&mut out, "rpc_timeout_ms          = 100\n");
    push_str(&mut out, "election_timeout_min_ms = 300\n");
    push_str(&mut out, "election_timeout_max_ms = 600\n");
    push_str(&mut out, "compaction_threshold    = 1000\n");
    // Durable backend name is "disk" (sled/segment) — not RocksDB.
    push_str(&mut out, "\n[storage]\nbackend  = \"disk\"\ndata_dir = \"");
    push_str(&mut out, data_dir);
    push_str(&mut out, "\"\n\n[logging]\nformat = \"pretty\"\n");
    proof {
        assert(Seq::<char>::empty() + "[cluster]\nnode_id     = "@
            =~= "[cluster]\nnode_id     = "@);
    }
    out
}

} // verus!
