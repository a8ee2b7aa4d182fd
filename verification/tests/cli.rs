//! Subcommands.

use ferrite::cli::{
    flag_addr_text, parse_id_addr, run_init, run_validate, CliError, InitArgs, MemberFlag, NodeFile,
    ValidateArgs,
};
use ferrite::config::{
    Config, ConfigError, NodeId, Overrides, RawAddr, RawClusterConfig, RawConfig,
    RawLoggingConfig, RawPeer, RawRaftConfig, RawStorageConfig, SocketAddr, StorageBackend,
};

/// An address in canonical text.
fn socket(text: &str) -> SocketAddr {
    SocketAddr {
        text: text.to_owned(),
    }
}

/// An address as a file holds it: host and port, or no address at all.
fn addr(text: &str) -> RawAddr {
    let parsed = match text.rsplit_once(':') {
        Some((_, port)) if port.parse::<u16>().is_ok() => Ok(socket(text)),
        _ => Err("invalid socket address syntax".to_owned()),
    };
    RawAddr {
        text: text.to_owned(),
        parsed,
    }
}

fn number(table: Option<&toml::Value>, key: &str) -> Option<u64> {
    table?.get(key)?.as_integer().map(|n| n as u64)
}

fn text(table: Option<&toml::Value>, key: &str) -> Option<String> {
    table?.get(key)?.as_str().map(str::to_owned)
}

fn rows(table: Option<&toml::Value>, key: &str) -> Option<Vec<RawPeer>> {
    let rows = table?.get(key)?.as_array()?;
    Some(
        rows.iter()
            .map(|row| RawPeer {
                id: number(Some(row), "id").unwrap(),
                addr: addr(&text(Some(row), "addr").unwrap()),
            })
            .collect(),
    )
}

/// Reads a file's values out of its TOML text.
fn parse_toml(source: &str) -> Result<RawConfig, ConfigError> {
    let table: toml::Table =
        toml::from_str(source).map_err(|e| ConfigError::Toml(e.to_string()))?;
    let cluster = table.get("cluster");
    let raft = table.get("raft");
    let storage = table.get("storage");
    let logging = table.get("logging");
    Ok(RawConfig {
        cluster: RawClusterConfig {
            node_id: number(cluster, "node_id"),
            listen_addr: text(cluster, "listen_addr").map(|a| addr(&a)),
            client_addr: text(cluster, "client_addr").map(|a| addr(&a)),
            peers: rows(cluster, "peers"),
            client_endpoints: rows(cluster, "client_endpoints"),
        },
        raft: RawRaftConfig {
            heartbeat_interval_ms: number(raft, "heartbeat_interval_ms"),
            rpc_timeout_ms: number(raft, "rpc_timeout_ms"),
            election_timeout_min_ms: number(raft, "election_timeout_min_ms"),
            election_timeout_max_ms: number(raft, "election_timeout_max_ms"),
            compaction_threshold: number(raft, "compaction_threshold"),
        },
        storage: RawStorageConfig {
            backend: text(storage, "backend"),
            data_dir: text(storage, "data_dir"),
        },
        logging: RawLoggingConfig {
            format: text(logging, "format"),
        },
    })
}

/// A flag with what its address text was parsed to.
fn flag(input: &str) -> MemberFlag {
    MemberFlag {
        input: input.to_owned(),
        addr: flag_addr_text(input).and_then(|text| addr(&text).parsed.ok()),
    }
}

fn parse(input: &str) -> Option<(NodeId, SocketAddr)> {
    parse_id_addr(input, &flag(input).addr)
}

/// The files that `init` writes for three nodes, or for as many as `args` says.
fn init(args: InitArgs) -> Vec<NodeFile> {
    run_init(&args, false).unwrap()
}

/// The text of a file that `init` writes.
fn content(files: &[NodeFile], name: &str) -> String {
    files
        .iter()
        .find(|file| file.name == name)
        .unwrap()
        .content
        .clone()
}

// ── Flag parsing ──────────────────────────────────────────────────────

#[test]
fn parse_peer_flag_valid() {
    let (id, addr) = parse("2@127.0.0.1:7002").unwrap();
    assert_eq!(id, 2);
    assert_eq!(addr.text, "127.0.0.1:7002");
}

#[test]
fn parse_peer_flag_rejects_id_zero() {
    assert!(parse("0@127.0.0.1:7001").is_none());
}

#[test]
fn parse_peer_flag_rejects_non_numeric_id() {
    assert!(parse("abc@127.0.0.1:7001").is_none());
}

#[test]
fn parse_peer_flag_rejects_missing_at() {
    assert!(parse("127.0.0.1:7001").is_none());
}

#[test]
fn parse_peer_flag_rejects_bad_addr() {
    assert!(parse("1@not-an-addr").is_none());
}

#[test]
fn parse_peer_flag_trims_both_parts() {
    let (id, addr) = parse(" 2 @\u{a0}127.0.0.1:7002\t").unwrap();
    assert_eq!(id, 2);
    assert_eq!(addr.text, "127.0.0.1:7002");
    assert!(parse("+2@127.0.0.1:7002").is_some());
    assert!(parse("18446744073709551616@127.0.0.1:7002").is_none());
    assert!(parse("@127.0.0.1:7002").is_none());
}

#[test]
fn whitespace_is_what_unicode_says() {
    for code in 0..=0x10ffff_u32 {
        if let Some(c) = char::from_u32(code) {
            assert_eq!(ferrite::cli::is_whitespace(c), c.is_whitespace(), "{code:x}");
        }
    }
}

// ── `ferrite validate` ────────────────────────────────────────────────

#[test]
fn validate_override_replaces_timing() {
    // First init a cluster so we have a valid file to read, then override the
    // heartbeat via args.
    let files = init(InitArgs {
        nodes: 1,
        ..Default::default()
    });

    let cfg = run_validate(ValidateArgs {
        config: Some(parse_toml(&content(&files, "node1.toml"))),
        heartbeat_interval_ms: Some(25),
        ..Default::default()
    })
    .unwrap();

    assert_eq!(cfg.raft.heartbeat_interval.as_millis(), 25);
}

// ── `ferrite init` ────────────────────────────────────────────────────

#[test]
fn init_port_overlap_rejected_before_write() {
    // base 8000..8004, client 8001..8005 — overlap
    let err = run_init(
        &InitArgs {
            nodes: 5,
            base_port: 8000,
            client_port: 8001,
            ..Default::default()
        },
        false,
    )
    .unwrap_err()
    .message();

    assert!(err.contains("overlaps"), "{err}");
    assert_eq!(
        err,
        "raft port range 8000..=8004 overlaps with client port range 8001..=8005; \
         choose non-overlapping --base-port and --client-port"
    );
}

#[test]
fn init_rejects_no_nodes_and_ports_past_the_end() {
    let refuse = |nodes, base_port, client_port| {
        run_init(
            &InitArgs {
                nodes,
                base_port,
                client_port,
                ..Default::default()
            },
            false,
        )
        .unwrap_err()
        .message()
    };
    assert_eq!(refuse(0, 7001, 8001), "--nodes must be >= 1");
    assert_eq!(
        refuse(3, 65534, 8001),
        "--base-port 65534 with --nodes 3 reaches port 65536 > 65535"
    );
    assert_eq!(
        refuse(3, 7001, 65534),
        "--client-port 65534 with --nodes 3 reaches port 65536 > 65535"
    );
}

#[test]
fn init_three_nodes_all_valid() {
    let files = init(InitArgs {
        nodes: 3,
        ..Default::default()
    });

    assert_eq!(files.len(), 3);
    for file in &files {
        // Each file must pass Config::load (round-trip)
        Config::load(Some(parse_toml(&file.content)), Overrides::default())
            .unwrap_or_else(|e| panic!("{}: {}", file.name, e.message()));
    }
}

#[test]
fn init_port_math_node3() {
    let files = init(InitArgs {
        nodes: 3,
        ..Default::default()
    });

    let node3 = content(&files, "node3.toml");
    assert!(node3.contains("7003"), "node3 raft port should be 7003:\n{node3}");
    assert!(node3.contains("8003"), "node3 kv port should be 8003:\n{node3}");
}

#[test]
fn init_nonempty_dir_fails_without_force() {
    let args = InitArgs {
        nodes: 1,
        dir: "cluster".to_owned(),
        ..Default::default()
    };
    let err = run_init(&args, true).unwrap_err().message();
    assert!(err.contains("not empty"), "{err}");
    assert_eq!(
        err,
        "directory cluster is not empty; use --force to overwrite node*.toml files"
    );

    // --force should succeed
    run_init(
        &InitArgs {
            force: true,
            ..args
        },
        true,
    )
    .unwrap();
}

#[test]
fn init_writes_the_whole_file() {
    let files = init(InitArgs::default());
    assert_eq!(files.len(), 1);
    assert_eq!(files[0].name, "node1.toml");
    assert_eq!(
        files[0].content,
        "[cluster]\nnode_id     = 1\nlisten_addr = \"127.0.0.1:7001\"\n\
         client_addr = \"127.0.0.1:8001\"\n\n[[cluster.peers]]\nid   = 1\n\
         addr = \"127.0.0.1:7001\"\n\n[[cluster.client_endpoints]]\nid   = 1\n\
         addr = \"127.0.0.1:8001\"\n\n[raft]\nheartbeat_interval_ms   = 50\n\
         rpc_timeout_ms          = 100\nelection_timeout_min_ms = 300\n\
         election_timeout_max_ms = 600\ncompaction_threshold    = 1000\n\n[storage]\n\
         backend  = \"disk\"\ndata_dir = \"./data/node1\"\n\n[logging]\n\
         format = \"pretty\"\n"
    );
}

// ── Override replacement — no union ──────────────────────────────────

#[test]
fn override_client_endpoints_replaces_file_entirely() {
    // Generate a 3-node cluster, then call run_validate with a single
    // --client-endpoint. If union happened we'd have 4 endpoints and
    // validation would accept them; if replacement happened we'd have 1
    // endpoint and validation would fail with "missing entry for peer id 2",
    // proving the file's 3 endpoints were discarded.
    let files = init(InitArgs {
        nodes: 3,
        ..Default::default()
    });

    let err = run_validate(ValidateArgs {
        config: Some(parse_toml(&content(&files, "node1.toml"))),
        // Only provide 1 endpoint — must replace the file's 3
        client_endpoints: vec![flag("1@127.0.0.1:8001")],
        ..Default::default()
    })
    .unwrap_err()
    .message();

    // Validation fails because peer ids 2 and 3 have no endpoint — proves
    // the override replaced (not unioned with) the file's client_endpoints.
    assert!(
        err.contains("missing entry for peer id 2") || err.contains("missing entry for peer id 3"),
        "expected 'missing entry' error proving replacement, got: {err}"
    );
}

#[test]
fn init_emits_disk_backend_not_rocksdb() {
    let files = init(InitArgs {
        nodes: 1,
        ..Default::default()
    });

    let toml_str = content(&files, "node1.toml");
    assert!(
        toml_str.contains("backend  = \"disk\""),
        "init must emit disk backend:\n{toml_str}"
    );
    assert!(
        !toml_str.contains("rocksdb"),
        "init must not emit rocksdb:\n{toml_str}"
    );

    let cfg = Config::load(Some(parse_toml(&toml_str)), Overrides::default()).unwrap();
    match cfg.storage.backend {
        StorageBackend::Disk { .. } => {}
        other => panic!("expected Disk backend from init, got {other:?}"),
    }
}

#[test]
fn validate_missing_config_path_clear_error() {
    let err = run_validate(ValidateArgs::default()).unwrap_err().message();
    assert!(
        err.contains("no configuration source") || err.contains("--config"),
        "{err}"
    );
}

// ── Error path coverage ───────────────────────────────────────────────

#[test]
fn malformed_toml_returns_toml_error() {
    let err =
        Config::from_toml_str(parse_toml("[[[ not valid toml"), Overrides::default()).unwrap_err();
    assert!(
        matches!(err, ConfigError::Toml(_)),
        "expected ConfigError::Toml, got: {err:?}"
    );
}

#[test]
fn malformed_peer_flag_returns_cli_error() {
    let err = run_validate(ValidateArgs {
        peers: vec![flag("no-at-sign")],
        ..Default::default()
    })
    .unwrap_err();
    assert!(
        matches!(err, CliError::MalformedPeerFlag { .. }),
        "expected MalformedPeerFlag, got: {err:?}"
    );
    assert_eq!(
        err.message(),
        "invalid --peer value \"no-at-sign\": expected `<id>@<host:port>`, \
         e.g. `1@127.0.0.1:7001`"
    );
}

#[test]
fn malformed_client_endpoint_flag_returns_cli_error() {
    let err = run_validate(ValidateArgs {
        client_endpoints: vec![flag("0@127.0.0.1:8001")], // id 0 is reserved
        ..Default::default()
    })
    .unwrap_err();
    assert!(
        matches!(err, CliError::MalformedEndpointFlag { .. }),
        "expected MalformedEndpointFlag, got: {err:?}"
    );
}

#[test]
fn init_peers_identical_across_files() {
    let files = init(InitArgs {
        nodes: 3,
        ..Default::default()
    });

    // All three files must have all three peers
    for i in 1..=3u64 {
        let content = content(&files, &format!("node{i}.toml"));
        assert!(content.contains("7001"), "node{i}.toml missing peer 1");
        assert!(content.contains("7002"), "node{i}.toml missing peer 2");
        assert!(content.contains("7003"), "node{i}.toml missing peer 3");
    }
}
