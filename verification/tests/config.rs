//! Configuration.

use ferrite::config::{
    apply_overrides, validate, Config, ConfigError, NodeId, Overrides, RaftConfig, RawAddr,
    RawClusterConfig, RawConfig, RawEndpoint, RawLoggingConfig, RawPeer, RawRaftConfig,
    RawStorageConfig, SocketAddr, StorageBackend, MAX_TIMING_MS,
};
use ferrite::validation::resolve_timing;

/// An address in canonical text.
fn socket(text: &str) -> SocketAddr {
    SocketAddr {
        text: text.to_owned(),
    }
}

/// An address as a file holds it: host and port, or no address at all.
fn addr(text: &str) -> RawAddr {
    let parsed = match text.rsplit_once(':') {
        Some((_, port)) if port.parse::<u16>().is_ok() => Ok(socket(text)),
        _ => Err("invalid socket address syntax".to_owned()),
    };
    RawAddr {
        text: text.to_owned(),
        parsed,
    }
}

fn number(table: Option<&toml::Value>, key: &str) -> Option<u64> {
    table?.get(key)?.as_integer().map(|n| n as u64)
}

fn text(table: Option<&toml::Value>, key: &str) -> Option<String> {
    table?.get(key)?.as_str().map(str::to_owned)
}

fn rows(table: Option<&toml::Value>, key: &str) -> Option<Vec<RawPeer>> {
    let rows = table?.get(key)?.as_array()?;
    Some(
        rows.iter()
            .map(|row| RawPeer {
                id: number(Some(row), "id").unwrap(),
                addr: addr(&text(Some(row), "addr").unwrap()),
            })
            .collect(),
    )
}

/// Reads a file's values out of its TOML text.
fn parse_toml(source: &str) -> Result<RawConfig, ConfigError> {
    let table: toml::Table =
        toml::from_str(source).map_err(|e| ConfigError::Toml(e.to_string()))?;
    let cluster = table.get("cluster");
    let raft = table.get("raft");
    let storage = table.get("storage");
    let logging = table.get("logging");
    Ok(RawConfig {
        cluster: RawClusterConfig {
            node_id: number(cluster, "node_id"),
            listen_addr: text(cluster, "listen_addr").map(|a| addr(&a)),
            client_addr: text(cluster, "client_addr").map(|a| addr(&a)),
            peers: rows(cluster, "peers"),
            client_endpoints: rows(cluster, "client_endpoints"),
        },
        raft: RawRaftConfig {
            heartbeat_interval_ms: number(raft, "heartbeat_interval_ms"),
            rpc_timeout_ms: number(raft, "rpc_timeout_ms"),
            election_timeout_min_ms: number(raft, "election_timeout_min_ms"),
            election_timeout_max_ms: number(raft, "election_timeout_max_ms"),
            compaction_threshold: number(raft, "compaction_threshold"),
        },
        storage: RawStorageConfig {
            backend: text(storage, "backend"),
            data_dir: text(storage, "data_dir"),
        },
        logging: RawLoggingConfig {
            format: text(logging, "format"),
        },
    })
}

fn three_node_raw() -> RawConfig {
    RawConfig {
        cluster: RawClusterConfig {
            node_id: Some(1),
            listen_addr: Some(addr("127.0.0.1:7001")),
            client_addr: Some(addr("127.0.0.1:8001")),
            peers: Some(vec![
                RawPeer { id: 1, addr: addr("127.0.0.1:7001") },
                RawPeer { id: 2, addr: addr("127.0.0.1:7002") },
                RawPeer { id: 3, addr: addr("127.0.0.1:7003") },
            ]),
            client_endpoints: Some(vec![
                RawEndpoint { id: 1, addr: addr("127.0.0.1:8001") },
                RawEndpoint { id: 2, addr: addr("127.0.0.1:8002") },
                RawEndpoint { id: 3, addr: addr("127.0.0.1:8003") },
            ]),
        },
        raft:    RawRaftConfig::default(),
        storage: RawStorageConfig::default(),
        logging: RawLoggingConfig::default(),
    }
}

#[test]
fn valid_three_node_config() {
    let cfg = validate(three_node_raw()).expect("should be valid");
    assert_eq!(cfg.cluster.node_id, 1);
    assert_eq!(cfg.cluster.quorum(), 2);
    assert_eq!(cfg.cluster.peers.len(), 3);
    assert_eq!(cfg.cluster.kv_advertise.len(), 3);
}

#[test]
fn default_timing_applied() {
    let cfg = validate(three_node_raw()).unwrap();
    assert_eq!(cfg.raft, RaftConfig::default());
}

#[test]
fn btreemap_peers_keys_sorted() {
    let mut raw = three_node_raw();
    raw.cluster.peers = Some(vec![
        RawPeer { id: 3, addr: addr("127.0.0.1:7003") },
        RawPeer { id: 1, addr: addr("127.0.0.1:7001") },
        RawPeer { id: 2, addr: addr("127.0.0.1:7002") },
    ]);
    let cfg = validate(raw).unwrap();
    let keys: Vec<NodeId> = cfg.cluster.peers.keys().copied().collect();
    assert_eq!(keys, vec![1, 2, 3]);
}

#[test]
fn btreemap_kv_advertise_keys_sorted() {
    let mut raw = three_node_raw();
    raw.cluster.client_endpoints = Some(vec![
        RawEndpoint { id: 3, addr: addr("127.0.0.1:8003") },
        RawEndpoint { id: 1, addr: addr("127.0.0.1:8001") },
        RawEndpoint { id: 2, addr: addr("127.0.0.1:8002") },
    ]);
    let cfg = validate(raw).unwrap();
    let keys: Vec<NodeId> = cfg.cluster.kv_advertise.keys().copied().collect();
    assert_eq!(keys, vec![1, 2, 3]);
}

#[test]
fn timing_inversion_rpc_ge_election_min() {
    let mut raw = three_node_raw();
    raw.raft.rpc_timeout_ms = Some(400);
    raw.raft.election_timeout_min_ms = Some(300);
    let err = validate(raw).unwrap_err().message();
    assert!(err.contains("rpc_timeout_ms"), "error should name rpc_timeout_ms: {err}");
    assert!(err.contains("election_timeout_min_ms"), "error should name election_timeout_min_ms: {err}");
}

#[test]
fn listen_addr_mismatch_rejected() {
    let mut raw = three_node_raw();
    raw.cluster.listen_addr = Some(addr("127.0.0.1:9999"));
    let err = validate(raw).unwrap_err().message();
    assert!(err.contains("listen_addr"), "{err}");
}

#[test]
fn node_id_absent_from_peers_rejected() {
    let mut raw = three_node_raw();
    raw.cluster.node_id = Some(99);
    // Also fix listen_addr to avoid a secondary error
    raw.cluster.listen_addr = Some(addr("127.0.0.1:7099"));
    let err = validate(raw).unwrap_err().message();
    assert!(err.contains("absent from cluster.peers"), "{err}");
}

#[test]
fn raft_and_kv_addr_collision_rejected() {
    let mut raw = three_node_raw();
    raw.cluster.client_endpoints = Some(vec![
        RawEndpoint { id: 1, addr: addr("127.0.0.1:8001") },
        RawEndpoint { id: 2, addr: addr("127.0.0.1:7002") }, // ← same as Raft peer 2
        RawEndpoint { id: 3, addr: addr("127.0.0.1:8003") },
    ]);
    let err = validate(raw).unwrap_err().message();
    assert!(err.contains("collides"), "{err}");
}

#[test]
fn missing_client_endpoint_for_peer_rejected() {
    let mut raw = three_node_raw();
    raw.cluster.client_endpoints = Some(vec![
        RawEndpoint { id: 1, addr: addr("127.0.0.1:8001") },
        RawEndpoint { id: 2, addr: addr("127.0.0.1:8002") },
        // id 3 missing
    ]);
    let err = validate(raw).unwrap_err().message();
    assert!(err.contains("missing entry for peer id 3"), "{err}");
}

#[test]
fn override_peers_replaces_file_entirely() {
    let mut raw = three_node_raw();
    let overrides = Overrides {
        peers: vec![(1, socket("127.0.0.1:7001"))],
        kv_advertise: vec![(1, socket("127.0.0.1:8001"))],
        ..Default::default()
    };
    apply_overrides(&mut raw, overrides);
    assert_eq!(raw.cluster.peers.as_ref().unwrap().len(), 1, "override should replace, not union");
}

#[test]
fn override_kv_advertise_replaces_file_entirely() {
    let mut raw = three_node_raw(); // has 3 client_endpoints
    let overrides = Overrides {
        kv_advertise: vec![(1, socket("127.0.0.1:8001"))],
        ..Default::default()
    };
    apply_overrides(&mut raw, overrides);
    assert_eq!(
        raw.cluster.client_endpoints.as_ref().unwrap().len(),
        1,
        "--client-endpoint override should replace file client_endpoints, not union"
    );
}

#[test]
fn toml_round_trip() {
    let toml_str = r#"
[cluster]
node_id     = 1
listen_addr = "127.0.0.1:7001"
client_addr = "127.0.0.1:8001"

[[cluster.peers]]
id   = 1
addr = "127.0.0.1:7001"

[[cluster.peers]]
id   = 2
addr = "127.0.0.1:7002"

[[cluster.peers]]
id   = 3
addr = "127.0.0.1:7003"

[[cluster.client_endpoints]]
id   = 1
addr = "127.0.0.1:8001"

[[cluster.client_endpoints]]
id   = 2
addr = "127.0.0.1:8002"

[[cluster.client_endpoints]]
id   = 3
addr = "127.0.0.1:8003"
"#;
    let raw = parse_toml(toml_str).expect("TOML parse failed");
    let cfg = validate(raw).expect("validation failed");
    assert_eq!(cfg.cluster.node_id, 1);
    assert_eq!(cfg.cluster.peers.len(), 3);
}

// ── Gap coverage: timing zeros & bounds ───────────────────────────────

#[test]
fn election_timeout_min_zero_rejected() {
    let mut raw = three_node_raw();
    raw.raft.election_timeout_min_ms = Some(0);
    let err = validate(raw).unwrap_err().message();
    assert!(err.contains("election_timeout_min_ms"), "{err}");
    assert!(err.contains("must not be 0"), "{err}");
}

#[test]
fn election_timeout_max_zero_rejected() {
    let mut raw = three_node_raw();
    raw.raft.election_timeout_max_ms = Some(0);
    let err = validate(raw).unwrap_err().message();
    assert!(err.contains("election_timeout_max_ms"), "{err}");
    assert!(err.contains("must not be 0"), "{err}");
}

#[test]
fn heartbeat_zero_rejected() {
    let mut raw = three_node_raw();
    raw.raft.heartbeat_interval_ms = Some(0);
    let err = validate(raw).unwrap_err().message();
    assert!(err.contains("heartbeat_interval_ms"), "{err}");
    assert!(err.contains("must not be 0"), "{err}");
}

#[test]
fn rpc_timeout_zero_rejected() {
    let mut raw = three_node_raw();
    raw.raft.rpc_timeout_ms = Some(0);
    let err = validate(raw).unwrap_err().message();
    assert!(err.contains("rpc_timeout_ms"), "{err}");
    assert!(err.contains("must not be 0"), "{err}");
}

#[test]
fn compaction_threshold_zero_rejected() {
    let mut raw = three_node_raw();
    raw.raft.compaction_threshold = Some(0);
    let err = validate(raw).unwrap_err().message();
    assert!(err.contains("compaction_threshold"), "{err}");
}

#[test]
fn heartbeat_ge_rpc_rejected() {
    let mut raw = three_node_raw();
    raw.raft.heartbeat_interval_ms = Some(100);
    raw.raft.rpc_timeout_ms = Some(100);
    let err = validate(raw).unwrap_err().message();
    assert!(err.contains("heartbeat_interval_ms"), "{err}");
    assert!(err.contains("rpc_timeout_ms"), "{err}");
}

#[test]
fn election_min_ge_max_rejected() {
    let mut raw = three_node_raw();
    raw.raft.election_timeout_min_ms = Some(600);
    raw.raft.election_timeout_max_ms = Some(600);
    let err = validate(raw).unwrap_err().message();
    assert!(err.contains("election_timeout_min_ms"), "{err}");
    assert!(err.contains("election_timeout_max_ms"), "{err}");
}

#[test]
fn timing_above_max_rejected() {
    let mut raw = three_node_raw();
    raw.raft.election_timeout_max_ms = Some(MAX_TIMING_MS + 1);
    // Keep chain order so only the upper-bound check fires for emax.
    raw.raft.election_timeout_min_ms = Some(300);
    let err = validate(raw).unwrap_err().message();
    assert!(err.contains("exceeds maximum"), "{err}");
    assert!(err.contains("election_timeout_max_ms"), "{err}");
}

#[test]
fn soft_election_ratio_does_not_fail_validation() {
    // emin < 5 * hb but still satisfies hb < rpc < emin < emax
    let mut raw = three_node_raw();
    raw.raft.heartbeat_interval_ms = Some(50);
    raw.raft.rpc_timeout_ms = Some(100);
    raw.raft.election_timeout_min_ms = Some(200); // 200 < 5*50=250
    raw.raft.election_timeout_max_ms = Some(600);
    let cfg = validate(raw).expect("soft warn must not fail validation");
    assert_eq!(cfg.raft.election_timeout_min.as_millis(), 200);
}

// ── Gap coverage: storage disk / rocksdb ──────────────────────────────

#[test]
fn storage_disk_requires_data_dir() {
    let mut raw = three_node_raw();
    raw.storage.backend = Some("disk".into());
    raw.storage.data_dir = None;
    let err = validate(raw).unwrap_err().message();
    assert!(err.contains("data_dir"), "{err}");
    assert!(err.contains("disk"), "{err}");
}

#[test]
fn storage_disk_with_data_dir_ok() {
    let mut raw = three_node_raw();
    raw.storage.backend = Some("disk".into());
    raw.storage.data_dir = Some("./data/n1".into());
    let cfg = validate(raw).expect("disk + data_dir should validate");
    match cfg.storage.backend {
        StorageBackend::Disk { data_dir } => {
            assert_eq!(data_dir, "./data/n1");
        }
        other => panic!("expected Disk, got {other:?}"),
    }
}

#[test]
fn storage_rocksdb_name_rejected() {
    let mut raw = three_node_raw();
    raw.storage.backend = Some("rocksdb".into());
    raw.storage.data_dir = Some("./data".into());
    let err = validate(raw).unwrap_err().message();
    assert!(err.contains("rocksdb"), "{err}");
    assert!(err.contains("disk"), "{err}");
}

#[test]
fn storage_unknown_backend_rejected() {
    let mut raw = three_node_raw();
    raw.storage.backend = Some("sqlite".into());
    let err = validate(raw).unwrap_err().message();
    assert!(err.contains("unknown value"), "{err}");
    assert!(err.contains("memory") && err.contains("disk"), "{err}");
}

#[test]
fn logging_unknown_format_rejected() {
    let mut raw = three_node_raw();
    raw.logging.format = Some("yaml".into());
    let err = validate(raw).unwrap_err().message();
    assert!(err.contains("logging.format"), "{err}");
}

// ── Gap coverage: cluster identity / bijection ────────────────────────

#[test]
fn client_addr_mismatch_rejected() {
    let mut raw = three_node_raw();
    raw.cluster.client_addr = Some(addr("127.0.0.1:8999"));
    let err = validate(raw).unwrap_err().message();
    assert!(err.contains("client_addr"), "{err}");
}

#[test]
fn extra_advertise_id_without_peer_rejected() {
    let mut raw = three_node_raw();
    raw.cluster.client_endpoints = Some(vec![
        RawEndpoint {
            id: 1,
            addr: addr("127.0.0.1:8001"),
        },
        RawEndpoint {
            id: 2,
            addr: addr("127.0.0.1:8002"),
        },
        RawEndpoint {
            id: 3,
            addr: addr("127.0.0.1:8003"),
        },
        RawEndpoint {
            id: 99,
            addr: addr("127.0.0.1:8099"),
        },
    ]);
    let err = validate(raw).unwrap_err().message();
    assert!(err.contains("id 99"), "{err}");
    assert!(err.contains("no matching peer"), "{err}");
}

#[test]
fn duplicate_peer_ids_rejected() {
    let mut raw = three_node_raw();
    raw.cluster.peers = Some(vec![
        RawPeer {
            id: 1,
            addr: addr("127.0.0.1:7001"),
        },
        RawPeer {
            id: 1,
            addr: addr("127.0.0.1:7002"),
        },
        RawPeer {
            id: 2,
            addr: addr("127.0.0.1:7003"),
        },
    ]);
    // endpoints must still be provided for whatever keys survive — expect dup id error
    let err = validate(raw).unwrap_err().message();
    assert!(err.contains("duplicate peer id"), "{err}");
}

#[test]
fn duplicate_peer_addrs_rejected() {
    let mut raw = three_node_raw();
    raw.cluster.peers = Some(vec![
        RawPeer {
            id: 1,
            addr: addr("127.0.0.1:7001"),
        },
        RawPeer {
            id: 2,
            addr: addr("127.0.0.1:7001"),
        },
        RawPeer {
            id: 3,
            addr: addr("127.0.0.1:7003"),
        },
    ]);
    let err = validate(raw).unwrap_err().message();
    assert!(err.contains("duplicate address") || err.contains("7001"), "{err}");
}

#[test]
fn node_id_zero_rejected() {
    let mut raw = three_node_raw();
    raw.cluster.node_id = Some(0);
    let err = validate(raw).unwrap_err().message();
    assert!(err.contains("node_id"), "{err}");
}

#[test]
fn peer_id_zero_rejected() {
    let mut raw = three_node_raw();
    raw.cluster.peers = Some(vec![
        RawPeer {
            id: 0,
            addr: addr("127.0.0.1:7000"),
        },
        RawPeer {
            id: 1,
            addr: addr("127.0.0.1:7001"),
        },
    ]);
    let err = validate(raw).unwrap_err().message();
    assert!(err.contains("id 0 is reserved") || err.contains("id: 0"), "{err}");
}

#[test]
fn all_peers_unparseable_surfaces_clear_error() {
    let mut raw = three_node_raw();
    raw.cluster.peers = Some(vec![
        RawPeer {
            id: 1,
            addr: addr("not-a-socket"),
        },
        RawPeer {
            id: 2,
            addr: addr("also-bad"),
        },
    ]);
    let err = validate(raw).unwrap_err().message();
    assert!(
        err.contains("no valid peer entries") || err.contains("invalid socket"),
        "{err}"
    );
}

#[test]
fn multi_error_validation_collects_several() {
    let mut raw = three_node_raw();
    raw.raft.heartbeat_interval_ms = Some(0);
    raw.raft.rpc_timeout_ms = Some(0);
    raw.logging.format = Some("bad".into());
    match validate(raw).unwrap_err() {
        ConfigError::Validation { errors } => {
            assert!(
                errors.len() >= 3,
                "expected multiple errors, got {errors:?}"
            );
        }
        other => panic!("expected Validation, got {other:?}"),
    }
}

#[test]
fn ipv6_addrs_accepted() {
    let mut raw = three_node_raw();
    raw.cluster.listen_addr = Some(addr("[::1]:7001"));
    raw.cluster.client_addr = Some(addr("[::1]:8001"));
    raw.cluster.peers = Some(vec![
        RawPeer {
            id: 1,
            addr: addr("[::1]:7001"),
        },
        RawPeer {
            id: 2,
            addr: addr("[::1]:7002"),
        },
    ]);
    raw.cluster.client_endpoints = Some(vec![
        RawEndpoint {
            id: 1,
            addr: addr("[::1]:8001"),
        },
        RawEndpoint {
            id: 2,
            addr: addr("[::1]:8002"),
        },
    ]);
    let cfg = validate(raw).expect("IPv6 SocketAddr should be accepted");
    assert!(cfg.cluster.raft_bind.is_ipv6());
    assert_eq!(cfg.cluster.quorum(), 2);
}

// ── Gap coverage: load path / no config source ────────────────────────

#[test]
fn load_path_none_no_flags_clear_error() {
    let err = Config::load(None, Overrides::default()).unwrap_err().message();
    assert!(
        err.contains("no configuration source") || err.contains("--config"),
        "{err}"
    );
}

#[test]
fn load_path_none_with_flags_still_requires_file() {
    let overrides = Overrides {
        peers: vec![(1, socket("127.0.0.1:7001"))],
        kv_advertise: vec![(1, socket("127.0.0.1:8001"))],
        ..Default::default()
    };
    let err = Config::load(None, overrides).unwrap_err().message();
    assert!(
        err.contains("no --config path") || err.contains("node_id"),
        "{err}"
    );
}

#[test]
fn one_sided_peer_override_error_mentions_client_endpoint() {
    let mut raw = three_node_raw();
    // Simulate --peer only: shrink peers without touching endpoints
    raw.cluster.peers = Some(vec![RawPeer {
        id: 1,
        addr: addr("127.0.0.1:7001"),
    }]);
    let err = validate(raw).unwrap_err().message();
    assert!(
        err.contains("--client-endpoint") || err.contains("no matching peer"),
        "{err}"
    );
}

#[test]
fn one_sided_endpoint_override_error_mentions_peer() {
    let mut raw = three_node_raw();
    raw.cluster.client_endpoints = Some(vec![RawEndpoint {
        id: 1,
        addr: addr("127.0.0.1:8001"),
    }]);
    let err = validate(raw).unwrap_err().message();
    assert!(
        err.contains("--peer") || err.contains("missing entry for peer"),
        "{err}"
    );
}

/// What a node relies on: it is a peer, binds what the peers know of it, and no
/// address is used twice.
fn assert_sound(cfg: &Config) {
    let cluster = &cfg.cluster;
    assert_ne!(cluster.node_id, 0);
    assert_eq!(cluster.peers[&cluster.node_id].addr, cluster.raft_bind);
    assert_eq!(cluster.kv_addr_for(cluster.node_id), Some(cluster.kv_bind.clone()));
    assert_eq!(cluster.kv_addr_for(99), None);
    let mut addrs: Vec<String> = Vec::new();
    for (id, peer) in &cluster.peers {
        addrs.push(peer.addr.text.clone());
        addrs.push(cluster.kv_advertise[id].text.clone());
    }
    assert_eq!(cluster.peers.len(), cluster.kv_advertise.len());
    let count = addrs.len();
    addrs.sort();
    addrs.dedup();
    assert_eq!(addrs.len(), count);
    let raft = &cfg.raft;
    assert!(0 < raft.heartbeat_interval.as_millis());
    assert!(raft.heartbeat_interval.as_millis() < raft.rpc_timeout.as_millis());
    assert!(raft.rpc_timeout.as_millis() < raft.election_timeout_min.as_millis());
    assert!(raft.election_timeout_min.as_millis() < raft.election_timeout_max.as_millis());
    assert!(raft.election_timeout_max.as_millis() <= 600_000);
}

#[test]
fn accepted_configurations_are_sound() {
    assert_sound(&validate(three_node_raw()).unwrap());
    let mut raw = three_node_raw();
    raw.raft.election_timeout_max_ms = Some(600_000);
    assert_sound(&validate(raw).unwrap());
    // One millisecond more is refused.
    let mut raw = three_node_raw();
    raw.raft.election_timeout_max_ms = Some(600_001);
    assert!(validate(raw).is_err());
}

#[test]
fn a_flag_wins_over_the_file_and_the_file_over_the_default() {
    let mut raw = three_node_raw();
    raw.raft.heartbeat_interval_ms = Some(20);
    raw.raft.rpc_timeout_ms = Some(80);
    let flags = Overrides { heartbeat_interval_ms: Some(30), ..Overrides::default() };
    let cfg = Config::load(Some(Ok(raw)), flags).unwrap();
    assert_eq!(cfg.raft.heartbeat_interval.as_millis(), 30);
    assert_eq!(cfg.raft.rpc_timeout.as_millis(), 80);
    assert_eq!(cfg.raft.election_timeout_min.as_millis(), 300);
    assert_eq!(cfg.raft.election_timeout_max.as_millis(), 600);
    assert_eq!(cfg.raft.compaction_threshold, 1000);
}

#[test]
fn a_configuration_is_cloned_whole() {
    let mut raw = three_node_raw();
    raw.storage.backend = Some("disk".into());
    raw.storage.data_dir = Some("./data/n1".into());
    let cfg = validate(raw).unwrap();
    let copy = cfg.clone();
    assert_eq!(copy.cluster, cfg.cluster);
    assert_eq!(copy.cluster.peers[&2].clone(), cfg.cluster.peers[&2]);
    assert_eq!(copy.raft, cfg.raft);
    assert_eq!(copy.storage, cfg.storage);
    assert_eq!(copy.logging, cfg.logging);
}

#[test]
fn too_little_room_for_elections_is_noticed() {
    let mut raw = three_node_raw();
    raw.raft.heartbeat_interval_ms = Some(50);
    raw.raft.election_timeout_min_ms = Some(249);
    assert!(resolve_timing(&raw.raft).spurious_elections_likely());
    raw.raft.election_timeout_min_ms = Some(250);
    assert!(!resolve_timing(&raw.raft).spurious_elections_likely());
    // What is not set at all is reported elsewhere.
    raw.raft.election_timeout_min_ms = Some(0);
    assert!(!resolve_timing(&raw.raft).spurious_elections_likely());
    raw.raft.heartbeat_interval_ms = Some(u64::MAX);
    raw.raft.election_timeout_min_ms = Some(u64::MAX);
    assert!(resolve_timing(&raw.raft).spurious_elections_likely());
    // The defaults leave room.
    raw.raft.heartbeat_interval_ms = None;
    raw.raft.election_timeout_min_ms = None;
    assert!(!resolve_timing(&raw.raft).spurious_elections_likely());
}
