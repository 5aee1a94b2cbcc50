use quorum::config::{ConfigError, Environment, NodeConfig};

fn environment(node_id: Option<&str>, peers: Option<&str>) -> Environment {
    Environment {
        node_id: node_id.map(str::to_string),
        listen_addr: None,
        metrics_addr: None,
        peers: peers.map(str::to_string),
        storage_dir: None,
    }
}

#[test]
fn only_the_id_is_needed() {
    let config = NodeConfig::from_env(environment(Some("1"), None)).unwrap();
    assert_eq!(config.id, 1);
    assert_eq!(config.listen_addr, "0.0.0.0:7000");
    assert_eq!(config.metrics_addr, "0.0.0.0:8000");
    assert_eq!(config.storage_dir, "./data");
    assert!(config.peers.is_empty());
    assert_eq!(config.cluster_size(), 1);
}

#[test]
fn everything_can_be_set() {
    let config = NodeConfig::from_env(Environment {
        node_id: Some("+07".to_string()),
        listen_addr: Some("127.0.0.1:7000".to_string()),
        metrics_addr: Some("127.0.0.1:8000".to_string()),
        peers: Some("2=node2:7000,3=node3:7000".to_string()),
        storage_dir: Some("/data".to_string()),
    })
    .unwrap();
    assert_eq!(config.id, 7);
    assert_eq!(config.listen_addr, "127.0.0.1:7000");
    assert_eq!(config.metrics_addr, "127.0.0.1:8000");
    assert_eq!(config.storage_dir, "/data");
    assert_eq!(config.peers.get(&2), Some(&"node2:7000".to_string()));
    assert_eq!(config.peers.get(&3), Some(&"node3:7000".to_string()));
    assert_eq!(config.cluster_size(), 3);
}

#[test]
fn empty_entries_are_skipped_and_later_ones_win() {
    let config =
        NodeConfig::from_env(environment(Some("1"), Some(",2=a,,2=b=c,"))).unwrap();
    assert_eq!(config.peers.len(), 1);
    assert_eq!(config.peers.get(&2), Some(&"b=c".to_string()));
    let alone = NodeConfig::from_env(environment(Some("1"), Some(""))).unwrap();
    assert!(alone.peers.is_empty());
}

#[test]
fn a_missing_id_is_an_error() {
    let result = NodeConfig::from_env(environment(None, Some("bad")));
    assert!(matches!(result, Err(ConfigError::NodeIdNotSet)));
}

#[test]
fn an_id_that_is_no_number_is_an_error() {
    for text in ["", "+", "-1", "one", "1 ", "4294967296", "99999999999999999999999"] {
        match NodeConfig::from_env(environment(Some(text), None)) {
            Err(ConfigError::BadNodeId(bad)) => assert_eq!(bad, text),
            other => panic!("{text:?} gave {other:?}"),
        }
        assert!(text.parse::<u32>().is_err());
    }
    let largest = NodeConfig::from_env(environment(Some("4294967295"), None)).unwrap();
    assert_eq!(largest.id, u32::MAX);
}

#[test]
fn the_first_bad_peer_is_reported() {
    match NodeConfig::from_env(environment(Some("1"), Some("2=a,three,x=c"))) {
        Err(ConfigError::BadPeerEntry(entry)) => assert_eq!(entry, "three"),
        other => panic!("got {other:?}"),
    }
    match NodeConfig::from_env(environment(Some("1"), Some("2=a,x=c,three"))) {
        Err(ConfigError::BadPeerId(id)) => assert_eq!(id, "x"),
        other => panic!("got {other:?}"),
    }
}
