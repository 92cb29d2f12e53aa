use std::collections::{BTreeMap, BTreeSet};

use bohime::config::{KeydirImpl, LogFsync, NodeConfig};
use bohime::engine::Engine;
use bohime::session::RESERVED_PREFIX;
use bohime::shard_map::{check_params, encoded, ParamMismatch, ShardMap, DEFAULT_VNODES, SHARD_MAP_KEY};
use bohime::types::millis;

fn a_map(nodes: [u64; 3]) -> ShardMap {
    ShardMap {
        version: 1,
        nodes: BTreeSet::from(nodes),
        num_shards: 256,
        replication_factor: 3,
        vnodes_per_node: DEFAULT_VNODES,
        shards: (0..256).map(|_| nodes.to_vec()).collect(),
    }
}

fn config() -> NodeConfig {
    NodeConfig {
        id: 1,
        listen: "127.0.0.1:0".to_string(),
        peers: BTreeMap::new(),
        data_dir: "/data".to_string(),
        tick: millis(10),
        election_timeout: 10,
        heartbeat_interval: 2,
        lease_reads: false,
        keydir: KeydirImpl::default(),
        snapshot_threshold: u64::MAX,
        initial_learner: false,
        num_shards: 256,
        replication_factor: 1,
        vnodes_per_node: DEFAULT_VNODES,
        max_migrations: 4,
        log_fsync: LogFsync::default(),
        state_fsync: LogFsync::default(),
    }
}

#[test]
fn the_map_key_is_in_the_reserved_space() {
    assert_eq!(SHARD_MAP_KEY[0], RESERVED_PREFIX);
}

#[test]
fn a_stored_map_round_trips_through_the_engine() {
    let mut engine = Engine::open(&Vec::new());
    assert_eq!(encoded(&engine), None);

    engine.put(&SHARD_MAP_KEY, b"a map");

    assert_eq!(encoded(&engine), Some(b"a map".to_vec()));
}

#[test]
fn a_stored_map_survives_reopening_the_engine() {
    let mut engine = Engine::open(&Vec::new());
    engine.put(&SHARD_MAP_KEY, b"a map");
    let reopened = Engine::open(&engine.scan());
    assert_eq!(encoded(&reopened), Some(b"a map".to_vec()));
}

#[test]
fn flags_matching_the_stored_map_are_accepted() {
    let mut config = config();
    config.num_shards = 256;
    config.replication_factor = 3;
    config.vnodes_per_node = DEFAULT_VNODES;

    assert_eq!(check_params(&config, &a_map([1, 2, 3])), Ok(()));
}

#[test]
fn a_different_shard_count_is_refused() {
    let mut config = config();
    config.num_shards = 512;
    config.replication_factor = 3;

    assert_eq!(
        check_params(&config, &a_map([1, 2, 3])),
        Err(ParamMismatch { parameter: "shards", ours: 512, stored: 256 })
    );
}

#[test]
fn a_different_replication_factor_is_refused() {
    let mut config = config();
    config.num_shards = 256;
    config.replication_factor = 5;

    assert_eq!(
        check_params(&config, &a_map([1, 2, 3])),
        Err(ParamMismatch { parameter: "replication-factor", ours: 5, stored: 3 })
    );
}

#[test]
fn a_different_vnode_count_is_refused() {
    let mut config = config();
    config.num_shards = 256;
    config.replication_factor = 3;
    config.vnodes_per_node = 64;

    let refused = check_params(&config, &a_map([1, 2, 3]));
    assert_eq!(refused, Err(ParamMismatch { parameter: "vnodes", ours: 64, stored: 128 }));
    assert_eq!(
        refused.unwrap_err().message(),
        "--vnodes is 64 on this node but the cluster's shard map was built with 128; it is fixed \
         at cluster creation and cannot be changed by restarting a node"
    );
}

#[test]
fn a_nodes_shards_are_listed_in_order() {
    let mut map = a_map([1, 2, 3]);
    map.num_shards = 4;
    map.shards = vec![vec![1], vec![2], vec![3, 1], vec![]];
    assert_eq!(map.shards_of(1), vec![0, 2]);
    assert!(map.holds(1, 2));
    assert!(!map.holds(1, 3));
    assert!(!map.holds(1, 9), "a shard outside the map is nobody's");
    assert_eq!(map.replicas(9), Vec::<u64>::new());
}
