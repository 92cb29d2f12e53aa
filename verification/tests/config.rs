use std::collections::BTreeMap;

use bohime::config::{
    parse_peer, read_peer, Args, ConfigError, KeydirImpl, LogFsync, NodeConfig, PeerFault,
};
use bohime::types::millis;

fn cfg(id: u64) -> NodeConfig {
    NodeConfig {
        id,
        listen: "127.0.0.1:7001".to_string(),
        peers: BTreeMap::from([(2, "http://127.0.0.1:7002".to_string())]),
        data_dir: "/tmp/n".to_string(),
        tick: millis(20),
        election_timeout: 15,
        heartbeat_interval: 3,
        lease_reads: false,
        keydir: KeydirImpl::default(),
        snapshot_threshold: u64::MAX,
        initial_learner: false,
        num_shards: 256,
        replication_factor: 1,
        vnodes_per_node: 128,
        max_migrations: 4,
        log_fsync: LogFsync::default(),
        state_fsync: LogFsync::default(),
    }
}

#[test]
fn the_raft_log_and_the_state_machine_get_separate_directories() {
    let c = cfg(1);
    assert_ne!(c.shard_raft_dir(0), c.shard_state_dir(0), "one directory cannot hold both");
    assert!(c.shard_raft_dir(0).starts_with(&c.data_dir));
    assert!(c.shard_state_dir(0).starts_with(&c.data_dir));
}

#[test]
fn nodes_get_different_election_seeds() {
    assert_ne!(cfg(1).raft_config().seed, cfg(2).raft_config().seed);
    assert_ne!(cfg(2).raft_config().seed, cfg(3).raft_config().seed);
}

#[test]
fn the_raft_config_carries_the_peers_but_not_ourselves() {
    let raft = cfg(1).raft_config();
    assert_eq!(raft.id, 1);
    assert_eq!(raft.peers, vec![2]);
    assert_eq!(raft.cluster_size(), 2);
}

#[test]
fn the_heartbeat_is_well_inside_the_election_timeout() {
    let c = cfg(1);
    assert!(c.heartbeat_interval * 3 <= c.election_timeout);
}

fn args(id: u64, peers: Vec<(u64, String)>) -> Args {
    Args {
        id,
        listen: "127.0.0.1:7001".to_string(),
        peers,
        data_dir: "/tmp/n".to_string(),
        tick_ms: 20,
        election_timeout: 15,
        heartbeat_interval: 3,
        lease_reads: false,
        keydir: KeydirImpl::default(),
        snapshot_threshold: u64::MAX,
        num_shards: 256,
        replication_factor: 1,
        vnodes_per_node: 128,
        max_migrations: 4,
        log_fsync: LogFsync::default(),
        state_fsync: LogFsync::default(),
        join: false,
    }
}

#[test]
fn a_node_filters_itself_out_of_a_uniform_cluster_list() {
    let uniform = vec![
        (1, "http://127.0.0.1:7001".to_string()),
        (2, "http://127.0.0.1:7002".to_string()),
        (3, "http://127.0.0.1:7003".to_string()),
    ];
    let config = args(2, uniform).into_config().unwrap();
    assert_eq!(config.peers.keys().copied().collect::<Vec<_>>(), vec![1, 3]);
    assert_eq!(config.raft_config().cluster_size(), 3);
}

#[test]
fn a_repeated_peer_is_an_error() {
    let repeated =
        vec![(2, "http://127.0.0.1:7002".to_string()), (2, "http://127.0.0.1:9999".to_string())];
    assert!(args(1, repeated).into_config().is_err());
}

#[test]
fn each_unusable_command_line_says_why() {
    let twice = vec![(2, "a".to_string()), (2, "b".to_string())];
    let e = args(1, twice).into_config().unwrap_err();
    assert_eq!(e, ConfigError::PeerTwice { id: 2 });
    assert_eq!(e.message(), "peer 2 given twice");

    let mut a = args(1, vec![]);
    a.replication_factor = 0;
    let e = a.into_config().unwrap_err();
    assert_eq!(e, ConfigError::NoReplicas);
    assert_eq!(e.message(), "--replication-factor must be at least 1");

    let mut a = args(1, vec![(2, "x".to_string())]);
    a.replication_factor = 3;
    let e = a.into_config().unwrap_err();
    assert_eq!(e, ConfigError::TooManyReplicas { factor: 3, cluster_size: 2 });
    assert_eq!(
        e.message(),
        "--replication-factor 3 exceeds the 2-node cluster in --peer; a shard cannot have more \
         replicas than there are nodes to put them on"
    );

    let mut a = args(1, vec![]);
    a.num_shards = 0;
    assert_eq!(a.into_config().unwrap_err().message(), "--shards must be at least 1");

    let mut a = args(1, vec![]);
    a.vnodes_per_node = 0;
    assert_eq!(a.into_config().unwrap_err().message(), "--vnodes must be at least 1");
}

#[test]
fn a_lease_is_shorter_than_an_election_and_a_request_outlasts_several() {
    let c = cfg(1);
    let election = millis(20) * 15;
    assert_eq!(c.lease_duration(), millis(200));
    assert!(c.lease_duration() < election);
    assert_eq!(c.request_timeout(), election * 6);
}

#[test]
fn groups_of_one_node_draw_different_timeouts() {
    let c = cfg(1);
    assert_ne!(c.raft_config_for(1).seed, c.raft_config_for(2).seed);
    assert_eq!(c.raft_config_for(2).seed, c.raft_config().seed);
}

#[test]
fn a_peer_flag_is_an_id_and_an_endpoint() {
    assert_eq!(parse_peer("7=http://h:1=2"), Ok((7, "http://h:1=2".to_string())));
    assert_eq!(parse_peer("7"), Err("expected id=endpoint, got \"7\"".to_string()));
    assert_eq!(parse_peer("x\n=h"), Err("bad peer id \"x\\n\"".to_string()));
}

#[test]
fn directories_are_named_after_their_shards() {
    let c = cfg(1);
    assert_eq!(c.shards_dir(), "/tmp/n/shards");
    assert_eq!(c.shard_dir(7), "/tmp/n/shards/00007");
    assert_eq!(c.shard_raft_dir(7), format!("{}/raft", c.shard_dir(7)));
    assert_eq!(c.shard_state_dir(7), format!("{}/state", c.shard_dir(7)));
    assert_eq!(c.legacy_raft_dir(), "/tmp/n/raft");
    assert_eq!(c.legacy_state_dir(), "/tmp/n/state");
    assert_eq!(c.meta_raft_dir(), "/tmp/n/meta-raft");
    assert_eq!(c.meta_state_dir(), "/tmp/n/meta-state");
}

#[test]
fn a_flag_is_split_at_its_first_equals_sign() {
    assert_eq!(read_peer("7=http://h:1/?a=b"), Ok((7, "http://h:1/?a=b".to_string())));
    assert_eq!(read_peer("7"), Err(PeerFault::NoEquals));
    let bad = read_peer("x=y").unwrap_err();
    assert_eq!(bad, PeerFault::BadId { text: "x".to_string() });
    assert_eq!(bad.message("bad id ", "<x>"), "bad id <x>");
    assert_eq!(PeerFault::NoEquals.message("bad id ", "<7>"), "expected id=endpoint, got <7>");
}
