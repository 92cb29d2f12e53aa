use std::collections::BTreeSet;

use bohime::group;
use bohime::router::{route, Route};
use bohime::shard_map::ShardMap;

/// Every node holds every shard.
fn map_of(nodes: [u64; 3], shards: u16) -> ShardMap {
    ShardMap {
        version: 1,
        nodes: BTreeSet::from(nodes),
        num_shards: shards,
        replication_factor: 3,
        vnodes_per_node: 128,
        shards: (0..shards).map(|_| nodes.to_vec()).collect(),
    }
}

/// Stands in for the ring: some hash of the key, modulo the number of shards.
fn shard_for_key(map: &ShardMap, key: &[u8]) -> u16 {
    let hash = key.iter().fold(5381u64, |h, b| h.wrapping_mul(33) ^ *b as u64);
    (hash % map.num_shards as u64) as u16
}

#[test]
fn a_key_routes_to_its_shards_group_on_a_node_that_holds_it() {
    let map = map_of([1, 2, 3], 64);
    for key in [b"a".as_slice(), b"zzz", b"", b"\xff\x00"] {
        let shard = shard_for_key(&map, key);
        match route(Some((&map, shard)), 1) {
            Route::Local { shard: got, group } => {
                assert_eq!(got, shard);
                assert_eq!(group, group::shard(shard));
            }
            other => panic!("expected a local route for {key:?}, got {other:?}"),
        }
    }
}

#[test]
fn a_key_this_node_does_not_hold_names_the_nodes_that_do() {
    let map = map_of([1, 2, 3], 64);
    let key = b"some key";
    let shard = shard_for_key(&map, key);

    match route(Some((&map, shard)), 9) {
        Route::Elsewhere { shard: got, replicas } => {
            assert_eq!(got, shard);
            assert_eq!(replicas, map.replicas(shard).to_vec());
            assert!(!replicas.contains(&9));
        }
        other => panic!("expected a redirect, got {other:?}"),
    }
}

#[test]
fn a_node_with_no_map_yet_refuses_rather_than_guesses() {
    assert!(matches!(route(None, 1), Route::NoMap));
}
