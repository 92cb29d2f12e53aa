use std::collections::{BTreeMap, BTreeSet};

use bohime::config::{KeydirImpl, LogFsync, NodeConfig};
use bohime::driver::{AdminOp, AdminReply, ClusterStatus, ShardStatus};
use bohime::group;
use bohime::migrate::{diverging, plan_step, request_for, MigrationDriver, Step};
use bohime::shard_map::{ShardMap, DEFAULT_VNODES};

fn status(shard: u16, leading: bool, voters: &[u64], learners: &[u64]) -> ShardStatus {
    ShardStatus {
        shard,
        leader: if leading { Some(1) } else { Some(2) },
        term: 1,
        replicas: voters.to_vec(),
        learners: learners.to_vec(),
        leading,
        applied_index: 1,
    }
}

fn map_placing(shards: Vec<Vec<u64>>) -> ShardMap {
    ShardMap {
        version: 1,
        nodes: BTreeSet::from([1, 2, 3, 4]),
        num_shards: shards.len() as u16,
        replication_factor: 3,
        vnodes_per_node: DEFAULT_VNODES,
        shards,
    }
}

#[test]
fn a_node_the_map_adds_is_proposed_as_a_learner() {
    let map = map_placing(vec![vec![1, 2, 4]]);
    let statuses = [status(0, true, &[1, 2, 3], &[])];
    assert_eq!(plan_step(&map, &statuses, 1, 4), vec![Step::Add { shard: 0, node: 4 }]);
}

#[test]
fn a_replica_is_never_removed_before_its_replacement_votes() {
    let map = map_placing(vec![vec![1, 2, 4]]);

    let learning = [status(0, true, &[1, 2, 3], &[4])];
    assert_eq!(plan_step(&map, &learning, 1, 4), vec![], "removed a voter while 4 still learned");

    let promoted = [status(0, true, &[1, 2, 3, 4], &[])];
    assert_eq!(
        plan_step(&map, &promoted, 1, 4),
        vec![Step::Remove { shard: 0, node: 3 }],
        "did not remove the outgoing replica once its replacement voted"
    );
}

#[test]
fn only_the_leader_of_a_shard_moves_it() {
    let map = map_placing(vec![vec![1, 2, 4]]);
    let statuses = [status(0, false, &[1, 2, 3], &[])];
    assert!(plan_step(&map, &statuses, 1, 4).is_empty());
}

#[test]
fn at_most_max_migrations_move_at_once() {
    let map = map_placing(vec![vec![4]; 6]);
    let statuses: Vec<ShardStatus> = (0..6).map(|s| status(s, true, &[1], &[])).collect();

    let steps = plan_step(&map, &statuses, 1, 2);
    assert_eq!(steps.len(), 2, "the limit was not applied: {steps:?}");
    assert_eq!(
        steps,
        vec![Step::Add { shard: 0, node: 4 }, Step::Add { shard: 1, node: 4 }],
        "the limit must take shards in id order, or which ones move changes every pass"
    );
}

#[test]
fn a_shard_that_waits_for_its_learner_is_in_flight() {
    let map = map_placing(vec![vec![1, 2, 4], vec![1, 2, 4]]);
    let statuses = [status(0, true, &[1, 2, 3], &[4]), status(1, true, &[1, 2, 3], &[])];
    assert_eq!(plan_step(&map, &statuses, 1, 1), vec![]);
    assert_eq!(plan_step(&map, &statuses, 1, 2), vec![Step::Add { shard: 1, node: 4 }]);
    assert_eq!(plan_step(&map, &statuses, 1, 0), vec![]);
}

#[test]
fn a_led_shard_reaches_the_map_by_adding_first() {
    let map = map_placing(vec![vec![1, 4, 5]]);
    let (mut voters, mut learners) = (vec![1, 2, 3], vec![6]);
    let mut steps = vec![];
    loop {
        let next = plan_step(&map, &[status(0, true, &voters, &learners)], 1, 1);
        match next.first() {
            None => break,
            Some(Step::Add { node, .. }) => voters.push(*node),
            Some(Step::Remove { node, .. }) => {
                voters.retain(|id| id != node);
                learners.retain(|id| id != node);
            }
        }
        steps.extend(next);
    }
    let add = |node| Step::Add { shard: 0, node };
    let remove = |node| Step::Remove { shard: 0, node };
    assert_eq!(steps, vec![add(4), add(5), remove(2), remove(3), remove(6)]);
    assert_eq!((voters, learners), (vec![1, 4, 5], vec![]));
}

#[test]
fn a_shard_outside_the_map_is_ignored() {
    let map = map_placing(vec![vec![1, 2, 3]]);
    let statuses = [status(9, true, &[1], &[])];
    assert!(plan_step(&map, &statuses, 1, 4).is_empty());
}

#[test]
fn a_settled_shard_needs_no_step() {
    let map = map_placing(vec![vec![1, 2, 3]]);
    let statuses = [status(0, true, &[1, 2, 3], &[])];
    assert!(plan_step(&map, &statuses, 1, 4).is_empty());
}

#[test]
fn what_is_still_moving_is_counted() {
    let map = map_placing(vec![vec![1, 2, 4], vec![1, 2, 3], vec![2, 3, 4]]);
    let statuses = [
        status(0, true, &[1, 2, 3], &[4]),
        status(1, true, &[3, 2, 1], &[]),
        status(2, false, &[1, 2, 3], &[]),
    ];
    assert_eq!(diverging(&map, &statuses), 1);
}

#[test]
fn a_pass_proposes_and_reports() {
    let config = NodeConfig {
        id: 1,
        listen: String::new(),
        peers: BTreeMap::new(),
        data_dir: String::new(),
        tick: 1,
        election_timeout: 10,
        heartbeat_interval: 2,
        lease_reads: false,
        keydir: KeydirImpl::default(),
        snapshot_threshold: 1,
        initial_learner: false,
        num_shards: 1,
        replication_factor: 1,
        vnodes_per_node: 1,
        max_migrations: 1,
        log_fsync: LogFsync::default(),
        state_fsync: LogFsync::default(),
    };
    let driver = MigrationDriver::new(&config);
    let map = map_placing(vec![vec![1, 2, 4], vec![1, 2, 4]]);
    let statuses = [status(0, true, &[1, 2, 3], &[]), status(1, true, &[1, 2, 3], &[])];
    assert_eq!(
        driver.pass(Some(&map), Some(&statuses)),
        (vec![Step::Add { shard: 0, node: 4 }], 2)
    );
    assert_eq!(driver.pass(None, Some(&statuses)), (vec![], 0));
    assert_eq!(driver.pass(Some(&map), None), (vec![], 0));
}

#[test]
fn a_step_is_asked_of_its_shards_group() {
    let (g, op) = request_for(Step::Add { shard: 3, node: 4 }, Some("h:1".to_string())).unwrap();
    assert_eq!(g, group::shard(3));
    assert!(matches!(op, AdminOp::AddNode { id: 4, address } if address == "h:1"));
    assert!(request_for(Step::Add { shard: 3, node: 4 }, None).is_none());
    let (g, op) = request_for(Step::Remove { shard: 0, node: 2 }, None).unwrap();
    assert_eq!(g, group::shard(0));
    assert!(matches!(op, AdminOp::RemoveNode { id: 2 }));
}

#[test]
fn an_incoming_replicas_address_comes_from_the_meta_group() {
    let status = || ClusterStatus {
        id: 1,
        leader: None,
        term: 1,
        voters: vec![1],
        learners: vec![],
        endpoints: BTreeMap::from([(4, "h:4".to_string())]),
        commit_index: 0,
        applied_index: 0,
        log_first_index: 1,
        log_last_index: 0,
    };
    let reply = || Some(AdminReply::Status(status()));
    assert_eq!(MigrationDriver::address_of(reply(), 4), Some("h:4".to_string()));
    assert_eq!(MigrationDriver::address_of(reply(), 5), None);
    assert_eq!(MigrationDriver::address_of(None, 4), None);
    assert_eq!(MigrationDriver::address_of(Some(AdminReply::Accepted { index: 1 }), 4), None);
}
