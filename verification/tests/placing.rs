use std::collections::{BTreeMap, BTreeSet};

use bohime::config::{KeydirImpl, LogFsync, NodeConfig};
use bohime::driver::{apply, AdminReply, ClientOp, ClientReply, ClusterStatus};
use bohime::command::Command;
use bohime::engine::Engine;
use bohime::group;
use bohime::meta::{MetaReconciler, Reconcile, Verdict};
use bohime::placement::{
    founded_at, hosted_on_disk, record_founding, DirEntry, PlacementError,
};
use bohime::session::CommandResponse;
use bohime::shard_map::{encoded, ShardMap};
use bohime::shards::{open, Origin, PassStart, Release, ShardSupervisor};
use bohime::text::NumberFault;
use bohime::types::millis;

fn founder(id: u64) -> NodeConfig {
    NodeConfig {
        id,
        listen: "h".to_string(),
        peers: (2..=5).map(|p| (p, format!("in-process://{p}"))).collect(),
        data_dir: "/data".to_string(),
        tick: millis(10),
        election_timeout: 10,
        heartbeat_interval: 2,
        lease_reads: false,
        keydir: KeydirImpl::default(),
        snapshot_threshold: 3,
        initial_learner: false,
        num_shards: 4,
        replication_factor: 1,
        vnodes_per_node: 128,
        max_migrations: 4,
        log_fsync: LogFsync::default(),
        state_fsync: LogFsync::default(),
    }
}

fn map_of(shards: Vec<Vec<u64>>, version: u64) -> ShardMap {
    ShardMap {
        version,
        nodes: BTreeSet::from([1, 2]),
        num_shards: shards.len() as u16,
        replication_factor: 1,
        vnodes_per_node: 128,
        shards,
    }
}

fn status(voters: &[u64], learners: &[u64]) -> Option<AdminReply> {
    Some(AdminReply::Status(ClusterStatus {
        id: 1,
        leader: None,
        term: 1,
        voters: voters.to_vec(),
        learners: learners.to_vec(),
        endpoints: BTreeMap::new(),
        commit_index: 0,
        applied_index: 0,
        log_first_index: 1,
        log_last_index: 0,
    }))
}

#[test]
fn a_founder_creates_a_group_for_every_shard_the_map_gives_it() {
    let s = ShardSupervisor::new(founder(1));
    let map = map_of(vec![vec![1, 2], vec![2], vec![1], vec![1, 3]], 1);
    let founding = s.found(&map);
    assert_eq!(founding.shards, vec![(0, vec![1, 2]), (2, vec![1]), (3, vec![1, 3])]);
    assert_eq!(founding.version, 1);
}

#[test]
fn a_node_with_no_map_founds_nothing_and_records_nothing() {
    let s = ShardSupervisor::new(founder(1));
    assert_eq!(s.pass(None, &Ok(None)), PassStart::Idle);
    let map = map_of(vec![vec![1]], 1);
    assert_eq!(s.pass(Some(&map), &Ok(None)), PassStart::Found);
    assert_eq!(s.pass(Some(&map), &Ok(Some(1))), PassStart::Follow);
    let bad = Err(PlacementError::NotAVersion { path: "p".to_string(), fault: NumberFault::Empty });
    assert_eq!(s.pass(Some(&map), &bad), PassStart::Stuck);
}

#[test]
fn a_joining_node_founds_nothing_and_still_records_the_version() {
    let mut config = founder(1);
    config.initial_learner = true;
    let s = ShardSupervisor::new(config);
    let map = map_of(vec![vec![1]; 8], 1);
    let founding = s.found(&map);
    assert!(founding.shards.is_empty());
    assert_eq!(founding.version, 1);
    assert_eq!(s.incoming(&map), (0..8).collect::<Vec<u16>>(), "it adopts them instead");
}

#[test]
fn a_founder_that_missed_bootstrap_founds_nothing() {
    let s = ShardSupervisor::new(founder(1));
    let founding = s.found(&map_of(vec![vec![1]; 8], 4));
    assert!(founding.shards.is_empty());
    assert_eq!(founding.version, 4);
}

#[test]
fn a_restart_reopens_disk_adopts_the_map_and_founds_nothing() {
    let mut config = founder(1);
    config.num_shards = 8;

    // A previous life: two shards founded, the marker written.
    let found = ["00002", "00005"].map(|name| DirEntry { name: name.to_string(), is_dir: true });
    let on_disk = hosted_on_disk(&found.into());
    assert_eq!(on_disk, BTreeSet::from([2, 5]));
    let marker = record_founding(1);
    let founded = founded_at(&config, Some(&marker));

    // A map that would give this node every shard, if it were allowed to found
    // from it.
    let map = map_of(vec![vec![1]; 8], 3);
    let mut s = ShardSupervisor::new(config);
    for shard in &on_disk {
        assert!(s.take_up(*shard));
    }
    assert_eq!(
        s.pass(Some(&map), &founded),
        PassStart::Follow,
        "a restart founded shards it never held"
    );
    for shard in s.incoming(&map) {
        assert!(s.take_up(shard));
    }
    assert_eq!(
        s.hosted,
        map.shards_of(1).into_iter().collect::<BTreeSet<_>>(),
        "a restart did not host the shards on disk plus the ones the map added"
    );
    assert_eq!(founded.unwrap(), Some(1), "the marker was rewritten");
}

#[test]
fn a_founded_groups_voters_survive_a_reopen() {
    let config = founder(1);
    let founded = open(&config, 7, &Origin::Found { voters: vec![1, 2, 3] }, &None);
    assert_eq!(founded.peers, vec![2, 3]);
    assert!(!founded.initial_learner);
    let reopened = open(&config, 7, &Origin::Reopen, &Some(vec![1, 2, 3]));
    assert_eq!(reopened, founded, "the reopened group invented a membership from its flags");
}

#[test]
fn a_founder_adopting_a_shard_never_becomes_its_voter() {
    let config = founder(1);
    let adopted = open(&config, 7, &Origin::Adopt, &Some(vec![1, 2]));
    assert!(adopted.peers.is_empty());
    assert!(adopted.initial_learner);
    let reopened = open(&config, 7, &Origin::Reopen, &None);
    assert_eq!((reopened.peers, reopened.initial_learner), (vec![], true));
    let emptied = open(&config, 7, &Origin::Reopen, &Some(vec![]));
    assert_eq!((emptied.peers, emptied.initial_learner), (vec![], true));
}

#[test]
fn a_shard_the_map_places_here_later_is_adopted() {
    let mut s = ShardSupervisor::new(founder(1));
    assert!(s.take_up(1));
    assert!(!s.take_up(1), "hosted twice");
    let map = map_of(vec![vec![1], vec![1], vec![2], vec![1]], 2);
    assert_eq!(s.incoming(&map), vec![0, 3]);
    s.take_up(0);
    s.give_back(0);
    assert_eq!(s.incoming(&map), vec![0, 3], "one that could not be opened is tried again");
}

#[test]
fn a_shard_is_deleted_only_when_both_witnesses_agree() {
    let mut s = ShardSupervisor::new(founder(1));
    s.take_up(0);
    s.take_up(1);
    let moved = map_of(vec![vec![2], vec![1]], 2);
    assert_eq!(s.departing(&moved), vec![0], "the map's word");
    assert_eq!(ShardSupervisor::release_request(0).0, group::shard(0));
    let refused = Some(AdminReply::Released { released: false });
    assert_eq!(s.release_answered(0, refused), Release::Keep);
    assert_eq!(s.release_answered(0, Some(AdminReply::Accepted { index: 1 })), Release::Keep);
    assert_eq!(s.release_answered(0, None), Release::Stop);
    assert!(s.hosted.contains(&0));
    let agreed = Some(AdminReply::Released { released: true });
    assert_eq!(s.release_answered(0, agreed), Release::Unlink);
    assert_eq!(s.hosted, BTreeSet::from([1]));
}

#[test]
fn a_departed_shard_is_reported_once() {
    let mut s = ShardSupervisor::new(founder(1));
    s.take_up(0);
    s.take_up(1);
    let moved = map_of(vec![vec![2], vec![2]], 2);
    assert_eq!(s.newly_departed(&moved), vec![0, 1]);
    assert_eq!(s.newly_departed(&moved), Vec::<u16>::new());
    assert_eq!(s.reported, BTreeSet::from([0, 1]));
}

#[test]
fn a_pass_of_the_reconciler_goes_by_the_stored_map() {
    let m = MetaReconciler::new(founder(1));
    assert!(matches!(m.reconcile(None), Reconcile::Wait));
    assert!(matches!(m.reconcile(Some(AdminReply::ShardMap(None))), Reconcile::Bootstrap));
    assert!(matches!(m.reconcile(Some(AdminReply::ShardMap(Some(vec![1])))),
        Reconcile::Decode(b) if b == vec![1]));
    let map = map_of(vec![vec![1]; 4], 1);
    assert!(matches!(m.judge(&map), Verdict::Publish));
    let wrong = map_of(vec![vec![1]; 5], 1);
    assert!(matches!(m.judge(&wrong), Verdict::Refuse(p) if p.parameter == "shards" && p.stored == 5));
}

#[test]
fn a_settled_cluster_stops_republishing() {
    let m = MetaReconciler::new(founder(1));
    let map = map_of(vec![vec![1]; 4], 1);
    assert_eq!(m.follow_cluster(&map, status(&[2, 1], &[])), None);
    assert_eq!(m.follow_cluster(&map, status(&[], &[])), None);
    assert_eq!(m.follow_cluster(&map, None), None);
    assert_eq!(m.follow_cluster(&map, status(&[1, 2], &[7])), Some(BTreeSet::from([1, 2, 7])));
}

#[test]
fn the_meta_leader_bootstraps_version_one() {
    let m = MetaReconciler::new(founder(1));
    let first = m.bootstrap(status(&[2, 1], &[3])).unwrap();
    assert_eq!((first.version, first.nodes), (1, vec![2, 1, 3]));
    assert_eq!((first.num_shards, first.replication_factor, first.vnodes_per_node), (4, 1, 128));
    assert!(m.bootstrap(status(&[], &[])).is_none());
}

#[test]
fn bootstrap_does_not_run_twice() {
    let mut engine = Engine::open(&Vec::new());
    let mut swap = |expected: Option<&[u8]>, new: &[u8]| {
        let op = MetaReconciler::swap(expected.map(|e| e.to_vec()), new.to_vec());
        match op {
            ClientOp::Mutate { ctx, op } => apply(&mut engine, &Command::new(ctx, op)).unwrap(),
            other => panic!("{other:?}"),
        }
    };
    assert_eq!(swap(None, b"one"), CommandResponse::Swapped(true));
    assert_eq!(swap(None, b"other"), CommandResponse::Swapped(false));
    assert_eq!(swap(Some(b"other"), b"two"), CommandResponse::Swapped(false));
    assert_eq!(swap(Some(b"one"), b"two"), CommandResponse::Swapped(true));
    assert_eq!(encoded(&engine), Some(b"two".to_vec()));
    assert!(MetaReconciler::landed(Some(ClientReply::Swapped(true))));
    assert!(!MetaReconciler::landed(Some(ClientReply::Swapped(false))));
    assert!(!MetaReconciler::landed(Some(ClientReply::NotLeader { hint: None })));
    assert!(!MetaReconciler::landed(None));
}
