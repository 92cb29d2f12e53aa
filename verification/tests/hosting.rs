use std::collections::BTreeSet;

use bohime::config::{KeydirImpl, LogFsync, NodeConfig};
use bohime::driver::{
    AdminOp, AdminReply, Answer, ClientOp, ClientReply, Group, NodeView, RequestStep,
};
use bohime::engine::Engine;
use bohime::group::{self, META};
use bohime::hosting::{
    AdminRequest, AdminRouted, ClientRequest, Driver, Routed, RECONCILE_EVERY_TICKS,
};
use bohime::types::{millis, ClusterConfig, Role};

fn group(id: u32, peers: &[(u64, &str)]) -> Group {
    let config = NodeConfig {
        id: 1,
        listen: "h:1".to_string(),
        peers: peers.iter().map(|(id, a)| (*id, a.to_string())).collect(),
        data_dir: "/data".to_string(),
        tick: millis(10),
        election_timeout: 10,
        heartbeat_interval: 2,
        lease_reads: false,
        keydir: KeydirImpl::default(),
        snapshot_threshold: 3,
        initial_learner: false,
        num_shards: 4,
        replication_factor: 1,
        vnodes_per_node: 128,
        max_migrations: 4,
        log_fsync: LogFsync::default(),
        state_fsync: LogFsync::default(),
    };
    Group::new(&config, id, Engine::open(&Vec::new()), 0, 0)
}

fn view(voters: &[u64], learners: &[u64]) -> NodeView {
    NodeView {
        id: 1,
        leader: Some(1),
        term: 3,
        role: Role::Leader,
        config: ClusterConfig { voters: voters.to_vec(), learners: learners.to_vec() },
        commit_index: 0,
    }
}

fn get(group: u32) -> ClientRequest {
    ClientRequest { group, op: ClientOp::get(b"k"), ticket: 5 }
}

#[test]
fn a_request_for_an_unhosted_group_is_redirected_not_dropped() {
    let mut d = Driver::new(vec![group(group::shard(0), &[])], BTreeSet::new());
    match d.handle_request(get(group::shard(99)), Some(&view(&[1], &[])), 0) {
        Routed::Answered(reply) => {
            assert_eq!(reply.ticket, 5);
            assert!(matches!(reply.answer, Answer::Client(ClientReply::NotHosted { shard: 99 })));
        }
        other => panic!("{other:?}"),
    }
    assert!(matches!(d.handle_request(get(group::shard(0)), None, 0), Routed::Answered(_)));
}

#[test]
fn one_driver_serves_each_group_from_its_own_state_machine() {
    let mut d = Driver::new(
        vec![group(group::shard(3), &[]), group(META, &[]), group(group::shard(0), &[])],
        BTreeSet::new(),
    );
    let ids: Vec<u32> = d.groups.iter().map(|g| g.id()).collect();
    assert_eq!(ids, vec![META, group::shard(0), group::shard(3)]);
    assert_eq!(d.to_drain(None), ids, "a tick moves every group");
    assert_eq!(d.to_drain(Some(group::shard(3))), vec![group::shard(3)]);
    assert!(d.to_drain(Some(group::shard(9))).is_empty());
    let v = view(&[1], &[]);
    assert!(matches!(d.handle_request(get(group::shard(3)), Some(&v), 0),
        Routed::Step(RequestStep::Confirm { token: 1, .. })));
    assert!(matches!(d.handle_request(get(group::shard(0)), Some(&v), 0),
        Routed::Step(RequestStep::Confirm { token: 1, .. })));
    assert!(matches!(d.handle_request(get(group::shard(3)), Some(&v), 0),
        Routed::Step(RequestStep::Confirm { token: 2, .. })));
}

#[test]
fn a_group_can_be_handed_to_a_running_driver() {
    let mut d = Driver::new(vec![], BTreeSet::new());
    assert!(!d.host(group(group::shard(7), &[])));
    assert!(!d.host(group(group::shard(2), &[])));
    assert!(d.host(group(group::shard(7), &[])), "founded twice");
    assert_eq!(d.groups.len(), 2);
    assert!(matches!(d.handle_request(get(group::shard(7)), Some(&view(&[1], &[])), 0), Routed::Step(_)));
}

#[test]
fn an_unhosted_group_cannot_be_administered() {
    let mut d = Driver::new(vec![], BTreeSet::new());
    let request = AdminRequest { group: 42, op: AdminOp::Status, ticket: 1 };
    match d.handle_admin(request, None, 1, 0) {
        AdminRouted::Answered(reply) => assert!(matches!(
            reply.answer,
            Answer::Admin(AdminReply::Rejected { reason }) if reason == "this node does not host group 42"
        )),
        other => panic!("{other:?}"),
    }
    let request = AdminRequest { group: 0, op: AdminOp::ShardStatuses, ticket: 1 };
    assert!(matches!(d.handle_admin(request, None, 1, 0), AdminRouted::Statuses));
}

/// A group goes only when it no longer names this node.
#[test]
fn a_group_is_released_only_by_its_own_word() {
    let g = group::shard(2);
    let mut d = Driver::new(vec![group(g, &[])], BTreeSet::new());
    let request = || AdminRequest { group: g, op: AdminOp::ReleaseShard { shard: 2 }, ticket: 1 };
    let released = |r: AdminRouted| match r {
        AdminRouted::Answered(reply) => match reply.answer {
            Answer::Admin(AdminReply::Released { released }) => released,
            other => panic!("{other:?}"),
        },
        other => panic!("{other:?}"),
    };
    assert!(!released(d.handle_admin(request(), Some(&view(&[1, 2], &[])), 1, 0)));
    assert!(!released(d.handle_admin(request(), Some(&view(&[], &[1])), 1, 0)));
    assert_eq!(d.groups.len(), 1);
    assert!(released(d.handle_admin(request(), Some(&view(&[2, 3], &[])), 1, 0)));
    assert!(d.groups.is_empty());
}

#[test]
fn shards_are_reported_in_order_and_the_meta_group_is_not() {
    let d = Driver::new(
        vec![group(group::shard(5), &[]), group(META, &[]), group(group::shard(1), &[])],
        BTreeSet::new(),
    );
    let views = vec![view(&[1], &[]), view(&[1, 2], &[4]), view(&[3], &[])];
    let statuses = d.shard_statuses(&views);
    assert_eq!(statuses.iter().map(|s| s.shard).collect::<Vec<_>>(), vec![1, 5]);
    assert_eq!(statuses[0].replicas, vec![1, 2]);
    assert_eq!(statuses[0].learners, vec![4]);
    assert!(statuses[0].leading);
    assert_eq!((statuses[0].leader, statuses[0].term), (Some(1), 3));
}

#[test]
fn links_follow_the_union_of_the_memberships() {
    let mut d = Driver::new(
        vec![
            group(group::shard(0), &[(2, "h:2"), (3, "h:3")]),
            group(group::shard(1), &[(2, "other:2"), (4, "h:4")]),
        ],
        BTreeSet::from([3, 9]),
    );
    let views = vec![view(&[1, 2], &[]), view(&[1, 3, 5], &[4])];
    let links = d.reconcile_peers(&views);
    assert_eq!(links.dropped, vec![9]);
    assert_eq!(links.dialled, vec![(2, "h:2".to_string()), (4, "h:4".to_string())]);
    assert_eq!(links.unreachable, vec![(group::shard(1), 5)]);
    assert_eq!(d.peers, BTreeSet::from([2, 3, 4]));
    assert_eq!(d.groups[1].unreachable, BTreeSet::from([5]));

    let links = d.reconcile_peers(&views);
    assert!(links.dropped.is_empty() && links.dialled.is_empty());
    assert!(links.unreachable.is_empty(), "said once");

    d.groups[0].endpoints.insert(5, "h:5".to_string());
    let links = d.reconcile_peers(&views);
    assert_eq!(links.dialled, vec![(5, "h:5".to_string())]);
    assert!(d.groups[1].unreachable.is_empty());
}

#[test]
fn links_are_held_against_the_membership_when_it_moves_and_now_and_then() {
    let mut d = Driver::new(vec![], BTreeSet::new());
    assert!(d.reconcile_due(false), "the first drain does it");
    assert!(!d.reconcile_due(false));
    assert!(d.reconcile_due(true));
    for _ in 0..RECONCILE_EVERY_TICKS - 1 {
        d.tick();
        assert!(!d.reconcile_due(false));
    }
    d.tick();
    assert!(d.reconcile_due(false));
}
