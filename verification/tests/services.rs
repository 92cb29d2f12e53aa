use std::collections::{BTreeMap, BTreeSet};

use bohime::admin_service::{AdminApi, MapAsk, MapRead, Member};
use bohime::cli::{parse_peer, CliCommand, Output};
use bohime::command::Mutation;
use bohime::driver::{AdminReply, ClientOp, ClientReply, ClusterStatus, ShardStatus};
use bohime::group;
use bohime::kv_service::{Admission, Call, Code, KvApi, NotHosted, NotLeader, WriteKind};
use bohime::shard_map::ShardMap;

fn map(replicas: Vec<u64>) -> ShardMap {
    ShardMap {
        version: 6,
        nodes: BTreeSet::from([3, 1]),
        num_shards: 1,
        replication_factor: 2,
        vnodes_per_node: 128,
        shards: vec![replicas],
    }
}

#[test]
fn a_reserved_key_is_refused_at_the_service_boundary() {
    let api = KvApi::new(1);
    let m = map(vec![1]);
    match api.admission(Some((&m, 0)), b"\x00session/forged") {
        Admission::Refused(status) => assert_eq!(status.code, Code::InvalidArgument),
        other => panic!("{other:?}"),
    }
    // Whatever is asked of it: the admission comes first.
    assert!(matches!(api.admission(None, b"\x00session/forged"), Admission::Refused(_)));
    assert!(matches!(api.admission(Some((&m, 0)), b"bin\x00ary"), Admission::Ask(g) if g == group::shard(0)));
}

#[test]
fn a_key_held_elsewhere_names_who_holds_it() {
    let api = KvApi::new(1);
    let m = map(vec![3, 2]);
    match api.admission(Some((&m, 0)), b"k") {
        Admission::Elsewhere(n) => {
            assert_eq!(n, NotHosted { shard_id: 0, replicas: vec![3, 2], map_version: 6 })
        }
        other => panic!("{other:?}"),
    }
    match api.admission(None, b"k") {
        Admission::Elsewhere(n) => assert_eq!((n.replicas, n.map_version), (vec![], 0)),
        other => panic!("{other:?}"),
    }
}

#[test]
fn a_read_is_answered_in_the_services_words() {
    let api = KvApi::new(1);
    let m = map(vec![3]);
    let get = |reply| api.get(Some(&m), Call::Answered(reply));
    assert_eq!(get(ClientReply::Value(Some(vec![1]))).unwrap().value, Some(vec![1]));
    let r = get(ClientReply::NotLeader { hint: None }).unwrap();
    assert_eq!(r.not_leader, Some(NotLeader { leader_hint: 0 }));
    let r = get(ClientReply::NotHosted { shard: 0 }).unwrap();
    assert_eq!(r.not_hosted, Some(NotHosted { shard_id: 0, replicas: vec![3], map_version: 6 }));
    let e = get(ClientReply::Swapped(true)).unwrap_err();
    assert_eq!((e.code, e.message.as_str()), (Code::Internal, "driver answered a get with Swapped(true)"));
    let e = api.get(None, Call::QueueFull).unwrap_err();
    assert_eq!((e.code, e.message.as_str()), (Code::ResourceExhausted, "client request queue full"));
    let e = api.get(None, Call::Closed).unwrap_err();
    assert_eq!((e.code, e.message.as_str()), (Code::Unavailable, "node is shutting down"));
}

#[test]
fn a_write_is_answered_in_the_services_words() {
    let api = KvApi::new(1);
    let write = |kind, reply| api.write(None, kind, Call::Answered(reply));
    assert!(write(WriteKind::Put, ClientReply::Applied).unwrap().swapped);
    assert!(!write(WriteKind::Cas, ClientReply::Swapped(false)).unwrap().swapped);
    let r = write(WriteKind::Delete, ClientReply::NotLeader { hint: Some(2) }).unwrap();
    assert_eq!(r.not_leader, Some(NotLeader { leader_hint: 2 }));
    let e = write(WriteKind::Cas, ClientReply::Applied).unwrap_err();
    assert_eq!(e.message, "driver answered a cas with Applied");
    let e = write(WriteKind::Put, ClientReply::Value(Some(vec![1, 20, 255]))).unwrap_err();
    assert_eq!(e.message, "driver answered a put with Value(Some([1, 20, 255]))");
}

/// What is shown of a reply is what its `Debug` form is.
#[test]
fn a_reply_is_shown_in_full() {
    for reply in [
        ClientReply::Value(None),
        ClientReply::Value(Some(vec![])),
        ClientReply::Value(Some(vec![7])),
        ClientReply::Value(Some(vec![1, 2, 3])),
        ClientReply::Applied,
        ClientReply::Swapped(false),
        ClientReply::NotLeader { hint: None },
        ClientReply::NotLeader { hint: Some(12) },
        ClientReply::NotHosted { shard: 9 },
    ] {
        assert_eq!(bohime::kv_service::show(&reply), format!("{reply:?}"));
    }
}

#[test]
fn a_change_of_the_membership_is_answered() {
    let change = |reply| AdminApi::change(Call::Answered(reply));
    assert_eq!(change(AdminReply::Accepted { index: 9 }).unwrap().index, 9);
    let r = change(AdminReply::NotLeader { hint: Some(3) }).unwrap();
    assert_eq!((r.not_leader, r.index), (Some(NotLeader { leader_hint: 3 }), 0));
    let e = change(AdminReply::Rejected { reason: "last voter".to_string() }).unwrap_err();
    assert_eq!((e.code, e.message.as_str()), (Code::FailedPrecondition, "last voter"));
    let e = change(AdminReply::ShardMap(None)).unwrap_err();
    assert_eq!((e.code, e.message.as_str()), (Code::Internal, "driver answered the wrong request"));
    let e = AdminApi::change(Call::QueueFull).unwrap_err();
    assert_eq!(e.message, "admin request queue full");
    let e = AdminApi::check_address("").unwrap_err();
    assert_eq!(
        (e.code, e.message.as_str()),
        (Code::InvalidArgument, "a node needs an address to be reachable")
    );
    assert!(AdminApi::check_address("h:1").is_ok());
}

#[test]
fn the_cluster_is_described_by_any_node() {
    let status = ClusterStatus {
        id: 2,
        leader: None,
        term: 5,
        voters: vec![1, 2],
        learners: vec![4],
        endpoints: BTreeMap::from([(1, "h:1".to_string())]),
        commit_index: 8,
        applied_index: 7,
        log_first_index: 3,
        log_last_index: 9,
    };
    let shards = vec![ShardStatus {
        shard: 6,
        leader: Some(2),
        term: 3,
        replicas: vec![2, 1],
        learners: vec![],
        leading: true,
        applied_index: 4,
    }];
    let r = AdminApi::cluster_status(Call::Answered(AdminReply::Status(status)), &shards).unwrap();
    assert_eq!((r.node_id, r.leader_id, r.term), (2, 0, 5));
    assert_eq!((r.commit_index, r.applied_index), (8, 7));
    assert_eq!((r.log_first_index, r.log_last_index), (3, 9));
    let member = |node_id, address: &str, voter| Member { node_id, address: address.to_string(), voter };
    assert_eq!(r.members, vec![member(1, "h:1", true), member(2, "", true), member(4, "", false)]);
    assert_eq!((r.shards[0].shard_id, r.shards[0].leader_id, r.shards[0].leading), (6, 2, true));
    assert!(AdminApi::shard_statuses(Call::Closed).is_empty());
    assert_eq!(AdminApi::shard_statuses(Call::Answered(AdminReply::ShardStatuses(shards))).len(), 1);
}

#[test]
fn the_map_is_read_through_the_meta_group_or_from_this_node() {
    let read = |reply| AdminApi::map_read(Call::Answered(reply));
    assert!(matches!(read(ClientReply::Value(Some(vec![1]))), Ok(MapRead::Stored(b)) if b == vec![1]));
    match read(ClientReply::Value(None)) {
        Ok(MapRead::Answer(r)) => assert_eq!((r.not_leader, r.version), (None, 0)),
        other => panic!("{other:?}"),
    }
    match read(ClientReply::NotLeader { hint: Some(2) }) {
        Ok(MapRead::Answer(r)) => {
            assert_eq!((r.not_leader, r.version), (Some(NotLeader { leader_hint: 2 }), 0))
        }
        other => panic!("{other:?}"),
    }
    assert_eq!(read(ClientReply::Applied).unwrap_err().message, "meta driver answered with Applied");
    assert_eq!(
        AdminApi::map_read(Call::QueueFull).unwrap_err().message,
        "meta request queue full"
    );
    let placed = map(vec![3, 1]);
    match AdminApi::get_shard_map(false, Some(&placed)) {
        MapAsk::Answer(r) => {
            assert_eq!((r.version, r.num_shards, r.replication_factor), (6, 1, 2));
            assert_eq!((r.nodes, r.shards), (vec![1, 3], vec![vec![3, 1]]));
        }
        other => panic!("{other:?}"),
    }
    match AdminApi::get_shard_map(false, None) {
        MapAsk::Answer(r) => assert_eq!((r.not_leader, r.version), (None, 0)),
        other => panic!("{other:?}"),
    }
    match AdminApi::get_shard_map(true, Some(&placed)) {
        MapAsk::ReadMeta { group, op: ClientOp::Get { key } } => {
            assert_eq!((group, key), (group::META, b"\0shardmap".to_vec()))
        }
        other => panic!("{other:?}"),
    }
    assert_eq!(AdminApi::map_decoded(Ok(placed)).unwrap().version, 6);
    let e = AdminApi::map_decoded(Err("cut".to_string())).unwrap_err();
    assert_eq!((e.code, e.message.as_str()), (Code::Internal, "stored shard map: cut"));
    assert_eq!(AdminApi::verify_shard().code, Code::Unimplemented);
}

#[test]
fn a_command_line_is_text_and_a_request_is_bytes() {
    let command = CliCommand::Cas {
        key: "k\u{e9}".to_string(),
        new_value: "v".to_string(),
        expected: Some(String::new()),
    };
    match command.request() {
        ClientOp::Mutate { ctx: None, op: Mutation::Cas { key, expected, new_value } } => {
            assert_eq!(key, "k\u{e9}".as_bytes());
            assert_eq!(expected, Some(vec![]), "an empty value is not an absent key");
            assert_eq!(new_value, b"v");
        }
        other => panic!("{other:?}"),
    }
    assert!(matches!(CliCommand::Get { key: "k".to_string() }.request(),
        ClientOp::Get { key } if key == b"k"));
    assert_eq!(parse_peer("3=h"), Ok((3, "h".to_string())));
    assert_eq!(parse_peer("a=h"), Err("bad node id \"a\"".to_string()));
    assert_eq!(parse_peer("a"), Err("expected id=endpoint, got \"a\"".to_string()));
}

#[test]
fn the_client_says_what_came_of_it() {
    assert_eq!(Output::got(Some(b"blue".to_vec())), Output { text: "blue".to_string(), failed: false });
    assert_eq!(Output::got(Some(vec![b'a', 0xff])).text, "a\u{fffd}");
    assert_eq!(Output::got(None), Output { text: "(nil)".to_string(), failed: true });
    assert_eq!(Output::wrote(true), Output { text: "OK".to_string(), failed: false });
    assert_eq!(Output::wrote(false), Output { text: "(not swapped)".to_string(), failed: true });
}

#[test]
fn a_read_is_shown_or_nil() {
    assert_eq!(Output::read(Some("v".to_string())), Output { text: "v".to_string(), failed: false });
    assert_eq!(Output::read(None), Output { text: "(nil)".to_string(), failed: true });
}
