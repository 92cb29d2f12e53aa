use std::collections::{BTreeMap, BTreeSet};

use bohime::command::{Command, Mutation};
use bohime::config::{KeydirImpl, LogFsync, NodeConfig};
use bohime::drain::{
    Body, Committed, DrainError, Finished, Imaging, Outgoing, Ready, Unapplied, Unimaged, Unsettled,
    Unsynced, Untaken,
};
use bohime::driver::{
    apply, AdminOp, AdminReply, AdminStep, Answer, ClientOp, ClientReply, ConfProposeError, Filed,
    Group, NodeView, ProposeError, ReadIndexError, ReadState, Reply, RequestStep,
};
use bohime::engine::{Engine, Write};
use bohime::group::{self, META};
use bohime::membership::{encode_book, ConfChange, ConfOp};
use bohime::read_view::{resolve, Resolved};
use bohime::session::{session_key, CommandResponse, RequestCtx};
use bohime::shard_map::SHARD_MAP_KEY;
use bohime::snapshot::{encode, SnapshotError};
use bohime::storage::BitcaskStorage;
use bohime::types::{millis, ClusterConfig, Entry, HardState, Nanos, Role, Snapshot};

fn config() -> NodeConfig {
    NodeConfig {
        id: 1,
        listen: "h:1".to_string(),
        peers: BTreeMap::from([(2, "h:2".to_string())]),
        data_dir: "/data".to_string(),
        tick: millis(10),
        election_timeout: 10,
        heartbeat_interval: 2,
        lease_reads: true,
        keydir: KeydirImpl::default(),
        snapshot_threshold: 3,
        initial_learner: false,
        num_shards: 4,
        replication_factor: 1,
        vnodes_per_node: 128,
        max_migrations: 4,
        log_fsync: LogFsync::default(),
        state_fsync: LogFsync::default(),
    }
}

fn group_on(engine: Engine) -> Group {
    Group::new(&config(), group::shard(0), engine, 0, 0)
}

fn a_group() -> Group {
    group_on(Engine::open(&Vec::new()))
}

fn view(role: Role, term: u64, commit_index: u64) -> NodeView {
    NodeView {
        id: 1,
        leader: if role == Role::Leader { Some(1) } else { Some(2) },
        term,
        role,
        config: ClusterConfig { voters: vec![1, 2], learners: vec![] },
        commit_index,
    }
}

fn a_log() -> BitcaskStorage {
    BitcaskStorage::open(Engine::open(&Vec::new())).unwrap()
}

fn command(term: u64, index: u64, ctx: Option<RequestCtx>, op: Mutation) -> Committed {
    Committed { term, index, body: Body::Command(Command::new(ctx, op).encode()) }
}

fn put(key: &[u8], value: &[u8]) -> Mutation {
    Mutation::Put { key: key.to_vec(), value: value.to_vec() }
}

fn cas(key: &[u8], expected: Option<&[u8]>, new_value: &[u8]) -> Mutation {
    Mutation::Cas {
        key: key.to_vec(),
        expected: expected.map(|e| e.to_vec()),
        new_value: new_value.to_vec(),
    }
}

fn ready(committed: Vec<Committed>) -> Ready<&'static str> {
    Ready { messages: vec![], committed, snapshot: None, read_states: vec![] }
}

/// A drain whose log is on disk.
fn flushed(ready: Ready<&'static str>) -> (Outgoing<&'static str>, Unapplied) {
    let (_, rest) = Unsynced::begin(ready).sync(&mut a_log());
    rest.release(Ok::<(), ()>(()), None, &BTreeSet::new()).unwrap()
}

/// Goes on without an image, whether or not one is due.
fn not_due(rest: Unimaged, group: &mut Group) -> Unsettled {
    match rest.next(group) {
        Imaging::NotDue(rest) => rest,
        Imaging::Due(due) => {
            let at = group.snapshot_index;
            let (_, made) = due.image(group, 1, &ClusterConfig { voters: vec![], learners: vec![] });
            let rest = made.written(Ok::<(), ()>(())).unwrap().1.taken(group, Ok::<bool, ()>(false));
            assert_eq!(group.snapshot_index, at);
            rest.unwrap()
        }
    }
}

/// An image of what a group has applied, as its core is asked to take it.
fn image_of(group: &mut Group, term: u64, config: &ClusterConfig) -> (Vec<Write>, Snapshot, Untaken) {
    let threshold = group.snapshot_threshold;
    group.snapshot_threshold = 0;
    let rest = flushed(ready(vec![])).1.apply(group, None).1.unwrap();
    let due = match rest.next(group) {
        Imaging::Due(due) => due,
        Imaging::NotDue(_) => panic!("nothing is applied"),
    };
    group.snapshot_threshold = threshold;
    let (writes, made) = due.image(group, term, config);
    let (image, untaken) = made.written(Ok::<(), ()>(())).unwrap();
    (writes, image, untaken)
}

/// Runs a whole drain with nothing in the way.
fn drain(group: &mut Group, ready: Ready<&'static str>, view: &NodeView, now: Nanos) -> Finished {
    drain_with(group, ready, view, now, true)
}

/// Runs a whole drain. `swapped` says whether readers are out of the way.
fn drain_with(
    group: &mut Group,
    ready: Ready<&'static str>,
    view: &NodeView,
    now: Nanos,
    swapped: bool,
) -> Finished {
    let (out, rest) = flushed(ready);
    assert!(out.sends.is_empty());
    let (mut replies, rest) = rest.apply(group, view.leader);
    let rest = not_due(rest.unwrap(), group);
    let rest = rest.restore(group).unwrap();
    let mut done = rest.finish(group, swapped, view, &BTreeMap::new(), now);
    replies.append(&mut done.replies);
    done.replies = replies;
    done
}

type Pairs = BTreeMap<Vec<u8>, Vec<u8>>;

/// What a store has on disk: what was written, and what a crash leaves of it.
#[derive(Default)]
struct Disk {
    written: Pairs,
    durable: Pairs,
}

impl Disk {
    fn carry_out(&mut self, writes: Vec<Write>) {
        for write in writes {
            match write {
                Write::Put { key, value } => {
                    self.written.insert(key, value);
                }
                Write::Delete { key } => {
                    self.written.remove(&key);
                }
                Write::Flush => self.durable = self.written.clone(),
            }
        }
    }

    /// The store that a crash leaves.
    fn reopened(&self) -> Engine {
        Engine::open(&self.durable.clone().into_iter().collect())
    }
}

/// Files a read and has a quorum confirm it.
fn confirmed_read(group: &mut Group, key: &[u8], ticket: u64, view: &NodeView, index: u64) -> ReadState {
    let token = match group.handle_request(ClientOp::get(key), ticket, view, 0) {
        RequestStep::Confirm { token, key } => {
            group.read_started(token, key, Ok(()), ticket, view, 0);
            token
        }
        other => panic!("{other:?}"),
    };
    ReadState { token, index }
}

fn client_answers(replies: &[Reply]) -> Vec<(u64, String)> {
    replies
        .iter()
        .map(|r| match &r.answer {
            Answer::Client(reply) => (r.ticket, format!("{reply:?}")),
            Answer::Admin(reply) => (r.ticket, format!("{reply:?}")),
        })
        .collect()
}

#[test]
fn the_constructors_track_no_retries() {
    assert!(matches!(ClientOp::get(b"k"), ClientOp::Get { key } if key == b"k"));
    assert!(matches!(ClientOp::put(b"k", b"v"),
        ClientOp::Mutate { ctx: None, op: Mutation::Put { key, value } } if key == b"k" && value == b"v"));
    assert!(matches!(ClientOp::delete(b"k"),
        ClientOp::Mutate { ctx: None, op: Mutation::Delete { key } } if key == b"k"));
}

#[test]
fn a_put_is_committed_then_readable() {
    let mut g = a_group();
    let leader = view(Role::Leader, 1, 0);
    let step = g.handle_request(ClientOp::put(b"k", b"v"), 7, &leader, 0);
    let command = match step {
        RequestStep::Propose { command } => command,
        other => panic!("{other:?}"),
    };
    assert!(matches!(g.proposed(Ok(1), 7, &leader, 0), Filed::Waiting { displaced: None }));
    let leader = view(Role::Leader, 1, 1);
    let entry = Committed { term: 1, index: 1, body: Body::Command(command) };
    let done = drain(&mut g, ready(vec![entry]), &leader, 0);
    assert_eq!(client_answers(&done.replies), vec![(7, "Applied".to_string())]);
    assert_eq!(g.engine.get(b"k"), Some(b"v".to_vec()));
    assert_eq!((g.applied_index, g.visible.index()), (1, 1));

    let (token, key) = match g.handle_request(ClientOp::get(b"k"), 8, &leader, 0) {
        RequestStep::Confirm { token, key } => (token, key),
        other => panic!("{other:?}"),
    };
    g.read_started(token, key, Ok(()), 8, &leader, 0);
    let mut confirmed = ready(vec![]);
    confirmed.read_states = vec![ReadState { token, index: 1 }];
    let done = drain(&mut g, confirmed, &leader, 0);
    assert_eq!(done.jobs.len(), 1);
    assert_eq!((done.jobs[0].key.as_slice(), done.jobs[0].at, done.jobs[0].ticket), (&b"k"[..], 1, 8));
}

#[test]
fn a_follower_refuses_a_write_instead_of_applying_it() {
    let mut g = a_group();
    let follower = view(Role::Follower, 1, 0);
    match g.proposed(Err(ProposeError::NotLeader), 3, &follower, 0) {
        Filed::Answered(reply) => {
            assert_eq!(client_answers(&[reply]), vec![(3, "NotLeader { hint: Some(2) }".to_string())])
        }
        other => panic!("{other:?}"),
    }
    match g.read_started(1, vec![], Err(ReadIndexError::NoQuorumInTerm), 4, &follower, 0) {
        Filed::Answered(reply) => assert_eq!(reply.ticket, 4),
        other => panic!("{other:?}"),
    }
    assert!(g.pending.is_empty() && g.pending_reads.is_empty());
}

/// A write that a later leader overwrote is no success.
#[test]
fn an_overwritten_entry_is_answered_as_such() {
    let mut g = a_group();
    g.proposed(Ok(1), 7, &view(Role::Leader, 1, 0), 0);
    let leader = view(Role::Leader, 2, 1);
    let done = drain(&mut g, ready(vec![command(2, 1, None, put(b"k", b"theirs"))]), &leader, 0);
    assert_eq!(client_answers(&done.replies), vec![(7, "NotLeader { hint: Some(1) }".to_string())]);
    assert_eq!(g.engine.get(b"k"), Some(b"theirs".to_vec()));
}

#[test]
fn a_no_op_is_applied_and_means_nothing() {
    let mut g = a_group();
    let done = drain(
        &mut g,
        ready(vec![Committed { term: 1, index: 1, body: Body::Command(vec![]) }]),
        &view(Role::Leader, 1, 1),
        0,
    );
    assert!(done.replies.is_empty());
    assert_eq!(g.applied_index, 1);
    assert!(g.engine.scan().is_empty());
}

#[test]
fn an_entry_that_cannot_be_read_stops_the_group() {
    let mut g = a_group();
    let bad = Committed { term: 1, index: 4, body: Body::Command(vec![0xff; 5]) };
    assert_eq!(g.apply_committed(&vec![bad], None).1.unwrap_err(), DrainError::Undecodable { index: 4 });

    // The entry before it is applied and answered; the one behind it is neither.
    let leader = view(Role::Leader, 1, 0);
    let mut g = a_group();
    g.proposed(Ok(1), 7, &leader, 0);
    g.proposed(Ok(3), 8, &leader, 0);
    let batch = vec![
        command(1, 1, None, put(b"a", b"1")),
        Committed { term: 1, index: 2, body: Body::Command(vec![0xff; 5]) },
        command(1, 3, None, put(b"b", b"2")),
    ];
    let (replies, outcome) = g.apply_committed(&batch, Some(1));
    assert_eq!(outcome, Err(DrainError::Undecodable { index: 2 }));
    assert_eq!(client_answers(&replies), vec![(7, "Applied".to_string())]);
    assert_eq!(g.applied_index, 1);
    assert_eq!(g.engine.scan(), vec![(b"a".to_vec(), b"1".to_vec())]);
    assert_eq!(g.pending.keys().copied().collect::<Vec<_>>(), vec![3]);

    let mut engine = Engine::open(&Vec::new());
    engine.put(&session_key(9), b"no entry");
    let mut g = group_on(engine);
    let entry = command(1, 1, Some(RequestCtx { client_id: 9, sequence: 1 }), put(b"k", b"v"));
    assert_eq!(g.apply_committed(&vec![entry], None).1.unwrap_err(), DrainError::Session);
}

#[test]
fn a_retried_cas_applies_exactly_once() {
    let mut engine = Engine::open(&Vec::new());
    let ctx = Some(RequestCtx { client_id: 42, sequence: 1 });
    assert_eq!(
        apply(&mut engine, &Command::new(None, put(b"k", b"v1"))),
        Ok(CommandResponse::Applied)
    );
    let swap = Command::new(ctx, cas(b"k", Some(b"v1"), b"v2"));
    assert_eq!(apply(&mut engine, &swap), Ok(CommandResponse::Swapped(true)));
    assert_eq!(
        apply(&mut engine, &swap),
        Ok(CommandResponse::Swapped(true)),
        "a retry must repeat the first answer"
    );
    assert_eq!(engine.get(b"k"), Some(b"v2".to_vec()));

    let older = Command::new(Some(RequestCtx { client_id: 42, sequence: 0 }), put(b"k", b"old"));
    assert_eq!(apply(&mut engine, &older), Ok(CommandResponse::Swapped(true)));
    assert_eq!(engine.get(b"k"), Some(b"v2".to_vec()), "an older request changes nothing");
    let newer = Command::new(Some(RequestCtx { client_id: 42, sequence: 2 }), put(b"k", b"new"));
    assert_eq!(apply(&mut engine, &newer), Ok(CommandResponse::Applied));
    assert_eq!(engine.get(b"k"), Some(b"new".to_vec()));
}

#[test]
fn a_retried_cas_without_a_context_reports_the_wrong_answer() {
    let mut engine = Engine::open(&vec![(b"k".to_vec(), b"v1".to_vec())]);
    let swap = Command::new(None, cas(b"k", Some(b"v1"), b"v2"));
    assert_eq!(apply(&mut engine, &swap), Ok(CommandResponse::Swapped(true)));
    assert_eq!(apply(&mut engine, &swap), Ok(CommandResponse::Swapped(false)));
}

#[test]
fn cas_against_an_absent_key_creates_it() {
    let mut engine = Engine::open(&Vec::new());
    let swap = Command::new(None, cas(b"fresh", None, b"v"));
    assert_eq!(apply(&mut engine, &swap), Ok(CommandResponse::Swapped(true)));
    assert_eq!(engine.get(b"fresh"), Some(b"v".to_vec()));
}

#[test]
fn cas_declines_when_the_value_does_not_match() {
    let mut engine = Engine::open(&vec![(b"k".to_vec(), b"actual".to_vec())]);
    let swap = Command::new(None, cas(b"k", Some(b"guessed"), b"new"));
    assert_eq!(apply(&mut engine, &swap), Ok(CommandResponse::Swapped(false)));
    assert_eq!(engine.get(b"k"), Some(b"actual".to_vec()), "it must not have written");
}

/// One client's answers outlive what every other client does.
#[test]
fn a_session_outlives_other_clients() {
    let mut engine = Engine::open(&Vec::new());
    let ctx = RequestCtx { client_id: 7, sequence: 3 };
    apply(&mut engine, &Command::new(Some(ctx), cas(b"k", None, b"v"))).unwrap();
    let other = RequestCtx { client_id: 8, sequence: 9 };
    apply(&mut engine, &Command::new(Some(other), put(b"k", b"w"))).unwrap();
    apply(&mut engine, &Command::new(None, Mutation::Delete { key: b"k".to_vec() })).unwrap();
    let retry = Command::new(Some(ctx), cas(b"k", None, b"v"));
    assert_eq!(apply(&mut engine, &retry), Ok(CommandResponse::Swapped(true)));
    assert_eq!(engine.get(b"k"), None);
}

/// The session table is state like any other: it rides along in a snapshot, and
/// a replica that never answered the request recognises the retry.
#[test]
fn the_session_table_survives_a_leader_change() {
    let ctx = Some(RequestCtx { client_id: 7, sequence: 1 });
    let entries = || {
        vec![
            command(1, 1, None, put(b"k", b"v1")),
            command(1, 2, ctx, cas(b"k", Some(b"v1"), b"v2")),
        ]
    };
    let leader = view(Role::Leader, 1, 2);
    let mut first = a_group();
    drain(&mut first, ready(entries()), &leader, 0);
    let snap = image_of(&mut first, 1, &leader.config).1;

    let mut follower = a_group();
    drain(&mut follower, ready(entries()), &view(Role::Follower, 1, 2), 0);
    let mut restored = a_group();
    restored.restore_snapshot(&snap).unwrap();

    for mut second in [follower, restored] {
        second.proposed(Ok(3), 9, &view(Role::Leader, 2, 2), 0);
        let done = drain(
            &mut second,
            ready(vec![command(2, 3, ctx, cas(b"k", Some(b"v1"), b"v2"))]),
            &view(Role::Leader, 2, 3),
            0,
        );
        assert_eq!(client_answers(&done.replies), vec![(9, "Swapped(true)".to_string())]);
    }
}

#[test]
fn a_delete_removes_the_key() {
    let mut g = a_group();
    g.proposed(Ok(2), 4, &view(Role::Leader, 1, 0), 0);
    let entries = vec![
        command(1, 1, None, put(b"k", b"v")),
        command(1, 2, None, Mutation::Delete { key: b"k".to_vec() }),
    ];
    let done = drain(&mut g, ready(entries), &view(Role::Leader, 1, 2), 0);
    assert_eq!(client_answers(&done.replies), vec![(4, "Applied".to_string())]);
    assert_eq!(g.engine.get(b"k"), None);
}

/// Everything a client was told was applied is in what reached the disk.
#[test]
fn applied_writes_survive_a_restart() {
    let mut first = a_group();
    drain(&mut first, ready(vec![command(1, 1, None, put(b"k", b"v"))]), &view(Role::Leader, 1, 1), 0);
    let mut disk = BTreeMap::new();
    for write in first.engine.take_writes() {
        match write {
            Write::Put { key, value } => {
                disk.insert(key, value);
            }
            Write::Delete { key } => {
                disk.remove(&key);
            }
            Write::Flush => {}
        }
    }
    let second = group_on(Engine::open(&disk.into_iter().collect()));
    assert_eq!(second.engine.get(b"k"), Some(b"v".to_vec()));
}

/// A restart from a snapshot is a restart from the whole log.
#[test]
fn restart_from_snapshot_recovers_all_state() {
    let entries: Vec<Committed> = (0..6u64)
        .map(|i| command(1, i + 1, None, put(format!("k{i}").as_bytes(), format!("v{i}").as_bytes())))
        .collect();
    let leader = view(Role::Leader, 1, 6);
    let mut first = a_group();
    drain(&mut first, ready(entries[..4].iter().map(copy).collect()), &leader, 0);
    let snap = image_of(&mut first, 1, &leader.config).1;

    let mut second = Group::new(
        &config(),
        group::shard(0),
        Engine::open(&bohime::snapshot::decode(&snap.data).unwrap().pairs),
        snap.last_included_index,
        0,
    );
    drain(&mut second, ready(entries[4..].iter().map(copy).collect()), &leader, 0);
    for i in 0..6 {
        assert_eq!(
            second.engine.get(format!("k{i}").as_bytes()),
            Some(format!("v{i}").into_bytes())
        );
    }
    drain(&mut second, ready(vec![command(1, 7, None, put(b"after", b"restart"))]), &leader, 0);
    assert_eq!(second.engine.get(b"after"), Some(b"restart".to_vec()));
}

/// The tail of the log is applied again after a restart, over a state that
/// already reflects it.
#[test]
fn a_replay_changes_nothing() {
    let entries = || {
        vec![
            command(1, 1, Some(RequestCtx { client_id: 1, sequence: 1 }), put(b"a", b"1")),
            command(1, 2, Some(RequestCtx { client_id: 1, sequence: 2 }), cas(b"a", Some(b"1"), b"2")),
            command(1, 3, Some(RequestCtx { client_id: 2, sequence: 1 }), put(b"b", b"3")),
        ]
    };
    let mut g = a_group();
    g.apply_committed(&entries(), None).1.unwrap();
    let before = g.engine.scan();
    g.apply_committed(&entries()[1..].iter().map(copy).collect(), None).1.unwrap();
    assert_eq!(g.engine.scan(), before);
}

/// Writes without a context, membership changes and swaps of the shard map are
/// carried out again, and come to the same.
#[test]
fn a_replay_of_bare_writes_sets_what_was_set() {
    let conf = |index, op, node, context: &[u8]| Committed {
        term: 1,
        index,
        body: Body::Conf(Some(ConfChange { op, node, context: context.to_vec() })),
    };
    let entries = || {
        vec![
            command(1, 1, None, put(b"a", b"1")),
            command(1, 2, None, put(b"b", b"2")),
            conf(3, ConfOp::AddLearner, 4, b"h:4"),
            conf(4, ConfOp::AddLearner, 5, b"h:5"),
            command(1, 5, None, Mutation::Delete { key: b"a".to_vec() }),
            conf(6, ConfOp::RemoveLearner, 4, b""),
            command(1, 7, None, cas(&SHARD_MAP_KEY, None, b"one")),
            command(1, 8, None, cas(&SHARD_MAP_KEY, Some(b"one"), b"two")),
        ]
    };
    let mut g = a_group();
    g.apply_committed(&entries(), None).1.unwrap();
    let before = g.engine.scan();
    for from in 0..entries().len() {
        g.apply_committed(&entries()[from..].iter().map(copy).collect(), None).1.unwrap();
        assert_eq!(g.engine.scan(), before, "replayed from {from}");
    }
    assert_eq!(g.engine.get(b"a"), None);
    assert_eq!(g.engine.get(&SHARD_MAP_KEY), Some(b"two".to_vec()));
    assert!(!g.endpoints.contains_key(&4));
}

fn copy(entry: &Committed) -> Committed {
    let body = match &entry.body {
        Body::Command(bytes) => Body::Command(bytes.clone()),
        Body::Conf(change) => Body::Conf(change.clone()),
    };
    Committed { term: entry.term, index: entry.index, body }
}

#[test]
fn replicas_that_apply_the_same_entries_agree() {
    let entries = vec![
        command(1, 1, None, put(b"a", b"1")),
        Committed {
            term: 1,
            index: 2,
            body: Body::Conf(Some(ConfChange {
                op: ConfOp::AddLearner,
                node: 4,
                context: b"h:4".to_vec(),
            })),
        },
        command(1, 3, None, cas(b"a", Some(b"1"), b"2")),
    ];
    let mut leader = a_group();
    leader.proposed(Ok(1), 1, &view(Role::Leader, 1, 0), 0);
    let mut follower = a_group();
    leader.apply_committed(&entries, Some(1)).1.unwrap();
    follower.apply_committed(&entries[..1].iter().map(copy).collect(), None).1.unwrap();
    follower.apply_committed(&entries[1..].iter().map(copy).collect(), None).1.unwrap();
    assert_eq!(leader.engine.scan(), follower.engine.scan());
    assert_eq!(leader.endpoints, follower.endpoints);
    assert_eq!(leader.endpoints.get(&4).map(String::as_str), Some("h:4"));
}

#[test]
fn the_flags_are_a_default_and_the_book_wins() {
    let mut engine = Engine::open(&Vec::new());
    bohime::membership::record_endpoint(&mut engine, 2, "moved:2");
    bohime::membership::record_endpoint(&mut engine, 3, "h:3");
    let g = group_on(engine);
    assert_eq!(
        g.endpoints,
        BTreeMap::from([(1, "h:1".to_string()), (2, "moved:2".to_string()), (3, "h:3".to_string())])
    );
    assert_eq!(g.id(), group::shard(0));
    assert!(g.promote_learners);
    assert!(!Group::new(&config(), META, Engine::open(&Vec::new()), 0, 0).promote_learners);
}

/// A vote is flushed before a message leaves, on a log that has nothing else.
#[test]
fn a_vote_is_durable_before_it_is_granted_on_the_wire() {
    let mut log = a_log();
    let vote = HardState { current_term: 4, voted_for: Some(2), commit_index: 0 };
    log.save_hard_state(&vote);
    let ready = Ready {
        messages: vec![(2, "vote"), (3, "first"), (3, "second"), (9, "stranger")],
        committed: vec![],
        snapshot: None,
        read_states: vec![],
    };
    let (writes, rest) = Unsynced::begin(ready).sync(&mut log);
    assert!(matches!(writes.as_slice(), [Write::Put { .. }, Write::Flush]));
    let mut disk = Disk::default();
    disk.carry_out(writes);
    let after_a_crash = BitcaskStorage::open(disk.reopened()).unwrap();
    assert_eq!(after_a_crash.hard_state().unwrap(), vote, "a crash would let it vote twice");
    let (out, _) = rest.release(Ok::<(), ()>(()), Some(3), &BTreeSet::from([2, 3])).unwrap();
    assert_eq!(out.answer, Some("first"), "the caller is answered with its first message");
    assert_eq!(out.sends, vec![(2, "vote"), (3, "second")], "nobody there is no link to");
    assert!(log.take_writes().is_empty());
}

/// The same for entries, for a cut and for a snapshot, each on a flushed log.
#[test]
fn an_entry_is_durable_before_it_is_replicated() {
    let mut log = a_log();
    let mut disk = Disk::default();
    let entry = |index| Entry { term: 1, index, command: vec![7; 64] };
    let snap = Snapshot {
        last_included_index: 1,
        last_included_term: 1,
        data: vec![1],
        config: ClusterConfig { voters: vec![1], learners: vec![] },
    };
    let changes: Vec<Box<dyn Fn(&mut BitcaskStorage)>> = vec![
        Box::new(move |log| log.append(&[entry(1), entry(2), entry(3)]).unwrap()),
        Box::new(|log| log.truncate_suffix(3)),
        Box::new(move |log| log.save_snapshot(&snap)),
        Box::new(|log| log.truncate_prefix(1)),
    ];
    for change in changes {
        change(&mut log);
        let messages = vec![(2, "append")];
        let batch = Ready { messages, committed: vec![], snapshot: None, read_states: vec![] };
        let (writes, rest) = Unsynced::begin(batch).sync(&mut log);
        assert!(matches!(writes.last(), Some(Write::Flush)));
        disk.carry_out(writes);
        let (out, _) = rest.release(Ok::<(), ()>(()), None, &BTreeSet::from([2])).unwrap();
        assert_eq!(out.sends, vec![(2, "append")]);
        let after_a_crash = BitcaskStorage::open(disk.reopened()).unwrap();
        assert_eq!(after_a_crash.scan(), log.scan());
        assert_eq!(after_a_crash.last_index(), log.last_index());
        assert_eq!(after_a_crash.first_index(), log.first_index());
    }
    assert_eq!((log.first_index(), log.last_index()), (2, 2));
    let (writes, _) = Unsynced::begin(ready(vec![])).sync(&mut log);
    assert!(writes.is_empty(), "asking again is free");
}

#[test]
fn a_failed_flush_sends_nothing() {
    let batch = Ready {
        messages: vec![(2, "vote")],
        committed: vec![command(1, 1, None, put(b"k", b"v"))],
        snapshot: None,
        read_states: vec![],
    };
    let (_, rest) = Unsynced::begin(batch).sync(&mut a_log());
    match rest.release(Err("no space"), Some(2), &BTreeSet::from([2])) {
        Err(e) => assert_eq!(e, "no space"),
        Ok(_) => panic!("a message left before the log was durable"),
    }
}

#[test]
fn a_snapshot_is_taken_and_the_log_prefix_is_dropped() {
    let mut g = a_group();
    let leader = view(Role::Leader, 1, 3);
    assert!(!g.snapshot_due());
    let puts = (1..=3).map(|i| command(1, i, None, put(&[i as u8], b"v"))).collect();
    drain(&mut g, ready(puts), &leader, 0);
    assert!(g.snapshot_due());
    let (_, _, untaken) = image_of(&mut g, 1, &leader.config);
    untaken.taken(&mut g, Ok::<bool, ()>(false)).unwrap();
    g.apply_committed(&vec![command(1, 3, None, put(b"x", b"y"))], Some(1)).1.unwrap();
    let (writes, snap, untaken) = image_of(&mut g, 1, &leader.config);
    assert!(
        matches!(writes.last(), Some(Write::Flush)),
        "the state is durable before the log that could rebuild it goes"
    );
    assert_eq!(snap.data, encode(3, 1, &g.engine.scan()));
    assert_eq!((snap.last_included_index, snap.last_included_term), (3, 1));
    untaken.taken(&mut g, Ok::<bool, ()>(false)).unwrap();
    assert!(g.snapshot_due());
    let (_, _, untaken) = image_of(&mut g, 1, &leader.config);
    assert!(untaken.taken(&mut g, Err::<bool, &str>("no space")).is_err());
    assert!(g.snapshot_due(), "a log that is not durable without its prefix keeps it");
    let (_, _, untaken) = image_of(&mut g, 1, &leader.config);
    untaken.taken(&mut g, Ok::<bool, ()>(true)).unwrap();
    assert_eq!(g.snapshot_index, 3);
    assert!(!g.snapshot_due());
}

/// Entries that are applied leave the state unflushed, until an image of it is
/// made: only then may the entries go.
#[test]
fn the_state_machine_is_fsynced_before_the_log_prefix_that_could_rebuild_it_is_dropped() {
    let mut g = a_group();
    g.snapshot_threshold = 8;
    let mut disk = Disk::default();
    for i in 1..=60u64 {
        let leader = view(Role::Leader, 1, i);
        let entry = command(1, i, None, put(format!("k{i}").as_bytes(), b"v"));
        let rest = flushed(ready(vec![entry])).1.apply(&mut g, Some(1)).1.unwrap();
        let due = match rest.next(&g) {
            Imaging::NotDue(_) => continue,
            Imaging::Due(due) => due,
        };
        let (writes, made) = due.image(&mut g, 1, &leader.config);
        assert!(matches!(writes.last(), Some(Write::Flush)));
        disk.carry_out(writes);
        let (snap, untaken) = made.written(Ok::<(), ()>(())).unwrap();
        assert_eq!(snap.last_included_index, i);
        assert_eq!(disk.reopened().scan(), g.engine.scan(), "applied writes below the boundary are lost");
        untaken.taken(&mut g, Ok::<bool, ()>(true)).unwrap();
    }
    assert_eq!(g.snapshot_index, 56);
    assert_eq!(disk.durable.len(), 56);
}

#[test]
fn a_received_snapshot_replaces_the_state() {
    let mut g = group_on(Engine::open(&vec![(b"stale".to_vec(), b"1".to_vec())]));
    let snap = Snapshot {
        last_included_index: 9,
        last_included_term: 2,
        data: encode(9, 2, &[(b"k".to_vec(), b"v".to_vec())]),
        config: ClusterConfig { voters: vec![1], learners: vec![] },
    };
    let mut received = ready(vec![]);
    received.snapshot = Some(snap.copy());
    let done = drain(&mut g, received, &view(Role::Follower, 2, 9), 0);
    assert!(done.membership_moved);
    assert_eq!(g.engine.scan(), vec![(b"k".to_vec(), b"v".to_vec())]);
    assert!(g.endpoints.is_empty(), "the image is the authority on the book");
    assert_eq!((g.applied_index, g.snapshot_index, g.visible.index()), (9, 9, 9));

    let mut torn = snap.copy();
    torn.data.pop();
    assert_eq!(
        g.restore_snapshot(&torn),
        Err(DrainError::Image { index: 9, error: SnapshotError::CrcMismatch })
    );
    let mut other = snap.copy();
    other.last_included_term = 3;
    assert_eq!(
        g.restore_snapshot(&other),
        Err(DrainError::Boundary { image_index: 9, image_term: 2, log_index: 9, log_term: 3 })
    );
    assert_eq!(g.engine.scan(), vec![(b"k".to_vec(), b"v".to_vec())]);
}

/// A read that follows a write waits until readers see the write, however long
/// that lags behind the answer.
#[test]
fn a_get_after_a_put_returns_never_misses_it() {
    let mut g = a_group();
    let leader = view(Role::Leader, 1, 2);
    drain(&mut g, ready(vec![command(1, 1, None, put(b"warm", b"v"))]), &leader, 0);
    let mut copy = Engine::open(&g.engine.scan());

    // Applied and answered, while a reader is still in the copy to be replaced.
    g.proposed(Ok(2), 7, &leader, 0);
    let done = drain_with(&mut g, ready(vec![command(1, 2, None, put(b"k", b"v1"))]), &leader, 0, false);
    assert_eq!(client_answers(&done.replies), vec![(7, "Applied".to_string())]);
    assert!(g.needs_publish());
    assert_eq!((g.applied_index, g.visible.index()), (2, 1));
    assert_eq!(copy.get(b"k"), None, "applied and answered, and not visible yet");

    let confirmation = confirmed_read(&mut g, b"k", 8, &leader, 2);
    let mut batch = ready(vec![]);
    batch.read_states = vec![confirmation];
    let done = drain_with(&mut g, batch, &leader, 0, false);
    assert!(done.jobs.is_empty(), "served from a copy without the write");

    // The reader leaves, and the next drain publishes.
    assert!(g.needs_publish());
    copy = Engine::open(&g.engine.scan());
    let done = drain(&mut g, ready(vec![]), &leader, 0);
    assert!(!g.needs_publish());
    assert_eq!(done.jobs.len(), 1);
    let job = &done.jobs[0];
    assert_eq!((job.at, job.ticket), (2, 8));
    match resolve(Some(copy.get(&job.key)), &g.visible, job) {
        Resolved::Fetch { located, early } => assert_eq!((located, early), (b"v1".to_vec(), false)),
        other => panic!("{other:?}"),
    }
}

#[test]
fn a_missing_key_reads_as_none() {
    let mut g = a_group();
    let leader = view(Role::Leader, 1, 0);
    let confirmation = confirmed_read(&mut g, b"absent", 3, &leader, 0);
    let mut batch = ready(vec![]);
    batch.read_states = vec![confirmation];
    let done = drain(&mut g, batch, &leader, 0);
    assert_eq!(done.jobs.len(), 1);
    match resolve(Some(g.engine.get(&done.jobs[0].key)), &g.visible, &done.jobs[0]) {
        Resolved::Answered { reply, early } => {
            assert!(!early);
            assert_eq!(client_answers(&[reply]), vec![(3, "Value(None)".to_string())]);
        }
        other => panic!("{other:?}"),
    }
}

/// A restored state is one that readers do not see yet.
#[test]
fn a_restored_state_is_not_visible_before_it_is_published() {
    let mut g = a_group();
    let snap = Snapshot {
        last_included_index: 9,
        last_included_term: 2,
        data: encode(9, 2, &[(b"k".to_vec(), b"v".to_vec())]),
        config: ClusterConfig { voters: vec![1], learners: vec![] },
    };
    let mut received = ready(vec![]);
    received.snapshot = Some(snap);
    assert!(!g.needs_publish());
    drain_with(&mut g, received, &view(Role::Follower, 2, 9), 0, false);
    assert!(g.needs_publish());
    assert_eq!((g.applied_index, g.visible.index()), (9, 0));
    drain(&mut g, ready(vec![]), &view(Role::Follower, 2, 9), 0);
    assert!(!g.needs_publish());
    assert_eq!(g.visible.index(), 9);
}

/// A read waits for what is visible, and not for what is applied.
#[test]
fn a_deferred_publish_is_retried_without_another_write() {
    let mut g = a_group();
    let leader = view(Role::Leader, 1, 1);
    g.read_started(1, b"k".to_vec(), Ok(()), 5, &leader, 0);
    let mut batch = ready(vec![command(1, 1, None, put(b"k", b"v"))]);
    batch.read_states = vec![ReadState { token: 1, index: 1 }];
    let rest = flushed(batch).1.apply(&mut g, Some(1)).1.unwrap();
    let rest = not_due(rest, &mut g).restore(&mut g).unwrap();
    assert!(g.needs_publish());
    let done = rest.finish(&mut g, false, &leader, &BTreeMap::new(), 0);
    assert!(done.jobs.is_empty(), "served a read whose index readers do not see");
    assert_eq!((g.applied_index, g.visible.index()), (1, 0));

    let done = drain(&mut g, ready(vec![]), &leader, 0);
    assert_eq!(done.jobs.len(), 1);
    assert_eq!(g.visible.index(), 1);
}

#[test]
fn a_lease_read_waits_for_visibility_too() {
    let mut g = a_group();
    let leader = view(Role::Leader, 1, 0);
    g.read_started(1, b"k".to_vec(), Ok(()), 5, &leader, 0);
    let mut confirmed = ready(vec![]);
    confirmed.read_states = vec![ReadState { token: 1, index: 0 }];
    drain(&mut g, confirmed, &leader, 100);
    assert_eq!(g.lease_until, Some(100 + g.lease_duration));

    assert!(matches!(g.handle_request(ClientOp::get(b"k"), 6, &leader, 101), RequestStep::Read(job) if job.ticket == 6));
    let behind = view(Role::Leader, 1, 1);
    assert!(matches!(g.handle_request(ClientOp::get(b"k"), 7, &behind, 101), RequestStep::Confirm { .. }));
    let late = 100 + g.lease_duration;
    assert!(matches!(g.handle_request(ClientOp::get(b"k"), 8, &leader, late), RequestStep::Confirm { .. }));
    let deposed = view(Role::Follower, 1, 0);
    assert!(matches!(g.handle_request(ClientOp::get(b"k"), 9, &deposed, 101), RequestStep::Confirm { .. }));
}

#[test]
fn a_deposed_leader_answers_everyone() {
    let mut g = a_group();
    let leader = view(Role::Leader, 1, 0);
    g.conf_proposed(Ok(3), 30, &leader, 0);
    g.read_started(1, b"k".to_vec(), Ok(()), 20, &leader, 0);
    g.proposed(Ok(2), 12, &leader, 0);
    g.proposed(Ok(1), 11, &leader, 0);
    let done = drain(&mut g, ready(vec![]), &view(Role::Follower, 2, 0), 0);
    assert_eq!(done.replies.iter().map(|r| r.ticket).collect::<Vec<_>>(), vec![11, 12, 20, 30]);
    assert!(matches!(done.replies[3].answer, Answer::Admin(AdminReply::NotLeader { hint: Some(2) })));
    assert!(g.pending.is_empty() && g.pending_reads.is_empty() && g.pending_conf.is_empty());
}

/// A partitioned leader gives up on its clients; one that commits does not.
#[test]
fn only_a_leader_that_commits_nothing_sends_its_clients_away() {
    let timeout = config().request_timeout();
    let mut g = a_group();
    g.proposed(Ok(1), 1, &view(Role::Leader, 1, 0), 0);
    let done = drain(&mut g, ready(vec![]), &view(Role::Leader, 1, 5), timeout);
    assert!(done.replies.is_empty(), "the commit index moved just now");
    let done = drain(&mut g, ready(vec![]), &view(Role::Leader, 1, 5), timeout * 2 - 1);
    assert!(done.replies.is_empty());
    let done = drain(&mut g, ready(vec![]), &view(Role::Leader, 1, 5), timeout * 2);
    assert_eq!(client_answers(&done.replies), vec![(1, "NotLeader { hint: Some(1) }".to_string())]);
}

#[test]
fn a_caught_up_learner_is_promoted() {
    let mut leader = view(Role::Leader, 1, 5);
    leader.config.learners = vec![3, 4];
    let g = a_group();
    let matched = BTreeMap::from([(3, 4), (4, 5)]);
    let change = g.promotion(&leader, &matched).unwrap();
    assert_eq!(change, ConfChange { op: ConfOp::Promote, node: 4, context: vec![] });
    assert_eq!(g.promotion(&leader, &BTreeMap::from([(3, 4)])), None);
    leader.role = Role::Follower;
    assert_eq!(g.promotion(&leader, &matched), None);
    leader.role = Role::Leader;
    let meta = Group::new(&config(), META, Engine::open(&Vec::new()), 0, 0);
    assert_eq!(meta.promotion(&leader, &matched), None, "the meta quorum does not grow");
}

#[test]
fn add_node_joins_as_a_learner_and_records_its_address() {
    let g = a_group();
    let leader = view(Role::Leader, 1, 0);
    let op = AdminOp::AddNode { id: 4, address: "10.0.0.4:7001".to_string() };
    let change = match g.handle_admin(op, &leader, 1, 0) {
        AdminStep::Propose(change) => change,
        other => panic!("{other:?}"),
    };
    assert_eq!((change.op, change.node), (ConfOp::AddLearner, 4));
    let book = BTreeMap::from([
        (1, "h:1".to_string()),
        (2, "h:2".to_string()),
        (4, "10.0.0.4:7001".to_string()),
    ]);
    assert_eq!(change.context, encode_book(&book));

    let mut g = a_group();
    g.conf_proposed(Ok(1), 9, &leader, 0);
    let entry = Committed { term: 1, index: 1, body: Body::Conf(Some(change)) };
    let done = drain(&mut g, ready(vec![entry]), &leader, 0);
    assert!(done.membership_moved);
    assert!(matches!(done.replies[0].answer, Answer::Admin(AdminReply::Accepted { index: 1 })));
    assert_eq!(g.endpoints.get(&4).map(String::as_str), Some("10.0.0.4:7001"));
}

#[test]
fn a_removal_is_of_a_voter_or_of_a_learner() {
    let g = a_group();
    let leader = view(Role::Leader, 1, 0);
    let op = |id| g.handle_admin(AdminOp::RemoveNode { id }, &leader, 1, 0);
    assert!(matches!(op(2), AdminStep::Propose(c) if c.op == ConfOp::RemoveVoter && c.context.is_empty()));
    assert!(matches!(op(7), AdminStep::Propose(c) if c.op == ConfOp::RemoveLearner));
}

#[test]
fn a_refused_change_is_rejected_and_a_follower_hints() {
    let mut g = a_group();
    let refused = ConfProposeError::Refused { reason: "in flight".to_string() };
    match g.conf_proposed(Err(refused), 5, &view(Role::Leader, 1, 0), 0) {
        Filed::Answered(r) => assert!(
            matches!(r.answer, Answer::Admin(AdminReply::Rejected { reason }) if reason == "in flight")
        ),
        other => panic!("{other:?}"),
    }
    match g.conf_proposed(Err(ConfProposeError::NotLeader), 5, &view(Role::Follower, 1, 0), 0) {
        Filed::Answered(r) => {
            assert!(matches!(r.answer, Answer::Admin(AdminReply::NotLeader { hint: Some(2) })))
        }
        other => panic!("{other:?}"),
    }
}

#[test]
fn a_status_is_this_replicas_view() {
    let mut engine = Engine::open(&Vec::new());
    engine.put(&SHARD_MAP_KEY, b"map");
    let g = group_on(engine);
    let leader = view(Role::Leader, 4, 6);
    match g.handle_admin(AdminOp::Status, &leader, 2, 9) {
        AdminStep::Answer(AdminReply::Status(s)) => {
            assert_eq!((s.id, s.leader, s.term), (1, Some(1), 4));
            assert_eq!((s.voters, s.learners), (vec![1, 2], vec![]));
            assert_eq!((s.commit_index, s.applied_index), (6, 0));
            assert_eq!((s.log_first_index, s.log_last_index), (2, 9));
            assert_eq!(s.endpoints, g.endpoints);
        }
        other => panic!("{other:?}"),
    }
    assert!(matches!(g.handle_admin(AdminOp::LocalShardMap, &leader, 1, 0),
        AdminStep::Answer(AdminReply::ShardMap(Some(bytes))) if bytes == b"map"));
    assert!(matches!(g.handle_admin(AdminOp::ShardStatuses, &leader, 1, 0),
        AdminStep::Answer(AdminReply::Rejected { reason })
            if reason == "shard statuses are answered node-wide, not per group"));
}

#[test]
fn a_second_waiter_at_one_index_displaces_the_first() {
    let mut g = a_group();
    let leader = view(Role::Leader, 1, 0);
    g.proposed(Ok(4), 1, &leader, 0);
    assert!(matches!(g.proposed(Ok(4), 2, &leader, 0), Filed::Waiting { displaced: Some(1) }));
}

#[test]
fn a_reply_is_shown_as_a_client_sees_it() {
    assert_eq!(format!("{:?}", ClientReply::NotHosted { shard: 3 }), "NotHosted { shard: 3 }");
}
