use bohime::client::{
    Attempt, Client, ClientError, Failure, Refusal, Search, Step, BACKOFF_DOUBLINGS, RETRY_PAUSE,
    RETRY_ROUNDS,
};
use bohime::command::Mutation;
use bohime::driver::ClientOp;
use bohime::kv_service::{NotHosted, NotLeader};
use bohime::session::RequestCtx;
use bohime::types::millis;

fn client(n: u64) -> Client {
    Client::new((1..=n).map(|id| (id, format!("http://h:{id}"))).collect())
}

fn routed(n: u64) -> Client {
    let mut c = client(n);
    assert!(c.learned_map(1, 1, vec![(1..=n).collect()]));
    c
}

/// Every key is in the first shard, once there is a placement.
fn at(c: &Client) -> Option<u16> {
    c.num_shards().map(|_| 0)
}

fn meet<T>(s: &mut Search, c: &mut Client, id: u64, attempt: Attempt<T>) -> Option<T> {
    let shard = at(c);
    s.meet(c, id, shard, attempt)
}

fn leads_elsewhere(hint: u64) -> Attempt<&'static str> {
    Attempt::Answered {
        not_hosted: None,
        not_leader: Some(NotLeader { leader_hint: hint }),
        answer: "",
    }
}

fn value() -> Attempt<&'static str> {
    Attempt::Answered { not_hosted: None, not_leader: None, answer: "v" }
}

fn busy() -> Attempt<&'static str> {
    Attempt::Refused(Refusal::Busy("shed".to_string()))
}

fn put() -> Mutation {
    Mutation::Put { key: b"k".to_vec(), value: b"v".to_vec() }
}

fn ctx_of(s: &Search) -> Option<RequestCtx> {
    match &s.request {
        ClientOp::Get { .. } => None,
        ClientOp::Mutate { ctx, .. } => *ctx,
    }
}

fn asked(step: Step) -> u64 {
    match step {
        Step::Ask(id) => id,
        other => panic!("{other:?}"),
    }
}

#[test]
fn a_fresh_client_knows_no_leader() {
    let client = client(1);
    assert_eq!(client.leader(), None);
}

#[test]
fn an_unreachable_cluster_fails_rather_than_hanging() {
    let mut c = client(2);
    let mut search = c.start_write(put());
    let mut asks = 0;
    loop {
        match search.step(&c, at(&c)) {
            Step::Refresh => {}
            Step::Ask(_) => asks += 1,
            Step::Pause(pause) => assert_eq!(pause, Some(RETRY_PAUSE)),
            Step::GiveUp(e) => {
                assert!(matches!(e, ClientError::NoReachableNode { last: None }));
                assert_eq!(e.message(), "no reachable node could serve the request");
                break;
            }
        }
    }
    assert_eq!(asks, 2 * RETRY_ROUNDS);
    let mut gone = c.start_read(b"k");
    meet(&mut gone, &mut c, 1, Attempt::<()>::Refused(Refusal::Gone("refused".to_string())));
    gone.rounds = RETRY_ROUNDS;
    match gone.step(&c, at(&c)) {
        Step::GiveUp(e) => assert_eq!(
            e.message(),
            "no reachable node could serve the request; last error: refused"
        ),
        other => panic!("{other:?}"),
    }
}

#[test]
fn a_leader_hint_is_followed_without_the_retry_pause() {
    let mut c = routed(2);
    let mut s = c.start_read(b"k");
    assert_eq!(asked(s.step(&c, at(&c))), 1);
    assert_eq!(meet(&mut s, &mut c, 1, leads_elsewhere(2)), None);
    assert!(matches!(s.step(&c, at(&c)), Step::Pause(None)), "a hint is progress");
    assert_eq!(asked(s.step(&c, at(&c))), 2);
    assert_eq!(meet(&mut s, &mut c, 2, value()), Some("v"));
    assert_eq!(c.leader(), Some(2));
    assert_eq!(c.leaders.get(&0), Some(&2));
}

#[test]
fn nodes_pointing_at_each_other_still_pace_themselves() {
    let mut c = routed(2);
    let mut s = c.start_read(b"k");
    let mut pauses = vec![];
    for _ in 0..4 {
        let id = asked(s.step(&c, at(&c)));
        meet(&mut s, &mut c, id, leads_elsewhere(3 - id));
        match s.step(&c, at(&c)) {
            Step::Pause(pause) => pauses.push(pause),
            other => panic!("{other:?}"),
        }
    }
    assert_eq!(pauses, vec![None, None, Some(RETRY_PAUSE), Some(RETRY_PAUSE)]);
}

#[test]
fn a_hintless_refusal_still_pauses() {
    let mut c = routed(1);
    let mut s = c.start_read(b"k");
    let id = asked(s.step(&c, at(&c)));
    meet(&mut s, &mut c, id, leads_elsewhere(0));
    assert!(matches!(s.step(&c, at(&c)), Step::Pause(Some(p)) if p == RETRY_PAUSE));
    let id = asked(s.step(&c, at(&c)));
    meet(&mut s, &mut c, id, leads_elsewhere(77));
    assert!(matches!(s.step(&c, at(&c)), Step::Pause(Some(_))), "a hint to nobody is none");
}

#[test]
fn a_shed_request_does_not_cost_the_connection() {
    let mut c = routed(1);
    c.connected(1);
    let shard = at(&c);
    c.accepted(1, shard);
    let mut s = c.start_read(b"k");
    for _ in 0..3 {
        let id = asked(s.step(&c, at(&c)));
        meet(&mut s, &mut c, id, busy());
        assert!(matches!(s.step(&c, at(&c)), Step::Pause(Some(_))));
    }
    assert!(c.holds_channel(1));
    assert_eq!(c.leader(), Some(1));
    let id = asked(s.step(&c, at(&c)));
    assert_eq!(meet(&mut s, &mut c, id, value()), Some("v"));
}

#[test]
fn a_write_to_a_busy_node_does_not_cost_the_connection() {
    let mut c = routed(1);
    c.connected(1);
    let mut s = c.start_write(put());
    for _ in 0..3 {
        let id = asked(s.step(&c, at(&c)));
        meet(&mut s, &mut c, id, busy());
        assert!(
            c.holds_channel(1),
            "a shed write was treated as a transport failure and the channel was redialled"
        );
        assert!(matches!(s.step(&c, at(&c)), Step::Pause(Some(_))));
    }
    assert_eq!(asked(s.step(&c, at(&c))), 1);
    assert_eq!(meet(&mut s, &mut c, 1, value()), Some("v"), "the node accepts once its queue drains");
    assert!(c.holds_channel(1));
}

#[test]
fn an_unreachable_node_is_still_forgotten() {
    let mut c = routed(2);
    c.connected(1);
    let shard = at(&c);
    c.accepted(1, shard);
    let mut s = c.start_read(b"k");
    let id = asked(s.step(&c, at(&c)));
    meet(&mut s, &mut c, id, Attempt::<()>::Refused(Refusal::Gone("going away".to_string())));
    assert!(!c.holds_channel(1));
    assert_eq!(c.leader(), None);
    assert_eq!(asked(s.step(&c, at(&c))), 2);
}

#[test]
fn sustained_backpressure_backs_off_rather_than_spinning() {
    let mut c = routed(1);
    let mut s = c.start_read(b"k");
    let mut pauses = vec![];
    for _ in 0..6 {
        let id = asked(s.step(&c, at(&c)));
        meet(&mut s, &mut c, id, busy());
        match s.step(&c, at(&c)) {
            Step::Pause(Some(pause)) => pauses.push(pause),
            other => panic!("{other:?}"),
        }
    }
    let most = millis(400);
    assert_eq!(most, RETRY_PAUSE << BACKOFF_DOUBLINGS);
    assert_eq!(pauses, vec![millis(50), millis(100), millis(200), most, most, most]);
}

/// A shed request and a late answer are backpressure; anything else is not.
#[test]
fn a_slow_node_is_not_redialled() {
    let late = Refusal::of(Failure::Elapsed, millis(2000));
    assert_eq!(late, Refusal::Busy("no answer within 2s".to_string()));
    assert_eq!(
        Refusal::of(Failure::Elapsed, millis(100)),
        Refusal::Busy("no answer within 100ms".to_string())
    );
    let shed = Failure::Refused { exhausted: true, text: "full".to_string() };
    assert_eq!(Refusal::of(shed, 1).message(), "full");
    let dead = Failure::Refused { exhausted: false, text: "dead".to_string() };
    assert_eq!(Refusal::of(dead, 1), Refusal::Gone("dead".to_string()));
}

#[test]
fn every_retry_of_a_write_carries_one_context() {
    let mut c = routed(2);
    let first = c.start_write(put());
    let second = c.start_write(put());
    assert_eq!(ctx_of(&first), Some(RequestCtx { client_id: c.client_id, sequence: 1 }));
    assert_eq!(ctx_of(&second), Some(RequestCtx { client_id: c.client_id, sequence: 2 }));
    let mut s = second;
    for _ in 0..5 {
        if let Step::Ask(id) = s.step(&c, at(&c)) {
            meet(&mut s, &mut c, id, busy());
        }
        assert_eq!(ctx_of(&s), Some(RequestCtx { client_id: c.client_id, sequence: 2 }));
        assert!(matches!(&s.request, ClientOp::Mutate { op, .. } if *op == put()));
        assert_eq!(s.key(), b"k");
    }
    assert_eq!(ctx_of(&c.start_read(b"k")), None);
    assert_ne!(client(1).client_id, client(1).client_id, "two clients drew one name");
}

#[test]
fn candidates_are_the_leader_the_replicas_and_everyone() {
    let mut c = client(5);
    assert_eq!(c.candidates(None), vec![1, 2, 3, 4, 5]);
    c.accepted(4, None);
    assert_eq!(c.candidates(None), vec![4, 1, 2, 3, 5]);

    let key = Some(6);
    let mut placed = vec![vec![]; 8];
    placed[6] = vec![5, 9, 3];
    assert!(c.learned_map(2, 8, placed));
    assert_eq!(c.num_shards(), Some(8));
    assert_eq!(c.candidates(key), vec![5, 3, 1, 2, 4], "9 is nobody this client knows");
    c.accepted(3, key);
    assert_eq!(c.candidates(key), vec![3, 5, 1, 2, 4]);
    c.refused(key);
    assert_eq!(c.candidates(key), vec![5, 3, 1, 2, 4]);
}

#[test]
fn a_redirect_drops_a_placement_that_is_behind() {
    let elsewhere = |version| NotHosted { shard_id: 0, replicas: vec![9, 2], map_version: version };
    let mut c = routed(3);
    assert_eq!(c.redirect(Some(0), &elsewhere(1)), Some(2), "the first replica that is known");
    assert!(c.placement.is_some());
    c.redirect(Some(0), &elsewhere(2));
    assert!(c.placement.is_none());
    let mut c = routed(3);
    c.redirect(Some(0), &elsewhere(0));
    assert!(c.placement.is_none());

    let mut c = routed(3);
    let mut s = c.start_read(b"k");
    let id = asked(s.step(&c, at(&c)));
    meet(&mut s, &mut c, id, Attempt::Answered {
        not_hosted: Some(elsewhere(5)),
        not_leader: Some(NotLeader { leader_hint: 3 }),
        answer: (),
    });
    assert!(matches!(s.step(&c, at(&c)), Step::Pause(None)));
    assert!(matches!(s.step(&c, at(&c)), Step::Refresh), "a placement is asked for again");
    assert_eq!(asked(s.step(&c, at(&c))), 2);
}

#[test]
fn a_newer_map_replaces_an_older_and_forgets_the_leaders() {
    let mut c = client(2);
    assert!(!c.learned_map(0, 4, vec![]), "version 0 is no map");
    assert!(!c.learned_map(3, 0, vec![]));
    assert!(c.learned_map(3, 4, vec![]));
    let shard = at(&c);
    c.accepted(1, shard);
    assert!(c.learned_map(3, 8, vec![]), "there was one, and it is no news");
    assert_eq!(c.placement.as_ref().unwrap().num_shards, 4);
    assert_eq!(c.leaders.len(), 1);
    assert!(c.learned_map(4, 8, vec![]));
    assert_eq!(c.placement.as_ref().unwrap().num_shards, 8);
    assert!(c.leaders.is_empty());
    c.learned_members(vec![(2, "new".to_string()), (7, "seven".to_string()), (8, String::new())]);
    assert_eq!(c.endpoints.get(&2).map(String::as_str), Some("http://h:2"));
    assert_eq!(c.endpoints.get(&7).map(String::as_str), Some("seven"));
    assert_eq!(c.refresh_order(), vec![1, 2, 7]);
}

#[test]
fn a_client_may_wait_longer() {
    let c = client(1).with_request_timeout(millis(7));
    assert_eq!(c.request_timeout, millis(7));
    let _: Search = c.start_read(b"k");
}

#[test]
fn a_missed_deadline_says_which() {
    match Refusal::late("2s") {
        Refusal::Busy(text) => assert_eq!(text, "no answer within 2s"),
        other => panic!("{other:?}"),
    }
}
