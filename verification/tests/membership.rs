use std::collections::BTreeMap;

use bohime::engine::Engine;
use bohime::membership::{
    apply_conf, encode_book, endpoints, forget_endpoint, record_endpoint, ConfChange, ConfEffect,
    ConfOp,
};
use bohime::session::is_reserved;

fn engine() -> Engine {
    Engine::open(&Vec::new())
}

fn change(op: ConfOp, node: u64, context: &str) -> ConfChange {
    ConfChange { op, node, context: context.as_bytes().to_vec() }
}

#[test]
fn the_address_book_round_trips_through_the_engine() {
    let mut engine = engine();

    record_endpoint(&mut engine, 2, "10.0.0.2:7001");
    record_endpoint(&mut engine, 3, "10.0.0.3:7001");

    let book = endpoints(&engine);
    assert_eq!(book.get(&2).map(String::as_str), Some("10.0.0.2:7001"));
    assert_eq!(book.get(&3).map(String::as_str), Some("10.0.0.3:7001"));
    assert_eq!(book.len(), 2, "no other key is mistaken for an endpoint");
}

#[test]
fn recording_an_endpoint_twice_keeps_the_newer_address() {
    let mut engine = engine();

    record_endpoint(&mut engine, 2, "10.0.0.2:7001");
    record_endpoint(&mut engine, 2, "10.0.0.9:7001");

    assert_eq!(endpoints(&engine).get(&2).map(String::as_str), Some("10.0.0.9:7001"));
}

#[test]
fn a_removed_member_loses_its_endpoint() {
    let mut engine = engine();
    record_endpoint(&mut engine, 2, "10.0.0.2:7001");

    forget_endpoint(&mut engine, 2);

    assert!(endpoints(&engine).is_empty());
}

#[test]
fn endpoint_keys_live_in_the_reserved_space() {
    let mut engine = engine();
    record_endpoint(&mut engine, 7, "10.0.0.7:7001");

    let keys: Vec<Vec<u8>> = engine.scan().into_iter().map(|(k, _)| k).collect();
    assert!(!keys.is_empty());
    for key in keys {
        assert!(is_reserved(&key), "endpoint key {key:?} must be reserved");
    }
}

#[test]
fn add_learner_records_the_endpoint_it_carried() {
    let mut engine = engine();

    apply_conf(&mut engine, &change(ConfOp::AddLearner, 4, "10.0.0.4:7001"));

    assert_eq!(endpoints(&engine).get(&4).map(String::as_str), Some("10.0.0.4:7001"));
}

#[test]
fn promotion_keeps_the_address_the_node_was_added_with() {
    let mut engine = engine();
    apply_conf(&mut engine, &change(ConfOp::AddLearner, 4, "10.0.0.4:7001"));

    apply_conf(&mut engine, &change(ConfOp::Promote, 4, ""));

    assert_eq!(
        endpoints(&engine).get(&4).map(String::as_str),
        Some("10.0.0.4:7001"),
        "a promoted learner is still reachable"
    );
}

#[test]
fn an_admission_carries_the_whole_book_so_the_newcomer_can_dial_back() {
    let mut engine = engine();
    let book = BTreeMap::from([
        (1, "10.0.0.1:7001".to_string()),
        (2, "10.0.0.2:7001".to_string()),
        (4, "10.0.0.4:7001".to_string()),
    ]);

    apply_conf(
        &mut engine,
        &ConfChange { op: ConfOp::AddLearner, node: 4, context: encode_book(&book) },
    );

    assert_eq!(endpoints(&engine), book, "every member is reachable, not just the new one");
}

#[test]
fn a_bare_address_context_still_names_the_node_it_changes() {
    let mut engine = engine();

    apply_conf(&mut engine, &change(ConfOp::AddLearner, 4, "10.0.0.4:7001"));

    assert_eq!(endpoints(&engine), BTreeMap::from([(4, "10.0.0.4:7001".to_string())]));
}

#[test]
fn removal_forgets_the_endpoint() {
    let mut engine = engine();
    apply_conf(&mut engine, &change(ConfOp::AddLearner, 4, "10.0.0.4:7001"));
    apply_conf(&mut engine, &change(ConfOp::Promote, 4, ""));

    apply_conf(&mut engine, &change(ConfOp::RemoveVoter, 4, ""));

    assert!(endpoints(&engine).is_empty(), "a removed node is not dialled again");
}

#[test]
fn applying_a_change_twice_is_applying_it_once() {
    let mut once = engine();
    apply_conf(&mut once, &change(ConfOp::AddLearner, 4, "a:1"));
    let mut twice = engine();
    apply_conf(&mut twice, &change(ConfOp::AddLearner, 4, "a:1"));
    assert_eq!(
        apply_conf(&mut twice, &change(ConfOp::AddLearner, 4, "a:1")),
        ConfEffect::Learned(BTreeMap::from([(4, "a:1".to_string())]))
    );
    assert_eq!(once.scan(), twice.scan());
    assert_eq!(apply_conf(&mut twice, &change(ConfOp::RemoveLearner, 4, "")), ConfEffect::Forgot(4));
}

#[test]
fn a_book_has_this_stored_form() {
    let book = BTreeMap::from([(3, "ab".to_string())]);
    let mut want: Vec<u8> = vec![0x4d];
    want.extend([1, 0, 0, 0, 0, 0, 0, 0]);
    want.extend([3, 0, 0, 0, 0, 0, 0, 0]);
    want.extend([2, 0, 0, 0, 0, 0, 0, 0]);
    want.extend(b"ab");
    assert_eq!(encode_book(&book), want);
}

#[test]
fn an_address_that_is_no_text_is_not_an_endpoint() {
    let mut engine = engine();
    record_endpoint(&mut engine, 2, "ok");
    let key = engine.scan()[0].0.clone();
    engine.put(&key, &[0xff, 0xfe]);
    assert!(endpoints(&engine).is_empty());
}
