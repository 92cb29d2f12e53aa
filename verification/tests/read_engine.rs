use bohime::read_engine::{Completion, Preference, ReadEngine, Ring, Submission, RING_ENTRIES};

#[test]
fn an_unknown_read_engine_setting_is_rejected() {
    assert!(ReadEngine::from_setting(Some("uring")).is_err());
    assert!(ReadEngine::from_setting(Some("blocking")).is_ok());
    assert!(ReadEngine::from_setting(Some("io_uring")).is_ok());
    assert!(ReadEngine::from_setting(Some("auto")).is_ok());
    assert!(ReadEngine::from_setting(None).is_ok());
}

#[test]
fn the_io_uring_path_can_be_disabled_by_configuration() {
    assert!(
        matches!(ReadEngine::new(Some("blocking"), true), ReadEngine::Blocking),
        "an explicit request for the fallback must be honoured even where a ring is available"
    );
}

#[test]
fn a_setting_is_read_without_its_spaces() {
    assert_eq!(ReadEngine::from_setting(Some(" io_uring\n")), Ok(Preference::IoUring));
    assert_eq!(ReadEngine::from_setting(Some("  ")), Ok(Preference::Auto));
    assert_eq!(ReadEngine::from_setting(Some(" uring ")), Err("uring".to_string()));
}

#[test]
fn a_ring_is_a_preference_and_not_a_demand() {
    assert_eq!(ReadEngine::new(Some("io_uring"), false), ReadEngine::Blocking);
    assert_eq!(ReadEngine::new(Some("io_uring"), true), ReadEngine::Uring);
    assert_eq!(ReadEngine::new(None, true), ReadEngine::Uring);
    assert_eq!(ReadEngine::new(Some("nonsense"), true), ReadEngine::Uring);
}

#[test]
fn a_short_read_is_continued_where_it_stopped() {
    let mut ring = Ring::new();
    let first = ring.start_read(9, 1000, 10);
    assert_eq!(first, Submission { id: 0, offset: 1000, into: 0, len: 10 });
    assert_eq!(
        ring.complete(0, 4),
        Completion::Resubmit(Submission { id: 0, offset: 1004, into: 4, len: 6 })
    );
    assert_eq!(
        ring.complete(0, -4),
        Completion::Resubmit(Submission { id: 0, offset: 1004, into: 4, len: 6 })
    );
    assert_eq!(
        ring.complete(0, -11),
        Completion::Resubmit(Submission { id: 0, offset: 1004, into: 4, len: 6 })
    );
    assert_eq!(ring.complete(0, 6), Completion::Done { ticket: 9 });
    assert_eq!(ring.complete(0, 6), Completion::Unknown);
}

#[test]
fn a_failed_read_and_an_early_end_are_given_up() {
    let mut ring = Ring::new();
    ring.start_read(1, 0, 8);
    ring.start_read(2, 8, 8);
    assert_eq!(ring.complete(0, -5), Completion::Failed { ticket: 1 });
    assert_eq!(ring.complete(1, 0), Completion::Failed { ticket: 2 });
    ring.start_read(3, 0, 1);
    ring.fail_all();
    assert!(ring.in_flight.is_empty());
}

#[test]
fn the_ring_bounds_the_reads_in_flight() {
    let mut ring = Ring::new();
    for i in 0..RING_ENTRIES {
        assert!(ring.has_room(), "read {i}");
        ring.start_read(i as u64, 0, 1);
    }
    assert!(!ring.has_room());
    ring.complete(0, 1);
    assert!(ring.has_room());
}
