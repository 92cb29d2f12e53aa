use bohime::driver::ReadJob;
use bohime::engine::{Engine, Write};
use bohime::read_view::{pool_size, resolve, ReadResolvers, Resolved, Visibility};
use bohime::session::{cached, record, session_key, BadSession, CommandResponse, RequestCtx};
use bohime::text::{decimal_text, parse};
use bohime::driver::{Answer, ClientReply};

#[test]
fn the_disk_copy_follows_the_store() {
    let mut e = Engine::open(&vec![(b"b".to_vec(), b"1".to_vec()), (b"a".to_vec(), b"2".to_vec())]);
    e.put(b"c", b"3");
    e.delete(b"b");
    e.sync();
    e.sync();
    assert_eq!(e.scan(), vec![(b"a".to_vec(), b"2".to_vec()), (b"c".to_vec(), b"3".to_vec())]);
    let writes = e.take_writes();
    assert_eq!(
        writes,
        vec![
            Write::Put { key: b"c".to_vec(), value: b"3".to_vec() },
            Write::Delete { key: b"b".to_vec() },
            Write::Flush,
        ]
    );
    assert!(e.take_writes().is_empty());
    assert_eq!(e.get(b"b"), None);
    assert!(e.has_unpublished());
    e.published();
    assert!(!e.has_unpublished());
}

#[test]
fn an_answer_is_cached_up_to_its_sequence() {
    let mut e = Engine::open(&Vec::new());
    let ctx = |sequence| RequestCtx { client_id: 7, sequence };
    assert_eq!(cached(&e, &ctx(1)), Ok(None));
    record(&mut e, &ctx(4), &CommandResponse::Swapped(true));
    assert_eq!(cached(&e, &ctx(4)), Ok(Some(CommandResponse::Swapped(true))));
    assert_eq!(cached(&e, &ctx(3)), Ok(Some(CommandResponse::Swapped(true))));
    assert_eq!(cached(&e, &ctx(5)), Ok(None));
    assert_eq!(e.get(&session_key(7)).unwrap(), vec![4, 0, 0, 0, 0, 0, 0, 0, 1, 0, 0, 0, 1]);
    assert_eq!(session_key(7), b"\x00session/\x00\x00\x00\x00\x00\x00\x00\x07".to_vec());
    e.put(&session_key(7), b"torn");
    assert_eq!(cached(&e, &ctx(1)), Err(BadSession));
}

#[test]
fn a_read_is_resolved_against_its_groups_state() {
    let e = Engine::open(&vec![(b"k".to_vec(), b"v".to_vec())]);
    let mut visible = Visibility::new();
    visible.publish(4);
    visible.publish(2);
    assert_eq!(visible.index(), 4, "what was visible stays so");
    let job = |key: &[u8], at| ReadJob { group: 2, key: key.to_vec(), at, ticket: 6 };
    let at = |key: &[u8], index| resolve(Some(e.get(key)), &visible, &job(key, index));
    assert!(matches!(at(b"k", 4), Resolved::Fetch { located, early: false } if located == b"v"));
    assert!(matches!(at(b"k", 5), Resolved::Fetch { early: true, .. }));
    match at(b"x", 5) {
        Resolved::Answered { reply, early } => {
            assert_eq!((reply.ticket, early), (6, true));
            assert!(matches!(reply.answer, Answer::Client(ClientReply::Value(None))));
        }
        other => panic!("{other:?}"),
    }
    assert!(matches!(at(b"x", 4), Resolved::Answered { early: false, .. }));
    let gone: Option<Option<Vec<u8>>> = None;
    assert!(matches!(resolve(gone, &visible, &job(b"k", 1)), Resolved::Gone));
}

#[test]
fn reads_are_handed_out_in_turn() {
    assert_eq!(pool_size(None), 2);
    assert_eq!(pool_size(Some(1)), 2);
    assert_eq!(pool_size(Some(5)), 5);
    assert_eq!(pool_size(Some(64)), 8);
    let mut pool = ReadResolvers::with_size(3);
    let turns: Vec<usize> = (0..5).map(|_| pool.submit()).collect();
    assert_eq!(turns, vec![0, 1, 2, 0, 1]);
}

#[test]
fn a_number_reads_back_as_it_was_written() {
    for n in [0u64, 9, 10, 12345, u64::MAX] {
        assert_eq!(decimal_text(n), n.to_string());
        assert_eq!(parse(&decimal_text(n), u64::MAX), Some(n));
    }
    assert_eq!(parse("+7", 10), Some(7));
    assert_eq!(parse("11", 10), None);
    assert_eq!(parse("", 10), None);
    assert_eq!(parse("1_0", 100), None);
}
