use bohime::engine::{Engine, Write};
use bohime::storage::{BitcaskStorage, BitcaskStorageError};
use bohime::types::{ClusterConfig, Entry, HardState, Snapshot};

fn fresh() -> BitcaskStorage {
    BitcaskStorage::open(Engine::open(&Vec::new())).unwrap()
}

/// The log as it is found again after a restart.
fn reopened(log: &BitcaskStorage) -> BitcaskStorage {
    BitcaskStorage::open(Engine::open(&log.scan())).unwrap()
}

fn entries(from: u64, count: u64) -> Vec<Entry> {
    (from..from + count).map(|index| Entry { term: 1, index, command: vec![7; 64] }).collect()
}

fn flushes(writes: &[Write]) -> usize {
    writes.iter().filter(|w| matches!(w, Write::Flush)).count()
}

#[test]
fn entries_are_readable_after_a_reopen_without_rewriting_hard_state() {
    let mut s = fresh();
    s.append(&[Entry { term: 3, index: 1, command: b"x".to_vec() }]).unwrap();

    let s = reopened(&s);
    assert_eq!(s.last_index(), 1);
    assert_eq!(s.term(1).unwrap(), Some(3));
    assert_eq!(
        s.hard_state().unwrap(),
        HardState { current_term: 0, voted_for: None, commit_index: 0 }
    );
}

/// Under a policy of flushing after every write, each of the writes that an
/// append owes is one fsync.
#[test]
fn every_write_costs_one_fsync_per_entry_plus_one_for_the_metadata() {
    let mut log = fresh();

    log.append(&entries(1, 64)).unwrap();

    assert_eq!(
        log.take_writes().len(),
        65,
        "64 entries plus one \\x00log_meta update, each fsynced"
    );
}

#[test]
fn group_commit_costs_one_fsync_per_drain_however_many_entries() {
    let mut log = fresh();

    log.append(&entries(1, 64)).unwrap();
    assert_eq!(flushes(&log.take_writes()), 0, "nothing is durable until somebody asks for it");

    log.sync();
    assert_eq!(flushes(&log.take_writes()), 1, "one fsync covers the whole batch");

    log.sync();
    assert_eq!(flushes(&log.take_writes()), 0);
}

#[test]
fn a_group_committed_log_still_reads_back_everything_it_synced() {
    let mut log = fresh();
    log.append(&entries(1, 32)).unwrap();
    log.sync();
    let log = reopened(&log);
    assert_eq!(log.last_index(), 32);
    assert_eq!(log.entries(1, 33).unwrap().len(), 32);
}

#[test]
fn the_hard_state_survives() {
    let mut log = fresh();
    let hs = HardState { current_term: 7, voted_for: Some(3), commit_index: 5 };
    log.save_hard_state(&hs);
    assert_eq!(log.hard_state().unwrap(), hs);
    assert_eq!(reopened(&log).hard_state().unwrap(), hs);
}

#[test]
fn a_gap_is_refused() {
    let mut log = fresh();
    log.append(&entries(1, 2)).unwrap();
    assert_eq!(log.append(&entries(4, 1)), Err(BitcaskStorageError::Gap { expected: 3, got: 4 }));
    let holed = vec![
        Entry { term: 1, index: 3, command: vec![] },
        Entry { term: 1, index: 5, command: vec![] },
    ];
    assert_eq!(log.append(&holed), Err(BitcaskStorageError::NotContiguous { at: 5 }));
    assert_eq!(log.last_index(), 2, "a refused batch changes nothing");
}

#[test]
fn a_truncated_suffix_is_forgotten() {
    let mut log = fresh();
    log.append(&entries(1, 5)).unwrap();
    log.truncate_suffix(3);
    assert_eq!(log.last_index(), 2);
    assert_eq!(log.term(3).unwrap(), None);
    assert_eq!(log.entries(1, 10).unwrap().len(), 2);
    assert_eq!(reopened(&log).last_index(), 2);
}

#[test]
fn a_snapshot_replaces_the_prefix() {
    let mut log = fresh();
    log.append(&entries(1, 5)).unwrap();
    let snap = Snapshot {
        last_included_index: 3,
        last_included_term: 1,
        data: b"image".to_vec(),
        config: ClusterConfig { voters: vec![1, 2], learners: vec![4] },
    };
    log.save_snapshot(&snap);
    log.truncate_prefix(3);
    let log = reopened(&log);
    assert_eq!(log.snapshot(), Some(snap));
    assert_eq!(log.first_index(), 4);
    assert_eq!(log.last_index(), 5);
    assert_eq!(log.term(3).unwrap(), Some(1), "the boundary's term is the snapshot's");
    assert_eq!(log.term(2).unwrap(), None);
}

#[test]
fn a_row_that_is_no_row_is_an_error() {
    let mut engine = Engine::open(&Vec::new());
    engine.put(b"\x00hard_state", b"\x01");
    let log = BitcaskStorage::open(engine).unwrap();
    assert_eq!(log.hard_state(), Err(BitcaskStorageError::Encoding));
}

/// The bounds of a log are eight bytes where no prefix was ever dropped, and
/// sixteen otherwise.
#[test]
fn a_short_row_of_bounds_is_the_old_one_or_none() {
    let with = |row: &[u8]| {
        let mut engine = Engine::open(&Vec::new());
        engine.put(b"\x00log_meta", row);
        BitcaskStorage::open(engine)
    };
    let old = with(&[7, 0, 0, 0, 0, 0, 0, 0]).unwrap();
    assert_eq!((old.last_index(), old.first_index()), (7, 1));
    let row = [7, 0, 0, 0, 0, 0, 0, 0, 3, 0, 0, 0, 0, 0, 0, 0];
    let new = with(&row).unwrap();
    assert_eq!((new.last_index(), new.first_index()), (7, 3));
    for cut in [0, 7, 9, 12, 15] {
        assert!(matches!(with(&row[..cut]), Err(BitcaskStorageError::Encoding)), "{cut} bytes");
    }
}
