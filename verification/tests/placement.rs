use std::collections::{BTreeMap, BTreeSet};

use bohime::config::{KeydirImpl, LogFsync, NodeConfig};
use bohime::placement::{
    check_layout, founded_at, founding_voters, hosted_on_disk, marker_path, record_founding,
    record_voters, voters_path, DirEntry, PlacementError,
};
use bohime::text::{read_number, NumberFault};
use bohime::types::millis;

fn config_in(dir: &str) -> NodeConfig {
    NodeConfig {
        id: 1,
        listen: "127.0.0.1:0".to_string(),
        peers: BTreeMap::new(),
        data_dir: dir.to_string(),
        tick: millis(10),
        election_timeout: 10,
        heartbeat_interval: 2,
        lease_reads: false,
        keydir: KeydirImpl::default(),
        snapshot_threshold: u64::MAX,
        initial_learner: false,
        num_shards: 256,
        replication_factor: 1,
        vnodes_per_node: 128,
        max_migrations: 4,
        log_fsync: LogFsync::default(),
        state_fsync: LogFsync::default(),
    }
}

fn dir(name: &str) -> DirEntry {
    DirEntry { name: name.to_string(), is_dir: true }
}

/// The last part of a path.
fn name_of(path: String) -> String {
    path.rsplit('/').next().unwrap().to_string()
}

#[test]
fn every_shard_gets_its_own_log_and_state_directory() {
    let config = config_in("/data");

    let mut seen = BTreeSet::new();
    for shard in [0u16, 1, 7, 255, 65535] {
        assert!(seen.insert(config.shard_raft_dir(shard)), "shard {shard}'s log dir repeats");
        assert!(seen.insert(config.shard_state_dir(shard)), "shard {shard}'s state dir repeats");
    }
    for path in &seen {
        assert!(path.starts_with(&config.data_dir), "{path:?} escapes the data dir");
    }
    assert!(!seen.contains(&config.meta_raft_dir()));
    assert!(!seen.contains(&config.meta_state_dir()));
}

#[test]
fn the_two_groups_never_share_a_directory() {
    let config = config_in("/data");

    let dirs = [
        config.shard_raft_dir(0),
        config.shard_state_dir(0),
        config.meta_raft_dir(),
        config.meta_state_dir(),
    ];
    for (i, a) in dirs.iter().enumerate() {
        for b in dirs.iter().skip(i + 1) {
            assert_ne!(a, b, "two stores would share {a}");
        }
    }
}

#[test]
fn a_pre_m11_store_is_refused_rather_than_served_as_empty() {
    let config = config_in("/data");
    assert!(check_layout(&config, false, false).is_ok(), "a fresh store is fine");

    let refusal = check_layout(&config, true, false).expect_err("the old layout must be refused");
    let text = refusal.message();
    assert!(text.contains("raft"), "the refusal must name the directory: {text}");
    assert!(text.starts_with("/data/raft is a pre-M11 single-group store"), "{text}");
    let refusal = check_layout(&config, false, true).expect_err("either directory is enough");
    assert!(refusal.message().starts_with("/data/state is "));
}

#[test]
fn the_founding_marker_records_the_map_version_and_survives() {
    let config = config_in("/data");

    assert_eq!(founded_at(&config, None).unwrap(), None, "a fresh store has founded nothing");
    let marker = record_founding(7);
    assert_eq!(founded_at(&config, Some(&marker)).unwrap(), Some(7));
    assert_eq!(founded_at(&config_in("/data"), Some(&marker)).unwrap(), Some(7));
}

#[test]
fn the_shards_on_disk_are_what_a_restart_hosts() {
    let config = config_in("/data");
    assert!(hosted_on_disk(&vec![]).is_empty());

    let found = [3u16, 0, 41].iter().map(|s| dir(&name_of(config.shard_dir(*s)))).collect();
    assert_eq!(hosted_on_disk(&found), BTreeSet::from([0, 3, 41]));
}

#[test]
fn a_directory_that_is_not_a_shard_number_is_ignored() {
    let config = config_in("/data");
    let found = vec![dir("lost+found"), dir(&name_of(config.shard_dir(9)))];

    assert_eq!(hosted_on_disk(&found), BTreeSet::from([9]));
}

#[test]
fn a_file_named_like_a_shard_is_no_shard() {
    let found = vec![
        DirEntry { name: "00004".to_string(), is_dir: false },
        dir("65536"),
        dir("-1"),
        dir(""),
    ];
    assert!(hosted_on_disk(&found).is_empty());
}

#[test]
fn a_marker_that_holds_no_version_is_an_error() {
    let config = config_in("/data");
    assert_eq!(founded_at(&config, Some(" 12\n")).unwrap(), Some(12));
    let e = founded_at(&config, Some("seven")).unwrap_err();
    assert_eq!(
        e.message(),
        format!("{} does not hold a map version: invalid digit found in string", marker_path(&config))
    );
}

#[test]
fn a_voter_record_reads_back_and_names_what_it_cannot_read() {
    let config = config_in("/data");
    let text = record_voters(&[3, 1, 2]);
    assert_eq!(founding_voters(&config, 7, Some(&text)).unwrap(), Some(vec![3, 1, 2]));
    assert_eq!(founding_voters(&config, 7, Some("")).unwrap(), Some(vec![]));
    assert_eq!(founding_voters(&config, 7, None).unwrap(), None);
    let e = founding_voters(&config, 7, Some("1 x\"y")).unwrap_err();
    assert_eq!(
        e.message(),
        format!("{} holds \"x\\\"y\", not a node id: invalid digit found in string", voters_path(&config, 7))
    );
}

#[test]
fn a_field_that_is_no_node_is_shown() {
    assert_eq!(
        PlacementError::not_a_node("/d/voters", "<x>", NumberFault::TooLarge),
        "/d/voters holds <x>, not a node id: number too large to fit in target type"
    );
    let e = PlacementError::NotANode {
        path: "/d/voters".to_string(),
        field: "a\tb".to_string(),
        fault: NumberFault::InvalidDigit,
    };
    assert_eq!(
        e.message(),
        "/d/voters holds \"a\\tb\", not a node id: invalid digit found in string"
    );
    let e = founded_at(&config_in("/d"), Some(" \n")).unwrap_err();
    assert_eq!(
        e.message(),
        "/d/shards/.placement does not hold a map version: cannot parse integer from empty string"
    );
}

/// Numbers are read, and faulted, as the standard library does.
#[test]
fn a_number_is_read_as_the_standard_library_reads_it() {
    for text in [
        "", "+", "-", "+-1", "-1", "0", "+7", "007", "1x", "x1", "1 ", "\u{663}",
        "18446744073709551615", "18446744073709551616", "+18446744073709551616",
        "99999999999999999999", "99999999999999999999x", "18446744073709551615x",
        "1844674407370955161x", "000000000000000000000000000001", "00000000000000000000000x",
    ] {
        let want = text.parse::<u64>().map_err(|e| e.to_string());
        assert_eq!(read_number(text, u64::MAX).map_err(|f| f.message().to_string()), want, "{text:?}");
    }
}
