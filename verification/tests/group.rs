use bohime::group::{shard, shard_of, GroupId, DATA, META, UNSET};

#[test]
fn the_core_does_not_know_about_groups() {
    let _: GroupId = META;
    assert_ne!(DATA, META);
}

#[test]
fn the_group_numbering_leaves_zero_unused() {
    assert_ne!(META, UNSET);
    assert_ne!(shard(0), UNSET);
    assert_ne!(shard(0), META);
    assert_eq!(DATA, shard(0));
    assert_ne!(shard(0), shard(1));
    assert_ne!(shard(u16::MAX), shard(0));
}

#[test]
fn a_group_is_read_back_as_its_shard() {
    for s in [0u16, 1, 255, u16::MAX] {
        assert_eq!(shard_of(shard(s)), Some(s));
    }
    assert_eq!(shard_of(UNSET), None);
    assert_eq!(shard_of(META), None);
    assert_eq!(shard_of(shard(u16::MAX) + 1), None);
}
