//! The numbering of the Raft groups that one process hosts.
//!
//! Every wire message carries the number of the group it belongs to: one group
//! per shard, and the meta group whose state machine is the shard map. Zero is
//! nobody's, so a message that was sent without a group is recognisable.

use vstd::prelude::*;

use crate::types::ShardId;

verus! {

/// Names one of the Raft groups a process hosts.
pub type GroupId = u32;

/// No group.
pub const UNSET: GroupId = 0;

/// The group that holds placement and the cluster's membership.
pub const META: GroupId = 1;

/// The first shard's group.
pub const DATA: GroupId = 2;

/// The group of a shard.
pub open spec fn group_of(shard: ShardId) -> GroupId {
    (DATA + shard) as u32
}

/// The shard whose group this is, if it is a shard's.
pub open spec fn shard_in(group: GroupId) -> Option<ShardId> {
    if DATA <= group <= DATA + 0xffff {
        Some((group - DATA) as u16)
    } else {
        None
    }
}

/// The group of a shard.
pub fn shard(id: ShardId) -> (group: GroupId)
    ensures
        group == group_of(id),
{
    DATA + id as u32
}

/// The shard whose group this is, if it is a shard's.
pub fn shard_of(group: GroupId) -> (shard: Option<ShardId>)
    ensures
        shard == shard_in(group),
{
    if group >= DATA && group <= DATA + 0xffff {
        Some((group - DATA) as u16)
    } else {
        None
    }
}

/// Distinct shards have distinct groups; none is the meta group or no group,
/// and each is read back as the shard it belongs to.
pub proof fn law_group_numbering(a: ShardId, b: ShardId)
    ensures
        group_of(a) == group_of(b) ==> a == b,
        group_of(a) != UNSET,
        group_of(a) != META,
        shard_in(group_of(a)) == Some(a),
        shard_in(META) is None,
        shard_in(UNSET) is None,
{
}

/// The meta group is number 1, and a shard's group is its own number behind that
/// of the first, 2.
pub proof fn law_group_numbers(shard: ShardId, group: GroupId)
    ensures
        META == 1,
        group_of(shard) == 2 + shard,
        shard_in(group) is Some <==> 2 <= group <= 2 + 0xffff,
{
}

/// A shard's group is found from the shard and the shard from its group.
pub proof fn law_shards_and_groups(
    id: ShardId,
    group: GroupId,
    other: GroupId,
    found: Option<ShardId>,
    none: Option<ShardId>,
)
    requires
        call_ensures(shard, (id,), group),
        call_ensures(shard_of, (group,), found),
        call_ensures(shard_of, (other,), none),
    ensures
        group == 2 + id,
        found == Some(id),
        other < 2 ==> none is None,
{
}

} // verus!
