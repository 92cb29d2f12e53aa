//! Where a key belongs, and where to send one this node does not hold.
//!
//! Two steps, deliberately different in kind. Key to shard is the ring's: a hash
//! modulo the number of shards, which never touches placement, and that is what
//! makes it stable across restarts and membership changes. Shard to nodes is the replicated map, so every node
//! routes by a placement the cluster agreed on rather than one it computed.

use vstd::prelude::*;

use crate::group::{self, group_of, GroupId};
use crate::shard_map::{replicas_in, ShardMap};
use crate::types::{NodeId, ShardId};

verus! {

/// Where a key is to be served.
#[derive(Debug, PartialEq, Eq)]
pub enum Route {
    /// This node replicates the key's shard. Whether it leads that shard is a
    /// separate question, answered by the group itself.
    Local { shard: ShardId, group: GroupId },
    /// Somebody else's: the shard's replica set, in ring order, so a client has
    /// somewhere to go rather than a scan to perform.
    Elsewhere { shard: ShardId, replicas: Vec<NodeId> },
    /// No map has been published here yet, so there is nowhere to point the
    /// client.
    NoMap,
}

/// Whether a route is the one for a shard under a placement.
pub open spec fn routes_shard(
    route: Route,
    shards: Seq<Vec<NodeId>>,
    me: NodeId,
    shard: ShardId,
) -> bool {
    if replicas_in(shards, shard).contains(me) {
        route == (Route::Local { shard, group: group_of(shard) })
    } else {
        route matches Route::Elsewhere { shard: s, replicas } && s == shard && replicas@
            == replicas_in(shards, shard)
    }
}

/// Resolves a key against the placement `me` currently believes in, which comes
/// with the shard that the ring puts the key in under it.
pub fn route(map: Option<(&ShardMap, ShardId)>, me: NodeId) -> (r: Route)
    ensures
        match map {
            None => r == Route::NoMap,
            Some((m, shard)) => routes_shard(r, m.shards@, me, shard),
        },
{
    match map {
        None => Route::NoMap,
        Some((m, shard)) => if m.holds(me, shard) {
            Route::Local { shard, group: group::shard(shard) }
        } else {
            Route::Elsewhere { shard, replicas: m.replicas(shard) }
        },
    }
}

/// A key is served where its shard is: here, by the group that is that shard's,
/// exactly if the placement lists this node for the shard; else the client is
/// given the nodes that it lists, all of them and in order.
pub proof fn law_a_key_is_served_where_its_shard_is(
    route: Route,
    shards: Seq<Vec<NodeId>>,
    me: NodeId,
    shard: ShardId,
)
    requires
        routes_shard(route, shards, me, shard),
    ensures
        route is Local <==> shard < shards.len() && shards[shard as int]@.contains(me),
        match route {
            Route::Local { shard: s, group } => s == shard && group::shard_in(group) == Some(shard),
            Route::Elsewhere { shard: s, replicas } => {
                &&& s == shard
                &&& shard < shards.len() ==> replicas@ == shards[shard as int]@
                &&& shard >= shards.len() ==> replicas@.len() == 0
            },
            Route::NoMap => false,
        },
{
    group::law_group_numbering(shard, shard);
}

/// A key is served here exactly where the map places its shard on this node, by
/// that shard's group; else its shard's nodes are named, and without a map
/// nobody is.
pub proof fn law_where_a_key_is_served(
    map: &ShardMap,
    shard: ShardId,
    me: NodeId,
    r: Route,
    unmapped: Route,
)
    requires
        call_ensures(route, (Some((map, shard)), me), r),
        call_ensures(route, (None, me), unmapped),
    ensures
        unmapped == Route::NoMap,
        match r {
            Route::Local { shard: s, group } => {
                &&& s == shard
                &&& group == 2 + shard
                &&& shard < map.shards@.len() && map.shards@[shard as int]@.contains(me)
            },
            Route::Elsewhere { shard: s, replicas } => {
                &&& s == shard
                &&& shard < map.shards@.len() ==> replicas@ == map.shards@[shard as int]@
                    && !replicas@.contains(me)
                &&& shard >= map.shards@.len() ==> replicas@.len() == 0
            },
            Route::NoMap => false,
        },
{
    law_a_key_is_served_where_its_shard_is(r, map.shards@, me, shard);
}

} // verus!
