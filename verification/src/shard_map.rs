//! The shard map: which nodes hold which slice of the key space.
//!
//! The map lives in the meta group's state machine under one reserved key, as
//! one value. The group is a versioned register: a map update is an ordinary
//! compare-and-swap, so the order of concurrent proposals is a property of that
//! swap rather than of a lock. Being in the state machine is also what makes it
//! survive: a snapshot carries it, and a restart replays it.

use std::collections::BTreeSet;

use vstd::prelude::*;
use vstd::string::*;

use crate::config::NodeConfig;
use crate::engine::Engine;
use crate::session::reserved;
use crate::text::{as_chars, decimal, decimal_text};
use crate::types::{holds, NodeId, ShardId};

verus! {

/// The key of the shard map: the reserved byte and `shardmap`. There is exactly
/// one shard map, not a family of them.
pub const SHARD_MAP_KEY: [u8; 9] = [0x00, 0x73, 0x68, 0x61, 0x72, 0x64, 0x6d, 0x61, 0x70];

/// Ring positions per node unless a cluster is founded with another number.
pub const DEFAULT_VNODES: u32 = 128;

/// Where every shard is placed.
#[derive(Debug, PartialEq, Eq)]
pub struct ShardMap {
    pub version: u64,
    pub nodes: BTreeSet<NodeId>,
    pub num_shards: u16,
    pub replication_factor: u8,
    pub vnodes_per_node: u32,
    /// `shards[i]` is shard `i`'s replica set, in ring order.
    pub shards: Vec<Vec<NodeId>>,
}

/// The replica set of a shard; empty for a shard that the map does not have.
pub open spec fn replicas_in(shards: Seq<Vec<NodeId>>, shard: ShardId) -> Seq<NodeId> {
    if shard < shards.len() {
        shards[shard as int]@
    } else {
        Seq::empty()
    }
}

impl ShardMap {
    /// A shard's replica set, in ring order; empty for a shard that the map
    /// does not have.
    pub fn replicas(&self, shard: ShardId) -> (ids: Vec<NodeId>)
        ensures
            ids@ == replicas_in(self.shards@, shard),
    {
        if (shard as usize) < self.shards.len() {
            crate::types::copy_ids(&self.shards[shard as usize])
        } else {
            Vec::new()
        }
    }

    /// Whether `node` is one of a shard's replicas.
    pub fn holds(&self, node: NodeId, shard: ShardId) -> (r: bool)
        ensures
            r == replicas_in(self.shards@, shard).contains(node),
    {
        if (shard as usize) < self.shards.len() {
            holds(&self.shards[shard as usize], node)
        } else {
            false
        }
    }

    /// The shards that `node` is a replica of, in order.
    pub fn shards_of(&self, node: NodeId) -> (mine: Vec<ShardId>)
        ensures
            crate::ids::shards_increasing(mine@),
            forall|s: ShardId|
                #![trigger mine@.contains(s)]
                #![trigger replicas_in(self.shards@, s).contains(node)]
                mine@.contains(s) <==> s < self.num_shards && replicas_in(
                    self.shards@,
                    s,
                ).contains(node),
    {
        let mut mine: Vec<ShardId> = Vec::new();
        let mut s: u16 = 0;
        while s < self.num_shards
            invariant
                s <= self.num_shards,
                crate::ids::shards_increasing(mine@),
                forall|i: int| 0 <= i < mine@.len() ==> #[trigger] mine@[i] < s,
                forall|t: ShardId|
                    mine@.contains(t) <==> t < s && #[trigger] replicas_in(
                        self.shards@,
                        t,
                    ).contains(node),
            decreases self.num_shards - s,
        {
            let ghost before = mine@;
            if self.holds(node, s) {
                mine.push(s);
                proof {
                    assert forall|t: ShardId|
                        mine@.contains(t) <==> t < s + 1 && #[trigger] replicas_in(
                            self.shards@,
                            t,
                        ).contains(node) by {
                        if before.contains(t) {
                            let i = choose|i: int| 0 <= i < before.len() && before[i] == t;
                            assert(mine@[i] == t);
                        }
                        if t == s {
                            assert(mine@[before.len() as int] == s);
                        }
                        if mine@.contains(t) && t != s {
                            let i = choose|i: int| 0 <= i < mine@.len() && mine@[i] == t;
                            assert(before[i] == t);
                        }
                    }
                }
            }
            s += 1;
        }
        mine
    }
}

/// The stored map's bytes, or `None` before the meta group has bootstrapped one.
///
/// Bytes rather than a decoded map because every caller needs them: the
/// compare-and-swap that replaces the map compares bytes.
pub fn encoded(engine: &Engine) -> (bytes: Option<Vec<u8>>)
    requires
        engine.wf(),
    ensures
        match bytes {
            Some(b) => engine@.contains_key(SHARD_MAP_KEY@) && b@ == engine@[SHARD_MAP_KEY@],
            None => !engine@.contains_key(SHARD_MAP_KEY@),
        },
{
    engine.get(&SHARD_MAP_KEY)
}

/// The map's key is one that no client may name, so none can rewrite placement.
pub proof fn law_map_key_is_reserved()
    ensures
        reserved(SHARD_MAP_KEY@),
{
}

/// A shard's replicas are the nodes listed for it, all of them and in the order
/// listed; a shard that is not listed has none.
pub proof fn law_a_shard_has_the_replicas_listed_for_it(
    shards: Seq<Vec<NodeId>>,
    shard: ShardId,
    i: int,
)
    ensures
        shard < shards.len() ==> replicas_in(shards, shard).len() == shards[shard as int]@.len(),
        shard < shards.len() && 0 <= i < shards[shard as int]@.len() ==> replicas_in(
            shards,
            shard,
        )[i] == shards[shard as int]@[i],
        shard >= shards.len() ==> replicas_in(shards, shard).len() == 0,
{
}

/// This node's flags disagree with the cluster's stored placement. A node
/// arriving with different values is not out of date but wrong: hashing modulo
/// another number of shards agrees about almost no key.
#[derive(Debug, Clone, Copy, PartialEq, Eq)]
pub struct ParamMismatch {
    pub parameter: &'static str,
    pub ours: u32,
    pub stored: u32,
}

impl ParamMismatch {
    /// The mismatch in words.
    pub fn message(&self) -> (text: String)
        ensures
            text@ == "--"@ + self.parameter@ + " is "@ + as_chars(decimal(self.ours as nat))
                + " on this node but the cluster's shard map was built with "@ + as_chars(
                decimal(self.stored as nat),
            ) + "; it is fixed at cluster creation and cannot be changed by restarting a node"@,
    {
        let mut text = "--".to_owned();
        text.append(self.parameter);
        text.append(" is ");
        text.append(decimal_text(self.ours as u64).as_str());
        text.append(" on this node but the cluster's shard map was built with ");
        text.append(decimal_text(self.stored as u64).as_str());
        text.append("; it is fixed at cluster creation and cannot be changed by restarting a node");
        text
    }
}

/// Checks this node's placement flags against the map the cluster agreed on.
/// The first that differs is the one reported.
pub fn check_params(config: &NodeConfig, map: &ShardMap) -> (r: Result<(), ParamMismatch>)
    ensures
        match r {
            Ok(()) => {
                &&& config.num_shards == map.num_shards
                &&& config.replication_factor == map.replication_factor
                &&& config.vnodes_per_node == map.vnodes_per_node
            },
            Err(m) => if config.num_shards != map.num_shards {
                &&& m.parameter@ == "shards"@
                &&& m.ours == config.num_shards
                &&& m.stored == map.num_shards
            } else if config.replication_factor != map.replication_factor {
                &&& m.parameter@ == "replication-factor"@
                &&& m.ours == config.replication_factor
                &&& m.stored == map.replication_factor
            } else {
                &&& m.parameter@ == "vnodes"@
                &&& m.ours == config.vnodes_per_node
                &&& m.stored == map.vnodes_per_node
                &&& m.ours != m.stored
            },
        },
{
    if config.num_shards != map.num_shards {
        return Err(
            ParamMismatch {
                parameter: "shards",
                ours: config.num_shards as u32,
                stored: map.num_shards as u32,
            },
        );
    }
    if config.replication_factor != map.replication_factor {
        return Err(
            ParamMismatch {
                parameter: "replication-factor",
                ours: config.replication_factor as u32,
                stored: map.replication_factor as u32,
            },
        );
    }
    if config.vnodes_per_node != map.vnodes_per_node {
        return Err(
            ParamMismatch {
                parameter: "vnodes",
                ours: config.vnodes_per_node,
                stored: map.vnodes_per_node,
            },
        );
    }
    Ok(())
}

/// A map says who holds each shard, and which shards a node holds, as it lists
/// them.
pub proof fn law_a_map_says_who_holds_what(
    map: &ShardMap,
    shard: ShardId,
    node: NodeId,
    ids: Vec<NodeId>,
    held: bool,
    mine: Vec<ShardId>,
)
    requires
        call_ensures(ShardMap::replicas, (map, shard), ids),
        call_ensures(ShardMap::holds, (map, node, shard), held),
        call_ensures(ShardMap::shards_of, (map, node), mine),
    ensures
        shard < map.shards@.len() ==> ids@ == map.shards@[shard as int]@,
        shard >= map.shards@.len() ==> ids@.len() == 0,
        held <==> ids@.contains(node),
        mine@.contains(shard) <==> shard < map.num_shards && held,
{
    assert(replicas_in(map.shards@, shard).contains(node) == held);
}

/// A node's parameters are those of the map, or the first that differs is named
/// with both values; and the map is read from where it is kept.
pub proof fn law_parameters_are_fixed_by_the_map(
    config: &NodeConfig,
    map: &ShardMap,
    r: Result<(), ParamMismatch>,
    engine: &Engine,
    bytes: Option<Vec<u8>>,
)
    requires
        engine.wf(),
        call_ensures(check_params, (config, map), r),
        call_ensures(encoded, (engine,), bytes),
    ensures
        r is Ok <==> config.num_shards == map.num_shards && config.replication_factor
            == map.replication_factor && config.vnodes_per_node == map.vnodes_per_node,
        r matches Err(m) ==> m.ours != m.stored,
        bytes is Some <==> engine@.contains_key(SHARD_MAP_KEY@),
        bytes matches Some(b) ==> b@ == engine@[SHARD_MAP_KEY@],
{
}

/// The first parameter that differs is named, with this node's value and the
/// map's.
pub proof fn law_the_differing_parameter_is_named(
    config: &NodeConfig,
    map: &ShardMap,
    r: Result<(), ParamMismatch>,
)
    requires
        call_ensures(check_params, (config, map), r),
    ensures
        config.num_shards != map.num_shards ==> (r matches Err(m) && m.parameter@ == "shards"@
            && m.ours == config.num_shards && m.stored == map.num_shards),
        config.num_shards == map.num_shards && config.replication_factor != map.replication_factor
            ==> (r matches Err(m) && m.parameter@ == "replication-factor"@ && m.ours
            == config.replication_factor && m.stored == map.replication_factor),
        config.num_shards == map.num_shards && config.replication_factor == map.replication_factor
            && config.vnodes_per_node != map.vnodes_per_node ==> (r matches Err(m) && m.parameter@
            == "vnodes"@ && m.ours == config.vnodes_per_node && m.stored == map.vnodes_per_node),
{
}

} // verus!
