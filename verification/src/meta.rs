//! What keeps the shard map current, and what publishes it.
//!
//! Every node runs a reconciler; only the meta leader's proposals land. Two
//! proposals that race, which happens exactly at bootstrap, are settled by the
//! compare-and-swap that replaces the map and not by anyone holding a lock.
//!
//! A pass goes: ask for the local copy of the map; publish it, or bootstrap one
//! if there is none; ask who is in the cluster; and propose a new map if the
//! cluster has moved out from under the one in force.

use std::collections::BTreeSet;

use vstd::prelude::*;

use crate::bytes::{copy_all, opt_view};
use crate::command::{Change, Mutation};
use crate::config::NodeConfig;
use crate::driver::{applied, AdminReply, ClientOp, ClientReply, ClusterStatus};
use crate::ids::{members_of, lemma_take_to_set};
use crate::session::{BadSession, CommandResponse};
use crate::shard_map::{check_params, ParamMismatch, ShardMap, SHARD_MAP_KEY};
use crate::types::{Nanos, NodeId};

verus! {

broadcast use {vstd::std_specs::btree::group_btree_axioms, vstd::laws_cmp::group_laws_cmp};

/// How often a node holds the cluster against the map. Slow by design: a second
/// late costs nothing, and polling hard is paid on every node forever.
pub const RECONCILE_INTERVAL: Nanos = 500_000_000;

/// What a pass does once the meta group was asked for its map.
#[derive(Debug)]
pub enum Reconcile {
    /// The meta group could not be asked. Come back next time.
    Wait,
    /// There is no map yet.
    Bootstrap,
    /// Read the map in these bytes.
    Decode(Vec<u8>),
}

/// What becomes of a map that was read.
#[derive(Debug)]
pub enum Verdict {
    /// Every request handler routes by it.
    Publish,
    /// This node would route every key to the wrong group, and say nothing. It
    /// stops instead.
    Refuse(ParamMismatch),
}

/// The placement to compute for a new cluster.
#[derive(Debug)]
pub struct FirstPlacement {
    pub version: u64,
    pub nodes: Vec<NodeId>,
    pub num_shards: u16,
    pub replication_factor: u8,
    pub vnodes_per_node: u32,
}

/// Keeps one node's view of the placement, and the placement itself, current.
#[derive(Debug)]
pub struct MetaReconciler {
    pub config: NodeConfig,
}

/// Who is in the cluster: the meta group's voters, then its learners. A node
/// that was admitted after bootstrap never votes on placement and holds data
/// all the same.
pub open spec fn nodes_of(status: ClusterStatus) -> Seq<NodeId> {
    status.voters@ + status.learners@
}

/// The nodes that a status names, if it was a status that came back.
pub open spec fn named_nodes(reply: Option<AdminReply>) -> Option<Seq<NodeId>> {
    match reply {
        Some(AdminReply::Status(status)) => Some(nodes_of(status)),
        _ => None,
    }
}

/// Who is in the cluster, if the meta group said.
pub fn cluster_nodes(reply: Option<AdminReply>) -> (nodes: Option<Vec<NodeId>>)
    ensures
        match nodes {
            Some(n) => named_nodes(reply) == Some(n@),
            None => named_nodes(reply) is None,
        },
{
    match reply {
        Some(AdminReply::Status(status)) => {
            let mut nodes = status.voters;
            let mut learners = status.learners;
            nodes.append(&mut learners);
            Some(nodes)
        },
        _ => None,
    }
}

/// The set of the nodes of a list.
fn set_of(nodes: &Vec<NodeId>) -> (set: BTreeSet<NodeId>)
    ensures
        set@ == nodes@.to_set(),
{
    let mut set: BTreeSet<NodeId> = BTreeSet::new();
    let mut i: usize = 0;
    assert(nodes@.take(0).to_set() =~= Set::<NodeId>::empty());
    while i < nodes.len()
        invariant
            i <= nodes@.len(),
            set@ == nodes@.take(i as int).to_set(),
        decreases nodes@.len() - i,
    {
        set.insert(nodes[i]);
        i += 1;
        proof {
            lemma_take_to_set(nodes@, i - 1);
        }
    }
    assert(nodes@.take(i as int) =~= nodes@);
    set
}

/// Whether two sets of nodes are the same.
fn same_nodes(a: &BTreeSet<NodeId>, b: &BTreeSet<NodeId>) -> (r: bool)
    ensures
        r == (a@ == b@),
{
    let x = members_of(a);
    let y = members_of(b);
    if x.len() != y.len() {
        proof {
            if a@ == b@ {
                assert(x@ == y@);
            }
        }
        return false;
    }
    let mut i: usize = 0;
    while i < x.len()
        invariant
            i <= x@.len() == y@.len(),
            x@ == crate::ids::in_order(a@),
            y@ == crate::ids::in_order(b@),
            forall|j: int| 0 <= j < i ==> x@[j] == y@[j],
        decreases x@.len() - i,
    {
        if x[i] != y[i] {
            return false;
        }
        i += 1;
    }
    assert(x@ =~= y@);
    true
}

impl MetaReconciler {
    pub fn new(config: NodeConfig) -> (m: MetaReconciler)
        ensures
            m.config == config,
    {
        MetaReconciler { config }
    }

    /// Starts a pass, with what the meta group said its map is.
    pub fn reconcile(&self, reply: Option<AdminReply>) -> (r: Reconcile)
        ensures
            match reply {
                Some(AdminReply::ShardMap(None)) => r is Bootstrap,
                Some(AdminReply::ShardMap(Some(bytes))) => r == Reconcile::Decode(bytes),
                _ => r is Wait,
            },
    {
        match reply {
            Some(AdminReply::ShardMap(None)) => Reconcile::Bootstrap,
            Some(AdminReply::ShardMap(Some(bytes))) => Reconcile::Decode(bytes),
            _ => Reconcile::Wait,
        }
    }

    /// Judges a map that was read. It is published before anything is
    /// proposed: this node's handlers serve the current placement even on a
    /// pass that also finds it out of date.
    pub fn judge(&self, map: &ShardMap) -> (v: Verdict)
        ensures
            match v {
                Verdict::Publish => {
                    &&& self.config.num_shards == map.num_shards
                    &&& self.config.replication_factor == map.replication_factor
                    &&& self.config.vnodes_per_node == map.vnodes_per_node
                },
                Verdict::Refuse(m) => if self.config.num_shards != map.num_shards {
                    &&& m.parameter@ == "shards"@
                    &&& m.ours == self.config.num_shards
                    &&& m.stored == map.num_shards
                } else if self.config.replication_factor != map.replication_factor {
                    &&& m.parameter@ == "replication-factor"@
                    &&& m.ours == self.config.replication_factor
                    &&& m.stored == map.replication_factor
                } else {
                    &&& m.parameter@ == "vnodes"@
                    &&& m.ours == self.config.vnodes_per_node
                    &&& m.stored == map.vnodes_per_node
                    &&& m.ours != m.stored
                },
            },
    {
        match check_params(&self.config, map) {
            Ok(()) => Verdict::Publish,
            Err(mismatch) => Verdict::Refuse(mismatch),
        }
    }

    /// The nodes to place the shards on anew, if the cluster has moved. The
    /// sets are compared whole: a node that missed a change while it was down
    /// reaches the same conclusion as one that watched every step. A cluster
    /// that has not moved gets no new version.
    pub fn follow_cluster(&self, current: &ShardMap, status: Option<AdminReply>) -> (next: Option<
        BTreeSet<NodeId>,
    >)
        ensures
            match (next, named_nodes(status)) {
                (Some(set), Some(nodes)) => {
                    &&& set@ == nodes.to_set()
                    &&& nodes.len() > 0
                    &&& set@ != current.nodes@
                },
                (None, Some(nodes)) => nodes.len() == 0 || nodes.to_set() == current.nodes@,
                (None, None) => true,
                (Some(_), None) => false,
            },
    {
        let nodes = match cluster_nodes(status) {
            Some(nodes) => nodes,
            None => {
                return None;
            },
        };
        if nodes.len() == 0 {
            return None;
        }
        let set = set_of(&nodes);
        if same_nodes(&set, &current.nodes) {
            return None;
        }
        Some(set)
    }

    /// The placement to compute where there is none: version 1, over everyone
    /// in the cluster, by this node's flags.
    pub fn bootstrap(&self, status: Option<AdminReply>) -> (first: Option<FirstPlacement>)
        ensures
            match (first, named_nodes(status)) {
                (Some(p), Some(nodes)) => {
                    &&& nodes.len() > 0
                    &&& p.version == 1
                    &&& p.nodes@ == nodes
                    &&& p.num_shards == self.config.num_shards
                    &&& p.replication_factor == self.config.replication_factor
                    &&& p.vnodes_per_node == self.config.vnodes_per_node
                },
                (None, Some(nodes)) => nodes.len() == 0,
                (None, None) => true,
                (Some(_), None) => false,
            },
    {
        let nodes = match cluster_nodes(status) {
            Some(nodes) => nodes,
            None => {
                return None;
            },
        };
        if nodes.len() == 0 {
            return None;
        }
        Some(
            FirstPlacement {
                version: 1,
                nodes,
                num_shards: self.config.num_shards,
                replication_factor: self.config.replication_factor,
                vnodes_per_node: self.config.vnodes_per_node,
            },
        )
    }

    /// The proposal that replaces the map in `expected` with `new`. It tracks
    /// no retry: what it expects already refuses a second one.
    pub fn swap(expected: Option<Vec<u8>>, new: Vec<u8>) -> (op: ClientOp)
        ensures
            op matches ClientOp::Mutate { ctx, op: m } && ctx is None && m@ == Change::Cas(
                SHARD_MAP_KEY@,
                opt_view(expected),
                new@,
            ),
    {
        ClientOp::Mutate {
            ctx: None,
            op: Mutation::Cas { key: copy_all(&SHARD_MAP_KEY), expected, new_value: new },
        }
    }

    /// Whether this node's proposal is the one that landed. Losing the race and
    /// not leading are the same from here: another's version is in the log.
    pub fn landed(reply: Option<ClientReply>) -> (r: bool)
        ensures
            r == (reply == Some(ClientReply::Swapped(true))),
    {
        match reply {
            Some(ClientReply::Swapped(swapped)) => swapped,
            _ => false,
        }
    }
}

/// What swapping the shard map does to a meta group's state.
pub open spec fn map_swapped(
    state: Map<Seq<u8>, Seq<u8>>,
    expected: Option<Seq<u8>>,
    new: Seq<u8>,
) -> Result<(Map<Seq<u8>, Seq<u8>>, CommandResponse), BadSession> {
    applied(state, (None, Change::Cas(SHARD_MAP_KEY@, expected, new)))
}

/// One bootstrap wins: of two maps proposed where there was none, the first to
/// commit is the map, and the other changes nothing and is told so.
pub proof fn law_one_bootstrap_wins(
    state: Map<Seq<u8>, Seq<u8>>,
    first: Seq<u8>,
    second: Seq<u8>,
)
    requires
        !state.contains_key(SHARD_MAP_KEY@),
    ensures
        map_swapped(state, None, first) matches Ok((after, response)) && response
            == CommandResponse::Swapped(true) && after[SHARD_MAP_KEY@] == first && map_swapped(
            after,
            None,
            second,
        ) == Ok::<_, BadSession>((after, CommandResponse::Swapped(false))),
{
}

/// A map replaces only the one it was made from: where another is in force, it
/// changes nothing.
pub proof fn law_a_map_replaces_its_own_predecessor(
    state: Map<Seq<u8>, Seq<u8>>,
    current: Seq<u8>,
    new: Seq<u8>,
)
    requires
        state.contains_key(SHARD_MAP_KEY@),
    ensures
        state[SHARD_MAP_KEY@] == current ==> map_swapped(state, Some(current), new) == Ok::<
            _,
            BadSession,
        >((state.insert(SHARD_MAP_KEY@, new), CommandResponse::Swapped(true))),
        state[SHARD_MAP_KEY@] != current ==> map_swapped(state, Some(current), new) == Ok::<
            _,
            BadSession,
        >((state, CommandResponse::Swapped(false))),
{
}

/// The cluster is everyone the meta group names, voting or learning, the voters
/// first; and nobody is named unless it was a status that came back.
pub proof fn law_the_cluster_is_voters_and_learners(
    reply: Option<AdminReply>,
    status: ClusterStatus,
    id: NodeId,
    i: int,
)
    ensures
        reply == Some(AdminReply::Status(status)) ==> (named_nodes(reply) matches Some(nodes) && {
            &&& nodes.contains(id) <==> status.voters@.contains(id) || status.learners@.contains(id)
            &&& nodes.len() == status.voters@.len() + status.learners@.len()
            &&& 0 <= i < status.voters@.len() ==> nodes[i] == status.voters@[i]
            &&& 0 <= i < status.learners@.len() ==> nodes[status.voters@.len() + i]
                == status.learners@[i]
        }),
        !(reply matches Some(AdminReply::Status(_))) ==> named_nodes(reply) is None,
{
    let voters = status.voters@;
    let learners = status.learners@;
    let all = voters + learners;
    if voters.contains(id) {
        let k = choose|k: int| 0 <= k < voters.len() && voters[k] == id;
        assert(all[k] == id);
    }
    if learners.contains(id) {
        let k = choose|k: int| 0 <= k < learners.len() && learners[k] == id;
        assert(all[voters.len() + k] == id);
    }
    if all.contains(id) {
        let k = choose|k: int| 0 <= k < all.len() && all[k] == id;
        if k < voters.len() {
            assert(voters[k] == id);
        } else {
            assert(learners[k - voters.len()] == id);
        }
    }
}

/// A new map moves nothing but the map: whatever was proposed, every other key of
/// the meta group's state stays as it is.
pub proof fn law_a_new_map_moves_nothing_else(
    state: Map<Seq<u8>, Seq<u8>>,
    expected: Option<Seq<u8>>,
    new: Seq<u8>,
    key: Seq<u8>,
)
    requires
        key != SHARD_MAP_KEY@,
    ensures
        map_swapped(state, expected, new) matches Ok((after, _)) && after.contains_key(key)
            == state.contains_key(key) && after[key] == state[key],
{
}

/// A map is published exactly if it was made with this node's own parameters;
/// else the node refuses it by the first that differs.
pub proof fn law_only_a_map_of_our_parameters_is_published(
    meta: &MetaReconciler,
    map: &ShardMap,
    v: Verdict,
)
    requires
        call_ensures(MetaReconciler::judge, (meta, map), v),
    ensures
        v is Publish <==> meta.config.num_shards == map.num_shards
            && meta.config.replication_factor == map.replication_factor
            && meta.config.vnodes_per_node == map.vnodes_per_node,
        v matches Verdict::Refuse(m) ==> m.ours != m.stored,
        v matches Verdict::Refuse(m) ==> (meta.config.num_shards != map.num_shards
            ==> m.parameter@ == "shards"@ && m.ours == meta.config.num_shards && m.stored
            == map.num_shards),
{
}

/// The placement follows the cluster: a new one is asked for exactly where the
/// cluster's members, voters and learners, are not those of the current map, and
/// it is for those members.
pub proof fn law_the_placement_follows_the_cluster(
    meta: &MetaReconciler,
    current: &ShardMap,
    status: ClusterStatus,
    next: Option<BTreeSet<NodeId>>,
    other: Option<AdminReply>,
    unasked: Option<BTreeSet<NodeId>>,
    id: NodeId,
)
    requires
        call_ensures(
            MetaReconciler::follow_cluster,
            (meta, current, Some(AdminReply::Status(status))),
            next,
        ),
        !(other matches Some(AdminReply::Status(_))),
        call_ensures(MetaReconciler::follow_cluster, (meta, current, other), unasked),
    ensures
        unasked is None,
        next matches Some(set) ==> (set@.contains(id) <==> status.voters@.contains(id)
            || status.learners@.contains(id)),
        next matches Some(set) ==> set@ != current.nodes@,
        next is None && status.voters@.len() + status.learners@.len() > 0 ==> (
        current.nodes@.contains(id) <==> status.voters@.contains(id) || status.learners@.contains(
            id,
        )),
        status.voters@.len() + status.learners@.len() == 0 ==> next is None,
{
    let reply = Some(AdminReply::Status(status));
    law_the_cluster_is_voters_and_learners(reply, status, id, 0);
    law_the_cluster_is_voters_and_learners(other, status, id, 0);
    let nodes = named_nodes(reply)->0;
    assert(nodes.to_set().contains(id) <==> nodes.contains(id));
}

/// A new cluster's first placement is version 1, over every member the cluster
/// names, with this node's parameters; there is none before it names any.
pub proof fn law_the_first_placement_is_of_all_members(
    meta: &MetaReconciler,
    status: ClusterStatus,
    first: Option<FirstPlacement>,
    id: NodeId,
)
    requires
        call_ensures(MetaReconciler::bootstrap, (meta, Some(AdminReply::Status(status))), first),
    ensures
        first is Some <==> status.voters@.len() + status.learners@.len() > 0,
        first matches Some(p) ==> {
            &&& p.version == 1
            &&& p.nodes@.contains(id) <==> status.voters@.contains(id)
                || status.learners@.contains(id)
            &&& p.num_shards == meta.config.num_shards
            &&& p.replication_factor == meta.config.replication_factor
            &&& p.vnodes_per_node == meta.config.vnodes_per_node
        },
{
    law_the_cluster_is_voters_and_learners(Some(AdminReply::Status(status)), status, id, 0);
}

/// What a round of reconciling does with what this replica holds, and how a new
/// map is written: over exactly what it is to replace, with no context; it has
/// landed exactly where the swap took effect.
pub proof fn law_a_map_is_swapped_in(
    meta: &MetaReconciler,
    reply: Option<AdminReply>,
    r: Reconcile,
    expected: Option<Vec<u8>>,
    new: Vec<u8>,
    op: ClientOp,
    answer: Option<ClientReply>,
    landed: bool,
)
    requires
        call_ensures(MetaReconciler::reconcile, (meta, reply), r),
        call_ensures(MetaReconciler::swap, (expected, new), op),
        call_ensures(MetaReconciler::landed, (answer,), landed),
    ensures
        r is Bootstrap <==> reply == Some(AdminReply::ShardMap(None)),
        r matches Reconcile::Decode(bytes) ==> reply == Some(AdminReply::ShardMap(Some(bytes))),
        reply matches Some(AdminReply::ShardMap(Some(_))) ==> r is Decode,
        op matches ClientOp::Mutate { ctx, op: m } && ctx is None && (match expected {
            Some(bytes) => m@ == Change::Cas(SHARD_MAP_KEY@, Some(bytes@), new@),
            None => m@ == Change::Cas(SHARD_MAP_KEY@, None, new@),
        }),
        landed <==> answer == Some(ClientReply::Swapped(true)),
{
}

/// The members of a cluster are its voters and its learners, as it lists them.
pub proof fn law_members_are_listed_as_told(
    status: ClusterStatus,
    nodes: Option<Vec<NodeId>>,
    other: Option<AdminReply>,
    none: Option<Vec<NodeId>>,
    id: NodeId,
)
    requires
        call_ensures(cluster_nodes, (Some(AdminReply::Status(status)),), nodes),
        !(other matches Some(AdminReply::Status(_))),
        call_ensures(cluster_nodes, (other,), none),
    ensures
        nodes matches Some(n) && n@ == status.voters@ + status.learners@,
        none is None,
{
    law_the_cluster_is_voters_and_learners(Some(AdminReply::Status(status)), status, id, 0);
    law_the_cluster_is_voters_and_learners(other, status, id, 0);
    match nodes {
        Some(n) => {
            assert forall|i: int| 0 <= i < n@.len() implies n@[i] == (status.voters@
                + status.learners@)[i] by {
                if i < status.voters@.len() {
                    law_the_cluster_is_voters_and_learners(
                        Some(AdminReply::Status(status)),
                        status,
                        id,
                        i,
                    );
                } else {
                    law_the_cluster_is_voters_and_learners(
                        Some(AdminReply::Status(status)),
                        status,
                        id,
                        i - status.voters@.len(),
                    );
                }
            }
            assert(n@ =~= status.voters@ + status.learners@);
        },
        None => {},
    }
}

/// A map that is refused is refused by the first parameter that differs, with
/// this node's value and the map's.
pub proof fn law_a_refusal_names_the_parameter(meta: &MetaReconciler, map: &ShardMap, v: Verdict)
    requires
        call_ensures(MetaReconciler::judge, (meta, map), v),
    ensures
        meta.config.num_shards == map.num_shards && meta.config.replication_factor
            != map.replication_factor ==> (v matches Verdict::Refuse(m) && m.parameter@
            == "replication-factor"@ && m.ours == meta.config.replication_factor && m.stored
            == map.replication_factor),
        meta.config.num_shards == map.num_shards && meta.config.replication_factor
            == map.replication_factor && meta.config.vnodes_per_node != map.vnodes_per_node ==> (
        v matches Verdict::Refuse(m) && m.parameter@ == "vnodes"@ && m.ours
            == meta.config.vnodes_per_node && m.stored == map.vnodes_per_node),
{
}

} // verus!
