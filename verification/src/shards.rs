//! Founding and hosting this node's shard groups.
//!
//! Founding is a one-time act. Every replica of a shard derives the same voters
//! from the same version of the map, which is what lets a group be founded with
//! no membership change; that collapses the moment two nodes found from
//! different versions. So a node founds from version 1 and never again, and a
//! shard that later moves here is adopted: it starts with no voters, and takes
//! its membership from the leader that admits it.

use std::collections::BTreeSet;

use vstd::prelude::*;

use crate::config::{seed_of, NodeConfig, RaftConfig};
use crate::driver::{admin_taken, in_group, AdminOp, AdminReply, AdminStep, Group, NodeView};
use crate::group::{self, group_of, GroupId};
use crate::ids::{shards_in, shards_increasing, lemma_take_to_set};
use crate::placement::PlacementError;
use crate::shard_map::{replicas_in, ShardMap};
use crate::types::{LogIndex, Nanos, NodeId, ShardId};

verus! {

broadcast use {vstd::std_specs::btree::group_btree_axioms, vstd::laws_cmp::group_laws_cmp};

/// How often the supervisor holds the map against what it hosts.
pub const SUPERVISE_INTERVAL: Nanos = 500_000_000;

/// Why a group is opened, which decides the membership it starts with.
#[derive(Debug)]
pub enum Origin {
    /// The map placed the shard here at the start: its replicas are the voters.
    Found { voters: Vec<NodeId> },
    /// The map moved the shard here: its leader will say who is in the group.
    Adopt,
    /// The shard is on this disk: what founding recorded holds.
    Reopen,
}

/// What a pass over the placement does first.
#[derive(Debug, Clone, Copy, PartialEq, Eq, Structural)]
pub enum PassStart {
    /// No placement yet.
    Idle,
    /// Nothing was founded here: found, then go on.
    Found,
    /// Adopt what came and release what went.
    Follow,
    /// The founding marker cannot be read. Nothing is done.
    Stuck,
}

/// What founding comes to: each shard to found with its voters, and the version
/// to record.
#[derive(Debug)]
pub struct Founding {
    pub shards: Vec<(ShardId, Vec<NodeId>)>,
    pub version: u64,
}

/// What asking the driver to let a shard go comes to.
#[derive(Debug, Clone, Copy, PartialEq, Eq, Structural)]
pub enum Release {
    /// The group agreed: stop routing to it, then remove its directory.
    Unlink,
    /// The group still names this node. Asked again next time.
    Keep,
    /// The driver is gone.
    Stop,
}

/// Holds the shards that this node hosts against the placement.
#[derive(Debug)]
pub struct ShardSupervisor {
    pub config: NodeConfig,
    /// Shards that were handed to the driver.
    pub hosted: BTreeSet<ShardId>,
    /// Shards reported as having moved away, so that it is said once.
    pub reported: BTreeSet<ShardId>,
}

/// Whether the map places a shard on a node.
pub open spec fn placed(map: ShardMap, node: NodeId, shard: ShardId) -> bool {
    shard < map.num_shards && replicas_in(map.shards@, shard).contains(node)
}

/// Whether a founding list names a shard.
pub open spec fn lists(shards: Seq<(ShardId, Vec<NodeId>)>, shard: ShardId) -> bool {
    exists|i: int| 0 <= i < shards.len() && (#[trigger] shards[i]).0 == shard
}

/// Whether a node founds shards from this map: it is not joining a cluster, and
/// the map is the first.
pub open spec fn founds(config: NodeConfig, map: ShardMap) -> bool {
    !config.initial_learner && map.version == 1
}

impl ShardSupervisor {
    pub fn new(config: NodeConfig) -> (s: ShardSupervisor)
        ensures
            s.config == config,
            s.hosted@ == Set::<ShardId>::empty(),
            s.reported@ == Set::<ShardId>::empty(),
    {
        ShardSupervisor { config, hosted: BTreeSet::new(), reported: BTreeSet::new() }
    }

    /// Starts a pass: whether there is a placement, and what the founding
    /// marker says.
    pub fn pass(
        &self,
        map: Option<&ShardMap>,
        founded_at: &Result<Option<u64>, PlacementError>,
    ) -> (start: PassStart)
        ensures
            start == match (map, *founded_at) {
                (None, _) => PassStart::Idle,
                (Some(_), Ok(None)) => PassStart::Found,
                (Some(_), Ok(Some(_))) => PassStart::Follow,
                (Some(_), Err(_)) => PassStart::Stuck,
            },
    {
        match map {
            None => PassStart::Idle,
            Some(_) => match founded_at {
                Ok(None) => PassStart::Found,
                Ok(Some(_)) => PassStart::Follow,
                Err(_) => PassStart::Stuck,
            },
        }
    }

    /// The shards this node founds, once, from the first map it sees. A joining
    /// node founds none, and neither does one that missed version 1: its shards
    /// arrive by migration. Either way the version is recorded.
    pub fn found(&self, map: &ShardMap) -> (founding: Founding)
        ensures
            founding.version == map.version,
            forall|i: int, j: int|
                #![trigger founding.shards@[i], founding.shards@[j]]
                0 <= i < j < founding.shards@.len() ==> founding.shards@[i].0
                    < founding.shards@[j].0,
            forall|i: int|
                0 <= i < founding.shards@.len() ==> (#[trigger] founding.shards@[i]).1@
                    == replicas_in(map.shards@, founding.shards@[i].0),
            forall|s: ShardId|
                #[trigger] lists(founding.shards@, s) <==> founds(self.config, *map) && placed(
                    *map,
                    self.config.id,
                    s,
                ),
    {
        let mut shards: Vec<(ShardId, Vec<NodeId>)> = Vec::new();
        if self.config.initial_learner || map.version != 1 {
            return Founding { shards, version: map.version };
        }
        let mine = map.shards_of(self.config.id);
        let mut i: usize = 0;
        while i < mine.len()
            invariant
                i <= mine@.len(),
                shards@.len() == i,
                forall|j: int|
                    0 <= j < i ==> (#[trigger] shards@[j]).0 == mine@[j] && shards@[j].1@
                        == replicas_in(map.shards@, mine@[j]),
            decreases mine@.len() - i,
        {
            shards.push((mine[i], map.replicas(mine[i])));
            i += 1;
        }
        proof {
            assert forall|s: ShardId|
                #[trigger] lists(shards@, s) <==> founds(self.config, *map) && placed(
                    *map,
                    self.config.id,
                    s,
                ) by {
                let held = replicas_in(map.shards@, s).contains(self.config.id);
                assert(mine@.contains(s) <==> s < map.num_shards && held);
                if mine@.contains(s) {
                    let i = choose|i: int| 0 <= i < mine@.len() && mine@[i] == s;
                    assert(shards@[i].0 == s);
                }
                if lists(shards@, s) {
                    let i = choose|i: int| 0 <= i < shards@.len() && (#[trigger] shards@[i]).0 == s;
                    assert(mine@[i] == s);
                }
            }
        }
        Founding { shards, version: map.version }
    }

    /// The shards to adopt: those the map places here that are not hosted yet,
    /// in order. Hosting one first means that its leader's next message lands.
    pub fn incoming(&self, map: &ShardMap) -> (shards: Vec<ShardId>)
        ensures
            shards_increasing(shards@),
            forall|s: ShardId| #[trigger]
                shards@.contains(s) <==> adopts(*self, *map, s),
    {
        let mine = map.shards_of(self.config.id);
        let mut shards: Vec<ShardId> = Vec::new();
        let mut i: usize = 0;
        while i < mine.len()
            invariant
                i <= mine@.len(),
                shards_increasing(mine@),
                shards_increasing(shards@),
                forall|j: int, k: int|
                    #![trigger shards@[j], mine@[k]]
                    0 <= j < shards@.len() && i <= k < mine@.len() ==> shards@[j] < mine@[k],
                forall|s: ShardId|
                    shards@.contains(s) <==> #[trigger] mine@.take(i as int).contains(s)
                        && !self.hosted@.contains(s),
            decreases mine@.len() - i,
        {
            let shard = mine[i];
            let ghost before = shards@;
            let fresh = !self.hosted.contains(&shard);
            if fresh {
                shards.push(shard);
            }
            proof {
                let done = mine@.take(i as int);
                let next = mine@.take(i + 1);
                assert(next =~= done.push(shard));
                assert forall|s: ShardId|
                    shards@.contains(s) <==> #[trigger] next.contains(s) && !self.hosted@.contains(
                        s,
                    ) by {
                    lemma_push_contains(done, shard, s);
                    if fresh {
                        lemma_push_contains(before, shard, s);
                    }
                    assert(before.contains(s) <==> done.contains(s) && !self.hosted@.contains(s));
                }
                assert forall|j: int, k: int|
                    #![trigger shards@[j], mine@[k]]
                    0 <= j < shards@.len() && i + 1 <= k < mine@.len() implies shards@[j]
                    < mine@[k] by {
                    if j < before.len() {
                        assert(before[j] < mine@[k]);
                    } else {
                        assert(mine@[i as int] < mine@[k]);
                    }
                }
                if fresh {
                    assert forall|a: int, b: int|
                        0 <= a < b < shards@.len() implies shards@[a] < shards@[b] by {
                        if b == before.len() {
                            assert(before[a] < mine@[i as int]);
                        }
                    }
                }
            }
            i += 1;
        }
        proof {
            assert(mine@.take(i as int) =~= mine@);
            assert forall|s: ShardId| #[trigger] shards@.contains(s) <==> adopts(*self, *map, s) by {
                assert(mine@.take(i as int).contains(s) <==> mine@.contains(s));
                let held = replicas_in(map.shards@, s).contains(self.config.id);
                assert(mine@.contains(s) <==> s < map.num_shards && held);
            }
        }
        shards
    }

    /// Takes a shard up for hosting. A shard is hosted once.
    pub fn take_up(&mut self, shard: ShardId) -> (fresh: bool)
        ensures
            fresh == !old(self).hosted@.contains(shard),
            final(self).hosted@ == old(self).hosted@.insert(shard),
            *final(self) == (ShardSupervisor { hosted: final(self).hosted, ..*old(self) }),
    {
        self.hosted.insert(shard)
    }

    /// A shard that was taken up could not be opened or handed over.
    pub fn give_back(&mut self, shard: ShardId)
        ensures
            final(self).hosted@ == old(self).hosted@.remove(shard),
            *final(self) == (ShardSupervisor { hosted: final(self).hosted, ..*old(self) }),
    {
        self.hosted.remove(&shard);
    }

    /// The hosted shards that the map has moved away and that were not reported
    /// yet, in order.
    pub fn newly_departed(&mut self, map: &ShardMap) -> (shards: Vec<ShardId>)
        ensures
            shards_increasing(shards@),
            forall|s: ShardId|
                #![trigger departs(*old(self), *map, s)]
                #![trigger shards@.contains(s)]
                shards@.contains(s) <==> departs(*old(self), *map, s) && !old(
                    self,
                ).reported@.contains(s),
            forall|s: ShardId|
                #[trigger] final(self).reported@.contains(s) <==> old(self).reported@.contains(s)
                    || departs(*old(self), *map, s),
            *final(self) == (ShardSupervisor { reported: final(self).reported, ..*old(self) }),
    {
        let departing = self.departing(map);
        let mut shards: Vec<ShardId> = Vec::new();
        let mut i: usize = 0;
        assert(self.reported@ =~= old(self).reported@.union(departing@.take(0).to_set()));
        while i < departing.len()
            invariant
                i <= departing@.len(),
                shards_increasing(departing@),
                shards_increasing(shards@),
                *self == (ShardSupervisor { reported: self.reported, ..*old(self) }),
                forall|j: int, k: int|
                    #![trigger shards@[j], departing@[k]]
                    0 <= j < shards@.len() && i <= k < departing@.len() ==> shards@[j]
                        < departing@[k],
                forall|s: ShardId|
                    shards@.contains(s) <==> #[trigger] departing@.take(i as int).contains(s)
                        && !old(self).reported@.contains(s),
                self.reported@ == old(self).reported@.union(departing@.take(i as int).to_set()),
            decreases departing@.len() - i,
        {
            let shard = departing[i];
            let ghost before = shards@;
            let ghost said = self.reported@;
            let fresh = self.reported.insert(shard);
            if fresh {
                shards.push(shard);
            }
            proof {
                assert(self.reported@ =~= said.insert(shard));
                let done = departing@.take(i as int);
                let next = departing@.take(i + 1);
                assert(next =~= done.push(shard));
                assert(!done.contains(shard)) by {
                    if done.contains(shard) {
                        let j = choose|j: int| 0 <= j < done.len() && done[j] == shard;
                        assert(departing@[j] < departing@[i as int]);
                    }
                }
                assert forall|s: ShardId|
                    shards@.contains(s) <==> #[trigger] next.contains(s) && !old(
                        self,
                    ).reported@.contains(s) by {
                    lemma_push_contains(done, shard, s);
                    lemma_push_contains(before, shard, s);
                    assert(before.contains(s) <==> done.contains(s) && !old(
                        self,
                    ).reported@.contains(s));
                    assert(done.to_set().contains(shard) == done.contains(shard));
                    assert(said.contains(shard) == old(self).reported@.contains(shard));
                }
                lemma_take_to_set(departing@, i as int);
                assert(self.reported@ =~= old(self).reported@.union(next.to_set()));
                assert forall|j: int, k: int|
                    #![trigger shards@[j], departing@[k]]
                    0 <= j < shards@.len() && i + 1 <= k < departing@.len() implies shards@[j]
                    < departing@[k] by {
                    if j < before.len() {
                        assert(before[j] < departing@[k]);
                    } else {
                        assert(departing@[i as int] < departing@[k]);
                    }
                }
                if fresh {
                    assert forall|a: int, b: int|
                        0 <= a < b < shards@.len() implies shards@[a] < shards@[b] by {
                        if b == before.len() {
                            assert(before[a] < departing@[i as int]);
                        }
                    }
                }
            }
            i += 1;
        }
        proof {
            assert(departing@.take(i as int) =~= departing@);
            assert forall|s: ShardId|
                shards@.contains(s) <==> #[trigger] departs(*old(self), *map, s) && !old(
                    self,
                ).reported@.contains(s) by {
                assert(departing@.take(i as int).contains(s) <==> departing@.contains(s));
            }
            assert forall|s: ShardId|
                #[trigger] self.reported@.contains(s) <==> old(self).reported@.contains(s)
                    || departs(*old(self), *map, s) by {
                assert(departing@.to_set().contains(s) <==> departs(*old(self), *map, s));
            }
        }
        shards
    }

    /// The hosted shards that the map has moved away, in order: the driver is
    /// asked to let each of them go.
    pub fn departing(&self, map: &ShardMap) -> (shards: Vec<ShardId>)
        ensures
            shards_increasing(shards@),
            forall|s: ShardId| shards@.contains(s) <==> #[trigger] departs(*self, *map, s),
    {
        let hosted = shards_in(&self.hosted);
        let mut shards: Vec<ShardId> = Vec::new();
        let mut i: usize = 0;
        while i < hosted.len()
            invariant
                i <= hosted@.len(),
                shards_increasing(hosted@),
                shards_increasing(shards@),
                forall|j: int, k: int|
                    #![trigger shards@[j], hosted@[k]]
                    0 <= j < shards@.len() && i <= k < hosted@.len() ==> shards@[j] < hosted@[k],
                moved_away(shards@, hosted@.take(i as int), *map, self.config.id),
            decreases hosted@.len() - i,
        {
            let shard = hosted[i];
            let ghost before = shards@;
            let gone = !map.holds(self.config.id, shard);
            if gone {
                shards.push(shard);
            }
            proof {
                let done = hosted@.take(i as int);
                let next = hosted@.take(i + 1);
                assert(next =~= done.push(shard));
                assert forall|s: ShardId|
                    #![trigger shards@.contains(s)]
                    #![trigger next.contains(s)]
                    shards@.contains(s) <==> next.contains(s) && !replicas_in(
                        map.shards@,
                        s,
                    ).contains(self.config.id) by {
                    lemma_push_contains(done, shard, s);
                    if gone {
                        lemma_push_contains(before, shard, s);
                    }
                    assert(before.contains(s) <==> done.contains(s) && !replicas_in(
                        map.shards@,
                        s,
                    ).contains(self.config.id));
                }
                assert(moved_away(shards@, next, *map, self.config.id));
                assert forall|j: int, k: int|
                    #![trigger shards@[j], hosted@[k]]
                    0 <= j < shards@.len() && i + 1 <= k < hosted@.len() implies shards@[j]
                    < hosted@[k] by {
                    if j < before.len() {
                        assert(before[j] < hosted@[k]);
                    } else {
                        assert(hosted@[i as int] < hosted@[k]);
                    }
                }
                if gone {
                    assert forall|a: int, b: int|
                        0 <= a < b < shards@.len() implies shards@[a] < shards@[b] by {
                        if b == before.len() {
                            assert(before[a] < hosted@[i as int]);
                        }
                    }
                }
            }
            i += 1;
        }
        proof {
            assert(hosted@.take(i as int) =~= hosted@);
            assert forall|s: ShardId| shards@.contains(s) <==> #[trigger] departs(*self, *map, s) by {
                assert(hosted@.take(i as int).contains(s) <==> hosted@.contains(s));
                assert(hosted@.to_set().contains(s) <==> self.hosted@.contains(s));
            }
        }
        shards
    }

    /// The request that asks the driver to let a shard go, and its group.
    pub fn release_request(shard: ShardId) -> (r: (GroupId, AdminOp))
        ensures
            r == (group_of(shard), AdminOp::ReleaseShard { shard }),
    {
        (group::shard(shard), AdminOp::ReleaseShard { shard })
    }

    /// Takes the driver's answer in. The map has already moved the shard away;
    /// its data goes only if the group agrees too.
    pub fn release_answered(&mut self, shard: ShardId, reply: Option<AdminReply>) -> (r: Release)
        ensures
            r == match reply {
                Some(AdminReply::Released { released }) if released => Release::Unlink,
                Some(_) => Release::Keep,
                None => Release::Stop,
            },
            final(self).hosted@ == if r == Release::Unlink {
                old(self).hosted@.remove(shard)
            } else {
                old(self).hosted@
            },
            final(self).reported@ == if r == Release::Unlink {
                old(self).reported@.remove(shard)
            } else {
                old(self).reported@
            },
            *final(self) == (ShardSupervisor {
                hosted: final(self).hosted,
                reported: final(self).reported,
                ..*old(self)
            }),
    {
        match reply {
            Some(AdminReply::Released { released }) => {
                if released {
                    self.hosted.remove(&shard);
                    self.reported.remove(&shard);
                    Release::Unlink
                } else {
                    Release::Keep
                }
            },
            Some(_) => Release::Keep,
            None => Release::Stop,
        }
    }
}

/// Whether the map places a shard here that is not hosted yet.
pub open spec fn adopts(supervisor: ShardSupervisor, map: ShardMap, shard: ShardId) -> bool {
    placed(map, supervisor.config.id, shard) && !supervisor.hosted@.contains(shard)
}

/// Whether `shards` are those of `among` that a map does not place on `me`.
pub open spec fn moved_away(
    shards: Seq<ShardId>,
    among: Seq<ShardId>,
    map: ShardMap,
    me: NodeId,
) -> bool {
    forall|s: ShardId|
        #![trigger shards.contains(s)]
        #![trigger among.contains(s)]
        shards.contains(s) <==> among.contains(s) && !replicas_in(map.shards@, s).contains(me)
}

/// Whether a hosted shard is one that the map has moved away.
pub open spec fn departs(supervisor: ShardSupervisor, map: ShardMap, shard: ShardId) -> bool {
    supervisor.hosted@.contains(shard) && !replicas_in(map.shards@, shard).contains(
        supervisor.config.id,
    )
}

proof fn lemma_push_contains(shards: Seq<ShardId>, shard: ShardId, s: ShardId)
    ensures
        shards.push(shard).contains(s) <==> shards.contains(s) || s == shard,
{
    let longer = shards.push(shard);
    if shards.contains(s) {
        let i = choose|i: int| 0 <= i < shards.len() && shards[i] == s;
        assert(longer[i] == s);
    }
    assert(longer[shards.len() as int] == shard);
    if longer.contains(s) && s != shard {
        let i = choose|i: int| 0 <= i < longer.len() && longer[i] == s;
        assert(shards[i] == s);
    }
}

/// The ids of a list, but for one, in order.
pub open spec fn without(ids: Seq<NodeId>, me: NodeId) -> Seq<NodeId>
    decreases ids.len(),
{
    if ids.len() == 0 {
        Seq::empty()
    } else if ids.last() == me {
        without(ids.drop_last(), me)
    } else {
        without(ids.drop_last(), me).push(ids.last())
    }
}

fn all_but(ids: &Vec<NodeId>, me: NodeId) -> (out: Vec<NodeId>)
    ensures
        out@ == without(ids@, me),
{
    let mut out: Vec<NodeId> = Vec::new();
    let mut i: usize = 0;
    assert(ids@.take(0) =~= Seq::<NodeId>::empty());
    while i < ids.len()
        invariant
            i <= ids@.len(),
            out@ == without(ids@.take(i as int), me),
        decreases ids@.len() - i,
    {
        assert(ids@.take(i + 1).drop_last() =~= ids@.take(i as int));
        if ids[i] != me {
            out.push(ids[i]);
        }
        i += 1;
    }
    assert(ids@.take(i as int) =~= ids@);
    out
}

/// The membership that a group is opened with: its peers, and whether this node
/// only learns.
pub open spec fn first_membership(
    config: NodeConfig,
    origin: Origin,
    recorded: Option<Seq<NodeId>>,
) -> (Seq<NodeId>, bool) {
    match origin {
        Origin::Found { voters } => (without(voters@, config.id), config.initial_learner),
        Origin::Reopen => match recorded {
            Some(voters) => if voters.len() > 0 {
                (without(voters, config.id), config.initial_learner)
            } else {
                (Seq::empty(), true)
            },
            None => (Seq::empty(), true),
        },
        Origin::Adopt => (Seq::empty(), true),
    }
}

/// What a shard's core is started with. `recorded` is the voter set that
/// founding left on disk, if any; it matters to a reopened shard alone.
///
/// An adopted group knows nobody and only learns, so it can neither campaign
/// nor vote: it stays inert until its leader contacts it.
pub fn open(
    config: &NodeConfig,
    shard: ShardId,
    origin: &Origin,
    recorded: &Option<Vec<NodeId>>,
) -> (raft: RaftConfig)
    ensures
        (raft.peers@, raft.initial_learner) == first_membership(
            *config,
            *origin,
            match *recorded {
                Some(voters) => Some(voters@),
                None => None,
            },
        ),
        raft.id == config.id,
        raft.election_timeout == config.election_timeout,
        raft.heartbeat_interval == config.heartbeat_interval,
        raft.seed == seed_of(config.id, group_of(shard)),
{
    let mut raft = config.raft_config_for(group::shard(shard));
    match origin {
        Origin::Found { voters } => {
            raft.peers = all_but(voters, config.id);
        },
        Origin::Reopen => match recorded {
            Some(voters) => {
                if voters.len() > 0 {
                    raft.peers = all_but(voters, config.id);
                } else {
                    raft.peers = Vec::new();
                    raft.initial_learner = true;
                }
            },
            None => {
                raft.peers = Vec::new();
                raft.initial_learner = true;
            },
        },
        Origin::Adopt => {
            raft.peers = Vec::new();
            raft.initial_learner = true;
        },
    }
    raft
}

/// A node that adopts a shard never starts as its voter, whatever its flags
/// say, and neither does one that reopens a shard it adopted.
pub proof fn law_an_adopted_shard_has_no_voters(config: NodeConfig, recorded: Option<Seq<NodeId>>)
    ensures
        first_membership(config, Origin::Adopt, recorded) == (Seq::<NodeId>::empty(), true),
        first_membership(config, Origin::Reopen, None) == (Seq::<NodeId>::empty(), true),
{
}

/// A founded group's voters survive a reopening: what founding recorded gives
/// the membership that founding gave, and not one made up from the flags.
pub proof fn law_founding_survives_a_reopening(config: NodeConfig, voters: Vec<NodeId>)
    requires
        voters@.len() > 0,
    ensures
        first_membership(config, Origin::Reopen, Some(voters@)) == first_membership(
            config,
            Origin::Found { voters },
            None,
        ),
{
}

/// Two witnesses release a shard: its data is unlinked only if the map has moved
/// it away and the group itself no longer names this node. Neither alone is
/// enough.
pub proof fn law_two_witnesses_release_a_shard(
    supervisor: ShardSupervisor,
    map: ShardMap,
    shard: ShardId,
    group: Group,
    view: NodeView,
    log_first_index: LogIndex,
    log_last_index: LogIndex,
    step: AdminStep,
)
    requires
        admin_taken(
            group,
            AdminOp::ReleaseShard { shard },
            view,
            log_first_index,
            log_last_index,
            step,
        ),
    ensures
        departs(supervisor, map, shard) && step == AdminStep::Answer(
            AdminReply::Released { released: true },
        ) <==> supervisor.hosted@.contains(shard) && !replicas_in(map.shards@, shard).contains(
            supervisor.config.id,
        ) && !in_group(view, view.id),
{
}

proof fn lemma_without(ids: Seq<NodeId>, me: NodeId)
    ensures
        without(ids, me) == ids.filter(|id: NodeId| id != me),
        forall|id: NodeId| #[trigger]
            without(ids, me).contains(id) <==> ids.contains(id) && id != me,
    decreases ids.len(),
{
    reveal(Seq::filter);
    if ids.len() > 0 {
        let front = ids.drop_last();
        let before = without(front, me);
        let after = without(ids, me);
        lemma_without(front, me);
        assert forall|id: NodeId| #[trigger] after.contains(id) <==> ids.contains(id) && id != me by {
            assert(before.contains(id) <==> front.contains(id) && id != me);
            if ids.contains(id) && id != ids.last() {
                let i = choose|i: int| 0 <= i < ids.len() && ids[i] == id;
                assert(front[i] == id);
            }
            if front.contains(id) {
                let i = choose|i: int| 0 <= i < front.len() && front[i] == id;
                assert(ids[i] == id);
            }
            assert(ids[ids.len() - 1] == ids.last());
            if before.contains(id) {
                let i = choose|i: int| 0 <= i < before.len() && before[i] == id;
                assert(after[i] == id);
            }
            if after.contains(id) {
                let i = choose|i: int| 0 <= i < after.len() && after[i] == id;
                if i < before.len() {
                    assert(before[i] == id);
                }
            }
            if ids.last() != me {
                assert(after[before.len() as int] == ids.last());
            }
        }
    }
}

/// A group starts with exactly the replicas it was founded with: a node is among
/// its peers if and only if it is one of the voters and is not this node, in the
/// order the map lists them, whether the group is founded or reopened from its
/// record; and this node votes unless its flags say that it joins.
pub proof fn law_a_group_starts_with_its_voters(
    config: NodeConfig,
    voters: Vec<NodeId>,
    recorded: Option<Seq<NodeId>>,
    id: NodeId,
)
    ensures
        ({
            let (peers, learns) = first_membership(config, Origin::Found { voters }, recorded);
            &&& peers.contains(id) <==> voters@.contains(id) && id != config.id
            &&& peers == voters@.filter(|v: NodeId| v != config.id)
            &&& learns == config.initial_learner
        }),
        recorded matches Some(kept) && kept.len() > 0 ==> ({
            let (peers, learns) = first_membership(config, Origin::Reopen, recorded);
            &&& peers.contains(id) <==> recorded->0.contains(id) && id != config.id
            &&& peers == recorded->0.filter(|v: NodeId| v != config.id)
            &&& learns == config.initial_learner
        }),
        recorded matches Some(kept) && kept.len() == 0 ==> first_membership(
            config,
            Origin::Reopen,
            recorded,
        ) == (Seq::<NodeId>::empty(), true),
{
    lemma_without(voters@, config.id);
    if recorded is Some {
        lemma_without(recorded->0, config.id);
    }
}

/// Every replica of a shard founds the same group: two nodes that are both among
/// the voters they were handed, and were handed the same ones, agree on who is in
/// the group, and each counts the other.
pub proof fn law_replicas_found_the_same_group(
    a: NodeConfig,
    b: NodeConfig,
    voters_a: Vec<NodeId>,
    voters_b: Vec<NodeId>,
    id: NodeId,
)
    requires
        voters_a@ == voters_b@,
        voters_a@.contains(a.id),
        voters_a@.contains(b.id),
        a.id != b.id,
    ensures
        ({
            let from_a = first_membership(a, Origin::Found { voters: voters_a }, None).0;
            let from_b = first_membership(b, Origin::Found { voters: voters_b }, None).0;
            &&& (from_a.contains(id) || id == a.id) <==> (from_b.contains(id) || id == b.id)
            &&& from_a.contains(b.id)
            &&& from_b.contains(a.id)
        }),
{
    lemma_without(voters_a@, a.id);
    lemma_without(voters_b@, b.id);
}

/// The map and nothing else decides what a node hosts. It founds, from the first
/// map there is and only if it is not joining, the shards of that map whose list
/// names it; later it takes up a shard that it does not host exactly if the map
/// describes it and lists this node for it, and lets one go that it hosts exactly
/// if the map does not.
pub proof fn law_the_map_decides_what_is_hosted(
    supervisor: ShardSupervisor,
    map: ShardMap,
    founding: Seq<(ShardId, Vec<NodeId>)>,
    shard: ShardId,
)
    ensures
        ({
            let me = supervisor.config.id;
            let listed = shard < map.shards@.len() && map.shards@[shard as int]@.contains(me);
            let hosted = supervisor.hosted@.contains(shard);
            &&& placed(map, me, shard) <==> shard < map.num_shards && listed
            &&& adopts(supervisor, map, shard) <==> shard < map.num_shards && listed && !hosted
            &&& departs(supervisor, map, shard) <==> hosted && !listed
            &&& founds(supervisor.config, map) <==> map.version == 1
                && !supervisor.config.initial_learner
            &&& lists(founding, shard) <==> exists|i: int|
                0 <= i < founding.len() && (#[trigger] founding[i]).0 == shard
        }),
{
}

/// Data goes only if nobody needs it here: a shard whose data is unlinked is one
/// that the map does not list this node for, and of whose group this node is
/// neither a voter nor a learner.
pub proof fn law_no_member_lets_its_data_go(
    supervisor: ShardSupervisor,
    map: ShardMap,
    shard: ShardId,
    group: Group,
    view: NodeView,
    log_first_index: LogIndex,
    log_last_index: LogIndex,
    step: AdminStep,
)
    requires
        admin_taken(
            group,
            AdminOp::ReleaseShard { shard },
            view,
            log_first_index,
            log_last_index,
            step,
        ),
        departs(supervisor, map, shard),
    ensures
        step matches AdminStep::Answer(AdminReply::Released { released }) && (released <==> !(
        view.config.voters@.contains(view.id) || view.config.learners@.contains(view.id))),
        !(shard < map.shards@.len() && map.shards@[shard as int]@.contains(supervisor.config.id)),
{
}

/// A pass founds where nothing was founded, follows where something was, and
/// does nothing without a map or with a marker that cannot be read.
pub proof fn law_a_pass_founds_once(
    supervisor: &ShardSupervisor,
    map: &ShardMap,
    founded_at: &Result<Option<u64>, PlacementError>,
    with_map: PassStart,
    without_map: PassStart,
)
    requires
        call_ensures(ShardSupervisor::pass, (supervisor, Some(map), founded_at), with_map),
        call_ensures(ShardSupervisor::pass, (supervisor, None, founded_at), without_map),
    ensures
        without_map == PassStart::Idle,
        with_map == PassStart::Found <==> *founded_at == Ok::<Option<u64>, PlacementError>(None),
        with_map == PassStart::Follow <==> (*founded_at matches Ok(at) && at is Some),
        with_map == PassStart::Stuck <==> *founded_at is Err,
{
}

/// What a new cluster founds here: every shard that the first map places on this
/// node, with the voters that the map gives it, and no other.
pub proof fn law_founding_follows_the_first_map(
    supervisor: &ShardSupervisor,
    map: &ShardMap,
    founding: Founding,
    shard: ShardId,
    i: int,
)
    requires
        call_ensures(ShardSupervisor::found, (supervisor, map), founding),
    ensures
        founding.version == map.version,
        0 <= i < founding.shards@.len() ==> {
            let (s, voters) = founding.shards@[i];
            &&& map.version == 1 && !supervisor.config.initial_learner
            &&& s < map.num_shards
            &&& s < map.shards@.len()
            &&& voters@ == map.shards@[s as int]@
            &&& voters@.contains(supervisor.config.id)
        },
        map.version == 1 && !supervisor.config.initial_learner && shard < map.num_shards && shard
            < map.shards@.len() && map.shards@[shard as int]@.contains(supervisor.config.id)
            ==> exists|k: int|
            0 <= k < founding.shards@.len() && (#[trigger] founding.shards@[k]).0 == shard,
{
    law_the_map_decides_what_is_hosted(*supervisor, *map, founding.shards@, shard);
    assert(lists(founding.shards@, shard) <==> founds(supervisor.config, *map) && placed(
        *map,
        supervisor.config.id,
        shard,
    ));
    if 0 <= i < founding.shards@.len() {
        let s = founding.shards@[i].0;
        law_the_map_decides_what_is_hosted(*supervisor, *map, founding.shards@, s);
        assert(lists(founding.shards@, s) <==> founds(supervisor.config, *map) && placed(
            *map,
            supervisor.config.id,
            s,
        ));
    }
}

/// What a later map asks for: to take up what it places here and is not hosted,
/// and to let go of what is hosted and no longer placed here. Each departure is
/// said once.
pub proof fn law_the_supervisor_follows_the_map(
    before: ShardSupervisor,
    after: ShardSupervisor,
    map: &ShardMap,
    incoming: Vec<ShardId>,
    departing: Vec<ShardId>,
    news: Vec<ShardId>,
    shard: ShardId,
)
    requires
        call_ensures(ShardSupervisor::incoming, (&before, map), incoming),
        call_ensures(ShardSupervisor::departing, (&before, map), departing),
        exists|s: &mut ShardSupervisor| #[trigger]
            call_ensures(ShardSupervisor::newly_departed, (s, map), news) && *s == before
                && *final(s) == after,
    ensures
        ({
            let listed = shard < map.shards@.len() && map.shards@[shard as int]@.contains(
                before.config.id,
            );
            let hosted = before.hosted@.contains(shard);
            &&& incoming@.contains(shard) <==> shard < map.num_shards && listed && !hosted
            &&& departing@.contains(shard) <==> hosted && !listed
            &&& news@.contains(shard) <==> hosted && !listed && !before.reported@.contains(shard)
            &&& after.reported@.contains(shard) <==> before.reported@.contains(shard) || (hosted
                && !listed)
            &&& after == (ShardSupervisor { reported: after.reported, ..before })
        }),
{
    law_the_map_decides_what_is_hosted(before, *map, Seq::empty(), shard);
    assert(adopts(before, *map, shard) <==> incoming@.contains(shard));
    assert(departs(before, *map, shard) <==> departing@.contains(shard));
}

/// Taking a shard up and giving it back are of that shard alone.
pub proof fn law_taking_up_and_giving_back(
    before: ShardSupervisor,
    taken: ShardSupervisor,
    given: ShardSupervisor,
    shard: ShardId,
    fresh: bool,
    u: (),
    other: ShardId,
)
    requires
        exists|s: &mut ShardSupervisor| #[trigger]
            call_ensures(ShardSupervisor::take_up, (s, shard), fresh) && *s == before && *final(s)
                == taken,
        exists|s: &mut ShardSupervisor| #[trigger]
            call_ensures(ShardSupervisor::give_back, (s, shard), u) && *s == before && *final(s)
                == given,
    ensures
        fresh <==> !before.hosted@.contains(shard),
        taken.hosted@.contains(shard) && !given.hosted@.contains(shard),
        other != shard ==> taken.hosted@.contains(other) == before.hosted@.contains(other)
            && given.hosted@.contains(other) == before.hosted@.contains(other),
        taken.reported == before.reported && given.reported == before.reported,
{
}

/// A shard's data goes only where its group let it go; then it is no longer
/// hosted and its departure may be said anew. A refusal keeps it.
pub proof fn law_only_a_released_shard_is_unlinked(
    before: ShardSupervisor,
    after: ShardSupervisor,
    shard: ShardId,
    reply: Option<AdminReply>,
    r: Release,
    asked: (GroupId, AdminOp),
    other: ShardId,
)
    requires
        call_ensures(ShardSupervisor::release_request, (shard,), asked),
        exists|s: &mut ShardSupervisor| #[trigger]
            call_ensures(ShardSupervisor::release_answered, (s, shard, reply), r) && *s == before
                && *final(s) == after,
    ensures
        asked == (group_of(shard), AdminOp::ReleaseShard { shard }),
        r == Release::Unlink <==> reply == Some(AdminReply::Released { released: true }),
        r == Release::Stop <==> reply is None,
        r != Release::Unlink ==> after.hosted@ == before.hosted@ && after.reported@
            == before.reported@,
        r == Release::Unlink ==> !after.hosted@.contains(shard) && !after.reported@.contains(shard),
        other != shard ==> after.hosted@.contains(other) == before.hosted@.contains(other)
            && after.reported@.contains(other) == before.reported@.contains(other),
{
}

/// How a shard's group is started: a founding one with every other voter that
/// the map gives it as a peer, a reopened one with what founding recorded, an
/// adopted one as a learner that knows nobody.
pub proof fn law_a_group_is_started_from_its_origin(
    config: &NodeConfig,
    shard: ShardId,
    origin: &Origin,
    recorded: &Option<Vec<NodeId>>,
    raft: RaftConfig,
    id: NodeId,
)
    requires
        call_ensures(open, (config, shard, origin, recorded), raft),
    ensures
        raft.id == config.id,
        raft.election_timeout == config.election_timeout,
        raft.heartbeat_interval == config.heartbeat_interval,
        *origin matches Origin::Found { voters } ==> (raft.peers@.contains(id)
            <==> voters@.contains(id) && id != config.id) && raft.peers@ == voters@.filter(
            |v: NodeId| v != config.id,
        ) && raft.initial_learner == config.initial_learner,
        *origin is Adopt ==> raft.peers@.len() == 0 && raft.initial_learner,
        *origin is Reopen && (*recorded matches Some(kept) ==> kept@.len() == 0)
            ==> raft.peers@.len() == 0 && raft.initial_learner,
        *origin is Reopen ==> (*recorded matches Some(kept) ==> (kept@.len() > 0 ==> (
        raft.peers@.contains(id) <==> kept@.contains(id) && id != config.id) && raft.peers@
            == kept@.filter(|v: NodeId| v != config.id) && raft.initial_learner
            == config.initial_learner)),
{
    let kept = match *recorded {
        Some(voters) => Some(voters@),
        None => None,
    };
    match *origin {
        Origin::Found { voters } => {
            law_a_group_starts_with_its_voters(*config, voters, kept, id);
        },
        Origin::Adopt => {
            law_an_adopted_shard_has_no_voters(*config, kept);
        },
        Origin::Reopen => {
            law_an_adopted_shard_has_no_voters(*config, kept);
            match *recorded {
                Some(voters) => {
                    law_a_group_starts_with_its_voters(*config, voters, kept, id);
                },
                None => {},
            }
        },
    }
}

} // verus!
