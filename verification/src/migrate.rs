//! Moving a shard when placement changes.
//!
//! The map is the target; each group's own committed Raft config is the state.
//! There is no migration plan recorded anywhere: a shard is mid-migration
//! exactly when its group's config differs from the map's replicas, which every
//! node can already see.

use std::collections::BTreeSet;

use vstd::prelude::*;

use crate::config::NodeConfig;
use crate::driver::{AdminOp, AdminReply, ShardStatus};
use crate::group::{self, group_of, GroupId};
use crate::ids::{shards_in, shards_increasing};
use crate::membership::book;
use crate::shard_map::{replicas_in, ShardMap};
use crate::types::{holds, Nanos, NodeId, ShardId};

verus! {

broadcast use {vstd::std_specs::btree::group_btree_axioms, vstd::laws_cmp::group_laws_cmp};

/// One membership change on one shard.
#[derive(Debug, Clone, Copy, PartialEq, Eq, Structural)]
pub enum Step {
    Add { shard: ShardId, node: NodeId },
    Remove { shard: ShardId, node: NodeId },
}

/// The first of `ids` that is in neither list.
pub open spec fn first_outside(ids: Seq<NodeId>, a: Seq<NodeId>, b: Seq<NodeId>) -> Option<NodeId>
    decreases ids.len(),
{
    if ids.len() == 0 {
        None
    } else if !a.contains(ids[0]) && !b.contains(ids[0]) {
        Some(ids[0])
    } else {
        first_outside(ids.skip(1), a, b)
    }
}

fn find_outside(ids: &[NodeId], a: &[NodeId], b: &[NodeId]) -> (r: Option<NodeId>)
    ensures
        r == first_outside(ids@, a@, b@),
{
    let mut i: usize = 0;
    assert(ids@.skip(0) =~= ids@);
    while i < ids.len()
        invariant
            i <= ids@.len(),
            first_outside(ids@, a@, b@) == first_outside(ids@.skip(i as int), a@, b@),
        decreases ids@.len() - i,
    {
        if !holds(a, ids[i]) && !holds(b, ids[i]) {
            return Some(ids[i]);
        }
        assert(ids@.skip(i as int).skip(1) =~= ids@.skip(i + 1));
        i += 1;
    }
    None
}

/// A member that stands outside is one, and where none does there is none.
proof fn lemma_first_outside(ids: Seq<NodeId>, a: Seq<NodeId>, b: Seq<NodeId>)
    ensures
        match first_outside(ids, a, b) {
            Some(id) => ids.contains(id) && !a.contains(id) && !b.contains(id),
            None => forall|id: NodeId| ids.contains(id) ==> #[trigger] a.contains(id) || b.contains(id),
        },
    decreases ids.len(),
{
    if ids.len() > 0 {
        let rest = ids.skip(1);
        lemma_first_outside(rest, a, b);
        match first_outside(ids, a, b) {
            Some(id) => {
                if id != ids[0] || a.contains(ids[0]) || b.contains(ids[0]) {
                    let i = choose|i: int| 0 <= i < rest.len() && rest[i] == id;
                    assert(ids[i + 1] == id);
                } else {
                    assert(ids[0] == id);
                }
            },
            None => {
                assert forall|id: NodeId| ids.contains(id) implies #[trigger] a.contains(id)
                    || b.contains(id) by {
                    let i = choose|i: int| 0 <= i < ids.len() && ids[i] == id;
                    if i > 0 {
                        assert(rest[i - 1] == id);
                    }
                }
            },
        }
    }
}

/// What one shard's group needs next to become what the map says, if anything:
/// a node the map names that is not in the group is added; once every node the
/// map names votes, one that the map does not name is removed.
pub open spec fn step_towards(
    shard: ShardId,
    target: Seq<NodeId>,
    voters: Seq<NodeId>,
    learners: Seq<NodeId>,
) -> Option<Step> {
    match first_outside(target, voters, learners) {
        Some(node) => Some(Step::Add { shard, node }),
        None => if first_outside(target, voters, Seq::empty()) is Some {
            None
        } else {
            match first_outside(voters + learners, target, Seq::empty()) {
                Some(node) => Some(Step::Remove { shard, node }),
                None => None,
            }
        },
    }
}

fn step_for(shard: ShardId, target: &[NodeId], status: &ShardStatus) -> (r: Option<Step>)
    ensures
        r == step_towards(shard, target@, status.replicas@, status.learners@),
{
    let none: Vec<NodeId> = Vec::new();
    assert(none@ =~= Seq::<NodeId>::empty());
    match find_outside(target, &status.replicas, &status.learners) {
        Some(node) => Some(Step::Add { shard, node }),
        None => {
            if find_outside(target, &status.replicas, &none).is_some() {
                return None;
            }
            proof {
                lemma_outside_concat(status.replicas@, status.learners@, target@);
            }
            match find_outside(&status.replicas, target, &none) {
                Some(node) => Some(Step::Remove { shard, node }),
                None => match find_outside(&status.learners, target, &none) {
                    Some(node) => Some(Step::Remove { shard, node }),
                    None => None,
                },
            }
        },
    }
}

proof fn lemma_outside_concat(x: Seq<NodeId>, y: Seq<NodeId>, a: Seq<NodeId>)
    ensures
        first_outside(x + y, a, Seq::empty()) == match first_outside(x, a, Seq::empty()) {
            Some(id) => Some(id),
            None => first_outside(y, a, Seq::empty()),
        },
    decreases x.len(),
{
    if x.len() == 0 {
        assert(x + y =~= y);
    } else {
        assert((x + y).skip(1) =~= x.skip(1) + y);
        lemma_outside_concat(x.skip(1), y, a);
    }
}

/// Whether the last report of a shard is the one at `i`.
pub open spec fn latest(statuses: Seq<ShardStatus>, shard: ShardId, i: int) -> bool {
    &&& 0 <= i < statuses.len()
    &&& statuses[i].shard == shard
    &&& forall|j: int| i < j < statuses.len() ==> (#[trigger] statuses[j]).shard != shard
}

/// The last report of a shard, where this node leads it and the map describes
/// it.
pub open spec fn led(map: ShardMap, statuses: Seq<ShardStatus>, shard: ShardId) -> Option<
    ShardStatus,
> {
    if exists|i: int| latest(statuses, shard, i) {
        let status = statuses[choose|i: int| latest(statuses, shard, i)];
        if status.leading && shard < map.num_shards {
            Some(status)
        } else {
            None
        }
    } else {
        None
    }
}

/// The step for one shard: none where this node does not lead it, or the map
/// does not describe it.
pub open spec fn step_of(map: ShardMap, statuses: Seq<ShardStatus>, shard: ShardId) -> Option<Step> {
    match led(map, statuses, shard) {
        Some(status) => step_towards(
            shard,
            replicas_in(map.shards@, shard),
            status.replicas@,
            status.learners@,
        ),
        None => None,
    }
}

/// Whether a shard that this node leads is on its way to what the map says: it
/// needs a step, or it waits for a node the map names to vote.
pub open spec fn moving(map: ShardMap, statuses: Seq<ShardStatus>, shard: ShardId) -> bool {
    match led(map, statuses, shard) {
        Some(status) => step_of(map, statuses, shard) is Some || first_outside(
            replicas_in(map.shards@, shard),
            status.replicas@,
            Seq::empty(),
        ) is Some,
        None => false,
    }
}

/// The moving shards below `end`, in order.
pub open spec fn moving_below(map: ShardMap, statuses: Seq<ShardStatus>, end: nat) -> Seq<ShardId>
    decreases end,
{
    if end == 0 {
        Seq::empty()
    } else {
        let before = moving_below(map, statuses, (end - 1) as nat);
        if moving(map, statuses, (end - 1) as u16) {
            before.push((end - 1) as u16)
        } else {
            before
        }
    }
}

/// The first `limit` moving shards.
pub open spec fn first_moving(map: ShardMap, statuses: Seq<ShardStatus>, limit: nat) -> Seq<
    ShardId,
> {
    let all = moving_below(map, statuses, 0x1_0000);
    all.take(
        if limit < all.len() {
            limit as int
        } else {
            all.len() as int
        },
    )
}

/// The steps of some shards, of those that have one.
pub open spec fn steps_of(map: ShardMap, statuses: Seq<ShardStatus>, shards: Seq<ShardId>) -> Seq<
    Step,
>
    decreases shards.len(),
{
    if shards.len() == 0 {
        Seq::empty()
    } else {
        let before = steps_of(map, statuses, shards.drop_last());
        match step_of(map, statuses, shards.last()) {
            Some(step) => before.push(step),
            None => before,
        }
    }
}

/// What is proposed under a limit: the step of each of the first `limit` moving
/// shards that has one.
pub open spec fn planned(map: ShardMap, statuses: Seq<ShardStatus>, limit: nat) -> Seq<Step> {
    steps_of(map, statuses, first_moving(map, statuses, limit))
}

fn find_latest(statuses: &[ShardStatus], shard: ShardId) -> (r: Option<usize>)
    ensures
        match r {
            Some(i) => latest(statuses@, shard, i as int),
            None => forall|i: int| !latest(statuses@, shard, i),
        },
{
    let mut i: usize = statuses.len();
    while i > 0
        invariant
            i <= statuses@.len(),
            forall|j: int| i <= j < statuses@.len() ==> (#[trigger] statuses@[j]).shard != shard,
        decreases i,
    {
        i -= 1;
        if statuses[i].shard == shard {
            return Some(i);
        }
    }
    None
}

proof fn lemma_latest_unique(statuses: Seq<ShardStatus>, shard: ShardId, i: int, j: int)
    requires
        latest(statuses, shard, i),
        latest(statuses, shard, j),
    ensures
        i == j,
{
}

/// Where no shard between moves, the moving shards below are the same.
pub proof fn lemma_none_moving_between(
    map: ShardMap,
    statuses: Seq<ShardStatus>,
    from: nat,
    to: nat,
)
    requires
        from <= to <= 0x1_0000,
        forall|s: ShardId| from <= s < to ==> !#[trigger] moving(map, statuses, s),
    ensures
        moving_below(map, statuses, to) == moving_below(map, statuses, from),
    decreases to - from,
{
    if from < to {
        lemma_none_moving_between(map, statuses, from, (to - 1) as nat);
        assert(!moving(map, statuses, (to - 1) as u16));
    }
}

/// The moving shards below a lower end are the first of those below a higher.
proof fn lemma_moving_prefix(map: ShardMap, statuses: Seq<ShardStatus>, from: nat, to: nat)
    requires
        from <= to,
    ensures
        moving_below(map, statuses, from).is_prefix_of(moving_below(map, statuses, to)),
    decreases to - from,
{
    let a = moving_below(map, statuses, from);
    let b = moving_below(map, statuses, to);
    if from < to {
        lemma_moving_prefix(map, statuses, from, (to - 1) as nat);
        let m = moving_below(map, statuses, (to - 1) as nat);
        assert(a =~= b.subrange(0, a.len() as int)) by {
            assert(a =~= m.subrange(0, a.len() as int));
        }
    } else {
        assert(a =~= a.subrange(0, a.len() as int));
    }
}

/// What this node, `_me`, should propose right now.
///
/// Only shards this node leads: every node runs this, and two nodes must not
/// propose the same change. Add before remove, and remove only once every
/// incoming replica votes. At most `limit` shards, in shard order, and a shard
/// that waits for its learner is one of them: divergence persists until a move
/// completes, so the same shards are chosen next time and the number in flight
/// is capped with nothing to keep count of.
pub fn plan_step(map: &ShardMap, statuses: &[ShardStatus], _me: NodeId, limit: usize) -> (steps:
    Vec<Step>)
    ensures
        steps@ == planned(*map, statuses@, limit as nat),
{
    let mut seen: BTreeSet<ShardId> = BTreeSet::new();
    let mut i: usize = 0;
    while i < statuses.len()
        invariant
            i <= statuses@.len(),
            forall|s: ShardId| #[trigger]
                seen@.contains(s) <==> exists|j: int|
                    0 <= j < i && (#[trigger] statuses@[j]).shard == s,
        decreases statuses@.len() - i,
    {
        let ghost before = seen@;
        seen.insert(statuses[i].shard);
        i += 1;
        proof {
            assert forall|s: ShardId| #[trigger]
                seen@.contains(s) <==> exists|j: int|
                    0 <= j < i && (#[trigger] statuses@[j]).shard == s by {
                if before.contains(s) {
                    let j = choose|j: int| 0 <= j < i - 1 && (#[trigger] statuses@[j]).shard == s;
                    assert(0 <= j < i);
                }
                assert(statuses@[i - 1].shard == statuses@[i - 1].shard);
            }
        }
    }
    let shards = shards_in(&seen);
    let none: Vec<NodeId> = Vec::new();
    let ghost all = moving_below(*map, statuses@, 0x1_0000);
    let mut steps: Vec<Step> = Vec::new();
    let mut taken: usize = 0;
    let mut k: usize = 0;
    let ghost mut done: nat = 0;
    proof {
        assert(none@ =~= Seq::<NodeId>::empty());
        assert forall|s: ShardId| #[trigger] moving(*map, statuses@, s) implies shards@.contains(
            s,
        ) by {
            let j = choose|j: int| latest(statuses@, s, j);
            assert(statuses@[j].shard == s);
            assert(seen@.contains(s));
            assert(shards@.to_set().contains(s));
        }
    }
    while k < shards.len() && taken < limit
        invariant
            k <= shards@.len(),
            shards_increasing(shards@),
            none@ == Seq::<NodeId>::empty(),
            done == (if k == 0 { 0 } else { shards@[k - 1] + 1 }),
            taken <= limit,
            taken == moving_below(*map, statuses@, done).len(),
            steps@ == steps_of(*map, statuses@, moving_below(*map, statuses@, done)),
            forall|s: ShardId| #[trigger] moving(*map, statuses@, s) ==> shards@.contains(s),
        decreases shards@.len() - k,
    {
        let shard: ShardId = shards[k];
        let ghost before = moving_below(*map, statuses@, shard as nat);
        proof {
            assert forall|s: ShardId| done <= s < shard implies !#[trigger] moving(
                *map,
                statuses@,
                s,
            ) by {
                if moving(*map, statuses@, s) {
                    let j = choose|j: int| 0 <= j < shards@.len() && shards@[j] == s;
                    if j < k {
                        assert(shards@[j] <= shards@[k - 1]);
                    } else {
                        assert(shards@[j] >= shards@[k as int]);
                    }
                }
            }
            lemma_none_moving_between(*map, statuses@, done, shard as nat);
            assert(before.push(shard).drop_last() =~= before);
        }
        match find_latest(statuses, shard) {
            Some(at) => {
                let status = &statuses[at];
                proof {
                    let chosen = choose|c: int| latest(statuses@, shard, c);
                    lemma_latest_unique(statuses@, shard, chosen, at as int);
                }
                if status.leading && shard < map.num_shards {
                    let target = map.replicas(shard);
                    match step_for(shard, &target, status) {
                        Some(step) => {
                            steps.push(step);
                            taken += 1;
                        },
                        None => {
                            if find_outside(&target, &status.replicas, &none).is_some() {
                                taken += 1;
                            }
                        },
                    }
                }
            },
            None => {},
        }
        k += 1;
        proof {
            done = shard as nat + 1;
        }
    }
    proof {
        if taken < limit {
            assert forall|s: ShardId| done <= s < 0x1_0000 implies !#[trigger] moving(
                *map,
                statuses@,
                s,
            ) by {
                if moving(*map, statuses@, s) {
                    let j = choose|j: int| 0 <= j < shards@.len() && shards@[j] == s;
                    assert(shards@[j] <= shards@[k - 1]);
                }
            }
            lemma_none_moving_between(*map, statuses@, done, 0x1_0000);
            assert(all.take(all.len() as int) =~= all);
        } else {
            lemma_moving_prefix(*map, statuses@, done, 0x1_0000);
            assert(moving_below(*map, statuses@, done) =~= all.take(limit as int));
        }
    }
    steps
}

/// The rule that makes a rebalance safe: a node is removed only when every node
/// the map names already votes, and never one that the map names; a node is
/// added only if the map names it and the group does not have it.
pub proof fn law_no_removal_before_the_replacement_votes(
    shard: ShardId,
    target: Seq<NodeId>,
    voters: Seq<NodeId>,
    learners: Seq<NodeId>,
)
    ensures
        match step_towards(shard, target, voters, learners) {
            Some(Step::Remove { shard: s, node }) => {
                &&& s == shard
                &&& forall|id: NodeId| target.contains(id) ==> #[trigger] voters.contains(id)
                &&& voters.contains(node) || learners.contains(node)
                &&& !target.contains(node)
            },
            Some(Step::Add { shard: s, node }) => {
                &&& s == shard
                &&& target.contains(node)
                &&& !voters.contains(node)
                &&& !learners.contains(node)
            },
            None => true,
        },
{
    lemma_first_outside(target, voters, learners);
    lemma_first_outside(target, voters, Seq::empty());
    lemma_first_outside(voters + learners, target, Seq::empty());
    match first_outside(voters + learners, target, Seq::empty()) {
        Some(node) => {
            let all = voters + learners;
            let i = choose|i: int| 0 <= i < all.len() && all[i] == node;
            if i < voters.len() {
                assert(voters[i] == node);
            } else {
                assert(learners[i - voters.len()] == node);
            }
        },
        None => {},
    }
}

/// Nothing is proposed exactly when the group is what the map says, or when it
/// waits for a node the map names to vote.
pub proof fn law_a_settled_shard_needs_no_step(
    shard: ShardId,
    target: Seq<NodeId>,
    voters: Seq<NodeId>,
    learners: Seq<NodeId>,
)
    ensures
        step_towards(shard, target, voters, learners) is None <==> {
            &&& forall|id: NodeId|
                target.contains(id) ==> #[trigger] voters.contains(id) || learners.contains(id)
            &&& ({
                ||| exists|id: NodeId| target.contains(id) && !#[trigger] voters.contains(id)
                ||| forall|id: NodeId|
                    voters.contains(id) || learners.contains(id) ==> #[trigger] target.contains(id)
            })
        },
{
    lemma_first_outside(target, voters, learners);
    lemma_first_outside(target, voters, Seq::empty());
    lemma_first_outside(voters + learners, target, Seq::empty());
    let all = voters + learners;
    assert forall|id: NodeId| all.contains(id) <==> voters.contains(id) || learners.contains(id) by {
        if voters.contains(id) {
            let i = choose|i: int| 0 <= i < voters.len() && voters[i] == id;
            assert(all[i] == id);
        }
        if learners.contains(id) {
            let i = choose|i: int| 0 <= i < learners.len() && learners[i] == id;
            assert(all[voters.len() + i] == id);
        }
        if all.contains(id) {
            let i = choose|i: int| 0 <= i < all.len() && all[i] == id;
            if i < voters.len() {
                assert(voters[i] == id);
            } else {
                assert(learners[i - voters.len()] == id);
            }
        }
    }
    let nobody = Seq::<NodeId>::empty();
    assert(forall|id: NodeId| !nobody.contains(id));
}

/// The shard a step is about.
pub open spec fn shard_of_step(step: Step) -> ShardId {
    match step {
        Step::Add { shard, .. } => shard,
        Step::Remove { shard, .. } => shard,
    }
}

/// Steps are proposed only for shards that this node leads and the map
/// describes, one per shard and in shard order.
pub proof fn law_only_led_shards_move(
    map: ShardMap,
    statuses: Seq<ShardStatus>,
    limit: nat,
    i: int,
    j: int,
)
    requires
        0 <= i <= j < planned(map, statuses, limit).len(),
    ensures
        ({
            let steps = planned(map, statuses, limit);
            let shard = shard_of_step(steps[i]);
            &&& i < j ==> shard < shard_of_step(steps[j])
            &&& step_of(map, statuses, shard) == Some(steps[i])
            &&& shard < map.num_shards
            &&& exists|k: int| #[trigger] latest(statuses, shard, k) && statuses[k].leading
        }),
{
    let shards = first_moving(map, statuses, limit);
    lemma_moving_ordered(map, statuses, 0x1_0000);
    lemma_steps_of_at(map, statuses, shards, i, j);
    let shard = shard_of_step(planned(map, statuses, limit)[i]);
    let k = choose|k: int| latest(statuses, shard, k);
    assert(latest(statuses, shard, k) && statuses[k].leading);
}

/// The limit is on shards in flight, not on steps: a shard with `limit` or more
/// moving shards below it gets no step, so none beyond the first `limit` moving
/// shards starts, whether those have a step just now or wait for a learner.
pub proof fn law_the_limit_is_on_shards_in_flight(
    map: ShardMap,
    statuses: Seq<ShardStatus>,
    limit: nat,
    i: int,
)
    requires
        0 <= i < planned(map, statuses, limit).len(),
    ensures
        ({
            let shard = shard_of_step(planned(map, statuses, limit)[i]);
            &&& moving(map, statuses, shard)
            &&& moving_below(map, statuses, shard as nat).len() < limit
        }),
{
    let shards = first_moving(map, statuses, limit);
    lemma_moving_ordered(map, statuses, 0x1_0000);
    lemma_steps_of_at(map, statuses, shards, i, i);
    let shard = shard_of_step(planned(map, statuses, limit)[i]);
    let a = choose|a: int| 0 <= a < shards.len() && #[trigger] shards[a] == shard;
    assert(moving_below(map, statuses, 0x1_0000)[a] == shard);
}

/// Whether a report is the one that counts for its shard: no later one is of the
/// same shard, this node leads the shard and the map describes it.
pub open spec fn counts(map: ShardMap, statuses: Seq<ShardStatus>, at: int) -> bool {
    &&& 0 <= at < statuses.len()
    &&& statuses[at].leading
    &&& statuses[at].shard < map.num_shards
    &&& forall|j: int| at < j < statuses.len() ==> (#[trigger] statuses[j]).shard
        != statuses[at].shard
}

/// Whether a report says that its shard is where the map wants it: exactly the
/// nodes the map names vote, and nobody else learns.
pub open spec fn in_place(map: ShardMap, status: ShardStatus) -> bool {
    &&& forall|id: NodeId| #[trigger]
        replicas_in(map.shards@, status.shard).contains(id) ==> status.replicas@.contains(id)
    &&& forall|id: NodeId| #[trigger]
        status.replicas@.contains(id) ==> replicas_in(map.shards@, status.shard).contains(id)
    &&& forall|id: NodeId| #[trigger]
        status.learners@.contains(id) ==> replicas_in(map.shards@, status.shard).contains(id)
}

/// The shards below `end` that this node leads and that are not where the map
/// wants them.
pub open spec fn in_flight(map: ShardMap, statuses: Seq<ShardStatus>, end: nat) -> Set<ShardId> {
    Set::new(
        |shard: ShardId|
            shard < end && exists|at: int|
                #![trigger statuses[at]]
                counts(map, statuses, at) && statuses[at].shard == shard && !in_place(
                    map,
                    statuses[at],
                ),
    )
}

proof fn lemma_moving_is_out_of_place(map: ShardMap, statuses: Seq<ShardStatus>, shard: ShardId)
    ensures
        moving(map, statuses, shard) <==> exists|at: int|
            #![trigger statuses[at]]
            counts(map, statuses, at) && statuses[at].shard == shard && !in_place(
                map,
                statuses[at],
            ),
{
    let nobody = Seq::<NodeId>::empty();
    assert(forall|id: NodeId| !nobody.contains(id));
    assert forall|at: int|
        #![trigger statuses[at]]
        counts(map, statuses, at) && statuses[at].shard == shard implies moving(
        map,
        statuses,
        shard,
    ) == !in_place(map, statuses[at]) by {
        assert(latest(statuses, shard, at));
        let chosen = choose|i: int| latest(statuses, shard, i);
        lemma_latest_unique(statuses, shard, chosen, at);
        let status = statuses[at];
        let target = replicas_in(map.shards@, shard);
        law_a_settled_shard_needs_no_step(shard, target, status.replicas@, status.learners@);
        lemma_first_outside(target, status.replicas@, nobody);
        if first_outside(target, status.replicas@, nobody) is None {
            assert forall|id: NodeId| #[trigger] target.contains(id) implies status.replicas@.contains(
                id,
            ) by {
                assert(status.replicas@.contains(id) || nobody.contains(id));
            }
        } else {
            let id = first_outside(target, status.replicas@, nobody)->0;
            assert(target.contains(id) && !status.replicas@.contains(id));
        }
    }
    if moving(map, statuses, shard) {
        let at = choose|i: int| latest(statuses, shard, i);
        assert(counts(map, statuses, at) && statuses[at].shard == shard);
    }
}

proof fn lemma_in_flight(map: ShardMap, statuses: Seq<ShardStatus>, end: nat)
    requires
        end <= 0x1_0000,
    ensures
        in_flight(map, statuses, end).finite(),
        in_flight(map, statuses, end).len() == moving_below(map, statuses, end).len(),
    decreases end,
{
    let now = in_flight(map, statuses, end);
    if end == 0 {
        assert(now =~= Set::<ShardId>::empty());
    } else {
        let last = (end - 1) as u16;
        let before = in_flight(map, statuses, (end - 1) as nat);
        lemma_in_flight(map, statuses, (end - 1) as nat);
        lemma_moving_is_out_of_place(map, statuses, last);
        if moving(map, statuses, last) {
            assert(now =~= before.insert(last));
        } else {
            assert(now =~= before);
        }
    }
}

proof fn lemma_steps_of_all(
    map: ShardMap,
    statuses: Seq<ShardStatus>,
    shards: Seq<ShardId>,
    a: int,
)
    requires
        0 <= a < shards.len(),
        step_of(map, statuses, shards[a]) is Some,
    ensures
        steps_of(map, statuses, shards).contains(step_of(map, statuses, shards[a])->0),
    decreases shards.len(),
{
    let front = shards.drop_last();
    let before = steps_of(map, statuses, front);
    let steps = steps_of(map, statuses, shards);
    if a < front.len() {
        lemma_steps_of_all(map, statuses, front, a);
        let want = step_of(map, statuses, shards[a])->0;
        assert(front[a] == shards[a]);
        let i = choose|i: int| 0 <= i < before.len() && before[i] == want;
        assert(steps[i] == want);
    } else {
        assert(steps[steps.len() - 1] == step_of(map, statuses, shards[a])->0);
    }
}

proof fn lemma_moving_below_has(
    map: ShardMap,
    statuses: Seq<ShardStatus>,
    shard: ShardId,
    end: nat,
)
    requires
        shard < end <= 0x1_0000,
        moving(map, statuses, shard),
    ensures
        ({
            let at = moving_below(map, statuses, shard as nat).len() as int;
            let all = moving_below(map, statuses, end);
            at < all.len() && all[at] == shard
        }),
    decreases end,
{
    if shard < end - 1 {
        lemma_moving_below_has(map, statuses, shard, (end - 1) as nat);
    } else {
        assert((end - 1) as u16 == shard);
    }
}

/// Every shard on its way gets what it needs. Whatever else is reported, a
/// shard that this node leads and that has fewer than `limit` shards in flight
/// below it is given a step as soon as its own report asks for one: the first
/// node the map names and the group lacks is added, and where every node the map
/// names votes, the first that the map does not name, voters before learners, is
/// removed. It is given that step and no other.
pub proof fn law_every_shard_in_flight_gets_its_step(
    map: ShardMap,
    statuses: Seq<ShardStatus>,
    limit: nat,
    at: int,
    node: NodeId,
    place: int,
)
    requires
        counts(map, statuses, at),
        in_flight(map, statuses, statuses[at].shard as nat).len() < limit,
    ensures
        ({
            let status = statuses[at];
            let target = replicas_in(map.shards@, status.shard);
            let group = status.replicas@ + status.learners@;
            let steps = planned(map, statuses, limit);
            &&& 0 <= place < target.len() && target[place] == node && !group.contains(node) && (
            forall|j: int| 0 <= j < place ==> group.contains(#[trigger] target[j]))
                ==> steps.contains(Step::Add { shard: status.shard, node })
            &&& 0 <= place < group.len() && group[place] == node && !target.contains(node) && (
            forall|j: int| 0 <= j < place ==> target.contains(#[trigger] group[j])) && (forall|
                id: NodeId,
            | #[trigger]
                target.contains(id) ==> status.replicas@.contains(id)) ==> steps.contains(
                Step::Remove { shard: status.shard, node },
            )
            &&& forall|i: int|
                #![trigger steps[i]]
                0 <= i < steps.len() && shard_of_step(steps[i]) == status.shard ==> match steps[i] {
                    Step::Add { node: n, .. } => target.contains(n) && !group.contains(n),
                    Step::Remove { node: n, .. } => {
                        &&& group.contains(n)
                        &&& !target.contains(n)
                        &&& forall|id: NodeId| #[trigger]
                            target.contains(id) ==> status.replicas@.contains(id)
                    },
                }
        }),
{
    let status = statuses[at];
    let shard = status.shard;
    let target = replicas_in(map.shards@, shard);
    let voters = status.replicas@;
    let learners = status.learners@;
    let group = voters + learners;
    let nobody = Seq::<NodeId>::empty();
    let steps = planned(map, statuses, limit);
    assert(forall|id: NodeId| !nobody.contains(id));
    lemma_members(voters, learners);
    assert(latest(statuses, shard, at));
    let chosen = choose|i: int| latest(statuses, shard, i);
    lemma_latest_unique(statuses, shard, chosen, at);
    assert(step_of(map, statuses, shard) == step_towards(shard, target, voters, learners));
    law_no_removal_before_the_replacement_votes(shard, target, voters, learners);
    lemma_first_outside(target, voters, nobody);
    if 0 <= place < target.len() && target[place] == node && !group.contains(node) && (forall|j: int|
        0 <= j < place ==> group.contains(#[trigger] target[j])) {
        lemma_first_outside_at(target, voters, learners, place);
    }
    if 0 <= place < group.len() && group[place] == node && !target.contains(node) && (forall|j: int|
        0 <= j < place ==> target.contains(#[trigger] group[j])) && (forall|id: NodeId| #[trigger]
        target.contains(id) ==> voters.contains(id)) {
        lemma_first_outside_at(group, target, nobody, place);
        lemma_first_outside(target, voters, learners);
    }
    if step_of(map, statuses, shard) is Some {
        lemma_in_flight(map, statuses, shard as nat);
        lemma_moving_below_has(map, statuses, shard, 0x1_0000);
        let place = moving_below(map, statuses, shard as nat).len() as int;
        lemma_steps_of_all(map, statuses, first_moving(map, statuses, limit), place);
    }
    assert forall|i: int|
        #![trigger steps[i]]
        0 <= i < steps.len() && shard_of_step(steps[i]) == shard implies step_of(
        map,
        statuses,
        shard,
    ) == Some(steps[i]) by {
        law_only_led_shards_move(map, statuses, limit, i, i);
    }
}

/// Nothing else is planned: every step is of a shard that this node leads and
/// the map describes, with fewer than `limit` shards in flight below it, and no
/// shard is given two.
pub proof fn law_nothing_else_is_planned(
    map: ShardMap,
    statuses: Seq<ShardStatus>,
    limit: nat,
    i: int,
    j: int,
)
    requires
        0 <= i <= j < planned(map, statuses, limit).len(),
    ensures
        ({
            let steps = planned(map, statuses, limit);
            &&& i < j ==> shard_of_step(steps[i]) < shard_of_step(steps[j])
            &&& forall|k: int|
                #![trigger steps[k]]
                (k == i || k == j) ==> (exists|at: int|
                    #![trigger statuses[at]]
                    counts(map, statuses, at) && statuses[at].shard == shard_of_step(steps[k]))
                    && in_flight(map, statuses, shard_of_step(steps[k]) as nat).len() < limit
        }),
{
    let steps = planned(map, statuses, limit);
    law_only_led_shards_move(map, statuses, limit, i, j);
    assert forall|k: int|
        #![trigger steps[k]]
        (k == i || k == j) implies (exists|at: int|
        #![trigger statuses[at]]
        counts(map, statuses, at) && statuses[at].shard == shard_of_step(steps[k])) && in_flight(
        map,
        statuses,
        shard_of_step(steps[k]) as nat,
    ).len() < limit by {
        law_only_led_shards_move(map, statuses, limit, k, k);
        law_the_limit_is_on_shards_in_flight(map, statuses, limit, k);
        let shard = shard_of_step(steps[k]);
        lemma_in_flight(map, statuses, shard as nat);
        let at = choose|at: int| #[trigger] latest(statuses, shard, at) && statuses[at].leading;
        assert(counts(map, statuses, at) && statuses[at].shard == shard);
    }
}

proof fn lemma_members(voters: Seq<NodeId>, learners: Seq<NodeId>)
    ensures
        forall|id: NodeId| #[trigger]
            (voters + learners).contains(id) <==> voters.contains(id) || learners.contains(id),
{
    let all = voters + learners;
    assert forall|id: NodeId| #[trigger]
        all.contains(id) <==> voters.contains(id) || learners.contains(id) by {
        if voters.contains(id) {
            let i = choose|i: int| 0 <= i < voters.len() && voters[i] == id;
            assert(all[i] == id);
        }
        if learners.contains(id) {
            let i = choose|i: int| 0 <= i < learners.len() && learners[i] == id;
            assert(all[voters.len() + i] == id);
        }
        if all.contains(id) {
            let i = choose|i: int| 0 <= i < all.len() && all[i] == id;
            if i < voters.len() {
                assert(voters[i] == id);
            } else {
                assert(learners[i - voters.len()] == id);
            }
        }
    }
}

/// The one at `place` is the first outside, where all before it stand inside.
proof fn lemma_first_outside_at(ids: Seq<NodeId>, a: Seq<NodeId>, b: Seq<NodeId>, place: int)
    requires
        0 <= place < ids.len(),
        !a.contains(ids[place]),
        !b.contains(ids[place]),
        forall|j: int|
            0 <= j < place ==> a.contains(#[trigger] ids[j]) || b.contains(ids[j]),
    ensures
        first_outside(ids, a, b) == Some(ids[place]),
    decreases place,
{
    if place > 0 {
        let rest = ids.skip(1);
        assert forall|j: int| 0 <= j < place - 1 implies a.contains(#[trigger] rest[j])
            || b.contains(rest[j]) by {
            assert(rest[j] == ids[j + 1]);
        }
        assert(a.contains(ids[0]) || b.contains(ids[0]));
        lemma_first_outside_at(rest, a, b, place - 1);
    }
}

/// The moving shards come in order, each after as many as its place says.
proof fn lemma_moving_ordered(map: ShardMap, statuses: Seq<ShardStatus>, end: nat)
    requires
        end <= 0x1_0000,
    ensures
        ({
            let all = moving_below(map, statuses, end);
            &&& forall|a: int|
                #![trigger all[a]]
                0 <= a < all.len() ==> all[a] < end && moving(map, statuses, all[a])
                    && moving_below(map, statuses, all[a] as nat).len() == a
            &&& forall|a: int, b: int|
                #![trigger all[a], all[b]]
                0 <= a < b < all.len() ==> all[a] < all[b]
        }),
    decreases end,
{
    if end > 0 {
        let before = moving_below(map, statuses, (end - 1) as nat);
        let all = moving_below(map, statuses, end);
        lemma_moving_ordered(map, statuses, (end - 1) as nat);
        assert forall|a: int|
            #![trigger all[a]]
            0 <= a < all.len() implies all[a] < end && moving(map, statuses, all[a])
            && moving_below(map, statuses, all[a] as nat).len() == a by {
            if a < before.len() {
                assert(all[a] == before[a]);
            } else {
                assert(all[a] as nat == (end - 1) as nat);
            }
        }
        assert forall|a: int, b: int|
            #![trigger all[a], all[b]]
            0 <= a < b < all.len() implies all[a] < all[b] by {
            assert(all[a] == before[a]);
            if b < before.len() {
                assert(all[b] == before[b]);
            }
        }
    }
}

/// Every step is of one of the shards, and the steps come in the shards' order.
proof fn lemma_steps_of_at(
    map: ShardMap,
    statuses: Seq<ShardStatus>,
    shards: Seq<ShardId>,
    i: int,
    j: int,
)
    requires
        forall|a: int, b: int|
            #![trigger shards[a], shards[b]]
            0 <= a < b < shards.len() ==> shards[a] < shards[b],
        0 <= i <= j < steps_of(map, statuses, shards).len(),
    ensures
        ({
            let steps = steps_of(map, statuses, shards);
            &&& i < j ==> shard_of_step(steps[i]) < shard_of_step(steps[j])
            &&& step_of(map, statuses, shard_of_step(steps[i])) == Some(steps[i])
            &&& exists|a: int|
                0 <= a < shards.len() && #[trigger] shards[a] == shard_of_step(steps[i])
            &&& exists|a: int|
                0 <= a < shards.len() && #[trigger] shards[a] == shard_of_step(steps[j])
        }),
    decreases shards.len(),
{
    let front = shards.drop_last();
    let before = steps_of(map, statuses, front);
    let steps = steps_of(map, statuses, shards);
    assert(shards[shards.len() - 1] == shards.last());
    assert forall|a: int, b: int|
        #![trigger front[a], front[b]]
        0 <= a < b < front.len() implies front[a] < front[b] by {
        assert(shards[a] < shards[b]);
    }
    if i < before.len() {
        lemma_steps_of_at(
            map,
            statuses,
            front,
            i,
            if j < before.len() {
                j
            } else {
                i
            },
        );
        let a = choose|a: int| 0 <= a < front.len() && #[trigger] front[a] == shard_of_step(
            steps[i],
        );
        assert(shards[a] == shard_of_step(steps[i]));
        if j < before.len() {
            let b = choose|b: int| 0 <= b < front.len() && #[trigger] front[b] == shard_of_step(
                steps[j],
            );
            assert(shards[b] == shard_of_step(steps[j]));
        }
    }
}

/// Who the map wants for the shard of a report.
pub open spec fn wanted(map: ShardMap, report: ShardStatus) -> Set<NodeId> {
    replicas_in(map.shards@, report.shard).to_set()
}

/// Who is in the group of a report, voting or learning.
pub open spec fn held(report: ShardStatus) -> Set<NodeId> {
    report.replicas@.to_set().union(report.learners@.to_set())
}

/// How many nodes a group has too few and too many.
pub open spec fn distance(map: ShardMap, report: ShardStatus) -> nat {
    wanted(map, report).difference(held(report)).len() + held(report).difference(
        wanted(map, report),
    ).len()
}

/// Who votes and who learns once some steps are carried out.
pub open spec fn carried_out(
    members: (Set<NodeId>, Set<NodeId>),
    steps: Seq<Step>,
) -> (Set<NodeId>, Set<NodeId>)
    decreases steps.len(),
{
    if steps.len() == 0 {
        members
    } else {
        let (voters, learners) = carried_out(members, steps.drop_last());
        match steps.last() {
            Step::Add { node, .. } => (voters, learners.insert(node)),
            Step::Remove { node, .. } => (voters.remove(node), learners.remove(node)),
        }
    }
}

/// Whether a shard's next report is what one pass makes of it: the step it
/// plans is carried out, and every learner that the map names is promoted.
pub open spec fn moved_on(map: ShardMap, limit: nat, before: ShardStatus, after: ShardStatus) -> bool {
    let (voters, learners) = carried_out(
        (before.replicas@.to_set(), before.learners@.to_set()),
        planned(map, seq![before], limit),
    );
    &&& after.shard == before.shard
    &&& after.leading
    &&& after.replicas@.to_set() == voters.union(learners.intersect(wanted(map, before)))
    &&& after.learners@.to_set() == learners.difference(wanted(map, before))
}

/// What is planned over the first `n` of some reports of one shard.
pub open spec fn proposals(map: ShardMap, limit: nat, reports: Seq<ShardStatus>, n: nat) -> Seq<Step>
    decreases n,
{
    if n == 0 {
        Seq::empty()
    } else {
        proposals(map, limit, reports, (n - 1) as nat) + planned(
            map,
            seq![reports[n - 1]],
            limit,
        )
    }
}

/// A shard that stays led reaches what the map says, in as many steps as nodes
/// are missing or surplus: every addition comes before every removal, and then
/// exactly the nodes the map names vote, nobody learns, and no step is left. A
/// shard that is there already gets none at all. At most one pass plans
/// nothing before that, the first, where it waits for a learner to vote.
pub proof fn law_a_led_shard_reaches_the_map(
    map: ShardMap,
    limit: nat,
    reports: Seq<ShardStatus>,
)
    requires
        limit >= 1,
        reports.len() > distance(map, reports[0]) + 1,
        reports[0].leading,
        reports[0].shard < map.num_shards,
        forall|k: int|
            #![trigger reports[k]]
            0 <= k < reports.len() - 1 ==> moved_on(map, limit, reports[k], reports[k + 1]),
    ensures
        ({
            let steps = proposals(map, limit, reports, reports.len());
            &&& steps.len() == distance(map, reports[0])
            &&& forall|i: int, j: int|
                #![trigger steps[i], steps[j]]
                0 <= i < j < steps.len() && steps[i] is Remove ==> steps[j] is Remove
            &&& planned(map, seq![reports.last()], limit).len() == 0
            &&& reports.last().replicas@.to_set() == wanted(map, reports[0])
            &&& reports.last().learners@.to_set() == Set::<NodeId>::empty()
        }),
{
    let n = (reports.len() - 1) as nat;
    lemma_on_the_way(map, limit, reports, n);
    lemma_plan_of_one(map, limit, reports[n as int]);
    lemma_settled(map, reports[n as int]);
    let steps = proposals(map, limit, reports, n);
    assert(proposals(map, limit, reports, reports.len()) =~= steps);
}

/// What is planned for one report is its shard's step.
proof fn lemma_plan_of_one(map: ShardMap, limit: nat, report: ShardStatus)
    requires
        limit >= 1,
        report.leading,
        report.shard < map.num_shards,
    ensures
        planned(map, seq![report], limit) == match step_towards(
            report.shard,
            replicas_in(map.shards@, report.shard),
            report.replicas@,
            report.learners@,
        ) {
            Some(step) => seq![step],
            None => Seq::<Step>::empty(),
        },
{
    let statuses = seq![report];
    let shard = report.shard;
    assert(latest(statuses, shard, 0));
    let chosen = choose|i: int| latest(statuses, shard, i);
    assert(chosen == 0);
    assert(led(map, statuses, shard) == Some(report));
    assert forall|s: ShardId| s != shard implies !#[trigger] moving(map, statuses, s) by {
        if exists|i: int| latest(statuses, s, i) {
            let i = choose|i: int| latest(statuses, s, i);
            assert(statuses[i].shard == s);
        }
    }
    lemma_none_moving_between(map, statuses, 0, shard as nat);
    lemma_none_moving_between(map, statuses, shard as nat + 1, 0x1_0000);
    let all = moving_below(map, statuses, 0x1_0000);
    assert(moving_below(map, statuses, shard as nat) =~= Seq::<ShardId>::empty());
    if moving(map, statuses, shard) {
        assert(all =~= seq![shard]);
        assert(first_moving(map, statuses, limit) =~= seq![shard]);
        assert(seq![shard].drop_last() =~= Seq::<ShardId>::empty());
        assert(seq![shard].last() == shard);
    } else {
        assert(all =~= Seq::<ShardId>::empty());
        assert(first_moving(map, statuses, limit) =~= Seq::<ShardId>::empty());
    }
    reveal_with_fuel(steps_of, 2);
    let got = planned(map, statuses, limit);
    match step_of(map, statuses, shard) {
        Some(step) => {
            assert(got =~= seq![step]);
        },
        None => {
            assert(got =~= Seq::<Step>::empty());
        },
    }
}

/// What one pass does to a shard that is not there yet.
proof fn lemma_one_pass(map: ShardMap, limit: nat, before: ShardStatus, after: ShardStatus)
    requires
        limit >= 1,
        before.leading,
        before.shard < map.num_shards,
        moved_on(map, limit, before, after),
    ensures
        ({
            let steps = planned(map, seq![before], limit);
            let t = wanted(map, before);
            &&& wanted(map, after) == t
            &&& steps.len() <= 1
            &&& distance(map, after) + steps.len() == distance(map, before)
            &&& steps.len() == 0 ==> distance(map, before) == 0 || exists|id: NodeId|
                t.contains(id) && #[trigger] before.learners@.to_set().contains(id)
            &&& t.subset_of(before.replicas@.to_set()) ==> t.subset_of(after.replicas@.to_set())
                && (steps.len() == 1 ==> steps[0] is Remove)
            &&& steps.len() == 1 && steps[0] is Remove ==> t.subset_of(before.replicas@.to_set())
        }),
{
    let target = replicas_in(map.shards@, before.shard);
    let voters = before.replicas@;
    let learners = before.learners@;
    let t = wanted(map, before);
    let h = held(before);
    let h2 = held(after);
    lemma_plan_of_one(map, limit, before);
    law_no_removal_before_the_replacement_votes(before.shard, target, voters, learners);
    law_a_settled_shard_needs_no_step(before.shard, target, voters, learners);
    broadcast use vstd::seq_lib::seq_to_set_is_finite;

    let steps = planned(map, seq![before], limit);
    let members = (voters.to_set(), learners.to_set());
    reveal_with_fuel(carried_out, 2);
    assert(steps.len() == 1 ==> steps.drop_last() =~= Seq::<Step>::empty());
    assert(after.replicas@.to_set().union(after.learners@.to_set()) =~= carried_out(
        members,
        steps,
    ).0.union(carried_out(members, steps).1));
    match step_towards(before.shard, target, voters, learners) {
        Some(Step::Add { node, .. }) => {
            assert(steps.last() == Step::Add { shard: before.shard, node });
            assert(t.contains(node) && !h.contains(node));
            assert(h2 =~= h.insert(node));
            assert(t.difference(h2) =~= t.difference(h).remove(node));
            assert(h2.difference(t) =~= h.difference(t));
        },
        Some(Step::Remove { node, .. }) => {
            assert(steps.last() == Step::Remove { shard: before.shard, node });
            assert(!t.contains(node) && h.contains(node));
            assert(h2 =~= h.remove(node));
            assert(h2.difference(t) =~= h.difference(t).remove(node));
            assert(t.difference(h2) =~= t.difference(h));
            assert forall|id: NodeId| t.contains(id) implies voters.to_set().contains(id) by {
                assert(target.contains(id));
                assert(voters.contains(id));
            }
        },
        None => {
            assert(h2 =~= h);
            assert forall|id: NodeId| t.contains(id) implies h.contains(id) by {
                assert(target.contains(id));
                assert(voters.contains(id) || learners.contains(id));
            }
            assert(t.difference(h) =~= Set::<NodeId>::empty());
            if exists|id: NodeId| target.contains(id) && !#[trigger] voters.contains(id) {
                let id = choose|id: NodeId| target.contains(id) && !#[trigger] voters.contains(id);
                assert(learners.contains(id));
                assert(t.contains(id) && learners.to_set().contains(id));
            } else {
                assert forall|id: NodeId| h.contains(id) implies t.contains(id) by {
                    assert(voters.contains(id) || learners.contains(id));
                    assert(target.contains(id));
                }
                assert(h.difference(t) =~= Set::<NodeId>::empty());
            }
        },
    }
    if t.subset_of(voters.to_set()) {
        match step_towards(before.shard, target, voters, learners) {
            Some(Step::Add { node, .. }) => {
                assert(voters.to_set().contains(node));
            },
            _ => {},
        }
        assert forall|id: NodeId| t.contains(id) implies after.replicas@.to_set().contains(id) by {
            assert(voters.to_set().contains(id));
        }
    }
}

/// A shard at no distance, with no learner the map names, is there.
proof fn lemma_settled(map: ShardMap, report: ShardStatus)
    ensures
        ({
            let t = wanted(map, report);
            let voters = report.replicas@.to_set();
            let learners = report.learners@.to_set();
            distance(map, report) == 0 && learners.disjoint(t) ==> {
                &&& voters == t
                &&& learners == Set::<NodeId>::empty()
                &&& step_towards(
                    report.shard,
                    replicas_in(map.shards@, report.shard),
                    report.replicas@,
                    report.learners@,
                ) is None
            }
        }),
{
    let target = replicas_in(map.shards@, report.shard);
    let t = wanted(map, report);
    let h = held(report);
    let voters = report.replicas@.to_set();
    let learners = report.learners@.to_set();
    broadcast use vstd::seq_lib::seq_to_set_is_finite;

    if distance(map, report) == 0 && learners.disjoint(t) {
        assert(t.difference(h) =~= Set::<NodeId>::empty()) by {
            t.difference(h).lemma_len0_is_empty();
        }
        assert(h.difference(t) =~= Set::<NodeId>::empty()) by {
            h.difference(t).lemma_len0_is_empty();
        }
        assert forall|id: NodeId| #[trigger] t.contains(id) <==> h.contains(id) by {
            assert(!t.difference(h).contains(id));
            assert(!h.difference(t).contains(id));
        }
        assert forall|id: NodeId| !#[trigger] learners.contains(id) by {
            if learners.contains(id) {
                assert(h.contains(id) && t.contains(id));
            }
        }
        assert(learners =~= Set::<NodeId>::empty());
        assert(voters =~= t) by {
            assert forall|id: NodeId| voters.contains(id) <==> t.contains(id) by {
                assert(h.contains(id) <==> voters.contains(id) || learners.contains(id));
            }
        }
        law_a_settled_shard_needs_no_step(
            report.shard,
            target,
            report.replicas@,
            report.learners@,
        );
        assert forall|id: NodeId| target.contains(id) implies #[trigger] report.replicas@.contains(
            id,
        ) || report.learners@.contains(id) by {
            assert(t.contains(id) && voters.contains(id));
        }
        assert forall|id: NodeId|
            report.replicas@.contains(id) || report.learners@.contains(id) implies
            #[trigger] target.contains(id) by {
            assert(voters.contains(id) || learners.contains(id));
            assert(t.contains(id));
        }
    }
}

/// Where a shard is after `n` passes.
proof fn lemma_on_the_way(map: ShardMap, limit: nat, reports: Seq<ShardStatus>, n: nat)
    requires
        limit >= 1,
        n < reports.len(),
        reports[0].leading,
        reports[0].shard < map.num_shards,
        forall|k: int|
            #![trigger reports[k]]
            0 <= k < reports.len() - 1 ==> moved_on(map, limit, reports[k], reports[k + 1]),
    ensures
        ({
            let steps = proposals(map, limit, reports, n);
            let now = reports[n as int];
            let t = wanted(map, reports[0]);
            &&& now.leading
            &&& now.shard == reports[0].shard
            &&& steps.len() + distance(map, now) == distance(map, reports[0])
            &&& n > 0 ==> now.learners@.to_set().disjoint(t)
            &&& distance(map, now) == 0 || steps.len() + 1 >= n
            &&& forall|i: int|
                #![trigger steps[i]]
                0 <= i < steps.len() && steps[i] is Remove ==> t.subset_of(now.replicas@.to_set())
            &&& forall|i: int, j: int|
                #![trigger steps[i], steps[j]]
                0 <= i < j < steps.len() && steps[i] is Remove ==> steps[j] is Remove
        }),
    decreases n,
{
    if n > 0 {
        let m = (n - 1) as nat;
        lemma_on_the_way(map, limit, reports, m);
        let before = reports[m as int];
        let now = reports[n as int];
        assert(reports[m as int + 1] == now);
        assert(moved_on(map, limit, before, now));
        lemma_one_pass(map, limit, before, now);
        let old_steps = proposals(map, limit, reports, m);
        let new_steps = planned(map, seq![before], limit);
        let steps = proposals(map, limit, reports, n);
        let t = wanted(map, reports[0]);
        assert(now.learners@.to_set().disjoint(t));
        assert forall|i: int|
            #![trigger steps[i]]
            0 <= i < steps.len() && steps[i] is Remove implies t.subset_of(
            now.replicas@.to_set(),
        ) by {
            if i < old_steps.len() {
                assert(steps[i] == old_steps[i]);
            } else {
                assert(steps[i] == new_steps[0]);
            }
        }
        assert forall|i: int, j: int|
            #![trigger steps[i], steps[j]]
            0 <= i < j < steps.len() && steps[i] is Remove implies steps[j] is Remove by {
            assert(steps[i] == old_steps[i]);
            if j < old_steps.len() {
                assert(steps[j] == old_steps[j]);
            } else {
                assert(steps[j] == new_steps[0]);
            }
        }
        if m > 0 && new_steps.len() == 0 && distance(map, before) != 0 {
            let id = choose|id: NodeId|
                t.contains(id) && #[trigger] before.learners@.to_set().contains(id);
            assert(before.learners@.to_set().contains(id));
            assert(false);
        }
    }
}

/// Whether a report is of a shard that this node leads, that the map describes
/// and whose group is not what the map says.
pub open spec fn diverges(map: ShardMap, status: ShardStatus) -> bool {
    &&& status.leading
    &&& status.shard < map.num_shards
    &&& replicas_in(map.shards@, status.shard).to_set() != (status.replicas@
        + status.learners@).to_set()
}

/// How many of some reports diverge.
pub open spec fn count_diverging(map: ShardMap, statuses: Seq<ShardStatus>) -> nat
    decreases statuses.len(),
{
    if statuses.len() == 0 {
        0
    } else {
        count_diverging(map, statuses.drop_last()) + if diverges(map, statuses.last()) {
            1nat
        } else {
            0
        }
    }
}

/// What an operator watches reaches zero exactly when every shard this node
/// reports leading, of those the map describes, has the nodes the map names and
/// no others; and each report that is not there counts one.
pub proof fn law_diverging_counts_the_reports_out_of_place(
    map: ShardMap,
    statuses: Seq<ShardStatus>,
)
    ensures
        count_diverging(map, statuses) == Set::new(
            |i: int|
                0 <= i < statuses.len() && statuses[i].leading && statuses[i].shard < map.num_shards
                    && exists|id: NodeId| #[trigger]
                    replicas_in(map.shards@, statuses[i].shard).contains(id) != (
                    statuses[i].replicas@.contains(id) || statuses[i].learners@.contains(id)),
        ).len(),
{
    let out = |i: int|
        0 <= i < statuses.len() && statuses[i].leading && statuses[i].shard < map.num_shards
            && exists|id: NodeId| #[trigger]
            replicas_in(map.shards@, statuses[i].shard).contains(id) != (
            statuses[i].replicas@.contains(id) || statuses[i].learners@.contains(id));
    lemma_diverging_set(map, statuses, out);
}

proof fn lemma_diverging_set(
    map: ShardMap,
    statuses: Seq<ShardStatus>,
    out: spec_fn(int) -> bool,
)
    requires
        forall|i: int| #[trigger]
            out(i) <==> 0 <= i < statuses.len() && statuses[i].leading && statuses[i].shard
                < map.num_shards && exists|id: NodeId| #[trigger]
                replicas_in(map.shards@, statuses[i].shard).contains(id) != (
                statuses[i].replicas@.contains(id) || statuses[i].learners@.contains(id)),
    ensures
        Set::new(out).finite(),
        count_diverging(map, statuses) == Set::new(out).len(),
    decreases statuses.len(),
{
    if statuses.len() == 0 {
        assert(Set::new(out) =~= Set::<int>::empty());
    } else {
        let front = statuses.drop_last();
        let n = statuses.len() - 1;
        let last = statuses.last();
        let before = |i: int| out(i) && i < n;
        assert forall|i: int| #[trigger]
            before(i) <==> 0 <= i < front.len() && front[i].leading && front[i].shard
                < map.num_shards && exists|id: NodeId| #[trigger]
                replicas_in(map.shards@, front[i].shard).contains(id) != (
                front[i].replicas@.contains(id) || front[i].learners@.contains(id)) by {
            if 0 <= i < n {
                assert(front[i] == statuses[i]);
            }
        }
        lemma_diverging_set(map, front, before);
        lemma_members(last.replicas@, last.learners@);
        let target = replicas_in(map.shards@, last.shard);
        let group = last.replicas@ + last.learners@;
        assert((exists|id: NodeId| #[trigger]
            target.contains(id) != (last.replicas@.contains(id) || last.learners@.contains(id)))
            <==> target.to_set() != group.to_set()) by {
            if target.to_set() != group.to_set() {
                assert(!(target.to_set() =~= group.to_set()));
                let id = choose|id: NodeId|
                    target.to_set().contains(id) != group.to_set().contains(id);
                assert(target.contains(id) != group.contains(id));
            } else {
                assert forall|id: NodeId| #[trigger] target.contains(id) == group.contains(id) by {
                    assert(target.to_set().contains(id) == group.to_set().contains(id));
                }
            }
        }
        assert(statuses[n] == last);
        if out(n) {
            assert(Set::new(out) =~= Set::new(before).insert(n));
        } else {
            assert(Set::new(out) =~= Set::new(before));
        }
    }
}

fn is_diverging(map: &ShardMap, status: &ShardStatus) -> (r: bool)
    ensures
        r == diverges(*map, *status),
{
    if !status.leading || status.shard >= map.num_shards {
        return false;
    }
    let target = map.replicas(status.shard);
    let none: Vec<NodeId> = Vec::new();
    let ghost held = status.replicas@ + status.learners@;
    proof {
        assert(none@ =~= Seq::<NodeId>::empty());
        lemma_first_outside(target@, status.replicas@, status.learners@);
        lemma_first_outside(status.replicas@, target@, none@);
        lemma_first_outside(status.learners@, target@, none@);
        assert forall|id: NodeId| held.contains(id) <==> status.replicas@.contains(id)
            || status.learners@.contains(id) by {
            if status.replicas@.contains(id) {
                let i = choose|i: int|
                    0 <= i < status.replicas@.len() && status.replicas@[i] == id;
                assert(held[i] == id);
            }
            if status.learners@.contains(id) {
                let i = choose|i: int|
                    0 <= i < status.learners@.len() && status.learners@[i] == id;
                assert(held[status.replicas@.len() + i] == id);
            }
            if held.contains(id) {
                let i = choose|i: int| 0 <= i < held.len() && held[i] == id;
                if i < status.replicas@.len() {
                    assert(status.replicas@[i] == id);
                } else {
                    assert(status.learners@[i - status.replicas@.len()] == id);
                }
            }
        }
    }
    let missing = find_outside(&target, &status.replicas, &status.learners).is_some();
    let surplus = find_outside(&status.replicas, &target, &none).is_some() || find_outside(
        &status.learners,
        &target,
        &none,
    ).is_some();
    proof {
        if missing {
            let id = first_outside(target@, status.replicas@, status.learners@)->0;
            assert(target@.to_set().contains(id) && !held.to_set().contains(id));
        } else if surplus {
            let a = first_outside(status.replicas@, target@, none@);
            let id = if a is Some { a->0 } else {
                first_outside(status.learners@, target@, none@)->0
            };
            assert(!target@.to_set().contains(id) && held.to_set().contains(id));
        } else {
            assert(target@.to_set() =~= held.to_set());
        }
    }
    missing || surplus
}

/// Shards this node leads whose group no longer matches the map: what an
/// operator watching a rebalance wants to see reach zero.
pub fn diverging(map: &ShardMap, statuses: &[ShardStatus]) -> (n: usize)
    ensures
        n == count_diverging(*map, statuses@),
        n <= statuses@.len(),
{
    let mut n: usize = 0;
    let mut i: usize = 0;
    assert(statuses@.take(0) =~= Seq::<ShardStatus>::empty());
    while i < statuses.len()
        invariant
            i <= statuses@.len(),
            n <= i,
            n == count_diverging(*map, statuses@.take(i as int)),
        decreases statuses@.len() - i,
    {
        if is_diverging(map, &statuses[i]) {
            n += 1;
        }
        i += 1;
        assert(statuses@.take(i as int).drop_last() =~= statuses@.take(i - 1));
    }
    assert(statuses@.take(i as int) =~= statuses@);
    n
}

/// How often a node holds the groups it leads against the map.
pub const MIGRATE_INTERVAL: Nanos = 500_000_000;

/// Closes the difference between the map and the shard groups one node leads. A
/// node acts only on shards it leads, so the work divides itself over the
/// cluster with nothing to coordinate.
#[derive(Debug, Clone, Copy, PartialEq, Eq, Structural)]
pub struct MigrationDriver {
    pub id: NodeId,
    pub max_migrations: usize,
}

impl MigrationDriver {
    pub fn new(config: &NodeConfig) -> (d: MigrationDriver)
        ensures
            d.id == config.id,
            d.max_migrations == config.max_migrations,
    {
        MigrationDriver { id: config.id, max_migrations: config.max_migrations }
    }

    /// What one pass proposes, and how many shards this node leads that are
    /// still moving. Nothing before a map is published, and nothing when the
    /// shard driver does not answer.
    pub fn pass(&self, map: Option<&ShardMap>, statuses: Option<&[ShardStatus]>) -> (r: (
        Vec<Step>,
        usize,
    ))
        ensures
            match (map, statuses) {
                (Some(m), Some(s)) => {
                    &&& r.0@ == planned(*m, s@, self.max_migrations as nat)
                    &&& r.1 == count_diverging(*m, s@)
                },
                _ => r.0@.len() == 0 && r.1 == 0,
            },
    {
        match (map, statuses) {
            (Some(m), Some(s)) => (
                plan_step(m, s, self.id, self.max_migrations),
                diverging(m, s),
            ),
            _ => (Vec::new(), 0),
        }
    }

    /// Where the cluster's book says a node lives, if the meta group answered.
    pub fn address_of(reply: Option<AdminReply>, node: NodeId) -> (address: Option<String>)
        ensures
            match reply {
                Some(AdminReply::Status(status)) => match address {
                    Some(a) => book(status.endpoints@).contains_key(node) && book(
                        status.endpoints@,
                    )[node] == a@,
                    None => !status.endpoints@.contains_key(node),
                },
                _ => address is None,
            },
    {
        match reply {
            Some(AdminReply::Status(status)) => match status.endpoints.get(&node) {
                Some(address) => Some(address.clone()),
                None => None,
            },
            _ => None,
        }
    }
}

/// The request that carries a step out: to the shard's own group. `address` is
/// where the cluster's book says the incoming node lives; with none, nothing is
/// proposed, because a conf entry naming a node nobody can dial admits a member
/// that can never be reached.
pub fn request_for(step: Step, address: Option<String>) -> (r: Option<(GroupId, AdminOp)>)
    ensures
        match step {
            Step::Add { shard, node } => match address {
                Some(a) => r == Some(
                    (group_of(shard), (AdminOp::AddNode { id: node, address: a })),
                ),
                None => r is None,
            },
            Step::Remove { shard, node } => r == Some(
                (group_of(shard), (AdminOp::RemoveNode { id: node })),
            ),
        },
{
    match step {
        Step::Add { shard, node } => match address {
            Some(address) => Some((group::shard(shard), AdminOp::AddNode { id: node, address })),
            None => None,
        },
        Step::Remove { shard, node } => Some(
            (group::shard(shard), AdminOp::RemoveNode { id: node }),
        ),
    }
}

/// A plan is a function of the map, the reports and the limit, and a pass plans
/// by the node's own limit; with no map or no reports it plans nothing.
pub proof fn law_a_pass_plans_by_the_map(
    driver: &MigrationDriver,
    map: &ShardMap,
    statuses: &[ShardStatus],
    me: NodeId,
    limit: usize,
    steps: Vec<Step>,
    n: usize,
    r: (Vec<Step>, usize),
    idle: (Vec<Step>, usize),
    blind: (Vec<Step>, usize),
)
    requires
        call_ensures(plan_step, (map, statuses, me, limit), steps),
        call_ensures(diverging, (map, statuses), n),
        call_ensures(MigrationDriver::pass, (driver, Some(map), Some(statuses)), r),
        call_ensures(MigrationDriver::pass, (driver, None, Some(statuses)), idle),
        call_ensures(MigrationDriver::pass, (driver, Some(map), None), blind),
    ensures
        steps@ == planned(*map, statuses@, limit as nat),
        n == count_diverging(*map, statuses@),
        limit == driver.max_migrations ==> r.0@ == steps@,
        r.1 == n,
        idle.0@.len() == 0 && idle.1 == 0,
        blind.0@.len() == 0 && blind.1 == 0,
{
}

/// A led shard whose voters and learners are not where the map wants them gets
/// its step, whatever else is reported: the first replica that is missing is
/// added, and once all of them vote the first member that is not wanted is
/// removed.
pub proof fn law_a_plan_moves_every_led_shard(
    map: &ShardMap,
    statuses: &[ShardStatus],
    me: NodeId,
    limit: usize,
    steps: Vec<Step>,
    at: int,
    node: NodeId,
    place: int,
)
    requires
        call_ensures(plan_step, (map, statuses, me, limit), steps),
        counts(*map, statuses@, at),
        in_flight(*map, statuses@, statuses@[at].shard as nat).len() < limit,
    ensures
        ({
            let status = statuses@[at];
            let target = replicas_in(map.shards@, status.shard);
            let group = status.replicas@ + status.learners@;
            &&& 0 <= place < target.len() && target[place] == node && !group.contains(node) && (
            forall|j: int| 0 <= j < place ==> group.contains(#[trigger] target[j]))
                ==> steps@.contains(Step::Add { shard: status.shard, node })
            &&& 0 <= place < group.len() && group[place] == node && !target.contains(node) && (
            forall|j: int| 0 <= j < place ==> target.contains(#[trigger] group[j])) && (forall|
                id: NodeId,
            | #[trigger]
                target.contains(id) ==> status.replicas@.contains(id)) ==> steps@.contains(
                Step::Remove { shard: status.shard, node },
            )
        }),
{
    law_every_shard_in_flight_gets_its_step(*map, statuses@, limit as nat, at, node, place);
}

/// A step is proposed to its own shard's group and of its own node: an addition
/// once the node's address is known, a removal at once.
pub proof fn law_a_step_is_proposed_to_its_group(
    shard: ShardId,
    node: NodeId,
    address: Option<String>,
    added: Option<(GroupId, AdminOp)>,
    removed: Option<(GroupId, AdminOp)>,
)
    requires
        call_ensures(request_for, (Step::Add { shard, node }, address), added),
        call_ensures(request_for, (Step::Remove { shard, node }, address), removed),
    ensures
        address matches Some(a) ==> added == Some(
            (group_of(shard), AdminOp::AddNode { id: node, address: a }),
        ),
        address is None ==> added is None,
        removed == Some((group_of(shard), AdminOp::RemoveNode { id: node })),
{
}

/// A node's address is what the cluster says it is, or not known.
pub proof fn law_an_address_is_looked_up(
    reply: Option<AdminReply>,
    node: NodeId,
    address: Option<String>,
)
    requires
        call_ensures(MigrationDriver::address_of, (reply, node), address),
    ensures
        address matches Some(a) ==> (reply matches Some(AdminReply::Status(status))
            && status.endpoints@.contains_key(node) && status.endpoints@[node]@ == a@),
        reply matches Some(AdminReply::Status(status)) ==> (status.endpoints@.contains_key(node)
            ==> address is Some),
{
}

} // verus!
