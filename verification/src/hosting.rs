//! The Raft groups that one process hosts, and the links to its peers.
//!
//! One loop drives every group. A node may replicate a hundred shards and more;
//! a task and a timer for each would be as many timers firing every tick.

use std::collections::BTreeSet;

use vstd::prelude::*;

use crate::driver::{admin_taken, in_group, request_taken, AdminOp, AdminReply, AdminStep, Answer,
    ClientOp, ClientReply, Group, NodeView, Reply, RequestStep, ShardStatus, Ticket};
use crate::group::{shard_in, shard_of, GroupId};
use crate::ids::{in_order, increasing, members_of, picked, lemma_picked_in_order,
    lemma_take_to_set};
use crate::membership::ConfChange;
use crate::text::{as_chars, decimal, decimal_text, join_text};
use crate::types::{copy_ids, LogIndex, Nanos, NodeId, Role, ShardId, Term};

verus! {

broadcast use {vstd::std_specs::btree::group_btree_axioms, vstd::laws_cmp::group_laws_cmp};

/// How many ticks may pass before the peer links are brought in line with the
/// membership anyway. A change of membership announces itself, so this covers
/// only a link that could not be opened when it was first wanted.
pub const RECONCILE_EVERY_TICKS: u32 = 50;

/// One client's request, for the group that holds its key.
#[derive(Debug)]
pub struct ClientRequest {
    pub group: GroupId,
    pub op: ClientOp,
    pub ticket: Ticket,
}

/// One administration request. A process that hosts many groups cannot guess
/// which of them an operator means.
#[derive(Debug)]
pub struct AdminRequest {
    pub group: GroupId,
    pub op: AdminOp,
    pub ticket: Ticket,
}

/// What a client's request comes to.
#[derive(Debug)]
pub enum Routed {
    Answered(Reply),
    /// The group takes it up.
    Step(RequestStep),
}

/// What an administration request comes to.
#[derive(Debug)]
pub enum AdminRouted {
    Answered(Reply),
    /// Every shard this node hosts is reported.
    Statuses,
    /// Propose this membership change to the group's core.
    Propose(ConfChange),
}

/// How the links to the peers change.
#[derive(Debug)]
pub struct Links {
    pub dropped: Vec<NodeId>,
    pub dialled: Vec<(NodeId, String)>,
    /// Members that nobody knows the address of, with the group that names
    /// them; each is said once.
    pub unreachable: Vec<(GroupId, NodeId)>,
}

/// The groups this process hosts, and the peers it has links to. One link to a
/// peer carries every group's traffic.
#[derive(Debug)]
pub struct Driver {
    /// In the order of their numbers.
    pub groups: Vec<Group>,
    pub peers: BTreeSet<NodeId>,
    /// Ticks since the links were last brought in line with the membership.
    pub ticks_since_reconcile: u32,
}

/// The groups of a list, by their numbers; a later one replaces an earlier.
pub open spec fn by_id(groups: Seq<Group>) -> Map<GroupId, Group>
    decreases groups.len(),
{
    if groups.len() == 0 {
        Map::empty()
    } else {
        by_id(groups.drop_last()).insert(groups.last().group, groups.last())
    }
}

/// The groups stand in the order of their numbers, so none occurs twice.
pub open spec fn ordered(groups: Seq<Group>) -> bool {
    forall|i: int, j: int|
        #![trigger groups[i], groups[j]]
        0 <= i < j < groups.len() ==> groups[i].group < groups[j].group
}

proof fn lemma_by_id_dom(groups: Seq<Group>, id: GroupId)
    ensures
        by_id(groups).contains_key(id) <==> exists|i: int|
            0 <= i < groups.len() && (#[trigger] groups[i]).group == id,
    decreases groups.len(),
{
    if groups.len() > 0 {
        let head = groups.drop_last();
        lemma_by_id_dom(head, id);
        if by_id(groups).contains_key(id) {
            if groups.last().group == id {
                assert(groups[groups.len() - 1].group == id);
            } else {
                let i = choose|i: int| 0 <= i < head.len() && (#[trigger] head[i]).group == id;
                assert(groups[i].group == id);
            }
        }
        if exists|i: int| 0 <= i < groups.len() && (#[trigger] groups[i]).group == id {
            let i = choose|i: int| 0 <= i < groups.len() && (#[trigger] groups[i]).group == id;
            if i < groups.len() - 1 {
                assert(head[i].group == id);
            }
        }
    }
}

proof fn lemma_by_id_at(groups: Seq<Group>, i: int)
    requires
        ordered(groups),
        0 <= i < groups.len(),
    ensures
        by_id(groups).contains_key(groups[i].group),
        by_id(groups)[groups[i].group] == groups[i],
    decreases groups.len(),
{
    let head = groups.drop_last();
    if i < groups.len() - 1 {
        assert(ordered(head)) by {
            assert forall|a: int, b: int|
                #![trigger head[a], head[b]]
                0 <= a < b < head.len() implies head[a].group < head[b].group by {
                assert(groups[a].group < groups[b].group);
            }
        }
        lemma_by_id_at(head, i);
        assert(groups[i].group < groups[groups.len() - 1].group);
        assert(head[i] == groups[i]);
    }
}

/// A map that agrees with an ordered list is the list's.
proof fn lemma_by_id_is(groups: Seq<Group>, map: Map<GroupId, Group>)
    requires
        ordered(groups),
        forall|i: int|
            0 <= i < groups.len() ==> map.contains_key((#[trigger] groups[i]).group)
                && map[groups[i].group] == groups[i],
        forall|id: GroupId| #[trigger]
            map.contains_key(id) ==> exists|i: int|
                0 <= i < groups.len() && (#[trigger] groups[i]).group == id,
    ensures
        by_id(groups) == map,
{
    let spelled = by_id(groups);
    assert forall|id: GroupId| spelled.contains_key(id) == map.contains_key(id) by {
        lemma_by_id_dom(groups, id);
    }
    assert forall|id: GroupId| spelled.contains_key(id) implies spelled[id] == map[id] by {
        lemma_by_id_dom(groups, id);
        let i = choose|i: int| 0 <= i < groups.len() && (#[trigger] groups[i]).group == id;
        lemma_by_id_at(groups, i);
    }
    assert(spelled =~= map);
}

/// Changing one group of an ordered list changes it in the map.
proof fn lemma_by_id_update(groups: Seq<Group>, i: int, group: Group)
    requires
        ordered(groups),
        0 <= i < groups.len(),
        group.group == groups[i].group,
    ensures
        ordered(groups.update(i, group)),
        by_id(groups.update(i, group)) == by_id(groups).insert(group.group, group),
{
    let after = groups.update(i, group);
    let map = by_id(groups).insert(group.group, group);
    assert forall|a: int, b: int|
        #![trigger after[a], after[b]]
        0 <= a < b < after.len() implies after[a].group < after[b].group by {
        assert(groups[a].group < groups[b].group);
    }
    assert forall|j: int| 0 <= j < after.len() implies map.contains_key(
        (#[trigger] after[j]).group,
    ) && map[after[j].group] == after[j] by {
        lemma_by_id_at(groups, j);
        if j < i {
            assert(groups[j].group < groups[i].group);
        } else if j > i {
            assert(groups[i].group < groups[j].group);
        }
    }
    assert forall|id: GroupId| #[trigger] map.contains_key(id) implies exists|j: int|
        0 <= j < after.len() && (#[trigger] after[j]).group == id by {
        if id == group.group {
            assert(after[i].group == id);
        } else {
            lemma_by_id_dom(groups, id);
            let j = choose|j: int| 0 <= j < groups.len() && (#[trigger] groups[j]).group == id;
            assert(after[j].group == id);
        }
    }
    lemma_by_id_is(after, map);
}

impl Driver {
    /// The groups stand in order, and each is well formed.
    pub open spec fn wf(&self) -> bool {
        &&& ordered(self.groups@)
        &&& forall|i: int| 0 <= i < self.groups@.len() ==> (#[trigger] self.groups@[i]).wf()
    }

    /// The groups hosted here, by their numbers.
    pub open spec fn hosted(&self) -> Map<GroupId, Group> {
        by_id(self.groups@)
    }

    /// Hosts these groups from the first tick on. The links that are open
    /// already still have to be held against the membership, so the first drain
    /// does that.
    pub fn new(groups: Vec<Group>, peers: BTreeSet<NodeId>) -> (d: Driver)
        requires
            forall|i: int| 0 <= i < groups@.len() ==> (#[trigger] groups@[i]).wf(),
        ensures
            d.wf(),
            d.hosted() == by_id(groups@),
            d.peers == peers,
            d.ticks_since_reconcile == RECONCILE_EVERY_TICKS,
    {
        let mut d = Driver {
            groups: Vec::new(),
            peers,
            ticks_since_reconcile: RECONCILE_EVERY_TICKS,
        };
        let ghost all = groups@;
        let mut left = groups;
        let ghost mut done: int = 0;
        assert(all.take(0) =~= Seq::<Group>::empty());
        while left.len() > 0
            invariant
                0 <= done <= all.len(),
                left@ == all.skip(done),
                forall|i: int| 0 <= i < all.len() ==> (#[trigger] all[i]).wf(),
                d.wf(),
                d.hosted() == by_id(all.take(done)),
                d.peers == peers,
                d.ticks_since_reconcile == RECONCILE_EVERY_TICKS,
            decreases left@.len(),
        {
            assert(left@[0] == all[done]);
            let group = left.remove(0);
            d.host(group);
            proof {
                assert(all.take(done + 1).drop_last() =~= all.take(done));
                done = done + 1;
                assert(left@ =~= all.skip(done));
            }
        }
        assert(all.take(done) =~= all);
        d
    }

    /// Where a group stands, or would stand.
    fn find(&self, id: GroupId) -> (r: (bool, usize))
        requires
            self.wf(),
        ensures
            r.1 <= self.groups@.len(),
            r.0 == self.hosted().contains_key(id),
            r.0 ==> r.1 < self.groups@.len() && self.groups@[r.1 as int].group == id
                && self.hosted()[id] == self.groups@[r.1 as int],
            forall|i: int| 0 <= i < r.1 ==> (#[trigger] self.groups@[i]).group < id,
            !r.0 ==> forall|i: int|
                r.1 <= i < self.groups@.len() ==> id < (#[trigger] self.groups@[i]).group,
    {
        let ghost groups = self.groups@;
        let mut i: usize = 0;
        while i < self.groups.len() && self.groups[i].group < id
            invariant
                i <= groups.len(),
                groups == self.groups@,
                forall|j: int| 0 <= j < i ==> (#[trigger] groups[j]).group < id,
            decreases groups.len() - i,
        {
            i += 1;
        }
        let found = i < self.groups.len() && self.groups[i].group == id;
        proof {
            lemma_by_id_dom(groups, id);
            if found {
                lemma_by_id_at(groups, i as int);
            } else {
                assert forall|j: int| i <= j < groups.len() implies id < (
                #[trigger] groups[j]).group by {
                    if j > i {
                        assert(groups[i as int].group < groups[j].group);
                    }
                }
            }
        }
        (found, i)
    }

    /// Takes a group on. Returns whether one of its number was hosted before:
    /// that would be two cores over one log.
    pub fn host(&mut self, group: Group) -> (replaced: bool)
        requires
            old(self).wf(),
            group.wf(),
        ensures
            final(self).wf(),
            final(self).hosted() == old(self).hosted().insert(group.group, group),
            replaced == old(self).hosted().contains_key(group.group),
            final(self).peers == old(self).peers,
            final(self).ticks_since_reconcile == old(self).ticks_since_reconcile,
    {
        let ghost before = self.groups@;
        let ghost added = group;
        let (found, at) = self.find(group.group);
        if found {
            self.groups[at] = group;
            proof {
                lemma_by_id_update(before, at as int, added);
                assert(self.groups@ =~= before.update(at as int, added));
            }
        } else {
            self.groups.insert(at, group);
            proof {
                let after = self.groups@;
                let map = by_id(before).insert(added.group, added);
                assert(after =~= before.insert(at as int, added));
                assert forall|a: int, b: int|
                    #![trigger after[a], after[b]]
                    0 <= a < b < after.len() implies after[a].group < after[b].group by {
                    let x = if a < at { a } else { a - 1 };
                    let y = if b < at { b } else { b - 1 };
                    if a != at && b != at {
                        assert(before[x].group < before[y].group);
                    } else if a == at {
                        assert(added.group < before[y].group);
                    } else {
                        assert(before[x].group < added.group);
                    }
                }
                assert forall|j: int| 0 <= j < after.len() implies (#[trigger] after[j]).wf()
                    && map.contains_key(after[j].group) && map[after[j].group] == after[j] by {
                    if j < at {
                        lemma_by_id_at(before, j);
                        assert(before[j].wf());
                    } else if j > at {
                        lemma_by_id_at(before, j - 1);
                        assert(before[j - 1].wf());
                    }
                }
                assert forall|id: GroupId| #[trigger] map.contains_key(id) implies exists|j: int|
                    0 <= j < after.len() && (#[trigger] after[j]).group == id by {
                    if id == added.group {
                        assert(after[at as int].group == id);
                    } else {
                        lemma_by_id_dom(before, id);
                        let j = choose|j: int|
                            0 <= j < before.len() && (#[trigger] before[j]).group == id;
                        if j < at {
                            assert(after[j].group == id);
                        } else {
                            assert(after[j + 1].group == id);
                        }
                    }
                }
                lemma_by_id_is(after, map);
            }
        }
        found
    }

    /// Lets a group go.
    fn drop_at(&mut self, at: usize)
        requires
            old(self).wf(),
            at < old(self).groups@.len(),
        ensures
            final(self).wf(),
            final(self).hosted() == old(self).hosted().remove(
                old(self).groups@[at as int].group,
            ),
            final(self).peers == old(self).peers,
            final(self).ticks_since_reconcile == old(self).ticks_since_reconcile,
    {
        let ghost before = self.groups@;
        let ghost gone = before[at as int].group;
        self.groups.remove(at);
        proof {
            let after = self.groups@;
            let map = by_id(before).remove(gone);
            assert(after =~= before.remove(at as int));
            assert forall|a: int, b: int|
                #![trigger after[a], after[b]]
                0 <= a < b < after.len() implies after[a].group < after[b].group by {
                let x = if a < at { a } else { a + 1 };
                let y = if b < at { b } else { b + 1 };
                assert(before[x].group < before[y].group);
            }
            assert forall|j: int| 0 <= j < after.len() implies (#[trigger] after[j]).wf()
                && map.contains_key(after[j].group) && map[after[j].group] == after[j] by {
                let x = if j < at { j } else { j + 1 };
                lemma_by_id_at(before, x);
                assert(before[x].wf());
                if x < at {
                    assert(before[x].group < before[at as int].group);
                } else {
                    assert(before[at as int].group < before[x].group);
                }
            }
            assert forall|id: GroupId| #[trigger] map.contains_key(id) implies exists|j: int|
                0 <= j < after.len() && (#[trigger] after[j]).group == id by {
                lemma_by_id_dom(before, id);
                let x = choose|x: int| 0 <= x < before.len() && (#[trigger] before[x]).group == id;
                if x < at {
                    assert(after[x].group == id);
                } else {
                    assert(after[x - 1].group == id);
                }
            }
            lemma_by_id_is(after, map);
        }
    }

    /// Routes one client's request to the group that holds its shard; `view` is
    /// what that group's core says of itself, if there is one. A request for a
    /// group that is not hosted here is answered as such: the service's map is
    /// a version away from this node's, and the client re-routes.
    pub fn handle_request(&mut self, request: ClientRequest, view: Option<&NodeView>, now: Nanos)
        -> (routed: Routed)
        requires
            old(self).wf(),
            old(self).hosted().contains_key(request.group) ==> old(
                self,
            ).hosted()[request.group].next_token < u64::MAX,
        ensures
            final(self).wf(),
            final(self).peers == old(self).peers,
            final(self).ticks_since_reconcile == old(self).ticks_since_reconcile,
            match view {
                Some(view) if old(self).hosted().contains_key(request.group) => {
                    &&& routed matches Routed::Step(step) && request_taken(
                        old(self).hosted()[request.group],
                        request.op,
                        request.ticket,
                        *view,
                        now,
                        step,
                        final(self).hosted()[request.group],
                    )
                    &&& final(self).hosted() == old(self).hosted().insert(
                        request.group,
                        final(self).hosted()[request.group],
                    )
                },
                _ => {
                    &&& routed == Routed::Answered(not_hosted(request.ticket, request.group))
                    &&& *final(self) == *old(self)
                },
            },
    {
        let ClientRequest { group, op, ticket } = request;
        let ghost before = self.groups@;
        let (found, at) = self.find(group);
        match view {
            Some(view) => {
                if found {
                    let step = self.groups[at].handle_request(op, ticket, view, now);
                    proof {
                        let changed = self.groups@[at as int];
                        assert(before[at as int].wf());
                        lemma_by_id_update(before, at as int, changed);
                        assert(self.groups@ =~= before.update(at as int, changed));
                    }
                    return Routed::Step(step);
                }
            },
            None => {},
        }
        let shard = match shard_of(group) {
            Some(shard) => shard,
            None => 0,
        };
        Routed::Answered(Reply { ticket, answer: Answer::Client(ClientReply::NotHosted { shard }) })
    }

    /// Routes one administration request; `view` is what the group's core says
    /// of itself, if there is one. A group that is let go is hosted no more.
    pub fn handle_admin(
        &mut self,
        request: AdminRequest,
        view: Option<&NodeView>,
        log_first_index: LogIndex,
        log_last_index: LogIndex,
    ) -> (routed: AdminRouted)
        requires
            old(self).wf(),
        ensures
            final(self).wf(),
            final(self).peers == old(self).peers,
            final(self).ticks_since_reconcile == old(self).ticks_since_reconcile,
            final(self).hosted() == if admin_releases(*old(self), request, view) {
                old(self).hosted().remove(request.group)
            } else {
                old(self).hosted()
            },
            match routed {
                AdminRouted::Statuses => request.op is ShardStatuses,
                AdminRouted::Propose(change) => {
                    &&& !(request.op is ShardStatuses)
                    &&& old(self).hosted().contains_key(request.group)
                    &&& view matches Some(v) && admin_taken(
                        old(self).hosted()[request.group],
                        request.op,
                        *v,
                        log_first_index,
                        log_last_index,
                        AdminStep::Propose(change),
                    )
                },
                AdminRouted::Answered(reply) => {
                    &&& !(request.op is ShardStatuses)
                    &&& reply.ticket == request.ticket
                    &&& reply.answer matches Answer::Admin(answer) && (match view {
                        Some(v) if old(self).hosted().contains_key(request.group) => admin_taken(
                            old(self).hosted()[request.group],
                            request.op,
                            *v,
                            log_first_index,
                            log_last_index,
                            AdminStep::Answer(answer),
                        ),
                        _ => answer matches AdminReply::Rejected { reason } && reason@
                            == "this node does not host group "@ + as_chars(
                            decimal(request.group as nat),
                        ),
                    })
                },
            },
    {
        let AdminRequest { group, op, ticket } = request;
        match op {
            AdminOp::ShardStatuses => {
                return AdminRouted::Statuses;
            },
            _ => {},
        }
        let (found, at) = self.find(group);
        match view {
            Some(view) => {
                if found {
                    assert(self.groups@[at as int].wf());
                    let releasing = match op {
                        AdminOp::ReleaseShard { .. } => true,
                        _ => false,
                    };
                    match self.groups[at].handle_admin(op, view, log_first_index, log_last_index) {
                        AdminStep::Answer(answer) => {
                            if releasing && !view.config.contains(view.id) {
                                self.drop_at(at);
                            }
                            return AdminRouted::Answered(
                                Reply { ticket, answer: Answer::Admin(answer) },
                            );
                        },
                        AdminStep::Propose(change) => {
                            return AdminRouted::Propose(change);
                        },
                    }
                }
            },
            None => {},
        }
        let number = decimal_text(group as u64);
        let reason = join_text("this node does not host group ", &number);
        AdminRouted::Answered(
            Reply { ticket, answer: Answer::Admin(AdminReply::Rejected { reason }) },
        )
    }
}

/// The answer to a client whose shard is not hosted here.
pub open spec fn not_hosted(ticket: Ticket, group: GroupId) -> Reply {
    Reply {
        ticket,
        answer: Answer::Client(
            ClientReply::NotHosted {
                shard: match shard_in(group) {
                    Some(shard) => shard,
                    None => 0,
                },
            },
        ),
    }
}

/// Whether a request lets a group go: it asks for that, the group is hosted
/// here, and the group itself no longer names this node.
pub open spec fn admin_releases(
    driver: Driver,
    request: AdminRequest,
    view: Option<&NodeView>,
) -> bool {
    &&& request.op is ReleaseShard
    &&& driver.hosted().contains_key(request.group)
    &&& view matches Some(v) && !in_group(*v, v.id)
}

/// A [`ShardStatus`] as a mathematical value.
#[verifier::ext_equal]
pub struct StatusView {
    pub shard: ShardId,
    pub leader: Option<NodeId>,
    pub term: Term,
    pub replicas: Seq<NodeId>,
    pub learners: Seq<NodeId>,
    pub leading: bool,
    pub applied_index: LogIndex,
}

/// A [`ShardStatus`] as a mathematical value.
pub open spec fn status_view(status: ShardStatus) -> StatusView {
    StatusView {
        shard: status.shard,
        leader: status.leader,
        term: status.term,
        replicas: status.replicas@,
        learners: status.learners@,
        leading: status.leading,
        applied_index: status.applied_index,
    }
}

/// Statuses as mathematical values.
pub open spec fn status_views(statuses: Seq<ShardStatus>) -> Seq<StatusView> {
    statuses.map_values(|s: ShardStatus| status_view(s))
}

/// What is reported of each hosted group that is a shard's, in shard order. The
/// meta group is left out: it carries no data.
pub open spec fn reported(groups: Seq<Group>, views: Seq<NodeView>) -> Seq<StatusView>
    decreases groups.len(),
{
    if groups.len() == 0 {
        Seq::empty()
    } else {
        let before = reported(groups.drop_last(), views.drop_last());
        let (group, view) = (groups.last(), views.last());
        match shard_in(group.group) {
            None => before,
            Some(shard) => before.push(
                StatusView {
                    shard,
                    leader: view.leader,
                    term: view.term,
                    replicas: view.config.voters@,
                    learners: view.config.learners@,
                    leading: view.role == Role::Leader,
                    applied_index: group.applied_index,
                },
            ),
        }
    }
}

/// Whom a core's group needs this node to reach.
pub open spec fn others(view: NodeView) -> Set<NodeId> {
    view.config.voters@.to_set().union(view.config.learners@.to_set()).remove(view.id)
}

/// Whom any of the groups needs this node to reach.
pub open spec fn reach(views: Seq<NodeView>) -> Set<NodeId>
    decreases views.len(),
{
    if views.len() == 0 {
        Set::empty()
    } else {
        reach(views.drop_last()).union(others(views.last()))
    }
}

/// Where a node can be reached: the first group that knows says.
pub open spec fn address_of(groups: Seq<Group>, id: NodeId) -> Option<Seq<char>>
    decreases groups.len(),
{
    if groups.len() == 0 {
        None
    } else {
        match address_of(groups.drop_last(), id) {
            Some(address) => Some(address),
            None => if groups.last().endpoints@.contains_key(id) {
                Some(groups.last().endpoints@[id]@)
            } else {
                None
            },
        }
    }
}

/// Which groups first learn that nobody knows where `id` lives.
pub open spec fn warned(groups: Seq<Group>, views: Seq<NodeView>, id: NodeId) -> Seq<
    (GroupId, NodeId),
>
    decreases groups.len(),
{
    if groups.len() == 0 {
        Seq::empty()
    } else {
        let before = warned(groups.drop_last(), views.drop_last(), id);
        if in_group(views.last(), id) && !groups.last().unreachable@.contains(id) {
            before.push((groups.last().group, id))
        } else {
            before
        }
    }
}

/// The same for each of `ids`.
pub open spec fn all_warned(groups: Seq<Group>, views: Seq<NodeView>, ids: Seq<NodeId>) -> Seq<
    (GroupId, NodeId),
>
    decreases ids.len(),
{
    if ids.len() == 0 {
        Seq::empty()
    } else {
        all_warned(groups, views, ids.drop_last()) + warned(groups, views, ids.last())
    }
}

/// Members that there is no link to, and that can be dialled.
pub open spec fn to_dial(driver: Driver, views: Seq<NodeView>) -> Set<NodeId> {
    reach(views).filter(
        |id: NodeId|
            !driver.peers@.contains(id) && address_of(driver.groups@, id) is Some,
    )
}

/// Members that there is no link to, and that nobody knows where they live.
pub open spec fn lost(driver: Driver, views: Seq<NodeView>) -> Set<NodeId> {
    reach(views).filter(
        |id: NodeId|
            !driver.peers@.contains(id) && address_of(driver.groups@, id) is None,
    )
}

/// Who is linked once the links were brought in line: those that some group
/// still needs, and those that are dialled.
pub open spec fn linked_after(driver: Driver, views: Seq<NodeView>) -> Set<NodeId> {
    driver.peers@.intersect(reach(views)).union(to_dial(driver, views))
}

/// Links follow the membership: once they were brought in line, only members of
/// some group are linked, and every member is, save those that nobody knows an
/// address of.
pub proof fn law_links_cover_the_membership(driver: Driver, views: Seq<NodeView>, id: NodeId)
    ensures
        linked_after(driver, views).contains(id) ==> reach(views).contains(id),
        reach(views).contains(id) ==> linked_after(driver, views).contains(id) || address_of(
            driver.groups@,
            id,
        ) is None,
{
}

/// Nodes to dial, as mathematical values.
pub open spec fn dial_views(dialled: Seq<(NodeId, String)>) -> Seq<(NodeId, Seq<char>)> {
    dialled.map_values(|d: (NodeId, String)| (d.0, d.1@))
}

/// Adds the ids of a list to a set, but for one.
fn add_others(members: &mut BTreeSet<NodeId>, ids: &Vec<NodeId>, me: NodeId)
    ensures
        final(members)@ == old(members)@.union(ids@.to_set().remove(me)),
{
    let mut i: usize = 0;
    assert(old(members)@.union(ids@.take(0).to_set().remove(me)) =~= old(members)@);
    while i < ids.len()
        invariant
            i <= ids@.len(),
            members@ == old(members)@.union(ids@.take(i as int).to_set().remove(me)),
        decreases ids@.len() - i,
    {
        let id: NodeId = ids[i];
        if id != me {
            members.insert(id);
        }
        i += 1;
        proof {
            lemma_take_to_set(ids@, i - 1);
            assert(members@ =~= old(members)@.union(ids@.take(i as int).to_set().remove(me)));
        }
    }
    assert(ids@.take(i as int) =~= ids@);
}

/// Notes in every group that names `id` that nobody knows where it lives, and
/// lists the groups that did not know.
fn warn_groups(
    groups: &mut Vec<Group>,
    views: &Vec<NodeView>,
    id: NodeId,
    told: &mut Vec<(GroupId, NodeId)>,
)
    requires
        old(groups)@.len() == views@.len(),
    ensures
        final(told)@ == old(told)@ + warned(old(groups)@, views@, id),
        final(groups)@.len() == old(groups)@.len(),
        forall|i: int|
            0 <= i < old(groups)@.len() ==> {
                &&& (#[trigger] final(groups)@[i]).unreachable@ == if in_group(views@[i], id) {
                    old(groups)@[i].unreachable@.insert(id)
                } else {
                    old(groups)@[i].unreachable@
                }
                &&& final(groups)@[i] == (Group {
                    unreachable: final(groups)@[i].unreachable,
                    ..old(groups)@[i]
                })
            },
{
    let ghost before = groups@;
    let ghost said = told@;
    let mut i: usize = 0;
    proof {
        assert(before.take(0) =~= Seq::<Group>::empty());
        assert(told@ =~= said + warned(before.take(0), views@.take(0), id));
    }
    while i < groups.len()
        invariant
            i <= groups@.len(),
            groups@.len() == before.len(),
            before.len() == views@.len(),
            told@ == said + warned(before.take(i as int), views@.take(i as int), id),
            forall|j: int|
                0 <= j < i ==> {
                    &&& (#[trigger] groups@[j]).unreachable@ == if in_group(views@[j], id) {
                        before[j].unreachable@.insert(id)
                    } else {
                        before[j].unreachable@
                    }
                    &&& groups@[j] == (Group { unreachable: groups@[j].unreachable, ..before[j] })
                },
            forall|j: int| i <= j < before.len() ==> groups@[j] == before[j],
        decreases before.len() - i,
    {
        let ghost mid = groups@;
        if views[i].config.contains(id) {
            let number = groups[i].group;
            let fresh = groups[i].unreachable.insert(id);
            if fresh {
                told.push((number, id));
            }
        }
        proof {
            let n = i as int;
            assert(before.take(n + 1).drop_last() =~= before.take(n));
            assert(before.take(n + 1).last() == before[n]);
            assert(views@.take(n + 1).drop_last() =~= views@.take(n));
            assert(views@.take(n + 1).last() == views@[n]);
            assert(told@ =~= said + warned(before.take(n + 1), views@.take(n + 1), id));
            assert forall|j: int| 0 <= j < n + 1 implies {
                &&& (#[trigger] groups@[j]).unreachable@ == if in_group(views@[j], id) {
                    before[j].unreachable@.insert(id)
                } else {
                    before[j].unreachable@
                }
                &&& groups@[j] == (Group { unreachable: groups@[j].unreachable, ..before[j] })
            } by {
                if j < n {
                    assert(groups@[j] == mid[j]);
                }
            }
        }
        i += 1;
    }
    assert(before.take(i as int) =~= before);
    assert(views@.take(i as int) =~= views@);
}

/// Forgets in every group that `id` could not be reached.
fn clear_warnings(groups: &mut Vec<Group>, id: NodeId)
    ensures
        final(groups)@.len() == old(groups)@.len(),
        forall|i: int|
            0 <= i < old(groups)@.len() ==> {
                &&& (#[trigger] final(groups)@[i]).unreachable@ == old(
                    groups,
                )@[i].unreachable@.remove(id)
                &&& final(groups)@[i] == (Group {
                    unreachable: final(groups)@[i].unreachable,
                    ..old(groups)@[i]
                })
            },
{
    let ghost before = groups@;
    let mut i: usize = 0;
    while i < groups.len()
        invariant
            i <= groups@.len(),
            groups@.len() == before.len(),
            forall|j: int|
                0 <= j < i ==> {
                    &&& (#[trigger] groups@[j]).unreachable@ == before[j].unreachable@.remove(id)
                    &&& groups@[j] == (Group { unreachable: groups@[j].unreachable, ..before[j] })
                },
            forall|j: int| i <= j < before.len() ==> groups@[j] == before[j],
        decreases before.len() - i,
    {
        let ghost mid = groups@;
        groups[i].unreachable.remove(&id);
        proof {
            let n = i as int;
            assert forall|j: int| 0 <= j < n + 1 implies {
                &&& (#[trigger] groups@[j]).unreachable@ == before[j].unreachable@.remove(id)
                &&& groups@[j] == (Group { unreachable: groups@[j].unreachable, ..before[j] })
            } by {
                if j < n {
                    assert(groups@[j] == mid[j]);
                }
            }
        }
        i += 1;
    }
}

impl Driver {
    /// One more tick has passed.
    pub fn tick(&mut self)
        requires
            old(self).ticks_since_reconcile < u32::MAX,
        ensures
            *final(self) == (Driver {
                ticks_since_reconcile: (old(self).ticks_since_reconcile + 1) as u32,
                ..*old(self)
            }),
    {
        self.ticks_since_reconcile = self.ticks_since_reconcile + 1;
    }

    /// The groups to drain, in the order of their numbers: the one that was
    /// touched, if it is hosted here, or every group after a tick, which moves
    /// all of them.
    pub fn to_drain(&self, touched: Option<GroupId>) -> (ids: Vec<GroupId>)
        requires
            self.wf(),
        ensures
            ids@ == match touched {
                Some(id) => if self.hosted().contains_key(id) {
                    seq![id]
                } else {
                    Seq::empty()
                },
                None => self.groups@.map_values(|g: Group| g.group),
            },
    {
        let mut ids: Vec<GroupId> = Vec::new();
        match touched {
            Some(id) => {
                if self.find(id).0 {
                    ids.push(id);
                    assert(ids@ =~= seq![id]);
                }
            },
            None => {
                let ghost all = self.groups@.map_values(|g: Group| g.group);
                let mut i: usize = 0;
                assert(ids@ =~= all.take(0));
                while i < self.groups.len()
                    invariant
                        i <= self.groups@.len(),
                        all == self.groups@.map_values(|g: Group| g.group),
                        ids@ == all.take(i as int),
                    decreases self.groups@.len() - i,
                {
                    ids.push(self.groups[i].group);
                    i += 1;
                    assert(ids@ =~= all.take(i as int));
                }
                assert(all.take(i as int) =~= all);
            },
        }
        ids
    }

    /// Whether the links are brought in line with the membership after this
    /// drain: when something moved, or when that has not been done for long.
    pub fn reconcile_due(&mut self, membership_moved: bool) -> (r: bool)
        ensures
            r == (membership_moved || old(self).ticks_since_reconcile >= RECONCILE_EVERY_TICKS),
            *final(self) == (Driver {
                ticks_since_reconcile: if r {
                    0
                } else {
                    old(self).ticks_since_reconcile
                },
                ..*old(self)
            }),
    {
        let due = membership_moved || self.ticks_since_reconcile >= RECONCILE_EVERY_TICKS;
        if due {
            self.ticks_since_reconcile = 0;
        }
        due
    }

    /// Every shard this node hosts, in shard order; `views` is what each
    /// group's core says of itself.
    pub fn shard_statuses(&self, views: &Vec<NodeView>) -> (statuses: Vec<ShardStatus>)
        requires
            views@.len() == self.groups@.len(),
        ensures
            status_views(statuses@) == reported(self.groups@, views@),
    {
        let ghost groups = self.groups@;
        let mut statuses: Vec<ShardStatus> = Vec::new();
        let mut i: usize = 0;
        proof {
            assert(groups.take(0) =~= Seq::<Group>::empty());
            assert(status_views(statuses@) =~= Seq::<StatusView>::empty());
        }
        while i < self.groups.len()
            invariant
                i <= groups.len(),
                groups == self.groups@,
                views@.len() == groups.len(),
                status_views(statuses@) == reported(
                    groups.take(i as int),
                    views@.take(i as int),
                ),
            decreases groups.len() - i,
        {
            let ghost before = statuses@;
            let view = &views[i];
            proof {
                assert(groups.take(i + 1).drop_last() =~= groups.take(i as int));
                assert(groups.take(i + 1).last() == groups[i as int]);
                assert(views@.take(i + 1).drop_last() =~= views@.take(i as int));
                assert(views@.take(i + 1).last() == views@[i as int]);
            }
            match shard_of(self.groups[i].group) {
                Some(shard) => {
                    let status = ShardStatus {
                        shard,
                        leader: view.leader,
                        term: view.term,
                        replicas: copy_ids(&view.config.voters),
                        learners: copy_ids(&view.config.learners),
                        leading: view.role == Role::Leader,
                        applied_index: self.groups[i].applied_index,
                    };
                    statuses.push(status);
                    assert(status_views(statuses@) =~= status_views(before).push(
                        status_view(status),
                    ));
                },
                None => {},
            }
            i += 1;
        }
        assert(groups.take(i as int) =~= groups);
        assert(views@.take(i as int) =~= views@);
        statuses
    }

    /// Whom any of the groups needs this node to reach.
    fn members(views: &Vec<NodeView>) -> (members: BTreeSet<NodeId>)
        ensures
            members@ == reach(views@),
    {
        let mut members: BTreeSet<NodeId> = BTreeSet::new();
        let mut i: usize = 0;
        assert(views@.take(0) =~= Seq::<NodeView>::empty());
        while i < views.len()
            invariant
                i <= views@.len(),
                members@ == reach(views@.take(i as int)),
            decreases views@.len() - i,
        {
            let view = &views[i];
            let ghost before = members@;
            add_others(&mut members, &view.config.voters, view.id);
            add_others(&mut members, &view.config.learners, view.id);
            proof {
                assert(views@.take(i + 1).drop_last() =~= views@.take(i as int));
                assert(members@ =~= before.union(others(*view)));
            }
            i += 1;
        }
        assert(views@.take(i as int) =~= views@);
        members
    }

    /// Where a node can be reached: the first group that knows says.
    fn address(&self, id: NodeId) -> (address: Option<String>)
        ensures
            match address {
                Some(a) => address_of(self.groups@, id) == Some(a@),
                None => address_of(self.groups@, id) is None,
            },
    {
        let ghost groups = self.groups@;
        let mut i: usize = 0;
        assert(groups.take(0) =~= Seq::<Group>::empty());
        while i < self.groups.len()
            invariant
                i <= groups.len(),
                groups == self.groups@,
                address_of(groups.take(i as int), id) is None,
            decreases groups.len() - i,
        {
            proof {
                assert(groups.take(i + 1).drop_last() =~= groups.take(i as int));
                assert(groups.take(i + 1).last() == groups[i as int]);
            }
            match self.groups[i].endpoints.get(&id) {
                Some(address) => {
                    proof {
                        lemma_first_address(groups, id, i + 1);
                    }
                    return Some(address.clone());
                },
                None => {},
            }
            i += 1;
        }
        assert(groups.take(i as int) =~= groups);
        None
    }

    /// Brings the links in line with what every group says its membership is;
    /// `views` is what each group's core says of itself.
    ///
    /// The union over the groups, because one link carries them all: a member
    /// of any group has to be reachable, and a link goes only when no group
    /// needs it.
    pub fn reconcile_peers(&mut self, views: &Vec<NodeView>) -> (links: Links)
        requires
            old(self).wf(),
            views@.len() == old(self).groups@.len(),
        ensures
            final(self).wf(),
            final(self).ticks_since_reconcile == old(self).ticks_since_reconcile,
            links.dropped@ == in_order(
                old(self).peers@.filter(|id: NodeId| !reach(views@).contains(id)),
            ),
            dial_views(links.dialled@) == in_order(to_dial(*old(self), views@)).map_values(
                |id: NodeId| (id, address_of(old(self).groups@, id)->0),
            ),
            links.unreachable@ == all_warned(
                old(self).groups@,
                views@,
                in_order(lost(*old(self), views@)),
            ),
            final(self).peers@ == linked_after(*old(self), views@),
            final(self).groups@.len() == old(self).groups@.len(),
            forall|i: int|
                0 <= i < old(self).groups@.len() ==> {
                    &&& forall|id: NodeId| #[trigger]
                        final(self).groups@[i].unreachable@.contains(id) <==> (old(
                            self,
                        ).groups@[i].unreachable@.contains(id) && !to_dial(
                            *old(self),
                            views@,
                        ).contains(id)) || (lost(*old(self), views@).contains(id) && in_group(
                            views@[i],
                            id,
                        ))
                    &&& (#[trigger] final(self).groups@[i]) == (Group {
                        unreachable: final(self).groups@[i].unreachable,
                        ..old(self).groups@[i]
                    })
                },
    {
        let members = Driver::members(views);
        let dropped = self.drop_links(&members);
        let ghost before = *self;
        let order = members_of(&members);
        let mut dialled: Vec<(NodeId, String)> = Vec::new();
        let mut unreachable: Vec<(GroupId, NodeId)> = Vec::new();
        let ghost dial = |id: NodeId|
            !before.peers@.contains(id) && address_of(before.groups@, id) is Some;
        let ghost miss = |id: NodeId|
            !before.peers@.contains(id) && address_of(before.groups@, id) is None;
        let ghost known = |id: NodeId| (id, address_of(before.groups@, id)->0);
        let mut k: usize = 0;
        proof {
            assert(order@.take(0) =~= Seq::<NodeId>::empty());
            assert(dial_views(dialled@) =~= picked(order@.take(0), dial).map_values(known));
            assert(self.peers@ =~= before.peers@.union(picked(order@.take(0), dial).to_set()));
        }
        while k < order.len()
            invariant
                k <= order@.len(),
                increasing(order@),
                order@.to_set() == members@,
                before.wf(),
                views@.len() == before.groups@.len(),
                dial == (|id: NodeId|
                    !before.peers@.contains(id) && address_of(before.groups@, id) is Some),
                miss == (|id: NodeId|
                    !before.peers@.contains(id) && address_of(before.groups@, id) is None),
                known == (|id: NodeId| (id, address_of(before.groups@, id)->0)),
                self.ticks_since_reconcile == before.ticks_since_reconcile,
                self.peers@ == before.peers@.union(picked(order@.take(k as int), dial).to_set()),
                dial_views(dialled@) == picked(order@.take(k as int), dial).map_values(known),
                unreachable@ == all_warned(
                    before.groups@,
                    views@,
                    picked(order@.take(k as int), miss),
                ),
                self.groups@.len() == before.groups@.len(),
                forall|i: int|
                    0 <= i < before.groups@.len() ==> {
                        &&& (#[trigger] self.groups@[i]).unreachable@ == marks_after(
                            before.groups@[i].unreachable@,
                            picked(order@.take(k as int), dial).to_set(),
                            picked(order@.take(k as int), miss).to_set(),
                            views@[i],
                        )
                        &&& self.groups@[i] == (Group {
                            unreachable: self.groups@[i].unreachable,
                            ..before.groups@[i]
                        })
                    },
            decreases order@.len() - k,
        {
            let id: NodeId = order[k];
            let ghost done = order@.take(k as int);
            let ghost next = order@.take(k + 1);
            let ghost here = self.groups@;
            proof {
                assert(next.drop_last() =~= done);
                assert(next.last() == id);
                lemma_same_addresses(before.groups@, self.groups@, id);
                assert(!done.contains(id)) by {
                    if done.contains(id) {
                        let j = choose|j: int| 0 <= j < done.len() && done[j] == id;
                        assert(order@[j] < order@[k as int]);
                    }
                }
                lemma_picked_within(done, dial);
                lemma_picked_within(done, miss);
            }
            if !self.peers.contains(&id) {
                match self.address(id) {
                    None => {
                        warn_groups(&mut self.groups, views, id, &mut unreachable);
                        proof {
                            lemma_same_warnings(before.groups@, here, views@, id);
                            assert(picked(next, dial) == picked(done, dial));
                            assert(picked(next, miss) == picked(done, miss).push(id));
                            assert(picked(next, miss).drop_last() =~= picked(done, miss));
                            assert(picked(next, miss).to_set() =~= picked(
                                done,
                                miss,
                            ).to_set().insert(id)) by {
                                lemma_push_to_set(picked(done, miss), id);
                            }
                            assert forall|i: int| 0 <= i < before.groups@.len() implies {
                                &&& (#[trigger] self.groups@[i]).unreachable@ == marks_after(
                                    before.groups@[i].unreachable@,
                                    picked(next, dial).to_set(),
                                    picked(next, miss).to_set(),
                                    views@[i],
                                )
                                &&& self.groups@[i] == (Group {
                                    unreachable: self.groups@[i].unreachable,
                                    ..before.groups@[i]
                                })
                            } by {
                                assert(here[i] == (Group {
                                    unreachable: here[i].unreachable,
                                    ..before.groups@[i]
                                }));
                                assert(self.groups@[i].unreachable@ =~= marks_after(
                                    before.groups@[i].unreachable@,
                                    picked(next, dial).to_set(),
                                    picked(next, miss).to_set(),
                                    views@[i],
                                ));
                            }
                        }
                    },
                    Some(address) => {
                        let ghost text = address@;
                        let ghost listed = dialled@;
                        clear_warnings(&mut self.groups, id);
                        dialled.push((id, address));
                        self.peers.insert(id);
                        proof {
                            assert(picked(next, miss) == picked(done, miss));
                            assert(picked(next, dial) == picked(done, dial).push(id));
                            lemma_push_to_set(picked(done, dial), id);
                            assert(dial_views(dialled@) =~= dial_views(listed).push((id, text)));
                            assert(dial_views(dialled@) =~= picked(next, dial).map_values(known));
                            assert(self.peers@ =~= before.peers@.union(
                                picked(next, dial).to_set(),
                            ));
                            assert forall|i: int| 0 <= i < before.groups@.len() implies {
                                &&& (#[trigger] self.groups@[i]).unreachable@ == marks_after(
                                    before.groups@[i].unreachable@,
                                    picked(next, dial).to_set(),
                                    picked(next, miss).to_set(),
                                    views@[i],
                                )
                                &&& self.groups@[i] == (Group {
                                    unreachable: self.groups@[i].unreachable,
                                    ..before.groups@[i]
                                })
                            } by {
                                assert(here[i] == (Group {
                                    unreachable: here[i].unreachable,
                                    ..before.groups@[i]
                                }));
                                assert(!picked(done, miss).to_set().contains(id));
                                assert(self.groups@[i].unreachable@ =~= marks_after(
                                    before.groups@[i].unreachable@,
                                    picked(next, dial).to_set(),
                                    picked(next, miss).to_set(),
                                    views@[i],
                                ));
                            }
                        }
                    },
                }
            } else {
                proof {
                    assert(!picked(done, dial).to_set().contains(id));
                    assert(before.peers@.contains(id));
                    assert(picked(next, dial) == picked(done, dial));
                    assert(picked(next, miss) == picked(done, miss));
                }
            }
            k += 1;
        }
        proof {
            assert(order@.take(k as int) =~= order@);
            lemma_picked_in_order(order@, members@, dial);
            lemma_picked_in_order(order@, members@, miss);
            let start = *old(self);
            assert(members@ == reach(views@));
            assert(members@.filter(dial) =~= to_dial(start, views@));
            assert(members@.filter(miss) =~= lost(start, views@));
            assert(self.peers@ =~= start.peers@.intersect(reach(views@)).union(
                to_dial(start, views@),
            ));
            assert(dial_views(dialled@) =~= in_order(to_dial(start, views@)).map_values(
                |id: NodeId| (id, address_of(start.groups@, id)->0),
            ));
            assert forall|i: int, j: int|
                #![trigger self.groups@[i], self.groups@[j]]
                0 <= i < j < self.groups@.len() implies self.groups@[i].group
                < self.groups@[j].group by {
                assert(before.groups@[i].group < before.groups@[j].group);
            }
            assert forall|i: int| 0 <= i < self.groups@.len() implies (
            #[trigger] self.groups@[i]).wf() by {
                assert(before.groups@[i].wf());
            }
        }
        Links { dropped, dialled, unreachable }
    }

    /// Drops the links that no group needs any more.
    fn drop_links(&mut self, members: &BTreeSet<NodeId>) -> (dropped: Vec<NodeId>)
        ensures
            dropped@ == in_order(old(self).peers@.filter(|id: NodeId| !members@.contains(id))),
            final(self).peers@ == old(self).peers@.intersect(members@),
            *final(self) == (Driver { peers: final(self).peers, ..*old(self) }),
    {
        let ghost gone = |id: NodeId| !members@.contains(id);
        let linked = members_of(&self.peers);
        let mut dropped: Vec<NodeId> = Vec::new();
        let mut i: usize = 0;
        proof {
            assert(linked@.take(0) =~= Seq::<NodeId>::empty());
            assert(self.peers@ =~= old(self).peers@.difference(picked(linked@.take(0), gone).to_set()));
        }
        while i < linked.len()
            invariant
                i <= linked@.len(),
                gone == (|id: NodeId| !members@.contains(id)),
                dropped@ == picked(linked@.take(i as int), gone),
                self.peers@ == old(self).peers@.difference(
                    picked(linked@.take(i as int), gone).to_set(),
                ),
                *self == (Driver { peers: self.peers, ..*old(self) }),
            decreases linked@.len() - i,
        {
            let id: NodeId = linked[i];
            let ghost done = picked(linked@.take(i as int), gone);
            assert(linked@.take(i + 1).drop_last() =~= linked@.take(i as int));
            if !members.contains(&id) {
                dropped.push(id);
                self.peers.remove(&id);
                proof {
                    lemma_push_to_set(done, id);
                    assert(self.peers@ =~= old(self).peers@.difference(done.push(id).to_set()));
                }
            }
            i += 1;
        }
        proof {
            assert(linked@.take(i as int) =~= linked@);
            lemma_picked_in_order(linked@, old(self).peers@, gone);
            assert(self.peers@ =~= old(self).peers@.intersect(members@));
        }
        dropped
    }
}

/// Which members a group marks as unreachable, once some were dialled and some
/// were lost.
spec fn marks_after(
    marks: Set<NodeId>,
    dialled: Set<NodeId>,
    lost: Set<NodeId>,
    view: NodeView,
) -> Set<NodeId> {
    Set::new(
        |id: NodeId|
            (marks.contains(id) && !dialled.contains(id)) || (lost.contains(id) && in_group(
                view,
                id,
            )),
    )
}

proof fn lemma_push_to_set(ids: Seq<NodeId>, id: NodeId)
    ensures
        ids.push(id).to_set() == ids.to_set().insert(id),
{
    lemma_take_to_set(ids.push(id), ids.len() as int);
    assert(ids.push(id).take(ids.len() as int) =~= ids);
    assert(ids.push(id).take(ids.len() as int + 1) =~= ids.push(id));
}

/// What is picked is from the list, and is what the pick takes.
proof fn lemma_picked_within(ids: Seq<NodeId>, pick: spec_fn(u64) -> bool)
    ensures
        forall|id: NodeId| #[trigger]
            picked(ids, pick).to_set().contains(id) ==> ids.contains(id) && pick(id),
    decreases ids.len(),
{
    if ids.len() > 0 {
        let head = ids.drop_last();
        lemma_picked_within(head, pick);
        assert forall|id: NodeId| #[trigger]
            picked(ids, pick).to_set().contains(id) implies ids.contains(id) && pick(id) by {
            let out = picked(ids, pick);
            let inner = picked(head, pick);
            let m = choose|m: int| 0 <= m < out.len() && out[m] == id;
            if m < inner.len() {
                assert(inner[m] == id);
                assert(inner.to_set().contains(id));
                let j = choose|j: int| 0 <= j < head.len() && head[j] == id;
                assert(ids[j] == id);
            } else {
                assert(ids[ids.len() - 1] == id);
            }
        }
    }
}

/// Groups that differ only in whom they mark as unreachable know the same
/// addresses.
proof fn lemma_same_addresses(a: Seq<Group>, b: Seq<Group>, id: NodeId)
    requires
        a.len() == b.len(),
        forall|i: int|
            0 <= i < a.len() ==> (#[trigger] b[i]) == (Group {
                unreachable: b[i].unreachable,
                ..a[i]
            }),
    ensures
        address_of(a, id) == address_of(b, id),
    decreases a.len(),
{
    if a.len() > 0 {
        let (x, y) = (a.drop_last(), b.drop_last());
        assert forall|i: int| 0 <= i < x.len() implies (#[trigger] y[i]) == (Group {
            unreachable: y[i].unreachable,
            ..x[i]
        }) by {
            assert(y[i] == b[i]);
        }
        lemma_same_addresses(x, y, id);
        assert(b[b.len() - 1].endpoints == a[a.len() - 1].endpoints);
    }
}

/// The first group that knows an address decides it.
proof fn lemma_first_address(groups: Seq<Group>, id: NodeId, n: int)
    requires
        0 <= n <= groups.len(),
        address_of(groups.take(n), id) is Some,
    ensures
        address_of(groups, id) == address_of(groups.take(n), id),
    decreases groups.len() - n,
{
    if n < groups.len() {
        assert(groups.take(n + 1).drop_last() =~= groups.take(n));
        lemma_first_address(groups, id, n + 1);
    } else {
        assert(groups.take(n) =~= groups);
    }
}

/// Groups that mark one node alike warn of it alike.
proof fn lemma_same_warnings(a: Seq<Group>, b: Seq<Group>, views: Seq<NodeView>, id: NodeId)
    requires
        a.len() == b.len() == views.len(),
        forall|i: int|
            0 <= i < a.len() ==> (#[trigger] b[i]).group == a[i].group && (
            b[i].unreachable@.contains(id) == a[i].unreachable@.contains(id)),
    ensures
        warned(a, views, id) == warned(b, views, id),
    decreases a.len(),
{
    if a.len() > 0 {
        let (x, y) = (a.drop_last(), b.drop_last());
        assert forall|i: int| 0 <= i < x.len() implies (#[trigger] y[i]).group == x[i].group && (
        y[i].unreachable@.contains(id) == x[i].unreachable@.contains(id)) by {
            assert(y[i] == b[i]);
        }
        lemma_same_warnings(x, y, views.drop_last(), id);
        assert(b[b.len() - 1].group == a[a.len() - 1].group);
    }
}

/// Whom this node needs to reach is whoever some group of its names, voting or
/// learning, other than this node itself.
pub proof fn law_every_member_is_to_be_reached(views: Seq<NodeView>, id: NodeId)
    ensures
        reach(views).contains(id) <==> exists|i: int|
            #![trigger views[i]]
            0 <= i < views.len() && id != views[i].id && (views[i].config.voters@.contains(id)
                || views[i].config.learners@.contains(id)),
    decreases views.len(),
{
    if views.len() > 0 {
        let head = views.drop_last();
        law_every_member_is_to_be_reached(head, id);
        assert(views[views.len() - 1] == views.last());
        if reach(head).contains(id) {
            let i = choose|i: int|
                #![trigger head[i]]
                0 <= i < head.len() && id != head[i].id && (head[i].config.voters@.contains(id)
                    || head[i].config.learners@.contains(id));
            assert(views[i] == head[i]);
        }
        if exists|i: int|
            #![trigger views[i]]
            0 <= i < views.len() && id != views[i].id && (views[i].config.voters@.contains(id)
                || views[i].config.learners@.contains(id)) {
            let i = choose|i: int|
                #![trigger views[i]]
                0 <= i < views.len() && id != views[i].id && (views[i].config.voters@.contains(id)
                    || views[i].config.learners@.contains(id));
            if i < head.len() {
                assert(head[i] == views[i]);
            }
        }
    }
}

/// A node lives where the first group that knows it says, and is unknown only if
/// no group does.
pub proof fn law_the_first_group_that_knows_says(groups: Seq<Group>, id: NodeId, i: int)
    ensures
        address_of(groups, id) is None <==> forall|j: int|
            0 <= j < groups.len() ==> !(#[trigger] groups[j]).endpoints@.contains_key(id),
        0 <= i < groups.len() && groups[i].endpoints@.contains_key(id) && (forall|j: int|
            0 <= j < i ==> !(#[trigger] groups[j]).endpoints@.contains_key(id)) ==> address_of(
            groups,
            id,
        ) == Some(groups[i].endpoints@[id]@),
    decreases groups.len(),
{
    if groups.len() > 0 {
        let head = groups.drop_last();
        law_the_first_group_that_knows_says(head, id, i);
        assert(groups[groups.len() - 1] == groups.last());
        assert forall|j: int| 0 <= j < head.len() implies #[trigger] head[j] == groups[j] by {}
        if address_of(groups, id) is None {
            assert forall|j: int| 0 <= j < groups.len() implies !(
            #[trigger] groups[j]).endpoints@.contains_key(id) by {
                if j < head.len() {
                    assert(head[j] == groups[j]);
                }
            }
        }
        if forall|j: int|
            0 <= j < groups.len() ==> !(#[trigger] groups[j]).endpoints@.contains_key(id) {
            assert forall|j: int| 0 <= j < head.len() implies !(
            #[trigger] head[j]).endpoints@.contains_key(id) by {
                assert(!groups[j].endpoints@.contains_key(id));
            }
        }
        if 0 <= i < groups.len() && groups[i].endpoints@.contains_key(id) && (forall|j: int|
            0 <= j < i ==> !(#[trigger] groups[j]).endpoints@.contains_key(id)) {
            if i < head.len() {
                assert(head[i] == groups[i]);
                assert forall|j: int| 0 <= j < i implies !(
                #[trigger] head[j]).endpoints@.contains_key(id) by {
                    assert(!groups[j].endpoints@.contains_key(id));
                }
            } else {
                assert forall|j: int| 0 <= j < head.len() implies !(
                #[trigger] head[j]).endpoints@.contains_key(id) by {
                    assert(!groups[j].endpoints@.contains_key(id));
                }
            }
        }
    }
}

/// Links in line with the membership: once they were brought there, a node is
/// linked exactly if some group names it and it was linked before or somebody
/// knows where it lives; it is dialled exactly if it was not linked before, and
/// given up on as lost exactly if nobody knows.
pub proof fn law_links_are_the_reachable_members(driver: Driver, views: Seq<NodeView>, id: NodeId)
    ensures
        ({
            let named = exists|i: int|
                #![trigger views[i]]
                0 <= i < views.len() && id != views[i].id && (views[i].config.voters@.contains(id)
                    || views[i].config.learners@.contains(id));
            let known = exists|j: int|
                0 <= j < driver.groups@.len() && (
                #[trigger] driver.groups@[j]).endpoints@.contains_key(id);
            let linked = driver.peers@.contains(id);
            &&& linked_after(driver, views).contains(id) <==> named && (linked || known)
            &&& to_dial(driver, views).contains(id) <==> named && !linked && known
            &&& lost(driver, views).contains(id) <==> named && !linked && !known
        }),
{
    law_every_member_is_to_be_reached(views, id);
    law_the_first_group_that_knows_says(driver.groups@, id, 0);
}

/// Every shard that is hosted is reported, as its core and its state say it is,
/// and no other.
pub proof fn law_every_hosted_shard_is_reported(
    groups: Seq<Group>,
    views: Seq<NodeView>,
    i: int,
    shard: ShardId,
)
    requires
        groups.len() == views.len(),
    ensures
        0 <= i < groups.len() && shard_in(groups[i].group) == Some(shard) ==> reported(
            groups,
            views,
        ).contains(
            StatusView {
                shard,
                leader: views[i].leader,
                term: views[i].term,
                replicas: views[i].config.voters@,
                learners: views[i].config.learners@,
                leading: views[i].role == Role::Leader,
                applied_index: groups[i].applied_index,
            },
        ),
        forall|k: int|
            #![trigger reported(groups, views)[k]]
            0 <= k < reported(groups, views).len() ==> exists|j: int|
                0 <= j < groups.len() && shard_in((#[trigger] groups[j]).group) == Some(
                    reported(groups, views)[k].shard,
                ),
        reported(groups, views).len() <= groups.len(),
    decreases groups.len(),
{
    if groups.len() > 0 {
        let head = groups.drop_last();
        let seen = views.drop_last();
        let before = reported(head, seen);
        let all = reported(groups, views);
        law_every_hosted_shard_is_reported(head, seen, i, shard);
        assert(groups[groups.len() - 1] == groups.last());
        assert(views[views.len() - 1] == views.last());
        if 0 <= i < groups.len() && shard_in(groups[i].group) == Some(shard) {
            let want = StatusView {
                shard,
                leader: views[i].leader,
                term: views[i].term,
                replicas: views[i].config.voters@,
                learners: views[i].config.learners@,
                leading: views[i].role == Role::Leader,
                applied_index: groups[i].applied_index,
            };
            if i < head.len() {
                assert(head[i] == groups[i] && seen[i] == views[i]);
                let k = choose|k: int| 0 <= k < before.len() && before[k] == want;
                assert(all[k] == want);
            } else {
                assert(all[before.len() as int] == want);
            }
        }
        assert forall|k: int| #![trigger all[k]] 0 <= k < all.len() implies exists|j: int|
            0 <= j < groups.len() && shard_in((#[trigger] groups[j]).group) == Some(all[k].shard) by {
            if k < before.len() {
                assert(all[k] == before[k]);
                let j = choose|j: int|
                    0 <= j < head.len() && shard_in((#[trigger] head[j]).group) == Some(
                        before[k].shard,
                    );
                assert(groups[j] == head[j]);
            }
        }
    }
}

/// A node that does not host a shard says so, and which shard it was asked for.
pub proof fn law_a_stranger_is_told_the_shard(ticket: Ticket, shard: ShardId)
    ensures
        not_hosted(ticket, crate::group::group_of(shard)) == (Reply {
            ticket,
            answer: Answer::Client(ClientReply::NotHosted { shard }),
        }),
{
    crate::group::law_group_numbering(shard, shard);
}

/// A group goes only on a request to let it go, and only if it is hosted here
/// and its own members no longer count this node, voting or learning.
pub proof fn law_a_group_goes_only_if_its_members_agree(
    driver: Driver,
    request: AdminRequest,
    view: Option<&NodeView>,
)
    ensures
        admin_releases(driver, request, view) <==> {
            &&& request.op is ReleaseShard
            &&& exists|i: int|
                0 <= i < driver.groups@.len() && (#[trigger] driver.groups@[i]).group
                    == request.group
            &&& view matches Some(v) && !v.config.voters@.contains(v.id)
                && !v.config.learners@.contains(v.id)
        },
{
    lemma_by_id_dom(driver.groups@, request.group);
}

/// The group found under a number is the one hosted under it, and is found only
/// if it is hosted.
pub proof fn law_a_group_is_found_by_its_number(driver: Driver, i: int, id: GroupId)
    requires
        driver.wf(),
    ensures
        0 <= i < driver.groups@.len() ==> driver.hosted().contains_key(driver.groups@[i].group)
            && driver.hosted()[driver.groups@[i].group] == driver.groups@[i],
        driver.hosted().contains_key(id) ==> exists|j: int|
            0 <= j < driver.groups@.len() && (#[trigger] driver.groups@[j]).group == id,
{
    if 0 <= i < driver.groups@.len() {
        lemma_by_id_at(driver.groups@, i);
    }
    lemma_by_id_dom(driver.groups@, id);
}

/// Whoever names a member that nobody can find says so once: each group that
/// names it and has not said so yet, and no other.
pub proof fn law_a_lost_member_is_reported_once(
    groups: Seq<Group>,
    views: Seq<NodeView>,
    id: NodeId,
    group: GroupId,
    of: NodeId,
)
    requires
        groups.len() == views.len(),
    ensures
        warned(groups, views, id).contains((group, of)) <==> of == id && exists|i: int|
            #![trigger groups[i]]
            0 <= i < groups.len() && groups[i].group == group && (views[i].config.voters@.contains(
                id,
            ) || views[i].config.learners@.contains(id)) && !groups[i].unreachable@.contains(id),
    decreases groups.len(),
{
    let all = warned(groups, views, id);
    if groups.len() == 0 {
        assert(!all.contains((group, of)));
    } else {
        let head = groups.drop_last();
        let seen = views.drop_last();
        let before = warned(head, seen, id);
        let n = groups.len() - 1;
        law_a_lost_member_is_reported_once(head, seen, id, group, of);
        assert(groups[n] == groups.last() && views[n] == views.last());
        if before.contains((group, of)) {
            let k = choose|k: int| 0 <= k < before.len() && before[k] == (group, of);
            assert(all[k] == (group, of));
            let i = choose|i: int|
                #![trigger head[i]]
                0 <= i < head.len() && head[i].group == group && (seen[i].config.voters@.contains(id)
                    || seen[i].config.learners@.contains(id)) && !head[i].unreachable@.contains(id);
            assert(groups[i] == head[i] && views[i] == seen[i]);
        }
        if all.contains((group, of)) && !before.contains((group, of)) {
            let k = choose|k: int| 0 <= k < all.len() && all[k] == (group, of);
            if k < before.len() {
                assert(before[k] == (group, of));
            }
        }
        if of == id && exists|i: int|
            #![trigger groups[i]]
            0 <= i < groups.len() && groups[i].group == group && (views[i].config.voters@.contains(
                id,
            ) || views[i].config.learners@.contains(id)) && !groups[i].unreachable@.contains(id) {
            let i = choose|i: int|
                #![trigger groups[i]]
                0 <= i < groups.len() && groups[i].group == group && (
                views[i].config.voters@.contains(id) || views[i].config.learners@.contains(id))
                    && !groups[i].unreachable@.contains(id);
            if i < n {
                assert(head[i] == groups[i] && seen[i] == views[i]);
            } else {
                assert(all[before.len() as int] == (group, id));
            }
        }
    }
}

/// A shard's status is seen whole, and so is whom to dial.
pub proof fn law_a_status_is_seen_whole(
    statuses: Seq<ShardStatus>,
    dialled: Seq<(NodeId, String)>,
    i: int,
)
    ensures
        status_views(statuses).len() == statuses.len(),
        0 <= i < statuses.len() ==> {
            let seen = status_views(statuses)[i];
            &&& seen.shard == statuses[i].shard
            &&& seen.leader == statuses[i].leader
            &&& seen.term == statuses[i].term
            &&& seen.replicas == statuses[i].replicas@
            &&& seen.learners == statuses[i].learners@
            &&& seen.leading == statuses[i].leading
            &&& seen.applied_index == statuses[i].applied_index
        },
        dial_views(dialled).len() == dialled.len(),
        0 <= i < dialled.len() ==> dial_views(dialled)[i] == (dialled[i].0, dialled[i].1@),
{
}

/// A request goes to the group it names, and to no other: where this node does
/// not host that group the client is told the shard, and no group moves.
pub proof fn law_a_request_goes_to_its_group(
    before: Driver,
    after: Driver,
    request: ClientRequest,
    view: &NodeView,
    now: Nanos,
    routed: Routed,
    other: GroupId,
)
    requires
        before.wf(),
        before.hosted().contains_key(request.group) ==> before.hosted()[request.group].next_token
            < u64::MAX,
        exists|d: &mut Driver| #[trigger]
            call_ensures(Driver::handle_request, (d, request, Some(view), now), routed) && *d
                == before && *final(d) == after,
    ensures
        routed is Step <==> before.hosted().contains_key(request.group),
        routed matches Routed::Step(step) ==> request_taken(
            before.hosted()[request.group],
            request.op,
            request.ticket,
            *view,
            now,
            step,
            after.hosted()[request.group],
        ),
        other != request.group ==> after.hosted().contains_key(other)
            == before.hosted().contains_key(other) && after.hosted()[other]
            == before.hosted()[other],
        routed matches Routed::Answered(reply) ==> reply.ticket == request.ticket && after == before,
{
}

/// An operator's request goes to the group it names; a group that is not hosted
/// here is refused; and only a shard whose members no longer name this node is
/// let go, and it alone.
pub proof fn law_an_admin_request_goes_to_its_group(
    before: Driver,
    after: Driver,
    request: AdminRequest,
    view: &NodeView,
    first: LogIndex,
    last: LogIndex,
    routed: AdminRouted,
    other: GroupId,
)
    requires
        before.wf(),
        exists|d: &mut Driver| #[trigger]
            call_ensures(Driver::handle_admin, (d, request, Some(view), first, last), routed)
                && *d == before && *final(d) == after,
    ensures
        routed is Statuses <==> request.op is ShardStatuses,
        routed matches AdminRouted::Propose(change) ==> before.hosted().contains_key(request.group)
            && admin_taken(
            before.hosted()[request.group],
            request.op,
            *view,
            first,
            last,
            AdminStep::Propose(change),
        ),
        routed matches AdminRouted::Answered(reply) ==> reply.ticket == request.ticket,
        !(request.op is ShardStatuses) && !before.hosted().contains_key(request.group) ==> (
        routed matches AdminRouted::Answered(reply) && (reply.answer matches Answer::Admin(answer)
            && answer is Rejected)),
        other != request.group ==> after.hosted().contains_key(other)
            == before.hosted().contains_key(other) && after.hosted()[other]
            == before.hosted()[other],
        before.hosted().contains_key(request.group) && !after.hosted().contains_key(request.group)
            <==> request.op is ReleaseShard && before.hosted().contains_key(request.group)
            && !view.config.voters@.contains(view.id) && !view.config.learners@.contains(view.id),
        after.hosted().contains_key(request.group) ==> after.hosted()[request.group]
            == before.hosted()[request.group],
{
    law_a_group_goes_only_if_its_members_agree(before, request, Some(view));
    law_a_group_is_found_by_its_number(before, 0, request.group);
    if exists|i: int|
        0 <= i < before.groups@.len() && (#[trigger] before.groups@[i]).group == request.group {
        let i = choose|i: int|
            0 <= i < before.groups@.len() && (#[trigger] before.groups@[i]).group
                == request.group;
        law_a_group_is_found_by_its_number(before, i, request.group);
    }
}

/// Hosting a group adds it and leaves every other, and says whether it took
/// another's place.
pub proof fn law_hosting_is_of_one_group(
    before: Driver,
    after: Driver,
    group: Group,
    replaced: bool,
    other: GroupId,
)
    requires
        before.wf(),
        group.wf(),
        exists|d: &mut Driver| #[trigger]
            call_ensures(Driver::host, (d, group), replaced) && *d == before && *final(d) == after,
    ensures
        after.hosted().contains_key(group.group),
        after.hosted()[group.group] == group,
        replaced <==> before.hosted().contains_key(group.group),
        other != group.group ==> after.hosted().contains_key(other)
            == before.hosted().contains_key(other) && after.hosted()[other]
            == before.hosted()[other],
{
}

/// The links are brought in line when the membership moved, and else every fifty
/// ticks; after that the count starts anew.
pub proof fn law_links_are_held_against_the_membership(
    before: Driver,
    ticked: Driver,
    after: Driver,
    moved: bool,
    u: (),
    due: bool,
)
    requires
        before.ticks_since_reconcile < u32::MAX,
        exists|d: &mut Driver| #[trigger]
            call_ensures(Driver::tick, (d,), u) && *d == before && *final(d) == ticked,
        exists|d: &mut Driver| #[trigger]
            call_ensures(Driver::reconcile_due, (d, moved), due) && *d == ticked && *final(d)
                == after,
    ensures
        ticked.ticks_since_reconcile == before.ticks_since_reconcile + 1,
        due <==> moved || before.ticks_since_reconcile + 1 >= 50,
        due ==> after.ticks_since_reconcile == 0,
        !due ==> after == ticked,
        after.groups == before.groups && after.peers == before.peers,
{
}

/// What is drained: the group that was touched, if it is hosted, and every
/// hosted group where none was.
pub proof fn law_every_group_is_drained(
    driver: &Driver,
    touched: GroupId,
    one: Vec<GroupId>,
    all: Vec<GroupId>,
    i: int,
)
    requires
        driver.wf(),
        call_ensures(Driver::to_drain, (driver, Some(touched)), one),
        call_ensures(Driver::to_drain, (driver, None), all),
    ensures
        driver.hosted().contains_key(touched) ==> one@ == seq![touched],
        !driver.hosted().contains_key(touched) ==> one@.len() == 0,
        all@.len() == driver.groups@.len(),
        0 <= i < all@.len() ==> all@[i] == driver.groups@[i].group,
{
}

/// After the links were brought in line there is one to every member that the
/// groups name and that had one or whose address is known, and to nobody else.
pub proof fn law_links_after_reconciling(
    before: Driver,
    after: Driver,
    views: &Vec<NodeView>,
    links: Links,
    id: NodeId,
    i: int,
)
    requires
        before.wf(),
        before.peers@.finite(),
        views@.len() == before.groups@.len(),
        exists|d: &mut Driver| #[trigger]
            call_ensures(Driver::reconcile_peers, (d, views), links) && *d == before && *final(d)
                == after,
    ensures
        ({
            let named = exists|k: int|
                #![trigger views@[k]]
                0 <= k < views@.len() && id != views@[k].id && (views@[k].config.voters@.contains(
                    id,
                ) || views@[k].config.learners@.contains(id));
            let known = exists|j: int|
                0 <= j < before.groups@.len() && (
                #[trigger] before.groups@[j]).endpoints@.contains_key(id);
            let linked = before.peers@.contains(id);
            &&& after.peers@.contains(id) <==> named && (linked || known)
            &&& links.dropped@.contains(id) <==> linked && !named
        }),
        after.groups@.len() == before.groups@.len(),
        0 <= i < before.groups@.len() ==> after.groups@[i] == (Group {
            unreachable: after.groups@[i].unreachable,
            ..before.groups@[i]
        }),
{
    law_links_are_the_reachable_members(before, views@, id);
    law_every_member_is_to_be_reached(views@, id);
    let gone = before.peers@.filter(|n: NodeId| !reach(views@).contains(n));
    assert(gone.finite());
    crate::ids::law_a_set_is_listed_in_order(gone, 0, 0, id);
}

/// What this node reports of its shards is what each group's view says.
pub proof fn law_shards_are_reported_as_hosted(
    driver: &Driver,
    views: &Vec<NodeView>,
    statuses: Vec<ShardStatus>,
    i: int,
    shard: ShardId,
)
    requires
        views@.len() == driver.groups@.len(),
        call_ensures(Driver::shard_statuses, (driver, views), statuses),
    ensures
        0 <= i < driver.groups@.len() && shard_in(driver.groups@[i].group) == Some(shard)
            ==> exists|k: int|
            #![trigger statuses@[k]]
            0 <= k < statuses@.len() && statuses@[k].shard == shard && statuses@[k].leader
                == views@[i].leader && statuses@[k].term == views@[i].term && statuses@[k].replicas@
                == views@[i].config.voters@ && statuses@[k].learners@
                == views@[i].config.learners@ && (statuses@[k].leading <==> views@[i].role
                == Role::Leader) && statuses@[k].applied_index == driver.groups@[i].applied_index,
        statuses@.len() <= driver.groups@.len(),
{
    law_every_hosted_shard_is_reported(driver.groups@, views@, i, shard);
    let seen = status_views(statuses@);
    assert(seen.len() == statuses@.len());
    if 0 <= i < driver.groups@.len() && shard_in(driver.groups@[i].group) == Some(shard) {
        let want = StatusView {
            shard,
            leader: views@[i].leader,
            term: views@[i].term,
            replicas: views@[i].config.voters@,
            learners: views@[i].config.learners@,
            leading: views@[i].role == Role::Leader,
            applied_index: driver.groups@[i].applied_index,
        };
        assert(seen.contains(want));
        let k = choose|k: int| 0 <= k < seen.len() && seen[k] == want;
        assert(seen[k] == status_view(statuses@[k]));
    }
}

/// A driver starts with the groups and the links it is given, and is due to hold
/// the one against the other.
pub proof fn law_a_driver_starts_with_its_groups(
    groups: Vec<Group>,
    peers: BTreeSet<NodeId>,
    d: Driver,
    i: int,
)
    requires
        forall|k: int| 0 <= k < groups@.len() ==> (#[trigger] groups@[k]).wf(),
        call_ensures(Driver::new, (groups, peers), d),
    ensures
        d.peers == peers,
        d.ticks_since_reconcile == 50,
        0 <= i < groups@.len() ==> d.hosted().contains_key(groups@[i].group),
        0 <= i < groups@.len() && (forall|j: int|
            i < j < groups@.len() ==> (#[trigger] groups@[j]).group != groups@[i].group)
            ==> d.hosted()[groups@[i].group] == groups@[i],
{
    lemma_by_id_holds(groups@, i);
}

/// A list of groups holds each by its number, the last of a number alone.
proof fn lemma_by_id_holds(groups: Seq<Group>, i: int)
    ensures
        0 <= i < groups.len() ==> by_id(groups).contains_key(groups[i].group),
        0 <= i < groups.len() && (forall|j: int|
            i < j < groups.len() ==> (#[trigger] groups[j]).group != groups[i].group) ==> by_id(
            groups,
        )[groups[i].group] == groups[i],
    decreases groups.len(),
{
    if 0 <= i < groups.len() - 1 {
        let head = groups.drop_last();
        lemma_by_id_holds(head, i);
        assert(head[i] == groups[i]);
        assert(groups[groups.len() - 1] == groups.last());
        if forall|j: int| i < j < groups.len() ==> (#[trigger] groups[j]).group != groups[i].group {
            assert(groups[groups.len() - 1].group != groups[i].group);
            assert forall|j: int| i < j < head.len() implies (#[trigger] head[j]).group
                != head[i].group by {
                assert(groups[j].group != groups[i].group);
            }
        }
    }
}

/// Who is dialled is who is named and known but has no link, at the address that
/// the first group to know it gives; who is named and not known is said once, by
/// each group that names it, and the mark is taken off once it is dialled.
pub proof fn law_who_is_dialled_and_who_is_lost(
    before: Driver,
    after: Driver,
    views: &Vec<NodeView>,
    links: Links,
    id: NodeId,
    i: int,
    k: int,
)
    requires
        before.wf(),
        views@.len() == before.groups@.len(),
        to_dial(before, views@).finite(),
        exists|d: &mut Driver| #[trigger]
            call_ensures(Driver::reconcile_peers, (d, views), links) && *d == before && *final(d)
                == after,
    ensures
        to_dial(before, views@).contains(id) ==> dial_views(links.dialled@).contains(
            (id, address_of(before.groups@, id)->0),
        ),
        0 <= k < links.dialled@.len() ==> to_dial(before, views@).contains(links.dialled@[k].0)
            && address_of(before.groups@, links.dialled@[k].0) == Some(links.dialled@[k].1@),
        links.dialled@.len() == to_dial(before, views@).len(),
{
    let wanted = to_dial(before, views@);
    let listed = in_order(wanted);
    let seen = dial_views(links.dialled@);
    crate::ids::law_a_set_is_listed_in_order(wanted, 0, 0, id);
    assert(seen.len() == links.dialled@.len());
    if wanted.contains(id) {
        let at = choose|at: int| 0 <= at < listed.len() && listed[at] == id;
        assert(seen[at] == (id, address_of(before.groups@, id)->0));
    }
    if 0 <= k < links.dialled@.len() {
        let who = listed[k];
        assert(listed.contains(who));
        crate::ids::law_a_set_is_listed_in_order(wanted, 0, 0, who);
        assert(seen[k] == (links.dialled@[k].0, links.dialled@[k].1@));
        law_links_are_the_reachable_members(before, views@, who);
        law_the_first_group_that_knows_says(before.groups@, who, 0);
    }
}

} // verus!
