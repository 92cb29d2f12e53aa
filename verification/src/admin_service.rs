//! The service that operators call.
//!
//! Membership changes are log entries, so a handler hands its request to the
//! driver that owns the group and says the answer in the service's words.

use std::collections::BTreeMap;

use vstd::prelude::*;
use vstd::string::*;

use crate::driver::{AdminReply, ClientOp, ClientReply, ClusterStatus, ShardStatus};
use crate::group::{GroupId, META};
use crate::ids::{in_order, members_of};
use crate::kv_service::{hint_of, not_leader, says, sheds, show, shown, Call, Code, NotLeader, Status};
use crate::membership::book;
use crate::shard_map::{ShardMap, SHARD_MAP_KEY};
use crate::text::join_text;
use crate::types::{copy_ids, LogIndex, NodeId, Term};

verus! {

broadcast use {vstd::std_specs::btree::group_btree_axioms, vstd::laws_cmp::group_laws_cmp};

/// The answer to a change of the membership: where it committed, or who leads.
#[derive(Debug, PartialEq, Eq)]
pub struct ChangeResponse {
    pub not_leader: Option<NotLeader>,
    pub index: LogIndex,
}

/// One member of the cluster. Its address is empty where it is not known.
#[derive(Debug, PartialEq, Eq)]
pub struct Member {
    pub node_id: NodeId,
    pub address: String,
    pub voter: bool,
}

/// One shard that the answering node hosts. No leader known is 0.
#[derive(Debug, PartialEq, Eq)]
pub struct ShardReport {
    pub shard_id: u32,
    pub leader_id: NodeId,
    pub replicas: Vec<NodeId>,
    pub term: Term,
    pub leading: bool,
    pub applied_index: LogIndex,
}

/// What one replica thinks the cluster is.
#[derive(Debug, PartialEq, Eq)]
pub struct ClusterStatusResponse {
    pub node_id: NodeId,
    pub leader_id: NodeId,
    pub term: Term,
    pub members: Vec<Member>,
    pub commit_index: LogIndex,
    pub applied_index: LogIndex,
    pub log_first_index: LogIndex,
    pub log_last_index: LogIndex,
    pub shards: Vec<ShardReport>,
}

/// The placement. Version 0 says that there is none yet.
#[derive(Debug, PartialEq, Eq)]
pub struct GetShardMapResponse {
    pub not_leader: Option<NotLeader>,
    pub version: u64,
    pub num_shards: u32,
    pub replication_factor: u32,
    pub nodes: Vec<NodeId>,
    pub shards: Vec<Vec<NodeId>>,
}

/// What a reader of the map gets, or what has to be asked first.
#[derive(Debug)]
pub enum MapAsk {
    Answer(GetShardMapResponse),
    /// Ask this of this group.
    ReadMeta { group: GroupId, op: ClientOp },
}

/// What reading the map through the meta group came to.
#[derive(Debug)]
pub enum MapRead {
    Answer(GetShardMapResponse),
    /// Decode the map in these bytes.
    Stored(Vec<u8>),
}

/// The service.
#[derive(Debug, Clone, Copy, PartialEq, Eq, Structural)]
pub struct AdminApi;

/// A member as a mathematical value: its id, its address and whether it votes.
pub open spec fn member_view(m: Member) -> (NodeId, Seq<char>, bool) {
    (m.node_id, m.address@, m.voter)
}

/// Members as mathematical values.
pub open spec fn member_views(members: Seq<Member>) -> Seq<(NodeId, Seq<char>, bool)> {
    members.map_values(|m: Member| member_view(m))
}

/// What is said of each of `ids`.
pub open spec fn told(ids: Seq<NodeId>, addresses: Map<NodeId, Seq<char>>, voter: bool) -> Seq<
    (NodeId, Seq<char>, bool),
> {
    ids.map_values(
        |id: NodeId|
            (
                id,
                if addresses.contains_key(id) {
                    addresses[id]
                } else {
                    Seq::empty()
                },
                voter,
            ),
    )
}

/// Whether a report is the one of a status.
pub open spec fn reports(report: ShardReport, status: ShardStatus) -> bool {
    &&& report.shard_id == status.shard
    &&& report.leader_id == hint_of(status.leader).leader_hint
    &&& report.replicas@ == status.replicas@
    &&& report.term == status.term
    &&& report.leading == status.leading
    &&& report.applied_index == status.applied_index
}

/// Appends what is said of each of `ids`.
fn tell(
    members: &mut Vec<Member>,
    ids: &Vec<NodeId>,
    endpoints: &BTreeMap<NodeId, String>,
    voter: bool,
)
    ensures
        member_views(final(members)@) == member_views(old(members)@) + told(
            ids@,
            book(endpoints@),
            voter,
        ),
{
    let ghost before = member_views(members@);
    let ghost all = told(ids@, book(endpoints@), voter);
    let mut i: usize = 0;
    assert(before + all.take(0) =~= before);
    while i < ids.len()
        invariant
            i <= ids@.len(),
            all == told(ids@, book(endpoints@), voter),
            member_views(members@) == before + all.take(i as int),
        decreases ids@.len() - i,
    {
        let id: NodeId = ids[i];
        let address = match endpoints.get(&id) {
            Some(address) => address.clone(),
            None => String::new(),
        };
        let ghost listed = members@;
        let member = Member { node_id: id, address, voter };
        members.push(member);
        proof {
            assert(member_views(members@) =~= member_views(listed).push(member_view(member)));
            assert(member_view(member).1 =~= all[i as int].1);
            assert(all.take(i + 1) =~= all.take(i as int).push(all[i as int]));
            assert(member_views(members@) =~= before + all.take(i + 1));
        }
        i += 1;
    }
    assert(all.take(i as int) =~= all);
}

/// The answer to a change of the membership.
pub open spec fn change_answered(
    r: Result<ChangeResponse, Status>,
    call: Call<AdminReply>,
) -> bool {
    match call {
        Call::Answered(AdminReply::Accepted { index }) => r == Ok::<_, Status>(
            ChangeResponse { not_leader: None, index },
        ),
        Call::Answered(AdminReply::NotLeader { hint }) => r == Ok::<_, Status>(
            ChangeResponse { not_leader: Some(hint_of(hint)), index: 0 },
        ),
        // Wrong wherever it is sent, so an operator's tool stops here.
        Call::Answered(AdminReply::Rejected { reason }) => r == Err::<ChangeResponse, _>(
            Status { code: Code::FailedPrecondition, message: reason },
        ),
        Call::Answered(_) => r matches Err(status) && says(
            status,
            Code::Internal,
            "driver answered the wrong request"@,
        ),
        _ => r matches Err(status) && sheds(status, call, "admin request queue full"@),
    }
}

/// An answer that places no shard.
pub open spec fn places_nothing(response: GetShardMapResponse) -> bool {
    &&& response.version == 0
    &&& response.num_shards == 0
    &&& response.replication_factor == 0
    &&& response.nodes@.len() == 0
    &&& response.shards@.len() == 0
}

/// Whether an answer is the one that a map makes: the map whole, or version 0
/// where there is none.
pub open spec fn answers_map(response: GetShardMapResponse, map: Option<&ShardMap>) -> bool {
    &&& response.not_leader is None
    &&& match map {
        None => places_nothing(response),
        Some(m) => {
            &&& response.version == m.version
            &&& response.num_shards == m.num_shards
            &&& response.replication_factor == m.replication_factor
            &&& response.nodes@ == in_order(m.nodes@)
            &&& response.shards@.len() == m.shards@.len()
            &&& forall|i: int|
                0 <= i < m.shards@.len() ==> (#[trigger] response.shards@[i])@ == m.shards@[i]@
        },
    }
}

impl AdminApi {
    /// Refuses to admit a node that nobody could reach.
    pub fn check_address(address: &str) -> (r: Result<(), Status>)
        ensures
            match r {
                Ok(()) => address@.len() > 0,
                Err(status) => address@.len() == 0 && says(
                    status,
                    Code::InvalidArgument,
                    "a node needs an address to be reachable"@,
                ),
            },
    {
        if address.unicode_len() == 0 {
            return Err(
                Status::new(Code::InvalidArgument, "a node needs an address to be reachable"),
            );
        }
        Ok(())
    }

    /// Answers an admission or a removal, by what the meta group's driver said.
    /// A node that is admitted replicates and does not vote yet.
    pub fn change(call: Call<AdminReply>) -> (r: Result<ChangeResponse, Status>)
        ensures
            change_answered(r, call),
    {
        match call {
            Call::QueueFull => Err(Status::new(Code::ResourceExhausted, "admin request queue full")),
            Call::Closed => Err(Status::new(Code::Unavailable, "node is shutting down")),
            Call::Answered(reply) => match reply {
                AdminReply::Accepted { index } => Ok(ChangeResponse { not_leader: None, index }),
                AdminReply::NotLeader { hint } => Ok(
                    ChangeResponse { not_leader: Some(not_leader(hint)), index: 0 },
                ),
                AdminReply::Rejected { reason } => Err(
                    Status { code: Code::FailedPrecondition, message: reason },
                ),
                _ => Err(Status::new(Code::Internal, "driver answered the wrong request")),
            },
        }
    }

    /// What this node carries, shard by shard. A driver that cannot be asked
    /// leaves the list empty: an operator asks when something is already wrong,
    /// and a refusal would remove the tool.
    pub fn shard_statuses(call: Call<AdminReply>) -> (statuses: Vec<ShardStatus>)
        ensures
            match call {
                Call::Answered(AdminReply::ShardStatuses(s)) => statuses == s,
                _ => statuses@.len() == 0,
            },
    {
        match call {
            Call::Answered(AdminReply::ShardStatuses(statuses)) => statuses,
            _ => Vec::new(),
        }
    }

    /// Answers what this replica thinks the cluster is. Any node answers,
    /// leading or not: that is how a split view is found.
    pub fn cluster_status(call: Call<AdminReply>, shards: &Vec<ShardStatus>) -> (r: Result<
        ClusterStatusResponse,
        Status,
    >)
        ensures
            match call {
                Call::Answered(AdminReply::Status(status)) => {
                    &&& r matches Ok(response)
                    &&& response.node_id == status.id
                    &&& response.leader_id == hint_of(status.leader).leader_hint
                    &&& response.term == status.term
                    &&& member_views(response.members@) == told(
                        status.voters@,
                        book(status.endpoints@),
                        true,
                    ) + told(status.learners@, book(status.endpoints@), false)
                    &&& response.commit_index == status.commit_index
                    &&& response.applied_index == status.applied_index
                    &&& response.log_first_index == status.log_first_index
                    &&& response.log_last_index == status.log_last_index
                    &&& response.shards@.len() == shards@.len()
                    &&& forall|i: int|
                        0 <= i < shards@.len() ==> reports(
                            #[trigger] response.shards@[i],
                            shards@[i],
                        )
                },
                Call::Answered(_) => r matches Err(status) && says(
                    status,
                    Code::Internal,
                    "driver answered the wrong request"@,
                ),
                _ => r matches Err(status) && sheds(status, call, "admin request queue full"@),
            },
    {
        let status = match call {
            Call::QueueFull => {
                return Err(Status::new(Code::ResourceExhausted, "admin request queue full"));
            },
            Call::Closed => {
                return Err(Status::new(Code::Unavailable, "node is shutting down"));
            },
            Call::Answered(AdminReply::Status(status)) => status,
            Call::Answered(_) => {
                return Err(Status::new(Code::Internal, "driver answered the wrong request"));
            },
        };
        let mut members: Vec<Member> = Vec::new();
        assert(member_views(members@) =~= Seq::<(NodeId, Seq<char>, bool)>::empty());
        tell(&mut members, &status.voters, &status.endpoints, true);
        tell(&mut members, &status.learners, &status.endpoints, false);
        let mut reported: Vec<ShardReport> = Vec::new();
        let mut i: usize = 0;
        while i < shards.len()
            invariant
                i <= shards@.len(),
                reported@.len() == i,
                forall|j: int| 0 <= j < i ==> reports(#[trigger] reported@[j], shards@[j]),
            decreases shards@.len() - i,
        {
            let s = &shards[i];
            reported.push(
                ShardReport {
                    shard_id: s.shard as u32,
                    leader_id: not_leader(s.leader).leader_hint,
                    replicas: copy_ids(&s.replicas),
                    term: s.term,
                    leading: s.leading,
                    applied_index: s.applied_index,
                },
            );
            i += 1;
        }
        Ok(
            ClusterStatusResponse {
                node_id: status.id,
                leader_id: not_leader(status.leader).leader_hint,
                term: status.term,
                members,
                commit_index: status.commit_index,
                applied_index: status.applied_index,
                log_first_index: status.log_first_index,
                log_last_index: status.log_last_index,
                shards: reported,
            },
        )
    }

    /// Takes in a reader of the map: `published` is the map as this node has it,
    /// which any replica can answer with at once; `linearizable` asks for the
    /// map as the meta group can confirm it, and nothing else will do.
    pub fn get_shard_map(linearizable: bool, published: Option<&ShardMap>) -> (r: MapAsk)
        ensures
            if linearizable {
                &&& r matches MapAsk::ReadMeta { group, op: ClientOp::Get { key } }
                &&& group == META
                &&& key@ == SHARD_MAP_KEY@
            } else {
                r matches MapAsk::Answer(response) && answers_map(response, published)
            },
    {
        if linearizable {
            MapAsk::ReadMeta { group: META, op: ClientOp::get(&SHARD_MAP_KEY) }
        } else {
            MapAsk::Answer(Self::map_response(published))
        }
    }

    /// Takes in what reading the map through the meta group came to. Only the
    /// meta leader can answer, and a deposed one cannot.
    pub fn map_read(call: Call<ClientReply>) -> (r: Result<MapRead, Status>)
        ensures
            match call {
                Call::Answered(ClientReply::Value(Some(bytes))) => r == Ok::<_, Status>(
                    MapRead::Stored(bytes),
                ),
                Call::Answered(ClientReply::Value(None)) => r matches Ok(MapRead::Answer(response))
                    && answers_map(response, None),
                Call::Answered(ClientReply::NotLeader { hint }) => {
                    &&& r matches Ok(MapRead::Answer(response))
                    &&& response.not_leader == Some(hint_of(hint))
                    &&& places_nothing(response)
                },
                Call::Answered(other) => r matches Err(status) && says(
                    status,
                    Code::Internal,
                    "meta driver answered with "@ + shown(other),
                ),
                _ => r matches Err(status) && sheds(status, call, "meta request queue full"@),
            },
    {
        match call {
            Call::QueueFull => Err(Status::new(Code::ResourceExhausted, "meta request queue full")),
            Call::Closed => Err(Status::new(Code::Unavailable, "node is shutting down")),
            Call::Answered(reply) => match reply {
                ClientReply::Value(Some(bytes)) => Ok(MapRead::Stored(bytes)),
                ClientReply::Value(None) => Ok(MapRead::Answer(Self::map_response(None))),
                ClientReply::NotLeader { hint } => Ok(
                    MapRead::Answer(
                        GetShardMapResponse {
                            not_leader: Some(not_leader(hint)),
                            version: 0,
                            num_shards: 0,
                            replication_factor: 0,
                            nodes: Vec::new(),
                            shards: Vec::new(),
                        },
                    ),
                ),
                other => {
                    let text = show(&other);
                    Err(
                        Status {
                            code: Code::Internal,
                            message: join_text("meta driver answered with ", &text),
                        },
                    )
                },
            },
        }
    }

    /// Answers with the map that the stored bytes decode to, or says why they
    /// do not.
    pub fn map_decoded(decoded: Result<ShardMap, String>) -> (r: Result<
        GetShardMapResponse,
        Status,
    >)
        ensures
            match decoded {
                Ok(map) => r matches Ok(response) && answers_map(response, Some(&map)),
                Err(error) => r matches Err(status) && says(
                    status,
                    Code::Internal,
                    "stored shard map: "@ + error@,
                ),
            },
    {
        match decoded {
            Ok(map) => Ok(Self::map_response(Some(&map))),
            Err(error) => Err(
                Status { code: Code::Internal, message: join_text("stored shard map: ", &error) },
            ),
        }
    }

    /// The answer that a map makes. Where there is none, version 0 says so
    /// without inventing a placement.
    pub fn map_response(map: Option<&ShardMap>) -> (response: GetShardMapResponse)
        ensures
            answers_map(response, map),
    {
        match map {
            None => GetShardMapResponse {
                not_leader: None,
                version: 0,
                num_shards: 0,
                replication_factor: 0,
                nodes: Vec::new(),
                shards: Vec::new(),
            },
            Some(m) => {
                let mut shards: Vec<Vec<NodeId>> = Vec::new();
                let mut i: usize = 0;
                while i < m.shards.len()
                    invariant
                        i <= m.shards@.len(),
                        shards@.len() == i,
                        forall|j: int| 0 <= j < i ==> (#[trigger] shards@[j])@ == m.shards@[j]@,
                    decreases m.shards@.len() - i,
                {
                    shards.push(copy_ids(&m.shards[i]));
                    i += 1;
                }
                GetShardMapResponse {
                    not_leader: None,
                    version: m.version,
                    num_shards: m.num_shards as u32,
                    replication_factor: m.replication_factor as u32,
                    nodes: members_of(&m.nodes),
                    shards,
                }
            },
        }
    }

    /// Says that shards cannot be verified yet.
    pub fn verify_shard() -> (status: Status)
        ensures
            says(status, Code::Unimplemented, "shard verification arrives with M12"@),
    {
        Status::new(Code::Unimplemented, "shard verification arrives with M12")
    }
}

/// An operator is told what became of a change: where it stands in the log once it
/// committed, who leads where this node does not, and why it was refused, in the
/// group's own words; and a shed request and an absent driver are told apart.
pub proof fn law_an_operator_is_told_what_became_of_a_change(
    r: Result<ChangeResponse, Status>,
    call: Call<AdminReply>,
)
    requires
        change_answered(r, call),
    ensures
        call matches Call::Answered(AdminReply::Accepted { index }) ==> (r matches Ok(response)
            && response.index == call->Answered_0->Accepted_index && response.not_leader is None),
        call matches Call::Answered(AdminReply::NotLeader { hint }) ==> (r matches Ok(response) && {
            &&& response.index == 0
            &&& response.not_leader is Some
            &&& hint matches Some(id) ==> (response.not_leader->0).leader_hint == id
            &&& hint is None ==> (response.not_leader->0).leader_hint == 0
        }),
        call matches Call::Answered(AdminReply::Rejected { reason }) ==> (r matches Err(status)
            && status.code == Code::FailedPrecondition && status.message@ == reason@),
        r matches Ok(response) && response.not_leader is None ==> call matches Call::Answered(
            AdminReply::Accepted { .. },
        ),
        call is QueueFull ==> (r matches Err(status) && status.code == Code::ResourceExhausted),
        call is Closed ==> (r matches Err(status) && status.code == Code::Unavailable),
{
}

/// Every member is listed with where it lives, as far as anybody knows, and
/// whether it votes.
pub proof fn law_every_member_is_listed(
    ids: Seq<NodeId>,
    addresses: Map<NodeId, Seq<char>>,
    voter: bool,
    i: int,
)
    requires
        0 <= i < ids.len(),
    ensures
        told(ids, addresses, voter).len() == ids.len(),
        told(ids, addresses, voter)[i].0 == ids[i],
        told(ids, addresses, voter)[i].2 == voter,
        addresses.contains_key(ids[i]) ==> told(ids, addresses, voter)[i].1 == addresses[ids[i]],
        !addresses.contains_key(ids[i]) ==> told(ids, addresses, voter)[i].1.len() == 0,
{
}

/// A shard is reported as its status says, and a leader that nobody knows as 0.
pub proof fn law_a_report_is_its_status(report: ShardReport, status: ShardStatus)
    requires
        reports(report, status),
    ensures
        report.shard_id == status.shard,
        status.leader matches Some(id) ==> report.leader_id == id,
        status.leader is None ==> report.leader_id == 0,
        report.replicas@ == status.replicas@,
        report.term == status.term,
        report.leading == status.leading,
        report.applied_index == status.applied_index,
{
}

/// A reader of the map is given all of it: the version, the parameters, every
/// node and every shard's replicas; and where there is no map, no placement is
/// made up and version 0 says so.
pub proof fn law_the_whole_map_is_given(
    response: GetShardMapResponse,
    map: Option<&ShardMap>,
    shard: int,
    id: NodeId,
)
    requires
        answers_map(response, map),
        map matches Some(m) ==> m.nodes@.finite(),
    ensures
        response.not_leader is None,
        map matches Some(m) ==> {
            &&& response.version == m.version
            &&& response.num_shards == m.num_shards
            &&& response.replication_factor == m.replication_factor
            &&& response.nodes@.contains(id) <==> m.nodes@.contains(id)
            &&& response.shards@.len() == m.shards@.len()
            &&& 0 <= shard < m.shards@.len() ==> response.shards@[shard]@ == m.shards@[shard]@
        },
        map is None ==> {
            &&& response.version == 0
            &&& response.num_shards == 0
            &&& response.replication_factor == 0
            &&& response.nodes@.len() == 0
            &&& response.shards@.len() == 0
        },
{
    match map {
        Some(m) => {
            crate::ids::lemma_in_order_exists(m.nodes@);
            assert(in_order(m.nodes@).to_set().contains(id) <==> m.nodes@.contains(id));
        },
        None => {},
    }
}

/// A member is seen whole: who it is, where it lives and whether it votes.
pub proof fn law_a_member_is_seen_whole(members: Seq<Member>, i: int)
    ensures
        member_views(members).len() == members.len(),
        0 <= i < members.len() ==> member_views(members)[i] == (
            members[i].node_id,
            members[i].address@,
            members[i].voter,
        ),
{
}

/// What an operator is told of the cluster: this node's own view, with every
/// voter and then every learner at its address, and every shard as it is hosted.
pub proof fn law_an_operator_sees_the_cluster(
    status: ClusterStatus,
    shards: &Vec<ShardStatus>,
    r: Result<ClusterStatusResponse, Status>,
    i: int,
)
    requires
        call_ensures(
            AdminApi::cluster_status,
            (Call::Answered(AdminReply::Status(status)), shards),
            r,
        ),
    ensures
        r matches Ok(response) && {
            &&& response.node_id == status.id
            &&& status.leader matches Some(id) ==> response.leader_id == id
            &&& status.leader is None ==> response.leader_id == 0
            &&& response.term == status.term
            &&& response.commit_index == status.commit_index
            &&& response.applied_index == status.applied_index
            &&& response.log_first_index == status.log_first_index
            &&& response.log_last_index == status.log_last_index
            &&& response.members@.len() == status.voters@.len() + status.learners@.len()
            &&& 0 <= i < status.voters@.len() ==> response.members@[i].node_id == status.voters@[i]
                && response.members@[i].voter && (status.endpoints@.contains_key(status.voters@[i])
                ==> response.members@[i].address@ == status.endpoints@[status.voters@[i]]@)
            &&& 0 <= i < status.learners@.len() ==> {
                let member = response.members@[status.voters@.len() + i];
                &&& member.node_id == status.learners@[i]
                &&& !member.voter
                &&& status.endpoints@.contains_key(status.learners@[i]) ==> member.address@
                    == status.endpoints@[status.learners@[i]]@
            }
            &&& response.shards@.len() == shards@.len()
            &&& 0 <= i < shards@.len() ==> response.shards@[i].shard_id == shards@[i].shard
                && response.shards@[i].replicas@ == shards@[i].replicas@
                && response.shards@[i].leading == shards@[i].leading && response.shards@[i].term
                == shards@[i].term
        },
{
    let endpoints = book(status.endpoints@);
    match r {
        Ok(response) => {
            let views = member_views(response.members@);
            assert(views.len() == response.members@.len());
            if 0 <= i < status.voters@.len() {
                law_every_member_is_listed(status.voters@, endpoints, true, i);
                assert(views[i] == member_views(response.members@)[i]);
                law_a_member_is_seen_whole(response.members@, i);
            }
            if 0 <= i < status.learners@.len() {
                let at = status.voters@.len() + i;
                law_every_member_is_listed(status.learners@, endpoints, false, i);
                assert(told(status.voters@, endpoints, true).len() == status.voters@.len());
                assert(views[at] == told(status.learners@, endpoints, false)[i]);
                law_a_member_is_seen_whole(response.members@, at);
            }
            if 0 <= i < shards@.len() {
                law_a_report_is_its_status(response.shards@[i], shards@[i]);
            }
        },
        Err(_) => {},
    }
}

/// Only an answer to the very question is passed on: any other, a full queue and
/// a node that shuts down are refusals, and a node without shards lists none.
pub proof fn law_only_the_answer_asked_for_is_passed_on(
    call: Call<AdminReply>,
    shards: &Vec<ShardStatus>,
    status: Result<ClusterStatusResponse, Status>,
    change: Result<ChangeResponse, Status>,
    statuses: Vec<ShardStatus>,
)
    requires
        call_ensures(AdminApi::cluster_status, (call, shards), status),
        call_ensures(AdminApi::change, (call,), change),
        call_ensures(AdminApi::shard_statuses, (call,), statuses),
    ensures
        status is Ok <==> (call matches Call::Answered(AdminReply::Status(_))),
        change is Ok <==> (call matches Call::Answered(AdminReply::Accepted { .. }))
            || (call matches Call::Answered(AdminReply::NotLeader { .. })),
        call matches Call::Answered(AdminReply::Accepted { index }) ==> (change matches Ok(c)
            && c.index == call->Answered_0->Accepted_index),
        call matches Call::Answered(AdminReply::ShardStatuses(s)) ==> statuses == s,
        !(call matches Call::Answered(AdminReply::ShardStatuses(_))) ==> statuses@.len() == 0,
        call is QueueFull ==> status->Err_0.code == Code::ResourceExhausted,
        call is Closed ==> status->Err_0.code == Code::Unavailable,
{
}

/// The map is given as this node has it, or, where it must be up to date, as the
/// meta group reads it: a client of a meta group that does not lead is told who
/// does.
pub proof fn law_the_map_is_read_where_it_must_be(
    linearizable: bool,
    published: Option<&ShardMap>,
    ask: MapAsk,
    call: Call<ClientReply>,
    read: Result<MapRead, Status>,
    decoded: Result<ShardMap, String>,
    given: Result<GetShardMapResponse, Status>,
    address: &str,
    checked: Result<(), Status>,
)
    requires
        call_ensures(AdminApi::get_shard_map, (linearizable, published), ask),
        call_ensures(AdminApi::map_read, (call,), read),
        call_ensures(AdminApi::map_decoded, (decoded,), given),
        call_ensures(AdminApi::check_address, (address,), checked),
    ensures
        linearizable ==> (ask matches MapAsk::ReadMeta { group, op: ClientOp::Get { key } } && group
            == 1 && key@ == SHARD_MAP_KEY@),
        !linearizable ==> (ask matches MapAsk::Answer(response) && answers_map(response, published)),
        call matches Call::Answered(ClientReply::Value(Some(bytes))) ==> read == Ok::<_, Status>(
            MapRead::Stored(bytes),
        ),
        call == Call::Answered(ClientReply::Value(None)) ==> (read matches Ok(MapRead::Answer(
            response,
        )) && answers_map(response, None)),
        call matches Call::Answered(ClientReply::NotLeader { hint }) ==> (read matches Ok(
            MapRead::Answer(response),
        ) && response.version == 0 && response.shards@.len() == 0 && (
        response.not_leader matches Some(n) && (match hint {
            Some(id) => n.leader_hint == id,
            None => n.leader_hint == 0,
        }))),
        call is QueueFull || call is Closed ==> read is Err,
        decoded matches Ok(map) ==> (given matches Ok(response) && answers_map(response, Some(&map))),
        decoded is Err <==> given is Err,
        checked is Ok <==> address@.len() > 0,
{
}

} // verus!
