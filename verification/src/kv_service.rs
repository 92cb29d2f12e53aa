//! The service that clients call.
//!
//! A handler turns its request into one for the group that holds the key, waits
//! for the answer, and says it in the service's words. Not leading and not
//! hosting are ordinary answers: reported as errors, they would have a client
//! drop the connection instead of following the hint.

use vstd::prelude::*;
use vstd::string::*;

use crate::driver::ClientReply;
use crate::group::GroupId;
use crate::router::{self, Route};
use crate::session::{is_reserved, reserved};
use crate::shard_map::{replicas_in, ShardMap};
use crate::text::{as_chars, decimal, decimal_text, join_text};
use crate::types::{NodeId, ShardId};

verus! {

/// What kind of refusal a call meets.
#[derive(Debug, Clone, Copy, PartialEq, Eq, Structural)]
pub enum Code {
    InvalidArgument,
    ResourceExhausted,
    Unavailable,
    FailedPrecondition,
    Internal,
    Unimplemented,
}

/// Why a call is refused.
#[derive(Debug, PartialEq, Eq)]
pub struct Status {
    pub code: Code,
    pub message: String,
}

impl Status {
    pub fn new(code: Code, message: &str) -> (s: Status)
        ensures
            s.code == code,
            s.message@ == message@,
    {
        Status { code, message: message.to_owned() }
    }
}

/// Whether a refusal says this.
pub open spec fn says(status: Status, code: Code, message: Seq<char>) -> bool {
    status.code == code && status.message@ == message
}

/// Another node leads the shard. Ids start at 1, so 0 says that no leader is
/// known: the client then looks around instead of following a hint to nowhere.
#[derive(Debug, Clone, Copy, PartialEq, Eq, Structural)]
pub struct NotLeader {
    pub leader_hint: u64,
}

/// Other nodes hold the shard: these, by the map of that version. Version 0 says
/// that this node has no map yet.
#[derive(Debug, PartialEq, Eq)]
pub struct NotHosted {
    pub shard_id: u32,
    pub replicas: Vec<NodeId>,
    pub map_version: u64,
}

#[derive(Debug, PartialEq, Eq)]
pub struct GetResponse {
    pub value: Option<Vec<u8>>,
    pub not_leader: Option<NotLeader>,
    pub not_hosted: Option<NotHosted>,
}

/// The answer to a write. `swapped` is for a compare-and-swap; another write
/// has no such answer and says `true` once it took effect.
#[derive(Debug, PartialEq, Eq)]
pub struct WriteResponse {
    pub swapped: bool,
    pub not_leader: Option<NotLeader>,
    pub not_hosted: Option<NotHosted>,
}

/// What handing a request to a driver and waiting came to.
#[derive(Debug)]
pub enum Call<R> {
    /// Its queue is full. The request is shed rather than awaited: a slow
    /// driver must not pin every inbound connection.
    QueueFull,
    /// It went away.
    Closed,
    Answered(R),
}

/// Whether a request may go ahead, and where.
#[derive(Debug)]
pub enum Admission {
    /// This node hosts the key's shard: ask its group.
    Ask(GroupId),
    Elsewhere(NotHosted),
    Refused(Status),
}

/// Which write is answered.
#[derive(Debug, Clone, Copy, PartialEq, Eq, Structural)]
pub enum WriteKind {
    Put,
    Delete,
    Cas,
}

/// The hint that an answer carries.
pub open spec fn hint_of(leader: Option<NodeId>) -> NotLeader {
    NotLeader {
        leader_hint: match leader {
            Some(id) => id,
            None => 0,
        },
    }
}

/// The hint that an answer carries.
pub fn not_leader(leader: Option<NodeId>) -> (n: NotLeader)
    ensures
        n == hint_of(leader),
{
    NotLeader {
        leader_hint: match leader {
            Some(id) => id,
            None => 0,
        },
    }
}

/// Whether an answer points a client at the nodes that hold a shard.
pub open spec fn points_at(n: NotHosted, map: Option<&ShardMap>, shard: ShardId) -> bool {
    &&& n.shard_id == shard
    &&& n.replicas@ == match map {
        Some(m) => replicas_in(m.shards@, shard),
        None => Seq::empty(),
    }
    &&& n.map_version == match map {
        Some(m) => m.version,
        None => 0,
    }
}

/// Points a client at the nodes that hold a shard.
pub fn not_hosted(map: Option<&ShardMap>, shard: ShardId) -> (n: NotHosted)
    ensures
        points_at(n, map, shard),
{
    match map {
        Some(m) => NotHosted {
            shard_id: shard as u32,
            replicas: m.replicas(shard),
            map_version: m.version,
        },
        None => NotHosted { shard_id: shard as u32, replicas: Vec::new(), map_version: 0 },
    }
}

/// Numbers in a row, with commas between.
pub open spec fn listed(bytes: Seq<u8>) -> Seq<char>
    decreases bytes.len(),
{
    if bytes.len() == 0 {
        Seq::empty()
    } else if bytes.len() == 1 {
        as_chars(decimal(bytes[0] as nat))
    } else {
        listed(bytes.drop_last()) + ", "@ + as_chars(decimal(bytes.last() as nat))
    }
}

/// A reply as it is shown in a message.
pub open spec fn shown(reply: ClientReply) -> Seq<char> {
    match reply {
        ClientReply::Value(None) => "Value(None)"@,
        ClientReply::Value(Some(bytes)) => "Value(Some(["@ + listed(bytes@) + "]))"@,
        ClientReply::Applied => "Applied"@,
        ClientReply::Swapped(swapped) => if swapped {
            "Swapped(true)"@
        } else {
            "Swapped(false)"@
        },
        ClientReply::NotLeader { hint: None } => "NotLeader { hint: None }"@,
        ClientReply::NotLeader { hint: Some(id) } => "NotLeader { hint: Some("@ + as_chars(
            decimal(id as nat),
        ) + ") }"@,
        ClientReply::NotHosted { shard } => "NotHosted { shard: "@ + as_chars(
            decimal(shard as nat),
        ) + " }"@,
    }
}

/// A reply as it is shown in a message.
pub fn show(reply: &ClientReply) -> (text: String)
    ensures
        text@ == shown(*reply),
{
    match reply {
        ClientReply::Value(None) => "Value(None)".to_owned(),
        ClientReply::Value(Some(bytes)) => {
            let mut text = "Value(Some([".to_owned();
            let ghost start = text@;
            let mut i: usize = 0;
            assert(bytes@.take(0) =~= Seq::<u8>::empty());
            assert(text@ =~= start + listed(bytes@.take(0)));
            while i < bytes.len()
                invariant
                    i <= bytes@.len(),
                    text@ == start + listed(bytes@.take(i as int)),
                decreases bytes@.len() - i,
            {
                let ghost before = text@;
                if i > 0 {
                    text.append(", ");
                }
                text.append(decimal_text(bytes[i] as u64).as_str());
                proof {
                    let next = bytes@.take(i + 1);
                    assert(next.drop_last() =~= bytes@.take(i as int));
                    assert(next.last() == bytes@[i as int]);
                    if i == 0 {
                        assert(next[0] == bytes@[0]);
                        assert(listed(bytes@.take(0)) =~= Seq::<char>::empty());
                    }
                    assert(text@ =~= start + listed(next));
                }
                i += 1;
            }
            assert(bytes@.take(i as int) =~= bytes@);
            text.append("]))");
            text
        },
        ClientReply::Applied => "Applied".to_owned(),
        ClientReply::Swapped(swapped) => {
            if *swapped {
                "Swapped(true)".to_owned()
            } else {
                "Swapped(false)".to_owned()
            }
        },
        ClientReply::NotLeader { hint: None } => "NotLeader { hint: None }".to_owned(),
        ClientReply::NotLeader { hint: Some(id) } => {
            let mut text = "NotLeader { hint: Some(".to_owned();
            text.append(decimal_text(*id).as_str());
            text.append(") }");
            text
        },
        ClientReply::NotHosted { shard } => {
            let mut text = "NotHosted { shard: ".to_owned();
            text.append(decimal_text(*shard as u64).as_str());
            text.append(" }");
            text
        },
    }
}

/// The service, on one node.
#[derive(Debug, Clone, Copy, PartialEq, Eq, Structural)]
pub struct KvApi {
    pub me: NodeId,
}

/// What a full queue and an absent driver are refused with.
pub open spec fn sheds<R>(status: Status, call: Call<R>, queue: Seq<char>) -> bool {
    match call {
        Call::QueueFull => says(status, Code::ResourceExhausted, queue),
        Call::Closed => says(status, Code::Unavailable, "node is shutting down"@),
        Call::Answered(_) => false,
    }
}

/// The answer to a read.
pub open spec fn get_answered(
    r: Result<GetResponse, Status>,
    map: Option<&ShardMap>,
    call: Call<ClientReply>,
) -> bool {
    match call {
        Call::Answered(ClientReply::Value(value)) => r == Ok::<_, Status>(
            GetResponse { value, not_leader: None, not_hosted: None },
        ),
        Call::Answered(ClientReply::NotLeader { hint }) => r == Ok::<_, Status>(
            GetResponse { value: None, not_leader: Some(hint_of(hint)), not_hosted: None },
        ),
        Call::Answered(ClientReply::NotHosted { shard }) => r matches Ok(response)
            && response.value is None && response.not_leader is None && (
        response.not_hosted matches Some(n) && points_at(n, map, shard)),
        Call::Answered(other) => r matches Err(status) && says(
            status,
            Code::Internal,
            "driver answered a get with "@ + shown(other),
        ),
        _ => r matches Err(status) && sheds(status, call, "client request queue full"@),
    }
}

/// How a message names a write.
pub open spec fn kind_name(kind: WriteKind) -> Seq<char> {
    match kind {
        WriteKind::Put => "driver answered a put with "@,
        WriteKind::Delete => "driver answered a delete with "@,
        WriteKind::Cas => "driver answered a cas with "@,
    }
}

/// The answer to a write.
pub open spec fn write_answered(
    r: Result<WriteResponse, Status>,
    map: Option<&ShardMap>,
    kind: WriteKind,
    call: Call<ClientReply>,
) -> bool {
    match call {
        Call::Answered(ClientReply::Applied) if kind != WriteKind::Cas => r == Ok::<_, Status>(
            WriteResponse { swapped: true, not_leader: None, not_hosted: None },
        ),
        Call::Answered(ClientReply::Swapped(swapped)) if kind == WriteKind::Cas => r == Ok::<
            _,
            Status,
        >(WriteResponse { swapped, not_leader: None, not_hosted: None }),
        Call::Answered(ClientReply::NotLeader { hint }) => r == Ok::<_, Status>(
            WriteResponse { swapped: false, not_leader: Some(hint_of(hint)), not_hosted: None },
        ),
        Call::Answered(ClientReply::NotHosted { shard }) => r matches Ok(response)
            && !response.swapped && response.not_leader is None && (
        response.not_hosted matches Some(n) && points_at(n, map, shard)),
        Call::Answered(other) => r matches Err(status) && says(
            status,
            Code::Internal,
            kind_name(kind) + shown(other),
        ),
        _ => r matches Err(status) && sheds(status, call, "client request queue full"@),
    }
}

impl KvApi {
    pub fn new(me: NodeId) -> (api: KvApi)
        ensures
            api.me == me,
    {
        KvApi { me }
    }

    /// Decides what becomes of a request for `key`; the map comes with the shard
    /// that the ring puts the key in under it. A reserved key is refused: a
    /// client that could write there could claim that any request had already
    /// been answered.
    pub fn admission(&self, map: Option<(&ShardMap, ShardId)>, key: &[u8]) -> (a: Admission)
        ensures
            match (a, map) {
                (Admission::Refused(status), _) => reserved(key@) && says(
                    status,
                    Code::InvalidArgument,
                    "keys that begin with a zero byte are reserved"@,
                ),
                (Admission::Elsewhere(n), None) => !reserved(key@) && points_at(n, None, 0),
                (Admission::Elsewhere(n), Some((m, shard))) => {
                    &&& !reserved(key@)
                    &&& !replicas_in(m.shards@, shard).contains(self.me)
                    &&& points_at(n, Some(m), shard)
                },
                (Admission::Ask(group), Some((m, shard))) => {
                    &&& !reserved(key@)
                    &&& replicas_in(m.shards@, shard).contains(self.me)
                    &&& group == crate::group::group_of(shard)
                },
                (Admission::Ask(_), None) => false,
            },
    {
        if is_reserved(key) {
            return Admission::Refused(
                Status::new(
                    Code::InvalidArgument,
                    "keys that begin with a zero byte are reserved",
                ),
            );
        }
        let known = match map {
            Some((m, _)) => Some(m),
            None => None,
        };
        match router::route(map, self.me) {
            Route::Local { shard: _, group } => Admission::Ask(group),
            Route::Elsewhere { shard, replicas: _ } => Admission::Elsewhere(
                not_hosted(known, shard),
            ),
            Route::NoMap => Admission::Elsewhere(not_hosted(None, 0)),
        }
    }

    /// Answers a read, by what the group's driver said.
    pub fn get(&self, map: Option<&ShardMap>, call: Call<ClientReply>) -> (r: Result<
        GetResponse,
        Status,
    >)
        ensures
            get_answered(r, map, call),
    {
        match call {
            Call::QueueFull => Err(
                Status::new(Code::ResourceExhausted, "client request queue full"),
            ),
            Call::Closed => Err(Status::new(Code::Unavailable, "node is shutting down")),
            Call::Answered(reply) => match reply {
                ClientReply::Value(value) => Ok(
                    GetResponse { value, not_leader: None, not_hosted: None },
                ),
                ClientReply::NotLeader { hint } => Ok(
                    GetResponse {
                        value: None,
                        not_leader: Some(not_leader(hint)),
                        not_hosted: None,
                    },
                ),
                ClientReply::NotHosted { shard } => Ok(
                    GetResponse {
                        value: None,
                        not_leader: None,
                        not_hosted: Some(not_hosted(map, shard)),
                    },
                ),
                other => {
                    let text = show(&other);
                    Err(
                        Status {
                            code: Code::Internal,
                            message: join_text("driver answered a get with ", &text),
                        },
                    )
                },
            },
        }
    }

    /// Answers a write, by what the group's driver said.
    pub fn write(&self, map: Option<&ShardMap>, kind: WriteKind, call: Call<ClientReply>) -> (r:
        Result<WriteResponse, Status>)
        ensures
            write_answered(r, map, kind, call),
    {
        let reply = match call {
            Call::QueueFull => {
                return Err(Status::new(Code::ResourceExhausted, "client request queue full"));
            },
            Call::Closed => {
                return Err(Status::new(Code::Unavailable, "node is shutting down"));
            },
            Call::Answered(reply) => reply,
        };
        match reply {
            ClientReply::NotLeader { hint } => {
                return Ok(
                    WriteResponse {
                        swapped: false,
                        not_leader: Some(not_leader(hint)),
                        not_hosted: None,
                    },
                );
            },
            ClientReply::NotHosted { shard } => {
                return Ok(
                    WriteResponse {
                        swapped: false,
                        not_leader: None,
                        not_hosted: Some(not_hosted(map, shard)),
                    },
                );
            },
            ClientReply::Applied => {
                if kind != WriteKind::Cas {
                    return Ok(WriteResponse { swapped: true, not_leader: None, not_hosted: None });
                }
            },
            ClientReply::Swapped(swapped) => {
                if kind == WriteKind::Cas {
                    return Ok(WriteResponse { swapped, not_leader: None, not_hosted: None });
                }
            },
            ClientReply::Value(_) => {},
        }
        let text = show(&reply);
        let start = match kind {
            WriteKind::Put => "driver answered a put with ",
            WriteKind::Delete => "driver answered a delete with ",
            WriteKind::Cas => "driver answered a cas with ",
        };
        Err(Status { code: Code::Internal, message: join_text(start, &text) })
    }
}

/// Whether an answer sends a client to the nodes that hold a shard, by the map:
/// all of them and in order, with the map's version; to nobody and with version 0
/// where there is no map.
pub open spec fn sends_to(n: NotHosted, map: Option<&ShardMap>, shard: ShardId) -> bool {
    &&& n.shard_id == shard
    &&& map matches Some(m) ==> {
        &&& n.map_version == m.version
        &&& shard < m.shards@.len() ==> n.replicas@ == m.shards@[shard as int]@
        &&& shard >= m.shards@.len() ==> n.replicas@.len() == 0
    }
    &&& map is None ==> n.map_version == 0 && n.replicas@.len() == 0
}

/// A reader is told what was read. The value is the one the group answered with;
/// a node that does not lead names the leader it knows, or 0 where it knows none,
/// and one that does not hold the shard says who does; none of these comes with
/// another. A shed request and an absent driver are told apart, and nothing else
/// the driver says is passed on as an answer.
pub proof fn law_a_reader_is_told_what_was_read(
    r: Result<GetResponse, Status>,
    map: Option<&ShardMap>,
    call: Call<ClientReply>,
)
    requires
        get_answered(r, map, call),
    ensures
        call matches Call::Answered(ClientReply::Value(value)) ==> (r matches Ok(response)
            && response.value == value && response.not_leader is None && response.not_hosted is None),
        call matches Call::Answered(ClientReply::NotLeader { hint }) ==> (r matches Ok(response) && {
            &&& response.value is None
            &&& response.not_hosted is None
            &&& response.not_leader is Some
            &&& hint matches Some(id) ==> (response.not_leader->0).leader_hint == id
            &&& hint is None ==> (response.not_leader->0).leader_hint == 0
        }),
        call matches Call::Answered(ClientReply::NotHosted { shard }) ==> (r matches Ok(response) && {
            &&& response.value is None
            &&& response.not_leader is None
            &&& response.not_hosted is Some
            &&& sends_to(response.not_hosted->0, map, shard)
        }),
        call matches Call::Answered(ClientReply::Applied) ==> (r matches Err(status) && status.code
            == Code::Internal),
        call matches Call::Answered(ClientReply::Swapped(_)) ==> (r matches Err(status)
            && status.code == Code::Internal),
        call is QueueFull ==> (r matches Err(status) && status.code == Code::ResourceExhausted),
        call is Closed ==> (r matches Err(status) && status.code == Code::Unavailable),
{
}

/// A writer is told what the write came to. A put and a delete succeed exactly
/// where the group applied them; a compare-and-swap is answered with whether it
/// took effect, and with nothing else; a redirect is none of these, names the
/// leader that is known or says who holds the shard, and never counts as success.
pub proof fn law_a_writer_is_told_what_was_done(
    r: Result<WriteResponse, Status>,
    map: Option<&ShardMap>,
    kind: WriteKind,
    call: Call<ClientReply>,
)
    requires
        write_answered(r, map, kind, call),
    ensures
        r matches Ok(response) && response.not_leader is None && response.not_hosted is None ==> {
            ||| kind != WriteKind::Cas && call == Call::Answered(ClientReply::Applied)
                && r->Ok_0.swapped
            ||| kind == WriteKind::Cas && call == Call::Answered(
                ClientReply::Swapped(r->Ok_0.swapped),
            )
        },
        call == Call::Answered(ClientReply::Applied) && kind != WriteKind::Cas ==> (r matches Ok(
            response,
        ) && response.swapped && response.not_leader is None && response.not_hosted is None),
        call matches Call::Answered(ClientReply::Swapped(swapped)) && kind == WriteKind::Cas ==> (
        r matches Ok(response) && response.swapped == call->Answered_0->Swapped_0
            && response.not_leader is None && response.not_hosted is None),
        call matches Call::Answered(ClientReply::NotLeader { hint }) ==> (r matches Ok(response) && {
            &&& !response.swapped
            &&& response.not_hosted is None
            &&& response.not_leader is Some
            &&& hint matches Some(id) ==> (response.not_leader->0).leader_hint == id
            &&& hint is None ==> (response.not_leader->0).leader_hint == 0
        }),
        call matches Call::Answered(ClientReply::NotHosted { shard }) ==> (r matches Ok(response) && {
            &&& !response.swapped
            &&& response.not_leader is None
            &&& response.not_hosted is Some
            &&& sends_to(response.not_hosted->0, map, shard)
        }),
        call matches Call::Answered(ClientReply::Value(_)) ==> (r matches Err(status) && status.code
            == Code::Internal),
        call is QueueFull ==> (r matches Err(status) && status.code == Code::ResourceExhausted),
        call is Closed ==> (r matches Err(status) && status.code == Code::Unavailable),
{
}

/// Whom an answer points at is whom the map lists.
pub proof fn law_a_redirect_lists_the_shards_nodes(
    n: NotHosted,
    map: Option<&ShardMap>,
    shard: ShardId,
)
    ensures
        points_at(n, map, shard) <==> sends_to(n, map, shard),
{
    match map {
        Some(m) => {
            if shard >= m.shards@.len() && n.replicas@.len() == 0 {
                assert(n.replicas@ =~= Seq::<NodeId>::empty());
            }
        },
        None => {
            if n.replicas@.len() == 0 {
                assert(n.replicas@ =~= Seq::<NodeId>::empty());
            }
        },
    }
}

/// A refusal says both its kind and its words.
pub proof fn law_a_refusal_says_both(status: Status, code: Code, message: Seq<char>)
    ensures
        says(status, code, message) <==> status.code == code && status.message@ == message,
{
}

/// A request is let in exactly where its key is not reserved and the map places
/// its shard on this node, and then it is for that shard's group; else the
/// client is refused, or sent to the shard's nodes.
pub proof fn law_a_request_is_let_in_where_it_belongs(
    api: &KvApi,
    map: &ShardMap,
    shard: ShardId,
    key: &[u8],
    a: Admission,
    unmapped: Admission,
)
    requires
        call_ensures(KvApi::admission, (api, Some((map, shard)), key), a),
        call_ensures(KvApi::admission, (api, None, key), unmapped),
    ensures
        ({
            let forbidden = key@.len() > 0 && key@[0] == 0;
            let here = shard < map.shards@.len() && map.shards@[shard as int]@.contains(api.me);
            &&& a is Refused <==> forbidden
            &&& a is Ask <==> !forbidden && here
            &&& a is Elsewhere <==> !forbidden && !here
            &&& a matches Admission::Ask(group) ==> group == 2 + shard
            &&& a matches Admission::Elsewhere(n) ==> sends_to(n, Some(map), shard)
            &&& a matches Admission::Refused(status) ==> status.code == Code::InvalidArgument
            &&& unmapped is Refused <==> forbidden
            &&& unmapped is Elsewhere <==> !forbidden
        }),
{
    crate::session::law_a_zero_byte_reserves(key@);
}

/// What a client is told of its read and its write.
pub proof fn law_a_client_is_told_what_came_of_it(
    api: &KvApi,
    map: Option<&ShardMap>,
    kind: WriteKind,
    call: Call<ClientReply>,
    read: Result<GetResponse, Status>,
    write: Result<WriteResponse, Status>,
)
    requires
        call_ensures(KvApi::get, (api, map, call), read),
        call_ensures(KvApi::write, (api, map, kind, call), write),
    ensures
        call matches Call::Answered(ClientReply::Value(value)) ==> (read matches Ok(response)
            && response.value == value && response.not_leader is None && response.not_hosted is None),
        read matches Ok(response) && response.value is Some ==> call matches Call::Answered(
            ClientReply::Value(Some(_)),
        ),
        write matches Ok(response) && response.swapped ==> call == Call::Answered(
            ClientReply::Applied,
        ) || call == Call::Answered(ClientReply::Swapped(true)),
        call == Call::Answered(ClientReply::Applied) && kind != WriteKind::Cas ==> (
        write matches Ok(response) && response.swapped),
        call == Call::Answered(ClientReply::Swapped(true)) && kind == WriteKind::Cas ==> (
        write matches Ok(response) && response.swapped),
        call == Call::Answered(ClientReply::Swapped(false)) && kind == WriteKind::Cas ==> (
        write matches Ok(response) && !response.swapped && response.not_leader is None
            && response.not_hosted is None),
        call matches Call::Answered(ClientReply::NotLeader { hint }) ==> (read matches Ok(g)
            && write matches Ok(w) && g.not_leader is Some && w.not_leader == g.not_leader),
{
    law_a_reader_is_told_what_was_read(read, map, call);
    law_a_writer_is_told_what_was_done(write, map, kind, call);
}

/// A redirect names the leader, or 0 where none is known, and the shard's nodes
/// by the map at hand.
pub proof fn law_redirects_are_spelled_out(
    leader: Option<NodeId>,
    lead: NotLeader,
    map: Option<&ShardMap>,
    shard: ShardId,
    elsewhere: NotHosted,
    code: Code,
    message: &str,
    status: Status,
)
    requires
        call_ensures(not_leader, (leader,), lead),
        call_ensures(not_hosted, (map, shard), elsewhere),
        call_ensures(Status::new, (code, message), status),
    ensures
        leader matches Some(id) ==> lead.leader_hint == id,
        leader is None ==> lead.leader_hint == 0,
        sends_to(elsewhere, map, shard),
        status.code == code && status.message@ == message@,
{
}

} // verus!
