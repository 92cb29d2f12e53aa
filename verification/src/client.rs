//! The smart client: find the shard, find its leader, follow hints, retry.
//!
//! Only the leader of a key's shard accepts a request, and the client knows
//! neither at the start, so every request is a small search. Two hints narrow
//! it: one says which nodes hold the shard, the other which of them leads.
//!
//! The leader cache is per shard: with one for the cluster, a failover on one
//! shard would throw away what was known of all the others.
//!
//! The retry budget is bounded. A cluster with no quorum has no leader to find,
//! and a client that waits forever for one is indistinguishable from a hung
//! one.

use std::collections::{BTreeMap, BTreeSet};
use std::time::Duration;

use vstd::prelude::*;
use vstd::string::*;

use crate::command::{Change, Mutation};
use crate::driver::{key_of, ClientOp};
use crate::ids::{in_order, keys_of};
use crate::kv_service::{NotHosted, NotLeader};
use crate::membership::book;
use crate::session::RequestCtx;
use crate::shard_map::replicas_in;
use crate::text::join_text;
use crate::types::{copy_ids, holds, Nanos, NodeId, ShardId};

verus! {

broadcast use {vstd::std_specs::btree::group_btree_axioms, vstd::laws_cmp::group_laws_cmp};

/// Rounds over the candidates before a request is given up. A cluster that is
/// starting has to elect a meta leader, publish a placement, found its shards
/// and elect again within each; giving up sooner would report that as a failure.
pub const RETRY_ROUNDS: usize = 120;

/// What a round costs when it learned nothing.
pub const RETRY_PAUSE: Nanos = 50_000_000;

/// How many times the pause may double while nodes say they are busy. Asking an
/// overloaded node again on a fixed interval adds to the overload.
pub const BACKOFF_DOUBLINGS: u32 = 3;

pub const CONNECT_TIMEOUT: Nanos = 500_000_000;

/// How long one attempt may take, unless a client says otherwise.
pub const REQUEST_TIMEOUT: Nanos = 2_000_000_000;

/// The placement that a client routes by: the shard map, reduced to what
/// routing needs.
#[derive(Debug)]
pub struct Placement {
    pub version: u64,
    pub num_shards: u16,
    /// `shards[i]` is shard `i`'s replica set, in ring order.
    pub shards: Vec<Vec<NodeId>>,
}

impl Placement {
    /// A shard's replicas, in ring order; none for a shard outside the map.
    pub fn replicas(&self, shard: ShardId) -> (ids: Vec<NodeId>)
        ensures
            ids@ == replicas_in(self.shards@, shard),
    {
        if (shard as usize) < self.shards.len() {
            copy_ids(&self.shards[shard as usize])
        } else {
            Vec::new()
        }
    }
}

/// Why a request failed: every node was tried until the budget ran out. What
/// the last of them said rides along as text.
#[derive(Debug, PartialEq, Eq)]
pub enum ClientError {
    NoReachableNode { last: Option<String> },
}

impl ClientError {
    /// The error in words.
    pub fn message(&self) -> (text: String)
        ensures
            match *self {
                ClientError::NoReachableNode { last: None } => text@
                    == "no reachable node could serve the request"@,
                ClientError::NoReachableNode { last: Some(e) } => text@
                    == "no reachable node could serve the request"@ + "; last error: "@ + e@,
            },
    {
        match self {
            ClientError::NoReachableNode { last: None } => {
                "no reachable node could serve the request".to_owned()
            },
            ClientError::NoReachableNode { last: Some(e) } => {
                let mut text = "no reachable node could serve the request".to_owned();
                text.append("; last error: ");
                text.append(e.as_str());
                text
            },
        }
    }
}

/// A random 64-bit number: `rand::random`. Nothing is claimed of which.
#[verifier::external_body]
fn random_id() -> (id: u64) {
    rand::random()
}

/// A span of time as it is shown: seconds, and nanoseconds below one.
pub uninterp spec fn duration_shown(secs: u64, nanos: u32) -> Seq<char>;

/// `format!` with `{:?}` of the `Duration` of these parts, a function of the two
/// alone.
#[verifier::external_body]
fn duration_text(secs: u64, nanos: u32) -> (text: String)
    requires
        nanos < 1_000_000_000,
    ensures
        text@ == duration_shown(secs, nanos),
{
    format!("{:?}", Duration::new(secs, nanos))
}

/// How an attempt failed.
#[derive(Debug)]
pub enum Failure {
    /// No answer came within the client's deadline.
    Elapsed,
    /// The node, or the connection, said why; `exhausted` says that the node
    /// shed the request.
    Refused { exhausted: bool, text: String },
}

/// Why an attempt produced no answer, and so what the client keeps.
#[derive(Debug, PartialEq, Eq)]
pub enum Refusal {
    /// Reachable, and could not serve this attempt. The connection is good and
    /// the node is very likely still the leader: keep both, and wait longer.
    Busy(String),
    /// The connection is no good. Drop it.
    Gone(String),
}

impl Refusal {
    pub open spec fn text(&self) -> Seq<char> {
        match *self {
            Refusal::Busy(m) => m@,
            Refusal::Gone(m) => m@,
        }
    }

    pub fn message(&self) -> (m: &String)
        ensures
            m@ == self.text(),
    {
        match self {
            Refusal::Busy(m) => m,
            Refusal::Gone(m) => m,
        }
    }

    /// What no answer within a deadline comes to, as the deadline is shown.
    pub fn late(deadline: &str) -> (r: Refusal)
        ensures
            r matches Refusal::Busy(m) && m@ == "no answer within "@ + deadline@,
    {
        Refusal::Busy(join_text("no answer within ", deadline))
    }

    /// Tells a busy node from one that is gone. A shed request and a late
    /// answer are backpressure; a client that took them for a broken node would
    /// redial, and turn what protects the server into what overwhelms it.
    pub fn of(failure: Failure, deadline: Nanos) -> (r: Refusal)
        requires
            deadline < crate::types::MAX_NANOS,
        ensures
            match failure {
                Failure::Elapsed => r matches Refusal::Busy(m) && m@ == "no answer within "@
                    + duration_shown(
                    (deadline / 1_000_000_000) as u64,
                    (deadline % 1_000_000_000) as u32,
                ),
                Failure::Refused { exhausted, text } => if exhausted {
                    r == Refusal::Busy(text)
                } else {
                    r == Refusal::Gone(text)
                },
            },
    {
        match failure {
            Failure::Elapsed => {
                let secs: u64 = (deadline / 1_000_000_000) as u64;
                let nanos: u32 = (deadline % 1_000_000_000) as u32;
                Refusal::late(duration_text(secs, nanos).as_str())
            },
            Failure::Refused { exhausted, text } => {
                if exhausted {
                    Refusal::Busy(text)
                } else {
                    Refusal::Gone(text)
                }
            },
        }
    }
}

/// What one client knows.
#[derive(Debug)]
pub struct Client {
    pub endpoints: BTreeMap<NodeId, String>,
    /// The nodes there is an open connection to, kept so that a retry does not
    /// redial.
    pub channels: BTreeSet<NodeId>,
    /// The last node that accepted anything.
    pub leader: Option<NodeId>,
    /// The placement to route by; none until a node has told one.
    pub placement: Option<Placement>,
    /// Who last accepted a request for each shard.
    pub leaders: BTreeMap<ShardId, NodeId>,
    /// This client's name in the session table.
    pub client_id: u64,
    /// Goes up by one per request. Every retry of a request carries the
    /// request's own: with a fresh one it would be a new request, and apply a
    /// second time.
    pub sequence: u64,
    /// How long one attempt may take.
    pub request_timeout: Nanos,
}

/// What a client knows, as a mathematical value.
#[verifier::ext_equal]
pub struct ClientView {
    pub endpoints: Map<NodeId, Seq<char>>,
    pub channels: Set<NodeId>,
    pub leader: Option<NodeId>,
    pub placement: Option<(u64, u16, Seq<Vec<NodeId>>)>,
    pub leaders: Map<ShardId, NodeId>,
    pub client_id: u64,
    pub sequence: u64,
    pub request_timeout: Nanos,
}

impl View for Client {
    type V = ClientView;

    open spec fn view(&self) -> ClientView {
        ClientView {
            endpoints: book(self.endpoints@),
            channels: self.channels@,
            leader: self.leader,
            placement: match self.placement {
                Some(p) => Some((p.version, p.num_shards, p.shards@)),
                None => None,
            },
            leaders: self.leaders@,
            client_id: self.client_id,
            sequence: self.sequence,
            request_timeout: self.request_timeout,
        }
    }
}

/// The endpoints that a list spells out; a later one replaces an earlier.
pub open spec fn endpoints_in(list: Seq<(NodeId, String)>) -> Map<NodeId, Seq<char>>
    decreases list.len(),
{
    if list.len() == 0 {
        Map::empty()
    } else {
        endpoints_in(list.drop_last()).insert(list.last().0, list.last().1@)
    }
}

/// `order`, and behind it those of `ids` that are known and not in it yet.
pub open spec fn extended(order: Seq<NodeId>, ids: Seq<NodeId>, known: Set<NodeId>) -> Seq<NodeId>
    decreases ids.len(),
{
    if ids.len() == 0 {
        order
    } else {
        let before = extended(order, ids.drop_last(), known);
        if !before.contains(ids.last()) && known.contains(ids.last()) {
            before.push(ids.last())
        } else {
            before
        }
    }
}

/// The replicas of a shard, as far as the client has a placement.
pub open spec fn placed(client: ClientView, shard: ShardId) -> Seq<NodeId> {
    match client.placement {
        Some((_, _, shards)) => replicas_in(shards, shard),
        None => Seq::empty(),
    }
}

/// The order to try nodes in for a key of a shard: the shard's cached leader
/// first, then the shard's other replicas, then everyone else. Where no shard
/// is known, whoever last accepted anything comes first.
pub open spec fn order_for(client: ClientView, shard: Option<ShardId>) -> Seq<NodeId> {
    let known = client.endpoints.dom();
    let near = match shard {
        Some(shard) => {
            let first = if client.leaders.contains_key(shard) && known.contains(
                client.leaders[shard],
            ) {
                seq![client.leaders[shard]]
            } else {
                Seq::empty()
            };
            extended(first, placed(client, shard), known)
        },
        None => match client.leader {
            Some(id) => seq![id],
            None => Seq::empty(),
        },
    };
    extended(near, in_order(known), known)
}

/// What a client knows once `id` has accepted a request for a key of a shard.
pub open spec fn after_accepted(client: ClientView, id: NodeId, shard: Option<ShardId>) -> ClientView {
    ClientView {
        leader: Some(id),
        leaders: match shard {
            Some(shard) => client.leaders.insert(shard, id),
            None => client.leaders,
        },
        ..client
    }
}

/// What a client knows once a node has refused a request for a key of a shard:
/// nothing it knew about who leads holds any more.
pub open spec fn after_refused(client: ClientView, shard: Option<ShardId>) -> ClientView {
    ClientView {
        leader: None,
        leaders: match shard {
            Some(shard) => client.leaders.remove(shard),
            None => client.leaders,
        },
        ..client
    }
}

/// What a client knows once a node has said that it does not hold the key's
/// shard: it drops its placement if the node's is newer, or if the node has
/// none.
pub open spec fn after_redirect(
    client: ClientView,
    shard: Option<ShardId>,
    map_version: u64,
) -> ClientView {
    let refused = after_refused(client, shard);
    ClientView {
        placement: match client.placement {
            Some((version, _, _)) => if map_version > version || map_version == 0 {
                None
            } else {
                client.placement
            },
            None => None,
        },
        ..refused
    }
}

/// The first of `ids` that is known.
pub open spec fn first_known(ids: Seq<NodeId>, known: Set<NodeId>) -> Option<NodeId>
    decreases ids.len(),
{
    if ids.len() == 0 {
        None
    } else if known.contains(ids[0]) {
        Some(ids[0])
    } else {
        first_known(ids.skip(1), known)
    }
}

/// What a client knows once a connection has failed.
pub open spec fn after_forgetting(client: ClientView, id: NodeId) -> ClientView {
    ClientView {
        channels: client.channels.remove(id),
        leader: if client.leader == Some(id) {
            None
        } else {
            client.leader
        },
        ..client
    }
}

/// What a client knows once a node has told its placement. Version 0, and no
/// shards, say that there is none. A newer one replaces the client's, and then
/// every cached leader is a guess about a group that may have moved.
pub open spec fn after_map(
    client: ClientView,
    version: u64,
    num_shards: u32,
    shards: Seq<Vec<NodeId>>,
) -> ClientView {
    let fresh = match client.placement {
        Some((known, _, _)) => version > known,
        None => true,
    };
    if version == 0 || num_shards == 0 || !fresh {
        client
    } else {
        ClientView {
            placement: Some((version, num_shards as u16, shards)),
            leaders: Map::empty(),
            ..client
        }
    }
}

/// The endpoints once the cluster's members were told: an address that is known
/// stays, and an empty one is no address.
pub open spec fn with_members(
    endpoints: Map<NodeId, Seq<char>>,
    members: Seq<(NodeId, String)>,
) -> Map<NodeId, Seq<char>>
    decreases members.len(),
{
    if members.len() == 0 {
        endpoints
    } else {
        let before = with_members(endpoints, members.drop_last());
        let (id, address) = (members.last().0, members.last().1@);
        if address.len() > 0 && !before.contains_key(id) {
            before.insert(id, address)
        } else {
            before
        }
    }
}

fn extend(order: &mut Vec<NodeId>, ids: &Vec<NodeId>, known: &BTreeMap<NodeId, String>)
    ensures
        final(order)@ == extended(old(order)@, ids@, known@.dom()),
{
    let mut i: usize = 0;
    assert(ids@.take(0) =~= Seq::<NodeId>::empty());
    while i < ids.len()
        invariant
            i <= ids@.len(),
            order@ == extended(old(order)@, ids@.take(i as int), known@.dom()),
        decreases ids@.len() - i,
    {
        assert(ids@.take(i + 1).drop_last() =~= ids@.take(i as int));
        if !holds(order, ids[i]) && known.contains_key(&ids[i]) {
            order.push(ids[i]);
        }
        i += 1;
    }
    assert(ids@.take(i as int) =~= ids@);
}

impl Client {
    /// A deadline can be told by the clock.
    pub open spec fn wf(&self) -> bool {
        self.request_timeout < crate::types::MAX_NANOS
    }

    pub fn new(endpoints: Vec<(NodeId, String)>) -> (c: Client)
        ensures
            c.wf(),
            c@ == (ClientView {
                endpoints: endpoints_in(endpoints@),
                channels: Set::empty(),
                leader: None,
                placement: None,
                leaders: Map::empty(),
                client_id: c.client_id,
                sequence: 0,
                request_timeout: REQUEST_TIMEOUT,
            }),
    {
        let mut map: BTreeMap<NodeId, String> = BTreeMap::new();
        let mut i: usize = 0;
        assert(endpoints@.take(0) =~= Seq::<(NodeId, String)>::empty());
        assert(book(map@) =~= Map::<NodeId, Seq<char>>::empty());
        while i < endpoints.len()
            invariant
                i <= endpoints@.len(),
                book(map@) == endpoints_in(endpoints@.take(i as int)),
            decreases endpoints@.len() - i,
        {
            let ghost before = map@;
            map.insert(endpoints[i].0, endpoints[i].1.clone());
            proof {
                let one = endpoints@[i as int];
                assert(endpoints@.take(i + 1).drop_last() =~= endpoints@.take(i as int));
                assert(endpoints@.take(i + 1).last() == one);
                assert(book(map@) =~= book(before).insert(one.0, one.1@));
            }
            i += 1;
        }
        assert(endpoints@.take(i as int) =~= endpoints@);
        Client {
            endpoints: map,
            channels: BTreeSet::new(),
            leader: None,
            placement: None,
            leaders: BTreeMap::new(),
            client_id: random_id(),
            sequence: 0,
            request_timeout: REQUEST_TIMEOUT,
        }
    }

    /// Says how long one attempt may take.
    pub fn with_request_timeout(self, timeout: Nanos) -> (c: Client)
        requires
            self.wf(),
            timeout < crate::types::MAX_NANOS,
        ensures
            c.wf(),
            c@ == (ClientView { request_timeout: timeout, ..self@ }),
    {
        Client { request_timeout: timeout, ..self }
    }

    pub fn leader(&self) -> (id: Option<NodeId>)
        ensures
            id == self.leader,
    {
        self.leader
    }

    /// Whether there is an open connection to `id`.
    pub fn holds_channel(&self, id: NodeId) -> (r: bool)
        ensures
            r == self.channels@.contains(id),
    {
        self.channels.contains(&id)
    }

    /// Notes that a connection was opened.
    pub fn connected(&mut self, id: NodeId)
        ensures
            final(self)@ == (ClientView { channels: old(self)@.channels.insert(id), ..old(self)@ }),
            old(self).wf() ==> final(self).wf(),
    {
        self.channels.insert(id);
    }

    /// The order to try nodes in for a key, whose shard is known once there is
    /// a placement. Everyone comes in the end: a client whose placement is wrong
    /// still has to reach somebody who can say so.
    pub fn candidates(&self, shard: Option<ShardId>) -> (order: Vec<NodeId>)
        ensures
            order@ == order_for(self@, shard),
    {
        let mut order: Vec<NodeId> = Vec::new();
        let ghost known = self.endpoints@.dom();
        assert(self@.endpoints.dom() =~= known);
        match shard {
            Some(shard) => {
                match self.leaders.get(&shard) {
                    Some(leader) => {
                        if self.endpoints.contains_key(leader) {
                            order.push(*leader);
                        }
                    },
                    None => {},
                }
                proof {
                    if self.leaders@.contains_key(shard) && known.contains(self.leaders@[shard]) {
                        assert(order@ =~= seq![self.leaders@[shard]]);
                    } else {
                        assert(order@ =~= Seq::<NodeId>::empty());
                    }
                }
                let replicas = match &self.placement {
                    Some(placement) => placement.replicas(shard),
                    None => Vec::new(),
                };
                assert(replicas@ =~= placed(self@, shard));
                extend(&mut order, &replicas, &self.endpoints);
            },
            None => match self.leader {
                Some(leader) => {
                    order.push(leader);
                    assert(order@ =~= seq![leader]);
                },
                None => {},
            },
        }
        let everyone = keys_of(&self.endpoints);
        extend(&mut order, &everyone, &self.endpoints);
        order
    }

    /// How many shards the client's placement has: what the shard of a key is
    /// taken from.
    pub fn num_shards(&self) -> (n: Option<u16>)
        ensures
            n == match self@.placement {
                Some((_, num_shards, _)) => Some(num_shards),
                None => None,
            },
    {
        match &self.placement {
            Some(placement) => Some(placement.num_shards),
            None => None,
        }
    }

    /// Notes that `id` accepted a request for a key of a shard.
    pub fn accepted(&mut self, id: NodeId, shard: Option<ShardId>)
        requires
            old(self).wf(),
        ensures
            final(self).wf(),
            final(self)@ == after_accepted(old(self)@, id, shard),
    {
        self.leader = Some(id);
        match shard {
            Some(shard) => {
                self.leaders.insert(shard, id);
            },
            None => {},
        }
    }

    /// Notes that a node refused a request for a key of a shard.
    pub fn refused(&mut self, shard: Option<ShardId>)
        requires
            old(self).wf(),
        ensures
            final(self).wf(),
            final(self)@ == after_refused(old(self)@, shard),
    {
        self.leader = None;
        match shard {
            Some(shard) => {
                self.leaders.remove(&shard);
            },
            None => {},
        }
        assert(self@ =~= after_refused(old(self)@, shard));
    }

    /// Reacts to a node that does not hold the key's shard. Returns the node to
    /// try next, if the answer names one that is known.
    pub fn redirect(&mut self, shard: Option<ShardId>, not_hosted: &NotHosted) -> (next: Option<
        NodeId,
    >)
        requires
            old(self).wf(),
        ensures
            final(self).wf(),
            final(self)@ == after_redirect(old(self)@, shard, not_hosted.map_version),
            next == first_known(not_hosted.replicas@, old(self)@.endpoints.dom()),
    {
        self.refused(shard);
        let stale = match &self.placement {
            Some(p) => not_hosted.map_version > p.version || not_hosted.map_version == 0,
            None => true,
        };
        if stale {
            self.placement = None;
        }
        let ghost ids = not_hosted.replicas@;
        let ghost known = self.endpoints@.dom();
        assert(old(self)@.endpoints.dom() =~= known) by {
            assert(old(self)@.endpoints.dom() =~= old(self).endpoints@.dom());
            assert(self@.endpoints.dom() =~= self.endpoints@.dom());
        }
        let mut i: usize = 0;
        assert(ids.skip(0) =~= ids);
        while i < not_hosted.replicas.len()
            invariant
                i <= ids.len(),
                ids == not_hosted.replicas@,
                known == self.endpoints@.dom(),
                self.wf(),
                self@ == after_redirect(old(self)@, shard, not_hosted.map_version),
                old(self)@.endpoints.dom() == known,
                first_known(ids, known) == first_known(ids.skip(i as int), known),
            decreases ids.len() - i,
        {
            let id: NodeId = not_hosted.replicas[i];
            assert(ids.skip(i as int).skip(1) =~= ids.skip(i + 1));
            if self.endpoints.contains_key(&id) {
                return Some(id);
            }
            i += 1;
        }
        None
    }

    /// Drops a connection that failed, so that the next attempt redials rather
    /// than reusing a socket to a process that is gone.
    pub fn forget(&mut self, id: NodeId)
        ensures
            final(self)@ == after_forgetting(old(self)@, id),
            old(self).wf() ==> final(self).wf(),
    {
        self.channels.remove(&id);
        let forgets = match self.leader {
            Some(leader) => leader == id,
            None => false,
        };
        if forgets {
            self.leader = None;
        }
        assert(self@ =~= after_forgetting(old(self)@, id));
    }

    /// The nodes to ask for the placement, in order: the first that has one is
    /// enough.
    pub fn refresh_order(&self) -> (ids: Vec<NodeId>)
        ensures
            ids@ == in_order(self@.endpoints.dom()),
    {
        assert(self@.endpoints.dom() =~= self.endpoints@.dom());
        keys_of(&self.endpoints)
    }

    /// Takes a node's placement in. Returns whether it had one: if not, the next
    /// node is asked. Of the number of shards the low sixteen bits count.
    pub fn learned_map(&mut self, version: u64, num_shards: u32, shards: Vec<Vec<NodeId>>) -> (had:
        bool)
        requires
            old(self).wf(),
        ensures
            final(self).wf(),
            had == !(version == 0 || num_shards == 0),
            final(self)@ == after_map(old(self)@, version, num_shards, shards@),
    {
        if version == 0 || num_shards == 0 {
            return false;
        }
        let fresh = match &self.placement {
            Some(p) => version > p.version,
            None => true,
        };
        if fresh {
            self.placement = Some(Placement { version, num_shards: num_shards as u16, shards });
            self.leaders = BTreeMap::new();
        }
        true
    }

    /// Takes the cluster's members in: where a node lives that the client was
    /// not told of.
    pub fn learned_members(&mut self, members: Vec<(NodeId, String)>)
        ensures
            final(self)@ == (ClientView {
                endpoints: with_members(old(self)@.endpoints, members@),
                ..old(self)@
            }),
            old(self).wf() ==> final(self).wf(),
    {
        let ghost start = book(self.endpoints@);
        let mut i: usize = 0;
        assert(members@.take(0) =~= Seq::<(NodeId, String)>::empty());
        while i < members.len()
            invariant
                i <= members@.len(),
                start == book(old(self).endpoints@),
                book(self.endpoints@) == with_members(start, members@.take(i as int)),
                *self == (Client { endpoints: self.endpoints, ..*old(self) }),
            decreases members@.len() - i,
        {
            let ghost before = self.endpoints@;
            let id: NodeId = members[i].0;
            proof {
                assert(members@.take(i + 1).drop_last() =~= members@.take(i as int));
                assert(members@.take(i + 1).last() == members@[i as int]);
            }
            if members[i].1.as_str().unicode_len() > 0 && !self.endpoints.contains_key(&id) {
                self.endpoints.insert(id, members[i].1.clone());
                assert(book(self.endpoints@) =~= book(before).insert(id, members@[i as int].1@));
            }
            i += 1;
        }
        assert(members@.take(i as int) =~= members@);
    }

    /// Starts a read.
    pub fn start_read(&self, key: &[u8]) -> (s: Search)
        ensures
            s.wf(),
            s@ == fresh_search(Request::Read(key@)),
    {
        Search::new(ClientOp::get(key))
    }

    /// Starts a write. Its context is the same for every attempt: a retry with
    /// its own would be a new request to the state machine.
    pub fn start_write(&mut self, op: Mutation) -> (s: Search)
        requires
            old(self).sequence < u64::MAX,
        ensures
            old(self).wf() ==> final(self).wf(),
            s.wf(),
            (final(self)@, s@) == write_started(old(self)@, op@),
    {
        self.sequence = self.sequence + 1;
        let ctx = RequestCtx { client_id: self.client_id, sequence: self.sequence };
        Search::new(ClientOp::Mutate { ctx: Some(ctx), op })
    }
}

/// What a client asks of a node, as a mathematical value.
pub enum Request {
    Read(Seq<u8>),
    Write(Option<RequestCtx>, Change),
}

/// What a client asks of a node.
pub open spec fn request_of(op: ClientOp) -> Request {
    match op {
        ClientOp::Get { key } => Request::Read(key@),
        ClientOp::Mutate { ctx, op } => Request::Write(ctx, op@),
    }
}

/// The key that a request is about.
pub open spec fn key_asked(request: Request) -> Seq<u8> {
    match request {
        Request::Read(key) => key,
        Request::Write(_, change) => key_of(change),
    }
}

/// A client that starts a write, and the write: it takes the client's next
/// number.
pub open spec fn write_started(client: ClientView, change: Change) -> (ClientView, SearchView) {
    let sequence = (client.sequence + 1) as u64;
    let ctx = RequestCtx { client_id: client.client_id, sequence };
    (ClientView { sequence, ..client }, fresh_search(Request::Write(Some(ctx), change)))
}

/// The pacing of one request's retries.
#[derive(Debug)]
pub struct Pacing {
    /// Hints already followed during this request. A hint followed twice is a
    /// loop and no progress: two nodes point at each other for a moment after a
    /// failover.
    pub followed: BTreeSet<NodeId>,
    /// Consecutive rounds in which a node said that it was too busy.
    pub busy_rounds: u32,
}

/// What a round that ended busy costs, in pauses.
pub open spec fn backoff(busy_rounds: u32) -> nat {
    if busy_rounds == 0 {
        1
    } else if busy_rounds == 1 {
        2
    } else if busy_rounds == 2 {
        4
    } else {
        8
    }
}

/// How long to pause after a round, and the pacing that follows: not at all on
/// a hint that was not followed yet, longer and longer while nodes are busy,
/// and the plain pause otherwise.
pub open spec fn paced(followed: Set<NodeId>, busy_rounds: u32, hinted: Option<NodeId>, busy: bool)
    -> (Option<nat>, Set<NodeId>, u32) {
    match hinted {
        Some(id) if !followed.contains(id) => (None, followed.insert(id), 0),
        _ => if busy {
            (
                Some(RETRY_PAUSE as nat * backoff(busy_rounds)),
                followed,
                (busy_rounds + 1) as u32,
            )
        } else {
            (Some(RETRY_PAUSE as nat), followed, 0)
        },
    }
}

/// Where a search stands.
#[derive(Debug, Clone, Copy, PartialEq, Eq, Structural)]
pub enum Phase {
    /// Between two rounds.
    Between,
    /// A round has begun; the nodes to try are not chosen yet.
    Routing,
    /// The nodes of the round are being tried.
    Trying,
}

/// One request on its way: where it stands, and what it has met.
#[derive(Debug)]
pub struct Search {
    /// What every attempt asks: a write with the context that makes it
    /// recognisable as this one.
    pub request: ClientOp,
    pub phase: Phase,
    /// Rounds begun.
    pub rounds: usize,
    /// Nodes still to try in this round.
    pub order: Vec<NodeId>,
    /// A node that was named as the one to ask.
    pub hinted: Option<NodeId>,
    /// Whether a node of this round said that it was too busy.
    pub busy: bool,
    pub last: Option<String>,
    pub pacing: Pacing,
}

/// A [`Search`] as a mathematical value.
#[verifier::ext_equal]
pub struct SearchView {
    pub request: Request,
    pub phase: Phase,
    pub rounds: usize,
    pub order: Seq<NodeId>,
    pub hinted: Option<NodeId>,
    pub busy: bool,
    pub last: Option<Seq<char>>,
    pub followed: Set<NodeId>,
    pub busy_rounds: u32,
}

impl View for Search {
    type V = SearchView;

    open spec fn view(&self) -> SearchView {
        SearchView {
            request: request_of(self.request),
            phase: self.phase,
            rounds: self.rounds,
            order: self.order@,
            hinted: self.hinted,
            busy: self.busy,
            last: match self.last {
                Some(text) => Some(text@),
                None => None,
            },
            followed: self.pacing.followed@,
            busy_rounds: self.pacing.busy_rounds,
        }
    }
}

/// A request that has not been tried yet.
pub open spec fn fresh_search(request: Request) -> SearchView {
    SearchView {
        request,
        phase: Phase::Between,
        rounds: 0,
        order: Seq::empty(),
        hinted: None,
        busy: false,
        last: None,
        followed: Set::empty(),
        busy_rounds: 0,
    }
}

/// What a search asks for next.
#[derive(Debug)]
pub enum Step {
    /// Ask around for a placement first.
    Refresh,
    /// Try this node. One that cannot be connected to is passed over.
    Ask(NodeId),
    /// The round is over; pause this long, if at all.
    Pause(Option<Nanos>),
    /// The budget is spent.
    GiveUp(ClientError),
}

/// What a search does next, and where it then stands.
pub open spec fn stepped(s: SearchView, client: ClientView, shard: Option<ShardId>) -> (
    SearchView,
    StepView,
) {
    if s.phase == Phase::Between && s.rounds >= RETRY_ROUNDS {
        (s, StepView::GiveUp(s.last))
    } else if s.phase == Phase::Between && client.placement is None {
        (
            SearchView { phase: Phase::Routing, rounds: (s.rounds + 1) as usize, ..s },
            StepView::Refresh,
        )
    } else if s.phase == Phase::Between {
        tried(
            routed(SearchView { rounds: (s.rounds + 1) as usize, ..s }, client, shard),
        )
    } else if s.phase == Phase::Routing {
        tried(routed(s, client, shard))
    } else {
        tried(s)
    }
}

/// A [`Step`] as a mathematical value.
pub enum StepView {
    Refresh,
    Ask(NodeId),
    Pause(Option<nat>),
    GiveUp(Option<Seq<char>>),
}

/// Whether a step is that value.
pub open spec fn is_step(step: Step, want: StepView) -> bool {
    match (step, want) {
        (Step::Refresh, StepView::Refresh) => true,
        (Step::Ask(a), StepView::Ask(b)) => a == b,
        (Step::Pause(a), StepView::Pause(b)) => match (a, b) {
            (Some(x), Some(y)) => x == y,
            (None, None) => true,
            _ => false,
        },
        (
            Step::GiveUp(ClientError::NoReachableNode { last: Some(text) }),
            StepView::GiveUp(Some(want)),
        ) => text@ == want,
        (
            Step::GiveUp(ClientError::NoReachableNode { last: None }),
            StepView::GiveUp(None),
        ) => true,
        _ => false,
    }
}

/// The nodes of a round: the one that was named, if it is known, and otherwise
/// the candidates. The hint is spent either way.
pub open spec fn routed(s: SearchView, client: ClientView, shard: Option<ShardId>) -> SearchView {
    SearchView {
        phase: Phase::Trying,
        order: match s.hinted {
            Some(id) if client.endpoints.contains_key(id) => seq![id],
            _ => order_for(client, shard),
        },
        hinted: None,
        busy: false,
        ..s
    }
}

/// Tries the next node of the round, or ends the round.
pub open spec fn tried(s: SearchView) -> (SearchView, StepView) {
    if s.order.len() > 0 {
        (SearchView { order: s.order.skip(1), ..s }, StepView::Ask(s.order[0]))
    } else {
        let (pause, followed, busy_rounds) = paced(s.followed, s.busy_rounds, s.hinted, s.busy);
        (
            SearchView { phase: Phase::Between, followed, busy_rounds, ..s },
            StepView::Pause(pause),
        )
    }
}

/// How an attempt came back.
#[derive(Debug)]
pub enum Attempt<T> {
    Answered { not_hosted: Option<NotHosted>, not_leader: Option<NotLeader>, answer: T },
    Refused(Refusal),
}

/// What an attempt at `id` makes of a search and of what the client knows, and
/// whether it is the answer. A node that does not hold the shard has no opinion
/// about who leads it, so that is looked at first.
pub open spec fn met<T>(
    s: SearchView,
    client: ClientView,
    id: NodeId,
    shard: Option<ShardId>,
    attempt: Attempt<T>,
) -> (SearchView, ClientView, Option<T>) {
    match attempt {
        Attempt::Answered { not_hosted: Some(elsewhere), .. } => (
            SearchView {
                hinted: first_known(elsewhere.replicas@, client.endpoints.dom()),
                order: Seq::empty(),
                ..s
            },
            after_redirect(client, shard, elsewhere.map_version),
            None,
        ),
        Attempt::Answered { not_hosted: None, not_leader: None, answer } => (
            s,
            after_accepted(client, id, shard),
            Some(answer),
        ),
        Attempt::Answered { not_hosted: None, not_leader: Some(other), .. } => (
            if other.leader_hint != 0 && client.endpoints.contains_key(other.leader_hint) {
                SearchView { hinted: Some(other.leader_hint), order: Seq::empty(), ..s }
            } else {
                s
            },
            after_refused(client, shard),
            None,
        ),
        Attempt::Refused(Refusal::Busy(text)) => (
            SearchView { last: Some(text@), busy: true, ..s },
            client,
            None,
        ),
        Attempt::Refused(Refusal::Gone(text)) => (
            SearchView { last: Some(text@), ..s },
            after_forgetting(client, id),
            None,
        ),
    }
}

impl Search {
    /// The busy rounds are among the rounds that are over.
    pub open spec fn wf(&self) -> bool {
        &&& self.rounds <= RETRY_ROUNDS
        &&& self.pacing.busy_rounds + (if self.phase == Phase::Between {
            0int
        } else {
            1
        }) <= self.rounds
    }

    fn new(request: ClientOp) -> (s: Search)
        ensures
            s.wf(),
            s@ == fresh_search(request_of(request)),
    {
        Search {
            request,
            phase: Phase::Between,
            rounds: 0,
            order: Vec::new(),
            hinted: None,
            busy: false,
            last: None,
            pacing: Pacing { followed: BTreeSet::new(), busy_rounds: 0 },
        }
    }

    /// The key that the request is about.
    pub fn key(&self) -> (key: &[u8])
        ensures
            key@ == key_asked(self@.request),
    {
        match &self.request {
            ClientOp::Get { key } => key,
            ClientOp::Mutate { op: Mutation::Put { key, .. }, .. } => key,
            ClientOp::Mutate { op: Mutation::Delete { key }, .. } => key,
            ClientOp::Mutate { op: Mutation::Cas { key, .. }, .. } => key,
        }
    }

    /// Paces the search between two rounds.
    fn pace(&mut self) -> (pause: Option<Nanos>)
        requires
            old(self).pacing.busy_rounds < u32::MAX,
        ensures
            ({
                let (want, followed, busy_rounds) = paced(
                    old(self)@.followed,
                    old(self)@.busy_rounds,
                    old(self)@.hinted,
                    old(self)@.busy,
                );
                &&& is_step(Step::Pause(pause), StepView::Pause(want))
                &&& final(self)@ == (SearchView { followed, busy_rounds, ..old(self)@ })
            }),
            final(self).pacing.busy_rounds <= old(self).pacing.busy_rounds + 1,
            final(self).rounds == old(self).rounds,
    {
        match self.hinted {
            Some(id) => {
                if !self.pacing.followed.contains(&id) {
                    self.pacing.followed.insert(id);
                    self.pacing.busy_rounds = 0;
                    return None;
                }
            },
            None => {},
        }
        if !self.busy {
            self.pacing.busy_rounds = 0;
            return Some(RETRY_PAUSE);
        }
        let rounds = self.pacing.busy_rounds;
        let factor: u128 = if rounds == 0 {
            1
        } else if rounds == 1 {
            2
        } else if rounds == 2 {
            4
        } else {
            8
        };
        self.pacing.busy_rounds = rounds + 1;
        Some(RETRY_PAUSE * factor)
    }

    /// Chooses the nodes of a round.
    fn route(&mut self, client: &Client, shard: Option<ShardId>)
        ensures
            final(self)@ == routed(old(self)@, client@, shard),
            final(self).pacing == old(self).pacing,
    {
        assert(client@.endpoints.dom() =~= client.endpoints@.dom());
        let named = match self.hinted {
            Some(id) => if client.endpoints.contains_key(&id) {
                Some(id)
            } else {
                None
            },
            None => None,
        };
        self.hinted = None;
        self.order = match named {
            Some(id) => {
                let mut only: Vec<NodeId> = Vec::new();
                only.push(id);
                assert(only@ =~= seq![id]);
                only
            },
            None => client.candidates(shard),
        };
        self.busy = false;
        self.phase = Phase::Trying;
    }

    /// Says what to do next. `shard` is the key's, under the placement that the
    /// client has now; none without one.
    pub fn step(&mut self, client: &Client, shard: Option<ShardId>) -> (step: Step)
        requires
            old(self).wf(),
        ensures
            final(self).wf(),
            final(self)@ == stepped(old(self)@, client@, shard).0,
            is_step(step, stepped(old(self)@, client@, shard).1),
    {
        if self.phase == Phase::Between {
            if self.rounds >= RETRY_ROUNDS {
                return Step::GiveUp(ClientError::NoReachableNode { last: self.last.clone() });
            }
            self.rounds = self.rounds + 1;
            self.phase = Phase::Routing;
            if client.placement.is_none() {
                return Step::Refresh;
            }
        }
        if self.phase == Phase::Routing {
            self.route(client, shard);
        }
        if self.order.len() > 0 {
            let ghost before = self.order@;
            let id = self.order.remove(0);
            assert(self.order@ =~= before.skip(1));
            return Step::Ask(id);
        }
        let pause = self.pace();
        self.phase = Phase::Between;
        Step::Pause(pause)
    }
}

impl Search {
    /// Takes in how an attempt at `id` came back, for a key of this shard.
    /// Returns the answer, if it is one.
    pub fn meet<T>(
        &mut self,
        client: &mut Client,
        id: NodeId,
        shard: Option<ShardId>,
        attempt: Attempt<T>,
    ) -> (answer: Option<T>)
        requires
            old(self).wf(),
            old(client).wf(),
        ensures
            final(self).wf(),
            final(client).wf(),
            (final(self)@, final(client)@, answer) == met(
                old(self)@,
                old(client)@,
                id,
                shard,
                attempt,
            ),
    {
        assert(client@.endpoints.dom() =~= client.endpoints@.dom());
        match attempt {
            Attempt::Answered { not_hosted, not_leader, answer } => {
                match not_hosted {
                    Some(elsewhere) => {
                        self.hinted = client.redirect(shard, &elsewhere);
                        self.order = Vec::new();
                        return None;
                    },
                    None => {},
                }
                match not_leader {
                    None => {
                        client.accepted(id, shard);
                        Some(answer)
                    },
                    Some(other) => {
                        client.refused(shard);
                        if other.leader_hint != 0 && client.endpoints.contains_key(
                            &other.leader_hint,
                        ) {
                            self.hinted = Some(other.leader_hint);
                            self.order = Vec::new();
                        }
                        None
                    },
                }
            },
            Attempt::Refused(refusal) => {
                self.last = Some(refusal.message().clone());
                match refusal {
                    Refusal::Busy(_) => {
                        self.busy = true;
                    },
                    Refusal::Gone(_) => {
                        client.forget(id);
                    },
                }
                None
            },
        }
    }
}

/// An order holds no node twice.
pub open spec fn distinct(order: Seq<NodeId>) -> bool {
    forall|i: int, j: int| 0 <= i < j < order.len() ==> order[i] != order[j]
}

proof fn lemma_extended(order: Seq<NodeId>, ids: Seq<NodeId>, known: Set<NodeId>)
    requires
        distinct(order),
    ensures
        distinct(extended(order, ids, known)),
        order.len() <= extended(order, ids, known).len(),
        forall|i: int|
            0 <= i < order.len() ==> #[trigger] extended(order, ids, known)[i] == order[i],
        forall|i: int|
            0 <= i < ids.len() && known.contains(#[trigger] ids[i]) ==> extended(
                order,
                ids,
                known,
            ).contains(ids[i]),
        forall|i: int|
            order.len() <= i < extended(order, ids, known).len() ==> known.contains(
                #[trigger] extended(order, ids, known)[i],
            ),
    decreases ids.len(),
{
    if ids.len() > 0 {
        let head = ids.drop_last();
        let last = ids.last();
        lemma_extended(order, head, known);
        let before = extended(order, head, known);
        let after = extended(order, ids, known);
        assert forall|i: int, j: int| 0 <= i < j < after.len() implies after[i] != after[j] by {
            if j == before.len() {
                assert(before[i] == after[i]);
                assert(before.contains(before[i]));
            }
        }
        assert forall|i: int| 0 <= i < ids.len() && known.contains(#[trigger] ids[i]) implies
            after.contains(ids[i]) by {
            if i < head.len() {
                assert(head[i] == ids[i]);
                let k = choose|k: int| 0 <= k < before.len() && before[k] == ids[i];
                assert(after[k] == ids[i]);
            } else if before.contains(last) {
                let k = choose|k: int| 0 <= k < before.len() && before[k] == last;
                assert(after[k] == last);
            } else {
                assert(after[before.len() as int] == last);
            }
        }
    }
}

/// Whoever the client remembers to lead is a node it knows.
pub open spec fn leader_known(client: ClientView) -> bool {
    client.leader matches Some(id) ==> client.endpoints.contains_key(id)
}

/// A client asks nobody twice in a round and leaves nobody out: exactly the
/// nodes it knows are candidates, each once, with the leader it remembers for
/// the key's shard in front. The one node it may ask without an address is the
/// leader it remembers while it knows no shard.
pub proof fn law_candidates(client: ClientView, shard: Option<ShardId>, id: NodeId)
    requires
        client.endpoints.dom().finite(),
    ensures
        distinct(order_for(client, shard)),
        client.endpoints.contains_key(id) ==> order_for(client, shard).contains(id),
        order_for(client, shard).contains(id) ==> client.endpoints.contains_key(id) || (shard is None
            && client.leader == Some(id)),
        leader_known(client) ==> (order_for(client, shard).contains(id)
            <==> client.endpoints.contains_key(id)),
        shard is Some && client.leaders.contains_key(shard->0) && client.endpoints.contains_key(
            client.leaders[shard->0],
        ) ==> order_for(client, shard)[0] == client.leaders[shard->0],
{
    let known = client.endpoints.dom();
    crate::ids::lemma_in_order_exists(known);
    let everyone = in_order(known);
    let near = match shard {
        Some(shard) => {
            let first = if client.leaders.contains_key(shard) && known.contains(
                client.leaders[shard],
            ) {
                seq![client.leaders[shard]]
            } else {
                Seq::empty()
            };
            lemma_extended(first, placed(client, shard), known);
            if first.len() > 0 {
                assert(extended(first, placed(client, shard), known)[0] == first[0]);
            }
            extended(first, placed(client, shard), known)
        },
        None => match client.leader {
            Some(leader) => seq![leader],
            None => Seq::empty(),
        },
    };
    lemma_extended(near, everyone, known);
    let order = order_for(client, shard);
    assert(order == extended(near, everyone, known));
    if near.len() > 0 {
        assert(order[0] == near[0]);
    }
    if known.contains(id) {
        assert(everyone.to_set().contains(id));
        let i = choose|i: int| 0 <= i < everyone.len() && everyone[i] == id;
        assert(known.contains(everyone[i]));
    }
    if order.contains(id) {
        let i = choose|i: int| 0 <= i < order.len() && order[i] == id;
        if i < near.len() {
            assert(order[i] == near[i]);
        } else {
            assert(known.contains(order[i]));
        }
    }
}

/// A client's placement never goes back: a node's map replaces it exactly when
/// it is one and the client has none or an older one, and every leader it
/// remembers is forgotten exactly then. An address that is known stays, and a
/// node that was not known is taken in only with an address.
pub proof fn law_a_refresh_never_goes_back(
    client: ClientView,
    version: u64,
    num_shards: u32,
    shards: Seq<Vec<NodeId>>,
    members: Seq<(NodeId, String)>,
    id: NodeId,
)
    ensures
        ({
            let after = after_map(client, version, num_shards, shards);
            let usable = version != 0 && num_shards != 0;
            let replaced = usable && (client.placement matches Some((known, _, _)) ==> version
                > known);
            &&& replaced ==> after.placement == Some((version, num_shards as u16, shards))
            &&& replaced ==> after.leaders == Map::<ShardId, NodeId>::empty()
            &&& !replaced ==> after == client
            &&& after == (ClientView {
                placement: after.placement,
                leaders: after.leaders,
                ..client
            })
            &&& client.placement matches Some((known, _, _)) ==> (after.placement matches Some(
                (now, _, _),
            ) && now >= known)
        }),
        ({
            let after = with_members(client.endpoints, members);
            &&& client.endpoints.contains_key(id) ==> after.contains_key(id) && after[id]
                == client.endpoints[id]
            &&& after.contains_key(id) && !client.endpoints.contains_key(id) ==> {
                &&& after[id].len() > 0
                &&& exists|i: int|
                    0 <= i < members.len() && (#[trigger] members[i]).0 == id && members[i].1@
                        == after[id]
            }
            &&& forall|i: int|
                0 <= i < members.len() && (#[trigger] members[i]).0 == id && members[i].1@.len() > 0
                    ==> after.contains_key(id)
        }),
{
    lemma_with_members(client.endpoints, members, id);
}

proof fn lemma_with_members(
    endpoints: Map<NodeId, Seq<char>>,
    members: Seq<(NodeId, String)>,
    id: NodeId,
)
    ensures
        ({
            let after = with_members(endpoints, members);
            &&& endpoints.contains_key(id) ==> after.contains_key(id) && after[id] == endpoints[id]
            &&& after.contains_key(id) && !endpoints.contains_key(id) ==> {
                &&& after[id].len() > 0
                &&& exists|i: int|
                    0 <= i < members.len() && (#[trigger] members[i]).0 == id && members[i].1@
                        == after[id]
            }
            &&& forall|i: int|
                0 <= i < members.len() && (#[trigger] members[i]).0 == id && members[i].1@.len() > 0
                    ==> after.contains_key(id)
        }),
    decreases members.len(),
{
    if members.len() > 0 {
        let head = members.drop_last();
        lemma_with_members(endpoints, head, id);
        let before = with_members(endpoints, head);
        let after = with_members(endpoints, members);
        let last = members.len() - 1;
        if after.contains_key(id) && !endpoints.contains_key(id) {
            if before.contains_key(id) {
                let i = choose|i: int|
                    0 <= i < head.len() && (#[trigger] head[i]).0 == id && head[i].1@ == before[id];
                assert(members[i].0 == id && members[i].1@ == after[id]);
            } else {
                assert(members[last].0 == id && members[last].1@ == after[id]);
            }
        }
        assert forall|i: int|
            0 <= i < members.len() && (#[trigger] members[i]).0 == id && members[i].1@.len()
                > 0 implies after.contains_key(id) by {
            if i < head.len() {
                assert(head[i].0 == id);
            }
        }
    }
}

/// The leader a client remembers stays one it knows, whatever a node it knows
/// answers and whatever members it is told of.
pub proof fn law_the_leader_stays_known<T>(
    s: SearchView,
    client: ClientView,
    id: NodeId,
    shard: Option<ShardId>,
    attempt: Attempt<T>,
    members: Seq<(NodeId, String)>,
)
    requires
        leader_known(client),
        client.endpoints.contains_key(id),
    ensures
        leader_known(met(s, client, id, shard, attempt).1),
        leader_known(
            (ClientView { endpoints: with_members(client.endpoints, members), ..client }),
        ),
{
    if client.leader is Some {
        lemma_with_members(client.endpoints, members, client.leader->0);
    }
}

/// A hint is worth one free hop per request: the first time it is followed at
/// once, and when it comes again the search pauses, so two nodes that point at
/// each other do not spin it.
pub proof fn law_one_free_hop_per_hint(
    followed: Set<NodeId>,
    busy_rounds: u32,
    id: NodeId,
    busy: bool,
    later_rounds: u32,
    later_busy: bool,
)
    ensures
        !followed.contains(id) ==> paced(followed, busy_rounds, Some(id), busy).0 is None,
        paced(
            paced(followed, busy_rounds, Some(id), busy).1,
            later_rounds,
            Some(id),
            later_busy,
        ).0 is Some,
{
}

/// A pause grows while nodes are busy and never past four hundred milliseconds;
/// a round that met nobody keeps the plain one.
pub proof fn law_backoff_is_bounded(followed: Set<NodeId>, busy_rounds: u32, hinted: Option<NodeId>)
    requires
        busy_rounds < u32::MAX,
    ensures
        paced(followed, busy_rounds, hinted, true).0 matches Some(pause) ==> RETRY_PAUSE <= pause
            <= 400_000_000,
        paced(followed, busy_rounds, hinted, false).0 matches Some(pause) ==> pause == RETRY_PAUSE,
        backoff(busy_rounds) <= backoff((busy_rounds + 1) as u32),
{
}

/// A busy node costs the client nothing it knew: it keeps the connection and
/// the leader it remembers. One that is gone loses its connection.
pub proof fn law_a_busy_node_is_kept<T>(
    s: SearchView,
    client: ClientView,
    id: NodeId,
    shard: Option<ShardId>,
    attempt: Attempt<T>,
)
    requires
        attempt is Refused,
    ensures
        attempt->Refused_0 is Busy ==> met(s, client, id, shard, attempt).1 == client,
        attempt->Refused_0 is Gone ==> !met(s, client, id, shard, attempt).1.channels.contains(id),
{
}

/// Every attempt asks the same, down to the value and the expectation of a
/// write and the context it carries, whatever the request meets on the way.
pub proof fn law_a_retry_is_the_same_request<T>(
    s: SearchView,
    client: ClientView,
    id: NodeId,
    shard: Option<ShardId>,
    attempt: Attempt<T>,
)
    ensures
        stepped(s, client, shard).0.request == s.request,
        met(s, client, id, shard, attempt).0.request == s.request,
{
}

/// What may happen to a client while a request of its is on the way.
pub enum Event<T> {
    Step(Option<ShardId>),
    Met(NodeId, Option<ShardId>, Attempt<T>),
    Connected(NodeId),
    Forgotten(NodeId),
    MapTold(u64, u32, Seq<Vec<NodeId>>),
    MembersTold(Seq<(NodeId, String)>),
}

/// Where a request and its client stand after one event.
pub open spec fn happened<T>(s: SearchView, client: ClientView, event: Event<T>) -> (
    SearchView,
    ClientView,
) {
    match event {
        Event::Step(shard) => (stepped(s, client, shard).0, client),
        Event::Met(id, shard, attempt) => {
            let (s, client, _) = met(s, client, id, shard, attempt);
            (s, client)
        },
        Event::Connected(id) => (
            s,
            ClientView { channels: client.channels.insert(id), ..client },
        ),
        Event::Forgotten(id) => (s, after_forgetting(client, id)),
        Event::MapTold(version, num_shards, shards) => (
            s,
            after_map(client, version, num_shards, shards),
        ),
        Event::MembersTold(members) => (
            s,
            ClientView { endpoints: with_members(client.endpoints, members), ..client },
        ),
    }
}

/// Where a request and its client stand after some events.
pub open spec fn ran<T>(s: SearchView, client: ClientView, events: Seq<Event<T>>) -> (
    SearchView,
    ClientView,
)
    decreases events.len(),
{
    if events.len() == 0 {
        (s, client)
    } else {
        let (s, client) = ran(s, client, events.drop_last());
        happened(s, client, events.last())
    }
}

/// Whatever the nodes answer, and however a write ends: every attempt at it
/// carries the same change, under the client's name and one number, and the
/// write that the client starts next has the number after it. A client keeps
/// its name.
pub proof fn law_writes_are_numbered<T>(
    client: ClientView,
    first: Change,
    events: Seq<Event<T>>,
    second: Change,
)
    requires
        client.sequence + 2 <= u64::MAX,
    ensures
        ({
            let (begun, write) = write_started(client, first);
            let (later, after) = ran(write, begun, events);
            let (last, next) = write_started(after, second);
            let ctx = RequestCtx {
                client_id: client.client_id,
                sequence: (client.sequence + 1) as u64,
            };
            &&& later.request == Request::Write(Some(ctx), first)
            &&& after.sequence == client.sequence + 1
            &&& after.client_id == client.client_id
            &&& next.request == Request::Write(
                Some(
                    RequestCtx {
                        client_id: client.client_id,
                        sequence: (client.sequence + 2) as u64,
                    },
                ),
                second,
            )
            &&& last.sequence == client.sequence + 2
            &&& last.client_id == client.client_id
        }),
{
    let (begun, write) = write_started(client, first);
    lemma_ran_keeps(write, begun, events);
}

proof fn lemma_ran_keeps<T>(s: SearchView, client: ClientView, events: Seq<Event<T>>)
    ensures
        ran(s, client, events).0.request == s.request,
        ran(s, client, events).1.sequence == client.sequence,
        ran(s, client, events).1.client_id == client.client_id,
    decreases events.len(),
{
    if events.len() > 0 {
        lemma_ran_keeps(s, client, events.drop_last());
    }
}

/// A request ends: a round over a finite order is left in finitely many steps,
/// each round counts, and once the budget is spent the search gives up.
pub proof fn law_the_budget_is_bounded(
    s: SearchView,
    client: ClientView,
    shard: Option<ShardId>,
)
    requires
        s.rounds <= RETRY_ROUNDS,
    ensures
        ({
            let (next, step) = stepped(s, client, shard);
            &&& next.rounds <= RETRY_ROUNDS
            &&& step is GiveUp <==> s.phase == Phase::Between && s.rounds == RETRY_ROUNDS
            &&& s.phase == Phase::Between && !(step is GiveUp) ==> next.rounds == s.rounds + 1
            &&& s.phase == Phase::Trying && step is Ask ==> next.order.len() < s.order.len()
            &&& s.phase == Phase::Trying && s.order.len() == 0 ==> next.phase == Phase::Between
        }),
{
}

/// Whether an attempt sends the client elsewhere: the node answered that the
/// shard is held elsewhere, or named a leader that the client knows.
pub open spec fn sent_on<T>(client: ClientView, attempt: Attempt<T>) -> bool {
    attempt matches Attempt::Answered { not_hosted, not_leader, .. } && (not_hosted is Some
        || (not_leader matches Some(other) && other.leader_hint != 0
        && client.endpoints.contains_key(other.leader_hint)))
}

/// A round goes on until somebody answers or names somebody: an attempt that
/// sends the client nowhere leaves the nodes still to try as they are, and the
/// node that was named before it too. An answer is one exactly where the node
/// neither disowns the shard nor the leadership.
pub proof fn law_a_round_goes_on<T>(
    s: SearchView,
    client: ClientView,
    id: NodeId,
    shard: Option<ShardId>,
    attempt: Attempt<T>,
)
    ensures
        ({
            let (next, _, answer) = met(s, client, id, shard, attempt);
            &&& !sent_on(client, attempt) ==> next.order == s.order && next.hinted == s.hinted
            &&& next.phase == s.phase
            &&& next.rounds == s.rounds
            &&& next.followed == s.followed
            &&& next.busy_rounds == s.busy_rounds
            &&& s.busy ==> next.busy
            &&& next.busy && !s.busy ==> (attempt matches Attempt::Refused(Refusal::Busy(_)))
            &&& attempt matches Attempt::Refused(refusal) ==> {
                &&& next.last == Some(refusal.text())
                &&& refusal is Busy ==> next.busy
                &&& answer is None
            }
            &&& attempt is Answered ==> next.last == s.last
            &&& answer is Some <==> (attempt matches Attempt::Answered { not_hosted, not_leader, .. }
                && not_hosted is None && not_leader is None)
            &&& answer matches Some(a) ==> attempt->answer == a
        }),
{
}

/// The search and the client after some attempts in one round, each at the node
/// that the search says next.
pub open spec fn after_attempts<T>(
    s: SearchView,
    client: ClientView,
    shard: Option<ShardId>,
    attempts: Seq<Attempt<T>>,
) -> (SearchView, ClientView)
    decreases attempts.len(),
{
    if attempts.len() == 0 {
        (s, client)
    } else {
        let (before, known) = after_attempts(s, client, shard, attempts.drop_last());
        let (asking, step) = stepped(before, known, shard);
        let id = match step {
            StepView::Ask(id) => id,
            _ => 0,
        };
        let (after, knows, _) = met(asking, known, id, shard, attempts.last());
        (after, knows)
    }
}

/// Every candidate of a round is asked before the round ends, in order: as long
/// as no attempt brings an answer or sends the client elsewhere, the next node
/// asked is the next of the order, and only when there is none left does the
/// search pause.
pub proof fn law_every_candidate_is_asked<T>(
    s: SearchView,
    client: ClientView,
    shard: Option<ShardId>,
    attempts: Seq<Attempt<T>>,
)
    requires
        s.phase == Phase::Trying,
        attempts.len() <= s.order.len(),
        forall|i: int|
            #![trigger attempts[i]]
            0 <= i < attempts.len() ==> !sent_on(client, attempts[i]),
    ensures
        ({
            let (now, known) = after_attempts(s, client, shard, attempts);
            let n = attempts.len() as int;
            &&& now.phase == Phase::Trying
            &&& now.order == s.order.skip(n)
            &&& now.hinted == s.hinted
            &&& known.endpoints == client.endpoints
            &&& n < s.order.len() ==> stepped(now, known, shard).1 == StepView::Ask(s.order[n])
            &&& n == s.order.len() ==> stepped(now, known, shard).1 is Pause
        }),
    decreases attempts.len(),
{
    if attempts.len() == 0 {
        assert(s.order.skip(0) =~= s.order);
    } else {
        let head = attempts.drop_last();
        assert forall|i: int| #![trigger head[i]] 0 <= i < head.len() implies !sent_on(
            client,
            head[i],
        ) by {
            assert(attempts[i] == head[i]);
        }
        law_every_candidate_is_asked(s, client, shard, head);
        let (before, known) = after_attempts(s, client, shard, head);
        let (asking, step) = stepped(before, known, shard);
        let n = head.len() as int;
        assert(attempts[n] == attempts.last());
        assert(!sent_on(known, attempts[n]));
        law_a_round_goes_on(asking, known, s.order[n], shard, attempts.last());
        assert(s.order.skip(n).skip(1) =~= s.order.skip(n + 1));
    }
}

/// What a node that disowns a request costs, and what it brings. One that names
/// a leader the client knows, or the first of the shard's holders that it knows,
/// is taken at its word: the round ends there, and the node named is the only
/// one asked in the next. One that says the shard is held elsewhere and names
/// nobody the client knows ends the round too.
pub proof fn law_a_named_node_is_asked_next<T>(
    s: SearchView,
    client: ClientView,
    id: NodeId,
    shard: Option<ShardId>,
    attempt: Attempt<T>,
    named: NodeId,
    place: int,
    later: ClientView,
    later_shard: Option<ShardId>,
)
    requires
        s.phase == Phase::Trying,
        s.rounds < RETRY_ROUNDS,
        match attempt {
            Attempt::Answered { not_hosted: Some(elsewhere), .. } => {
                &&& 0 <= place < elsewhere.replicas@.len()
                &&& elsewhere.replicas@[place] == named
                &&& forall|j: int|
                    0 <= j < place ==> !client.endpoints.contains_key(
                        #[trigger] elsewhere.replicas@[j],
                    )
            },
            Attempt::Answered { not_hosted: None, not_leader: Some(other), .. } => {
                other.leader_hint == named && named != 0
            },
            _ => false,
        },
        client.endpoints.contains_key(named),
        later.endpoints.contains_key(named),
        later.placement is Some,
    ensures
        ({
            let (told, _, answer) = met(s, client, id, shard, attempt);
            let (ended, pause) = stepped(told, client, shard);
            let (begun, ask) = stepped(ended, later, later_shard);
            &&& answer is None
            &&& pause is Pause
            &&& !s.followed.contains(named) ==> pause == StepView::Pause(None)
            &&& ended.followed.contains(named)
            &&& ask == StepView::Ask(named)
            &&& begun.order.len() == 0
            &&& begun.hinted is None
        }),
{
    match attempt {
        Attempt::Answered { not_hosted: Some(elsewhere), .. } => {
            lemma_first_known(elsewhere.replicas@, client.endpoints.dom(), place);
        },
        _ => {},
    }
    let (told, _, _) = met(s, client, id, shard, attempt);
    assert(told.hinted == Some(named));
    let (ended, _) = stepped(told, client, shard);
    assert(seq![named].skip(1) =~= Seq::<NodeId>::empty());
}

proof fn lemma_first_known(ids: Seq<NodeId>, known: Set<NodeId>, place: int)
    requires
        0 <= place < ids.len(),
        known.contains(ids[place]),
        forall|j: int| 0 <= j < place ==> !known.contains(#[trigger] ids[j]),
    ensures
        first_known(ids, known) == Some(ids[place]),
    decreases place,
{
    if place > 0 {
        let rest = ids.skip(1);
        assert forall|j: int| 0 <= j < place - 1 implies !known.contains(#[trigger] rest[j]) by {
            assert(rest[j] == ids[j + 1]);
        }
        assert(!known.contains(ids[0]));
        lemma_first_known(rest, known, place - 1);
    }
}

proof fn lemma_none_known(ids: Seq<NodeId>, known: Set<NodeId>)
    requires
        forall|j: int| 0 <= j < ids.len() ==> !known.contains(#[trigger] ids[j]),
    ensures
        first_known(ids, known) is None,
    decreases ids.len(),
{
    if ids.len() > 0 {
        let rest = ids.skip(1);
        assert forall|j: int| 0 <= j < rest.len() implies !known.contains(#[trigger] rest[j]) by {
            assert(rest[j] == ids[j + 1]);
        }
        assert(!known.contains(ids[0]));
        lemma_none_known(rest, known);
    }
}

/// A node that holds nothing and names nobody the client knows ends the round
/// with nobody in mind: the next one asks the candidates again.
pub proof fn law_a_redirect_to_nobody_ends_the_round<T>(
    s: SearchView,
    client: ClientView,
    id: NodeId,
    shard: Option<ShardId>,
    elsewhere: NotHosted,
    not_leader: Option<NotLeader>,
    answer: T,
)
    requires
        forall|j: int|
            0 <= j < elsewhere.replicas@.len() ==> !client.endpoints.contains_key(
                #[trigger] elsewhere.replicas@[j],
            ),
    ensures
        ({
            let attempt = Attempt::Answered { not_hosted: Some(elsewhere), not_leader, answer };
            let (told, _, got) = met(s, client, id, shard, attempt);
            told.hinted is None && told.order.len() == 0 && got is None
        }),
{
    lemma_none_known(elsewhere.replicas@, client.endpoints.dom());
}

/// What an attempt teaches a client, and that it teaches nothing else. Whoever
/// accepted is remembered, for the shard and at large, and is asked first next
/// time; whoever disowned the request leaves nobody remembered for the shard or
/// at large; a busy node leaves everything; a dead one loses its connection, and
/// is no longer the last that accepted. A placement is dropped exactly where a
/// node that does not hold the shard knows a newer one, or none.
pub proof fn law_what_an_attempt_teaches<T>(
    s: SearchView,
    client: ClientView,
    id: NodeId,
    shard: Option<ShardId>,
    attempt: Attempt<T>,
    other: ShardId,
    peer: NodeId,
)
    requires
        client.endpoints.dom().finite(),
    ensures
        ({
            let after = met(s, client, id, shard, attempt).1;
            let disowned = attempt matches Attempt::Answered { not_hosted, not_leader, .. } && (
            not_hosted is Some || not_leader is Some);
            let outdated = attempt matches Attempt::Answered { not_hosted, .. } && (not_hosted matches
                Some(elsewhere) && (elsewhere.map_version == 0 || (client.placement matches Some(
                (version, _, _),
            ) && version < elsewhere.map_version)));
            &&& after.endpoints == client.endpoints
            &&& after.client_id == client.client_id
            &&& after.sequence == client.sequence
            &&& after.request_timeout == client.request_timeout
            &&& peer != id || !(attempt matches Attempt::Refused(Refusal::Gone(_)))
                ==> after.channels.contains(peer) == client.channels.contains(peer)
            &&& after.placement == if outdated {
                None
            } else {
                client.placement
            }
            &&& Some(other) != shard ==> after.leaders.contains_key(other)
                == client.leaders.contains_key(other) && after.leaders[other]
                == client.leaders[other]
            &&& attempt is Refused ==> after.leaders == client.leaders
            &&& disowned ==> after.leader is None && (shard matches Some(mine)
                ==> !after.leaders.contains_key(mine))
            &&& attempt is Answered && !disowned ==> {
                &&& after.leader == Some(id)
                &&& client.endpoints.contains_key(id) ==> order_for(after, shard)[0] == id
                &&& shard matches Some(mine) ==> after.leaders.contains_key(mine)
                    && after.leaders[mine] == id
            }
            &&& attempt matches Attempt::Refused(Refusal::Busy(_)) ==> after.leader == client.leader
            &&& attempt matches Attempt::Refused(Refusal::Gone(_)) ==> {
                &&& !after.channels.contains(id)
                &&& after.leader == if client.leader == Some(id) {
                    None
                } else {
                    client.leader
                }
            }
        }),
{
    let after = met(s, client, id, shard, attempt).1;
    match attempt {
        Attempt::Answered { not_hosted: None, not_leader: None, .. } => {
            law_candidates(after, shard, id);
            if shard is None {
                let known = after.endpoints.dom();
                crate::ids::lemma_in_order_exists(known);
                lemma_extended(seq![id], in_order(known), known);
                assert(extended(seq![id], in_order(known), known)[0] == seq![id][0]);
            }
        },
        _ => {},
    }
}

/// How a round begins. Without a placement the client asks around for one
/// first. Then a node that was named, and is known, is the only one asked;
/// otherwise the candidates are, all of them, from the first. What the last
/// round met is behind it, and the budget counts one more.
pub proof fn law_a_round_asks_the_candidates(
    s: SearchView,
    client: ClientView,
    shard: Option<ShardId>,
)
    requires
        s.rounds <= RETRY_ROUNDS,
        s.phase != Phase::Trying,
    ensures
        RETRY_ROUNDS == 120,
        ({
            let (next, step) = stepped(s, client, shard);
            let order = match s.hinted {
                Some(id) => if client.endpoints.contains_key(id) {
                    seq![id]
                } else {
                    order_for(client, shard)
                },
                None => order_for(client, shard),
            };
            let spent = s.phase == Phase::Between && s.rounds == RETRY_ROUNDS;
            let refreshes = s.phase == Phase::Between && !spent && client.placement is None;
            &&& spent ==> step == StepView::GiveUp(s.last) && next == s
            &&& refreshes <==> step is Refresh
            &&& refreshes ==> next.phase == Phase::Routing && next.hinted == s.hinted && next.rounds
                == s.rounds + 1
            &&& !spent && !refreshes ==> {
                &&& next.last == s.last
                &&& next.hinted is None
                &&& !next.busy
                &&& next.rounds == s.rounds + (if s.phase == Phase::Between {
                    1int
                } else {
                    0
                })
                &&& order.len() > 0 ==> step == StepView::Ask(order[0]) && seq![order[0]]
                    + next.order == order && next.phase == Phase::Trying
                &&& order.len() == 0 ==> step is Pause && next.phase == Phase::Between
            }
        }),
{
    let (next, step) = stepped(s, client, shard);
    let order = match s.hinted {
        Some(id) => if client.endpoints.contains_key(id) {
            seq![id]
        } else {
            order_for(client, shard)
        },
        None => order_for(client, shard),
    };
    if order.len() > 0 {
        assert(seq![order[0]] + order.skip(1) =~= order);
    }
}

/// How a round ends: on a node that was named and not followed yet, at once, and
/// it counts as followed; otherwise with a pause of fifty milliseconds, which
/// doubles with every busy round up to four hundred and starts over with the
/// first that is not.
pub proof fn law_pauses_double_while_nodes_are_busy(
    s: SearchView,
    client: ClientView,
    shard: Option<ShardId>,
)
    requires
        s.phase == Phase::Trying,
        s.order.len() == 0,
        s.busy_rounds < u32::MAX,
    ensures
        ({
            let (next, step) = stepped(s, client, shard);
            let fresh = s.hinted matches Some(id) && !s.followed.contains(id);
            let longer = stepped(
                (SearchView { busy_rounds: (s.busy_rounds + 1) as u32, ..s }),
                client,
                shard,
            ).1;
            &&& next.phase == Phase::Between
            &&& next.hinted == s.hinted
            &&& next.rounds == s.rounds
            &&& next.last == s.last
            &&& fresh ==> step == StepView::Pause(None) && next.busy_rounds == 0 && next.followed
                == s.followed.insert(s.hinted->0)
            &&& !fresh ==> next.followed == s.followed
            &&& !fresh && !s.busy ==> step == StepView::Pause(Some(50_000_000)) && next.busy_rounds
                == 0
            &&& !fresh && s.busy ==> {
                &&& step matches StepView::Pause(Some(pause)) && {
                    &&& s.busy_rounds == 0 ==> pause == 50_000_000
                    &&& s.busy_rounds + 1 < u32::MAX ==> longer == StepView::Pause(
                        Some(
                            if pause < 400_000_000 {
                                2 * pause
                            } else {
                                400_000_000
                            },
                        ),
                    )
                }
                &&& next.busy_rounds == s.busy_rounds + 1
            }
        }),
{
}

/// Where each of a list's ids stands first, in the order it was appended.
proof fn lemma_extended_in_order(
    order: Seq<NodeId>,
    ids: Seq<NodeId>,
    known: Set<NodeId>,
    i: int,
    a: int,
    b: int,
)
    requires
        distinct(order),
        order.len() <= i < extended(order, ids, known).len(),
        0 <= a < ids.len(),
        extended(order, ids, known)[i] == ids[a],
        forall|k: int| 0 <= k < a ==> ids[k] != ids[a],
        0 <= b < a,
        known.contains(ids[b]),
    ensures
        exists|j: int| 0 <= j < i && extended(order, ids, known)[j] == ids[b],
    decreases ids.len(),
{
    let head = ids.drop_last();
    let before = extended(order, head, known);
    let after = extended(order, ids, known);
    lemma_extended(order, head, known);
    if a < head.len() {
        if i < before.len() {
            assert(after[i] == before[i]);
            assert forall|k: int| 0 <= k < a implies head[k] != head[a] by {
                assert(ids[k] != ids[a]);
            }
            lemma_extended_in_order(order, head, known, i, a, b);
            let j = choose|j: int| 0 <= j < i && before[j] == head[b];
            assert(after[j] == ids[b]);
        } else {
            assert(after[i] == ids.last());
            assert(head[a] == ids.last());
            assert(before.contains(head[a]));
            assert(false);
        }
    } else {
        assert(head[b] == ids[b]);
        assert(before.contains(head[b]));
        let j = choose|j: int| 0 <= j < before.len() && before[j] == head[b];
        if i < before.len() {
            assert(before[i] == ids[a]);
            lemma_extended_only(order, head, known, i);
            let k = choose|k: int| 0 <= k < head.len() && head[k] == before[i];
            assert(ids[k] == ids[a]);
            assert(false);
        } else {
            assert(after[j] == ids[b]);
        }
    }
}

/// Whatever is appended is one of the list's, and known.
proof fn lemma_extended_only(order: Seq<NodeId>, ids: Seq<NodeId>, known: Set<NodeId>, i: int)
    requires
        order.len() <= i < extended(order, ids, known).len(),
    ensures
        exists|k: int| 0 <= k < ids.len() && ids[k] == extended(order, ids, known)[i],
        known.contains(extended(order, ids, known)[i]),
    decreases ids.len(),
{
    if ids.len() > 0 {
        let head = ids.drop_last();
        let before = extended(order, head, known);
        if i < before.len() {
            lemma_extended_only(order, head, known, i);
            let k = choose|k: int| 0 <= k < head.len() && head[k] == before[i];
            assert(ids[k] == before[i]);
        } else {
            assert(ids[ids.len() - 1] == ids.last());
        }
    }
}

/// Near before far: of the nodes a client knows, the leader it remembers for a
/// shard comes first, then the shard's other replicas in the order the placement
/// lists them, then everyone else by id.
pub proof fn law_replicas_are_asked_before_others(
    client: ClientView,
    shard: ShardId,
    replicas: Seq<NodeId>,
    i: int,
    j: int,
    a: int,
    b: int,
)
    requires
        client.endpoints.dom().finite(),
        client.placement matches Some((_, _, shards)) ==> replicas == replicas_in(shards, shard),
        client.placement is None ==> replicas == Seq::<NodeId>::empty(),
        0 <= i < order_for(client, Some(shard)).len(),
        0 <= j < order_for(client, Some(shard)).len(),
        !(client.leaders.contains_key(shard) && client.leaders[shard] == order_for(
            client,
            Some(shard),
        )[i]),
        !(client.leaders.contains_key(shard) && client.leaders[shard] == order_for(
            client,
            Some(shard),
        )[j]),
    ensures
        ({
            let order = order_for(client, Some(shard));
            &&& replicas.contains(order[i]) && !replicas.contains(order[j]) ==> i < j
            &&& !replicas.contains(order[i]) && !replicas.contains(order[j]) && order[i] < order[j]
                ==> i < j
            &&& 0 <= a < b < replicas.len() && replicas[a] == order[i] && replicas[b] == order[j] && (
            forall|k: int| 0 <= k < b ==> #[trigger] replicas[k] != replicas[b]) ==> i < j
        }),
{
    let known = client.endpoints.dom();
    crate::ids::lemma_in_order_exists(known);
    let everyone = in_order(known);
    let first = if client.leaders.contains_key(shard) && known.contains(client.leaders[shard]) {
        seq![client.leaders[shard]]
    } else {
        Seq::empty()
    };
    let order = order_for(client, Some(shard));
    law_candidates(client, Some(shard), order[i]);
    law_candidates(client, Some(shard), order[j]);
    assert(order.contains(order[i]) && order.contains(order[j]));
    assert(replicas == placed(client, shard));
    lemma_near_before_far(first, replicas, everyone, known, i, j, a, b);
}

proof fn lemma_near_before_far(
    first: Seq<NodeId>,
    replicas: Seq<NodeId>,
    everyone: Seq<NodeId>,
    known: Set<NodeId>,
    i: int,
    j: int,
    a: int,
    b: int,
)
    requires
        distinct(first),
        crate::ids::increasing(everyone),
        everyone.to_set() == known,
        ({
            let order = extended(extended(first, replicas, known), everyone, known);
            &&& 0 <= i < order.len()
            &&& 0 <= j < order.len()
            &&& known.contains(order[i])
            &&& known.contains(order[j])
            &&& !first.contains(order[i])
            &&& !first.contains(order[j])
        }),
    ensures
        ({
            let order = extended(extended(first, replicas, known), everyone, known);
            &&& replicas.contains(order[i]) && !replicas.contains(order[j]) ==> i < j
            &&& !replicas.contains(order[i]) && !replicas.contains(order[j]) && order[i] < order[j]
                ==> i < j
            &&& 0 <= a < b < replicas.len() && replicas[a] == order[i] && replicas[b] == order[j] && (
            forall|k: int| 0 <= k < b ==> #[trigger] replicas[k] != replicas[b]) ==> i < j
        }),
{
    let near = extended(first, replicas, known);
    let order = extended(near, everyone, known);
    lemma_extended(first, replicas, known);
    lemma_extended(near, everyone, known);
    assert forall|k: int| 0 <= k < first.len() implies first.contains(#[trigger] order[k]) by {
        assert(order[k] == near[k] && near[k] == first[k]);
    }
    assert(i >= first.len() && j >= first.len());
    // A known replica stands among the near.
    assert forall|k: int| 0 <= k < order.len() && replicas.contains(#[trigger] order[k])
        && known.contains(order[k]) implies k < near.len() by {
        let r = choose|r: int| 0 <= r < replicas.len() && replicas[r] == order[k];
        assert(near.contains(replicas[r]));
        let m = choose|m: int| 0 <= m < near.len() && near[m] == order[k];
        assert(order[m] == near[m]);
    }
    // Whoever else stands among the near is a replica.
    assert forall|k: int| first.len() <= k < near.len() implies replicas.contains(
        #[trigger] order[k],
    ) by {
        assert(order[k] == near[k]);
        lemma_extended_only(first, replicas, known, k);
    }
    if !replicas.contains(order[i]) && !replicas.contains(order[j]) && order[i] < order[j] {
        assert(i >= near.len() && j >= near.len());
        lemma_extended_only(near, everyone, known, i);
        lemma_extended_only(near, everyone, known, j);
        let x = choose|k: int| 0 <= k < everyone.len() && everyone[k] == order[i];
        let y = choose|k: int| 0 <= k < everyone.len() && everyone[k] == order[j];
        lemma_increasing(everyone, x, y);
        lemma_extended_in_order(near, everyone, known, j, y, x);
        let m = choose|m: int| 0 <= m < j && order[m] == everyone[x];
        assert(m == i);
    }
    if 0 <= a < b < replicas.len() && replicas[a] == order[i] && replicas[b] == order[j] && (forall|
        k: int,
    | 0 <= k < b ==> #[trigger] replicas[k] != replicas[b]) {
        assert(replicas.contains(order[i]) && replicas.contains(order[j]));
        assert(order[j] == near[j] && order[i] == near[i]);
        lemma_extended_in_order(first, replicas, known, j, b, a);
        let m = choose|m: int| 0 <= m < j && near[m] == replicas[a];
        assert(order[m] == near[m]);
        assert(m == i);
    }
}

proof fn lemma_increasing(ids: Seq<NodeId>, x: int, y: int)
    requires
        crate::ids::increasing(ids),
        0 <= x < ids.len(),
        0 <= y < ids.len(),
        ids[x] < ids[y],
    ensures
        x < y,
        forall|k: int| 0 <= k < y ==> ids[k] != ids[y],
{
    if y < x {
        assert(ids[y] < ids[x]);
    }
    assert forall|k: int| 0 <= k < y implies ids[k] != ids[y] by {
        assert(ids[k] < ids[y]);
    }
}

/// A client knows the nodes it was given, each at the address it was given last.
pub proof fn law_a_client_knows_its_endpoints(list: Seq<(NodeId, String)>, id: NodeId, i: int)
    ensures
        endpoints_in(list).contains_key(id) <==> exists|k: int|
            0 <= k < list.len() && (#[trigger] list[k]).0 == id,
        0 <= i < list.len() && list[i].0 == id && (forall|k: int|
            i < k < list.len() ==> (#[trigger] list[k]).0 != id) ==> endpoints_in(list)[id]
            == list[i].1@,
    decreases list.len(),
{
    if list.len() > 0 {
        let head = list.drop_last();
        law_a_client_knows_its_endpoints(head, id, i);
        assert(list[list.len() - 1] == list.last());
        if endpoints_in(head).contains_key(id) {
            let k = choose|k: int| 0 <= k < head.len() && (#[trigger] head[k]).0 == id;
            assert(list[k].0 == id);
        }
        if exists|k: int| 0 <= k < list.len() && (#[trigger] list[k]).0 == id {
            let k = choose|k: int| 0 <= k < list.len() && (#[trigger] list[k]).0 == id;
            if k < head.len() {
                assert(head[k].0 == id);
            }
        }
        if 0 <= i < head.len() && list[i].0 == id && (forall|k: int|
            i < k < list.len() ==> (#[trigger] list[k]).0 != id) {
            assert(list[list.len() - 1].0 != id);
            assert forall|k: int| i < k < head.len() implies (#[trigger] head[k]).0 != id by {
                assert(list[k].0 != id);
            }
            assert(head[i].0 == id);
        }
    }
}

/// What a client knows, and where a request stands, are seen whole.
pub proof fn law_a_client_is_seen_whole(client: Client, search: Search, id: NodeId)
    ensures
        client@.endpoints.contains_key(id) <==> client.endpoints@.contains_key(id),
        client.endpoints@.contains_key(id) ==> client@.endpoints[id] == client.endpoints@[id]@,
        client@.channels == client.channels@,
        client@.leader == client.leader,
        client@.leaders == client.leaders@,
        client@.client_id == client.client_id,
        client@.sequence == client.sequence,
        client@.request_timeout == client.request_timeout,
        client.placement is None <==> client@.placement is None,
        client.placement matches Some(p) ==> client@.placement == Some(
            (p.version, p.num_shards, p.shards@),
        ),
        search@.phase == search.phase,
        search@.rounds == search.rounds,
        search@.order == search.order@,
        search@.hinted == search.hinted,
        search@.busy == search.busy,
        search.last is None <==> search@.last is None,
        search.last matches Some(text) ==> search@.last == Some(text@),
        search@.followed == search.pacing.followed@,
        search@.busy_rounds == search.pacing.busy_rounds,
        match search.request {
            ClientOp::Get { key } => search@.request == Request::Read(key@) && key_asked(
                search@.request,
            ) == key@,
            ClientOp::Mutate { ctx, op } => search@.request == Request::Write(ctx, op@)
                && key_asked(search@.request) == match op {
                Mutation::Put { key, .. } => key@,
                Mutation::Delete { key } => key@,
                Mutation::Cas { key, .. } => key@,
            },
        },
{
}

/// A request starts afresh: between two rounds, with none begun, nobody to try,
/// nobody named and nothing held against anybody.
pub proof fn law_a_request_starts_afresh(request: Request)
    ensures
        ({
            let s = fresh_search(request);
            &&& s.request == request
            &&& s.phase == Phase::Between
            &&& s.rounds == 0
            &&& s.order.len() == 0
            &&& s.hinted is None
            &&& !s.busy
            &&& s.last is None
            &&& s.followed == Set::<NodeId>::empty()
            &&& s.busy_rounds == 0
        }),
{
}

/// A step is told as it is: whom to ask, how long to pause, and what was said last
/// where the search gives up.
pub proof fn law_a_step_is_told_as_it_is(step: Step, want: StepView)
    requires
        is_step(step, want),
    ensures
        match want {
            StepView::Refresh => step is Refresh,
            StepView::Ask(id) => step == Step::Ask(id),
            StepView::Pause(None) => step matches Step::Pause(pause) && pause is None,
            StepView::Pause(Some(pause)) => step matches Step::Pause(Some(p)) && p == pause,
            StepView::GiveUp(None) => step matches Step::GiveUp(
                ClientError::NoReachableNode { last: None },
            ),
            StepView::GiveUp(Some(text)) => step matches Step::GiveUp(
                ClientError::NoReachableNode { last: Some(said) },
            ) && said@ == text,
        },
{
}

/// Where no shard is known, whoever last accepted anything is asked first and
/// everyone else by id.
pub proof fn law_the_last_to_accept_is_asked_first(client: ClientView, i: int, j: int)
    requires
        client.endpoints.dom().finite(),
        0 <= i < order_for(client, None).len(),
        0 <= j < order_for(client, None).len(),
    ensures
        ({
            let order = order_for(client, None);
            &&& client.leader matches Some(id) ==> order[0] == id
            &&& client.leader != Some(order[i]) && client.leader != Some(order[j]) && order[i]
                < order[j] ==> i < j
        }),
{
    let known = client.endpoints.dom();
    crate::ids::lemma_in_order_exists(known);
    let everyone = in_order(known);
    let first = match client.leader {
        Some(id) => seq![id],
        None => Seq::empty(),
    };
    let none = Seq::<NodeId>::empty();
    lemma_extended(first, everyone, known);
    let order = order_for(client, None);
    assert(order == extended(first, everyone, known));
    if first.len() > 0 {
        assert(order[0] == first[0]);
    }
    if client.leader != Some(order[i]) && client.leader != Some(order[j]) {
        law_candidates(client, None, order[i]);
        law_candidates(client, None, order[j]);
        assert(order.contains(order[i]) && order.contains(order[j]));
        assert(extended(first, none, known) == first);
        lemma_near_before_far(first, none, everyone, known, i, j, 0, 0);
    }
}

/// What meeting an attempt does to a search and to what the client knows: where
/// nobody is named, the round goes on with everyone who was still to be asked; an
/// answer is handed over only where the node neither disowns the shard nor the
/// lead; and no attempt changes the request or whom the client knows.
pub proof fn law_meeting_an_attempt<T>(
    before: (Search, Client),
    after: (Search, Client),
    id: NodeId,
    shard: Option<ShardId>,
    attempt: Attempt<T>,
    answer: Option<T>,
    peer: NodeId,
)
    requires
        before.0.wf(),
        before.1.wf(),
        exists|s: &mut Search, c: &mut Client| #[trigger]
            call_ensures(Search::meet::<T>, (s, c, id, shard, attempt), answer) && *s == before.0
                && *final(s) == after.0 && *c == before.1 && *final(c) == after.1,
    ensures
        after.0@.request == before.0@.request,
        after.0.phase == before.0.phase && after.0.rounds == before.0.rounds,
        after.1.endpoints@.contains_key(peer) <==> before.1.endpoints@.contains_key(peer),
        match attempt {
            Attempt::Refused(refusal) => {
                &&& answer is None
                &&& after.0.order@ == before.0.order@
                &&& after.0.hinted == before.0.hinted
                &&& after.0@.last == Some(refusal.text())
                &&& after.0.busy <==> before.0.busy || refusal is Busy
                &&& refusal is Gone ==> !after.1.channels@.contains(id) && after.1.leader != Some(id)
                &&& refusal is Busy ==> after.1@ == before.1@
            },
            Attempt::Answered { not_hosted: None, not_leader: None, answer: a } => {
                &&& answer == Some(a)
                &&& after.1.leader == Some(id)
                &&& shard matches Some(mine) ==> after.1.leaders@.contains_key(mine)
                    && after.1.leaders@[mine] == id
                &&& after.0@ == before.0@
            },
            Attempt::Answered { not_hosted: None, not_leader: Some(other), answer: _ } => {
                let known = other.leader_hint != 0 && before.1.endpoints@.contains_key(
                    other.leader_hint,
                );
                &&& answer is None
                &&& after.1.leader is None
                &&& shard matches Some(mine) ==> !after.1.leaders@.contains_key(mine)
                &&& !known ==> after.0.order@ == before.0.order@ && after.0.hinted
                    == before.0.hinted
                &&& known ==> after.0.hinted == Some(other.leader_hint) && after.0.order@.len()
                    == 0
            },
            Attempt::Answered { not_hosted: Some(elsewhere), not_leader: _, answer: _ } => {
                &&& answer is None
                &&& after.1.leader is None
                &&& after.0.order@.len() == 0
                &&& after.0.hinted matches Some(next) ==> elsewhere.replicas@.contains(next)
                    && before.1.endpoints@.contains_key(next)
                &&& elsewhere.replicas@.contains(peer) && before.1.endpoints@.contains_key(peer)
                    ==> after.0.hinted is Some
            },
        },
{
    let (s, c) = (before.0@, before.1@);
    assert(c.endpoints.dom() =~= before.1.endpoints@.dom());
    assert(after.1@.endpoints.dom() =~= after.1.endpoints@.dom());
    match attempt {
        Attempt::Answered { not_hosted: Some(elsewhere), not_leader, answer: a } => {
            lemma_known_is_listed(elsewhere.replicas@, c.endpoints.dom(), peer);
        },
        _ => {},
    }
}

/// The first known node of a list is of the list and known, and there is one
/// wherever any is known.
proof fn lemma_known_is_listed(ids: Seq<NodeId>, known: Set<NodeId>, id: NodeId)
    ensures
        first_known(ids, known) matches Some(first) ==> ids.contains(first) && known.contains(first),
        ids.contains(id) && known.contains(id) ==> first_known(ids, known) is Some,
    decreases ids.len(),
{
    if ids.len() > 0 {
        let tail = ids.skip(1);
        lemma_known_is_listed(tail, known, id);
        assert(ids[0] == ids.first());
        if ids.contains(id) && ids[0] != id {
            let k = choose|k: int| 0 <= k < ids.len() && ids[k] == id;
            assert(tail[k - 1] == id);
        }
        match first_known(tail, known) {
            Some(first) => {
                if tail.contains(first) {
                    let k = choose|k: int| 0 <= k < tail.len() && tail[k] == first;
                    assert(ids[k + 1] == first);
                }
            },
            None => {},
        }
    }
}

/// What a search asks for next, and who it is asked of.
pub proof fn law_a_search_takes_its_step(
    before: Search,
    after: Search,
    client: &Client,
    shard: Option<ShardId>,
    step: Step,
)
    requires
        before.wf(),
        exists|s: &mut Search| #[trigger]
            call_ensures(Search::step, (s, client, shard), step) && *s == before && *final(s)
                == after,
    ensures
        after@ == stepped(before@, client@, shard).0,
        is_step(step, stepped(before@, client@, shard).1),
        before.phase == Phase::Trying && before.order@.len() > 0 ==> step == Step::Ask(
            before.order@[0],
        ) && after.order@ == before.order@.skip(1),
        before.phase == Phase::Trying && before.order@.len() == 0 ==> step is Pause && after.phase
            == Phase::Between,
        before.phase == Phase::Between && before.rounds == RETRY_ROUNDS ==> step is GiveUp,
{
    assert(before@.order == before.order@);
}

/// What a client learns, and from whom: who accepted is asked first from then
/// on, a refused lead is forgotten, a node that is gone loses its channel, and
/// nothing else changes.
pub proof fn law_what_a_client_learns(
    before: Client,
    after: (Client, Client, Client, Client),
    id: NodeId,
    shard: Option<ShardId>,
    not_hosted: &NotHosted,
    next: Option<NodeId>,
    u: ((), (), ()),
    peer: NodeId,
    other: ShardId,
)
    requires
        before.wf(),
        exists|c: &mut Client| #[trigger]
            call_ensures(Client::accepted, (c, id, shard), u.0) && *c == before && *final(c)
                == after.0,
        exists|c: &mut Client| #[trigger]
            call_ensures(Client::refused, (c, shard), u.1) && *c == before && *final(c) == after.1,
        exists|c: &mut Client| #[trigger]
            call_ensures(Client::forget, (c, id), u.2) && *c == before && *final(c) == after.2,
        exists|c: &mut Client| #[trigger]
            call_ensures(Client::redirect, (c, shard, not_hosted), next) && *c == before
                && *final(c) == after.3,
    ensures
        after.0.leader == Some(id),
        shard matches Some(mine) ==> after.0.leaders@.contains_key(mine) && after.0.leaders@[mine]
            == id,
        after.1.leader is None,
        shard matches Some(mine) ==> !after.1.leaders@.contains_key(mine),
        Some(other) != shard ==> after.0.leaders@.contains_key(other)
            == before.leaders@.contains_key(other) && after.1.leaders@.contains_key(other)
            == before.leaders@.contains_key(other),
        after.2.leader == if before.leader == Some(id) {
            None
        } else {
            before.leader
        },
        after.2.channels@ == before.channels@.remove(id),
        after.2.leaders@ == before.leaders@,
        after.0.channels@ == before.channels@ && after.1.channels@ == before.channels@,
        next matches Some(n) ==> not_hosted.replicas@.contains(n)
            && before.endpoints@.contains_key(n),
        not_hosted.replicas@.contains(peer) && before.endpoints@.contains_key(peer) ==> next is Some,
        after.3.leader is None,
        shard matches Some(mine) ==> !after.3.leaders@.contains_key(mine),
        // A map that the node has outgrown, or that it has none of, is let go.
        after.3.placement is None <==> (before.placement matches Some(p)
            ==> not_hosted.map_version > p.version || not_hosted.map_version == 0),
        after.3.placement is Some ==> after.3@.placement == before@.placement,
        after.0.sequence == before.sequence && after.1.sequence == before.sequence
            && after.2.sequence == before.sequence && after.3.sequence == before.sequence,
        after.0.client_id == before.client_id && after.3.client_id == before.client_id,
{
    assert(before@.endpoints.dom() =~= before.endpoints@.dom());
    lemma_known_is_listed(not_hosted.replicas@, before@.endpoints.dom(), peer);
}

/// A write is numbered: it carries the client's name and the next number, which
/// no write of this client carried before, and a read carries neither.
pub proof fn law_a_write_is_numbered(
    before: Client,
    after: Client,
    op: Mutation,
    write: Search,
    key: &[u8],
    read: Search,
)
    requires
        before.sequence < u64::MAX,
        exists|c: &mut Client| #[trigger]
            call_ensures(Client::start_write, (c, op), write) && *c == before && *final(c) == after,
        call_ensures(Client::start_read, (&before, key), read),
    ensures
        after.sequence == before.sequence + 1,
        after.client_id == before.client_id,
        write@.request == Request::Write(
            Some(RequestCtx { client_id: before.client_id, sequence: after.sequence }),
            op@,
        ),
        read@.request == Request::Read(key@),
        write.phase == Phase::Between && write.rounds == 0 && write.order@.len() == 0,
        read.phase == Phase::Between && read.rounds == 0 && read.order@.len() == 0,
{
}

/// Who may be asked is who the client knows, everyone once, and the map is asked
/// for of every node by id.
pub proof fn law_whom_a_client_asks(
    client: &Client,
    shard: Option<ShardId>,
    order: Vec<NodeId>,
    refresh: Vec<NodeId>,
    id: NodeId,
    i: int,
    j: int,
)
    requires
        client.wf(),
        call_ensures(Client::candidates, (client, shard), order),
        call_ensures(Client::refresh_order, (client,), refresh),
    ensures
        client.endpoints@.contains_key(id) ==> order@.contains(id),
        shard is Some && order@.contains(id) ==> client.endpoints@.contains_key(id),
        0 <= i < j < order@.len() ==> order@[i] != order@[j],
        refresh@.contains(id) <==> client.endpoints@.contains_key(id),
        0 <= i < j < refresh@.len() ==> refresh@[i] < refresh@[j],
{
    assert(client@.endpoints.dom() =~= client.endpoints@.dom());
    law_candidates(client@, shard, id);
    crate::ids::law_a_set_is_listed_in_order(client@.endpoints.dom(), i, j, id);
}

/// A new map is taken only if it is newer than the known one, with its number of
/// shards and its replicas; members teach addresses of nodes not known yet.
pub proof fn law_a_client_takes_newer_maps(
    before: Client,
    after: Client,
    version: u64,
    num_shards: u32,
    shards: Vec<Vec<NodeId>>,
    had: bool,
    members: Vec<(NodeId, String)>,
    taught: Client,
    u: (),
    id: NodeId,
)
    requires
        before.wf(),
        exists|c: &mut Client| #[trigger]
            call_ensures(Client::learned_map, (c, version, num_shards, shards), had) && *c
                == before && *final(c) == after,
        exists|c: &mut Client| #[trigger]
            call_ensures(Client::learned_members, (c, members), u) && *c == before && *final(c)
                == taught,
    ensures
        had <==> version != 0 && num_shards != 0,
        had && (before.placement matches Some(p) ==> version > p.version) ==> (
        after.placement matches Some(p) && p.version == version && p.num_shards
            == num_shards as u16 && p.shards@ == shards@) && after.leaders@.len() == 0,
        !(had && (before.placement matches Some(p) ==> version > p.version)) ==> after@ == before@,
        before.endpoints@.contains_key(id) ==> taught.endpoints@.contains_key(id)
            && taught.endpoints@[id]@ == before.endpoints@[id]@,
        taught@ == (ClientView { endpoints: taught@.endpoints, ..before@ }),
{
    law_a_refresh_never_goes_back(before@, version, num_shards, shards@, members@, id);
    assert(taught@.endpoints.contains_key(id) <==> taught.endpoints@.contains_key(id));
    assert(before@.endpoints.contains_key(id) <==> before.endpoints@.contains_key(id));
}

/// A failed attempt is worth keeping the node exactly where it says that it is
/// busy, or that it took too long.
pub proof fn law_only_a_busy_node_is_kept(failure: Failure, deadline: Nanos, r: Refusal)
    requires
        deadline < crate::types::MAX_NANOS,
        call_ensures(Refusal::of, (failure, deadline), r),
    ensures
        r is Busy <==> failure is Elapsed || (failure matches Failure::Refused { exhausted, .. }
            && exhausted),
        failure matches Failure::Refused { text, .. } ==> r.text() == text@,
{
}

/// A client starts with the nodes it is given and knows nothing else.
pub proof fn law_a_client_starts_with_its_endpoints(
    endpoints: Vec<(NodeId, String)>,
    c: Client,
    id: NodeId,
)
    requires
        call_ensures(Client::new, (endpoints,), c),
    ensures
        c.endpoints@.contains_key(id) <==> exists|k: int|
            0 <= k < endpoints@.len() && (#[trigger] endpoints@[k]).0 == id,
        c.leader is None,
        c.placement is None,
        c.leaders@.len() == 0,
        c.channels@.len() == 0,
        c.sequence == 0,
        c.request_timeout == REQUEST_TIMEOUT,
{
    law_a_client_knows_its_endpoints(endpoints@, id, 0);
    assert(c@.endpoints.contains_key(id) <==> c.endpoints@.contains_key(id));
}

/// A channel that is opened is held, a deadline that is set holds, and a search
/// is about its own key.
pub proof fn law_small_pieces_of_a_client(
    before: Client,
    connected: Client,
    id: NodeId,
    u: (),
    timeout: Nanos,
    patient: Client,
    held: bool,
    shards: Option<u16>,
    placement: &Placement,
    shard: ShardId,
    replicas: Vec<NodeId>,
    peer: NodeId,
    search: &Search,
    key: &[u8],
)
    requires
        before.wf(),
        timeout < crate::types::MAX_NANOS,
        call_ensures(Search::key, (search,), key),
        exists|c: &mut Client| #[trigger]
            call_ensures(Client::connected, (c, id), u) && *c == before && *final(c) == connected,
        call_ensures(Client::with_request_timeout, (before, timeout), patient),
        call_ensures(Client::holds_channel, (&connected, peer), held),
        call_ensures(Client::num_shards, (&before,), shards),
        call_ensures(Placement::replicas, (placement, shard), replicas),
    ensures
        held <==> before.channels@.contains(peer) || peer == id,
        patient.request_timeout == timeout,
        patient@ == (ClientView { request_timeout: timeout, ..before@ }),
        shards is None <==> before.placement is None,
        before.placement matches Some(p) ==> shards == Some(p.num_shards),
        shard < placement.shards@.len() ==> replicas@ == placement.shards@[shard as int]@,
        shard >= placement.shards@.len() ==> replicas@.len() == 0,
        search.request matches ClientOp::Get { key: k } ==> key@ == k@,
        search.request matches ClientOp::Mutate { op: Mutation::Put { key: k, .. }, .. } ==> key@
            == k@,
        search.request matches ClientOp::Mutate { op: Mutation::Delete { key: k }, .. } ==> key@
            == k@,
        search.request matches ClientOp::Mutate { op: Mutation::Cas { key: k, .. }, .. } ==> key@
            == k@,
{
}

} // verus!
