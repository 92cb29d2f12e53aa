//! One Raft group's state machine and everyone waiting on it, and the loop that
//! drives a process's groups.
//!
//! Every drain runs in one order, and the order is a correctness requirement:
//! sync the log, then send, then apply. A vote that reaches the wire before it
//! reaches the disk lets a crash produce a second vote in the same term.

use std::collections::{BTreeMap, BTreeSet};

use vstd::prelude::*;
use vstd::string::*;
use vstd::utf8::encode_utf8;

use crate::bytes::{copy_all, opt_view, same_option};
use crate::command::{enc_command, law_command_round_trip, meaning, Change, Command, CommandError,
    Mutation};
use crate::config::{lease_of, request_timeout_of, NodeConfig};
use crate::engine::{Edit, Engine, lemma_follows_self, lemma_follows_step};
use crate::group::{GroupId, META};
use crate::ids::{keys_of, lemma_take_to_set};
use crate::membership::{book, conf_book, conf_state, enc_book, encode_book, endpoints,
    endpoints_of, peer_key_of, ConfChange, ConfOp, BOOK_MAGIC};
use crate::read_view::Visibility;
use crate::session::{self, cached_answer, enc_entry, reserved, session_key_of, BadSession,
    CommandResponse, RequestCtx};
use crate::shard_map::{encoded, SHARD_MAP_KEY};
use crate::types::{copy_ids, ClusterConfig, LogIndex, Nanos, NodeId, Role, ShardId, Term, MAX_NANOS};

verus! {

broadcast use {vstd::std_specs::btree::group_btree_axioms, vstd::laws_cmp::group_laws_cmp};

/// What a client asks of a group.
#[derive(Debug)]
pub enum ClientOp {
    Get { key: Vec<u8> },
    /// A mutation, with the context that makes a retry recognisable as the same
    /// request. `ctx: None` opts out of retry tracking: legitimate for a put and
    /// a delete, which are idempotent, and a mistake for a compare-and-swap.
    Mutate { ctx: Option<RequestCtx>, op: Mutation },
}

/// Constructors for callers that do not track retries.
impl ClientOp {
    pub fn put(key: &[u8], value: &[u8]) -> (op: ClientOp)
        ensures
            op matches ClientOp::Mutate { ctx, op: m } && ctx is None && m@ == Change::Put(
                key@,
                value@,
            ),
    {
        ClientOp::Mutate {
            ctx: None,
            op: Mutation::Put { key: copy_all(key), value: copy_all(value) },
        }
    }

    pub fn delete(key: &[u8]) -> (op: ClientOp)
        ensures
            op matches ClientOp::Mutate { ctx, op: m } && ctx is None && m@ == Change::Delete(key@),
    {
        ClientOp::Mutate { ctx: None, op: Mutation::Delete { key: copy_all(key) } }
    }

    pub fn get(key: &[u8]) -> (op: ClientOp)
        ensures
            op matches ClientOp::Get { key: k } && k@ == key@,
    {
        ClientOp::Get { key: copy_all(key) }
    }
}

/// What a client is answered.
#[derive(Debug, PartialEq, Eq)]
pub enum ClientReply {
    Value(Option<Vec<u8>>),
    Applied,
    /// Whether a compare-and-swap took effect.
    Swapped(bool),
    NotLeader { hint: Option<NodeId> },
    /// This node does not replicate the shard the key belongs to. An ordinary
    /// answer rather than an error: it is what a client with a map one version
    /// old gets, and it re-routes.
    NotHosted { shard: ShardId },
}

/// The reply that an answer of the state machine makes.
pub open spec fn reply_of(response: CommandResponse) -> ClientReply {
    match response {
        CommandResponse::Applied => ClientReply::Applied,
        CommandResponse::Swapped(swapped) => ClientReply::Swapped(swapped),
    }
}

/// The reply that an answer of the state machine makes.
pub fn reply_from(response: CommandResponse) -> (reply: ClientReply)
    ensures
        reply == reply_of(response),
{
    match response {
        CommandResponse::Applied => ClientReply::Applied,
        CommandResponse::Swapped(swapped) => ClientReply::Swapped(swapped),
    }
}

/// One cluster-administration request.
#[derive(Debug)]
pub enum AdminOp {
    /// Bring `id` into the group, reachable at `address`. It joins as a
    /// learner: it replicates and does not vote until it has caught up.
    AddNode { id: NodeId, address: String },
    /// Take `id` out of the group, whether it votes or learns.
    RemoveNode { id: NodeId },
    Status,
    /// Every shard group this node hosts, and who leads each. Node-wide: the
    /// group on the request is ignored.
    ShardStatuses,
    /// This replica's locally applied shard map, as bytes. Deliberately not
    /// linearizable: it feeds the cache that every node reads on every request.
    LocalShardMap,
    /// Let a shard's group go, if the group itself no longer names this node.
    ReleaseShard { shard: ShardId },
}

/// What an administration request is answered.
#[derive(Debug)]
pub enum AdminReply {
    /// The change committed, at this log index.
    Accepted { index: LogIndex },
    Status(ClusterStatus),
    ShardStatuses(Vec<ShardStatus>),
    /// `None` before the meta group has bootstrapped a map.
    ShardMap(Option<Vec<u8>>),
    NotLeader { hint: Option<NodeId> },
    /// The change is not one this config can make. Refused before the log.
    Rejected { reason: String },
    /// Whether the group was let go.
    Released { released: bool },
}

/// What this node believes about the cluster right now: a view from one
/// replica, not a distributed snapshot.
#[derive(Debug)]
pub struct ClusterStatus {
    pub id: NodeId,
    pub leader: Option<NodeId>,
    pub term: Term,
    pub voters: Vec<NodeId>,
    pub learners: Vec<NodeId>,
    pub endpoints: BTreeMap<NodeId, String>,
    pub commit_index: LogIndex,
    pub applied_index: LogIndex,
    /// The live log's bounds. A first index above 1 means the prefix below it
    /// has been replaced by a snapshot.
    pub log_first_index: LogIndex,
    pub log_last_index: LogIndex,
}

/// One shard group as this node sees it.
#[derive(Debug, PartialEq, Eq)]
pub struct ShardStatus {
    pub shard: ShardId,
    pub leader: Option<NodeId>,
    pub term: Term,
    /// Who votes.
    pub replicas: Vec<NodeId>,
    /// Who replicates without voting yet.
    pub learners: Vec<NodeId>,
    /// Whether this node leads the shard.
    pub leading: bool,
    pub applied_index: LogIndex,
}

/// Names one caller who waits for an answer.
pub type Ticket = u64;

/// Whether a request that has waited too long is given up on.
#[derive(Debug, Clone, Copy, PartialEq, Eq, Structural)]
pub enum Expiry {
    Wait,
    Redirect,
}

/// What becomes of a request that has waited too long.
///
/// A partitioned leader still believes it leads, so without a deadline its
/// clients would wait forever. An overloaded one is different: it commits, only
/// late, and sending its clients away makes them come back and propose again.
/// What tells the two apart is the commit index: a partitioned leader's cannot
/// move.
pub open spec fn expiry_of(leading: bool, since_commit: Nanos, timeout: Nanos) -> Expiry {
    if leading && since_commit < timeout {
        Expiry::Wait
    } else {
        Expiry::Redirect
    }
}

/// What becomes of a request that has waited too long.
pub fn expiry_decision(leading: bool, since_commit: Nanos, timeout: Nanos) -> (e: Expiry)
    ensures
        e == expiry_of(leading, since_commit, timeout),
{
    if leading && since_commit < timeout {
        Expiry::Wait
    } else {
        Expiry::Redirect
    }
}

/// What a group's Raft core says of itself.
#[derive(Debug)]
pub struct NodeView {
    pub id: NodeId,
    pub leader: Option<NodeId>,
    pub term: Term,
    pub role: Role,
    pub config: ClusterConfig,
    pub commit_index: LogIndex,
}

/// Someone waiting on the entry they proposed.
#[derive(Debug, Clone, Copy, PartialEq, Eq, Structural)]
pub struct Pending {
    /// The term the entry was proposed in. If the entry that finally commits at
    /// its index carries another, a later leader overwrote it and it never
    /// committed.
    pub term: Term,
    pub ticket: Ticket,
    pub deadline: Nanos,
}

/// A client waiting on a linearizable read.
#[derive(Debug)]
pub struct PendingRead {
    pub key: Vec<u8>,
    pub ticket: Ticket,
    pub deadline: Nanos,
    /// Set when a quorum confirms the leadership. The read may then be served
    /// as soon as everything up to this index is visible to readers.
    pub confirmed_at: Option<LogIndex>,
}

/// What somebody who waited is told.
#[derive(Debug)]
pub enum Answer {
    Client(ClientReply),
    Admin(AdminReply),
}

/// An answer, and whom it is for.
#[derive(Debug)]
pub struct Reply {
    pub ticket: Ticket,
    pub answer: Answer,
}

/// A confirmed read to perform.
#[derive(Debug)]
pub struct ReadJob {
    pub group: GroupId,
    pub key: Vec<u8>,
    /// The index the read was confirmed at.
    pub at: LogIndex,
    pub ticket: Ticket,
}

impl View for ReadJob {
    type V = (GroupId, Seq<u8>, LogIndex, Ticket);

    open spec fn view(&self) -> (GroupId, Seq<u8>, LogIndex, Ticket) {
        (self.group, self.key@, self.at, self.ticket)
    }
}

/// A read that a quorum confirmed, and the index it was confirmed at.
#[derive(Debug, Clone, Copy, PartialEq, Eq, Structural)]
pub struct ReadState {
    pub token: u64,
    pub index: LogIndex,
}

/// One Raft group this process hosts: its state machine, and everyone waiting
/// on it.
#[derive(Debug)]
pub struct Group {
    pub group: GroupId,
    /// The state machine.
    pub engine: Engine,
    /// Where each member of this group can be reached. Mirrors the address book
    /// in the state machine; seeded from the flags on a fresh store and owned by
    /// the log after that.
    pub endpoints: BTreeMap<NodeId, String>,
    /// Members with no known address, so the warning about them is said once.
    pub unreachable: BTreeSet<NodeId>,
    pub pending: BTreeMap<LogIndex, Pending>,
    pub pending_conf: BTreeMap<LogIndex, Pending>,
    pub pending_reads: BTreeMap<u64, PendingRead>,
    pub next_token: u64,
    /// What has been applied to the state machine.
    pub applied_index: LogIndex,
    /// How far the state machine is visible to readers. Behind what is applied:
    /// a confirmed read waits on this.
    pub visible: Visibility,
    /// The index of the last snapshot taken or installed.
    pub snapshot_index: LogIndex,
    pub snapshot_threshold: u64,
    /// How long a client's request may wait before it is given up on.
    pub request_timeout: Nanos,
    pub lease_reads: bool,
    pub lease_duration: Nanos,
    /// When the current lease lapses. Set every time a read quorum confirms,
    /// which is the only evidence of leadership this process gets.
    pub lease_until: Option<Nanos>,
    /// Whether a caught-up learner is promoted to voter. Not in the meta group,
    /// whose quorum must not grow with the data cluster.
    pub promote_learners: bool,
    /// The highest commit index seen, and when it last moved.
    pub commit_seen: LogIndex,
    pub commit_moved_at: Nanos,
}

impl Group {
    /// The state machine is well formed, readers see nothing that is not
    /// applied, and the group's spans of time can be told by the clock.
    pub open spec fn wf(&self) -> bool {
        &&& self.engine.wf()
        &&& self.visible.index <= self.applied_index
        &&& self.request_timeout < MAX_NANOS
        &&& self.lease_duration < MAX_NANOS
    }
}

/// `base` with every address of `more` put in.
pub(crate) fn extend_book(base: &mut BTreeMap<NodeId, String>, more: &BTreeMap<NodeId, String>)
    ensures
        final(base)@ == old(base)@.union_prefer_right(more@),
{
    let ids = keys_of(more);
    let ghost before = base@;
    let mut i: usize = 0;
    assert(before.union_prefer_right(more@.restrict(ids@.take(0).to_set())) =~= before);
    while i < ids.len()
        invariant
            i <= ids@.len(),
            ids@.to_set() == more@.dom(),
            base@ == before.union_prefer_right(more@.restrict(ids@.take(i as int).to_set())),
        decreases ids@.len() - i,
    {
        let id: NodeId = ids[i];
        assert(ids@.to_set().contains(id));
        let ghost so_far = base@;
        match more.get(&id) {
            Some(address) => {
                base.insert(id, address.clone());
            },
            None => {},
        }
        i += 1;
        proof {
            lemma_take_to_set(ids@, i - 1);
            assert(base@ =~= so_far.insert(id, more@[id]));
            assert(base@ =~= before.union_prefer_right(
                more@.restrict(ids@.take(i as int).to_set()),
            ));
        }
    }
    assert(ids@.take(i as int) =~= ids@);
    assert(more@.restrict(ids@.to_set()) =~= more@);
}

/// Two books put together hold what the books' texts put together hold.
pub(crate) proof fn lemma_book_union(a: Map<NodeId, String>, b: Map<NodeId, String>)
    ensures
        book(a.union_prefer_right(b)) == book(a).union_prefer_right(book(b)),
{
    assert(book(a.union_prefer_right(b)) =~= book(a).union_prefer_right(book(b)));
}

impl Group {
    /// Opens one group over its state machine. `snapshot_index` is where the
    /// stored snapshot ends: the state on disk already reflects everything
    /// through it, and the replay continues past it.
    pub fn new(
        config: &NodeConfig,
        group: GroupId,
        engine: Engine,
        snapshot_index: LogIndex,
        now: Nanos,
    ) -> (g: Group)
        requires
            engine.wf(),
            config.times_fit(),
        ensures
            g.wf(),
            g.group == group,
            g.engine == engine,
            // The flags are a bootstrap default; the state machine's book wins.
            book(g.endpoints@) == book(config.peers@).insert(
                config.id,
                config.listen@,
            ).union_prefer_right(endpoints_of(engine@)),
            g.unreachable@ == Set::<NodeId>::empty(),
            g.pending@ == Map::<LogIndex, Pending>::empty(),
            g.pending_conf@ == Map::<LogIndex, Pending>::empty(),
            g.pending_reads@ == Map::<u64, PendingRead>::empty(),
            g.next_token == 0,
            g.applied_index == snapshot_index,
            g.visible.index == snapshot_index,
            g.snapshot_index == snapshot_index,
            g.snapshot_threshold == config.snapshot_threshold,
            g.request_timeout == request_timeout_of(config.tick, config.election_timeout),
            g.lease_reads == config.lease_reads,
            g.lease_duration == lease_of(config.tick, config.election_timeout),
            g.lease_until is None,
            g.promote_learners == (group != META),
            g.commit_seen == 0,
            g.commit_moved_at == now,
    {
        let mut addresses = config.peers.clone();
        addresses.insert(config.id, config.listen.clone());
        let ghost flags = addresses@;
        let stored = endpoints(&engine);
        extend_book(&mut addresses, &stored);
        proof {
            lemma_book_union(flags, stored@);
            assert(book(flags) =~= book(config.peers@).insert(config.id, config.listen@));
        }
        let mut visible = Visibility::new();
        visible.publish(snapshot_index);
        Group {
            group,
            engine,
            endpoints: addresses,
            unreachable: BTreeSet::new(),
            pending: BTreeMap::new(),
            pending_conf: BTreeMap::new(),
            pending_reads: BTreeMap::new(),
            next_token: 0,
            applied_index: snapshot_index,
            visible,
            snapshot_index,
            snapshot_threshold: config.snapshot_threshold,
            request_timeout: config.request_timeout(),
            lease_reads: config.lease_reads,
            lease_duration: config.lease_duration(),
            lease_until: None,
            promote_learners: group != META,
            commit_seen: 0,
            commit_moved_at: now,
        }
    }

    pub fn id(&self) -> (id: GroupId)
        ensures
            id == self.group,
    {
        self.group
    }
}

/// What one change makes of a state machine, and what it answers.
pub open spec fn changed(state: Map<Seq<u8>, Seq<u8>>, change: Change) -> (
    Map<Seq<u8>, Seq<u8>>,
    CommandResponse,
) {
    match change {
        Change::Put(key, value) => (state.insert(key, value), CommandResponse::Applied),
        Change::Delete(key) => (state.remove(key), CommandResponse::Applied),
        Change::Cas(key, expected, new_value) => {
            let current = if state.contains_key(key) {
                Some(state[key])
            } else {
                None
            };
            if current == expected {
                (state.insert(key, new_value), CommandResponse::Swapped(true))
            } else {
                (state, CommandResponse::Swapped(false))
            }
        },
    }
}

/// What one committed command makes of a state machine, and what it answers: a
/// request that was answered before gets that answer again and changes nothing;
/// a fresh one is carried out and its answer recorded.
pub open spec fn applied(
    state: Map<Seq<u8>, Seq<u8>>,
    command: (Option<RequestCtx>, Change),
) -> Result<(Map<Seq<u8>, Seq<u8>>, CommandResponse), BadSession> {
    let (after, response) = changed(state, command.1);
    match command.0 {
        None => Ok((after, response)),
        Some(ctx) => match cached_answer(state, ctx) {
            Err(e) => Err(e),
            Ok(Some(cached)) => Ok((state, cached)),
            Ok(None) => Ok(
                (
                    after.insert(
                        session_key_of(ctx.client_id),
                        enc_entry(ctx.sequence, response),
                    ),
                    response,
                ),
            ),
        },
    }
}

/// Carries one change out.
fn carry_out(engine: &mut Engine, op: &Mutation) -> (response: CommandResponse)
    requires
        old(engine).wf(),
    ensures
        final(engine).wf(),
        (final(engine)@, response) == changed(old(engine)@, op@),
        final(engine).follows(old(engine)),
        *final(engine) == *old(engine) || (final(engine).unpublished()
            && final(engine).unflushed()),
{
    proof {
        lemma_follows_self(engine);
    }
    match op {
        Mutation::Put { key, value } => {
            engine.put(key, value);
            CommandResponse::Applied
        },
        Mutation::Delete { key } => {
            engine.delete(key);
            CommandResponse::Applied
        },
        Mutation::Cas { key, expected, new_value } => {
            let current = engine.get(key);
            if same_option(&current, expected) {
                engine.put(key, new_value);
                CommandResponse::Swapped(true)
            } else {
                CommandResponse::Swapped(false)
            }
        },
    }
}

/// Applies one committed command to a state machine, recognising retries
/// through the session table.
///
/// Every replica runs this over the same log in the same order, so the session
/// table is replicated like everything else.
pub fn apply(engine: &mut Engine, command: &Command) -> (r: Result<CommandResponse, BadSession>)
    requires
        old(engine).wf(),
    ensures
        final(engine).wf(),
        final(engine).follows(old(engine)),
        *final(engine) == *old(engine) || (final(engine).unpublished()
            && final(engine).unflushed()),
        match (r, applied(old(engine)@, command@)) {
            (Ok(response), Ok(want)) => (final(engine)@, response) == want,
            (Err(e), Err(want)) => e == want && *final(engine) == *old(engine),
            _ => false,
        },
{
    proof {
        lemma_follows_self(engine);
    }
    match &command.ctx {
        Some(ctx) => match session::cached(engine, ctx) {
            Err(e) => {
                return Err(e);
            },
            Ok(Some(cached)) => {
                return Ok(cached);
            },
            Ok(None) => {},
        },
        None => {},
    }
    let response = carry_out(engine, &command.op);
    match &command.ctx {
        Some(ctx) => {
            let ghost mid = *engine;
            session::record(engine, ctx, &response);
            proof {
                lemma_follows_step(
                    old(engine),
                    &mid,
                    engine,
                    Edit::Put(
                        session_key_of(ctx.client_id),
                        enc_entry(ctx.sequence, response),
                    ),
                );
            }
        },
        None => {},
    }
    Ok(response)
}

/// Exactly once: a command that was applied and is applied again, under the
/// same client and the same or an older sequence number, answers what it
/// answered the first time and changes nothing.
pub proof fn law_exactly_once(
    state: Map<Seq<u8>, Seq<u8>>,
    ctx: RequestCtx,
    change: Change,
    retry: RequestCtx,
    retried: Change,
)
    requires
        retry.client_id == ctx.client_id,
        retry.sequence <= ctx.sequence,
    ensures
        applied(state, (Some(ctx), change)) matches Ok((after, response)) ==> applied(
            after,
            (Some(retry), retried),
        ) == Ok::<_, BadSession>((after, response)),
{
    let (changed_state, response) = changed(state, change);
    session::law_recorded_answer_repeats(changed_state, ctx, response, retry);
}

/// A write does what it asks for. On any state, a request that is fresh, since
/// its client has no session entry or one of an earlier sequence number, is
/// carried out: a put leaves its value under its key, a delete leaves nothing
/// there, and a compare-and-swap leaves the new value and says so exactly where
/// the key held what it expects. Whatever the context, no other key moves but
/// the client's session entry. A request on that very entry is left out: the
/// answer is recorded over it.
pub proof fn law_a_write_takes_effect(
    state: Map<Seq<u8>, Seq<u8>>,
    ctx: Option<RequestCtx>,
    change: Change,
    last: Option<(u64, CommandResponse)>,
    other: Seq<u8>,
)
    requires
        ctx matches Some(c) ==> {
            let session = session_key_of(c.client_id);
            &&& last matches Some((sequence, answer)) ==> {
                &&& sequence < c.sequence
                &&& state.contains_key(session)
                &&& state[session] == enc_entry(sequence, answer)
            }
            &&& last is None ==> !state.contains_key(session)
            &&& change matches Change::Put(key, _) ==> key != session
            &&& change matches Change::Delete(key) ==> key != session
            &&& change matches Change::Cas(key, _, _) ==> key != session
        },
    ensures
        applied(state, (ctx, change)) is Ok,
        ({
            let (after, response) = applied(state, (ctx, change))->Ok_0;
            let about = match change {
                Change::Put(key, _) => key,
                Change::Delete(key) => key,
                Change::Cas(key, _, _) => key,
            };
            &&& match change {
                Change::Put(key, value) => {
                    &&& response == CommandResponse::Applied
                    &&& after.contains_key(key)
                    &&& after[key] == value
                },
                Change::Delete(key) => {
                    &&& response == CommandResponse::Applied
                    &&& !after.contains_key(key)
                },
                Change::Cas(key, expected, new_value) => {
                    let matched = match expected {
                        Some(value) => state.contains_key(key) && state[key] == value,
                        None => !state.contains_key(key),
                    };
                    &&& response == CommandResponse::Swapped(matched)
                    &&& matched ==> after.contains_key(key) && after[key] == new_value
                    &&& !matched ==> after.contains_key(key) == state.contains_key(key)
                        && after[key] == state[key]
                },
            }
            &&& other != about && (ctx matches Some(c) ==> other != session_key_of(c.client_id))
                ==> after.contains_key(other) == state.contains_key(other) && after[other]
                == state[other]
            &&& ctx is None && change is Cas && response == CommandResponse::Swapped(false) ==> after
                == state
            &&& ctx matches Some(c) ==> after.contains_key(session_key_of(c.client_id))
                && after[session_key_of(c.client_id)] == enc_entry(c.sequence, response)
        }),
{
    match (ctx, last) {
        (Some(c), Some((sequence, answer))) => {
            let before = RequestCtx { client_id: c.client_id, sequence };
            session::law_recorded_answer_repeats(state, before, answer, c);
            assert(state.insert(session_key_of(c.client_id), enc_entry(sequence, answer)) =~= state);
        },
        _ => {},
    }
}

/// A repeated request changes nothing: where the client's session entry is of
/// the request's sequence number or a later one, whatever the request asks for,
/// it is given the recorded answer and the state stays as it is.
pub proof fn law_a_repeated_request_changes_nothing(
    state: Map<Seq<u8>, Seq<u8>>,
    ctx: RequestCtx,
    change: Change,
    sequence: u64,
    answer: CommandResponse,
)
    requires
        ctx.sequence <= sequence,
        state.contains_key(session_key_of(ctx.client_id)),
        state[session_key_of(ctx.client_id)] == enc_entry(sequence, answer),
    ensures
        applied(state, (Some(ctx), change)) == Ok::<_, BadSession>((state, answer)),
{
    let before = RequestCtx { client_id: ctx.client_id, sequence };
    session::law_recorded_answer_repeats(state, before, answer, ctx);
    assert(state.insert(session_key_of(ctx.client_id), enc_entry(sequence, answer)) =~= state);
}

/// A session entry outlives other clients' requests: a command of another
/// client, on a key that a client may name, leaves every answer cached for this
/// one.
pub proof fn law_answers_outlive_other_clients(
    state: Map<Seq<u8>, Seq<u8>>,
    ctx: RequestCtx,
    other: Option<RequestCtx>,
    change: Change,
)
    requires
        other matches Some(o) ==> o.client_id != ctx.client_id,
        !reserved(key_of(change)),
    ensures
        applied(state, (other, change)) matches Ok((after, _)) ==> cached_answer(after, ctx)
            == cached_answer(state, ctx),
{
    session::law_session_keys(ctx.client_id, ctx.client_id);
    if other is Some {
        session::law_session_keys(ctx.client_id, (other->0).client_id);
    }
}

/// The key that a change is about.
pub open spec fn key_of(change: Change) -> Seq<u8> {
    match change {
        Change::Put(key, _) => key,
        Change::Delete(key) => key,
        Change::Cas(key, _, _) => key,
    }
}

/// What a client's request asks for next.
#[derive(Debug)]
pub enum RequestStep {
    /// Propose this command to the group's core.
    Propose { command: Vec<u8> },
    /// The leadership was confirmed recently enough: read at once.
    Read(ReadJob),
    /// Have a quorum confirm the leadership, under this token, before the key
    /// is read.
    Confirm { token: u64, key: Vec<u8> },
}

/// Why a core does not take a command.
#[derive(Debug, Clone, Copy, PartialEq, Eq, Structural)]
pub enum ProposeError {
    NotLeader,
}

/// Why a core does not start a read.
#[derive(Debug, Clone, Copy, PartialEq, Eq, Structural)]
pub enum ReadIndexError {
    NotLeader,
    /// It leads, and has not yet committed an entry in its own term.
    NoQuorumInTerm,
}

/// Why a core does not take a membership change.
#[derive(Debug)]
pub enum ConfProposeError {
    NotLeader,
    /// Another change is in flight, or the config cannot make this one.
    Refused { reason: String },
}

/// What became of a request that the core was asked to carry on with.
#[derive(Debug)]
pub enum Filed {
    /// It waits; whoever waited in its place before is given up on.
    Waiting { displaced: Option<Ticket> },
    Answered(Reply),
}

/// What an administration request asks for next.
#[derive(Debug)]
pub enum AdminStep {
    Answer(AdminReply),
    /// Propose this membership change to the group's core.
    Propose(ConfChange),
}

/// Whether a lease lets a read be served with no round trip: a quorum confirmed
/// this leader recently enough, and readers see everything that is committed. A
/// lease skips the round trip, not the visibility rule.
pub open spec fn lease_covers(group: Group, view: NodeView, now: Nanos) -> bool {
    &&& group.lease_reads
    &&& view.role == Role::Leader
    &&& group.lease_until matches Some(until) && now < until
    &&& group.visible.index >= view.commit_index
}

/// Who waits under `key`, if anyone.
pub open spec fn waiting_at(waiting: Map<LogIndex, Pending>, key: LogIndex) -> Option<Ticket> {
    if waiting.contains_key(key) {
        Some(waiting[key].ticket)
    } else {
        None
    }
}

/// Tells a client to ask the leader.
pub open spec fn client_redirect(ticket: Ticket, leader: Option<NodeId>) -> Reply {
    Reply { ticket, answer: Answer::Client(ClientReply::NotLeader { hint: leader }) }
}

/// Tells an operator to ask the leader.
pub open spec fn admin_redirect(ticket: Ticket, leader: Option<NodeId>) -> Reply {
    Reply { ticket, answer: Answer::Admin(AdminReply::NotLeader { hint: leader }) }
}

/// What one replica says of the cluster.
pub open spec fn describes(
    status: ClusterStatus,
    group: Group,
    view: NodeView,
    log_first_index: LogIndex,
    log_last_index: LogIndex,
) -> bool {
    &&& status.id == view.id
    &&& status.leader == view.leader
    &&& status.term == view.term
    &&& status.voters@ == view.config.voters@
    &&& status.learners@ == view.config.learners@
    &&& book(status.endpoints@) == book(group.endpoints@)
    &&& status.commit_index == view.commit_index
    &&& status.applied_index == group.applied_index
    &&& status.log_first_index == log_first_index
    &&& status.log_last_index == log_last_index
}

/// What taking a client's request in asks for, and what it makes of the group.
pub open spec fn request_taken(
    before: Group,
    op: ClientOp,
    ticket: Ticket,
    view: NodeView,
    now: Nanos,
    step: RequestStep,
    after: Group,
) -> bool {
    match op {
        ClientOp::Mutate { ctx, op } => {
            &&& step matches RequestStep::Propose { command } && command@ == enc_command((ctx, op@))
            &&& after == before
        },
        ClientOp::Get { key } => if lease_covers(before, view, now) {
            &&& step matches RequestStep::Read(job) && job@ == (
                before.group,
                key@,
                view.commit_index,
                ticket,
            )
            &&& after == before
        } else {
            &&& step matches RequestStep::Confirm { token, key: k } && token == before.next_token
                + 1 && k@ == key@
            &&& after == (Group { next_token: (before.next_token + 1) as u64, ..before })
        },
    }
}

/// A write is proposed as it was asked for: whatever the group, the bytes that a
/// client's write is proposed with mean that very request, with its own context
/// and its own change, and taking it in changes nothing.
pub proof fn law_a_write_is_proposed_as_asked(
    before: Group,
    ctx: Option<RequestCtx>,
    op: Mutation,
    ticket: Ticket,
    view: NodeView,
    now: Nanos,
    step: RequestStep,
    after: Group,
)
    requires
        request_taken(before, (ClientOp::Mutate { ctx, op }), ticket, view, now, step, after),
    ensures
        step matches RequestStep::Propose { command } && meaning(command@) == Ok::<_, CommandError>(
            Some((ctx, op@)),
        ),
        after == before,
{
    match op {
        Mutation::Put { key, value } => {
            assert(key.len() == key@.len() && value.len() == value@.len());
        },
        Mutation::Delete { key } => {
            assert(key.len() == key@.len());
        },
        Mutation::Cas { key, expected, new_value } => {
            assert(key.len() == key@.len() && new_value.len() == new_value@.len());
            match expected {
                Some(value) => {
                    assert(value.len() == value@.len());
                },
                None => {},
            }
        },
    }
    law_command_round_trip((ctx, op@));
}

/// A retried write is carried out once: a request with a context that is taken
/// in twice, by whichever groups and in whatever state they are, is proposed
/// twice as the same request; once the first proposal is applied, the second is
/// given the same answer and changes nothing.
pub proof fn law_a_retried_write_is_answered_alike(
    first: Group,
    second: Group,
    ctx: RequestCtx,
    op: Mutation,
    again: Mutation,
    tickets: (Ticket, Ticket),
    views: (NodeView, NodeView),
    times: (Nanos, Nanos),
    steps: (RequestStep, RequestStep),
    afters: (Group, Group),
    commands: ((Option<RequestCtx>, Change), (Option<RequestCtx>, Change)),
    state: Map<Seq<u8>, Seq<u8>>,
)
    requires
        op@ == again@,
        request_taken(
            first,
            (ClientOp::Mutate { ctx: Some(ctx), op }),
            tickets.0,
            views.0,
            times.0,
            steps.0,
            afters.0,
        ),
        request_taken(
            second,
            (ClientOp::Mutate { ctx: Some(ctx), op: again }),
            tickets.1,
            views.1,
            times.1,
            steps.1,
            afters.1,
        ),
        steps.0 matches RequestStep::Propose { command } && meaning(command@) == Ok::<_, CommandError>(
            Some(commands.0),
        ),
        steps.1 matches RequestStep::Propose { command } && meaning(command@) == Ok::<_, CommandError>(
            Some(commands.1),
        ),
    ensures
        commands.0 == (Some(ctx), op@),
        commands.1 == commands.0,
        applied(state, commands.0) matches Ok((after, answer)) ==> applied(after, commands.1)
            == Ok::<_, BadSession>((after, answer)),
{
    law_a_write_is_proposed_as_asked(
        first,
        Some(ctx),
        op,
        tickets.0,
        views.0,
        times.0,
        steps.0,
        afters.0,
    );
    law_a_write_is_proposed_as_asked(
        second,
        Some(ctx),
        again,
        tickets.1,
        views.1,
        times.1,
        steps.1,
        afters.1,
    );
    match applied(state, commands.0) {
        Ok((after, answer)) => {
            law_exactly_once(state, ctx, op@, ctx, op@);
        },
        Err(_) => {},
    }
}

/// A read is for what was asked, and is handed out at once only under a lease:
/// a quorum must have confirmed this leader for longer than now, and readers
/// must see everything that is committed. Else it is to be confirmed under a
/// token that no read had before.
pub proof fn law_a_read_is_handed_out_only_under_a_lease(
    before: Group,
    key: Vec<u8>,
    ticket: Ticket,
    view: NodeView,
    now: Nanos,
    step: RequestStep,
    after: Group,
)
    requires
        request_taken(before, (ClientOp::Get { key }), ticket, view, now, step, after),
        before.next_token < u64::MAX,
    ensures
        match step {
            RequestStep::Read(job) => {
                &&& before.lease_reads
                &&& view.role == Role::Leader
                &&& before.lease_until is Some
                &&& now < before.lease_until->0
                &&& view.commit_index <= before.visible.index
                &&& job.group == before.group
                &&& job.key@ == key@
                &&& job.at == view.commit_index
                &&& job.ticket == ticket
                &&& after == before
            },
            RequestStep::Confirm { token, key: k } => {
                &&& k@ == key@
                &&& token > before.next_token
                &&& after.next_token == token
                &&& after == (Group { next_token: after.next_token, ..before })
                &&& !before.lease_reads || view.role != Role::Leader || before.lease_until is None
                    || before.lease_until->0 <= now || before.visible.index < view.commit_index
            },
            RequestStep::Propose { .. } => false,
        },
{
}

/// What taking an administration request in asks for.
pub open spec fn admin_taken(
    group: Group,
    op: AdminOp,
    view: NodeView,
    log_first_index: LogIndex,
    log_last_index: LogIndex,
    step: AdminStep,
) -> bool {
    match op {
        AdminOp::Status => step matches AdminStep::Answer(AdminReply::Status(status)) && describes(
            status,
            group,
            view,
            log_first_index,
            log_last_index,
        ),
        AdminOp::ShardStatuses => step matches AdminStep::Answer(AdminReply::Rejected { reason })
            && reason@ == "shard statuses are answered node-wide, not per group"@,
        AdminOp::LocalShardMap => step matches AdminStep::Answer(AdminReply::ShardMap(bytes))
            && opt_view(bytes) == (if group.engine@.contains_key(SHARD_MAP_KEY@) {
            Some(group.engine@[SHARD_MAP_KEY@])
        } else {
            None
        }),
        AdminOp::ReleaseShard { .. } => step == AdminStep::Answer(
            AdminReply::Released { released: !in_group(view, view.id) },
        ),
        AdminOp::AddNode { id, address } => {
            &&& step matches AdminStep::Propose(change)
            &&& change.op == ConfOp::AddLearner
            &&& change.node == id
            &&& change.context@ == seq![BOOK_MAGIC] + enc_book(
                book(group.endpoints@).insert(id, address@),
            )
        },
        AdminOp::RemoveNode { id } => {
            &&& step matches AdminStep::Propose(change)
            &&& change.op == if view.config.voters@.contains(id) {
                ConfOp::RemoveVoter
            } else {
                ConfOp::RemoveLearner
            }
            &&& change.node == id
            &&& change.context@ == Seq::<u8>::empty()
        },
    }
}

/// Admitting a node teaches the whole cluster: the change that is proposed adds
/// that node as a learner, and whoever applies it knows the node at the address
/// given and every other node at the address this group has for it.
pub proof fn law_an_admitted_node_is_known_to_all(
    group: Group,
    id: NodeId,
    address: String,
    view: NodeView,
    log_first_index: LogIndex,
    log_last_index: LogIndex,
    step: AdminStep,
    known: Map<NodeId, Seq<char>>,
    state: Map<Seq<u8>, Seq<u8>>,
    peer: NodeId,
)
    requires
        admin_taken(
            group,
            (AdminOp::AddNode { id, address }),
            view,
            log_first_index,
            log_last_index,
            step,
        ),
        group.endpoints@.dom().finite(),
        group.endpoints@.dom().len() < u64::MAX,
        encode_utf8(address@).len() <= u64::MAX,
        forall|n: NodeId| #[trigger]
            group.endpoints@.contains_key(n) ==> encode_utf8(group.endpoints@[n]@).len()
                <= u64::MAX,
    ensures
        step matches AdminStep::Propose(change) && {
            let book = conf_book(known, change.op, change.node, change.context@);
            let after = conf_state(state, change.op, change.node, change.context@);
            &&& change.op == ConfOp::AddLearner
            &&& change.node == id
            &&& book.contains_key(id)
            &&& book[id] == address@
            &&& after.contains_key(peer_key_of(id))
            &&& after[peer_key_of(id)] == encode_utf8(address@)
            &&& peer != id && group.endpoints@.contains_key(peer) ==> book.contains_key(peer)
                && book[peer] == group.endpoints@[peer]@
        },
{
    let addresses = book(group.endpoints@).insert(id, address@);
    assert(book(group.endpoints@).dom() =~= group.endpoints@.dom());
    match step {
        AdminStep::Propose(change) => {
            crate::membership::law_an_admission_spreads_its_addresses(
                state,
                known,
                change.op,
                change.node,
                change.context@,
                addresses,
                id,
            );
            crate::membership::law_an_admission_spreads_its_addresses(
                state,
                known,
                change.op,
                change.node,
                change.context@,
                addresses,
                peer,
            );
        },
        _ => {},
    }
}

/// Removing a node is of that node, as a voter exactly if it votes; whoever
/// applies the change no longer knows where it lives, and still knows everybody
/// else.
pub proof fn law_a_removed_node_is_forgotten(
    group: Group,
    id: NodeId,
    view: NodeView,
    log_first_index: LogIndex,
    log_last_index: LogIndex,
    step: AdminStep,
    known: Map<NodeId, Seq<char>>,
    peer: NodeId,
)
    requires
        admin_taken(
            group,
            (AdminOp::RemoveNode { id }),
            view,
            log_first_index,
            log_last_index,
            step,
        ),
    ensures
        step matches AdminStep::Propose(change) && {
            let book = conf_book(known, change.op, change.node, change.context@);
            &&& change.node == id
            &&& change.op == ConfOp::RemoveVoter <==> view.config.voters@.contains(id)
            &&& change.op == ConfOp::RemoveVoter || change.op == ConfOp::RemoveLearner
            &&& book.contains_key(peer) <==> known.contains_key(peer) && peer != id
            &&& book.contains_key(peer) ==> book[peer] == known[peer]
        },
{
}

/// An operator is told what is: who leads, in which term and with which members,
/// how far the log goes and how much of it is committed and applied, and where
/// each member lives; the map that this replica holds, byte for byte; and that a
/// shard may go exactly where this node is neither a voter nor a learner of its
/// group.
pub proof fn law_an_operator_is_told_what_is(
    group: Group,
    op: AdminOp,
    view: NodeView,
    log_first_index: LogIndex,
    log_last_index: LogIndex,
    step: AdminStep,
    id: NodeId,
)
    requires
        admin_taken(group, op, view, log_first_index, log_last_index, step),
    ensures
        op is Status ==> (step matches AdminStep::Answer(AdminReply::Status(status)) && {
            &&& status.id == view.id
            &&& status.leader == view.leader
            &&& status.term == view.term
            &&& status.voters@ == view.config.voters@
            &&& status.learners@ == view.config.learners@
            &&& status.commit_index == view.commit_index
            &&& status.applied_index == group.applied_index
            &&& status.log_first_index == log_first_index
            &&& status.log_last_index == log_last_index
            &&& book(status.endpoints@).contains_key(id) == group.endpoints@.contains_key(id)
            &&& group.endpoints@.contains_key(id) ==> book(status.endpoints@)[id]
                == group.endpoints@[id]@
        }),
        op is LocalShardMap ==> (step matches AdminStep::Answer(AdminReply::ShardMap(bytes)) && {
            &&& bytes is Some <==> group.engine@.contains_key(SHARD_MAP_KEY@)
            &&& bytes matches Some(b) ==> b@ == group.engine@[SHARD_MAP_KEY@]
        }),
        op is ReleaseShard ==> (step matches AdminStep::Answer(AdminReply::Released { released })
            && (released <==> !view.config.voters@.contains(view.id)
            && !view.config.learners@.contains(view.id))),
{
}

/// Whether `id` is in the group, voting or learning.
pub open spec fn in_group(view: NodeView, id: NodeId) -> bool {
    view.config.voters@.contains(id) || view.config.learners@.contains(id)
}

impl Group {
    /// Takes one client's request in. A read goes through the leader and a
    /// quorum, never straight to the state machine: a deposed leader would
    /// serve a value that has since been overwritten.
    pub fn handle_request(&mut self, op: ClientOp, ticket: Ticket, view: &NodeView, now: Nanos)
        -> (step: RequestStep)
        requires
            old(self).next_token < u64::MAX,
        ensures
            request_taken(*old(self), op, ticket, *view, now, step, *final(self)),
    {
        match op {
            ClientOp::Mutate { ctx, op } => {
                let command = Command::new(ctx, op);
                RequestStep::Propose { command: command.encode() }
            },
            ClientOp::Get { key } => {
                let leased = match self.lease_until {
                    Some(until) => now < until,
                    None => false,
                };
                if self.lease_reads && view.role == Role::Leader && leased && self.visible.index()
                    >= view.commit_index {
                    return RequestStep::Read(
                        ReadJob { group: self.group, key, at: view.commit_index, ticket },
                    );
                }
                self.next_token = self.next_token + 1;
                RequestStep::Confirm { token: self.next_token, key }
            },
        }
    }

    /// Files whoever proposed a command, under the index the core gave it.
    pub fn proposed(
        &mut self,
        outcome: Result<LogIndex, ProposeError>,
        ticket: Ticket,
        view: &NodeView,
        now: Nanos,
    ) -> (filed: Filed)
        requires
            old(self).wf(),
            now < MAX_NANOS,
        ensures
            final(self).wf(),
            match outcome {
                Ok(index) => {
                    let waiting = Pending {
                        term: view.term,
                        ticket,
                        deadline: (now + old(self).request_timeout) as u128,
                    };
                    &&& filed == Filed::Waiting { displaced: waiting_at(old(self).pending@, index) }
                    &&& final(self).pending@ == old(self).pending@.insert(index, waiting)
                    &&& *final(self) == (Group { pending: final(self).pending, ..*old(self) })
                },
                Err(_) => filed == Filed::Answered(client_redirect(ticket, view.leader))
                    && *final(self) == *old(self),
            },
    {
        match outcome {
            Ok(index) => {
                let waiting = Pending {
                    term: view.term,
                    ticket,
                    deadline: now + self.request_timeout,
                };
                let displaced = match self.pending.insert(index, waiting) {
                    Some(before) => Some(before.ticket),
                    None => None,
                };
                Filed::Waiting { displaced }
            },
            Err(ProposeError::NotLeader) => Filed::Answered(
                Reply {
                    ticket,
                    answer: Answer::Client(ClientReply::NotLeader { hint: view.leader }),
                },
            ),
        }
    }

    /// Files whoever asked for a read, under the token its confirmation will
    /// carry. A core that does not lead, or has not committed in its own term,
    /// does not start one: the client asks someone else.
    pub fn read_started(
        &mut self,
        token: u64,
        key: Vec<u8>,
        outcome: Result<(), ReadIndexError>,
        ticket: Ticket,
        view: &NodeView,
        now: Nanos,
    ) -> (filed: Filed)
        requires
            old(self).wf(),
            now < MAX_NANOS,
        ensures
            final(self).wf(),
            match outcome {
                Ok(()) => {
                    let waiting = PendingRead {
                        key,
                        ticket,
                        deadline: (now + old(self).request_timeout) as u128,
                        confirmed_at: None,
                    };
                    let reads = old(self).pending_reads@;
                    &&& filed == Filed::Waiting {
                        displaced: if reads.contains_key(token) {
                            Some(reads[token].ticket)
                        } else {
                            None
                        },
                    }
                    &&& final(self).pending_reads@ == reads.insert(token, waiting)
                    &&& *final(self) == (Group {
                        pending_reads: final(self).pending_reads,
                        ..*old(self)
                    })
                },
                Err(_) => filed == Filed::Answered(client_redirect(ticket, view.leader))
                    && *final(self) == *old(self),
            },
    {
        match outcome {
            Ok(()) => {
                let waiting = PendingRead {
                    key,
                    ticket,
                    deadline: now + self.request_timeout,
                    confirmed_at: None,
                };
                let displaced = match self.pending_reads.insert(token, waiting) {
                    Some(before) => Some(before.ticket),
                    None => None,
                };
                Filed::Waiting { displaced }
            },
            Err(_) => Filed::Answered(
                Reply {
                    ticket,
                    answer: Answer::Client(ClientReply::NotLeader { hint: view.leader }),
                },
            ),
        }
    }

    /// What this replica says of the cluster.
    pub fn status(
        &self,
        view: &NodeView,
        log_first_index: LogIndex,
        log_last_index: LogIndex,
    ) -> (status: ClusterStatus)
        ensures
            describes(status, *self, *view, log_first_index, log_last_index),
    {
        ClusterStatus {
            id: view.id,
            leader: view.leader,
            term: view.term,
            voters: copy_ids(&view.config.voters),
            learners: copy_ids(&view.config.learners),
            endpoints: self.endpoints.clone(),
            commit_index: view.commit_index,
            applied_index: self.applied_index,
            log_first_index,
            log_last_index,
        }
    }

    /// Takes one administration request in.
    ///
    /// A membership change carries its addresses in the entry's context, so
    /// that every replica learns them from the log. An admission carries the
    /// whole book, not just the newcomer's address: the founding members appear
    /// in no entry, and a node that knows only itself can dial nobody.
    pub fn handle_admin(
        &self,
        op: AdminOp,
        view: &NodeView,
        log_first_index: LogIndex,
        log_last_index: LogIndex,
    ) -> (step: AdminStep)
        requires
            self.wf(),
        ensures
            admin_taken(*self, op, *view, log_first_index, log_last_index, step),
    {
        match op {
            AdminOp::Status => AdminStep::Answer(
                AdminReply::Status(self.status(view, log_first_index, log_last_index)),
            ),
            AdminOp::ShardStatuses => AdminStep::Answer(
                AdminReply::Rejected {
                    reason: "shard statuses are answered node-wide, not per group".to_owned(),
                },
            ),
            AdminOp::LocalShardMap => AdminStep::Answer(
                AdminReply::ShardMap(encoded(&self.engine)),
            ),
            AdminOp::ReleaseShard { .. } => AdminStep::Answer(
                AdminReply::Released { released: !view.config.contains(view.id) },
            ),
            AdminOp::AddNode { id, address } => {
                let mut addresses = self.endpoints.clone();
                let ghost before = addresses@;
                let ghost text = address@;
                addresses.insert(id, address);
                assert(book(addresses@) =~= book(before).insert(id, text));
                AdminStep::Propose(
                    ConfChange {
                        op: ConfOp::AddLearner,
                        node: id,
                        context: encode_book(&addresses),
                    },
                )
            },
            AdminOp::RemoveNode { id } => {
                let op = if view.config.is_voter(id) {
                    ConfOp::RemoveVoter
                } else {
                    ConfOp::RemoveLearner
                };
                AdminStep::Propose(ConfChange { op, node: id, context: Vec::new() })
            },
        }
    }

    /// Files whoever proposed a membership change, under the index the core
    /// gave it. One change at a time is the core's rule; the operator retries
    /// once the one in flight commits.
    pub fn conf_proposed(
        &mut self,
        outcome: Result<LogIndex, ConfProposeError>,
        ticket: Ticket,
        view: &NodeView,
        now: Nanos,
    ) -> (filed: Filed)
        requires
            old(self).wf(),
            now < MAX_NANOS,
        ensures
            final(self).wf(),
            match outcome {
                Ok(index) => {
                    let waiting = Pending {
                        term: view.term,
                        ticket,
                        deadline: (now + old(self).request_timeout) as u128,
                    };
                    &&& filed == Filed::Waiting {
                        displaced: waiting_at(old(self).pending_conf@, index),
                    }
                    &&& final(self).pending_conf@ == old(self).pending_conf@.insert(index, waiting)
                    &&& *final(self) == (Group {
                        pending_conf: final(self).pending_conf,
                        ..*old(self)
                    })
                },
                Err(ConfProposeError::NotLeader) => filed == Filed::Answered(
                    admin_redirect(ticket, view.leader),
                ) && *final(self) == *old(self),
                Err(ConfProposeError::Refused { reason }) => filed == Filed::Answered(
                    Reply { ticket, answer: Answer::Admin(AdminReply::Rejected { reason }) },
                ) && *final(self) == *old(self),
            },
    {
        match outcome {
            Ok(index) => {
                let waiting = Pending {
                    term: view.term,
                    ticket,
                    deadline: now + self.request_timeout,
                };
                let displaced = match self.pending_conf.insert(index, waiting) {
                    Some(before) => Some(before.ticket),
                    None => None,
                };
                Filed::Waiting { displaced }
            },
            Err(ConfProposeError::NotLeader) => Filed::Answered(
                Reply { ticket, answer: Answer::Admin(AdminReply::NotLeader { hint: view.leader }) },
            ),
            Err(ConfProposeError::Refused { reason }) => Filed::Answered(
                Reply { ticket, answer: Answer::Admin(AdminReply::Rejected { reason }) },
            ),
        }
    }
}

/// A read to perform is seen whole.
pub proof fn law_a_job_is_seen_whole(job: ReadJob)
    ensures
        job@.0 == job.group,
        job@.1 == job.key@,
        job@.2 == job.at,
        job@.3 == job.ticket,
{
}

/// A change is about the key it names.
pub proof fn law_a_change_is_about_its_key(
    key: Seq<u8>,
    value: Seq<u8>,
    expected: Option<Seq<u8>>,
)
    ensures
        key_of(Change::Put(key, value)) == key,
        key_of(Change::Delete(key)) == key,
        key_of(Change::Cas(key, expected, value)) == key,
{
}

/// Who is told to ask elsewhere is told whom to ask, and whoever is displaced from
/// a place in the log is the one who waited there.
pub proof fn law_a_redirect_names_the_leader(
    ticket: Ticket,
    leader: Option<NodeId>,
    waiting: Map<LogIndex, Pending>,
    index: LogIndex,
)
    ensures
        client_redirect(ticket, leader).ticket == ticket,
        client_redirect(ticket, leader).answer == Answer::Client(
            ClientReply::NotLeader { hint: leader },
        ),
        admin_redirect(ticket, leader).ticket == ticket,
        admin_redirect(ticket, leader).answer == Answer::Admin(AdminReply::NotLeader { hint: leader }),
        waiting_at(waiting, index) is Some <==> waiting.contains_key(index),
        waiting.contains_key(index) ==> waiting_at(waiting, index) == Some(waiting[index].ticket),
{
}

/// A request that waited too long goes on waiting only where this node leads and
/// has committed within the time a request may take; and what the state machine
/// answers is what the client hears.
pub proof fn law_only_a_working_leader_keeps_requests(
    leading: bool,
    since_commit: Nanos,
    timeout: Nanos,
    swapped: bool,
)
    ensures
        expiry_of(leading, since_commit, timeout) == Expiry::Wait <==> leading && since_commit
            < timeout,
        expiry_of(leading, since_commit, timeout) == Expiry::Redirect <==> !leading || timeout
            <= since_commit,
        reply_of(CommandResponse::Applied) == ClientReply::Applied,
        reply_of(CommandResponse::Swapped(swapped)) == ClientReply::Swapped(swapped),
{
}

/// A node is in a group exactly if it votes or learns there.
pub proof fn law_members_vote_or_learn(view: NodeView, id: NodeId)
    ensures
        in_group(view, id) <==> view.config.voters@.contains(id) || view.config.learners@.contains(
            id,
        ),
{
}

/// A command without a context is carried out as it is: a put leaves its value, a
/// delete leaves nothing, and a compare-and-swap takes effect exactly where the
/// key holds what it expects; no other key moves.
pub proof fn law_apply_carries_out_the_command(
    before: Engine,
    after: Engine,
    command: &Command,
    r: Result<CommandResponse, BadSession>,
    other: Seq<u8>,
)
    requires
        exists|engine: &mut Engine| #[trigger]
            call_ensures(apply, (engine, command), r) && *engine == before && *final(engine) == after,
        command.ctx is None,
    ensures
        match command.op {
            Mutation::Put { key, value } => {
                &&& r == Ok::<_, BadSession>(CommandResponse::Applied)
                &&& after@.contains_key(key@)
                &&& after@[key@] == value@
                &&& other != key@ ==> after@.contains_key(other) == before@.contains_key(other)
                    && after@[other] == before@[other]
            },
            Mutation::Delete { key } => {
                &&& r == Ok::<_, BadSession>(CommandResponse::Applied)
                &&& !after@.contains_key(key@)
                &&& other != key@ ==> after@.contains_key(other) == before@.contains_key(other)
                    && after@[other] == before@[other]
            },
            Mutation::Cas { key, expected, new_value } => {
                let matched = match expected {
                    Some(value) => before@.contains_key(key@) && before@[key@] == value@,
                    None => !before@.contains_key(key@),
                };
                &&& r == Ok::<_, BadSession>(CommandResponse::Swapped(matched))
                &&& matched ==> after@ == before@.insert(key@, new_value@)
                &&& !matched ==> after@ == before@
            },
        },
{
    law_a_write_takes_effect(before@, None, command.op@, None, other);
}

/// A command with a context is carried out once: one that the client's session
/// entry answers gets that answer again and moves nothing, and a fresh one does
/// what it asks for and leaves its answer in the entry.
pub proof fn law_apply_honours_the_session_table(
    before: Engine,
    after: Engine,
    command: &Command,
    ctx: RequestCtx,
    last: Option<(u64, CommandResponse)>,
    r: Result<CommandResponse, BadSession>,
    other: Seq<u8>,
)
    requires
        exists|engine: &mut Engine| #[trigger]
            call_ensures(apply, (engine, command), r) && *engine == before && *final(engine) == after,
        command.ctx == Some(ctx),
        !reserved(key_of(command.op@)),
        match last {
            Some((sequence, answer)) => before@.contains_key(session_key_of(ctx.client_id))
                && before@[session_key_of(ctx.client_id)] == enc_entry(sequence, answer),
            None => !before@.contains_key(session_key_of(ctx.client_id)),
        },
    ensures
        r is Ok,
        // Answered before: the same answer, and nothing moves.
        last matches Some((sequence, answer)) ==> (ctx.sequence <= sequence ==> r == Ok::<
            _,
            BadSession,
        >(answer) && after@ == before@),
        // Fresh: carried out, and the answer recorded.
        (last matches Some((sequence, _)) ==> sequence < ctx.sequence) ==> {
            let session = session_key_of(ctx.client_id);
            &&& after@.contains_key(session)
            &&& after@[session] == enc_entry(ctx.sequence, r->Ok_0)
            &&& match command.op {
                Mutation::Put { key, value } => {
                    &&& r->Ok_0 == CommandResponse::Applied
                    &&& after@.contains_key(key@)
                    &&& after@[key@] == value@
                    &&& other != key@ && other != session ==> after@.contains_key(other)
                        == before@.contains_key(other) && after@[other] == before@[other]
                },
                Mutation::Delete { key } => {
                    &&& r->Ok_0 == CommandResponse::Applied
                    &&& !after@.contains_key(key@)
                    &&& other != key@ && other != session ==> after@.contains_key(other)
                        == before@.contains_key(other) && after@[other] == before@[other]
                },
                Mutation::Cas { key, expected, new_value } => {
                    let matched = match expected {
                        Some(value) => before@.contains_key(key@) && before@[key@] == value@,
                        None => !before@.contains_key(key@),
                    };
                    &&& r->Ok_0 == CommandResponse::Swapped(matched)
                    &&& matched ==> after@.contains_key(key@) && after@[key@] == new_value@
                    &&& !matched && other != session ==> after@.contains_key(other)
                        == before@.contains_key(other) && after@[other] == before@[other]
                    &&& other != key@ && other != session ==> after@.contains_key(other)
                        == before@.contains_key(other) && after@[other] == before@[other]
                },
            }
        },
{
    session::law_session_keys(ctx.client_id, ctx.client_id);
    match last {
        Some((sequence, answer)) => {
            if ctx.sequence <= sequence {
                law_a_repeated_request_changes_nothing(
                    before@,
                    ctx,
                    command.op@,
                    sequence,
                    answer,
                );
            } else {
                law_a_write_takes_effect(before@, Some(ctx), command.op@, last, other);
            }
        },
        None => {
            law_a_write_takes_effect(before@, Some(ctx), command.op@, last, other);
        },
    }
}

/// What becomes of a request when the group takes it in: a write is proposed as
/// that very request, with its own context and change, and a read is for its own
/// key, handed out at once only under a lease that still runs and where readers
/// see all that is committed.
pub proof fn law_taking_a_request_in(
    before: Group,
    after: Group,
    op: ClientOp,
    ticket: Ticket,
    view: &NodeView,
    now: Nanos,
    step: RequestStep,
)
    requires
        exists|group: &mut Group| #[trigger]
            call_ensures(Group::handle_request, (group, op, ticket, view, now), step) && *group
                == before && *final(group) == after,
    ensures
        match op {
            ClientOp::Mutate { ctx, op } => {
                &&& after == before
                &&& step matches RequestStep::Propose { command } && meaning(command@) == Ok::<
                    _,
                    CommandError,
                >(Some((ctx, op@)))
            },
            ClientOp::Get { key } => match step {
                RequestStep::Propose { .. } => false,
                RequestStep::Read(job) => {
                    &&& after == before
                    &&& before.lease_reads
                    &&& view.role == Role::Leader
                    &&& before.lease_until matches Some(until)
                    &&& now < until
                    &&& before.visible.index >= view.commit_index
                    &&& job.group == before.group
                    &&& job.key@ == key@
                    &&& job.at == view.commit_index
                    &&& job.ticket == ticket
                },
                RequestStep::Confirm { token, key: k } => {
                    &&& k@ == key@
                    &&& token > before.next_token
                    &&& after.next_token == token
                    &&& after == (Group { next_token: token, ..before })
                    &&& !before.lease_reads || view.role != Role::Leader || before.visible.index
                        < view.commit_index || !(before.lease_until matches Some(until) && now
                        < until)
                },
            },
        },
{
    match op {
        ClientOp::Mutate { ctx, op } => {
            law_a_write_is_proposed_as_asked(before, ctx, op, ticket, *view, now, step, after);
        },
        ClientOp::Get { key } => {},
    }
}

/// A proposal that the core took waits at its place in the log, for the term it
/// was proposed in and no longer than a request may take; whoever waited there
/// is given up on. One that it did not take is answered with whom to ask, and
/// nobody waits.
pub proof fn law_a_proposal_waits_at_its_place(
    before: Group,
    after: Group,
    outcome: Result<LogIndex, ProposeError>,
    ticket: Ticket,
    view: &NodeView,
    now: Nanos,
    filed: Filed,
    other: LogIndex,
)
    requires
        before.wf(),
        now < MAX_NANOS,
        exists|group: &mut Group| #[trigger]
            call_ensures(Group::proposed, (group, outcome, ticket, view, now), filed) && *group
                == before && *final(group) == after,
    ensures
        outcome matches Ok(index) ==> {
            &&& after.pending@.contains_key(index)
            &&& after.pending@[index].ticket == ticket
            &&& after.pending@[index].term == view.term
            &&& after.pending@[index].deadline == now + before.request_timeout
            &&& other != index ==> after.pending@.contains_key(other)
                == before.pending@.contains_key(other) && after.pending@[other]
                == before.pending@[other]
            &&& after == (Group { pending: after.pending, ..before })
            &&& filed matches Filed::Waiting { displaced } && (displaced matches Some(t)
                ==> before.pending@.contains_key(index) && t == before.pending@[index].ticket)
                && (displaced is None ==> !before.pending@.contains_key(index))
        },
        outcome is Err ==> after == before && filed == Filed::Answered(
            Reply {
                ticket,
                answer: Answer::Client(ClientReply::NotLeader { hint: view.leader }),
            },
        ),
{
}

/// A read that the core confirms waits under its token, for its own key, not yet
/// confirmed; one that it does not start is answered with whom to ask.
pub proof fn law_a_read_waits_under_its_token(
    before: Group,
    after: Group,
    token: u64,
    key: Vec<u8>,
    outcome: Result<(), ReadIndexError>,
    ticket: Ticket,
    view: &NodeView,
    now: Nanos,
    filed: Filed,
    other: u64,
)
    requires
        before.wf(),
        now < MAX_NANOS,
        exists|group: &mut Group| #[trigger]
            call_ensures(
                Group::read_started,
                (group, token, key, outcome, ticket, view, now),
                filed,
            ) && *group == before && *final(group) == after,
    ensures
        outcome is Ok ==> {
            &&& after.pending_reads@.contains_key(token)
            &&& after.pending_reads@[token].key@ == key@
            &&& after.pending_reads@[token].ticket == ticket
            &&& after.pending_reads@[token].deadline == now + before.request_timeout
            &&& after.pending_reads@[token].confirmed_at is None
            &&& other != token ==> after.pending_reads@.contains_key(other)
                == before.pending_reads@.contains_key(other) && after.pending_reads@[other]
                == before.pending_reads@[other]
            &&& after == (Group { pending_reads: after.pending_reads, ..before })
            &&& filed matches Filed::Waiting { displaced } && (displaced matches Some(t)
                ==> before.pending_reads@.contains_key(token) && t
                == before.pending_reads@[token].ticket) && (displaced is None
                ==> !before.pending_reads@.contains_key(token))
        },
        outcome is Err ==> after == before && filed == Filed::Answered(
            Reply {
                ticket,
                answer: Answer::Client(ClientReply::NotLeader { hint: view.leader }),
            },
        ),
{
}

/// A membership change that the core took waits at its place, as a proposal
/// does; a refused one is answered with the core's own reason.
pub proof fn law_a_change_waits_at_its_place(
    before: Group,
    after: Group,
    outcome: Result<LogIndex, ConfProposeError>,
    ticket: Ticket,
    view: &NodeView,
    now: Nanos,
    filed: Filed,
    other: LogIndex,
)
    requires
        before.wf(),
        now < MAX_NANOS,
        exists|group: &mut Group| #[trigger]
            call_ensures(Group::conf_proposed, (group, outcome, ticket, view, now), filed)
                && *group == before && *final(group) == after,
    ensures
        match outcome {
            Ok(index) => {
                &&& after.pending_conf@.contains_key(index)
                &&& after.pending_conf@[index].ticket == ticket
                &&& after.pending_conf@[index].term == view.term
                &&& after.pending_conf@[index].deadline == now + before.request_timeout
                &&& other != index ==> after.pending_conf@.contains_key(other)
                    == before.pending_conf@.contains_key(other) && after.pending_conf@[other]
                    == before.pending_conf@[other]
                &&& after == (Group { pending_conf: after.pending_conf, ..before })
                &&& filed matches Filed::Waiting { displaced } && (displaced matches Some(t)
                    ==> before.pending_conf@.contains_key(index) && t
                    == before.pending_conf@[index].ticket) && (displaced is None
                    ==> !before.pending_conf@.contains_key(index))
            },
            Err(ConfProposeError::NotLeader) => after == before && filed == Filed::Answered(
                Reply {
                    ticket,
                    answer: Answer::Admin(AdminReply::NotLeader { hint: view.leader }),
                },
            ),
            Err(ConfProposeError::Refused { reason }) => after == before && filed
                == Filed::Answered(
                Reply { ticket, answer: Answer::Admin(AdminReply::Rejected { reason }) },
            ),
        },
{
}

/// A group starts with nobody waiting and nothing seen, from its snapshot and
/// its settings; what the state machine's book says of a node wins over the
/// flags, and the node's own address is known.
pub proof fn law_a_group_starts_from_its_snapshot(
    config: &NodeConfig,
    group: GroupId,
    engine: Engine,
    snapshot_index: LogIndex,
    now: Nanos,
    g: Group,
    peer: NodeId,
)
    requires
        engine.wf(),
        config.times_fit(),
        call_ensures(Group::new, (config, group, engine, snapshot_index, now), g),
    ensures
        g.group == group,
        g.engine == engine,
        g.applied_index == snapshot_index,
        g.visible.index == snapshot_index,
        g.snapshot_index == snapshot_index,
        g.pending@.len() == 0 && g.pending_conf@.len() == 0 && g.pending_reads@.len() == 0,
        g.next_token == 0,
        g.lease_until is None,
        g.commit_seen == 0,
        g.commit_moved_at == now,
        g.promote_learners <==> group != META,
        g.lease_reads == config.lease_reads,
        g.snapshot_threshold == config.snapshot_threshold,
        endpoints_of(engine@).contains_key(peer) ==> book(g.endpoints@).contains_key(peer)
            && book(g.endpoints@)[peer] == endpoints_of(engine@)[peer],
        !endpoints_of(engine@).contains_key(peer) && peer == config.id ==> book(
            g.endpoints@,
        ).contains_key(peer) && book(g.endpoints@)[peer] == config.listen@,
        !endpoints_of(engine@).contains_key(peer) && peer != config.id ==> (book(
            g.endpoints@,
        ).contains_key(peer) <==> config.peers@.contains_key(peer)),
        !endpoints_of(engine@).contains_key(peer) && peer != config.id
            && config.peers@.contains_key(peer) ==> book(g.endpoints@)[peer]
            == config.peers@[peer]@,
{
}

/// What an administration request asks for next: an admission of its own node as
/// a learner, a removal of its own node as the voter or learner that it is; and a
/// shard is let go exactly where its group does not name this node.
pub proof fn law_taking_an_admin_request_in(
    group: &Group,
    op: AdminOp,
    view: &NodeView,
    first: LogIndex,
    last: LogIndex,
    step: AdminStep,
    status: ClusterStatus,
    id: NodeId,
)
    requires
        group.wf(),
        call_ensures(Group::handle_admin, (group, op, view, first, last), step),
        call_ensures(Group::status, (group, view, first, last), status),
    ensures
        status.leader == view.leader && status.term == view.term,
        status.voters@ == view.config.voters@ && status.learners@ == view.config.learners@,
        status.applied_index == group.applied_index && status.commit_index == view.commit_index,
        op matches AdminOp::AddNode { id, .. } ==> (step matches AdminStep::Propose(change)
            && change.op == ConfOp::AddLearner && change.node == id),
        op matches AdminOp::RemoveNode { id } ==> (step matches AdminStep::Propose(change)
            && change.node == id && (change.op == ConfOp::RemoveVoter
            <==> view.config.voters@.contains(id))),
        op is ReleaseShard ==> (step matches AdminStep::Answer(AdminReply::Released { released })
            && (released <==> !view.config.voters@.contains(view.id)
            && !view.config.learners@.contains(view.id))),
{
}

/// The small pieces of a request: what it is built from is what it asks for, an
/// answer of the state machine is told as it is, and a waiting request is kept
/// only by a leader that still commits.
pub proof fn law_small_pieces_of_a_request(
    key: &[u8],
    value: &[u8],
    ops: (ClientOp, ClientOp, ClientOp),
    response: CommandResponse,
    reply: ClientReply,
    leading: bool,
    since_commit: Nanos,
    timeout: Nanos,
    expiry: Expiry,
)
    requires
        call_ensures(ClientOp::put, (key, value), ops.0),
        call_ensures(ClientOp::delete, (key,), ops.1),
        call_ensures(ClientOp::get, (key,), ops.2),
        call_ensures(reply_from, (response,), reply),
        call_ensures(expiry_decision, (leading, since_commit, timeout), expiry),
    ensures
        ops.0 matches ClientOp::Mutate { ctx: None, op: Mutation::Put { key: k, value: v } } && k@
            == key@ && v@ == value@,
        ops.1 matches ClientOp::Mutate { ctx: None, op: Mutation::Delete { key: k } } && k@ == key@,
        ops.2 matches ClientOp::Get { key: k } && k@ == key@,
        response == CommandResponse::Applied ==> reply == ClientReply::Applied,
        response matches CommandResponse::Swapped(swapped) ==> reply == ClientReply::Swapped(
            swapped,
        ),
        expiry == Expiry::Wait <==> leading && since_commit < timeout,
{
}

} // verus!
