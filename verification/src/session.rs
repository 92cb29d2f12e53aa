//! Exactly-once client semantics.
//!
//! A client sends a compare-and-swap, the leader commits it, then dies before
//! replying. The client retries. Evaluated a second time the swap would see the
//! value it already swapped in and answer that it did not happen, which is a
//! wrong answer and not merely a wasted write.
//!
//! So every client has an id, every request a sequence number, and the state
//! machine remembers the last one it answered per client along with the answer
//! it gave. A duplicate returns that answer and applies nothing.
//!
//! The table lives inside the state machine, among the user's own keys, because
//! the one situation it exists for is a leader failover: every replica has it,
//! and a snapshot carries it.

use vstd::prelude::*;

use crate::bytes::{be, from_le, le, push_be, lemma_be_len, lemma_from_be_be, lemma_from_le_le,
    lemma_le_len, lemma_pow256_widths};
use crate::codec::{enc_bool, get_bool, get_u32, get_u64, put_bool, put_u32, put_u64};
use crate::engine::{Edit, Engine};
use crate::membership::peer_key_of;
use crate::shard_map::SHARD_MAP_KEY;
use crate::types::NodeId;

verus! {

/// The first byte of every key that is not a user's. User keys may not begin
/// with it: the service refuses them, so that a client cannot forge a session
/// entry or corrupt one by accident.
pub const RESERVED_PREFIX: u8 = 0x00;

/// Identifies one request from one client, so a retry is recognisable as the
/// same request rather than a new one.
#[derive(Debug, Clone, Copy, PartialEq, Eq, Structural)]
pub struct RequestCtx {
    pub client_id: u64,
    pub sequence: u64,
}

/// What a mutation answered, cached so a retry gets the same answer.
#[derive(Debug, Clone, Copy, PartialEq, Eq, Structural)]
pub enum CommandResponse {
    Applied,
    /// Whether the compare-and-swap took effect.
    Swapped(bool),
}

/// A row of the session table that is not a session entry.
#[derive(Debug, Clone, Copy, PartialEq, Eq, Structural)]
pub struct BadSession;

/// Whether `key` is in the reserved space the session table occupies.
pub fn is_reserved(key: &[u8]) -> (r: bool)
    ensures
        r == reserved(key@),
{
    key.len() > 0 && key[0] == RESERVED_PREFIX
}

/// Whether a key is one no client may name.
pub open spec fn reserved(key: Seq<u8>) -> bool {
    key.len() > 0 && key[0] == RESERVED_PREFIX
}

/// The bytes that every session key begins with: the reserved byte and
/// `session/`.
pub open spec fn session_prefix() -> Seq<u8> {
    seq![RESERVED_PREFIX, 0x73, 0x65, 0x73, 0x73, 0x69, 0x6f, 0x6e, 0x2f]
}

/// The key of one client's session entry.
pub open spec fn session_key_of(client_id: u64) -> Seq<u8> {
    session_prefix() + be(client_id as nat, 8)
}

/// The key of one client's session entry.
pub fn session_key(client_id: u64) -> (key: Vec<u8>)
    ensures
        key@ == session_key_of(client_id),
{
    let mut key: Vec<u8> = vec![RESERVED_PREFIX, 0x73, 0x65, 0x73, 0x73, 0x69, 0x6f, 0x6e, 0x2f];
    assert(key@ =~= session_prefix());
    push_be(&mut key, client_id, 8);
    key
}

/// The stored form of an answer.
pub open spec fn enc_response(response: CommandResponse) -> Seq<u8> {
    match response {
        CommandResponse::Applied => le(0, 4),
        CommandResponse::Swapped(swapped) => le(1, 4) + enc_bool(swapped),
    }
}

/// The stored form of a session entry: the last sequence number answered, and
/// the answer.
pub open spec fn enc_entry(sequence: u64, response: CommandResponse) -> Seq<u8> {
    le(sequence as nat, 8) + enc_response(response)
}

/// The session entry that a row begins with.
pub open spec fn entry_of(row: Seq<u8>) -> Option<(u64, CommandResponse)> {
    if row.len() < 12 {
        None
    } else {
        let sequence = from_le(row.take(8)) as u64;
        let tag = from_le(row.subrange(8, 12));
        if tag == 0 {
            Some((sequence, CommandResponse::Applied))
        } else if tag == 1 && row.len() >= 13 && row[12] <= 1 {
            Some((sequence, CommandResponse::Swapped(row[12] == 1)))
        } else {
            None
        }
    }
}

/// The answer that a state machine has cached for a request: the one in the
/// client's entry, if that entry is for this request or a later one.
pub open spec fn cached_answer(
    state: Map<Seq<u8>, Seq<u8>>,
    ctx: RequestCtx,
) -> Result<Option<CommandResponse>, BadSession> {
    if !state.contains_key(session_key_of(ctx.client_id)) {
        Ok(None)
    } else {
        match entry_of(state[session_key_of(ctx.client_id)]) {
            None => Err(BadSession),
            Some((sequence, response)) => if ctx.sequence <= sequence {
                Ok(Some(response))
            } else {
                Ok(None)
            },
        }
    }
}

/// A stored session entry reads back as it was written.
pub proof fn lemma_entry_of_enc(sequence: u64, response: CommandResponse, rest: Seq<u8>)
    ensures
        entry_of(enc_entry(sequence, response) + rest) == Some((sequence, response)),
{
    let row = enc_entry(sequence, response) + rest;
    lemma_pow256_widths();
    lemma_le_len(sequence as nat, 8);
    lemma_le_len(0, 4);
    lemma_le_len(1, 4);
    lemma_from_le_le(sequence as nat, 8);
    lemma_from_le_le(0, 4);
    lemma_from_le_le(1, 4);
    assert(row.take(8) =~= le(sequence as nat, 8));
    match response {
        CommandResponse::Applied => {
            assert(row.subrange(8, 12) =~= le(0, 4));
        },
        CommandResponse::Swapped(_) => {
            assert(row.subrange(8, 12) =~= le(1, 4));
        },
    }
}

/// Reads a session entry off the front of a row.
fn read_entry(row: &[u8]) -> (entry: Option<(u64, CommandResponse)>)
    ensures
        entry == entry_of(row@),
{
    proof {
        lemma_pow256_widths();
        lemma_from_le_le(0, 4);
        lemma_from_le_le(1, 4);
    }
    let (sequence, rest) = match get_u64(row) {
        Some(got) => got,
        None => {
            return None;
        },
    };
    proof {
        lemma_le_len(sequence as nat, 8);
        lemma_from_le_le(sequence as nat, 8);
        assert(row@.take(8) =~= le(sequence as nat, 8));
        assert(row@.skip(8) =~= rest@);
    }
    let (tag, rest2) = match get_u32(rest) {
        Some(got) => got,
        None => {
            return None;
        },
    };
    proof {
        lemma_le_len(tag as nat, 4);
        lemma_from_le_le(tag as nat, 4);
        assert(row@.subrange(8, 12) =~= le(tag as nat, 4));
        assert(row@.skip(12) =~= rest2@);
    }
    if tag == 0 {
        return Some((sequence, CommandResponse::Applied));
    }
    if tag != 1 {
        return None;
    }
    proof {
        if rest2@.len() > 0 {
            assert(rest2@[0] == row@[12]);
        }
    }
    match get_bool(rest2) {
        Some((swapped, _)) => Some((sequence, CommandResponse::Swapped(swapped))),
        None => None,
    }
}

/// The cached answer, if this request has already been applied.
///
/// A sequence number older than the one remembered counts as answered too:
/// treating it as fresh would apply it again.
pub fn cached(engine: &Engine, ctx: &RequestCtx) -> (r: Result<Option<CommandResponse>, BadSession>)
    requires
        engine.wf(),
    ensures
        r == cached_answer(engine@, *ctx),
{
    let key = session_key(ctx.client_id);
    match engine.get(&key) {
        None => Ok(None),
        Some(row) => match read_entry(&row) {
            None => Err(BadSession),
            Some((sequence, response)) => {
                if ctx.sequence <= sequence {
                    Ok(Some(response))
                } else {
                    Ok(None)
                }
            },
        },
    }
}

/// Records the answer given, so a retry of this request returns it again.
pub fn record(engine: &mut Engine, ctx: &RequestCtx, response: &CommandResponse)
    requires
        old(engine).wf(),
    ensures
        final(engine).wf(),
        final(engine)@ == old(engine)@.insert(
            session_key_of(ctx.client_id),
            enc_entry(ctx.sequence, *response),
        ),
        final(engine).queue() == old(engine).queue().push(
            Edit::Put(session_key_of(ctx.client_id), enc_entry(ctx.sequence, *response)),
        ),
        final(engine).unflushed(),
        final(engine).unpublished(),
{
    let mut row: Vec<u8> = Vec::new();
    put_u64(&mut row, ctx.sequence);
    match response {
        CommandResponse::Applied => {
            put_u32(&mut row, 0);
        },
        CommandResponse::Swapped(swapped) => {
            put_u32(&mut row, 1);
            put_bool(&mut row, *swapped);
        },
    }
    assert(row@ =~= enc_entry(ctx.sequence, *response));
    let key = session_key(ctx.client_id);
    engine.put(&key, &row);
}

/// Once an answer is recorded, every request of that client up to it gets that
/// answer, and every later one gets none.
pub proof fn law_recorded_answer_repeats(
    state: Map<Seq<u8>, Seq<u8>>,
    ctx: RequestCtx,
    response: CommandResponse,
    retry: RequestCtx,
)
    requires
        retry.client_id == ctx.client_id,
    ensures
        cached_answer(
            state.insert(session_key_of(ctx.client_id), enc_entry(ctx.sequence, response)),
            retry,
        ) == Ok::<_, BadSession>(
            if retry.sequence <= ctx.sequence {
                Some(response)
            } else {
                None
            },
        ),
{
    lemma_entry_of_enc(ctx.sequence, response, Seq::empty());
    assert(enc_entry(ctx.sequence, response) + Seq::<u8>::empty() =~= enc_entry(
        ctx.sequence,
        response,
    ));
}

/// Session keys are keys no client may name, and no two clients share one. Each
/// is seventeen bytes long, and none is the key of a node's endpoint or of the
/// shard map.
pub proof fn law_session_keys(a: u64, b: u64)
    ensures
        reserved(session_key_of(a)),
        session_key_of(a).len() == 17,
        session_key_of(a) == session_key_of(b) ==> a == b,
        forall|id: NodeId| session_key_of(a) != #[trigger] peer_key_of(id),
        session_key_of(a) != SHARD_MAP_KEY@,
{
    lemma_pow256_widths();
    lemma_be_len(a as nat, 8);
    lemma_be_len(b as nat, 8);
    lemma_from_be_be(a as nat, 8);
    lemma_from_be_be(b as nat, 8);
    assert(session_key_of(a)[0] == session_prefix()[0]);
    assert(session_key_of(a).skip(9) =~= be(a as nat, 8));
    assert(session_key_of(b).skip(9) =~= be(b as nat, 8));
    assert(SHARD_MAP_KEY@.len() == 9);
    assert forall|id: NodeId| session_key_of(a) != #[trigger] peer_key_of(id) by {
        lemma_be_len(id as nat, 8);
        assert(peer_key_of(id).len() == 14);
    }
}

/// A key is reserved exactly if it begins with a zero byte; the empty key is a
/// client's.
pub proof fn law_a_zero_byte_reserves(key: Seq<u8>)
    ensures
        reserved(key) <==> key.len() > 0 && key[0] == 0u8,
{
}

/// A client is known by its own entry alone: without one nothing it asks was
/// answered, whatever else the table holds, and a row that is too short to be an
/// entry is told apart from no row.
pub proof fn law_a_client_is_known_by_its_entry(
    state: Map<Seq<u8>, Seq<u8>>,
    ctx: RequestCtx,
    key: Seq<u8>,
    value: Seq<u8>,
)
    ensures
        !state.contains_key(session_key_of(ctx.client_id)) ==> (cached_answer(state, ctx) matches Ok(
            answer,
        ) && answer is None),
        state.contains_key(session_key_of(ctx.client_id)) && state[session_key_of(
            ctx.client_id,
        )].len() < 12 ==> cached_answer(state, ctx) is Err,
        key != session_key_of(ctx.client_id) ==> cached_answer(state.insert(key, value), ctx)
            == cached_answer(state, ctx) && cached_answer(state.remove(key), ctx) == cached_answer(
            state,
            ctx,
        ),
{
}

/// A recorded answer is found by every retry of its request and of earlier ones,
/// and by no later request; recording it touches nothing but the client's own
/// entry.
pub proof fn law_an_answer_is_kept_for_its_client(
    before: Engine,
    after: Engine,
    ctx: &RequestCtx,
    response: &CommandResponse,
    u: (),
    retry: &RequestCtx,
    r: Result<Option<CommandResponse>, BadSession>,
    key: Seq<u8>,
)
    requires
        before.wf(),
        after.wf(),
        exists|e: &mut Engine| #[trigger]
            call_ensures(record, (e, ctx, response), u) && *e == before && *final(e) == after,
        call_ensures(cached, (&after, retry), r),
        retry.client_id == ctx.client_id,
    ensures
        retry.sequence <= ctx.sequence ==> r == Ok::<_, BadSession>(Some(*response)),
        retry.sequence > ctx.sequence ==> (r matches Ok(answer) && answer is None),
        key != session_key_of(ctx.client_id) ==> after@.contains_key(key)
            == before@.contains_key(key) && after@[key] == before@[key],
{
    law_recorded_answer_repeats(before@, *ctx, *response, *retry);
}

/// Where a client's entry lies, and how: a zero byte, `session/` and the client's
/// name; the request's number, then what it was answered.
pub proof fn law_how_a_session_lies(client_id: u64, sequence: u64, swapped: bool)
    ensures
        session_key_of(client_id) == seq![
            0u8,
            0x73u8,
            0x65u8,
            0x73u8,
            0x73u8,
            0x69u8,
            0x6fu8,
            0x6eu8,
            0x2fu8,
        ] + be(client_id as nat, 8),
        enc_entry(sequence, CommandResponse::Applied) == le(sequence as nat, 8) + le(0, 4),
        enc_entry(sequence, CommandResponse::Swapped(swapped)) == le(sequence as nat, 8) + le(1, 4)
            + seq![
            if swapped {
                1u8
            } else {
                0u8
            },
        ],
{
    assert(enc_entry(sequence, CommandResponse::Swapped(swapped)) =~= le(sequence as nat, 8) + le(
        1,
        4,
    ) + enc_bool(swapped));
}

/// A key is reserved exactly where it begins with a zero byte, and a client's key
/// is.
pub proof fn law_clients_keys_are_reserved(
    key: &[u8],
    r: bool,
    client_id: u64,
    own: Vec<u8>,
)
    requires
        call_ensures(is_reserved, (key,), r),
        call_ensures(session_key, (client_id,), own),
    ensures
        r <==> key@.len() > 0 && key@[0] == 0,
        own@ == session_key_of(client_id),
        own@.len() == 17 && own@[0] == 0,
{
    law_a_zero_byte_reserves(key@);
    law_session_keys(client_id, client_id);
    law_a_zero_byte_reserves(own@);
}

} // verus!
