//! What a committed log entry means to the state machine.
//!
//! An entry's command is opaque to Raft, so the interpretation lives here. The
//! one subtlety is the empty command: a new leader appends a no-op in its own
//! term, and that entry is committed and applied like any other. It must mean
//! "do nothing" rather than be an error, or every election would poison the
//! state machine. No real command has an empty encoding.
//!
//! The request context rides in the log entry rather than beside it because the
//! session table it feeds is part of the replicated state.

use vstd::prelude::*;

use crate::bytes::{le, opt_view, lemma_le_len, lemma_pow256_widths};
use crate::codec::{enc_bool, enc_bytes, enc_opt_bytes, get_bool, get_bytes, get_opt_bytes,
    get_u32, get_u64, lemma_bytes_prefix, lemma_le_prefix, lemma_opt_bytes_prefix, put_bool,
    put_bytes, put_u32, put_u64};
use crate::session::RequestCtx;

verus! {

/// A change to the state machine.
#[derive(Debug, Clone, PartialEq, Eq)]
pub enum Mutation {
    Put { key: Vec<u8>, value: Vec<u8> },
    Delete { key: Vec<u8> },
    /// Compare-and-swap. `expected: None` means "only if absent", which is how
    /// a create-if-not-exists is expressed without a separate operation.
    Cas { key: Vec<u8>, expected: Option<Vec<u8>>, new_value: Vec<u8> },
}

/// A [`Mutation`] as a mathematical value.
pub enum Change {
    Put(Seq<u8>, Seq<u8>),
    Delete(Seq<u8>),
    Cas(Seq<u8>, Option<Seq<u8>>, Seq<u8>),
}

impl View for Mutation {
    type V = Change;

    open spec fn view(&self) -> Change {
        match *self {
            Mutation::Put { key, value } => Change::Put(key@, value@),
            Mutation::Delete { key } => Change::Delete(key@),
            Mutation::Cas { key, expected, new_value } => Change::Cas(
                key@,
                opt_view(expected),
                new_value@,
            ),
        }
    }
}

/// One entry of the log, as the state machine reads it.
#[derive(Debug, Clone, PartialEq, Eq)]
pub struct Command {
    /// `None` when the client is not tracking retries. Not a sentinel id:
    /// client 0 is a real client.
    pub ctx: Option<RequestCtx>,
    pub op: Mutation,
}

impl View for Command {
    type V = (Option<RequestCtx>, Change);

    open spec fn view(&self) -> (Option<RequestCtx>, Change) {
        (self.ctx, self.op@)
    }
}

/// A log entry that is not a command.
#[derive(Debug, Clone, Copy, PartialEq, Eq, Structural)]
pub enum CommandError {
    Encoding,
}

/// The stored form of a request context.
pub open spec fn enc_ctx(ctx: Option<RequestCtx>) -> Seq<u8> {
    match ctx {
        Some(c) => enc_bool(true) + le(c.client_id as nat, 8) + le(c.sequence as nat, 8),
        None => enc_bool(false),
    }
}

/// The stored form of a change.
pub open spec fn enc_change(change: Change) -> Seq<u8> {
    match change {
        Change::Put(key, value) => le(0, 4) + enc_bytes(key) + enc_bytes(value),
        Change::Delete(key) => le(1, 4) + enc_bytes(key),
        Change::Cas(key, expected, new_value) => le(2, 4) + enc_bytes(key) + enc_opt_bytes(expected)
            + enc_bytes(new_value),
    }
}

/// The stored form of a command.
pub open spec fn enc_command(command: (Option<RequestCtx>, Change)) -> Seq<u8> {
    enc_ctx(command.0) + enc_change(command.1)
}

/// The lengths in a change fit the eight bytes they are written in.
pub open spec fn change_fits(change: Change) -> bool {
    match change {
        Change::Put(key, value) => key.len() <= u64::MAX && value.len() <= u64::MAX,
        Change::Delete(key) => key.len() <= u64::MAX,
        Change::Cas(key, expected, new_value) => {
            &&& key.len() <= u64::MAX
            &&& expected matches Some(x) ==> x.len() <= u64::MAX
            &&& new_value.len() <= u64::MAX
        },
    }
}

/// Whether an entry's bytes begin with a command's stored form.
pub open spec fn begins_with(entry: Seq<u8>, command: (Option<RequestCtx>, Change)) -> bool {
    change_fits(command.1) && enc_command(command).is_prefix_of(entry)
}

/// The command that an entry's bytes begin with.
pub open spec fn command_of(entry: Seq<u8>) -> Option<(Option<RequestCtx>, Change)> {
    if exists|c: (Option<RequestCtx>, Change)| #[trigger] begins_with(entry, c) {
        Some(choose|c: (Option<RequestCtx>, Change)| #[trigger] begins_with(entry, c))
    } else {
        None
    }
}

/// What an entry's bytes mean: nothing when there are none, else the command
/// that they begin with.
pub open spec fn meaning(entry: Seq<u8>) -> Result<
    Option<(Option<RequestCtx>, Change)>,
    CommandError,
> {
    if entry.len() == 0 {
        Ok(None)
    } else {
        match command_of(entry) {
            Some(c) => Ok(Some(c)),
            None => Err(CommandError::Encoding),
        }
    }
}

proof fn lemma_ctx_prefix(a: Option<RequestCtx>, b: Option<RequestCtx>, r: Seq<u8>, t: Seq<u8>)
    requires
        enc_ctx(a) + r == enc_ctx(b) + t,
    ensures
        a == b,
        r == t,
{
    lemma_pow256_widths();
    assert((enc_ctx(a) + r)[0] == enc_ctx(a)[0]);
    assert((enc_ctx(b) + t)[0] == enc_ctx(b)[0]);
    match (a, b) {
        (Some(x), Some(y)) => {
            let xs = le(x.sequence as nat, 8);
            let ys = le(y.sequence as nat, 8);
            assert((enc_ctx(a) + r).skip(1) =~= le(x.client_id as nat, 8) + (xs + r));
            assert((enc_ctx(b) + t).skip(1) =~= le(y.client_id as nat, 8) + (ys + t));
            lemma_le_prefix(x.client_id as nat, y.client_id as nat, 8, xs + r, ys + t);
            lemma_le_prefix(x.sequence as nat, y.sequence as nat, 8, r, t);
        },
        (None, None) => {
            assert((enc_ctx(a) + r).skip(1) =~= r);
            assert((enc_ctx(b) + t).skip(1) =~= t);
        },
        _ => {},
    }
}

spec fn tag_of(change: Change) -> nat {
    match change {
        Change::Put(..) => 0,
        Change::Delete(..) => 1,
        Change::Cas(..) => 2,
    }
}

spec fn fields_of(change: Change) -> Seq<u8> {
    match change {
        Change::Put(key, value) => enc_bytes(key) + enc_bytes(value),
        Change::Delete(key) => enc_bytes(key),
        Change::Cas(key, expected, new_value) => enc_bytes(key) + enc_opt_bytes(expected)
            + enc_bytes(new_value),
    }
}

proof fn lemma_change_parts(change: Change)
    ensures
        enc_change(change) == le(tag_of(change), 4) + fields_of(change),
{
    assert(enc_change(change) =~= le(tag_of(change), 4) + fields_of(change));
}

proof fn lemma_change_prefix(a: Change, b: Change, r: Seq<u8>, t: Seq<u8>)
    requires
        change_fits(a),
        change_fits(b),
        enc_change(a) + r == enc_change(b) + t,
    ensures
        a == b,
{
    lemma_pow256_widths();
    lemma_change_parts(a);
    lemma_change_parts(b);
    let fa = fields_of(a) + r;
    let fb = fields_of(b) + t;
    assert(enc_change(a) + r =~= le(tag_of(a), 4) + fa);
    assert(enc_change(b) + t =~= le(tag_of(b), 4) + fb);
    lemma_le_prefix(tag_of(a), tag_of(b), 4, fa, fb);
    match (a, b) {
        (Change::Put(ka, va), Change::Put(kb, vb)) => {
            assert(fa =~= enc_bytes(ka) + (enc_bytes(va) + r));
            assert(fb =~= enc_bytes(kb) + (enc_bytes(vb) + t));
            lemma_bytes_prefix(ka, kb, enc_bytes(va) + r, enc_bytes(vb) + t);
            lemma_bytes_prefix(va, vb, r, t);
        },
        (Change::Delete(ka), Change::Delete(kb)) => {
            lemma_bytes_prefix(ka, kb, r, t);
        },
        (Change::Cas(ka, ea, na), Change::Cas(kb, eb, nb)) => {
            let ra = enc_bytes(na) + r;
            let rb = enc_bytes(nb) + t;
            assert(fa =~= enc_bytes(ka) + (enc_opt_bytes(ea) + ra));
            assert(fb =~= enc_bytes(kb) + (enc_opt_bytes(eb) + rb));
            lemma_bytes_prefix(ka, kb, enc_opt_bytes(ea) + ra, enc_opt_bytes(eb) + rb);
            lemma_opt_bytes_prefix(ea, eb, ra, rb);
            lemma_bytes_prefix(na, nb, r, t);
        },
        _ => {},
    }
}

/// No entry begins with two commands.
pub proof fn law_one_command_per_entry(
    entry: Seq<u8>,
    a: (Option<RequestCtx>, Change),
    b: (Option<RequestCtx>, Change),
)
    requires
        begins_with(entry, a),
        begins_with(entry, b),
    ensures
        a == b,
{
    let r = entry.skip(enc_command(a).len() as int);
    let t = entry.skip(enc_command(b).len() as int);
    assert(entry =~= enc_command(a) + r);
    assert(entry =~= enc_command(b) + t);
    assert(enc_command(a) + r =~= enc_ctx(a.0) + (enc_change(a.1) + r));
    assert(enc_command(b) + t =~= enc_ctx(b.0) + (enc_change(b.1) + t));
    lemma_ctx_prefix(a.0, b.0, enc_change(a.1) + r, enc_change(b.1) + t);
    lemma_change_prefix(a.1, b.1, r, t);
}

/// Every command survives the log: what its encoding means is that command.
pub proof fn law_command_round_trip(command: (Option<RequestCtx>, Change))
    requires
        change_fits(command.1),
    ensures
        meaning(enc_command(command)) == Ok::<_, CommandError>(Some(command)),
{
    law_command_is_not_a_no_op(command);
    let entry = enc_command(command);
    assert(entry.is_prefix_of(entry)) by {
        assert(entry.subrange(0, entry.len() as int) =~= entry);
    }
    assert(begins_with(entry, command));
    let got = choose|c: (Option<RequestCtx>, Change)| #[trigger] begins_with(entry, c);
    law_one_command_per_entry(entry, got, command);
}

/// No command's encoding is empty, so none is mistaken for a leader's no-op;
/// and each begins with the byte 0 or the byte 1, so none is mistaken for a
/// membership entry, which begins with a letter.
pub proof fn law_command_is_not_a_no_op(command: (Option<RequestCtx>, Change))
    ensures
        enc_command(command).len() > 0,
        enc_command(command)[0] <= 1,
{
    assert(enc_command(command)[0] == enc_ctx(command.0)[0]);
}

impl Command {
    pub fn new(ctx: Option<RequestCtx>, op: Mutation) -> (c: Self)
        ensures
            c.ctx == ctx,
            c.op == op,
    {
        Command { ctx, op }
    }

    /// The command's bytes in the log.
    pub fn encode(&self) -> (out: Vec<u8>)
        ensures
            out@ == enc_command(self@),
    {
        let mut out: Vec<u8> = Vec::new();
        match &self.ctx {
            Some(ctx) => {
                put_bool(&mut out, true);
                put_u64(&mut out, ctx.client_id);
                put_u64(&mut out, ctx.sequence);
            },
            None => {
                put_bool(&mut out, false);
            },
        }
        assert(out@ =~= enc_ctx(self.ctx));
        match &self.op {
            Mutation::Put { key, value } => {
                put_u32(&mut out, 0);
                put_bytes(&mut out, key);
                put_bytes(&mut out, value);
            },
            Mutation::Delete { key } => {
                put_u32(&mut out, 1);
                put_bytes(&mut out, key);
            },
            Mutation::Cas { key, expected, new_value } => {
                put_u32(&mut out, 2);
                put_bytes(&mut out, key);
                match expected {
                    Some(value) => {
                        put_bool(&mut out, true);
                        put_bytes(&mut out, value);
                    },
                    None => {
                        put_bool(&mut out, false);
                    },
                }
                put_bytes(&mut out, new_value);
            },
        }
        assert(out@ =~= enc_command(self@));
        out
    }

    /// Reads an entry's bytes. `Ok(None)` is the leader's no-op, not a failure.
    pub fn decode(bytes: &[u8]) -> (r: Result<Option<Command>, CommandError>)
        ensures
            match (r, meaning(bytes@)) {
                (Ok(None), Ok(None)) => true,
                (Ok(Some(c)), Ok(Some(want))) => c@ == want,
                (Err(e), Err(want)) => e == want,
                _ => false,
            },
    {
        if bytes.len() == 0 {
            return Ok(None);
        }
        match read_command(bytes) {
            Some(command) => {
                proof {
                    assert(begins_with(bytes@, command@));
                    let got = choose|c: (Option<RequestCtx>, Change)| #[trigger]
                        begins_with(bytes@, c);
                    law_one_command_per_entry(bytes@, got, command@);
                }
                Ok(Some(command))
            },
            None => Err(CommandError::Encoding),
        }
    }
}

/// Takes a request context off the front of an entry.
fn read_ctx<'a>(data: &'a [u8]) -> (r: Option<(Option<RequestCtx>, &'a [u8])>)
    ensures
        match r {
            Some((ctx, rest)) => data@ == enc_ctx(ctx) + rest@,
            None => forall|ctx: Option<RequestCtx>, rest: Seq<u8>|
                data@ != #[trigger] (enc_ctx(ctx) + rest),
        },
{
    proof {
        assert forall|ctx: Option<RequestCtx>, rest: Seq<u8>|
            data@ == #[trigger] (enc_ctx(ctx) + rest) implies data@.len() > 0 && data@[0] <= 1 && (
        data@[0] == 1 ==> data@.len() >= 17) by {
            assert((enc_ctx(ctx) + rest)[0] == enc_ctx(ctx)[0]);
            match ctx {
                Some(c) => {
                    lemma_le_len(c.client_id as nat, 8);
                    lemma_le_len(c.sequence as nat, 8);
                },
                None => {},
            }
        }
    }
    let (present, rest) = get_bool(data)?;
    if !present {
        return Some((None, rest));
    }
    assert(data@.len() == rest@.len() + 1);
    let (client_id, rest2) = get_u64(rest)?;
    proof {
        lemma_le_len(client_id as nat, 8);
    }
    let (sequence, rest3) = get_u64(rest2)?;
    let ctx = RequestCtx { client_id, sequence };
    assert(data@ =~= enc_ctx(Some(ctx)) + rest3@);
    Some((Some(ctx), rest3))
}

/// A record that is some bytes and more begins with those bytes.
proof fn lemma_prefix(head: Seq<u8>, rest: Seq<u8>)
    ensures
        head.is_prefix_of(head + rest),
{
    assert(head =~= (head + rest).subrange(0, head.len() as int));
}

/// Takes the fields of a put off the front of a record.
fn read_put(data: &[u8]) -> (r: Option<Mutation>)
    ensures
        match r {
            Some(op) => {
                &&& op@ is Put
                &&& change_fits(op@)
                &&& fields_of(op@).is_prefix_of(data@)
            },
            None => forall|c: Change, t: Seq<u8>|
                c is Put ==> data@ != #[trigger] (fields_of(c) + t),
        },
{
    proof {
        assert forall|c: Change, t: Seq<u8>| c is Put && data@ == #[trigger] (fields_of(c) + t) implies
        data@ == enc_bytes(c->Put_0) + (enc_bytes(c->Put_1) + t) by {
            assert(data@ =~= enc_bytes(c->Put_0) + (enc_bytes(c->Put_1) + t));
        }
    }
    let (key, rest) = get_bytes(data)?;
    proof {
        assert forall|c: Change, t: Seq<u8>| c is Put && data@ == #[trigger] (fields_of(c) + t) implies
        rest@ == enc_bytes(c->Put_1) + t by {
            assert(data@.len() == data.len());
            lemma_bytes_prefix(key@, c->Put_0, rest@, enc_bytes(c->Put_1) + t);
        }
    }
    let (value, rest2) = get_bytes(rest)?;
    proof {
        let fields = fields_of(Change::Put(key@, value@));
        assert(data@ =~= fields + rest2@);
        lemma_prefix(fields, rest2@);
    }
    Some(Mutation::Put { key, value })
}

/// Takes the fields of a delete off the front of a record.
fn read_delete(data: &[u8]) -> (r: Option<Mutation>)
    ensures
        match r {
            Some(op) => {
                &&& op@ is Delete
                &&& change_fits(op@)
                &&& fields_of(op@).is_prefix_of(data@)
            },
            None => forall|c: Change, t: Seq<u8>|
                c is Delete ==> data@ != #[trigger] (fields_of(c) + t),
        },
{
    proof {
        assert forall|c: Change, t: Seq<u8>|
            c is Delete && data@ == #[trigger] (fields_of(c) + t) implies data@ == enc_bytes(
            c->Delete_0,
        ) + t by {}
    }
    let (key, rest) = get_bytes(data)?;
    proof {
        lemma_prefix(fields_of(Change::Delete(key@)), rest@);
    }
    Some(Mutation::Delete { key })
}

/// Takes the fields of a compare-and-swap off the front of a record.
fn read_cas(data: &[u8]) -> (r: Option<Mutation>)
    ensures
        match r {
            Some(op) => {
                &&& op@ is Cas
                &&& change_fits(op@)
                &&& fields_of(op@).is_prefix_of(data@)
            },
            None => forall|c: Change, t: Seq<u8>|
                c is Cas ==> data@ != #[trigger] (fields_of(c) + t),
        },
{
    proof {
        assert forall|c: Change, t: Seq<u8>| c is Cas && data@ == #[trigger] (fields_of(c) + t) implies
        data@ == enc_bytes(c->Cas_0) + (enc_opt_bytes(c->Cas_1) + (enc_bytes(c->Cas_2) + t)) by {
            assert(data@ =~= enc_bytes(c->Cas_0) + (enc_opt_bytes(c->Cas_1) + (enc_bytes(c->Cas_2)
                + t)));
        }
    }
    let (key, rest) = get_bytes(data)?;
    proof {
        assert forall|c: Change, t: Seq<u8>| c is Cas && data@ == #[trigger] (fields_of(c) + t) implies
        rest@ == enc_opt_bytes(c->Cas_1) + (enc_bytes(c->Cas_2) + t) by {
            assert(data@.len() == data.len());
            let tail = enc_opt_bytes(c->Cas_1) + (enc_bytes(c->Cas_2) + t);
            lemma_bytes_prefix(key@, c->Cas_0, rest@, tail);
        }
    }
    let (expected, rest2) = get_opt_bytes(rest)?;
    proof {
        assert forall|c: Change, t: Seq<u8>| c is Cas && data@ == #[trigger] (fields_of(c) + t) implies
        rest2@ == enc_bytes(c->Cas_2) + t by {
            assert(rest@.len() == rest.len());
            let tail = enc_bytes(c->Cas_2) + t;
            lemma_opt_bytes_prefix(opt_view(expected), c->Cas_1, rest2@, tail);
        }
    }
    let (new_value, rest3) = get_bytes(rest2)?;
    proof {
        let fields = fields_of(Change::Cas(key@, opt_view(expected), new_value@));
        assert(data@ =~= fields + rest3@);
        lemma_prefix(fields, rest3@);
    }
    Some(Mutation::Cas { key, expected, new_value })
}

/// Takes a change off the front of an entry.
fn read_change(data: &[u8]) -> (r: Option<Mutation>)
    ensures
        match r {
            Some(op) => change_fits(op@) && enc_change(op@).is_prefix_of(data@),
            None => forall|c: Change, rest: Seq<u8>| data@ != #[trigger] (enc_change(c) + rest),
        },
{
    proof {
        lemma_pow256_widths();
        assert forall|c: Change, t: Seq<u8>| data@ == #[trigger] (enc_change(c) + t) implies {
            &&& data@ == le(tag_of(c), 4) + (fields_of(c) + t)
            &&& data@.len() >= 4
        } by {
            lemma_change_parts(c);
            lemma_le_len(tag_of(c), 4);
            assert(data@ =~= le(tag_of(c), 4) + (fields_of(c) + t));
        }
    }
    let (tag, rest) = get_u32(data)?;
    proof {
        assert forall|c: Change, t: Seq<u8>| data@ == #[trigger] (enc_change(c) + t) implies {
            &&& tag_of(c) == tag as nat
            &&& rest@ == fields_of(c) + t
        } by {
            lemma_le_prefix(tag as nat, tag_of(c), 4, rest@, fields_of(c) + t);
        }
    }
    let op = match tag {
        0 => read_put(rest)?,
        1 => read_delete(rest)?,
        2 => read_cas(rest)?,
        _ => {
            return None;
        },
    };
    proof {
        let fields = fields_of(op@);
        let t = rest@.skip(fields.len() as int);
        assert(rest@ =~= fields + t);
        lemma_change_parts(op@);
        assert(data@ =~= enc_change(op@) + t);
        lemma_prefix(enc_change(op@), t);
    }
    Some(op)
}

/// Reads the command that an entry's bytes begin with.
fn read_command(data: &[u8]) -> (r: Option<Command>)
    ensures
        match r {
            Some(command) => begins_with(data@, command@),
            None => forall|c: (Option<RequestCtx>, Change)| !#[trigger] begins_with(data@, c),
        },
{
    proof {
        assert forall|c: (Option<RequestCtx>, Change)| #[trigger] begins_with(data@, c) implies ({
            let t = data@.skip(enc_command(c).len() as int);
            data@ == enc_ctx(c.0) + (enc_change(c.1) + t)
        }) by {
            let t = data@.skip(enc_command(c).len() as int);
            assert(data@ =~= enc_command(c) + t);
            assert(data@ =~= enc_ctx(c.0) + (enc_change(c.1) + t));
        }
    }
    let (ctx, rest) = read_ctx(data)?;
    proof {
        assert forall|c: (Option<RequestCtx>, Change)| #[trigger] begins_with(data@, c) implies ({
            let t = data@.skip(enc_command(c).len() as int);
            rest@ == enc_change(c.1) + t
        }) by {
            let t = data@.skip(enc_command(c).len() as int);
            lemma_ctx_prefix(ctx, c.0, rest@, enc_change(c.1) + t);
        }
    }
    let op = read_change(rest)?;
    proof {
        let c = (ctx, op@);
        let t = rest@.skip(enc_change(op@).len() as int);
        assert(rest@ =~= enc_change(op@) + t);
        assert(data@ =~= enc_command(c) + t);
        lemma_prefix(enc_command(c), t);
    }
    Some(Command { ctx, op })
}

/// A change and a command are seen whole, and a missing expectation is told from
/// any other.
pub proof fn law_a_command_is_seen_whole(command: Command)
    ensures
        command@.0 == command.ctx,
        command@.1 == command.op@,
        match command.op {
            Mutation::Put { key, value } => command.op@ == Change::Put(key@, value@),
            Mutation::Delete { key } => command.op@ == Change::Delete(key@),
            Mutation::Cas { key, expected: Some(value), new_value } => command.op@ == Change::Cas(
                key@,
                Some(value@),
                new_value@,
            ),
            Mutation::Cas { key, expected: None, new_value } => command.op@ == Change::Cas(
                key@,
                None,
                new_value@,
            ),
        },
{
}

/// How a command lies in the log: a byte that says whether it carries a context,
/// the client's name and the request's number where it does, and then what it is,
/// 0 for a put, 1 for a delete and 2 for a compare-and-swap.
pub proof fn law_how_a_command_lies(ctx: Option<RequestCtx>, change: Change)
    ensures
        ({
            let bytes = enc_command((ctx, change));
            let at: int = if ctx is Some {
                17
            } else {
                1
            };
            &&& bytes.len() >= at + 4
            &&& bytes[0] == if ctx is Some {
                1u8
            } else {
                0u8
            }
            &&& ctx matches Some(c) ==> {
                &&& bytes.subrange(1, 9) == le(c.client_id as nat, 8)
                &&& bytes.subrange(9, 17) == le(c.sequence as nat, 8)
            }
            &&& bytes[at] == match change {
                Change::Put(..) => 0u8,
                Change::Delete(..) => 1u8,
                Change::Cas(..) => 2u8,
            }
        }),
{
    let bytes = enc_command((ctx, change));
    let tag = tag_of(change);
    lemma_change_parts(change);
    lemma_le_len(tag, 4);
    assert(le(tag, 4)[0] == tag as u8) by {
        crate::bytes::law_byte_order(tag, 4, 0);
    }
    match ctx {
        Some(c) => {
            lemma_le_len(c.client_id as nat, 8);
            lemma_le_len(c.sequence as nat, 8);
            assert(bytes.subrange(1, 9) =~= le(c.client_id as nat, 8));
            assert(bytes.subrange(9, 17) =~= le(c.sequence as nat, 8));
            assert(bytes[17] == le(tag, 4)[0]);
        },
        None => {
            assert(bytes[1] == le(tag, 4)[0]);
        },
    }
}

/// A command that is encoded is decoded as itself, with its context and its
/// change.
pub proof fn law_an_encoded_command_is_decoded(
    command: &Command,
    out: Vec<u8>,
    bytes: &[u8],
    r: Result<Option<Command>, CommandError>,
)
    requires
        call_ensures(Command::encode, (command,), out),
        bytes@ == out@,
        call_ensures(Command::decode, (bytes,), r),
        change_fits(command.op@),
    ensures
        r matches Ok(Some(c)) && c.ctx == command.ctx && c.op@ == command.op@,
{
    law_command_round_trip(command@);
}

/// An entry without bytes is no command, and one that no command begins is
/// refused.
pub proof fn law_what_is_no_command(bytes: &[u8], r: Result<Option<Command>, CommandError>)
    requires
        call_ensures(Command::decode, (bytes,), r),
    ensures
        r matches Ok(found) ==> (found is None <==> meaning(bytes@) == Ok::<_, CommandError>(
            None::<(Option<RequestCtx>, Change)>,
        )),
        r matches Ok(Some(c)) ==> meaning(bytes@) == Ok::<_, CommandError>(Some(c@)),
        r is Err <==> meaning(bytes@) is Err,
        bytes@.len() == 0 ==> (r matches Ok(found) && found is None),
{
}

} // verus!
