//! Who is in a group, and where each of its members can be reached.
//!
//! Raft decides who is in the cluster and keeps that as bare ids. Where a
//! member can be reached is the application's half: a conf entry's context
//! carries it, and it lands in an address book that the peer connections are
//! reconciled against.
//!
//! The book lives in the state machine, not in memory: a restart rebuilds it
//! from the log rather than from flags, and a snapshot, which replaces the log
//! prefix the conf entries lived in, carries it along. Its keys sit in the
//! reserved space, so no client can redirect a peer at a machine of its choice.

use std::collections::BTreeMap;

use vstd::prelude::*;
use vstd::utf8::{decode_utf8, encode_utf8, valid_utf8};

use crate::bytes::{be, copy_all, copy_range, from_be, from_le, le, push_be, read_be, starts_with,
    lemma_be_from_be, lemma_be_len, lemma_from_be_be, lemma_from_le_le, lemma_le_len,
    lemma_pow256_widths};
use crate::codec::{bytes_at, bytes_of, enc_bytes, get_bytes, get_u64, put_bytes, put_u64, text_of};
use crate::engine::{Edit, Engine, lemma_follows_self, lemma_follows_step, pairs_map, pairs_view,
    lemma_pairs_map_dom};
use crate::ids::{in_order, increasing, keys_of, lemma_in_order_exists,
    lemma_take_to_set};
use crate::session::{reserved, RESERVED_PREFIX};
use crate::types::NodeId;

verus! {

broadcast use {vstd::std_specs::btree::group_btree_axioms, vstd::laws_cmp::group_laws_cmp};

/// What a membership entry asks for.
#[derive(Debug, Clone, Copy, PartialEq, Eq, Structural)]
pub enum ConfOp {
    AddLearner,
    Promote,
    RemoveLearner,
    RemoveVoter,
}

/// One membership change. `context` is the application's.
#[derive(Debug, Clone, PartialEq, Eq)]
pub struct ConfChange {
    pub op: ConfOp,
    pub node: NodeId,
    pub context: Vec<u8>,
}

/// What applying a conf change did to the address book.
#[derive(Debug, Clone, PartialEq, Eq)]
pub enum ConfEffect {
    Learned(BTreeMap<NodeId, String>),
    Forgot(NodeId),
}

/// An address book as a mathematical value.
pub open spec fn book(map: Map<NodeId, String>) -> Map<NodeId, Seq<char>> {
    map.map_values(|s: String| s@)
}

/// The bytes that every endpoint's key begins with: the reserved byte and
/// `peer/`.
pub open spec fn peer_prefix() -> Seq<u8> {
    seq![RESERVED_PREFIX, 0x70, 0x65, 0x65, 0x72, 0x2f]
}

/// The key of a node's endpoint. The suffix has a fixed width, so no id can be
/// mistaken for a neighbouring key space.
pub open spec fn peer_key_of(id: NodeId) -> Seq<u8> {
    peer_prefix() + be(id as nat, 8)
}

/// The node whose endpoint's key this is.
pub open spec fn peer_id_of(key: Seq<u8>) -> Option<NodeId> {
    if key.len() == 14 && peer_prefix().is_prefix_of(key) {
        Some(from_be(key.skip(6)) as u64)
    } else {
        None
    }
}

/// Every node has one endpoint key, and it is the key's only reading; a key is
/// reserved, so no client may name one.
pub proof fn law_peer_keys(id: NodeId, key: Seq<u8>)
    ensures
        peer_id_of(peer_key_of(id)) == Some(id),
        peer_id_of(key) == Some(id) ==> key == peer_key_of(id),
        reserved(peer_key_of(id)),
{
    lemma_pow256_widths();
    lemma_be_len(id as nat, 8);
    lemma_from_be_be(id as nat, 8);
    let own = peer_key_of(id);
    assert(own.skip(6) =~= be(id as nat, 8));
    assert(peer_prefix() =~= own.subrange(0, 6));
    assert(own[0] == peer_prefix()[0]);
    if peer_id_of(key) == Some(id) {
        lemma_be_from_be(key.skip(6));
        assert(key =~= peer_prefix() + key.skip(6));
    }
}

fn peer_start() -> (prefix: Vec<u8>)
    ensures
        prefix@ == peer_prefix(),
{
    let prefix: Vec<u8> = vec![RESERVED_PREFIX, 0x70, 0x65, 0x65, 0x72, 0x2f];
    assert(prefix@ =~= peer_prefix());
    prefix
}

fn peer_key(id: NodeId) -> (key: Vec<u8>)
    ensures
        key@ == peer_key_of(id),
{
    let mut key = peer_start();
    push_be(&mut key, id, 8);
    key
}

fn peer_id(key: &[u8]) -> (id: Option<NodeId>)
    ensures
        id == peer_id_of(key@),
{
    let prefix = peer_start();
    if key.len() != 14 || !starts_with(key, &prefix) {
        return None;
    }
    assert(key@.subrange(6, 14) =~= key@.skip(6));
    Some(read_be(key, 6, 8))
}

/// Records where `id` can be reached. A plain overwrite: a node that leaves
/// and rejoins may well come back at a different address.
pub fn record_endpoint(engine: &mut Engine, id: NodeId, address: &str)
    requires
        old(engine).wf(),
    ensures
        final(engine).wf(),
        final(engine)@ == old(engine)@.insert(peer_key_of(id), encode_utf8(address@)),
        final(engine).queue() == old(engine).queue().push(
            Edit::Put(peer_key_of(id), encode_utf8(address@)),
        ),
        final(engine).unflushed(),
        final(engine).unpublished(),
{
    let key = peer_key(id);
    let row = bytes_of(address);
    engine.put(&key, &row);
}

/// Drops `id` from the book.
pub fn forget_endpoint(engine: &mut Engine, id: NodeId)
    requires
        old(engine).wf(),
    ensures
        final(engine).wf(),
        final(engine)@ == old(engine)@.remove(peer_key_of(id)),
        final(engine).queue() == old(engine).queue().push(Edit::Delete(peer_key_of(id))),
        final(engine).unflushed(),
        final(engine).unpublished(),
{
    let key = peer_key(id);
    engine.delete(&key);
}

/// The address book that a state machine holds: every endpoint whose address
/// is readable text.
pub open spec fn endpoints_of(state: Map<Seq<u8>, Seq<u8>>) -> Map<NodeId, Seq<char>> {
    Map::new(
        |id: NodeId| state.contains_key(peer_key_of(id)) && valid_utf8(state[peer_key_of(id)]),
        |id: NodeId| decode_utf8(state[peer_key_of(id)]),
    )
}

/// The whole book.
pub fn endpoints(engine: &Engine) -> (found: BTreeMap<NodeId, String>)
    requires
        engine.wf(),
    ensures
        book(found@) == endpoints_of(engine@),
{
    let pairs = engine.scan();
    let ghost all = pairs_view(pairs@);
    let mut found: BTreeMap<NodeId, String> = BTreeMap::new();
    let mut i: usize = 0;
    assert(pairs_map(all.take(0)) =~= Map::<Seq<u8>, Seq<u8>>::empty());
    assert(book(found@) =~= endpoints_of(pairs_map(all.take(0))));
    while i < pairs.len()
        invariant
            i <= pairs@.len(),
            all == pairs_view(pairs@),
            crate::engine::keys_increase(all),
            book(found@) == endpoints_of(pairs_map(all.take(i as int))),
        decreases pairs@.len() - i,
    {
        let ghost before = pairs_map(all.take(i as int));
        let ghost had = book(found@);
        let ghost (key, value) = all[i as int];
        proof {
            assert(all.take(i + 1).drop_last() =~= all.take(i as int));
            assert(pairs_map(all.take(i + 1)) == before.insert(key, value));
            // Keys increase, so the one being added is new.
            lemma_pairs_map_dom(all.take(i as int), key);
            assert(!before.contains_key(key)) by {
                if before.contains_key(key) {
                    let j = choose|j: int|
                        0 <= j < i && #[trigger] all.take(i as int)[j].0 == key;
                    assert(crate::bytes::lex_lt(all[j].0, all[i as int].0));
                    crate::bytes::lemma_lex_irreflexive(key);
                }
            }
        }
        match peer_id(&pairs[i].0) {
            Some(id) => {
                proof {
                    law_peer_keys(id, key);
                    assert forall|other: NodeId| other != id implies #[trigger] peer_key_of(other)
                        != key by {
                        law_peer_keys(other, key);
                    }
                }
                match text_of(copy_all(&pairs[i].1)) {
                    Some(address) => {
                        proof {
                            vstd::utf8::encode_utf8_decode_utf8(address@);
                        }
                        found.insert(id, address);
                        assert(book(found@) =~= had.insert(id, address@));
                    },
                    None => {},
                }
            },
            None => {
                proof {
                    assert forall|other: NodeId| #[trigger] peer_key_of(other) != key by {
                        law_peer_keys(other, key);
                    }
                }
            },
        }
        i += 1;
        assert(book(found@) =~= endpoints_of(pairs_map(all.take(i as int))));
    }
    assert(all.take(i as int) =~= all);
    found
}

/// Marks a conf change context that carries a whole address book rather than
/// one address: the letter `M`.
pub const BOOK_MAGIC: u8 = 0x4d;

/// The stored form of the entries of `ids`, one after the other.
pub open spec fn enc_entries(ids: Seq<NodeId>, addresses: Map<NodeId, Seq<char>>) -> Seq<u8>
    decreases ids.len(),
{
    if ids.len() == 0 {
        Seq::empty()
    } else {
        enc_entries(ids.drop_last(), addresses) + (le(ids.last() as nat, 8) + enc_bytes(
            encode_utf8(addresses[ids.last()]),
        ))
    }
}

/// The stored form of an address book: how many entries, and then each, by
/// increasing id.
pub open spec fn enc_book(addresses: Map<NodeId, Seq<char>>) -> Seq<u8> {
    let ids = in_order(addresses.dom());
    le(ids.len(), 8) + enc_entries(ids, addresses)
}

/// The entry that some bytes begin with, and what follows it.
pub open spec fn entry_at(data: Seq<u8>) -> Option<(NodeId, Seq<char>, Seq<u8>)> {
    if data.len() < 8 {
        None
    } else {
        match bytes_at(data.skip(8)) {
            Some((raw, rest)) => if valid_utf8(raw) {
                Some((from_le(data.take(8)) as u64, decode_utf8(raw), rest))
            } else {
                None
            },
            None => None,
        }
    }
}

/// `known` with the next `count` entries of `data` put in; a later entry of a
/// node replaces an earlier one.
pub open spec fn parse_entries(
    data: Seq<u8>,
    count: nat,
    known: Map<NodeId, Seq<char>>,
) -> Option<Map<NodeId, Seq<char>>>
    decreases count,
{
    if count == 0 {
        Some(known)
    } else {
        match entry_at(data) {
            Some((id, address, rest)) => parse_entries(
                rest,
                (count - 1) as nat,
                known.insert(id, address),
            ),
            None => None,
        }
    }
}

/// The address book that some bytes begin with.
pub open spec fn book_at(data: Seq<u8>) -> Option<Map<NodeId, Seq<char>>> {
    if data.len() < 8 {
        None
    } else {
        parse_entries(data.skip(8), from_le(data.take(8)), Map::empty())
    }
}

/// The addresses in a conf change's context: a whole book behind its mark, or
/// else the one address of the node being changed.
pub open spec fn addresses_in(context: Seq<u8>, node: NodeId) -> Map<NodeId, Seq<char>> {
    if context.len() > 0 && context[0] == BOOK_MAGIC && book_at(context.skip(1)) is Some {
        book_at(context.skip(1))->0
    } else if valid_utf8(context) {
        Map::<NodeId, Seq<char>>::empty().insert(node, decode_utf8(context))
    } else {
        Map::empty()
    }
}

/// Packs an address book into a conf change's context.
///
/// The entry that admits a node carries the whole cluster's addresses, not just
/// the new node's, so the newcomer learns where every other member lives from
/// the one entry that concerns it.
pub fn encode_book(addresses: &BTreeMap<NodeId, String>) -> (out: Vec<u8>)
    ensures
        out@ == seq![BOOK_MAGIC] + enc_book(book(addresses@)),
{
    let ghost all = book(addresses@);
    let ids = keys_of(addresses);
    assert(all.dom() =~= addresses@.dom());
    let mut out: Vec<u8> = vec![BOOK_MAGIC];
    put_u64(&mut out, ids.len() as u64);
    let ghost head = out@;
    let mut i: usize = 0;
    assert(ids@.take(0) =~= Seq::<u64>::empty());
    assert(out@ =~= head + enc_entries(ids@.take(0), all));
    while i < ids.len()
        invariant
            i <= ids@.len(),
            all == book(addresses@),
            ids@.to_set() == addresses@.dom(),
            out@ == head + enc_entries(ids@.take(i as int), all),
        decreases ids@.len() - i,
    {
        let ghost before = out@;
        let id: NodeId = ids[i];
        assert(ids@.to_set().contains(id));
        match addresses.get(&id) {
            Some(address) => {
                let row = bytes_of(address.as_str());
                put_u64(&mut out, id);
                put_bytes(&mut out, &row);
                assert(all[id] == address@);
                assert(out@ =~= before + (le(id as nat, 8) + enc_bytes(encode_utf8(all[id]))));
            },
            None => {},
        }
        i += 1;
        assert(ids@.take(i as int).drop_last() =~= ids@.take(i - 1));
        assert(out@ =~= head + enc_entries(ids@.take(i as int), all));
    }
    assert(ids@.take(i as int) =~= ids@);
    assert(out@ =~= seq![BOOK_MAGIC] + enc_book(all));
    out
}

/// Reads one entry off the front of some bytes.
fn read_entry<'a>(data: &'a [u8]) -> (r: Option<(NodeId, String, &'a [u8])>)
    ensures
        match (r, entry_at(data@)) {
            (Some((id, address, rest)), Some(want)) => (id, address@, rest@) == want,
            (None, None) => true,
            _ => false,
        },
{
    let (id, rest) = get_u64(data)?;
    let (raw, tail) = get_bytes(rest)?;
    let address = text_of(raw)?;
    proof {
        vstd::utf8::encode_utf8_decode_utf8(address@);
    }
    Some((id, address, tail))
}

/// Reads an address book off the front of some bytes.
fn read_book(data: &[u8]) -> (r: Option<BTreeMap<NodeId, String>>)
    ensures
        match (r, book_at(data@)) {
            (Some(found), Some(want)) => book(found@) == want,
            (None, None) => true,
            _ => false,
        },
{
    let (count, first) = get_u64(data)?;
    let mut rest: &[u8] = first;
    let mut left: u64 = count;
    let mut found: BTreeMap<NodeId, String> = BTreeMap::new();
    assert(book(found@) =~= Map::<NodeId, Seq<char>>::empty());
    while left > 0
        invariant
            book_at(data@) == parse_entries(rest@, left as nat, book(found@)),
        decreases left,
    {
        let ghost had = book(found@);
        match read_entry(rest) {
            Some((id, address, tail)) => {
                let ghost text = address@;
                found.insert(id, address);
                assert(book(found@) =~= had.insert(id, text));
                rest = tail;
            },
            None => {
                return None;
            },
        }
        left -= 1;
    }
    Some(found)
}

/// Reads a conf change's context as addresses.
fn decode_book(context: &[u8], node: NodeId) -> (found: BTreeMap<NodeId, String>)
    ensures
        book(found@) == addresses_in(context@, node),
{
    if context.len() > 0 && context[0] == BOOK_MAGIC {
        let body = copy_range(context, 1, context.len());
        assert(body@ =~= context@.skip(1));
        match read_book(&body) {
            Some(found) => {
                return found;
            },
            None => {},
        }
    }
    let mut found: BTreeMap<NodeId, String> = BTreeMap::new();
    assert(book(found@) =~= Map::<NodeId, Seq<char>>::empty());
    match text_of(copy_all(context)) {
        Some(address) => {
            proof {
                vstd::utf8::encode_utf8_decode_utf8(address@);
            }
            let ghost text = address@;
            found.insert(node, address);
            assert(book(found@) =~= Map::<NodeId, Seq<char>>::empty().insert(node, text));
        },
        None => {},
    }
    found
}

/// A state machine with every address of a book recorded in it.
pub open spec fn with_book(
    state: Map<Seq<u8>, Seq<u8>>,
    addresses: Map<NodeId, Seq<char>>,
) -> Map<Seq<u8>, Seq<u8>> {
    Map::new(
        |key: Seq<u8>| state.contains_key(key) || names_one_of(key, addresses),
        |key: Seq<u8>|
            if names_one_of(key, addresses) {
                encode_utf8(addresses[peer_id_of(key)->0])
            } else {
                state[key]
            },
    )
}

/// Whether a key is the endpoint key of a node in the book.
pub open spec fn names_one_of(key: Seq<u8>, addresses: Map<NodeId, Seq<char>>) -> bool {
    peer_id_of(key) is Some && addresses.contains_key(peer_id_of(key)->0)
}

/// What a conf change makes of a state machine.
pub open spec fn conf_state(
    state: Map<Seq<u8>, Seq<u8>>,
    op: ConfOp,
    node: NodeId,
    context: Seq<u8>,
) -> Map<Seq<u8>, Seq<u8>> {
    match op {
        ConfOp::AddLearner | ConfOp::Promote => if context.len() == 0 {
            state
        } else {
            with_book(state, addresses_in(context, node))
        },
        ConfOp::RemoveLearner | ConfOp::RemoveVoter => state.remove(peer_key_of(node)),
    }
}

/// What a conf change makes of the address book kept in memory.
pub open spec fn conf_book(
    known: Map<NodeId, Seq<char>>,
    op: ConfOp,
    node: NodeId,
    context: Seq<u8>,
) -> Map<NodeId, Seq<char>> {
    match op {
        ConfOp::AddLearner | ConfOp::Promote => if context.len() == 0 {
            known
        } else {
            known.union_prefer_right(addresses_in(context, node))
        },
        ConfOp::RemoveLearner | ConfOp::RemoveVoter => known.remove(node),
    }
}

proof fn lemma_with_book_insert(
    state: Map<Seq<u8>, Seq<u8>>,
    addresses: Map<NodeId, Seq<char>>,
    id: NodeId,
    address: Seq<char>,
)
    ensures
        with_book(state, addresses.insert(id, address)) == with_book(state, addresses).insert(
            peer_key_of(id),
            encode_utf8(address),
        ),
{
    let grown = addresses.insert(id, address);
    let want = with_book(state, addresses).insert(peer_key_of(id), encode_utf8(address));
    assert forall|key: Seq<u8>| #[trigger] with_book(state, grown).contains_key(key)
        == want.contains_key(key) by {
        law_peer_keys(id, key);
    }
    assert forall|key: Seq<u8>| #[trigger] with_book(state, grown).contains_key(key) implies
        with_book(state, grown)[key] == want[key] by {
        law_peer_keys(id, key);
    }
    assert(with_book(state, grown) =~= want);
}

/// Applies one committed conf change's application half: the address book.
///
/// Returns what it learned, so that a mirror of the book can be kept without
/// scanning the state machine again.
pub fn apply_conf(engine: &mut Engine, change: &ConfChange) -> (effect: ConfEffect)
    requires
        old(engine).wf(),
    ensures
        final(engine).wf(),
        final(engine)@ == conf_state(old(engine)@, change.op, change.node, change.context@),
        final(engine).follows(old(engine)),
        *final(engine) == *old(engine) || (final(engine).unpublished()
            && final(engine).unflushed()),
        match change.op {
            ConfOp::AddLearner | ConfOp::Promote => {
                &&& effect matches ConfEffect::Learned(found)
                &&& book(found@) == if change.context@.len() == 0 {
                    Map::empty()
                } else {
                    addresses_in(change.context@, change.node)
                }
            },
            ConfOp::RemoveLearner | ConfOp::RemoveVoter => effect == ConfEffect::Forgot(
                change.node,
            ),
        },
{
    match change.op {
        ConfOp::AddLearner | ConfOp::Promote => {
            if change.context.len() == 0 {
                let found: BTreeMap<NodeId, String> = BTreeMap::new();
                assert(book(found@) =~= Map::<NodeId, Seq<char>>::empty());
                proof {
                    lemma_follows_self(engine);
                }
                return ConfEffect::Learned(found);
            }
            let found = decode_book(&change.context, change.node);
            let ids = keys_of(&found);
            let ghost state = engine@;
            let ghost all = book(found@);
            let mut i: usize = 0;
            proof {
                lemma_follows_self(engine);
                assert(with_book(state, all.restrict(ids@.take(0).to_set())) =~= state);
            }
            while i < ids.len()
                invariant
                    i <= ids@.len(),
                    increasing(ids@),
                    ids@.to_set() == found@.dom(),
                    all == book(found@),
                    engine.wf(),
                    engine@ == with_book(state, all.restrict(ids@.take(i as int).to_set())),
                    engine.follows(old(engine)),
                    *engine == *old(engine) || (engine.unpublished() && engine.unflushed()),
                decreases ids@.len() - i,
            {
                let id: NodeId = ids[i];
                assert(ids@.to_set().contains(id));
                let ghost before = *engine;
                let ghost part = all.restrict(ids@.take(i as int).to_set());
                match found.get(&id) {
                    Some(address) => {
                        record_endpoint(engine, id, address.as_str());
                        proof {
                            lemma_with_book_insert(state, part, id, all[id]);
                            lemma_follows_step(
                                old(engine),
                                &before,
                                engine,
                                Edit::Put(peer_key_of(id), encode_utf8(address@)),
                            );
                        }
                    },
                    None => {},
                }
                i += 1;
                proof {
                    lemma_take_to_set(ids@, i - 1);
                    assert(all.restrict(ids@.take(i as int).to_set()) =~= part.insert(id, all[id]));
                }
            }
            proof {
                assert(ids@.take(i as int) =~= ids@);
                assert(all.restrict(ids@.to_set()) =~= all);
            }
            ConfEffect::Learned(found)
        },
        ConfOp::RemoveLearner | ConfOp::RemoveVoter => {
            forget_endpoint(engine, change.node);
            proof {
                lemma_follows_self(old(engine));
                lemma_follows_step(
                    old(engine),
                    old(engine),
                    engine,
                    Edit::Delete(peer_key_of(change.node)),
                );
            }
            ConfEffect::Forgot(change.node)
        },
    }
}

/// Applying a conf change twice is applying it once, so replaying the live log
/// tail after a restart changes nothing.
pub proof fn law_conf_is_idempotent(
    state: Map<Seq<u8>, Seq<u8>>,
    op: ConfOp,
    node: NodeId,
    context: Seq<u8>,
)
    ensures
        conf_state(conf_state(state, op, node, context), op, node, context) == conf_state(
            state,
            op,
            node,
            context,
        ),
{
    let once = conf_state(state, op, node, context);
    assert(conf_state(once, op, node, context) =~= once);
}

/// Every address fits the eight bytes its length is written in.
pub open spec fn addresses_fit(addresses: Map<NodeId, Seq<char>>) -> bool {
    forall|id: NodeId| #[trigger]
        addresses.contains_key(id) ==> encode_utf8(addresses[id]).len() <= u64::MAX
}

/// What `ids` say of `addresses`.
spec fn listed(ids: Seq<NodeId>, addresses: Map<NodeId, Seq<char>>) -> Map<NodeId, Seq<char>> {
    addresses.restrict(ids.to_set())
}

proof fn lemma_enc_entries_head(ids: Seq<NodeId>, addresses: Map<NodeId, Seq<char>>)
    requires
        ids.len() > 0,
    ensures
        enc_entries(ids, addresses) == (le(ids[0] as nat, 8) + enc_bytes(
            encode_utf8(addresses[ids[0]]),
        )) + enc_entries(ids.skip(1), addresses),
    decreases ids.len(),
{
    let first = le(ids[0] as nat, 8) + enc_bytes(encode_utf8(addresses[ids[0]]));
    if ids.len() == 1 {
        assert(ids.drop_last() =~= Seq::<NodeId>::empty());
        assert(ids.skip(1) =~= Seq::<NodeId>::empty());
        assert(enc_entries(ids, addresses) =~= first + enc_entries(ids.skip(1), addresses));
    } else {
        lemma_enc_entries_head(ids.drop_last(), addresses);
        assert(ids.drop_last().skip(1) =~= ids.skip(1).drop_last());
        assert(enc_entries(ids, addresses) =~= first + enc_entries(ids.skip(1), addresses));
    }
}

proof fn lemma_entry_at(id: NodeId, address: Seq<char>, rest: Seq<u8>)
    requires
        encode_utf8(address).len() <= u64::MAX,
    ensures
        entry_at(le(id as nat, 8) + enc_bytes(encode_utf8(address)) + rest) == Some(
            (id, address, rest),
        ),
{
    let raw = encode_utf8(address);
    let data = le(id as nat, 8) + enc_bytes(raw) + rest;
    lemma_pow256_widths();
    lemma_le_len(id as nat, 8);
    lemma_le_len(raw.len(), 8);
    lemma_from_le_le(id as nat, 8);
    lemma_from_le_le(raw.len(), 8);
    assert(data.take(8) =~= le(id as nat, 8));
    let tail = data.skip(8);
    assert(tail.take(8) =~= le(raw.len(), 8));
    assert(tail.subrange(8, 8 + raw.len() as int) =~= raw);
    assert(tail.skip(8 + raw.len() as int) =~= rest);
    vstd::utf8::encode_utf8_valid_utf8(address);
    vstd::utf8::encode_utf8_decode_utf8(address);
}

proof fn lemma_parse_entries(
    ids: Seq<NodeId>,
    addresses: Map<NodeId, Seq<char>>,
    known: Map<NodeId, Seq<char>>,
)
    requires
        addresses_fit(addresses),
        ids.to_set().subset_of(addresses.dom()),
    ensures
        parse_entries(enc_entries(ids, addresses), ids.len(), known) == Some(
            known.union_prefer_right(listed(ids, addresses)),
        ),
    decreases ids.len(),
{
    if ids.len() == 0 {
        assert(known.union_prefer_right(listed(ids, addresses)) =~= known);
    } else {
        let id = ids[0];
        let rest = ids.skip(1);
        assert(ids.to_set().contains(id));
        lemma_enc_entries_head(ids, addresses);
        lemma_entry_at(id, addresses[id], enc_entries(rest, addresses));
        assert forall|k: NodeId| rest.contains(k) implies ids.contains(k) by {
            let j = choose|j: int| 0 <= j < rest.len() && rest[j] == k;
            assert(ids[j + 1] == k);
        }
        assert forall|k: NodeId| ids.contains(k) implies k == id || rest.contains(k) by {
            let j = choose|j: int| 0 <= j < ids.len() && ids[j] == k;
            if j > 0 {
                assert(rest[j - 1] == k);
            }
        }
        assert(rest.to_set().subset_of(addresses.dom())) by {
            assert forall|k: NodeId| rest.to_set().contains(k) implies addresses.dom().contains(
                k,
            ) by {
                assert(ids.to_set().contains(k));
            }
        }
        lemma_parse_entries(rest, addresses, known.insert(id, addresses[id]));
        assert(known.insert(id, addresses[id]).union_prefer_right(listed(rest, addresses))
            =~= known.union_prefer_right(listed(ids, addresses)));
    }
}

/// The address book that a conf change's context was packed from is the one
/// read back from it, whichever node the change is about.
pub proof fn law_book_round_trip(addresses: Map<NodeId, Seq<char>>, node: NodeId)
    requires
        addresses.dom().finite(),
        addresses_fit(addresses),
        addresses.dom().len() <= u64::MAX,
    ensures
        addresses_in(seq![BOOK_MAGIC] + enc_book(addresses), node) == addresses,
{
    let ids = in_order(addresses.dom());
    lemma_in_order_exists(addresses.dom());
    lemma_pow256_widths();
    let body = enc_book(addresses);
    lemma_le_len(ids.len(), 8);
    lemma_from_le_le(ids.len(), 8);
    assert(body.take(8) =~= le(ids.len(), 8));
    assert(body.skip(8) =~= enc_entries(ids, addresses));
    lemma_parse_entries(ids, addresses, Map::empty());
    assert(Map::<NodeId, Seq<char>>::empty().union_prefer_right(listed(ids, addresses))
        =~= addresses);
    assert((seq![BOOK_MAGIC] + body).skip(1) =~= body);
}

/// The book kept in memory stays the book in the state machine: what a conf
/// change makes of the one is what it makes of the other.
pub proof fn law_mirror_follows_state(
    state: Map<Seq<u8>, Seq<u8>>,
    op: ConfOp,
    node: NodeId,
    context: Seq<u8>,
)
    ensures
        conf_book(endpoints_of(state), op, node, context) == endpoints_of(
            conf_state(state, op, node, context),
        ),
{
    let known = endpoints_of(state);
    let after = conf_state(state, op, node, context);
    let addresses = addresses_in(context, node);
    assert forall|id: NodeId| #[trigger] endpoints_of(after).contains_key(id) == conf_book(
        known,
        op,
        node,
        context,
    ).contains_key(id) && (endpoints_of(after).contains_key(id) ==> endpoints_of(after)[id]
        == conf_book(known, op, node, context)[id]) by {
        law_peer_keys(id, peer_key_of(id));
        law_peer_keys(node, peer_key_of(id));
        law_peer_keys(id, peer_key_of(node));
        if addresses.contains_key(id) {
            vstd::utf8::encode_utf8_valid_utf8(addresses[id]);
            vstd::utf8::encode_utf8_decode_utf8(addresses[id]);
        }
    }
    assert(conf_book(known, op, node, context) =~= endpoints_of(after));
}

/// An admission spreads every address it carries: whatever a replica knew, once
/// it has applied the change its book and its state hold each address of the
/// book that the change was packed from, and what they held of everybody else.
pub proof fn law_an_admission_spreads_its_addresses(
    state: Map<Seq<u8>, Seq<u8>>,
    known: Map<NodeId, Seq<char>>,
    op: ConfOp,
    node: NodeId,
    context: Seq<u8>,
    addresses: Map<NodeId, Seq<char>>,
    id: NodeId,
)
    requires
        op is AddLearner || op is Promote,
        context == seq![BOOK_MAGIC] + enc_book(addresses),
        addresses.dom().finite(),
        addresses_fit(addresses),
        addresses.dom().len() <= u64::MAX,
    ensures
        ({
            let book = conf_book(known, op, node, context);
            let after = conf_state(state, op, node, context);
            &&& addresses.contains_key(id) ==> {
                &&& book.contains_key(id)
                &&& book[id] == addresses[id]
                &&& after.contains_key(peer_key_of(id))
                &&& after[peer_key_of(id)] == encode_utf8(addresses[id])
            }
            &&& !addresses.contains_key(id) ==> {
                &&& book.contains_key(id) == known.contains_key(id)
                &&& known.contains_key(id) ==> book[id] == known[id]
                &&& after.contains_key(peer_key_of(id)) == state.contains_key(peer_key_of(id))
                &&& state.contains_key(peer_key_of(id)) ==> after[peer_key_of(id)]
                    == state[peer_key_of(id)]
            }
        }),
{
    law_book_round_trip(addresses, node);
    law_peer_keys(id, peer_key_of(id));
}

/// A change that carries one plain address is about the node it changes: that
/// node, and no other, is then known there.
pub proof fn law_a_plain_address_is_the_nodes_own(
    known: Map<NodeId, Seq<char>>,
    op: ConfOp,
    node: NodeId,
    address: Seq<char>,
    id: NodeId,
)
    requires
        op is AddLearner || op is Promote,
        encode_utf8(address).len() > 0,
        encode_utf8(address)[0] != BOOK_MAGIC,
    ensures
        ({
            let book = conf_book(known, op, node, encode_utf8(address));
            &&& book.contains_key(node)
            &&& book[node] == address
            &&& id != node ==> book.contains_key(id) == known.contains_key(id) && (
            known.contains_key(id) ==> book[id] == known[id])
        }),
{
    vstd::utf8::encode_utf8_valid_utf8(address);
    vstd::utf8::encode_utf8_decode_utf8(address);
}

/// A removal takes out the node it names, from the book and from the state, and
/// nothing else.
pub proof fn law_a_removal_forgets_one_node(
    state: Map<Seq<u8>, Seq<u8>>,
    known: Map<NodeId, Seq<char>>,
    op: ConfOp,
    node: NodeId,
    context: Seq<u8>,
    id: NodeId,
    key: Seq<u8>,
)
    requires
        op is RemoveLearner || op is RemoveVoter,
    ensures
        ({
            let book = conf_book(known, op, node, context);
            let after = conf_state(state, op, node, context);
            &&& book.contains_key(id) <==> known.contains_key(id) && id != node
            &&& book.contains_key(id) ==> book[id] == known[id]
            &&& after.contains_key(key) <==> state.contains_key(key) && key != peer_key_of(node)
            &&& after.contains_key(key) ==> after[key] == state[key]
        }),
{
}

/// The book in a state is what was recorded in it: a node is known exactly at
/// the address recorded last, until it is forgotten, and no other key of the
/// state has a say.
pub proof fn law_the_book_is_what_was_recorded(
    state: Map<Seq<u8>, Seq<u8>>,
    id: NodeId,
    address: Seq<char>,
    other: NodeId,
    key: Seq<u8>,
    value: Seq<u8>,
)
    requires
        key != peer_key_of(other),
    ensures
        endpoints_of(state.insert(peer_key_of(id), encode_utf8(address))).contains_key(id),
        endpoints_of(state.insert(peer_key_of(id), encode_utf8(address)))[id] == address,
        !endpoints_of(state.remove(peer_key_of(id))).contains_key(id),
        !state.contains_key(peer_key_of(other)) ==> !endpoints_of(state).contains_key(other),
        endpoints_of(state.insert(key, value)).contains_key(other) == endpoints_of(
            state,
        ).contains_key(other),
        endpoints_of(state).contains_key(other) ==> endpoints_of(state.insert(key, value))[other]
            == endpoints_of(state)[other],
        endpoints_of(state.remove(key)).contains_key(other) == endpoints_of(state).contains_key(
            other,
        ),
        id != other ==> peer_key_of(id) != peer_key_of(other),
{
    vstd::utf8::encode_utf8_valid_utf8(address);
    vstd::utf8::encode_utf8_decode_utf8(address);
    law_peer_keys(id, peer_key_of(other));
    law_peer_keys(other, peer_key_of(id));
}

/// A book says of every node in it where that node lives, and nothing of others.
pub proof fn law_a_book_is_seen_whole(map: Map<NodeId, String>, id: NodeId)
    ensures
        book(map).contains_key(id) <==> map.contains_key(id),
        map.contains_key(id) ==> book(map)[id] == map[id]@,
{
}

/// An address that is recorded is found again, and one that is forgotten is not;
/// nothing else in the state moves.
pub proof fn law_a_recorded_address_is_found(
    before: Engine,
    recorded: Engine,
    forgotten: Engine,
    id: NodeId,
    address: &str,
    u: ((), ()),
    found: BTreeMap<NodeId, String>,
    key: Seq<u8>,
)
    requires
        before.wf(),
        recorded.wf(),
        exists|e: &mut Engine| #[trigger]
            call_ensures(record_endpoint, (e, id, address), u.0) && *e == before && *final(e)
                == recorded,
        exists|e: &mut Engine| #[trigger]
            call_ensures(forget_endpoint, (e, id), u.1) && *e == before && *final(e) == forgotten,
        call_ensures(endpoints, (&recorded,), found),
    ensures
        found@.contains_key(id),
        found@[id]@ == address@,
        !endpoints_of(forgotten@).contains_key(id),
        key != peer_key_of(id) ==> recorded@.contains_key(key) == before@.contains_key(key)
            && recorded@[key] == before@[key] && forgotten@.contains_key(key)
            == before@.contains_key(key) && forgotten@[key] == before@[key],
{
    let none = Seq::<u8>::empty();
    law_peer_keys(id, none);
    lemma_empty_key_is_no_peer(id, none);
    law_the_book_is_what_was_recorded(before@, id, address@, id, none, none);
    law_a_book_is_seen_whole(found@, id);
}

/// The empty key is no node's.
proof fn lemma_empty_key_is_no_peer(id: NodeId, none: Seq<u8>)
    requires
        none.len() == 0,
    ensures
        none != peer_key_of(id),
{
    law_peer_keys(id, none);
}

/// A change teaches what its context says, and a removal forgets its node; the
/// state that is left is what every replica comes to.
pub proof fn law_a_change_is_carried_out(
    before: Engine,
    after: Engine,
    change: &ConfChange,
    effect: ConfEffect,
    key: Seq<u8>,
    id: NodeId,
)
    requires
        before.wf(),
        exists|e: &mut Engine| #[trigger]
            call_ensures(apply_conf, (e, change), effect) && *e == before && *final(e) == after,
    ensures
        change.op is RemoveLearner || change.op is RemoveVoter ==> {
            &&& effect == ConfEffect::Forgot(change.node)
            &&& after@.contains_key(key) <==> before@.contains_key(key) && key != peer_key_of(
                change.node,
            )
            &&& after@.contains_key(key) ==> after@[key] == before@[key]
        },
        change.op is AddLearner || change.op is Promote ==> {
            &&& effect matches ConfEffect::Learned(found)
            &&& change.context@.len() == 0 ==> found@.len() == 0
            &&& change.context@.len() > 0 ==> book(found@) == addresses_in(
                change.context@,
                change.node,
            )
        },
        after@ == conf_state(before@, change.op, change.node, change.context@),
{
    if change.op is RemoveLearner || change.op is RemoveVoter {
        law_a_removal_forgets_one_node(
            before@,
            Map::empty(),
            change.op,
            change.node,
            change.context@,
            id,
            key,
        );
    } else {
        match effect {
            ConfEffect::Learned(found) => {
                if change.context@.len() == 0 {
                    assert(book(found@).dom() =~= found@.dom());
                    assert(found@.dom() =~= Set::<NodeId>::empty());
                }
            },
            _ => {},
        }
    }
}

/// A book that is encoded is read back whole.
pub proof fn law_an_encoded_book_is_read_back(
    addresses: &BTreeMap<NodeId, String>,
    out: Vec<u8>,
    node: NodeId,
)
    requires
        call_ensures(encode_book, (addresses,), out),
        addresses_fit(book(addresses@)),
        addresses@.dom().finite(),
        addresses@.dom().len() <= u64::MAX,
    ensures
        addresses_in(out@, node) == book(addresses@),
{
    assert(book(addresses@).dom() =~= addresses@.dom());
    law_book_round_trip(book(addresses@), node);
}

/// Where a node's address lies: a zero byte, `peer/` and the node's id.
pub proof fn law_where_an_address_lies(id: NodeId)
    ensures
        peer_key_of(id) == seq![0u8, 0x70u8, 0x65u8, 0x65u8, 0x72u8, 0x2fu8] + be(id as nat, 8),
        peer_key_of(id).len() == 14,
{
    lemma_be_len(id as nat, 8);
}

} // verus!
