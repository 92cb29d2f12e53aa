//! What a restart does.
//!
//! A group that comes back applies the live tail of its log again, over a state
//! that already reflects it. A request with a context is recognised by its
//! session entry and changes nothing. A write without one, and a membership
//! change, is carried out again: it sets what it set before. A compare-and-swap
//! without one is refused, as long as what it expects is no longer there.

use vstd::prelude::*;

use crate::bytes::lemma_be_len;
use crate::command::{meaning, Change};
use crate::drain::{batch_applied, entry_applied, in_log_order, lemma_applied_bounds, made_by,
    BodyView, CommittedView, Machine};
use crate::driver::{changed, key_of};
use crate::membership::{addresses_in, law_peer_keys, names_one_of, peer_id_of,
    peer_key_of, peer_prefix, with_book, ConfOp};
use crate::session::{cached_answer, law_recorded_answer_repeats, law_session_keys, reserved,
    session_key_of, session_prefix, RequestCtx};
use crate::shard_map::SHARD_MAP_KEY;
use crate::types::NodeId;

verus! {

/// What a state holds under a key.
pub open spec fn held_at(state: Map<Seq<u8>, Seq<u8>>, key: Seq<u8>) -> Option<Seq<u8>> {
    if state.contains_key(key) {
        Some(state[key])
    } else {
        None
    }
}

/// Whether a key is one that commands are about: a client's, or the shard map's.
pub open spec fn commanded(key: Seq<u8>) -> bool {
    !reserved(key) || key == SHARD_MAP_KEY@
}

/// The command that an entry carries, if it carries one.
pub open spec fn command_in(entry: CommittedView) -> Option<(Option<RequestCtx>, Change)> {
    match entry.body {
        BodyView::Command(bytes) => match meaning(bytes) {
            Ok(meant) => meant,
            Err(_) => None,
        },
        BodyView::Conf(_) => None,
    }
}

/// Whether an entry can be read, and leaves the session table and the address
/// book alone unless it is a membership change.
pub open spec fn replayable(entry: CommittedView) -> bool {
    &&& entry.body matches BodyView::Command(bytes) ==> meaning(bytes) is Ok
    &&& command_in(entry) matches Some(command) ==> commanded(key_of(command.1))
}

/// Whether an entry is a compare-and-swap without a context on a key.
pub open spec fn bare_swap_of(entry: CommittedView, key: Seq<u8>) -> bool {
    command_in(entry) matches Some(command) && command.0 is None && command.1 is Cas && key_of(
        command.1,
    ) == key
}

/// The context of an entry's request, if it has one.
pub open spec fn ctx_of(entry: CommittedView) -> Option<RequestCtx> {
    match command_in(entry) {
        Some(command) => command.0,
        None => None,
    }
}

/// What an entry sets a key to, if it sets it whatever was there: the key's new
/// value, or that it is gone.
pub open spec fn sets(entry: CommittedView, key: Seq<u8>) -> Option<Option<Seq<u8>>> {
    match entry.body {
        BodyView::Conf(None) => None,
        BodyView::Conf(Some((op, node, context))) => match op {
            ConfOp::AddLearner | ConfOp::Promote => if context.len() > 0 && names_one_of(
                key,
                addresses_in(context, node),
            ) {
                Some(held_at(with_book(Map::empty(), addresses_in(context, node)), key))
            } else {
                None
            },
            ConfOp::RemoveLearner | ConfOp::RemoveVoter => if key == peer_key_of(node) {
                Some(None)
            } else {
                None
            },
        },
        BodyView::Command(_) => match command_in(entry) {
            Some((None, Change::Put(k, value))) => if k == key {
                Some(Some(value))
            } else {
                None
            },
            Some((None, Change::Delete(k))) => if k == key {
                Some(None)
            } else {
                None
            },
            _ => None,
        },
    }
}

/// What the last of `entries` that sets a key sets it to.
pub open spec fn last_set(entries: Seq<CommittedView>, key: Seq<u8>) -> Option<Option<Seq<u8>>>
    decreases entries.len(),
{
    if entries.len() == 0 {
        None
    } else if sets(entries.last(), key) is Some {
        sets(entries.last(), key)
    } else {
        last_set(entries.drop_last(), key)
    }
}

/// Whether `later` is a request with a context on a key that `earlier` sets.
pub open spec fn overtakes(earlier: CommittedView, later: CommittedView) -> bool {
    command_in(later) matches Some(command) && command.0 is Some && sets(
        earlier,
        key_of(command.1),
    ) is Some
}

/// Whether an entry, if it is a compare-and-swap without a context, is refused
/// when it comes again among `tail`: its key does not hold what it expects, and
/// nothing sets the key.
pub open spec fn declines(
    state: Map<Seq<u8>, Seq<u8>>,
    tail: Seq<CommittedView>,
    entry: CommittedView,
) -> bool {
    command_in(entry) matches Some((None, Change::Cas(key, expected, _))) ==> held_at(state, key)
        != expected && last_set(tail, key) is None
}

/// Whether a state has the answer to an entry's request.
pub open spec fn knows(state: Map<Seq<u8>, Seq<u8>>, entry: CommittedView) -> bool {
    ctx_of(entry) matches Some(ctx) ==> (cached_answer(state, ctx) matches Ok(Some(_)))
}

/// No member's key is a session key, and a command is about neither.
proof fn lemma_keys_apart(id: NodeId, client_id: u64, key: Seq<u8>)
    ensures
        peer_key_of(id) != session_key_of(client_id),
        commanded(key) ==> key != peer_key_of(id) && key != session_key_of(client_id),
{
    law_session_keys(client_id, client_id);
    law_peer_keys(id, key);
    lemma_be_len(id as nat, 8);
    assert(SHARD_MAP_KEY@.len() == 9);
    assert(peer_key_of(id).len() == 14);
}

/// No entry sets a key that a session entry is under, nor, if a command is about
/// the key, does a membership change set it.
proof fn lemma_sets_apart(entry: CommittedView, key: Seq<u8>, client_id: u64)
    requires
        replayable(entry),
        sets(entry, key) is Some,
    ensures
        key != session_key_of(client_id),
        commanded(key) ==> entry.body is Command,
{
    match entry.body {
        BodyView::Conf(Some((op, node, context))) => match op {
            ConfOp::AddLearner | ConfOp::Promote => {
                let id = peer_id_of(key)->0;
                law_peer_keys(id, key);
                lemma_keys_apart(id, client_id, key);
            },
            ConfOp::RemoveLearner | ConfOp::RemoveVoter => {
                lemma_keys_apart(node, client_id, key);
            },
        },
        _ => {
            lemma_keys_apart(0, client_id, key);
        },
    }
}

/// Whether an entry may change a key in a way that depends on what was there.
spec fn may_touch(entry: CommittedView, key: Seq<u8>) -> bool {
    command_in(entry) matches Some(command) && (((command.0 is Some || command.1 is Cas) && key_of(
        command.1,
    ) == key) || (command.0 is Some && key == session_key_of((command.0->0).client_id)))
}

/// What a replayable entry leaves under a key: what it sets there, else, unless
/// it may touch it, what was there.
proof fn lemma_entry_at(m: Machine, entry: CommittedView, leader: Option<NodeId>, key: Seq<u8>)
    requires
        replayable(entry),
    ensures
        entry_applied(m, entry, leader) matches Ok(after) ==> match sets(entry, key) {
            Some(value) => held_at(after.state, key) == value,
            None => may_touch(entry, key) || held_at(after.state, key) == held_at(m.state, key),
        },
{
}

/// Someone of `entries` sets a key that the last set is of.
proof fn lemma_last_set_is_someones(entries: Seq<CommittedView>, key: Seq<u8>) -> (i: int)
    requires
        last_set(entries, key) is Some,
    ensures
        0 <= i < entries.len(),
        sets(entries[i], key) is Some,
    decreases entries.len(),
{
    if sets(entries.last(), key) is Some {
        entries.len() - 1
    } else {
        lemma_last_set_is_someones(entries.drop_last(), key)
    }
}

/// No entry sets a key that a session entry is under.
proof fn lemma_no_session_is_set(entries: Seq<CommittedView>, client_id: u64)
    requires
        forall|j: int| 0 <= j < entries.len() ==> replayable(#[trigger] entries[j]),
    ensures
        last_set(entries, session_key_of(client_id)) is None,
{
    if last_set(entries, session_key_of(client_id)) is Some {
        let i = lemma_last_set_is_someones(entries, session_key_of(client_id));
        assert(replayable(entries[i]));
        lemma_sets_apart(entries[i], session_key_of(client_id), client_id);
    }
}

/// A state that has an answer still has it after another replayable entry.
proof fn lemma_answers_stay(m: Machine, entry: CommittedView, leader: Option<NodeId>, ctx: RequestCtx)
    requires
        replayable(entry),
        cached_answer(m.state, ctx) matches Ok(Some(_)),
    ensures
        entry_applied(m, entry, leader) matches Ok(after) ==> (cached_answer(after.state, ctx)
            matches Ok(Some(_))),
{
    let key = session_key_of(ctx.client_id);
    if ctx_of(entry) matches Some(other) && other.client_id == ctx.client_id {
        let (after, response) = changed(m.state, (command_in(entry)->0).1);
        law_recorded_answer_repeats(after, ctx_of(entry)->0, response, ctx);
    } else {
        if sets(entry, key) is Some {
            lemma_sets_apart(entry, key, ctx.client_id);
        }
        match command_in(entry) {
            Some(command) => {
                lemma_keys_apart(0, ctx.client_id, key_of(command.1));
                if command.0 is Some {
                    law_session_keys(ctx.client_id, (command.0->0).client_id);
                }
            },
            None => {},
        }
        lemma_entry_at(m, entry, leader, key);
        if entry_applied(m, entry, leader) is Ok {
            let after = (entry_applied(m, entry, leader)->Ok_0).state;
            assert(held_at(after, key) == held_at(m.state, key));
        }
    }
}

/// A batch leaves a state that has the answer to each of its requests.
proof fn lemma_batch_is_known(
    m: Machine,
    entries: Seq<CommittedView>,
    leader: Option<NodeId>,
    i: int,
)
    requires
        0 <= i < entries.len(),
        forall|j: int| 0 <= j < entries.len() ==> replayable(#[trigger] entries[j]),
        batch_applied(m, entries, leader) is Ok,
    ensures
        knows((batch_applied(m, entries, leader)->Ok_0).state, entries[i]),
    decreases entries.len(),
{
    let head = entries.drop_last();
    let mid = batch_applied(m, head, leader)->Ok_0;
    let last = entries.last();
    assert(replayable(entries[entries.len() - 1]));
    if ctx_of(entries[i]) is Some {
        let ctx = ctx_of(entries[i])->0;
        if i < head.len() {
            assert forall|j: int| 0 <= j < head.len() implies replayable(#[trigger] head[j]) by {
                assert(replayable(entries[j]));
            }
            lemma_batch_is_known(m, head, leader, i);
            assert(head[i] == entries[i]);
            lemma_answers_stay(mid, last, leader, ctx);
        } else {
            let (after, response) = changed(mid.state, (command_in(last)->0).1);
            law_recorded_answer_repeats(after, ctx, response, ctx);
        }
    }
}

/// After a batch, a key holds what the last entry that sets it outright set it
/// to, unless a request with a context came after that.
proof fn lemma_last_set_stands(
    m: Machine,
    entries: Seq<CommittedView>,
    leader: Option<NodeId>,
    from: int,
    key: Seq<u8>,
)
    requires
        0 <= from <= entries.len(),
        forall|j: int| 0 <= j < entries.len() ==> replayable(#[trigger] entries[j]),
        forall|i: int, j: int|
            from <= i < j < entries.len() ==> !overtakes(#[trigger] entries[i], #[trigger] entries[j]),
        forall|j: int| from <= j < entries.len() ==> !bare_swap_of(#[trigger] entries[j], key),
        last_set(entries.skip(from), key) is Some,
        batch_applied(m, entries, leader) is Ok,
    ensures
        held_at((batch_applied(m, entries, leader)->Ok_0).state, key) == last_set(
            entries.skip(from),
            key,
        )->0,
    decreases entries.len(),
{
    let head = entries.drop_last();
    let last = entries.last();
    let mid = batch_applied(m, head, leader)->Ok_0;
    assert(entries.len() > from);
    assert(entries.skip(from).drop_last() =~= head.skip(from));
    assert(entries.skip(from).last() == last);
    assert(replayable(entries[entries.len() - 1]));
    lemma_entry_at(mid, last, leader, key);
    if sets(last, key) is None {
        assert forall|j: int| 0 <= j < head.len() implies replayable(#[trigger] head[j]) by {
            assert(replayable(entries[j]));
        }
        assert forall|i: int, j: int| from <= i < j < head.len() implies !overtakes(
            #[trigger] head[i],
            #[trigger] head[j],
        ) by {
            assert(!overtakes(entries[i], entries[j]));
        }
        assert forall|j: int| from <= j < head.len() implies !bare_swap_of(
            #[trigger] head[j],
            key,
        ) by {
            assert(!bare_swap_of(entries[j], key));
        }
        lemma_last_set_stands(m, head, leader, from, key);
        assert(!bare_swap_of(entries[entries.len() - 1], key));
        let i = from + lemma_last_set_is_someones(head.skip(from), key);
        assert(head.skip(from)[i - from] == entries[i]);
        assert(!overtakes(entries[i], entries[entries.len() - 1]));
        assert(replayable(entries[i]));
        if ctx_of(last) is Some {
            lemma_sets_apart(entries[i], key, (ctx_of(last)->0).client_id);
        }
        assert(!may_touch(last, key));
    }
}

/// Applied over a state that has the answer to each of its requests, a batch
/// only sets the keys that it sets outright.
proof fn lemma_known_batch_only_sets(
    m: Machine,
    entries: Seq<CommittedView>,
    leader: Option<NodeId>,
)
    requires
        forall|j: int|
            0 <= j < entries.len() ==> replayable(#[trigger] entries[j]) && knows(m.state, entries[j])
                && declines(m.state, entries, entries[j]),
    ensures
        batch_applied(m, entries, leader) is Ok,
        forall|key: Seq<u8>|
            #![trigger held_at((batch_applied(m, entries, leader)->Ok_0).state, key)]
            held_at((batch_applied(m, entries, leader)->Ok_0).state, key) == match last_set(
                entries,
                key,
            ) {
                Some(value) => value,
                None => held_at(m.state, key),
            },
        (forall|j: int| 0 <= j < entries.len() ==> (#[trigger] entries[j]).body is Command) ==> (
        batch_applied(m, entries, leader)->Ok_0).book == m.book,
    decreases entries.len(),
{
    if entries.len() > 0 {
        let head = entries.drop_last();
        let last = entries.last();
        assert forall|j: int| 0 <= j < head.len() implies replayable(#[trigger] head[j]) && knows(
            m.state,
            head[j],
        ) && declines(m.state, head, head[j]) by {
            assert(replayable(entries[j]));
            assert(declines(m.state, entries, entries[j]));
        }
        if forall|j: int| 0 <= j < entries.len() ==> (#[trigger] entries[j]).body is Command {
            assert forall|j: int| 0 <= j < head.len() implies (#[trigger] head[j]).body is Command by {
                assert(entries[j].body is Command);
            }
            assert(entries[entries.len() - 1].body is Command);
        }
        lemma_known_batch_only_sets(m, head, leader);
        let mid = batch_applied(m, head, leader)->Ok_0;
        assert(replayable(entries[entries.len() - 1]));
        match ctx_of(last) {
            Some(ctx) => {
                let key = session_key_of(ctx.client_id);
                lemma_no_session_is_set(head, ctx.client_id);
                assert(held_at(mid.state, key) == held_at(m.state, key));
                assert(cached_answer(mid.state, ctx) == cached_answer(m.state, ctx));
            },
            None => match command_in(last) {
                Some((None, Change::Cas(key, expected, _))) => {
                    assert(declines(m.state, entries, entries[entries.len() - 1]));
                    assert(held_at(mid.state, key) == held_at(m.state, key));
                },
                _ => {},
            },
        }
        let after = batch_applied(m, entries, leader)->Ok_0;
        assert forall|key: Seq<u8>| #[trigger] held_at(after.state, key) == match last_set(
            entries,
            key,
        ) {
            Some(value) => value,
            None => held_at(m.state, key),
        } by {
            lemma_entry_at(mid, last, leader, key);
            assert(held_at(mid.state, key) == match last_set(head, key) {
                Some(value) => value,
                None => held_at(m.state, key),
            });
        }
    }
}

/// A restart is harmless: the live tail of a log, applied again over the state
/// that it already led to, leaves that state as it is, and the address book too
/// where no membership change is among it.
///
/// Two things are left out: a write without a context, and after it a request
/// with one on the same key, of which only the first is carried out again; and a
/// compare-and-swap without a context whose key holds again what it expects.
pub proof fn law_replay_changes_nothing(
    m: Machine,
    entries: Seq<CommittedView>,
    leader: Option<NodeId>,
    restarted: Machine,
    from: int,
    later: Option<NodeId>,
)
    requires
        0 <= from <= entries.len(),
        forall|j: int| 0 <= j < entries.len() ==> replayable(#[trigger] entries[j]),
        forall|i: int, j: int|
            from <= i < j < entries.len() ==> !overtakes(#[trigger] entries[i], #[trigger] entries[j]),
        batch_applied(m, entries, leader) matches Ok(after) && after.state == restarted.state,
        forall|j: int|
            from <= j < entries.len() ==> declines(
                restarted.state,
                entries.skip(from),
                #[trigger] entries[j],
            ),
    ensures
        batch_applied(restarted, entries.skip(from), later) matches Ok(again) && again.state
            == restarted.state && ((forall|j: int|
            from <= j < entries.len() ==> (#[trigger] entries[j]).body is Command) ==> again.book
            == restarted.book),
{
    let tail = entries.skip(from);
    assert forall|j: int| 0 <= j < tail.len() implies replayable(#[trigger] tail[j]) && knows(
        restarted.state,
        tail[j],
    ) && declines(restarted.state, tail, tail[j]) by {
        assert(replayable(entries[from + j]));
        assert(declines(restarted.state, tail, entries[from + j]));
        lemma_batch_is_known(m, entries, leader, from + j);
    }
    lemma_known_batch_only_sets(restarted, tail, later);
    let again = batch_applied(restarted, tail, later)->Ok_0;
    if forall|j: int| from <= j < entries.len() ==> (#[trigger] entries[j]).body is Command {
        assert forall|j: int| 0 <= j < tail.len() implies (#[trigger] tail[j]).body is Command by {
            assert(entries[from + j].body is Command);
        }
    }
    assert forall|key: Seq<u8>|
        #![trigger again.state.contains_key(key)]
        #![trigger again.state[key]]
        held_at(again.state, key) == held_at(restarted.state, key) by {
        assert(held_at(again.state, key) == match last_set(tail, key) {
            Some(value) => value,
            None => held_at(restarted.state, key),
        });
        if last_set(tail, key) is Some {
            assert forall|j: int| from <= j < entries.len() implies !bare_swap_of(
                #[trigger] entries[j],
                key,
            ) by {
                assert(declines(restarted.state, tail, entries[j]));
            }
            lemma_last_set_stands(m, entries, leader, from, key);
        }
    }
    assert forall|key: Seq<u8>| #[trigger]
        again.state.contains_key(key) == restarted.state.contains_key(key) && (
        again.state.contains_key(key) ==> again.state[key] == restarted.state[key]) by {
        assert(held_at(again.state, key) == held_at(restarted.state, key));
    }
    assert(again.state =~= restarted.state);
}

/// A restarted group has every entry in it once it has applied the tail again:
/// the state is still what the first `k` entries of the log make, up to where
/// the group says it got. The replays that change something are left out, as in
/// [`law_replay_changes_nothing`].
pub proof fn law_a_restarted_group_holds_every_entry(
    base: Machine,
    log: Seq<CommittedView>,
    k: int,
    restarted: Machine,
    from: int,
    later: Option<NodeId>,
)
    requires
        in_log_order(log),
        made_by(base, log, k, restarted.state, restarted.applied),
        0 <= from <= k,
        forall|j: int| 0 <= j < k ==> replayable(#[trigger] log[j]),
        forall|i: int, j: int|
            from <= i < j < k ==> !overtakes(#[trigger] log[i], #[trigger] log[j]),
        forall|j: int|
            from <= j < k ==> declines(
                restarted.state,
                log.subrange(from, k),
                #[trigger] log[j],
            ),
    ensures
        batch_applied(restarted, log.subrange(from, k), later) matches Ok(again) && made_by(
            base,
            log,
            k,
            again.state,
            again.applied,
        ),
{
    let first = log.take(k);
    let tail = log.subrange(from, k);
    assert(first.skip(from) =~= tail);
    assert forall|j: int| 0 <= j < first.len() implies replayable(#[trigger] first[j]) by {
        assert(first[j] == log[j]);
    }
    assert forall|i: int, j: int| from <= i < j < first.len() implies !overtakes(
        #[trigger] first[i],
        #[trigger] first[j],
    ) by {
        assert(first[i] == log[i] && first[j] == log[j]);
    }
    assert forall|j: int| from <= j < first.len() implies declines(
        restarted.state,
        first.skip(from),
        #[trigger] first[j],
    ) by {
        assert(first[j] == log[j]);
    }
    law_replay_changes_nothing(base, first, None, restarted, from, later);
    let again = batch_applied(restarted, tail, later)->Ok_0;
    assert forall|p: int| k <= p < log.len() implies again.applied < (#[trigger] log[p]).index by {
        assert forall|i: int| 0 <= i < tail.len() implies (#[trigger] tail[i]).index
            < log[p].index by {
            assert(tail[i] == log[from + i]);
        }
        lemma_applied_bounds(restarted, tail, later, log[p].index);
    }
}

} // verus!
