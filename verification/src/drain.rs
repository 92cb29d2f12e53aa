//! Carrying out what a group's Raft core has ready.

use std::collections::{BTreeMap, BTreeSet};

use vstd::prelude::*;
use vstd::string::*;

use crate::command::{meaning, Command};
use crate::driver::{admin_redirect, applied, apply, client_redirect, expiry_decision, expiry_of,
    lease_covers, reply_from, reply_of, AdminReply, Answer, ClientReply, Expiry, Group, NodeView, Pending,
    PendingRead, ReadJob, ReadState, Reply, Ticket};
use crate::bytes::{lex_lt, lemma_lex_irreflexive};
use crate::engine::{carried_out, edits, in_step, keys_increase, pairs_map, pairs_view, shown, Disk,
    Edit, Engine, Write, law_a_disk_stays_in_step, lemma_follows_self, lemma_follows_step,
    lemma_follows_trans, lemma_pairs_map_at, lemma_pairs_map_dom};
use crate::group::GroupId;
use crate::ids::{in_order, keys_of, picked, take_keys, lemma_in_order_exists,
    lemma_picked_in_order};
use crate::membership::{apply_conf, book, conf_book, conf_state, endpoints, endpoints_of,
    law_peer_keys, peer_id_of, peer_key_of, ConfChange, ConfEffect, ConfOp};
use crate::session::CommandResponse;
use crate::snapshot::{self, decoded, image, SnapshotError};
use crate::storage::{law_reopening_finds_the_log, opened, BitcaskStorage, BitcaskStorageError};
use crate::types::{ClusterConfig, LogIndex, Nanos, NodeId, Role, Snapshot, SnapshotView, Term,
    MAX_NANOS};

verus! {

broadcast use {vstd::std_specs::btree::group_btree_axioms, vstd::laws_cmp::group_laws_cmp};

/// What a committed entry carries.
#[derive(Debug)]
pub enum Body {
    /// A membership change, where it can be read. The core changed the quorum
    /// when the entry was appended; what is left is the address book.
    Conf(Option<ConfChange>),
    /// A command's bytes; none for a leader's no-op.
    Command(Vec<u8>),
}

/// A committed entry.
#[derive(Debug)]
pub struct Committed {
    pub term: Term,
    pub index: LogIndex,
    pub body: Body,
}

/// A [`Body`] as a mathematical value.
pub enum BodyView {
    Conf(Option<(ConfOp, NodeId, Seq<u8>)>),
    Command(Seq<u8>),
}

/// A [`Committed`] entry as a mathematical value.
pub struct CommittedView {
    pub term: Term,
    pub index: LogIndex,
    pub body: BodyView,
}

impl View for Committed {
    type V = CommittedView;

    open spec fn view(&self) -> CommittedView {
        CommittedView {
            term: self.term,
            index: self.index,
            body: match self.body {
                Body::Conf(Some(c)) => BodyView::Conf(Some((c.op, c.node, c.context@))),
                Body::Conf(None) => BodyView::Conf(None),
                Body::Command(bytes) => BodyView::Command(bytes@),
            },
        }
    }
}

/// Committed entries as mathematical values.
pub open spec fn committed_views(entries: Seq<Committed>) -> Seq<CommittedView> {
    entries.map_values(|e: Committed| e@)
}

/// Why a group cannot go on.
#[derive(Debug, Clone, Copy, PartialEq, Eq, Structural)]
pub enum DrainError {
    /// A committed entry cannot be read: the log and this program disagree
    /// about the state machine, and applying past it would diverge the replicas
    /// silently.
    Undecodable { index: LogIndex },
    /// The session table holds a row that is no session entry.
    Session,
    /// A received snapshot's image cannot be read.
    Image { index: LogIndex, error: SnapshotError },
    /// A received snapshot's image is of another boundary than its log's.
    Boundary {
        image_index: LogIndex,
        image_term: Term,
        log_index: LogIndex,
        log_term: Term,
    },
}

/// What applying entries works on: the state machine, the address book, how far
/// it has got, who waits, who was answered and whether the membership moved.
#[verifier::ext_equal]
pub struct Machine {
    pub state: Map<Seq<u8>, Seq<u8>>,
    pub book: Map<NodeId, Seq<char>>,
    pub applied: LogIndex,
    pub pending: Map<LogIndex, Pending>,
    pub confs: Map<LogIndex, Pending>,
    pub replies: Seq<Reply>,
    pub moved: bool,
}

/// The greater of two indexes.
pub open spec fn max_index(a: LogIndex, b: LogIndex) -> LogIndex {
    if a < b {
        b
    } else {
        a
    }
}

/// Where a group stands, before any entry of a batch.
pub open spec fn machine_of(group: Group) -> Machine {
    Machine {
        state: group.engine@,
        book: book(group.endpoints@),
        applied: group.applied_index,
        pending: group.pending@,
        confs: group.pending_conf@,
        replies: Seq::empty(),
        moved: false,
    }
}

/// What an operator who waited on an entry is told: that the change committed,
/// if the entry is the one they proposed, else that a later leader overwrote it.
pub open spec fn conf_reply(
    waiting: Pending,
    term: Term,
    index: LogIndex,
    leader: Option<NodeId>,
) -> Reply {
    Reply {
        ticket: waiting.ticket,
        answer: Answer::Admin(
            if waiting.term == term {
                AdminReply::Accepted { index }
            } else {
                AdminReply::NotLeader { hint: leader }
            },
        ),
    }
}

/// What a client who waited on an entry is told: the entry's answer, if it is
/// the one they proposed, else that a later leader overwrote it.
pub open spec fn command_reply(
    waiting: Pending,
    term: Term,
    response: ClientReply,
    leader: Option<NodeId>,
) -> Reply {
    Reply {
        ticket: waiting.ticket,
        answer: Answer::Client(
            if waiting.term == term {
                response
            } else {
                ClientReply::NotLeader { hint: leader }
            },
        ),
    }
}

/// What one committed entry makes of the machine.
pub open spec fn entry_applied(m: Machine, entry: CommittedView, leader: Option<NodeId>) -> Result<
    Machine,
    DrainError,
> {
    let index = entry.index;
    match entry.body {
        BodyView::Conf(change) => Ok(
            Machine {
                state: match change {
                    Some((op, node, context)) => conf_state(m.state, op, node, context),
                    None => m.state,
                },
                book: match change {
                    Some((op, node, context)) => conf_book(m.book, op, node, context),
                    None => m.book,
                },
                applied: max_index(m.applied, index),
                pending: m.pending,
                confs: m.confs.remove(index),
                replies: if m.confs.contains_key(index) {
                    m.replies.push(conf_reply(m.confs[index], entry.term, index, leader))
                } else {
                    m.replies
                },
                moved: true,
            },
        ),
        BodyView::Command(bytes) => match meaning(bytes) {
            Err(_) => Err(DrainError::Undecodable { index }),
            Ok(None) => Ok(answered(m, entry, m.state, ClientReply::Applied, leader)),
            Ok(Some(command)) => match applied(m.state, command) {
                Err(_) => Err(DrainError::Session),
                Ok((state, response)) => Ok(answered(m, entry, state, reply_of(response), leader)),
            },
        },
    }
}

/// The machine after a command, with whoever waited on it answered.
pub open spec fn answered(
    m: Machine,
    entry: CommittedView,
    state: Map<Seq<u8>, Seq<u8>>,
    response: ClientReply,
    leader: Option<NodeId>,
) -> Machine {
    Machine {
        state,
        book: m.book,
        applied: max_index(m.applied, entry.index),
        pending: m.pending.remove(entry.index),
        confs: m.confs,
        replies: if m.pending.contains_key(entry.index) {
            m.replies.push(command_reply(m.pending[entry.index], entry.term, response, leader))
        } else {
            m.replies
        },
        moved: m.moved,
    }
}

/// What a batch of committed entries makes of the machine, in order; the first
/// entry that cannot be applied stops it.
pub open spec fn batch_applied(
    m: Machine,
    entries: Seq<CommittedView>,
    leader: Option<NodeId>,
) -> Result<Machine, DrainError>
    decreases entries.len(),
{
    if entries.len() == 0 {
        Ok(m)
    } else {
        match batch_applied(m, entries.drop_last(), leader) {
            Err(e) => Err(e),
            Ok(mid) => entry_applied(mid, entries.last(), leader),
        }
    }
}

/// How many entries of a batch are applied before one stops it.
pub open spec fn applied_count(
    m: Machine,
    entries: Seq<CommittedView>,
    leader: Option<NodeId>,
) -> nat
    decreases entries.len(),
{
    if batch_applied(m, entries, leader) is Ok {
        entries.len()
    } else {
        applied_count(m, entries.drop_last(), leader)
    }
}

/// Whether a batch ends as it should: with every entry applied, or with those
/// before the one that cannot be, and no other. `end` is where the machine
/// stands, but for whether the membership moved.
pub open spec fn batch_ends(
    m: Machine,
    entries: Seq<CommittedView>,
    leader: Option<NodeId>,
    outcome: Result<bool, DrainError>,
    end: Machine,
) -> bool {
    match outcome {
        Ok(moved) => batch_applied(m, entries, leader) == Ok::<_, DrainError>(
            (Machine { moved, ..end }),
        ),
        Err(e) => {
            &&& batch_applied(m, entries, leader) == Err::<Machine, _>(e)
            &&& batch_applied(
                m,
                entries.take(applied_count(m, entries, leader) as int),
                leader,
            ) matches Ok(stands)
            &&& stands == (Machine { moved: stands.moved, ..end })
        },
    }
}

/// The entry that stops a batch is the first that cannot be applied.
proof fn lemma_applied_count(
    m: Machine,
    entries: Seq<CommittedView>,
    leader: Option<NodeId>,
    n: int,
)
    requires
        0 <= n < entries.len(),
        batch_applied(m, entries.take(n), leader) is Ok,
        batch_applied(m, entries.take(n + 1), leader) is Err,
    ensures
        applied_count(m, entries, leader) == n,
    decreases entries.len(),
{
    reveal_with_fuel(applied_count, 2);
    lemma_batch_stops(m, entries, leader, n + 1);
    let front = entries.drop_last();
    if n + 1 < entries.len() {
        assert(front.take(n) =~= entries.take(n));
        assert(front.take(n + 1) =~= entries.take(n + 1));
        lemma_applied_count(m, front, leader, n);
    } else {
        assert(front =~= entries.take(n));
    }
}

/// A batch that stops, stops at one entry: the ones before it are applied, and
/// it is the one that cannot be. Where it cannot be read, the error names it.
pub proof fn law_an_unreadable_entry_stops_the_batch(
    m: Machine,
    entries: Seq<CommittedView>,
    leader: Option<NodeId>,
)
    requires
        batch_applied(m, entries, leader) is Err,
    ensures
        ({
            let n = applied_count(m, entries, leader) as int;
            let e = batch_applied(m, entries, leader)->Err_0;
            &&& n < entries.len()
            &&& batch_applied(m, entries.take(n), leader) matches Ok(stands)
            &&& entry_applied(stands, entries[n], leader) == Err::<Machine, _>(e)
            &&& e matches DrainError::Undecodable { index } ==> index == entries[n].index
        }),
    decreases entries.len(),
{
    let front = entries.drop_last();
    reveal_with_fuel(applied_count, 2);
    if batch_applied(m, front, leader) is Err {
        law_an_unreadable_entry_stops_the_batch(m, front, leader);
        let n = applied_count(m, front, leader) as int;
        assert(front.take(n) =~= entries.take(n));
    } else {
        assert(front =~= entries.take(front.len() as int));
    }
}

/// A drain says that the membership may have moved exactly when an entry of the
/// batch is a membership change.
pub proof fn law_the_membership_moves_with_its_entries(
    m: Machine,
    entries: Seq<CommittedView>,
    leader: Option<NodeId>,
)
    ensures
        batch_applied(m, entries, leader) matches Ok(after) ==> (after.moved <==> m.moved || exists|
            i: int,
        |
            0 <= i < entries.len() && (#[trigger] entries[i]).body is Conf),
    decreases entries.len(),
{
    if entries.len() > 0 && batch_applied(m, entries, leader) is Ok {
        let front = entries.drop_last();
        law_the_membership_moves_with_its_entries(m, front, leader);
        let after = batch_applied(m, entries, leader)->Ok_0;
        let mid = batch_applied(m, front, leader)->Ok_0;
        if mid.moved && !m.moved {
            let i = choose|i: int| 0 <= i < front.len() && (#[trigger] front[i]).body is Conf;
            assert(entries[i].body is Conf);
        }
        if after.moved && !mid.moved {
            assert(entries[entries.len() - 1].body is Conf);
        }
        if exists|i: int| 0 <= i < entries.len() && (#[trigger] entries[i]).body is Conf {
            let i = choose|i: int| 0 <= i < entries.len() && (#[trigger] entries[i]).body is Conf;
            if i < front.len() {
                assert(front[i].body is Conf);
            }
        }
    }
}

/// What stops a batch stops every longer one.
proof fn lemma_batch_stops(
    m: Machine,
    entries: Seq<CommittedView>,
    leader: Option<NodeId>,
    n: int,
)
    requires
        0 <= n <= entries.len(),
        batch_applied(m, entries.take(n), leader) is Err,
    ensures
        batch_applied(m, entries, leader) == batch_applied(m, entries.take(n), leader),
    decreases entries.len() - n,
{
    if n < entries.len() {
        assert(entries.take(n + 1).drop_last() =~= entries.take(n));
        lemma_batch_stops(m, entries, leader, n + 1);
    } else {
        assert(entries.take(n) =~= entries);
    }
}

impl Group {
    /// Applies one committed membership change.
    fn apply_conf_entry(
        &mut self,
        entry: &Committed,
        change: &Option<ConfChange>,
        leader: Option<NodeId>,
        replies: &mut Vec<Reply>,
    )
        requires
            old(self).wf(),
            entry.body == Body::Conf(*change),
        ensures
            final(self).wf(),
            final(self).engine.follows(&old(self).engine),
            entry_applied(
                (Machine { replies: old(replies)@, ..machine_of(*old(self)) }),
                entry@,
                leader,
            ) == Ok::<_, DrainError>(
                (Machine { replies: final(replies)@, moved: true, ..machine_of(*final(self)) }),
            ),
            same_but_machine(*old(self), *final(self)),
    {
        proof {
            lemma_follows_self(&self.engine);
        }
        match change {
            Some(change) => {
                match apply_conf(&mut self.engine, change) {
                    ConfEffect::Learned(found) => {
                        let ghost known = self.endpoints@;
                        crate::driver::extend_book(&mut self.endpoints, &found);
                        proof {
                            crate::driver::lemma_book_union(known, found@);
                            if change.context@.len() == 0 {
                                assert(book(known).union_prefer_right(Map::empty()) =~= book(known));
                            }
                        }
                    },
                    ConfEffect::Forgot(id) => {
                        let ghost known = self.endpoints@;
                        self.endpoints.remove(&id);
                        assert(book(self.endpoints@) =~= book(known).remove(id));
                    },
                }
            },
            None => {},
        }
        if self.applied_index < entry.index {
            self.applied_index = entry.index;
        }
        match self.pending_conf.remove(&entry.index) {
            Some(waiting) => {
                let reply = if waiting.term == entry.term {
                    AdminReply::Accepted { index: entry.index }
                } else {
                    AdminReply::NotLeader { hint: leader }
                };
                replies.push(Reply { ticket: waiting.ticket, answer: Answer::Admin(reply) });
            },
            None => {
                assert(self.pending_conf@ =~= old(self).pending_conf@.remove(entry.index));
            },
        }
    }

    /// Applies one committed command.
    fn apply_command_entry(
        &mut self,
        entry: &Committed,
        bytes: &Vec<u8>,
        leader: Option<NodeId>,
        replies: &mut Vec<Reply>,
    ) -> (r: Result<(), DrainError>)
        requires
            old(self).wf(),
            entry.body == Body::Command(*bytes),
        ensures
            final(self).wf(),
            final(self).engine.follows(&old(self).engine),
            same_but_machine(*old(self), *final(self)),
            match (
                r,
                entry_applied(
                    (Machine { replies: old(replies)@, ..machine_of(*old(self)) }),
                    entry@,
                    leader,
                ),
            ) {
                (Ok(()), Ok(want)) => want == (Machine {
                    replies: final(replies)@,
                    ..machine_of(*final(self))
                }),
                (Err(e), Err(want)) => {
                    &&& e == want
                    &&& *final(self) == *old(self)
                    &&& final(replies)@ == old(replies)@
                },
                _ => false,
            },
    {
        proof {
            lemma_follows_self(&self.engine);
        }
        let response = match Command::decode(bytes) {
            Err(_) => {
                return Err(DrainError::Undecodable { index: entry.index });
            },
            Ok(None) => ClientReply::Applied,
            Ok(Some(command)) => match apply(&mut self.engine, &command) {
                Err(_) => {
                    return Err(DrainError::Session);
                },
                Ok(response) => reply_from(response),
            },
        };
        if self.applied_index < entry.index {
            self.applied_index = entry.index;
        }
        match self.pending.remove(&entry.index) {
            Some(waiting) => {
                let reply = if waiting.term == entry.term {
                    response
                } else {
                    ClientReply::NotLeader { hint: leader }
                };
                replies.push(Reply { ticket: waiting.ticket, answer: Answer::Client(reply) });
            },
            None => {
                assert(self.pending@ =~= old(self).pending@.remove(entry.index));
            },
        }
        Ok(())
    }

    /// Applies a batch of committed entries to the state machine, and answers
    /// everyone who waited on one of them. Returns the answers, and whether the
    /// group's membership may have moved, or why the batch stopped: then the
    /// entries before are applied and answered, and nothing else is.
    pub fn apply_committed(&mut self, committed: &Vec<Committed>, leader: Option<NodeId>) -> (r: (
        Vec<Reply>,
        Result<bool, DrainError>,
    ))
        requires
            old(self).wf(),
        ensures
            final(self).wf(),
            final(self).engine.follows(&old(self).engine),
            same_but_machine(*old(self), *final(self)),
            batch_ends(
                machine_of(*old(self)),
                committed_views(committed@),
                leader,
                r.1,
                (Machine { replies: r.0@, ..machine_of(*final(self)) }),
            ),
    {
        let ghost start = machine_of(*self);
        let ghost all = committed_views(committed@);
        let mut replies: Vec<Reply> = Vec::new();
        let mut moved = false;
        let mut i: usize = 0;
        proof {
            lemma_follows_self(&self.engine);
            assert(all.take(0) =~= Seq::<CommittedView>::empty());
            assert(start =~= (Machine { replies: replies@, moved, ..machine_of(*self) }));
        }
        while i < committed.len()
            invariant
                i <= committed@.len(),
                all == committed_views(committed@),
                self.wf(),
                self.engine.follows(&old(self).engine),
                same_but_machine(*old(self), *self),
                start == machine_of(*old(self)),
                batch_applied(start, all.take(i as int), leader) == Ok::<_, DrainError>(
                    (Machine { replies: replies@, moved, ..machine_of(*self) }),
                ),
            decreases committed@.len() - i,
        {
            let entry = &committed[i];
            let ghost before = *self;
            proof {
                assert(all.take(i + 1).drop_last() =~= all.take(i as int));
                assert(all.take(i + 1).last() == entry@);
            }
            match &entry.body {
                Body::Conf(change) => {
                    self.apply_conf_entry(entry, change, leader, &mut replies);
                    moved = true;
                },
                Body::Command(bytes) => {
                    match self.apply_command_entry(entry, bytes, leader, &mut replies) {
                        Ok(()) => {},
                        Err(e) => {
                            proof {
                                lemma_batch_stops(start, all, leader, i + 1);
                                lemma_applied_count(start, all, leader, i as int);
                                lemma_follows_trans(
                                    &old(self).engine,
                                    &before.engine,
                                    &self.engine,
                                );
                            }
                            return (replies, Err(e));
                        },
                    }
                },
            }
            i += 1;
            proof {
                lemma_follows_trans(&old(self).engine, &before.engine, &self.engine);
            }
        }
        assert(all.take(i as int) =~= all);
        (replies, Ok(moved))
    }
}

/// Everything that applying entries does not touch is the same.
pub open spec fn same_but_machine(before: Group, after: Group) -> bool {
    after == (Group {
        engine: after.engine,
        endpoints: after.endpoints,
        applied_index: after.applied_index,
        pending: after.pending,
        pending_conf: after.pending_conf,
        ..before
    })
}

/// `data` is the image of `state` at a log boundary: its pairs in key order.
pub open spec fn is_image_of(
    data: Seq<u8>,
    index: LogIndex,
    term: Term,
    state: Map<Seq<u8>, Seq<u8>>,
) -> bool {
    exists|pairs: Seq<(Seq<u8>, Seq<u8>)>|
        keys_increase(pairs) && pairs_map(pairs) == state && data == #[trigger] image(
            index,
            term,
            pairs,
        )
}

/// Whether the log past the last snapshot is long enough to be replaced by a
/// state image.
pub open spec fn due(group: Group) -> bool {
    &&& group.applied_index != group.snapshot_index
    &&& group.applied_index >= group.snapshot_index.saturating_add(group.snapshot_threshold)
}

impl Group {
    /// Whether the log past the last snapshot is long enough to be replaced by
    /// a state image.
    pub fn snapshot_due(&self) -> (r: bool)
        ensures
            r == due(*self),
    {
        self.applied_index != self.snapshot_index && self.applied_index
            >= self.snapshot_index.saturating_add(self.snapshot_threshold)
    }

    /// A state image of everything applied so far, at the term of the last
    /// entry applied.
    ///
    /// The state machine is made durable first: once the core takes the image
    /// it drops the very entries that could rebuild the state.
    fn image(&mut self, term: Term, config: &ClusterConfig) -> (snap: Snapshot)
        requires
            old(self).wf(),
        ensures
            final(self).wf(),
            *final(self) == (Group { engine: final(self).engine, ..*old(self) }),
            final(self).engine@ == old(self).engine@,
            final(self).engine.queue() == owed(old(self).engine),
            !final(self).engine.unflushed(),
            final(self).engine.unpublished() == old(self).engine.unpublished(),
            snap.last_included_index == old(self).applied_index,
            snap.last_included_term == term,
            snap.config@ == config@,
            is_image_of(snap.data@, old(self).applied_index, term, old(self).engine@),
    {
        self.engine.sync();
        let pairs = self.engine.scan();
        let data = snapshot::encode(self.applied_index, term, &pairs);
        proof {
            snapshot::lemma_sort_sorted(pairs_view(pairs@));
            assert(data@ == image(self.applied_index, term, pairs_view(pairs@)));
        }
        Snapshot {
            last_included_index: self.applied_index,
            last_included_term: term,
            data,
            config: config.copy(),
        }
    }

    /// Takes every key out of the state machine.
    fn clear_state(&mut self)
        requires
            old(self).wf(),
        ensures
            final(self).wf(),
            *final(self) == (Group { engine: final(self).engine, ..*old(self) }),
            final(self).engine@ == Map::<Seq<u8>, Seq<u8>>::empty(),
            final(self).engine.follows(&old(self).engine),
    {
        let pairs = self.engine.scan();
        let ghost all = pairs_view(pairs@);
        let mut i: usize = 0;
        proof {
            lemma_follows_self(&self.engine);
            assert forall|k: Seq<u8>| #[trigger] self.engine@.contains_key(k) implies exists|
                j: int,
            |
                0 <= j < all.len() && #[trigger] all[j].0 == k by {
                lemma_pairs_map_dom(all, k);
            }
        }
        while i < pairs.len()
            invariant
                i <= pairs@.len(),
                all == pairs_view(pairs@),
                keys_increase(all),
                self.wf(),
                *self == (Group { engine: self.engine, ..*old(self) }),
                self.engine.follows(&old(self).engine),
                forall|k: Seq<u8>| #[trigger]
                    self.engine@.contains_key(k) ==> exists|j: int|
                        i <= j < all.len() && #[trigger] all[j].0 == k,
            decreases pairs@.len() - i,
        {
            let ghost mid = self.engine;
            self.engine.delete(&pairs[i].0);
            proof {
                assert(all[i as int].0 == pairs@[i as int].0@);
                lemma_follows_step(
                    &old(self).engine,
                    &mid,
                    &self.engine,
                    Edit::Delete(pairs@[i as int].0@),
                );
                assert forall|k: Seq<u8>| #[trigger] self.engine@.contains_key(k) implies exists|
                    j: int,
                |
                    i + 1 <= j < all.len() && #[trigger] all[j].0 == k by {
                    assert(mid@.contains_key(k));
                    let j = choose|j: int| i <= j < all.len() && #[trigger] all[j].0 == k;
                    assert(j != i);
                }
            }
            i += 1;
        }
        assert(self.engine@ =~= Map::<Seq<u8>, Seq<u8>>::empty());
    }

    /// Puts a list of pairs into the state machine.
    fn fill_state(&mut self, pairs: &Vec<(Vec<u8>, Vec<u8>)>)
        requires
            old(self).wf(),
            old(self).engine@ == Map::<Seq<u8>, Seq<u8>>::empty(),
        ensures
            final(self).wf(),
            *final(self) == (Group { engine: final(self).engine, ..*old(self) }),
            final(self).engine@ == pairs_map(pairs_view(pairs@)),
            final(self).engine.follows(&old(self).engine),
    {
        let ghost all = pairs_view(pairs@);
        let mut i: usize = 0;
        proof {
            lemma_follows_self(&self.engine);
            assert(all.take(0) =~= Seq::<(Seq<u8>, Seq<u8>)>::empty());
        }
        while i < pairs.len()
            invariant
                i <= pairs@.len(),
                all == pairs_view(pairs@),
                self.wf(),
                *self == (Group { engine: self.engine, ..*old(self) }),
                self.engine.follows(&old(self).engine),
                self.engine@ == pairs_map(all.take(i as int)),
            decreases pairs@.len() - i,
        {
            let ghost mid = self.engine;
            self.engine.put(&pairs[i].0, &pairs[i].1);
            proof {
                lemma_follows_step(
                    &old(self).engine,
                    &mid,
                    &self.engine,
                    Edit::Put(pairs@[i as int].0@, pairs@[i as int].1@),
                );
                assert(all.take(i + 1).drop_last() =~= all.take(i as int));
                assert(all.take(i + 1).last() == all[i as int]);
            }
            i += 1;
        }
        assert(all.take(i as int) =~= all);
    }

    /// Replaces the state machine with a received image, wholesale: keys the
    /// image drops stay dropped, and the sessions and the address book ride
    /// along as ordinary pairs. An image that cannot be read, or is of another
    /// boundary than its log's, changes nothing.
    pub fn restore_snapshot(&mut self, snap: &Snapshot) -> (r: Result<(), DrainError>)
        requires
            old(self).wf(),
        ensures
            final(self).wf(),
            final(self).engine.follows(&old(self).engine),
            match restored(snap@) {
                Err(e) => r == Err::<(), _>(e) && *final(self) == *old(self),
                Ok(state) => {
                    &&& r is Ok
                    &&& final(self).engine@ == state
                    &&& !final(self).engine.unflushed()
                    &&& book(final(self).endpoints@) == endpoints_of(state)
                    &&& final(self).applied_index == max_index(
                        old(self).applied_index,
                        snap.last_included_index,
                    )
                    &&& final(self).snapshot_index == max_index(
                        old(self).snapshot_index,
                        snap.last_included_index,
                    )
                    &&& *final(self) == (Group {
                        engine: final(self).engine,
                        endpoints: final(self).endpoints,
                        applied_index: final(self).applied_index,
                        snapshot_index: final(self).snapshot_index,
                        ..*old(self)
                    })
                },
            },
    {
        proof {
            lemma_follows_self(&self.engine);
        }
        let image = match snapshot::decode(&snap.data) {
            Ok(image) => image,
            Err(error) => {
                return Err(DrainError::Image { index: snap.last_included_index, error });
            },
        };
        if image.last_included_index != snap.last_included_index || image.last_included_term
            != snap.last_included_term {
            return Err(
                DrainError::Boundary {
                    image_index: image.last_included_index,
                    image_term: image.last_included_term,
                    log_index: snap.last_included_index,
                    log_term: snap.last_included_term,
                },
            );
        }
        self.clear_state();
        let ghost cleared = self.engine;
        self.fill_state(&image.pairs);
        let ghost filled = self.engine;
        self.engine.sync();
        proof {
            lemma_follows_trans(&old(self).engine, &cleared, &filled);
            lemma_follows_trans(&old(self).engine, &filled, &self.engine);
        }
        self.endpoints = endpoints(&self.engine);
        if self.applied_index < snap.last_included_index {
            self.applied_index = snap.last_included_index;
        }
        if self.snapshot_index < snap.last_included_index {
            self.snapshot_index = snap.last_included_index;
        }
        Ok(())
    }
}

/// The state that a received snapshot stands for, or why it is refused.
pub open spec fn restored(snap: SnapshotView) -> Result<Map<Seq<u8>, Seq<u8>>, DrainError> {
    match decoded(snap.data) {
        Err(error) => Err(DrainError::Image { index: snap.index, error }),
        Ok((index, term, pairs)) => if index != snap.index || term != snap.term {
            Err(
                DrainError::Boundary {
                    image_index: index,
                    image_term: term,
                    log_index: snap.index,
                    log_term: snap.term,
                },
            )
        } else {
            Ok(pairs_map(pairs))
        },
    }
}

/// What a snapshot carries over: the image that one replica takes of its state
/// is restored by another as that state, sessions and address book included.
/// Keys and values of four gigabytes and more do not fit an image.
pub proof fn law_snapshot_carries_the_state(snap: SnapshotView, state: Map<Seq<u8>, Seq<u8>>)
    requires
        is_image_of(snap.data, snap.index, snap.term, state),
        state.len() <= u64::MAX,
        forall|k: Seq<u8>| #[trigger]
            state.contains_key(k) ==> k.len() <= u32::MAX && state[k].len() <= u32::MAX,
    ensures
        restored(snap) == Ok::<_, DrainError>(state),
{
    let pairs = choose|pairs: Seq<(Seq<u8>, Seq<u8>)>|
        keys_increase(pairs) && pairs_map(pairs) == state && snap.data == #[trigger] image(
            snap.index,
            snap.term,
            pairs,
        );
    assert forall|i: int|
        #![trigger pairs[i]]
        0 <= i < pairs.len() implies pairs[i].0.len() <= u32::MAX && pairs[i].1.len()
        <= u32::MAX by {
        lemma_pairs_map_at(pairs, i);
    }
    lemma_listing_len(pairs);
    snapshot::law_round_trip(snap.index, snap.term, pairs);
}

/// A sorted listing is as long as the map it spells is large.
proof fn lemma_listing_len(pairs: Seq<(Seq<u8>, Seq<u8>)>)
    requires
        keys_increase(pairs),
    ensures
        pairs_map(pairs).dom().finite(),
        pairs_map(pairs).len() == pairs.len(),
    decreases pairs.len(),
{
    if pairs.len() > 0 {
        let head = pairs.drop_last();
        let last = pairs.last();
        assert(keys_increase(head)) by {
            assert forall|i: int, j: int|
                #![trigger head[i], head[j]]
                0 <= i < j < head.len() implies lex_lt(head[i].0, head[j].0) by {
                assert(lex_lt(pairs[i].0, pairs[j].0));
            }
        }
        lemma_listing_len(head);
        lemma_pairs_map_dom(head, last.0);
        if pairs_map(head).contains_key(last.0) {
            let i = choose|i: int| 0 <= i < head.len() && #[trigger] head[i].0 == last.0;
            assert(lex_lt(pairs[i].0, pairs[pairs.len() - 1].0));
            lemma_lex_irreflexive(last.0);
        }
        assert(pairs_map(pairs).dom() =~= pairs_map(head).dom().insert(last.0));
    }
}

/// A read after a round of confirmations: the latest that carries its token
/// says the index it may be served at.
pub open spec fn confirmed_by(read: PendingRead, token: u64, states: Seq<ReadState>) -> PendingRead
    decreases states.len(),
{
    if states.len() == 0 {
        read
    } else if states.last().token == token {
        PendingRead { confirmed_at: Some(states.last().index), ..read }
    } else {
        confirmed_by(read, token, states.drop_last())
    }
}

/// Reads after a round of confirmations.
pub open spec fn reads_confirmed(reads: Map<u64, PendingRead>, states: Seq<ReadState>) -> Map<
    u64,
    PendingRead,
> {
    reads.map_entries(|token: u64, read: PendingRead| confirmed_by(read, token, states))
}

/// The reads whose confirmed index is visible to readers.
pub open spec fn ready_reads(reads: Map<u64, PendingRead>, visible: LogIndex) -> Set<u64> {
    reads.dom().filter(
        |token: u64| reads[token].confirmed_at matches Some(index) && index <= visible,
    )
}

/// What is read for one of them.
pub open spec fn job_of(group: GroupId, read: PendingRead) -> (GroupId, Seq<u8>, LogIndex, Ticket) {
    (group, read.key@, read.confirmed_at->0, read.ticket)
}

/// Read jobs as mathematical values.
pub open spec fn job_views(jobs: Seq<ReadJob>) -> Seq<(GroupId, Seq<u8>, LogIndex, Ticket)> {
    jobs.map_values(|job: ReadJob| job@)
}

/// Whether a wait is over: past its deadline, or whatever the deadline.
pub open spec fn overdue(deadline: Nanos, now: Option<Nanos>) -> bool {
    now matches Some(now) ==> deadline <= now
}

/// Whose wait for an entry is over.
pub open spec fn overdue_entries(waiting: Map<LogIndex, Pending>, now: Option<Nanos>) -> Set<u64> {
    waiting.dom().filter(|index: u64| overdue(waiting[index].deadline, now))
}

/// Whose wait for a read is over.
pub open spec fn overdue_reads(waiting: Map<u64, PendingRead>, now: Option<Nanos>) -> Set<u64> {
    waiting.dom().filter(|token: u64| overdue(waiting[token].deadline, now))
}

/// Everyone who waits on a group: writers by their entry's index, readers by
/// their token, operators by their entry's index.
#[verifier::ext_equal]
pub struct Waiting {
    pub writers: Map<LogIndex, Pending>,
    pub readers: Map<u64, PendingRead>,
    pub operators: Map<LogIndex, Pending>,
}

/// Everyone who waits on a group.
pub open spec fn waiting_of(group: Group) -> Waiting {
    Waiting {
        writers: group.pending@,
        readers: group.pending_reads@,
        operators: group.pending_conf@,
    }
}

/// What everyone whose wait is over is told: to ask the leader. Writers first,
/// then readers, then operators, each in the order they came.
pub open spec fn farewells(w: Waiting, now: Option<Nanos>, leader: Option<NodeId>) -> Seq<Reply> {
    in_order(overdue_entries(w.writers, now)).map_values(
        |index: u64| client_redirect(w.writers[index].ticket, leader),
    ) + in_order(overdue_reads(w.readers, now)).map_values(
        |token: u64| client_redirect(w.readers[token].ticket, leader),
    ) + in_order(overdue_entries(w.operators, now)).map_values(
        |index: u64| admin_redirect(w.operators[index].ticket, leader),
    )
}

/// Who still waits once everyone whose wait is over was told so.
pub open spec fn staying(w: Waiting, now: Option<Nanos>) -> Waiting {
    Waiting {
        writers: w.writers.remove_keys(overdue_entries(w.writers, now)),
        readers: w.readers.remove_keys(overdue_reads(w.readers, now)),
        operators: w.operators.remove_keys(overdue_entries(w.operators, now)),
    }
}

/// Nothing but who waits differs.
pub open spec fn same_but_waiting(before: Group, after: Group) -> bool {
    after == (Group {
        pending: after.pending,
        pending_reads: after.pending_reads,
        pending_conf: after.pending_conf,
        ..before
    })
}

fn is_overdue(deadline: Nanos, now: Option<Nanos>) -> (r: bool)
    ensures
        r == overdue(deadline, now),
{
    match now {
        Some(now) => deadline <= now,
        None => true,
    }
}

/// Takes everyone out of `waiting` whose wait is over, in order.
fn take_overdue(waiting: &mut BTreeMap<LogIndex, Pending>, now: Option<Nanos>) -> (gone: Vec<
    Pending,
>)
    ensures
        gone@ == in_order(overdue_entries(old(waiting)@, now)).map_values(
            |index: u64| old(waiting)@[index],
        ),
        final(waiting)@ == old(waiting)@.remove_keys(overdue_entries(old(waiting)@, now)),
{
    let ghost all = waiting@;
    let ghost over = |index: u64| overdue(all[index].deadline, now);
    let keys = keys_of(waiting);
    let mut chosen: Vec<u64> = Vec::new();
    let mut i: usize = 0;
    assert(keys@.take(0) =~= Seq::<u64>::empty());
    while i < keys.len()
        invariant
            i <= keys@.len(),
            keys@.to_set() == all.dom(),
            waiting@ == all,
            over == (|index: u64| overdue(all[index].deadline, now)),
            chosen@ == picked(keys@.take(i as int), over),
        decreases keys@.len() - i,
    {
        let key: u64 = keys[i];
        assert(keys@.to_set().contains(key));
        assert(keys@.take(i + 1).drop_last() =~= keys@.take(i as int));
        match waiting.get(&key) {
            Some(one) => {
                if is_overdue(one.deadline, now) {
                    chosen.push(key);
                }
            },
            None => {},
        }
        i += 1;
    }
    proof {
        assert(keys@.take(i as int) =~= keys@);
        lemma_picked_in_order(keys@, all.dom(), over);
        assert(overdue_entries(all, now) == all.dom().filter(over));
    }
    take_keys(waiting, &chosen)
}

/// Takes every read out of `waiting` whose wait is over, in order.
fn take_overdue_reads(waiting: &mut BTreeMap<u64, PendingRead>, now: Option<Nanos>) -> (gone: Vec<
    PendingRead,
>)
    ensures
        gone@ == in_order(overdue_reads(old(waiting)@, now)).map_values(
            |token: u64| old(waiting)@[token],
        ),
        final(waiting)@ == old(waiting)@.remove_keys(overdue_reads(old(waiting)@, now)),
{
    let ghost all = waiting@;
    let ghost over = |token: u64| overdue(all[token].deadline, now);
    let keys = keys_of(waiting);
    let mut chosen: Vec<u64> = Vec::new();
    let mut i: usize = 0;
    assert(keys@.take(0) =~= Seq::<u64>::empty());
    while i < keys.len()
        invariant
            i <= keys@.len(),
            keys@.to_set() == all.dom(),
            waiting@ == all,
            over == (|token: u64| overdue(all[token].deadline, now)),
            chosen@ == picked(keys@.take(i as int), over),
        decreases keys@.len() - i,
    {
        let key: u64 = keys[i];
        assert(keys@.to_set().contains(key));
        assert(keys@.take(i + 1).drop_last() =~= keys@.take(i as int));
        match waiting.get(&key) {
            Some(one) => {
                if is_overdue(one.deadline, now) {
                    chosen.push(key);
                }
            },
            None => {},
        }
        i += 1;
    }
    proof {
        assert(keys@.take(i as int) =~= keys@);
        lemma_picked_in_order(keys@, all.dom(), over);
        assert(overdue_reads(all, now) == all.dom().filter(over));
    }
    take_keys(waiting, &chosen)
}

impl Group {
    /// Whether a batch was absorbed that readers do not see yet.
    pub fn needs_publish(&self) -> (r: bool)
        ensures
            r == self.engine.unpublished(),
    {
        self.engine.has_unpublished()
    }

    /// Makes everything applied readable, if it can be: `swapped` says whether
    /// the copy that was written could be swapped in. It cannot while a reader
    /// is still in the copy it would replace; then what is visible does not
    /// move, a confirmed read waits, and the next drain tries again.
    pub fn publish(&mut self, swapped: bool)
        requires
            old(self).wf(),
        ensures
            final(self).wf(),
            final(self).engine@ == old(self).engine@,
            final(self).engine.queue() == old(self).engine.queue(),
            final(self).engine.unflushed() == old(self).engine.unflushed(),
            *final(self) == (Group {
                engine: final(self).engine,
                visible: final(self).visible,
                ..*old(self)
            }),
            if old(self).engine.unpublished() && !swapped {
                *final(self) == *old(self)
            } else {
                // Readers see everything that is applied.
                &&& final(self).visible.index == old(self).applied_index
                &&& !final(self).engine.unpublished()
            },
    {
        if self.engine.has_unpublished() && !swapped {
            return;
        }
        self.engine.published();
        self.visible.publish(self.applied_index);
    }

    /// Takes in the reads that a quorum confirmed. A confirmation is also the
    /// only evidence this process gets that it still leads, so it renews the
    /// lease.
    pub fn confirm_reads(&mut self, states: &Vec<ReadState>, now: Nanos)
        requires
            old(self).wf(),
            now < MAX_NANOS,
        ensures
            final(self).wf(),
            final(self).pending_reads@ == reads_confirmed(old(self).pending_reads@, states@),
            final(self).lease_until == if states@.len() > 0 {
                Some((now + old(self).lease_duration) as u128)
            } else {
                old(self).lease_until
            },
            *final(self) == (Group {
                pending_reads: final(self).pending_reads,
                lease_until: final(self).lease_until,
                ..*old(self)
            }),
    {
        if states.len() > 0 {
            self.lease_until = Some(now + self.lease_duration);
        }
        let ghost reads = self.pending_reads@;
        let mut i: usize = 0;
        assert(states@.take(0) =~= Seq::<ReadState>::empty());
        assert(reads_confirmed(reads, states@.take(0)) =~= reads);
        while i < states.len()
            invariant
                i <= states@.len(),
                reads == old(self).pending_reads@,
                self.wf(),
                self.pending_reads@ == reads_confirmed(reads, states@.take(i as int)),
                self.lease_until == if states@.len() > 0 {
                    Some((now + old(self).lease_duration) as u128)
                } else {
                    old(self).lease_until
                },
                *self == (Group {
                    pending_reads: self.pending_reads,
                    lease_until: self.lease_until,
                    ..*old(self)
                }),
            decreases states@.len() - i,
        {
            let state = states[i];
            let ghost before = self.pending_reads@;
            match self.pending_reads.remove(&state.token) {
                Some(read) => {
                    let confirmed = PendingRead {
                        key: read.key,
                        ticket: read.ticket,
                        deadline: read.deadline,
                        confirmed_at: Some(state.index),
                    };
                    self.pending_reads.insert(state.token, confirmed);
                },
                None => {},
            }
            i += 1;
            proof {
                let next = states@.take(i as int);
                assert(next.drop_last() =~= states@.take(i - 1));
                assert(next.last() == state);
                assert forall|token: u64| reads.contains_key(token) implies #[trigger]
                    self.pending_reads@[token] == confirmed_by(reads[token], token, next) by {
                    if token == state.token {
                        lemma_confirmed_by(reads[token], token, states@.take(i - 1));
                    }
                }
                assert(self.pending_reads@ =~= reads_confirmed(reads, next));
            }
        }
        assert(states@.take(i as int) =~= states@);
    }

    /// Hands out every read whose confirmed index is visible to readers.
    ///
    /// Visible, not applied: what is applied is in the copy that is written,
    /// and readers are on the other one until it is swapped in. A read served
    /// on what is applied can miss a write that was already acknowledged.
    pub fn serve_ready_reads(&mut self) -> (jobs: Vec<ReadJob>)
        requires
            old(self).wf(),
        ensures
            final(self).wf(),
            job_views(jobs@) == in_order(
                ready_reads(old(self).pending_reads@, old(self).visible.index),
            ).map_values(|token: u64| job_of(old(self).group, old(self).pending_reads@[token])),
            final(self).pending_reads@ == old(self).pending_reads@.remove_keys(
                ready_reads(old(self).pending_reads@, old(self).visible.index),
            ),
            *final(self) == (Group { pending_reads: final(self).pending_reads, ..*old(self) }),
    {
        let visible = self.visible.index();
        let ghost all = self.pending_reads@;
        let ghost ready = |token: u64|
            all[token].confirmed_at matches Some(index) && index <= visible;
        let keys = keys_of(&self.pending_reads);
        let mut chosen: Vec<u64> = Vec::new();
        let mut i: usize = 0;
        assert(keys@.take(0) =~= Seq::<u64>::empty());
        while i < keys.len()
            invariant
                i <= keys@.len(),
                keys@.to_set() == all.dom(),
                self.pending_reads@ == all,
                ready == (|token: u64|
                    all[token].confirmed_at matches Some(index) && index <= visible),
                chosen@ == picked(keys@.take(i as int), ready),
            decreases keys@.len() - i,
        {
            let key: u64 = keys[i];
            assert(keys@.to_set().contains(key));
            assert(keys@.take(i + 1).drop_last() =~= keys@.take(i as int));
            match self.pending_reads.get(&key) {
                Some(read) => match read.confirmed_at {
                    Some(index) => {
                        if index <= visible {
                            chosen.push(key);
                        }
                    },
                    None => {},
                },
                None => {},
            }
            i += 1;
        }
        proof {
            assert(keys@.take(i as int) =~= keys@);
            lemma_picked_in_order(keys@, all.dom(), ready);
            assert(ready_reads(all, visible) == all.dom().filter(ready));
        }
        let mut taken = take_keys(&mut self.pending_reads, &chosen);
        let ghost reads = taken@;
        let mut jobs: Vec<ReadJob> = Vec::new();
        let ghost views = chosen@.map_values(|token: u64| job_of(self.group, all[token]));
        assert forall|j: int| 0 <= j < reads.len() implies (#[trigger] reads[j]).confirmed_at
            is Some by {
            assert(chosen@.to_set().contains(chosen@[j]));
        }
        assert(job_views(jobs@) =~= views.take(0));
        while taken.len() > 0
            invariant
                taken@.len() + jobs@.len() == reads.len(),
                taken@ == reads.skip(jobs@.len() as int),
                reads == chosen@.map_values(|token: u64| all[token]),
                views == chosen@.map_values(|token: u64| job_of(self.group, all[token])),
                forall|j: int| 0 <= j < reads.len() ==> (#[trigger] reads[j]).confirmed_at is Some,
                job_views(jobs@) == views.take(jobs@.len() as int),
            decreases taken@.len(),
        {
            let ghost n = jobs@.len() as int;
            assert(taken@[0] == reads[n]);
            let read = taken.remove(0);
            let at = match read.confirmed_at {
                Some(at) => at,
                None => 0,
            };
            let ghost before = jobs@;
            let job = ReadJob { group: self.group, key: read.key, at, ticket: read.ticket };
            jobs.push(job);
            assert(taken@ =~= reads.skip(n + 1));
            assert(job_views(jobs@) =~= job_views(before).push(job@));
            assert(job_views(jobs@) =~= views.take(n + 1));
        }
        assert(views.take(jobs@.len() as int) =~= views);
        jobs
    }

    /// The learner to make a voter, if one has caught up. It holds every entry
    /// the group has agreed on, so its vote cannot stall a quorum; only the
    /// leader does this, one node at a time. The change carries no address: a
    /// promotion changes a node's standing, not where it lives.
    pub fn promotion(&self, view: &NodeView, matched: &BTreeMap<NodeId, LogIndex>) -> (change:
        Option<ConfChange>)
        ensures
            match change {
                Some(c) => {
                    &&& self.promote_learners
                    &&& view.role == Role::Leader
                    &&& first_caught_up(view.config.learners@, matched@, view.commit_index)
                        == Some(c.node)
                    &&& c.op == ConfOp::Promote
                    &&& c.context@ == Seq::<u8>::empty()
                },
                None => !self.promote_learners || view.role != Role::Leader || first_caught_up(
                    view.config.learners@,
                    matched@,
                    view.commit_index,
                ) is None,
            },
    {
        if !self.promote_learners || view.role != Role::Leader {
            return None;
        }
        let ghost learners = view.config.learners@;
        let mut i: usize = 0;
        assert(learners.skip(0) =~= learners);
        while i < view.config.learners.len()
            invariant
                i <= learners.len(),
                learners == view.config.learners@,
                self.promote_learners,
                view.role == Role::Leader,
                first_caught_up(learners, matched@, view.commit_index) == first_caught_up(
                    learners.skip(i as int),
                    matched@,
                    view.commit_index,
                ),
            decreases learners.len() - i,
        {
            let id: NodeId = view.config.learners[i];
            assert(learners.skip(i as int).skip(1) =~= learners.skip(i + 1));
            let caught_up = match matched.get(&id) {
                Some(index) => *index >= view.commit_index,
                None => false,
            };
            if caught_up {
                return Some(ConfChange { op: ConfOp::Promote, node: id, context: Vec::new() });
            }
            i += 1;
        }
        None
    }

    /// Gives up on everyone whose wait is over, and tells them to ask the
    /// leader.
    fn give_up(&mut self, now: Option<Nanos>, leader: Option<NodeId>) -> (replies: Vec<Reply>)
        requires
            old(self).wf(),
        ensures
            final(self).wf(),
            replies@ == farewells(waiting_of(*old(self)), now, leader),
            waiting_of(*final(self)) == staying(waiting_of(*old(self)), now),
            same_but_waiting(*old(self), *final(self)),
    {
        let mut replies: Vec<Reply> = Vec::new();
        let writers = take_overdue(&mut self.pending, now);
        let ghost first = writers@.map_values(|p: Pending| client_redirect(p.ticket, leader));
        let mut i: usize = 0;
        assert(replies@ =~= first.take(0));
        while i < writers.len()
            invariant
                i <= writers@.len(),
                first == writers@.map_values(|p: Pending| client_redirect(p.ticket, leader)),
                replies@ == first.take(i as int),
            decreases writers@.len() - i,
        {
            replies.push(
                Reply {
                    ticket: writers[i].ticket,
                    answer: Answer::Client(ClientReply::NotLeader { hint: leader }),
                },
            );
            i += 1;
            assert(replies@ =~= first.take(i as int));
        }
        assert(first.take(i as int) =~= first);
        let readers = take_overdue_reads(&mut self.pending_reads, now);
        let ghost second = readers@.map_values(|p: PendingRead| client_redirect(p.ticket, leader));
        let mut i: usize = 0;
        assert(replies@ =~= first + second.take(0));
        while i < readers.len()
            invariant
                i <= readers@.len(),
                second == readers@.map_values(|p: PendingRead| client_redirect(p.ticket, leader)),
                replies@ == first + second.take(i as int),
            decreases readers@.len() - i,
        {
            replies.push(
                Reply {
                    ticket: readers[i].ticket,
                    answer: Answer::Client(ClientReply::NotLeader { hint: leader }),
                },
            );
            i += 1;
            assert(replies@ =~= first + second.take(i as int));
        }
        assert(second.take(i as int) =~= second);
        let operators = take_overdue(&mut self.pending_conf, now);
        let ghost third = operators@.map_values(|p: Pending| admin_redirect(p.ticket, leader));
        let mut i: usize = 0;
        assert(replies@ =~= first + second + third.take(0));
        while i < operators.len()
            invariant
                i <= operators@.len(),
                third == operators@.map_values(|p: Pending| admin_redirect(p.ticket, leader)),
                replies@ == first + second + third.take(i as int),
            decreases operators@.len() - i,
        {
            replies.push(
                Reply {
                    ticket: operators[i].ticket,
                    answer: Answer::Admin(AdminReply::NotLeader { hint: leader }),
                },
            );
            i += 1;
            assert(replies@ =~= first + second + third.take(i as int));
        }
        assert(third.take(i as int) =~= third);
        proof {
            let w = waiting_of(*old(self));
            assert(first =~= in_order(overdue_entries(w.writers, now)).map_values(
                |index: u64| client_redirect(w.writers[index].ticket, leader),
            ));
            assert(second =~= in_order(overdue_reads(w.readers, now)).map_values(
                |token: u64| client_redirect(w.readers[token].ticket, leader),
            ));
            assert(third =~= in_order(overdue_entries(w.operators, now)).map_values(
                |index: u64| admin_redirect(w.operators[index].ticket, leader),
            ));
        }
        replies
    }
}

/// A confirmation replaces an earlier one of the same read.
proof fn lemma_confirmed_by(read: PendingRead, token: u64, states: Seq<ReadState>)
    ensures
        confirmed_by(read, token, states) == (PendingRead {
            confirmed_at: confirmed_by(read, token, states).confirmed_at,
            ..read
        }),
    decreases states.len(),
{
    if states.len() > 0 {
        lemma_confirmed_by(read, token, states.drop_last());
    }
}

/// The first of `learners` that holds everything up to `commit`.
pub open spec fn first_caught_up(
    learners: Seq<NodeId>,
    matched: Map<NodeId, LogIndex>,
    commit: LogIndex,
) -> Option<NodeId>
    decreases learners.len(),
{
    if learners.len() == 0 {
        None
    } else if matched.contains_key(learners[0]) && matched[learners[0]] >= commit {
        Some(learners[0])
    } else {
        first_caught_up(learners.skip(1), matched, commit)
    }
}

/// When the commit index was last seen to move.
pub open spec fn commit_noted(group: Group, commit: LogIndex, now: Nanos) -> (LogIndex, Nanos) {
    if commit > group.commit_seen {
        (commit, now)
    } else {
        (group.commit_seen, group.commit_moved_at)
    }
}

/// Whether the requests past their deadline are sent elsewhere at this moment.
pub open spec fn sends_away(group: Group, view: NodeView, now: Nanos) -> bool {
    expiry_of(
        view.role == Role::Leader,
        now.saturating_sub(commit_noted(group, view.commit_index, now).1),
        group.request_timeout,
    ) == Expiry::Redirect
}

impl Group {
    /// Answers everyone who waits, if this node no longer leads: nothing will
    /// commit or confirm under it, and an answer now beats a deadline.
    pub fn dismiss_if_deposed(&mut self, view: &NodeView) -> (replies: Vec<Reply>)
        requires
            old(self).wf(),
        ensures
            final(self).wf(),
            same_but_waiting(*old(self), *final(self)),
            if view.role != Role::Leader {
                &&& replies@ == farewells(waiting_of(*old(self)), None, view.leader)
                &&& waiting_of(*final(self)) == staying(waiting_of(*old(self)), None)
            } else {
                &&& replies@ == Seq::<Reply>::empty()
                &&& *final(self) == *old(self)
            },
    {
        if view.role != Role::Leader {
            self.give_up(None, view.leader)
        } else {
            Vec::new()
        }
    }

    /// Gives up on requests that have waited too long.
    ///
    /// A partitioned leader still believes it leads: what it accepts never
    /// commits, what it starts never confirms, and it has no way to learn so.
    /// One that is merely behind keeps committing, and its clients wait.
    pub fn expire_stale_requests(&mut self, view: &NodeView, now: Nanos) -> (replies: Vec<Reply>)
        requires
            old(self).wf(),
        ensures
            final(self).wf(),
            (final(self).commit_seen, final(self).commit_moved_at) == commit_noted(
                *old(self),
                view.commit_index,
                now,
            ),
            same_but_waiting(
                (Group {
                    commit_seen: final(self).commit_seen,
                    commit_moved_at: final(self).commit_moved_at,
                    ..*old(self)
                }),
                *final(self),
            ),
            if sends_away(*old(self), *view, now) {
                &&& replies@ == farewells(waiting_of(*old(self)), Some(now), view.leader)
                &&& waiting_of(*final(self)) == staying(waiting_of(*old(self)), Some(now))
            } else {
                &&& replies@ == Seq::<Reply>::empty()
                &&& waiting_of(*final(self)) == waiting_of(*old(self))
            },
    {
        if view.commit_index > self.commit_seen {
            self.commit_seen = view.commit_index;
            self.commit_moved_at = now;
        }
        let leading = view.role == Role::Leader;
        match expiry_decision(
            leading,
            now.saturating_sub(self.commit_moved_at),
            self.request_timeout,
        ) {
            Expiry::Wait => Vec::new(),
            Expiry::Redirect => self.give_up(Some(now), view.leader),
        }
    }
}

/// What a group's core has ready: what to send, what to apply, a snapshot that
/// replaces the state, and the reads a quorum confirmed.
#[derive(Debug)]
pub struct Ready<M> {
    pub messages: Vec<(NodeId, M)>,
    pub committed: Vec<Committed>,
    pub snapshot: Option<Snapshot>,
    pub read_states: Vec<ReadState>,
}

/// A drain whose log may not be durable yet. Nothing leaves the process until
/// it is: the messages come out of [`Unflushed::release`] alone, and whatever is
/// answered comes after.
#[derive(Debug)]
pub struct Unsynced<M> {
    messages: Vec<(NodeId, M)>,
    committed: Vec<Committed>,
    snapshot: Option<Snapshot>,
    read_states: Vec<ReadState>,
}

/// A drain whose log is on its way to the disk.
#[derive(Debug)]
pub struct Unflushed<M> {
    messages: Vec<(NodeId, M)>,
    committed: Vec<Committed>,
    snapshot: Option<Snapshot>,
    read_states: Vec<ReadState>,
}

/// A drain whose messages are on their way, with the entries still to apply.
#[derive(Debug)]
pub struct Unapplied {
    committed: Vec<Committed>,
    snapshot: Option<Snapshot>,
    read_states: Vec<ReadState>,
}

/// A drain whose entries are applied, before it is asked whether the log past
/// the last snapshot has grown long enough.
#[derive(Debug)]
pub struct Unimaged {
    snapshot: Option<Snapshot>,
    read_states: Vec<ReadState>,
    moved: bool,
}

/// What an applied drain does next.
#[derive(Debug)]
pub enum Imaging {
    NotDue(Unsettled),
    Due(ImageDue),
}

/// A drain that has a state image to make.
#[derive(Debug)]
pub struct ImageDue {
    rest: Unsettled,
}

/// A drain that has made an image, of a state that is on its way to the disk.
#[derive(Debug)]
pub struct Unwritten {
    image: Snapshot,
    rest: Unsettled,
}

/// A drain whose image the core is asked to take.
#[derive(Debug)]
pub struct Untaken {
    index: LogIndex,
    rest: Unsettled,
}

/// A drain whose entries are applied and whose own image is taken, with a
/// received snapshot still to install.
#[derive(Debug)]
pub struct Unsettled {
    snapshot: Option<Snapshot>,
    read_states: Vec<ReadState>,
    moved: bool,
}

/// A drain whose state machine stands, with readers still on the copy before.
#[derive(Debug)]
pub struct Unpublished {
    read_states: Vec<ReadState>,
    moved: bool,
}

/// What leaves the process.
#[derive(Debug)]
pub struct Outgoing<M> {
    /// The answer to the call that started this drain.
    pub answer: Option<M>,
    /// Everything else, to peers there is a link to.
    pub sends: Vec<(NodeId, M)>,
}

/// What a drain ends in.
#[derive(Debug)]
pub struct Finished {
    pub jobs: Vec<ReadJob>,
    /// A membership change to propose.
    pub promotion: Option<ConfChange>,
    pub replies: Vec<Reply>,
    /// Whether the group's membership may have moved: the cue to bring the
    /// peer links in line with it.
    pub membership_moved: bool,
}

/// Where the first message to `to` stands, or the end.
pub open spec fn first_to<M>(messages: Seq<(NodeId, M)>, to: NodeId) -> int
    decreases messages.len(),
{
    if messages.len() == 0 || messages[0].0 == to {
        0
    } else {
        1 + first_to(messages.skip(1), to)
    }
}

/// The messages to peers there is a link to, in order.
pub open spec fn linked_only<M>(messages: Seq<(NodeId, M)>, linked: Set<NodeId>) -> Seq<(NodeId, M)>
    decreases messages.len(),
{
    if messages.len() == 0 {
        Seq::empty()
    } else {
        let before = linked_only(messages.drop_last(), linked);
        if linked.contains(messages.last().0) {
            before.push(messages.last())
        } else {
            before
        }
    }
}

/// Whether the call that `from` made is answered by one of the messages.
pub open spec fn answers<M>(messages: Seq<(NodeId, M)>, from: Option<NodeId>) -> bool {
    from matches Some(f) && first_to(messages, f) < messages.len()
}

/// The snapshot as a mathematical value, if there is one.
pub open spec fn snapshot_view(snapshot: Option<Snapshot>) -> Option<SnapshotView> {
    match snapshot {
        Some(s) => Some(s@),
        None => None,
    }
}

proof fn lemma_first_to<M>(messages: Seq<(NodeId, M)>, to: NodeId, i: int)
    requires
        0 <= i <= messages.len(),
        forall|j: int| 0 <= j < i ==> (#[trigger] messages[j]).0 != to,
    ensures
        first_to(messages, to) == i + first_to(messages.skip(i), to),
    decreases i,
{
    if i == 0 {
        assert(messages.skip(0) =~= messages);
    } else {
        let rest = messages.skip(1);
        assert(messages[0].0 != to);
        assert forall|j: int| 0 <= j < i - 1 implies (#[trigger] rest[j]).0 != to by {
            assert(messages[j + 1].0 != to);
        }
        lemma_first_to(rest, to, i - 1);
        assert(rest.skip(i - 1) =~= messages.skip(i));
    }
}

impl<M> Unsynced<M> {
    pub closed spec fn messages(&self) -> Seq<(NodeId, M)> {
        self.messages@
    }

    pub closed spec fn committed(&self) -> Seq<CommittedView> {
        committed_views(self.committed@)
    }

    pub closed spec fn snapshot(&self) -> Option<SnapshotView> {
        snapshot_view(self.snapshot)
    }

    pub closed spec fn read_states(&self) -> Seq<ReadState> {
        self.read_states@
    }

    /// Takes in what a group's core has ready.
    pub fn begin(ready: Ready<M>) -> (d: Unsynced<M>)
        ensures
            d.messages() == ready.messages@,
            d.committed() == committed_views(ready.committed@),
            d.snapshot() == snapshot_view(ready.snapshot),
            d.read_states() == ready.read_states@,
    {
        Unsynced {
            messages: ready.messages,
            committed: ready.committed,
            snapshot: ready.snapshot,
            read_states: ready.read_states,
        }
    }

    /// Asks for the log to be made durable: hands over what its disk copy has
    /// to carry out before anything leaves.
    ///
    /// The log is asked to be durable every time, whatever the core has ready:
    /// asking is free when nothing was written.
    pub fn sync(self, log: &mut BitcaskStorage) -> (r: (Vec<Write>, Unflushed<M>))
        requires
            old(log).wf(),
        ensures
            final(log).wf(),
            final(log).state() == old(log).state(),
            final(log).last() == old(log).last(),
            final(log).first() == old(log).first(),
            final(log).held() == old(log).held(),
            edits(r.0@) == owed(old(log).store()),
            !final(log).store().unflushed(),
            final(log).store().unpublished() == old(log).store().unpublished(),
            final(log).store().queue() == Seq::<Edit>::empty(),
            r.1.messages() == self.messages(),
            r.1.committed() == self.committed(),
            r.1.snapshot() == self.snapshot(),
            r.1.read_states() == self.read_states(),
    {
        log.sync();
        let writes = log.take_writes();
        (
            writes,
            Unflushed {
                messages: self.messages,
                committed: self.committed,
                snapshot: self.snapshot,
                read_states: self.read_states,
            },
        )
    }
}

/// What a store's disk copy has to carry out for everything in the store to be
/// durable.
pub open spec fn owed(store: Engine) -> Seq<Edit> {
    if store.unflushed() {
        store.queue().push(Edit::Flush)
    } else {
        store.queue()
    }
}

/// Disk before network: whatever a log wrote since its disk was in step with it,
/// a vote, entries or a cut, is durable once the disk has carried out what a
/// drain hands over first. The disk is then in step with the log that the drain
/// leaves.
pub proof fn law_disk_before_network(disk: Disk, before: Engine, store: Engine, drained: Engine)
    requires
        in_step(disk, before),
        store.follows(&before),
    ensures
        carried_out(disk, owed(store)).durable == store@,
        drained.queue() == Seq::<Edit>::empty() && drained@ == store@ && !drained.unflushed()
            ==> in_step(carried_out(disk, owed(store)), drained),
{
    law_a_disk_stays_in_step(disk, before, store);
    assert(store.queue().push(Edit::Flush).drop_last() =~= store.queue());
}

/// Nothing that left is forgotten: a process that crashes once a drain's first
/// step is carried out opens the log that it had.
pub proof fn law_a_crash_keeps_the_log(disk: Disk, log: BitcaskStorage)
    requires
        log.wf(),
        in_step(disk, log.store()),
    ensures
        opened(carried_out(disk, owed(log.store())).durable) == Ok::<_, BitcaskStorageError>(
            (log.last(), log.first(), log.held()),
        ),
{
    lemma_follows_self(&log.store());
    law_disk_before_network(disk, log.store(), log.store(), log.store());
    law_reopening_finds_the_log(log);
}

/// The state is durable before the entries that could rebuild it are dropped:
/// once the disk has carried out what is handed over with an image, a crash
/// leaves the very state that the image was made of, whatever was applied since
/// the disk was in step.
pub proof fn law_the_state_outlives_its_entries(
    disk: Disk,
    before: Engine,
    store: Engine,
    data: Seq<u8>,
    index: LogIndex,
    term: Term,
)
    requires
        in_step(disk, before),
        store.follows(&before),
        is_image_of(data, index, term, store@),
    ensures
        is_image_of(data, index, term, carried_out(disk, owed(store)).durable),
{
    law_disk_before_network(disk, before, store, store);
}

impl<M> Unflushed<M> {
    pub closed spec fn messages(&self) -> Seq<(NodeId, M)> {
        self.messages@
    }

    pub closed spec fn committed(&self) -> Seq<CommittedView> {
        committed_views(self.committed@)
    }

    pub closed spec fn snapshot(&self) -> Option<SnapshotView> {
        snapshot_view(self.snapshot)
    }

    pub closed spec fn read_states(&self) -> Seq<ReadState> {
        self.read_states@
    }

    /// Lets the messages go, if what [`Unsynced::sync`] handed over was carried
    /// out: first the answer to the call of `from` that started this drain,
    /// which is the first message back to it, then everything else that there
    /// is a link for. Where it was not, the drain ends: nothing is sent, nothing
    /// is applied and nobody is answered.
    pub fn release<E>(
        self,
        outcome: Result<(), E>,
        from: Option<NodeId>,
        linked: &BTreeSet<NodeId>,
    ) -> (r: Result<(Outgoing<M>, Unapplied), E>)
        ensures
            match outcome {
                Err(e) => r == Err::<(Outgoing<M>, Unapplied), E>(e),
                Ok(()) => {
                    &&& r matches Ok((out, rest))
                    &&& out.answer == if answers(self.messages(), from) {
                        Some(self.messages()[first_to(self.messages(), from->0)].1)
                    } else {
                        None
                    }
                    &&& out.sends@ == linked_only(
                        if answers(self.messages(), from) {
                            self.messages().remove(first_to(self.messages(), from->0))
                        } else {
                            self.messages()
                        },
                        linked@,
                    )
                    &&& rest.committed() == self.committed()
                    &&& rest.snapshot() == self.snapshot()
                    &&& rest.read_states() == self.read_states()
                },
            },
    {
        match outcome {
            Ok(()) => {},
            Err(e) => {
                return Err(e);
            },
        }
        let Unflushed { messages, committed, snapshot, read_states } = self;
        let mut messages = messages;
        let mut answer: Option<M> = None;
        match from {
            Some(f) => {
                let ghost all = messages@;
                let mut i: usize = 0;
                while i < messages.len() && messages[i].0 != f
                    invariant
                        i <= messages@.len(),
                        messages@ == all,
                        forall|j: int| 0 <= j < i ==> (#[trigger] all[j]).0 != f,
                    decreases messages@.len() - i,
                {
                    i += 1;
                }
                proof {
                    lemma_first_to(all, f, i as int);
                    if i < all.len() {
                        assert(all.skip(i as int)[0] == all[i as int]);
                    }
                }
                if i < messages.len() {
                    let (_, message) = messages.remove(i);
                    answer = Some(message);
                }
            },
            None => {},
        }
        let ghost rest = messages@;
        let mut sends: Vec<(NodeId, M)> = Vec::new();
        let ghost mut done: int = 0;
        assert(rest.take(0) =~= Seq::<(NodeId, M)>::empty());
        while messages.len() > 0
            invariant
                0 <= done <= rest.len(),
                messages@ == rest.skip(done),
                sends@ == linked_only(rest.take(done), linked@),
            decreases messages@.len(),
        {
            let message = messages.remove(0);
            proof {
                assert(message == rest[done]);
                assert(rest.take(done + 1).drop_last() =~= rest.take(done));
                assert(rest.take(done + 1).last() == message);
            }
            if linked.contains(&message.0) {
                sends.push(message);
            }
            proof {
                done = done + 1;
                assert(messages@ =~= rest.skip(done));
            }
        }
        assert(rest.take(done) =~= rest);
        Ok((Outgoing { answer, sends }, Unapplied { committed, snapshot, read_states }))
    }
}

impl Unapplied {
    pub closed spec fn committed(&self) -> Seq<CommittedView> {
        committed_views(self.committed@)
    }

    pub closed spec fn snapshot(&self) -> Option<SnapshotView> {
        snapshot_view(self.snapshot)
    }

    pub closed spec fn read_states(&self) -> Seq<ReadState> {
        self.read_states@
    }

    /// Applies the committed entries, and answers everyone who waited on one.
    /// After a restart the live tail is applied again, over a state that
    /// already reflects it. An entry that cannot be applied ends the drain; the
    /// answers are those of the entries before it, and still go out.
    pub fn apply(self, group: &mut Group, leader: Option<NodeId>) -> (r: (
        Vec<Reply>,
        Result<Unimaged, DrainError>,
    ))
        requires
            old(group).wf(),
        ensures
            final(group).wf(),
            final(group).engine.follows(&old(group).engine),
            same_but_machine(*old(group), *final(group)),
            batch_ends(
                machine_of(*old(group)),
                self.committed(),
                leader,
                match r.1 {
                    Ok(rest) => Ok(rest.moved()),
                    Err(e) => Err(e),
                },
                (Machine { replies: r.0@, ..machine_of(*final(group)) }),
            ),
            r.1 matches Ok(rest) ==> {
                &&& rest.snapshot() == self.snapshot()
                &&& rest.read_states() == self.read_states()
            },
    {
        let (replies, outcome) = group.apply_committed(&self.committed, leader);
        let rest = match outcome {
            Ok(moved) => Ok(
                Unimaged { snapshot: self.snapshot, read_states: self.read_states, moved },
            ),
            Err(e) => Err(e),
        };
        (replies, rest)
    }
}

impl Unimaged {
    pub closed spec fn snapshot(&self) -> Option<SnapshotView> {
        snapshot_view(self.snapshot)
    }

    pub closed spec fn read_states(&self) -> Seq<ReadState> {
        self.read_states@
    }

    /// Whether the group's membership may have moved.
    pub closed spec fn moved(&self) -> bool {
        self.moved
    }

    /// Asks whether the log past the last snapshot is long enough to be replaced
    /// by a state image.
    pub fn next(self, group: &Group) -> (next: Imaging)
        ensures
            next is Due <==> due(*group),
            match next {
                Imaging::NotDue(rest) => {
                    &&& rest.snapshot() == self.snapshot()
                    &&& rest.read_states() == self.read_states()
                    &&& rest.moved() == self.moved()
                },
                Imaging::Due(rest) => {
                    &&& rest.rest().snapshot() == self.snapshot()
                    &&& rest.rest().read_states() == self.read_states()
                    &&& rest.rest().moved() == self.moved()
                },
            },
    {
        let rest = Unsettled {
            snapshot: self.snapshot,
            read_states: self.read_states,
            moved: self.moved,
        };
        if group.snapshot_due() {
            Imaging::Due(ImageDue { rest })
        } else {
            Imaging::NotDue(rest)
        }
    }
}

impl ImageDue {
    /// The drain that goes on once the image is dealt with.
    pub closed spec fn rest(&self) -> Unsettled {
        self.rest
    }

    /// Makes a state image of everything applied so far, at the term of the last
    /// entry applied, and asks for that state to be made durable: hands over
    /// what its disk copy has to carry out before the image leaves. Once the
    /// core takes the image it drops the very entries that could rebuild the
    /// state.
    pub fn image(self, group: &mut Group, term: Term, config: &ClusterConfig) -> (r: (
        Vec<Write>,
        Unwritten,
    ))
        requires
            old(group).wf(),
        ensures
            final(group).wf(),
            *final(group) == (Group { engine: final(group).engine, ..*old(group) }),
            final(group).engine@ == old(group).engine@,
            final(group).engine.unpublished() == old(group).engine.unpublished(),
            !final(group).engine.unflushed(),
            final(group).engine.queue() == Seq::<Edit>::empty(),
            edits(r.0@) == owed(old(group).engine),
            r.1.rest() == self.rest(),
            r.1.image().index == old(group).applied_index,
            r.1.image().term == term,
            r.1.image().voters == config.voters@,
            r.1.image().learners == config.learners@,
            is_image_of(
                r.1.image().data,
                old(group).applied_index,
                term,
                old(group).engine@,
            ),
    {
        let image = group.image(term, config);
        let writes = group.engine.take_writes();
        (writes, Unwritten { image, rest: self.rest })
    }
}

impl Unwritten {
    /// The image that was made.
    pub closed spec fn image(&self) -> SnapshotView {
        self.image@
    }

    /// The drain that goes on once the image is dealt with.
    pub closed spec fn rest(&self) -> Unsettled {
        self.rest
    }

    /// Lets the image go, if what [`ImageDue::image`] handed over was carried
    /// out. Where it was not, the drain ends, and the log keeps every entry.
    pub fn written<E>(self, outcome: Result<(), E>) -> (r: Result<(Snapshot, Untaken), E>)
        ensures
            match outcome {
                Err(e) => r == Err::<(Snapshot, Untaken), E>(e),
                Ok(()) => {
                    &&& r matches Ok((image, untaken))
                    &&& image@ == self.image()
                    &&& untaken.index() == self.image().index
                    &&& untaken.rest() == self.rest()
                },
            },
    {
        match outcome {
            Err(e) => Err(e),
            Ok(()) => {
                let index = self.image.last_included_index;
                Ok((self.image, Untaken { index, rest: self.rest }))
            },
        }
    }
}

impl Untaken {
    /// Where the image ends.
    pub closed spec fn index(&self) -> LogIndex {
        self.index
    }

    /// The drain that goes on once the image is dealt with.
    pub closed spec fn rest(&self) -> Unsettled {
        self.rest
    }

    /// Notes whether the core took the image, and made the log without the
    /// prefix durable. It refuses an image whose prefix its log is already past,
    /// which is stale bookkeeping and no error.
    pub fn taken<E>(self, group: &mut Group, outcome: Result<bool, E>) -> (r: Result<Unsettled, E>)
        ensures
            match outcome {
                Err(e) => r == Err::<Unsettled, E>(e) && *final(group) == *old(group),
                Ok(accepted) => {
                    &&& r == Ok::<Unsettled, E>(self.rest())
                    &&& *final(group) == (Group {
                        snapshot_index: if accepted {
                            self.index()
                        } else {
                            old(group).snapshot_index
                        },
                        ..*old(group)
                    })
                },
            },
    {
        match outcome {
            Err(e) => Err(e),
            Ok(accepted) => {
                if accepted {
                    group.snapshot_index = self.index;
                }
                Ok(self.rest)
            },
        }
    }
}

impl Unsettled {
    pub closed spec fn snapshot(&self) -> Option<SnapshotView> {
        snapshot_view(self.snapshot)
    }

    pub closed spec fn read_states(&self) -> Seq<ReadState> {
        self.read_states@
    }

    /// Whether the group's membership may have moved.
    pub closed spec fn moved(&self) -> bool {
        self.moved
    }

    /// Installs a received snapshot, if there is one. A node that was behind
    /// learns the whole membership in one step, with no entry to react to.
    pub fn restore(self, group: &mut Group) -> (r: Result<Unpublished, DrainError>)
        requires
            old(group).wf(),
        ensures
            final(group).wf(),
            final(group).engine.follows(&old(group).engine),
            match self.snapshot() {
                None => {
                    &&& r matches Ok(rest) && rest.moved() == self.moved() && rest.read_states()
                        == self.read_states()
                    &&& *final(group) == *old(group)
                },
                Some(snap) => match restored(snap) {
                    Err(e) => r == Err::<Unpublished, _>(e) && *final(group) == *old(group),
                    Ok(state) => {
                        &&& r matches Ok(rest) && rest.moved() && rest.read_states()
                            == self.read_states()
                        &&& final(group).engine@ == state
                        &&& !final(group).engine.unflushed()
                        &&& book(final(group).endpoints@) == endpoints_of(state)
                        &&& final(group).applied_index == max_index(
                            old(group).applied_index,
                            snap.index,
                        )
                        &&& final(group).snapshot_index == max_index(
                            old(group).snapshot_index,
                            snap.index,
                        )
                        &&& *final(group) == (Group {
                            engine: final(group).engine,
                            endpoints: final(group).endpoints,
                            applied_index: final(group).applied_index,
                            snapshot_index: final(group).snapshot_index,
                            ..*old(group)
                        })
                    },
                },
            },
    {
        proof {
            lemma_follows_self(&group.engine);
        }
        match self.snapshot {
            None => Ok(Unpublished { read_states: self.read_states, moved: self.moved }),
            Some(snap) => match group.restore_snapshot(&snap) {
                Ok(()) => Ok(Unpublished { read_states: self.read_states, moved: true }),
                Err(e) => Err(e),
            },
        }
    }
}

/// How far readers see once a drain has published, or could not.
pub open spec fn visible_after(group: Group, swapped: bool) -> LogIndex {
    if group.engine.unpublished() && !swapped {
        group.visible.index
    } else {
        group.applied_index
    }
}

/// Who waits once the reads that can be served were handed out.
pub open spec fn after_reads(group: Group, states: Seq<ReadState>, visible: LogIndex) -> Waiting {
    let reads = reads_confirmed(group.pending_reads@, states);
    Waiting {
        readers: reads.remove_keys(ready_reads(reads, visible)),
        ..waiting_of(group)
    }
}

/// Who waits once a node that no longer leads has answered everyone.
pub open spec fn after_deposing(w: Waiting, view: NodeView) -> Waiting {
    if view.role != Role::Leader {
        staying(w, None)
    } else {
        w
    }
}

impl Unpublished {
    pub closed spec fn read_states(&self) -> Seq<ReadState> {
        self.read_states@
    }

    /// Whether the group's membership may have moved.
    pub closed spec fn moved(&self) -> bool {
        self.moved
    }

    /// Ends a drain: publishes what was applied, hands out the reads that are
    /// covered by it, looks for a learner to promote, and answers whoever has
    /// nothing left to wait for.
    pub fn finish(
        self,
        group: &mut Group,
        swapped: bool,
        view: &NodeView,
        matched: &BTreeMap<NodeId, LogIndex>,
        now: Nanos,
    ) -> (out: Finished)
        requires
            old(group).wf(),
            now < MAX_NANOS,
        ensures
            final(group).wf(),
            final(group).engine@ == old(group).engine@,
            final(group).engine.queue() == old(group).engine.queue(),
            final(group).engine.unflushed() == old(group).engine.unflushed(),
            final(group).engine.unpublished() == (old(group).engine.unpublished() && !swapped),
            final(group).visible.index == visible_after(*old(group), swapped),
            final(group).lease_until == if self.read_states().len() > 0 {
                Some((now + old(group).lease_duration) as u128)
            } else {
                old(group).lease_until
            },
            (final(group).commit_seen, final(group).commit_moved_at) == commit_noted(
                *old(group),
                view.commit_index,
                now,
            ),
            same_but_waiting(
                (Group {
                    engine: final(group).engine,
                    visible: final(group).visible,
                    lease_until: final(group).lease_until,
                    commit_seen: final(group).commit_seen,
                    commit_moved_at: final(group).commit_moved_at,
                    ..*old(group)
                }),
                *final(group),
            ),
            out.membership_moved == self.moved(),
            ({
                let reads = reads_confirmed(old(group).pending_reads@, self.read_states());
                let visible = visible_after(*old(group), swapped);
                job_views(out.jobs@) == in_order(ready_reads(reads, visible)).map_values(
                    |token: u64| job_of(old(group).group, reads[token]),
                )
            }),
            match out.promotion {
                Some(c) => {
                    &&& old(group).promote_learners
                    &&& view.role == Role::Leader
                    &&& first_caught_up(view.config.learners@, matched@, view.commit_index)
                        == Some(c.node)
                    &&& c.op == ConfOp::Promote
                    &&& c.context@ == Seq::<u8>::empty()
                },
                None => !old(group).promote_learners || view.role != Role::Leader
                    || first_caught_up(
                    view.config.learners@,
                    matched@,
                    view.commit_index,
                ) is None,
            },
            ({
                let served = after_reads(
                    *old(group),
                    self.read_states(),
                    visible_after(*old(group), swapped),
                );
                let kept = after_deposing(served, *view);
                &&& out.replies@ == (if view.role != Role::Leader {
                    farewells(served, None, view.leader)
                } else {
                    Seq::empty()
                }) + (if sends_away(*old(group), *view, now) {
                    farewells(kept, Some(now), view.leader)
                } else {
                    Seq::empty()
                })
                &&& waiting_of(*final(group)) == if sends_away(*old(group), *view, now) {
                    staying(kept, Some(now))
                } else {
                    kept
                }
            }),
    {
        group.publish(swapped);
        group.confirm_reads(&self.read_states, now);
        let jobs = group.serve_ready_reads();
        let promotion = group.promotion(view, matched);
        proof {
            assert(waiting_of(*group) =~= after_reads(
                *old(group),
                self.read_states(),
                visible_after(*old(group), swapped),
            ));
        }
        let mut replies = group.dismiss_if_deposed(view);
        let mut expired = group.expire_stale_requests(view, now);
        let ghost first = replies@;
        replies.append(&mut expired);
        Finished { jobs, promotion, replies, membership_moved: self.moved }
    }
}

/// A read is served only once readers see everything up to the index that a
/// quorum confirmed it at.
pub proof fn law_served_reads_are_covered(reads: Map<u64, PendingRead>, visible: LogIndex, token: u64)
    requires
        ready_reads(reads, visible).contains(token),
    ensures
        reads.contains_key(token),
        reads[token].confirmed_at matches Some(index) && index <= visible,
{
}

/// Whether the first `k` entries of a log make a state of where the log starts,
/// with every entry up to `index` among them.
pub open spec fn made_by(
    base: Machine,
    log: Seq<CommittedView>,
    k: int,
    state: Map<Seq<u8>, Seq<u8>>,
    index: LogIndex,
) -> bool {
    &&& 0 <= k <= log.len()
    &&& batch_applied(base, log.take(k), None) is Ok
    &&& (batch_applied(base, log.take(k), None)->Ok_0).state == state
    &&& forall|p: int| k <= p < log.len() ==> index < (#[trigger] log[p]).index
}

/// Whether a state is what a log makes, with every entry up to `index` in it.
pub open spec fn holds_up_to(
    base: Machine,
    log: Seq<CommittedView>,
    state: Map<Seq<u8>, Seq<u8>>,
    index: LogIndex,
) -> bool {
    exists|k: int| #[trigger] made_by(base, log, k, state, index)
}

/// The indexes of a log's entries increase.
pub open spec fn in_log_order(log: Seq<CommittedView>) -> bool {
    forall|p: int, q: int|
        #![trigger log[p], log[q]]
        0 <= p < q < log.len() ==> log[p].index < log[q].index
}

/// A batch gets no further than its entries do.
pub proof fn lemma_applied_bounds(
    m: Machine,
    entries: Seq<CommittedView>,
    leader: Option<NodeId>,
    bound: LogIndex,
)
    requires
        batch_applied(m, entries, leader) is Ok,
        m.applied < bound,
        forall|i: int| 0 <= i < entries.len() ==> (#[trigger] entries[i]).index < bound,
    ensures
        (batch_applied(m, entries, leader)->Ok_0).applied < bound,
    decreases entries.len(),
{
    if entries.len() > 0 {
        let head = entries.drop_last();
        assert forall|i: int| 0 <= i < head.len() implies (#[trigger] head[i]).index < bound by {
            assert(entries[i] == head[i]);
        }
        lemma_applied_bounds(m, head, leader, bound);
        assert(entries[entries.len() - 1].index < bound);
    }
}

/// Applying the log goes on where it stands: over a state that the first `k`
/// entries made, the entries behind them, up to the `j`th, leave the state that
/// the first `j` make, with every entry up to where the group says it got.
pub proof fn law_applying_holds_every_entry(
    base: Machine,
    log: Seq<CommittedView>,
    m: Machine,
    k: int,
    j: int,
    leader: Option<NodeId>,
)
    requires
        in_log_order(log),
        made_by(base, log, k, m.state, m.applied),
        k <= j <= log.len(),
        batch_applied(m, log.subrange(k, j), leader) is Ok,
    ensures
        ({
            let after = batch_applied(m, log.subrange(k, j), leader)->Ok_0;
            made_by(base, log, j, after.state, after.applied)
        }),
{
    let more = log.subrange(k, j);
    let after = batch_applied(m, more, leader)->Ok_0;
    let there = batch_applied(base, log.take(k), None)->Ok_0;
    assert(log.take(j) =~= log.take(k) + more);
    law_batches_compose(base, log.take(k), more, None);
    law_replicas_agree(there, m, more, None, leader);
    assert forall|p: int| j <= p < log.len() implies after.applied < (#[trigger] log[p]).index by {
        assert forall|i: int| 0 <= i < more.len() implies (#[trigger] more[i]).index
            < log[p].index by {
            assert(more[i] == log[k + i]);
        }
        lemma_applied_bounds(m, more, leader, log[p].index);
    }
}

/// Nobody is answered before their entry is applied: a batch that answers
/// anyone has got past every entry in it.
pub proof fn law_an_answered_entry_is_applied(
    m: Machine,
    entries: Seq<CommittedView>,
    leader: Option<NodeId>,
    i: int,
)
    requires
        0 <= i < entries.len(),
        batch_applied(m, entries, leader) is Ok,
    ensures
        entries[i].index <= (batch_applied(m, entries, leader)->Ok_0).applied,
    decreases entries.len(),
{
    if i < entries.len() - 1 {
        law_an_answered_entry_is_applied(m, entries.drop_last(), leader, i);
    }
}

/// What readers see once a drain has published, or could not: the copy that was
/// written, if it was swapped in, else what they saw before.
pub open spec fn seen_after(
    seen: Map<Seq<u8>, Seq<u8>>,
    group: Group,
    swapped: bool,
) -> Map<Seq<u8>, Seq<u8>> {
    if group.engine.unpublished() && swapped {
        group.engine@
    } else {
        seen
    }
}

/// A read never misses a write that was answered before it. Readers see `seen`,
/// and a drain of `group` ends and leaves `after`: every read that is handed out
/// then is served from a state with every entry in it up to the index that a
/// quorum confirmed the read at, so with any entry, the `p`th of the log, that
/// was committed by then. And readers go on seeing the store, with every entry
/// up to where it is visible.
pub proof fn law_a_read_covers_the_writes_before_it(
    base: Machine,
    log: Seq<CommittedView>,
    seen: Map<Seq<u8>, Seq<u8>>,
    group: Group,
    swapped: bool,
    after: Group,
    reads: Map<u64, PendingRead>,
    token: u64,
    p: int,
)
    requires
        shown(seen, group.engine),
        holds_up_to(base, log, seen, group.visible.index),
        holds_up_to(base, log, group.engine@, group.applied_index),
        after.engine@ == group.engine@,
        after.engine.unpublished() == (group.engine.unpublished() && !swapped),
        after.visible.index == visible_after(group, swapped),
    ensures
        shown(seen_after(seen, group, swapped), after.engine),
        holds_up_to(base, log, seen_after(seen, group, swapped), after.visible.index),
        ready_reads(reads, after.visible.index).contains(token) ==> {
            let at = reads[token].confirmed_at->0;
            let copy = seen_after(seen, group, swapped);
            &&& holds_up_to(base, log, copy, at)
            &&& 0 <= p < log.len() && log[p].index <= at ==> exists|k: int|
                p < k && #[trigger] made_by(base, log, k, copy, at)
        },
{
    let copy = seen_after(seen, group, swapped);
    let visible = after.visible.index;
    assert(holds_up_to(base, log, copy, visible));
    if ready_reads(reads, visible).contains(token) {
        law_served_reads_are_covered(reads, visible, token);
        let at = reads[token].confirmed_at->0;
        let k = choose|k: int| #[trigger] made_by(base, log, k, copy, visible);
        assert(made_by(base, log, k, copy, at));
    }
}

/// A lease skips the round trip, not the writes: a read that is handed out under
/// one is served from a state with everything in it that is committed.
pub proof fn law_a_leased_read_covers_what_is_committed(
    base: Machine,
    log: Seq<CommittedView>,
    seen: Map<Seq<u8>, Seq<u8>>,
    group: Group,
    view: NodeView,
    now: Nanos,
)
    requires
        holds_up_to(base, log, seen, group.visible.index),
        lease_covers(group, view, now),
    ensures
        holds_up_to(base, log, seen, view.commit_index),
{
    let k = choose|k: int| #[trigger] made_by(base, log, k, seen, group.visible.index);
    assert(made_by(base, log, k, seen, view.commit_index));
}

/// A snapshot brings every entry it stands for: a group that restores the image
/// of a state with every entry in it up to the image's boundary has every entry
/// in it up to where it says it got, if it was not past that boundary. What does
/// not fit an image is left out.
pub proof fn law_restoring_holds_every_entry(
    base: Machine,
    log: Seq<CommittedView>,
    snap: SnapshotView,
    state: Map<Seq<u8>, Seq<u8>>,
    applied: LogIndex,
)
    requires
        is_image_of(snap.data, snap.index, snap.term, state),
        state.len() <= u64::MAX,
        forall|k: Seq<u8>| #[trigger]
            state.contains_key(k) ==> k.len() <= u32::MAX && state[k].len() <= u32::MAX,
        holds_up_to(base, log, state, snap.index),
        applied <= snap.index,
    ensures
        restored(snap) == Ok::<_, DrainError>(state),
        holds_up_to(base, log, state, max_index(applied, snap.index)),
{
    law_snapshot_carries_the_state(snap, state);
}

/// Only a quorum confirms a read: the index it may be served at is the one of a
/// confirmation that carries its token.
pub proof fn law_only_a_quorum_confirms_a_read(
    read: PendingRead,
    token: u64,
    states: Seq<ReadState>,
)
    ensures
        confirmed_by(read, token, states).confirmed_at == read.confirmed_at || exists|i: int|
            0 <= i < states.len() && (#[trigger] states[i]).token == token && confirmed_by(
                read,
                token,
                states,
            ).confirmed_at == Some(states[i].index),
    decreases states.len(),
{
    if states.len() > 0 {
        let head = states.drop_last();
        if states.last().token == token {
            assert(states[states.len() - 1].token == token);
        } else {
            law_only_a_quorum_confirms_a_read(read, token, head);
            if confirmed_by(read, token, head).confirmed_at != read.confirmed_at {
                let i = choose|i: int|
                    0 <= i < head.len() && (#[trigger] head[i]).token == token && confirmed_by(
                        read,
                        token,
                        head,
                    ).confirmed_at == Some(head[i].index);
                assert(states[i] == head[i]);
            }
        }
    }
}

/// A redirect among many stands where its key does.
proof fn lemma_told<A>(keys: Set<u64>, tell: spec_fn(u64) -> A, key: u64)
    requires
        keys.finite(),
        keys.contains(key),
    ensures
        in_order(keys).map_values(tell).contains(tell(key)),
{
    lemma_in_order_exists(keys);
    assert(in_order(keys).to_set().contains(key));
    let i = choose|i: int| 0 <= i < in_order(keys).len() && in_order(keys)[i] == key;
    assert(in_order(keys).map_values(tell)[i] == tell(key));
}

/// Nobody is left hanging: whoever a group gives up on is told to ask the
/// leader, and everyone else still waits.
pub proof fn law_nobody_is_left_hanging(
    w: Waiting,
    now: Option<Nanos>,
    leader: Option<NodeId>,
    key: u64,
)
    requires
        w.writers.dom().finite(),
        w.readers.dom().finite(),
        w.operators.dom().finite(),
    ensures
        w.writers.contains_key(key) ==> staying(w, now).writers.contains_key(key) || farewells(
            w,
            now,
            leader,
        ).contains(client_redirect(w.writers[key].ticket, leader)),
        w.readers.contains_key(key) ==> staying(w, now).readers.contains_key(key) || farewells(
            w,
            now,
            leader,
        ).contains(client_redirect(w.readers[key].ticket, leader)),
        w.operators.contains_key(key) ==> staying(w, now).operators.contains_key(key) || farewells(
            w,
            now,
            leader,
        ).contains(admin_redirect(w.operators[key].ticket, leader)),
{
    let tell_writer = |index: u64| client_redirect(w.writers[index].ticket, leader);
    let tell_reader = |token: u64| client_redirect(w.readers[token].ticket, leader);
    let tell_operator = |index: u64| admin_redirect(w.operators[index].ticket, leader);
    let first = in_order(overdue_entries(w.writers, now)).map_values(tell_writer);
    let second = in_order(overdue_reads(w.readers, now)).map_values(tell_reader);
    let third = in_order(overdue_entries(w.operators, now)).map_values(tell_operator);
    let all = farewells(w, now, leader);
    assert(all == first + second + third);
    if w.writers.contains_key(key) && overdue(w.writers[key].deadline, now) {
        lemma_told(overdue_entries(w.writers, now), tell_writer, key);
        let i = choose|i: int| 0 <= i < first.len() && first[i] == tell_writer(key);
        assert(all[i] == first[i]);
    }
    if w.readers.contains_key(key) && overdue(w.readers[key].deadline, now) {
        lemma_told(overdue_reads(w.readers, now), tell_reader, key);
        let i = choose|i: int| 0 <= i < second.len() && second[i] == tell_reader(key);
        assert(all[first.len() + i] == second[i]);
    }
    if w.operators.contains_key(key) && overdue(w.operators[key].deadline, now) {
        lemma_told(overdue_entries(w.operators, now), tell_operator, key);
        let i = choose|i: int| 0 <= i < third.len() && third[i] == tell_operator(key);
        assert(all[first.len() + second.len() + i] == third[i]);
    }
}

/// A leader that was deposed keeps nobody waiting.
pub proof fn law_a_deposed_leader_keeps_nobody_waiting(w: Waiting, view: NodeView)
    requires
        view.role != Role::Leader,
    ensures
        after_deposing(w, view).writers.dom() == Set::<u64>::empty(),
        after_deposing(w, view).readers.dom() == Set::<u64>::empty(),
        after_deposing(w, view).operators.dom() == Set::<u64>::empty(),
{
    let after = after_deposing(w, view);
    assert(after.writers.dom() =~= Set::<u64>::empty());
    assert(after.readers.dom() =~= Set::<u64>::empty());
    assert(after.operators.dom() =~= Set::<u64>::empty());
}

/// A batch that is committed in two parts does what it does in one.
pub proof fn law_batches_compose(
    m: Machine,
    first: Seq<CommittedView>,
    second: Seq<CommittedView>,
    leader: Option<NodeId>,
)
    ensures
        batch_applied(m, first + second, leader) == match batch_applied(m, first, leader) {
            Ok(mid) => batch_applied(mid, second, leader),
            Err(e) => Err(e),
        },
    decreases second.len(),
{
    if second.len() == 0 {
        assert(first + second =~= first);
    } else {
        assert((first + second).drop_last() =~= first + second.drop_last());
        law_batches_compose(m, first, second.drop_last(), leader);
    }
}

/// Replicas agree: two that hold the same state and apply the same entries hold
/// the same state afterwards, and stop at the same entry if one cannot be
/// applied, whoever leads and whoever waits on either. So do their address
/// books, if they were the same.
pub proof fn law_replicas_agree(
    a: Machine,
    b: Machine,
    entries: Seq<CommittedView>,
    leader_a: Option<NodeId>,
    leader_b: Option<NodeId>,
)
    requires
        a.state == b.state,
    ensures
        match (batch_applied(a, entries, leader_a), batch_applied(b, entries, leader_b)) {
            (Ok(x), Ok(y)) => x.state == y.state && (a.book == b.book ==> x.book == y.book),
            (Err(x), Err(y)) => x == y,
            _ => false,
        },
    decreases entries.len(),
{
    if entries.len() > 0 {
        law_replicas_agree(a, b, entries.drop_last(), leader_a, leader_b);
    }
}

/// A writer hears that its write took effect only if the entry that committed
/// where it waited is the one it proposed: under another term a later leader
/// overwrote it, and the writer is told to ask that leader.
pub proof fn law_an_overwritten_entry_is_no_success(
    m: Machine,
    entry: CommittedView,
    leader: Option<NodeId>,
)
    requires
        entry.body is Command,
        m.pending.contains_key(entry.index),
        m.pending[entry.index].term != entry.term,
    ensures
        entry_applied(m, entry, leader) matches Ok(after) ==> after.replies == m.replies.push(
            client_redirect(m.pending[entry.index].ticket, leader),
        ),
{
}

/// What applying works on is the group itself: its state machine, its address
/// book, how far it got and who waits on it.
pub proof fn law_applying_works_on_the_group(group: Group, id: NodeId)
    ensures
        ({
            let m = machine_of(group);
            &&& m.state == group.engine@
            &&& m.book.contains_key(id) <==> group.endpoints@.contains_key(id)
            &&& m.book.contains_key(id) ==> m.book[id] == group.endpoints@[id]@
            &&& m.applied == group.applied_index
            &&& m.pending == group.pending@
            &&& m.confs == group.pending_conf@
            &&& m.replies.len() == 0
            &&& !m.moved
        }),
{
}

/// A committed write is applied, and whoever waits on it hears what it answered.
/// The state becomes what the command makes of it; of those who wait only the
/// one on this very entry leaves, and is told the command's own answer if the
/// entry is of the term they proposed it in, and else to ask the leader. A
/// leader's no-op leaves the state as it is, and bytes that mean nothing stop
/// there.
pub proof fn law_a_committed_write_is_applied_and_answered(
    m: Machine,
    entry: CommittedView,
    bytes: Seq<u8>,
    leader: Option<NodeId>,
)
    requires
        entry.body == BodyView::Command(bytes),
    ensures
        ({
            let index = entry.index;
            let told = |reply: ClientReply|
                Reply {
                    ticket: m.pending[index].ticket,
                    answer: Answer::Client(
                        if m.pending[index].term == entry.term {
                            reply
                        } else {
                            ClientReply::NotLeader { hint: leader }
                        },
                    ),
                };
            let outcome = entry_applied(m, entry, leader);
            &&& meaning(bytes) is Err ==> outcome == Err::<Machine, _>(
                DrainError::Undecodable { index },
            )
            &&& outcome matches Ok(after) ==> {
                &&& after.book == m.book
                &&& after.confs == m.confs
                &&& after.moved == m.moved
                &&& after.applied >= index && after.applied >= m.applied
                &&& after.applied == index || after.applied == m.applied
                &&& !after.pending.contains_key(index)
                &&& forall|other: LogIndex|
                    #![trigger after.pending.contains_key(other)]
                    #![trigger after.pending[other]]
                    other != index ==> after.pending.contains_key(other) == m.pending.contains_key(
                        other,
                    ) && after.pending[other] == m.pending[other]
                &&& !m.pending.contains_key(index) ==> after.replies == m.replies
            }
            &&& meaning(bytes) is Ok && meaning(bytes)->Ok_0 is None ==> (outcome matches Ok(after) && {
                &&& after.state == m.state
                &&& m.pending.contains_key(index) ==> after.replies == m.replies.push(
                    told(ClientReply::Applied),
                )
            })
            &&& meaning(bytes) matches Ok(Some(command)) ==> match applied(m.state, command) {
                Err(_) => outcome == Err::<Machine, _>(DrainError::Session),
                Ok((state, response)) => outcome matches Ok(after) && {
                    &&& after.state == state
                    &&& m.pending.contains_key(index) ==> after.replies == m.replies.push(
                        told(
                            match response {
                                CommandResponse::Applied => ClientReply::Applied,
                                CommandResponse::Swapped(swapped) => ClientReply::Swapped(swapped),
                            },
                        ),
                    )
                },
            }
        }),
{
}

/// A committed membership change never fails. It moves the address book and what
/// the state keeps of it, tells the operator who waits on this very entry that it
/// committed, or, if the entry is of another term than the one they proposed it
/// in, to ask the leader, and leaves everyone else waiting. One that cannot be
/// read moves nothing.
pub proof fn law_a_committed_change_is_applied_and_answered(
    m: Machine,
    entry: CommittedView,
    change: Option<(ConfOp, NodeId, Seq<u8>)>,
    leader: Option<NodeId>,
    key: Seq<u8>,
)
    requires
        entry.body == BodyView::Conf(change),
    ensures
        entry_applied(m, entry, leader) matches Ok(after) && {
            let index = entry.index;
            &&& after.pending == m.pending
            &&& after.moved
            &&& after.applied >= index && after.applied >= m.applied
            &&& after.applied == index || after.applied == m.applied
            &&& !after.confs.contains_key(index)
            &&& forall|other: LogIndex|
                #![trigger after.confs.contains_key(other)]
                #![trigger after.confs[other]]
                other != index ==> after.confs.contains_key(other) == m.confs.contains_key(other)
                    && after.confs[other] == m.confs[other]
            &&& !m.confs.contains_key(index) ==> after.replies == m.replies
            &&& m.confs.contains_key(index) ==> after.replies == m.replies.push(
                Reply {
                    ticket: m.confs[index].ticket,
                    answer: Answer::Admin(
                        if m.confs[index].term == entry.term {
                            AdminReply::Accepted { index }
                        } else {
                            AdminReply::NotLeader { hint: leader }
                        },
                    ),
                },
            )
            &&& change is None ==> after.state == m.state && after.book == m.book
            &&& change matches Some((op, node, context)) ==> {
                &&& (forall|id: NodeId| key != peer_key_of(id)) ==> after.state.contains_key(key)
                    == m.state.contains_key(key) && (m.state.contains_key(key) ==> after.state[key]
                    == m.state[key])
                &&& op is RemoveLearner || op is RemoveVoter ==> {
                    &&& !after.state.contains_key(peer_key_of(node))
                    &&& !after.book.contains_key(node)
                    &&& key != peer_key_of(node) ==> after.state.contains_key(key)
                        == m.state.contains_key(key) && after.state[key] == m.state[key]
                    &&& forall|id: NodeId|
                        #![trigger after.book.contains_key(id)]
                        id != node ==> after.book.contains_key(id) == m.book.contains_key(id)
                            && after.book[id] == m.book[id]
                }
                &&& (op is AddLearner || op is Promote) && context.len() == 0 ==> after.state
                    == m.state && after.book == m.book
            }
        },
{
    match change {
        Some((op, node, context)) => {
            if forall|id: NodeId| key != peer_key_of(id) {
                law_peer_keys(0, key);
                if peer_id_of(key) is Some {
                    let id = peer_id_of(key)->0;
                    law_peer_keys(id, key);
                    assert(key == peer_key_of(id));
                }
            }
        },
        None => {},
    }
}

/// A batch is its entries, one after the other.
pub proof fn law_a_batch_is_its_entries(
    m: Machine,
    entries: Seq<CommittedView>,
    leader: Option<NodeId>,
)
    ensures
        entries.len() == 0 ==> batch_applied(m, entries, leader) == Ok::<_, DrainError>(m),
        entries.len() == 1 ==> batch_applied(m, entries, leader) == entry_applied(
            m,
            entries[0],
            leader,
        ),
        entries.len() > 0 ==> batch_applied(m, entries, leader) == match entry_applied(
            m,
            entries[0],
            leader,
        ) {
            Ok(mid) => batch_applied(mid, entries.skip(1), leader),
            Err(e) => Err(e),
        },
{
    reveal_with_fuel(batch_applied, 2);
    if entries.len() > 0 {
        assert(entries =~= seq![entries[0]] + entries.skip(1));
        assert(seq![entries[0]].drop_last() =~= Seq::<CommittedView>::empty());
        assert(seq![entries[0]].last() == entries[0]);
        law_batches_compose(m, seq![entries[0]], entries.skip(1), leader);
        if entries.len() == 1 {
            assert(entries.skip(1) =~= Seq::<CommittedView>::empty());
        }
    }
}

/// A batch that ends well has applied every entry; one that does not has applied
/// those before the entry that could not be, answered whoever waited on them, and
/// nothing behind it.
pub proof fn law_a_stopped_batch_keeps_what_came_before(
    m: Machine,
    entries: Seq<CommittedView>,
    leader: Option<NodeId>,
    outcome: Result<bool, DrainError>,
    end: Machine,
)
    requires
        batch_ends(m, entries, leader, outcome, end),
    ensures
        match outcome {
            Ok(moved) => batch_applied(m, entries, leader) matches Ok(after) && {
                &&& after.state == end.state
                &&& after.book == end.book
                &&& after.applied == end.applied
                &&& after.pending == end.pending
                &&& after.confs == end.confs
                &&& after.replies == end.replies
                &&& after.moved == moved
            },
            Err(e) => exists|n: int|
                #![trigger entries.take(n)]
                0 <= n < entries.len() && (batch_applied(m, entries.take(n), leader) matches Ok(
                    stands,
                ) && {
                    &&& stands.state == end.state
                    &&& stands.book == end.book
                    &&& stands.applied == end.applied
                    &&& stands.pending == end.pending
                    &&& stands.confs == end.confs
                    &&& stands.replies == end.replies
                    &&& entry_applied(stands, entries[n], leader) == Err::<Machine, _>(e)
                }),
        },
{
    if outcome is Err {
        law_an_unreadable_entry_stops_the_batch(m, entries, leader);
        let n = applied_count(m, entries, leader) as int;
        assert(entries.take(n) =~= entries.take(applied_count(m, entries, leader) as int));
    }
}

/// An image is due once as many entries as the threshold says are applied past
/// the last one, and at least one is.
pub proof fn law_an_image_is_due_by_the_threshold(group: Group)
    ensures
        group.snapshot_index <= group.applied_index && group.snapshot_index
            + group.snapshot_threshold <= u64::MAX ==> (due(group) <==> group.applied_index
            > group.snapshot_index && group.applied_index - group.snapshot_index
            >= group.snapshot_threshold),
        group.snapshot_index + group.snapshot_threshold > u64::MAX ==> (due(group)
            <==> group.applied_index == u64::MAX && group.snapshot_index < u64::MAX),
{
}

/// A snapshot is refused unless its image can be read and is of the very boundary
/// that it came for.
pub proof fn law_a_snapshot_is_of_its_boundary(snap: SnapshotView)
    ensures
        restored(snap) matches Ok(state) ==> exists|pairs: Seq<(Seq<u8>, Seq<u8>)>|
            #[trigger] pairs_map(pairs) == state && decoded(snap.data) == Ok::<_, SnapshotError>(
                (snap.index, snap.term, pairs),
            ),
        decoded(snap.data) matches Err(error) ==> restored(snap) == Err::<Map<Seq<u8>, Seq<u8>>, _>(
            DrainError::Image { index: snap.index, error },
        ),
        decoded(snap.data) matches Ok((index, term, pairs)) ==> (restored(snap) is Ok <==> index
            == snap.index && term == snap.term),
{
    match decoded(snap.data) {
        Ok((index, term, pairs)) => {
            assert(pairs_map(pairs) == pairs_map(pairs));
        },
        Err(_) => {},
    }
}

/// A confirmation is for the read that carries its token, and for no other: that
/// read may be served at the index of the last one, and asks for what it asked
/// for. A read that none is for stays as it is.
pub proof fn law_a_confirmation_is_for_its_read(
    reads: Map<u64, PendingRead>,
    states: Seq<ReadState>,
    token: u64,
    i: int,
)
    ensures
        ({
            let after = reads_confirmed(reads, states);
            &&& after.contains_key(token) <==> reads.contains_key(token)
            &&& reads.contains_key(token) ==> {
                &&& after[token].key == reads[token].key
                &&& after[token].ticket == reads[token].ticket
                &&& after[token].deadline == reads[token].deadline
                &&& (forall|j: int| 0 <= j < states.len() ==> (#[trigger] states[j]).token != token)
                    ==> after[token].confirmed_at == reads[token].confirmed_at
                &&& 0 <= i < states.len() && states[i].token == token && (forall|j: int|
                    i < j < states.len() ==> (#[trigger] states[j]).token != token)
                    ==> after[token].confirmed_at == Some(states[i].index)
            }
        }),
{
    if reads.contains_key(token) {
        lemma_confirmed_at(reads[token], token, states, i);
    }
}

proof fn lemma_confirmed_at(read: PendingRead, token: u64, states: Seq<ReadState>, i: int)
    ensures
        ({
            let after = confirmed_by(read, token, states);
            &&& after.key == read.key
            &&& after.ticket == read.ticket
            &&& after.deadline == read.deadline
            &&& (forall|j: int| 0 <= j < states.len() ==> (#[trigger] states[j]).token != token)
                ==> after.confirmed_at == read.confirmed_at
            &&& 0 <= i < states.len() && states[i].token == token && (forall|j: int|
                i < j < states.len() ==> (#[trigger] states[j]).token != token)
                ==> after.confirmed_at == Some(states[i].index)
        }),
    decreases states.len(),
{
    if states.len() > 0 {
        let head = states.drop_last();
        lemma_confirmed_at(read, token, head, i);
        assert(states[states.len() - 1] == states.last());
        if forall|j: int| 0 <= j < states.len() ==> (#[trigger] states[j]).token != token {
            assert forall|j: int| 0 <= j < head.len() implies (#[trigger] head[j]).token != token by {
                assert(states[j].token != token);
            }
        }
        if 0 <= i < head.len() && (forall|j: int|
            i < j < states.len() ==> (#[trigger] states[j]).token != token) {
            assert(states[states.len() - 1].token != token);
            assert forall|j: int| i < j < head.len() implies (#[trigger] head[j]).token != token by {
                assert(states[j].token != token);
            }
        }
    }
}

/// Exactly the covered reads are served: one is handed out if and only if a
/// quorum confirmed it at an index that readers see, as a read of the key that
/// was asked for, at that index and for whoever asked; and exactly the others go
/// on waiting, as they were.
pub proof fn law_exactly_the_covered_reads_are_served(
    group: Group,
    states: Seq<ReadState>,
    visible: LogIndex,
    token: u64,
)
    requires
        group.pending_reads@.dom().finite(),
    ensures
        ({
            let reads = reads_confirmed(group.pending_reads@, states);
            let jobs = in_order(ready_reads(reads, visible)).map_values(
                |t: u64| job_of(group.group, reads[t]),
            );
            let left = after_reads(group, states, visible);
            let covered = reads.contains_key(token) && (reads[token].confirmed_at matches Some(
                index,
            ) && index <= visible);
            &&& ready_reads(reads, visible).contains(token) <==> covered
            &&& jobs.len() == ready_reads(reads, visible).len()
            &&& covered ==> jobs.contains(
                (
                    group.group,
                    reads[token].key@,
                    reads[token].confirmed_at->0,
                    reads[token].ticket,
                ),
            )
            &&& left.readers.contains_key(token) <==> reads.contains_key(token) && !covered
            &&& left.readers.contains_key(token) ==> left.readers[token] == reads[token]
            &&& left.writers == group.pending@
            &&& left.operators == group.pending_conf@
        }),
{
    let reads = reads_confirmed(group.pending_reads@, states);
    let ready = ready_reads(reads, visible);
    assert(reads.dom() =~= group.pending_reads@.dom());
    assert(ready.finite());
    lemma_in_order_exists(ready);
    if ready.contains(token) {
        lemma_told(ready, |t: u64| job_of(group.group, reads[t]), token);
    }
}

/// What readers see moves to what is applied, unless there is something they miss
/// and the copy could not be swapped; then it stays.
pub proof fn law_what_is_visible_follows_what_is_applied(group: Group, swapped: bool)
    ensures
        swapped || !group.engine.unpublished() ==> visible_after(group, swapped)
            == group.applied_index,
        !swapped && group.engine.unpublished() ==> visible_after(group, swapped)
            == group.visible.index,
{
}

/// Whoever waited past the deadline is told to ask the leader and waits no
/// longer; whoever did not goes on waiting, as they were. With no moment given,
/// everybody's wait is over.
pub proof fn law_only_the_overdue_are_sent_away(
    w: Waiting,
    now: Option<Nanos>,
    leader: Option<NodeId>,
    key: u64,
)
    requires
        w.writers.dom().finite(),
        w.readers.dom().finite(),
        w.operators.dom().finite(),
    ensures
        ({
            let after = staying(w, now);
            let told = farewells(w, now, leader);
            let over = |deadline: Nanos| now is None || deadline <= now->0;
            let to_client = |ticket: Ticket|
                Reply { ticket, answer: Answer::Client(ClientReply::NotLeader { hint: leader }) };
            let to_operator = |ticket: Ticket|
                Reply { ticket, answer: Answer::Admin(AdminReply::NotLeader { hint: leader }) };
            &&& after.writers.contains_key(key) <==> w.writers.contains_key(key) && !over(
                w.writers[key].deadline,
            )
            &&& after.writers.contains_key(key) ==> after.writers[key] == w.writers[key]
            &&& w.writers.contains_key(key) && over(w.writers[key].deadline) ==> told.contains(
                to_client(w.writers[key].ticket),
            )
            &&& after.readers.contains_key(key) <==> w.readers.contains_key(key) && !over(
                w.readers[key].deadline,
            )
            &&& after.readers.contains_key(key) ==> after.readers[key] == w.readers[key]
            &&& w.readers.contains_key(key) && over(w.readers[key].deadline) ==> told.contains(
                to_client(w.readers[key].ticket),
            )
            &&& after.operators.contains_key(key) <==> w.operators.contains_key(key) && !over(
                w.operators[key].deadline,
            )
            &&& after.operators.contains_key(key) ==> after.operators[key] == w.operators[key]
            &&& w.operators.contains_key(key) && over(w.operators[key].deadline) ==> told.contains(
                to_operator(w.operators[key].ticket),
            )
            &&& told.len() + after.writers.len() + after.readers.len() + after.operators.len()
                == w.writers.len() + w.readers.len() + w.operators.len()
        }),
{
    law_nobody_is_left_hanging(w, now, leader, key);
    let a = overdue_entries(w.writers, now);
    let b = overdue_reads(w.readers, now);
    let c = overdue_entries(w.operators, now);
    let after = staying(w, now);
    lemma_in_order_exists(a);
    lemma_in_order_exists(b);
    lemma_in_order_exists(c);
    assert(after.writers.dom() =~= w.writers.dom().difference(a));
    assert(after.readers.dom() =~= w.readers.dom().difference(b));
    assert(after.operators.dom() =~= w.operators.dom().difference(c));
    lemma_split_len(w.writers.dom(), a);
    lemma_split_len(w.readers.dom(), b);
    lemma_split_len(w.operators.dom(), c);
}

proof fn lemma_split_len(all: Set<u64>, gone: Set<u64>)
    requires
        all.finite(),
        gone.subset_of(all),
    ensures
        gone.len() + all.difference(gone).len() == all.len(),
    decreases gone.len(),
{
    assert(gone.finite()) by {
        vstd::set_lib::lemma_set_subset_finite(all, gone);
    }
    if gone.len() == 0 {
        gone.lemma_len0_is_empty();
        assert(all.difference(gone) =~= all);
    } else {
        let one = gone.choose();
        let fewer = gone.remove(one);
        lemma_split_len(all, fewer);
        assert(all.difference(gone) =~= all.difference(fewer).remove(one));
        assert(all.difference(fewer).contains(one));
    }
}

/// A leader that makes progress keeps its clients waiting, and nobody else does:
/// requests are sent away exactly where this node does not lead, or where its
/// commit index has stood still for as long as a request may take. What it saw of
/// the commit index moves with it and never back.
pub proof fn law_only_a_stalled_leader_sends_clients_away(group: Group, view: NodeView, now: Nanos)
    ensures
        ({
            let still: int = if view.commit_index > group.commit_seen || now
                < group.commit_moved_at {
                0
            } else {
                now - group.commit_moved_at
            };
            &&& sends_away(group, view, now) <==> view.role != Role::Leader || still
                >= group.request_timeout
            &&& commit_noted(group, view.commit_index, now).0 >= group.commit_seen
            &&& commit_noted(group, view.commit_index, now).0 >= view.commit_index
            &&& view.commit_index > group.commit_seen ==> commit_noted(group, view.commit_index, now)
                == (view.commit_index, now)
            &&& view.commit_index <= group.commit_seen ==> commit_noted(
                group,
                view.commit_index,
                now,
            ) == (group.commit_seen, group.commit_moved_at)
        }),
{
}

/// The learner to promote is the first that is known to hold everything that is
/// committed; there is none exactly where no learner does.
pub proof fn law_the_first_caught_up_learner_is_promoted(
    learners: Seq<NodeId>,
    matched: Map<NodeId, LogIndex>,
    commit: LogIndex,
    i: int,
)
    ensures
        ({
            let caught_up = |j: int|
                matched.contains_key(learners[j]) && commit <= matched[learners[j]];
            &&& 0 <= i < learners.len() && caught_up(i) && (forall|j: int|
                0 <= j < i ==> !(matched.contains_key(#[trigger] learners[j]) && commit
                    <= matched[learners[j]])) ==> first_caught_up(learners, matched, commit) == Some(
                learners[i],
            )
            &&& first_caught_up(learners, matched, commit) is None <==> forall|j: int|
                0 <= j < learners.len() ==> !(matched.contains_key(#[trigger] learners[j]) && commit
                    <= matched[learners[j]])
        }),
    decreases learners.len(),
{
    if learners.len() > 0 {
        let rest = learners.skip(1);
        law_the_first_caught_up_learner_is_promoted(rest, matched, commit, i - 1);
        assert forall|j: int| 0 <= j < rest.len() implies #[trigger] rest[j] == learners[j + 1] by {}
        if forall|j: int|
            0 <= j < learners.len() ==> !(matched.contains_key(#[trigger] learners[j]) && commit
                <= matched[learners[j]]) {
            assert(!(matched.contains_key(learners[0]) && commit <= matched[learners[0]]));
            assert forall|j: int| 0 <= j < rest.len() implies !(matched.contains_key(
                #[trigger] rest[j],
            ) && commit <= matched[rest[j]]) by {
                assert(rest[j] == learners[j + 1]);
            }
        }
        if first_caught_up(learners, matched, commit) is None {
            assert forall|j: int| 0 <= j < learners.len() implies !(matched.contains_key(
                #[trigger] learners[j],
            ) && commit <= matched[learners[j]]) by {
                if j > 0 {
                    assert(rest[j - 1] == learners[j]);
                }
            }
        }
        if 0 < i < learners.len() && (forall|j: int|
            0 <= j < i ==> !(matched.contains_key(#[trigger] learners[j]) && commit
                <= matched[learners[j]])) {
            assert(!(matched.contains_key(learners[0]) && commit <= matched[learners[0]]));
            assert forall|j: int| 0 <= j < i - 1 implies !(matched.contains_key(#[trigger] rest[j])
                && commit <= matched[rest[j]]) by {
                assert(rest[j] == learners[j + 1]);
            }
            assert(rest[i - 1] == learners[i]);
        }
    }
}

/// Every message to a peer there is a link to leaves, in order, and none to
/// anybody else; and the message that answers a call is the first to the caller,
/// if there is one to it.
pub proof fn law_every_message_finds_its_link<M>(
    messages: Seq<(NodeId, M)>,
    linked: Set<NodeId>,
    to: NodeId,
    i: int,
)
    ensures
        linked_only(messages, linked) == messages.filter(|m: (NodeId, M)| linked.contains(m.0)),
        answers(messages, Some(to)) <==> exists|j: int|
            0 <= j < messages.len() && (#[trigger] messages[j]).0 == to,
        !answers(messages, None),
        0 <= i < messages.len() && messages[i].0 == to && (forall|j: int|
            0 <= j < i ==> (#[trigger] messages[j]).0 != to) ==> first_to(messages, to) == i,
{
    lemma_linked_only(messages, linked);
    lemma_first_to_bounds(messages, to);
    if exists|j: int| 0 <= j < messages.len() && (#[trigger] messages[j]).0 == to {
        let j = choose|j: int| 0 <= j < messages.len() && (#[trigger] messages[j]).0 == to;
        if first_to(messages, to) == messages.len() {
            assert(messages[j].0 != to);
        }
    }
    if 0 <= i < messages.len() && messages[i].0 == to && (forall|j: int|
        0 <= j < i ==> (#[trigger] messages[j]).0 != to) {
        lemma_first_to(messages, to, i);
        assert(messages.skip(i)[0] == messages[i]);
    }
}

proof fn lemma_linked_only<M>(messages: Seq<(NodeId, M)>, linked: Set<NodeId>)
    ensures
        linked_only(messages, linked) == messages.filter(|m: (NodeId, M)| linked.contains(m.0)),
    decreases messages.len(),
{
    reveal(Seq::filter);
    if messages.len() > 0 {
        lemma_linked_only(messages.drop_last(), linked);
    }
}

proof fn lemma_first_to_bounds<M>(messages: Seq<(NodeId, M)>, to: NodeId)
    ensures
        0 <= first_to(messages, to) <= messages.len(),
        first_to(messages, to) < messages.len() ==> messages[first_to(messages, to)].0 == to,
        forall|j: int| 0 <= j < first_to(messages, to) ==> (#[trigger] messages[j]).0 != to,
    decreases messages.len(),
{
    if messages.len() > 0 && messages[0].0 != to {
        let rest = messages.skip(1);
        lemma_first_to_bounds(rest, to);
        let n = first_to(messages, to);
        assert forall|j: int| 0 <= j < n implies (#[trigger] messages[j]).0 != to by {
            if j > 0 {
                assert(rest[j - 1] == messages[j]);
            }
        }
    }
}

/// A store with nothing to write owes nothing.
pub proof fn law_an_idle_store_owes_nothing(store: Engine)
    ensures
        !store.unflushed() ==> owed(store) == store.queue(),
        store.unflushed() ==> owed(store).len() == store.queue().len() + 1 && owed(store).last()
            == Edit::Flush && store.queue().is_prefix_of(owed(store)),
{
    if store.unflushed() {
        assert(store.queue() =~= owed(store).subrange(0, store.queue().len() as int));
    }
}

/// Entries, snapshots and reads are seen whole, and in order.
pub proof fn law_a_drain_is_seen_whole(
    entries: Seq<Committed>,
    snapshot: Option<Snapshot>,
    jobs: Seq<ReadJob>,
    i: int,
)
    ensures
        committed_views(entries).len() == entries.len(),
        0 <= i < entries.len() ==> {
            let seen = committed_views(entries)[i];
            &&& seen.term == entries[i].term
            &&& seen.index == entries[i].index
            &&& match entries[i].body {
                Body::Conf(Some(c)) => seen.body == BodyView::Conf(Some((c.op, c.node, c.context@))),
                Body::Conf(None) => seen.body == BodyView::Conf(None),
                Body::Command(bytes) => seen.body == BodyView::Command(bytes@),
            }
        },
        snapshot is None <==> snapshot_view(snapshot) is None,
        snapshot matches Some(s) ==> snapshot_view(snapshot) == Some(s@),
        job_views(jobs).len() == jobs.len(),
        0 <= i < jobs.len() ==> job_views(jobs)[i] == (
            jobs[i].group,
            jobs[i].key@,
            jobs[i].at,
            jobs[i].ticket,
        ),
{
}

/// Applying entries leaves the rest of a group alone: who it is, what readers see,
/// its reads, its snapshot, its lease and its settings.
pub proof fn law_applying_leaves_the_rest_alone(before: Group, after: Group)
    requires
        same_but_machine(before, after),
    ensures
        after.group == before.group,
        after.unreachable == before.unreachable,
        after.pending_reads == before.pending_reads,
        after.next_token == before.next_token,
        after.visible == before.visible,
        after.snapshot_index == before.snapshot_index,
        after.snapshot_threshold == before.snapshot_threshold,
        after.request_timeout == before.request_timeout,
        after.lease_reads == before.lease_reads,
        after.lease_duration == before.lease_duration,
        after.lease_until == before.lease_until,
        after.promote_learners == before.promote_learners,
        after.commit_seen == before.commit_seen,
        after.commit_moved_at == before.commit_moved_at,
{
}

/// Giving up on whoever waits leaves everything but who waits alone.
pub proof fn law_giving_up_leaves_the_rest_alone(before: Group, after: Group)
    requires
        same_but_waiting(before, after),
    ensures
        after.group == before.group,
        after.engine == before.engine,
        after.endpoints == before.endpoints,
        after.unreachable == before.unreachable,
        after.next_token == before.next_token,
        after.applied_index == before.applied_index,
        after.visible == before.visible,
        after.snapshot_index == before.snapshot_index,
        after.snapshot_threshold == before.snapshot_threshold,
        after.request_timeout == before.request_timeout,
        after.lease_reads == before.lease_reads,
        after.lease_duration == before.lease_duration,
        after.lease_until == before.lease_until,
        after.promote_learners == before.promote_learners,
        after.commit_seen == before.commit_seen,
        after.commit_moved_at == before.commit_moved_at,
{
}

/// Everyone who waits is counted: writers, readers and operators; and a node that
/// still leads gives up on nobody for not leading.
pub proof fn law_everyone_who_waits_is_counted(group: Group, view: NodeView)
    ensures
        waiting_of(group).writers == group.pending@,
        waiting_of(group).readers == group.pending_reads@,
        waiting_of(group).operators == group.pending_conf@,
        view.role == Role::Leader ==> after_deposing(waiting_of(group), view) == waiting_of(group),
{
}

/// Applying a batch carries its entries out one after the other, in order, on
/// the group it is given, and says whether the membership moved; an entry that
/// cannot be read stops it.
pub proof fn law_a_batch_is_carried_out_on_its_group(
    before: Group,
    after: Group,
    committed: &Vec<Committed>,
    leader: Option<NodeId>,
    r: (Vec<Reply>, Result<bool, DrainError>),
)
    requires
        before.wf(),
        exists|group: &mut Group| #[trigger]
            call_ensures(Group::apply_committed, (group, committed, leader), r) && *group == before
                && *final(group) == after,
    ensures
        same_but_machine(before, after),
        r.1 matches Ok(moved) ==> batch_applied(
            machine_of(before),
            committed_views(committed@),
            leader,
        ) == Ok::<_, DrainError>((Machine { replies: r.0@, moved, ..machine_of(after) })),
        r.1 matches Err(e) ==> batch_applied(machine_of(before), committed_views(committed@), leader)
            == Err::<Machine, _>(e),
        // What came before the entry that stopped it stands.
        r.1 is Err ==> ({
            let entries = committed_views(committed@);
            let n = applied_count(machine_of(before), entries, leader) as int;
            batch_applied(machine_of(before), entries.take(n), leader) matches Ok(stands)
                && stands.state == after.engine@ && stands.applied == after.applied_index
                && stands.replies == r.0@ && stands.pending == after.pending@ && stands.confs
                == after.pending_conf@
        }),
        committed@.len() == 0 ==> r.1 == Ok::<_, DrainError>(false) && r.0@.len() == 0
            && after.engine@ == before.engine@ && after.applied_index == before.applied_index,
{
}

/// A stage of a drain hands on what it was given: the entries, the snapshot and
/// the confirmations, as the core gave them.
pub proof fn law_a_drain_hands_on_what_it_was_given<M>(
    ready: Ready<M>,
    begun: Unsynced<M>,
    log: BitcaskStorage,
    log_after: BitcaskStorage,
    synced: (Vec<Write>, Unflushed<M>),
)
    requires
        call_ensures(Unsynced::<M>::begin, (ready,), begun),
        log.wf(),
        exists|l: &mut BitcaskStorage| #[trigger]
            call_ensures(Unsynced::<M>::sync, (begun, l), synced) && *l == log && *final(l)
                == log_after,
    ensures
        synced.1.messages() == ready.messages@,
        synced.1.committed() == committed_views(ready.committed@),
        synced.1.snapshot() == snapshot_view(ready.snapshot),
        synced.1.read_states() == ready.read_states@,
        // The log is as it was, and everything it owes the disk goes out.
        log_after.state() == log.state(),
        edits(synced.0@) == owed(log.store()),
        !log_after.store().unflushed(),
        log_after.store().queue().len() == 0,
{
}

/// Nothing is sent before the log is on disk: a failed flush ends the drain with
/// its own error. After it, whoever asked is answered with the first message for
/// it, and every other message with a link goes out, in order.
pub proof fn law_nothing_is_sent_before_the_disk<M, E>(
    stage: Unflushed<M>,
    outcome: Result<(), E>,
    from: Option<NodeId>,
    linked: &BTreeSet<NodeId>,
    r: Result<(Outgoing<M>, Unapplied), E>,
)
    requires
        call_ensures(Unflushed::<M>::release::<E>, (stage, outcome, from, linked), r),
    ensures
        outcome matches Err(e) ==> r == Err::<(Outgoing<M>, Unapplied), E>(e),
        outcome is Ok ==> {
            &&& r matches Ok((out, rest))
            &&& rest.committed() == stage.committed()
            &&& rest.snapshot() == stage.snapshot()
            &&& rest.read_states() == stage.read_states()
            &&& !answers(stage.messages(), from) ==> out.answer is None && out.sends@
                == linked_only(stage.messages(), linked@)
            &&& answers(stage.messages(), from) ==> {
                let at = first_to(stage.messages(), from->0);
                &&& out.answer == Some(stage.messages()[at].1)
                &&& out.sends@ == linked_only(stage.messages().remove(at), linked@)
            }
        },
{
}

/// The entries of a drain are applied to the group as a batch, and what is left
/// of the drain is as it was.
pub proof fn law_a_drain_applies_its_entries(
    stage: Unapplied,
    before: Group,
    after: Group,
    leader: Option<NodeId>,
    r: (Vec<Reply>, Result<Unimaged, DrainError>),
)
    requires
        before.wf(),
        exists|group: &mut Group| #[trigger]
            call_ensures(Unapplied::apply, (stage, group, leader), r) && *group == before
                && *final(group) == after,
    ensures
        same_but_machine(before, after),
        r.1 matches Ok(rest) ==> {
            &&& batch_applied(machine_of(before), stage.committed(), leader) == Ok::<_, DrainError>(
                (Machine { replies: r.0@, moved: rest.moved(), ..machine_of(after) }),
            )
            &&& rest.snapshot() == stage.snapshot()
            &&& rest.read_states() == stage.read_states()
        },
        r.1 matches Err(e) ==> batch_applied(machine_of(before), stage.committed(), leader)
            == Err::<Machine, _>(e),
        r.1 is Err ==> ({
            let n = applied_count(machine_of(before), stage.committed(), leader) as int;
            batch_applied(machine_of(before), stage.committed().take(n), leader) matches Ok(stands)
                && stands.state == after.engine@ && stands.applied == after.applied_index
                && stands.replies == r.0@ && stands.pending == after.pending@ && stands.confs
                == after.pending_conf@
        }),
{
}

/// An image is taken exactly where it is due by the threshold, of all that is
/// applied, under the term and the membership it is given; it is flushed before
/// it is handed over, and the log is cut behind it only where the core took it.
pub proof fn law_an_image_is_taken_when_due(
    stage: Unimaged,
    group: &Group,
    next: Imaging,
    due_stage: ImageDue,
    before: Group,
    after: Group,
    term: Term,
    config: &ClusterConfig,
    r: (Vec<Write>, Unwritten),
)
    requires
        call_ensures(Unimaged::next, (stage, group), next),
        before.wf(),
        exists|g: &mut Group| #[trigger]
            call_ensures(ImageDue::image, (due_stage, g, term, config), r) && *g == before
                && *final(g) == after,
    ensures
        next is Due <==> due(*group),
        next matches Imaging::Due(d) ==> d.rest().snapshot() == stage.snapshot()
            && d.rest().read_states() == stage.read_states() && d.rest().moved() == stage.moved(),
        next matches Imaging::NotDue(d) ==> d.snapshot() == stage.snapshot() && d.read_states()
            == stage.read_states() && d.moved() == stage.moved(),
        r.1.image().index == before.applied_index,
        r.1.image().term == term,
        r.1.image().voters == config.voters@,
        r.1.image().learners == config.learners@,
        // Keys and values of four gigabytes and more do not fit an image.
        before.engine@.len() <= u64::MAX && (forall|k: Seq<u8>| #[trigger]
            before.engine@.contains_key(k) ==> k.len() <= u32::MAX && before.engine@[k].len()
                <= u32::MAX) ==> restored(r.1.image()) == Ok::<_, DrainError>(before.engine@),
        r.1.rest() == due_stage.rest(),
        after == (Group { engine: after.engine, ..before }),
        after.engine@ == before.engine@,
        edits(r.0@) == owed(before.engine),
{
    if before.engine@.len() <= u64::MAX && (forall|k: Seq<u8>| #[trigger]
        before.engine@.contains_key(k) ==> k.len() <= u32::MAX && before.engine@[k].len()
            <= u32::MAX) {
        law_snapshot_carries_the_state(r.1.image(), before.engine@);
    }
}

/// An image that could not be written goes nowhere; one that could is handed to
/// the core as it is, and only where the core takes it does the boundary move,
/// to the image's own index.
pub proof fn law_the_boundary_moves_with_the_image<E>(
    stage: Unwritten,
    flushed: Result<(), E>,
    written: Result<(Snapshot, Untaken), E>,
    untaken: Untaken,
    before: Group,
    after: Group,
    outcome: Result<bool, E>,
    taken: Result<Unsettled, E>,
)
    requires
        call_ensures(Unwritten::written::<E>, (stage, flushed), written),
        exists|g: &mut Group| #[trigger]
            call_ensures(Untaken::taken::<E>, (untaken, g, outcome), taken) && *g == before
                && *final(g) == after,
    ensures
        flushed matches Err(e) ==> written == Err::<(Snapshot, Untaken), E>(e),
        flushed is Ok ==> {
            &&& written matches Ok((image, rest))
            &&& image@ == stage.image()
            &&& rest.index() == stage.image().index
            &&& rest.rest() == stage.rest()
        },
        outcome matches Err(e) ==> taken == Err::<Unsettled, E>(e) && after == before,
        outcome matches Ok(accepted) ==> {
            &&& taken == Ok::<Unsettled, E>(untaken.rest())
            &&& accepted ==> after == (Group { snapshot_index: untaken.index(), ..before })
            &&& !accepted ==> after == before
        },
{
}

/// Restoring a snapshot replaces the state and the book by the snapshot's, and
/// moves the indexes forward to its boundary, never back; a snapshot that cannot
/// be read changes nothing.
pub proof fn law_a_snapshot_replaces_the_state(
    before: Group,
    after: Group,
    snap: &Snapshot,
    r: Result<(), DrainError>,
)
    requires
        before.wf(),
        exists|g: &mut Group| #[trigger]
            call_ensures(Group::restore_snapshot, (g, snap), r) && *g == before && *final(g)
                == after,
    ensures
        r is Ok <==> restored(snap@) is Ok,
        r matches Err(e) ==> restored(snap@) == Err::<Map<Seq<u8>, Seq<u8>>, _>(e) && after
            == before,
        r is Ok ==> {
            &&& restored(snap@) == Ok::<_, DrainError>(after.engine@)
            &&& book(after.endpoints@) == endpoints_of(after.engine@)
            &&& after.applied_index >= before.applied_index
            &&& after.applied_index >= snap.last_included_index
            &&& after.applied_index == before.applied_index || after.applied_index
                == snap.last_included_index
            &&& after.snapshot_index >= before.snapshot_index
            &&& after.snapshot_index >= snap.last_included_index
            &&& after.snapshot_index == before.snapshot_index || after.snapshot_index
                == snap.last_included_index
            &&& after == (Group {
                engine: after.engine,
                endpoints: after.endpoints,
                applied_index: after.applied_index,
                snapshot_index: after.snapshot_index,
                ..before
            })
        },
{
}

/// A drain restores the snapshot that the core handed over, if it did, and that
/// alone; the membership has then moved.
pub proof fn law_a_drain_restores_its_snapshot(
    stage: Unsettled,
    before: Group,
    after: Group,
    r: Result<Unpublished, DrainError>,
)
    requires
        before.wf(),
        exists|g: &mut Group| #[trigger]
            call_ensures(Unsettled::restore, (stage, g), r) && *g == before && *final(g) == after,
    ensures
        r matches Ok(rest) ==> rest.read_states() == stage.read_states() && (rest.moved()
            <==> stage.moved() || stage.snapshot() is Some),
        stage.snapshot() is None ==> r is Ok && after == before,
        stage.snapshot() matches Some(snap) ==> {
            &&& r is Ok <==> restored(snap) is Ok
            &&& r matches Err(e) ==> restored(snap) == Err::<Map<Seq<u8>, Seq<u8>>, _>(e) && after
                == before
            &&& r is Ok ==> {
                &&& restored(snap) == Ok::<_, DrainError>(after.engine@)
                &&& book(after.endpoints@) == endpoints_of(after.engine@)
                &&& after.applied_index == if before.applied_index < snap.index {
                    snap.index
                } else {
                    before.applied_index
                }
                &&& after.snapshot_index == if before.snapshot_index < snap.index {
                    snap.index
                } else {
                    before.snapshot_index
                }
                &&& after == (Group {
                    engine: after.engine,
                    endpoints: after.endpoints,
                    applied_index: after.applied_index,
                    snapshot_index: after.snapshot_index,
                    ..before
                })
            }
        },
{
}

/// Readers are shown everything that is applied once the copy they read was
/// swapped, or where it needs no swap; else they go on seeing what they saw.
pub proof fn law_readers_see_what_was_swapped_in(
    before: Group,
    after: Group,
    swapped: bool,
    needed: bool,
    r: (),
)
    requires
        before.wf(),
        call_ensures(Group::needs_publish, (&before,), needed),
        exists|g: &mut Group| #[trigger]
            call_ensures(Group::publish, (g, swapped), r) && *g == before && *final(g) == after,
    ensures
        needed <==> before.engine.unpublished(),
        after.engine@ == before.engine@,
        swapped || !needed ==> after.visible.index == before.applied_index
            && !after.engine.unpublished(),
        needed && !swapped ==> after == before,
        after == (Group { engine: after.engine, visible: after.visible, ..before }),
{
}

/// A confirmation says of the read with its token where it may be served, and
/// extends the lease from now; with none, nothing changes.
pub proof fn law_a_round_of_confirmations(
    before: Group,
    after: Group,
    states: &Vec<ReadState>,
    now: Nanos,
    r: (),
    token: u64,
    i: int,
)
    requires
        before.wf(),
        now < MAX_NANOS,
        exists|g: &mut Group| #[trigger]
            call_ensures(Group::confirm_reads, (g, states, now), r) && *g == before && *final(g)
                == after,
    ensures
        states@.len() > 0 ==> after.lease_until == Some((now + before.lease_duration) as u128),
        states@.len() == 0 ==> after.lease_until == before.lease_until,
        after == (Group {
            pending_reads: after.pending_reads,
            lease_until: after.lease_until,
            ..before
        }),
        after.pending_reads@.contains_key(token) <==> before.pending_reads@.contains_key(token),
        before.pending_reads@.contains_key(token) ==> {
            let was = before.pending_reads@[token];
            let is = after.pending_reads@[token];
            &&& is.key == was.key && is.ticket == was.ticket && is.deadline == was.deadline
            &&& (forall|j: int| 0 <= j < states@.len() ==> (#[trigger] states@[j]).token != token)
                ==> is.confirmed_at == was.confirmed_at
            &&& 0 <= i < states@.len() && states@[i].token == token && (forall|j: int|
                i < j < states@.len() ==> (#[trigger] states@[j]).token != token)
                ==> is.confirmed_at == Some(states@[i].index)
        },
{
    law_a_confirmation_is_for_its_read(before.pending_reads@, states@, token, i);
}

/// A read is served once readers see the index it was confirmed at: it is handed
/// out for its own key and caller and waits no longer; every other read waits on.
pub proof fn law_a_covered_read_is_handed_out(
    before: Group,
    after: Group,
    jobs: Vec<ReadJob>,
    token: u64,
)
    requires
        before.wf(),
        exists|g: &mut Group| #[trigger]
            call_ensures(Group::serve_ready_reads, (g,), jobs) && *g == before && *final(g)
                == after,
        before.pending_reads@.contains_key(token),
    ensures
        ({
            let read = before.pending_reads@[token];
            let covered = read.confirmed_at matches Some(index) && index
                <= before.visible.index;
            &&& covered ==> !after.pending_reads@.contains_key(token) && job_views(jobs@).contains(
                (before.group, read.key@, read.confirmed_at->0, read.ticket),
            )
            &&& !covered ==> after.pending_reads@.contains_key(token)
                && after.pending_reads@[token] == read
            &&& jobs@.len() + after.pending_reads@.len() == before.pending_reads@.len()
            &&& after == (Group { pending_reads: after.pending_reads, ..before })
        }),
{
    let reads = before.pending_reads@;
    let ready = ready_reads(reads, before.visible.index);
    assert(reads_confirmed(reads, Seq::empty()) =~= reads);
    law_exactly_the_covered_reads_are_served(before, Seq::empty(), before.visible.index, token);
    assert(job_views(jobs@).len() == jobs@.len());
    assert(after.pending_reads@.dom() =~= reads.dom().difference(ready));
    assert(ready.subset_of(reads.dom()));
    vstd::set_lib::lemma_set_difference_len(reads.dom(), ready);
    assert(reads.dom().intersect(ready) =~= ready);
}

/// A learner is promoted only by a leader of a group that promotes, only once it
/// holds everything that is committed, and the first such learner is the one.
pub proof fn law_a_leader_promotes_who_caught_up(
    group: &Group,
    view: &NodeView,
    matched: &BTreeMap<NodeId, LogIndex>,
    change: Option<ConfChange>,
)
    requires
        call_ensures(Group::promotion, (group, view, matched), change),
    ensures
        change matches Some(c) ==> {
            &&& group.promote_learners
            &&& view.role == Role::Leader
            &&& c.op == ConfOp::Promote
            &&& c.context@.len() == 0
            &&& first_caught_up(view.config.learners@, matched@, view.commit_index) == Some(c.node)
        },
        group.promote_learners && view.role == Role::Leader && first_caught_up(
            view.config.learners@,
            matched@,
            view.commit_index,
        ) is Some ==> change is Some,
{
}

/// A node that no longer leads keeps nobody waiting: everyone is told whom to
/// ask. One that leads sends nobody away for that.
pub proof fn law_a_deposed_node_dismisses_everyone(
    before: Group,
    after: Group,
    view: &NodeView,
    replies: Vec<Reply>,
    key: u64,
)
    requires
        before.wf(),
        exists|g: &mut Group| #[trigger]
            call_ensures(Group::dismiss_if_deposed, (g, view), replies) && *g == before
                && *final(g) == after,
    ensures
        view.role == Role::Leader ==> after == before && replies@.len() == 0,
        view.role != Role::Leader ==> {
            &&& !after.pending@.contains_key(key)
            &&& !after.pending_reads@.contains_key(key)
            &&& !after.pending_conf@.contains_key(key)
            &&& replies@.len() == before.pending@.len() + before.pending_reads@.len()
                + before.pending_conf@.len()
            &&& before.pending@.contains_key(key) ==> replies@.contains(
                Reply {
                    ticket: before.pending@[key].ticket,
                    answer: Answer::Client(ClientReply::NotLeader { hint: view.leader }),
                },
            )
            &&& before.pending_reads@.contains_key(key) ==> replies@.contains(
                Reply {
                    ticket: before.pending_reads@[key].ticket,
                    answer: Answer::Client(ClientReply::NotLeader { hint: view.leader }),
                },
            )
            &&& before.pending_conf@.contains_key(key) ==> replies@.contains(
                Reply {
                    ticket: before.pending_conf@[key].ticket,
                    answer: Answer::Admin(AdminReply::NotLeader { hint: view.leader }),
                },
            )
        },
        same_but_waiting(before, after),
{
    if view.role != Role::Leader {
        law_only_the_overdue_are_sent_away(waiting_of(before), None, view.leader, key);
        assert(waiting_of(after).writers =~= Map::<LogIndex, Pending>::empty());
        assert(waiting_of(after).readers =~= Map::<u64, PendingRead>::empty());
        assert(waiting_of(after).operators =~= Map::<LogIndex, Pending>::empty());
    }
}

/// Only a node whose commit index stands still for as long as a request may
/// take, or that does not lead, sends away those whose deadline has passed; the
/// others wait on. What was seen of the commit index is noted.
pub proof fn law_only_the_overdue_expire(
    before: Group,
    after: Group,
    view: &NodeView,
    now: Nanos,
    replies: Vec<Reply>,
    key: u64,
)
    requires
        before.wf(),
        exists|g: &mut Group| #[trigger]
            call_ensures(Group::expire_stale_requests, (g, view, now), replies) && *g == before
                && *final(g) == after,
    ensures
        ({
            let still: int = if view.commit_index > before.commit_seen || now
                < before.commit_moved_at {
                0
            } else {
                now - before.commit_moved_at
            };
            let away = view.role != Role::Leader || still >= before.request_timeout;
            &&& !away ==> replies@.len() == 0 && waiting_of(after) == waiting_of(before)
            &&& away ==> {
                &&& after.pending@.contains_key(key) <==> before.pending@.contains_key(key)
                    && before.pending@[key].deadline > now
                &&& after.pending_reads@.contains_key(key) <==> before.pending_reads@.contains_key(
                    key,
                ) && before.pending_reads@[key].deadline > now
                &&& after.pending_conf@.contains_key(key) <==> before.pending_conf@.contains_key(
                    key,
                ) && before.pending_conf@[key].deadline > now
                &&& replies@ == farewells(waiting_of(before), Some(now), view.leader)
            }
            &&& view.commit_index > before.commit_seen ==> after.commit_seen == view.commit_index
                && after.commit_moved_at == now
            &&& view.commit_index <= before.commit_seen ==> after.commit_seen == before.commit_seen
                && after.commit_moved_at == before.commit_moved_at
            &&& same_but_waiting(
                (Group {
                    commit_seen: after.commit_seen,
                    commit_moved_at: after.commit_moved_at,
                    ..before
                }),
                after,
            )
        }),
{
    law_only_a_stalled_leader_sends_clients_away(before, *view, now);
    law_only_the_overdue_are_sent_away(waiting_of(before), Some(now), view.leader, key);
}

/// The end of a drain: readers see what was swapped in, the confirmations extend
/// the lease and cover their reads, the covered reads are handed out, a leader
/// promotes who caught up, and whoever this node can no longer serve is told
/// whom to ask.
pub proof fn law_a_drain_ends(
    stage: Unpublished,
    before: Group,
    after: Group,
    swapped: bool,
    view: &NodeView,
    matched: &BTreeMap<NodeId, LogIndex>,
    now: Nanos,
    out: Finished,
    token: u64,
)
    requires
        before.wf(),
        now < MAX_NANOS,
        exists|g: &mut Group| #[trigger]
            call_ensures(Unpublished::finish, (stage, g, swapped, view, matched, now), out) && *g
                == before && *final(g) == after,
    ensures
        after.engine@ == before.engine@,
        out.membership_moved == stage.moved(),
        after.visible.index == if swapped || !before.engine.unpublished() {
            before.applied_index
        } else {
            before.visible.index
        },
        stage.read_states().len() > 0 ==> after.lease_until == Some(
            (now + before.lease_duration) as u128,
        ),
        stage.read_states().len() == 0 ==> after.lease_until == before.lease_until,
        ({
            let reads = reads_confirmed(before.pending_reads@, stage.read_states());
            let covered = reads.contains_key(token) && (reads[token].confirmed_at matches Some(
                index,
            ) && index <= after.visible.index);
            covered ==> job_views(out.jobs@).contains(
                (
                    before.group,
                    reads[token].key@,
                    reads[token].confirmed_at->0,
                    reads[token].ticket,
                ),
            )
        }),
        out.promotion matches Some(c) ==> before.promote_learners && view.role == Role::Leader
            && c.op == ConfOp::Promote && first_caught_up(
            view.config.learners@,
            matched@,
            view.commit_index,
        ) == Some(c.node),
        before.promote_learners && view.role == Role::Leader && first_caught_up(
            view.config.learners@,
            matched@,
            view.commit_index,
        ) is Some ==> out.promotion is Some,
        view.role != Role::Leader ==> !after.pending@.contains_key(token)
            && !after.pending_reads@.contains_key(token) && !after.pending_conf@.contains_key(token),
        view.role == Role::Leader && !sends_away(before, *view, now) ==> out.replies@.len() == 0
            && after.pending@ == before.pending@ && after.pending_conf@ == before.pending_conf@,
        after.applied_index == before.applied_index && after.snapshot_index
            == before.snapshot_index && after.endpoints == before.endpoints && after.group
            == before.group && after.next_token == before.next_token,
{
    let visible = visible_after(before, swapped);
    law_what_is_visible_follows_what_is_applied(before, swapped);
    law_exactly_the_covered_reads_are_served(before, stage.read_states(), visible, token);
    if view.role != Role::Leader {
        let kept = after_deposing(after_reads(before, stage.read_states(), visible), *view);
        law_a_deposed_leader_keeps_nobody_waiting(
            after_reads(before, stage.read_states(), visible),
            *view,
        );
        assert(!kept.writers.dom().contains(token) && !kept.readers.dom().contains(token)
            && !kept.operators.dom().contains(token));
    }
}

} // verus!
