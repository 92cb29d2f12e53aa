//! Names and values shared by every part of the store.

use vstd::prelude::*;

use crate::bytes::copy_all;

verus! {

/// A node of the cluster. Ids start at 1.
pub type NodeId = u64;

/// A position in a Raft log. The first entry's is 1.
pub type LogIndex = u64;

/// A Raft term.
pub type Term = u64;

/// A slice of the key space.
pub type ShardId = u16;

/// A span of time, or a moment on the process's clock, in nanoseconds.
pub type Nanos = u128;

/// The longest span of time, and the latest moment, that the clock can say:
/// two to the 64 seconds.
pub const MAX_NANOS: Nanos = 18_446_744_073_709_551_616_000_000_000;

/// `n` milliseconds.
pub fn millis(n: u64) -> (t: Nanos)
    ensures
        t == n * 1_000_000,
        t <= MAX_NANOS,
{
    n as u128 * 1_000_000
}

/// What a node is in its Raft group.
#[derive(Debug, Clone, Copy, PartialEq, Eq, Structural)]
pub enum Role {
    Follower,
    Candidate,
    Leader,
}

/// One entry of a Raft log.
#[derive(Debug, PartialEq, Eq)]
pub struct Entry {
    pub term: Term,
    pub index: LogIndex,
    pub command: Vec<u8>,
}

impl View for Entry {
    type V = (Term, LogIndex, Seq<u8>);

    open spec fn view(&self) -> (Term, LogIndex, Seq<u8>) {
        (self.term, self.index, self.command@)
    }
}

/// What a Raft node must not forget.
#[derive(Debug, Clone, Copy, PartialEq, Eq, Structural)]
pub struct HardState {
    pub current_term: Term,
    pub voted_for: Option<NodeId>,
    pub commit_index: LogIndex,
}

/// Who is in a Raft group. Each list is in increasing order.
#[derive(Debug, PartialEq, Eq)]
pub struct ClusterConfig {
    pub voters: Vec<NodeId>,
    pub learners: Vec<NodeId>,
}

impl View for ClusterConfig {
    type V = (Seq<NodeId>, Seq<NodeId>);

    open spec fn view(&self) -> (Seq<NodeId>, Seq<NodeId>) {
        (self.voters@, self.learners@)
    }
}

/// Whether `id` is one of `ids`.
pub fn holds(ids: &[NodeId], id: NodeId) -> (r: bool)
    ensures
        r == ids@.contains(id),
{
    let mut i: usize = 0;
    while i < ids.len()
        invariant
            i <= ids@.len(),
            forall|j: int| 0 <= j < i ==> ids@[j] != id,
        decreases ids@.len() - i,
    {
        if ids[i] == id {
            return true;
        }
        i += 1;
    }
    false
}

/// A copy of a list of ids.
pub fn copy_ids(ids: &[NodeId]) -> (out: Vec<NodeId>)
    ensures
        out@ == ids@,
{
    let mut out: Vec<NodeId> = Vec::new();
    let mut i: usize = 0;
    while i < ids.len()
        invariant
            i <= ids@.len(),
            out@ == ids@.take(i as int),
        decreases ids@.len() - i,
    {
        out.push(ids[i]);
        i += 1;
        assert(out@ =~= ids@.take(i as int));
    }
    assert(ids@.take(i as int) =~= ids@);
    out
}

impl ClusterConfig {
    /// Whether `id` votes in the group.
    pub fn is_voter(&self, id: NodeId) -> (r: bool)
        ensures
            r == self.voters@.contains(id),
    {
        holds(&self.voters, id)
    }

    /// Whether `id` is in the group at all.
    pub fn contains(&self, id: NodeId) -> (r: bool)
        ensures
            r == (self.voters@.contains(id) || self.learners@.contains(id)),
    {
        holds(&self.voters, id) || holds(&self.learners, id)
    }

    /// A copy.
    pub fn copy(&self) -> (c: ClusterConfig)
        ensures
            c@ == self@,
    {
        ClusterConfig { voters: copy_ids(&self.voters), learners: copy_ids(&self.learners) }
    }
}

/// A state image, the log boundary it replaces and the membership there.
#[derive(Debug, PartialEq, Eq)]
pub struct Snapshot {
    pub last_included_index: LogIndex,
    pub last_included_term: Term,
    pub data: Vec<u8>,
    pub config: ClusterConfig,
}

/// A [`Snapshot`] as a mathematical value.
#[verifier::ext_equal]
pub struct SnapshotView {
    pub index: LogIndex,
    pub term: Term,
    pub data: Seq<u8>,
    pub voters: Seq<NodeId>,
    pub learners: Seq<NodeId>,
}

impl View for Snapshot {
    type V = SnapshotView;

    open spec fn view(&self) -> SnapshotView {
        SnapshotView {
            index: self.last_included_index,
            term: self.last_included_term,
            data: self.data@,
            voters: self.config.voters@,
            learners: self.config.learners@,
        }
    }
}

impl Snapshot {
    /// A copy.
    pub fn copy(&self) -> (s: Snapshot)
        ensures
            s@ == self@,
    {
        Snapshot {
            last_included_index: self.last_included_index,
            last_included_term: self.last_included_term,
            data: copy_all(&self.data),
            config: self.config.copy(),
        }
    }
}

/// An entry, a membership and a snapshot are seen whole: nothing of them is left
/// out of what is said of them.
pub proof fn law_values_are_seen_whole(entry: Entry, config: ClusterConfig, snapshot: Snapshot)
    ensures
        entry@.0 == entry.term,
        entry@.1 == entry.index,
        entry@.2 == entry.command@,
        config@.0 == config.voters@,
        config@.1 == config.learners@,
        snapshot@.index == snapshot.last_included_index,
        snapshot@.term == snapshot.last_included_term,
        snapshot@.data == snapshot.data@,
        snapshot@.voters == snapshot.config.voters@,
        snapshot@.learners == snapshot.config.learners@,
{
}

/// A membership says of every node whether it votes and whether it is in it at
/// all.
pub proof fn law_a_membership_is_its_lists(
    config: &ClusterConfig,
    id: NodeId,
    votes: bool,
    within: bool,
    copy: ClusterConfig,
    n: u64,
    t: Nanos,
)
    requires
        call_ensures(ClusterConfig::is_voter, (config, id), votes),
        call_ensures(ClusterConfig::contains, (config, id), within),
        call_ensures(ClusterConfig::copy, (config,), copy),
        call_ensures(millis, (n,), t),
    ensures
        votes <==> config.voters@.contains(id),
        within <==> config.voters@.contains(id) || config.learners@.contains(id),
        copy.voters@ == config.voters@ && copy.learners@ == config.learners@,
        t == 1_000_000 * n,
{
}

} // verus!
