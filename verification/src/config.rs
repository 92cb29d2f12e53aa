//! A node's configuration.

use std::collections::BTreeMap;

use vstd::prelude::*;
use vstd::string::*;

use crate::group::GroupId;
use crate::ids::{in_order, keys_of};
use crate::membership::book;
use crate::text::{as_chars, ascii_text, chars_of, decimal, decimal_text, digits, join_text,
    lemma_digits, parsed, push_digits};
use crate::types::{Nanos, NodeId, ShardId, MAX_NANOS};

verus! {

broadcast use {vstd::std_specs::btree::group_btree_axioms, vstd::laws_cmp::group_laws_cmp};

/// Which index over its keys a state machine holds.
#[derive(Debug, Clone, Copy, PartialEq, Eq, Structural)]
pub enum KeydirImpl {
    /// Two copies, so readers never take a lock.
    LeftRight,
    /// One copy behind a lock.
    Locked,
}

impl Default for KeydirImpl {
    fn default() -> (k: Self)
        ensures
            k == KeydirImpl::LeftRight,
    {
        KeydirImpl::LeftRight
    }
}

/// When a store makes what is written to it durable of itself.
#[derive(Debug, Clone, Copy, PartialEq, Eq, Structural)]
pub enum LogFsync {
    /// After every write.
    EveryWrite,
    /// Not before it is asked to. What is written to a log is asked for before
    /// anything is sent, so one flush covers a whole batch.
    GroupCommit,
    /// Never: what a benchmark of everything else runs with.
    Never,
}

impl Default for LogFsync {
    fn default() -> (f: Self)
        ensures
            f == LogFsync::GroupCommit,
    {
        LogFsync::GroupCommit
    }
}

/// How one node is set up.
#[derive(Debug)]
pub struct NodeConfig {
    pub id: NodeId,
    /// Where this node serves.
    pub listen: String,
    /// Peer id to endpoint. Excludes ourselves.
    pub peers: BTreeMap<NodeId, String>,
    pub data_dir: String,
    /// Wall-clock length of one Raft logical tick.
    pub tick: Nanos,
    pub election_timeout: u64,
    pub heartbeat_interval: u64,
    /// Serve reads from the leader's lease instead of confirming a quorum per
    /// read: correct only while clock drift stays inside the margin.
    pub lease_reads: bool,
    pub keydir: KeydirImpl,
    /// Applied log entries past the last snapshot before the next one is taken.
    pub snapshot_threshold: u64,
    /// This node is joining an existing cluster rather than founding one.
    pub initial_learner: bool,
    /// These three seed version 1 of the shard map; the map owns them after.
    pub num_shards: u16,
    pub replication_factor: u8,
    pub vnodes_per_node: u32,
    /// How many shards may be moving at once.
    pub max_migrations: usize,
    /// When the groups' logs are durable.
    pub log_fsync: LogFsync,
    /// When the state machines are: what is in one can be had from its log.
    pub state_fsync: LogFsync,
}

/// What one Raft group's core is started with.
#[derive(Debug, PartialEq, Eq)]
pub struct RaftConfig {
    pub id: NodeId,
    pub peers: Vec<NodeId>,
    pub election_timeout: u64,
    pub heartbeat_interval: u64,
    pub seed: u64,
    pub initial_learner: bool,
}

impl RaftConfig {
    /// How many nodes the group starts with, counting this one.
    pub fn cluster_size(&self) -> (n: usize)
        requires
            self.peers@.len() < usize::MAX,
        ensures
            n == self.peers@.len() + 1,
    {
        self.peers.len() + 1
    }
}

/// The multiplier that spreads node ids.
pub const ID_SPREAD: u64 = 0x9E37_79B9_7F4A_7C15;

/// The multiplier that spreads group numbers.
pub const GROUP_SPREAD: u64 = 0xD1B5_4A32_D192_ED03;

/// A node's election seed for one of its groups.
pub open spec fn seed_of(id: NodeId, group: GroupId) -> u64 {
    id.wrapping_mul(ID_SPREAD) ^ (group as u64).wrapping_mul(GROUP_SPREAD)
}

/// A multiplication that wraps is undone by one, where the two factors multiply
/// to one: so no two numbers are multiplied to the same.
proof fn lemma_spread_injective(x: u64, y: u64, factor: u64, inverse: u64)
    requires
        (factor * inverse) % 0x1_0000_0000_0000_0000 == 1,
        x.wrapping_mul(factor) == y.wrapping_mul(factor),
    ensures
        x == y,
{
    lemma_unspread(x, factor, inverse);
    lemma_unspread(y, factor, inverse);
}

proof fn lemma_unspread(x: u64, factor: u64, inverse: u64)
    requires
        (factor * inverse) % 0x1_0000_0000_0000_0000 == 1,
    ensures
        (x.wrapping_mul(factor) * inverse) % 0x1_0000_0000_0000_0000 == x,
{
    let m: int = 0x1_0000_0000_0000_0000;
    let product: int = x as int * factor as int;
    assert(x.wrapping_mul(factor) == product % m) by {
        assert(x as nat * factor as nat == product);
    }
    vstd::arithmetic::div_mod::lemma_mul_mod_noop_left(product, inverse as int, m);
    assert(product * inverse as int == x as int * (factor as int * inverse as int))
        by (nonlinear_arith)
        requires
            product == x as int * factor as int,
    ;
    vstd::arithmetic::div_mod::lemma_mul_mod_noop_right(
        x as int,
        factor as int * inverse as int,
        m,
    );
    assert((x as int * 1) % m == x) by {
        assert(x as int * 1 == x);
    }
}

/// Identical seeds would make nodes draw identical election timeouts, campaign
/// on the same tick and split the vote forever. No two nodes have the same seed
/// for a group, and no two groups the same seed on a node.
pub proof fn law_seeds_differ(a: NodeId, b: NodeId, g: GroupId, h: GroupId)
    ensures
        a != b ==> seed_of(a, g) != seed_of(b, g),
        g != h ==> seed_of(a, g) != seed_of(a, h),
{
    let p = a.wrapping_mul(ID_SPREAD);
    let q = b.wrapping_mul(ID_SPREAD);
    let r = (g as u64).wrapping_mul(GROUP_SPREAD);
    let s = (h as u64).wrapping_mul(GROUP_SPREAD);
    assert(p ^ r == q ^ r ==> p == q) by (bit_vector);
    assert(p ^ r == p ^ s ==> r == s) by (bit_vector);
    if seed_of(a, g) == seed_of(b, g) {
        lemma_spread_injective(a, b, ID_SPREAD, 0xf1de_83e1_9937_733d);
    }
    if seed_of(a, g) == seed_of(a, h) {
        lemma_spread_injective(g as u64, h as u64, GROUP_SPREAD, 0x0610_6ccf_a448_e5ab);
    }
}

/// The path of `name` under `dir`.
pub open spec fn under(dir: Seq<char>, name: Seq<char>) -> Seq<char> {
    if dir.len() == 0 || dir.last() == '/' {
        dir + name
    } else {
        dir + "/"@ + name
    }
}

/// The path of `name` under `dir`.
pub(crate) fn path_under(dir: &str, name: &str) -> (path: String)
    ensures
        path@ == under(dir@, name@),
{
    let chars = chars_of(dir);
    if chars.len() == 0 || chars[chars.len() - 1] == '/' {
        join_text(dir, name)
    } else {
        join_text(join_text(dir, "/").as_str(), name)
    }
}

/// A shard's number in five digits, so that a listing sorts numerically.
pub open spec fn shard_name(shard: ShardId) -> Seq<char> {
    as_chars(digits(shard as nat, 5))
}

/// The path of `name` in a shard's directory.
pub open spec fn shard_path(dir: Seq<char>, shard: ShardId, name: Seq<char>) -> Seq<char> {
    under(under(under(dir, "shards"@), shard_name(shard)), name)
}

/// `dir` with the separator that a name behind it needs.
spec fn stem(dir: Seq<char>) -> Seq<char> {
    if dir.len() == 0 || dir.last() == '/' {
        dir
    } else {
        dir + "/"@
    }
}

proof fn lemma_under(dir: Seq<char>, name: Seq<char>)
    ensures
        under(dir, name) == stem(dir) + name,
        under(dir, name).len() >= dir.len(),
        dir.is_prefix_of(under(dir, name)),
{
    assert(under(dir, name) =~= stem(dir) + name);
    assert(dir =~= under(dir, name).subrange(0, dir.len() as int));
}

proof fn lemma_shard_path(dir: Seq<char>, shard: ShardId, name: Seq<char>)
    ensures
        shard_path(dir, shard, name) == stem(dir) + ("shards/"@ + shard_name(shard) + "/"@ + name),
        shard_name(shard).len() == 5,
        dir.is_prefix_of(shard_path(dir, shard, name)),
{
    reveal_strlit("/");
    reveal_strlit("shards");
    reveal_strlit("shards/");
    let all = under(dir, "shards"@);
    let one = under(all, shard_name(shard));
    lemma_digits(shard as nat, 5);
    lemma_under(dir, "shards"@);
    lemma_under(all, shard_name(shard));
    lemma_under(one, name);
    assert(all.last() == 's') by {
        assert(all[all.len() - 1] == "shards"@[5]);
    }
    assert(one.last() != '/') by {
        let last = shard_name(shard)[4];
        assert(48 <= digits(shard as nat, 5)[4] <= 57);
        assert(one[one.len() - 1] == last);
    }
    let tail = "shards/"@ + shard_name(shard) + "/"@ + name;
    assert("shards/"@ =~= "shards"@ + "/"@);
    assert(shard_path(dir, shard, name) =~= stem(dir) + tail);
    assert(dir =~= shard_path(dir, shard, name).subrange(0, dir.len() as int));
}

/// Every store has a directory of its own under the data directory: no two
/// shards share one, a shard's log and state machine do not, and neither does
/// the meta group; nor is any of them where the single-group layout was.
pub proof fn law_directories(dir: Seq<char>, a: ShardId, b: ShardId)
    ensures
        shard_path(dir, a, "raft"@) == shard_path(dir, b, "raft"@) ==> a == b,
        shard_path(dir, a, "state"@) == shard_path(dir, b, "state"@) ==> a == b,
        shard_path(dir, a, "raft"@) != shard_path(dir, b, "state"@),
        shard_path(dir, a, "raft"@) != under(dir, "meta-raft"@),
        shard_path(dir, a, "raft"@) != under(dir, "meta-state"@),
        shard_path(dir, a, "raft"@) != under(dir, "raft"@),
        shard_path(dir, a, "state"@) != under(dir, "meta-raft"@),
        shard_path(dir, a, "state"@) != under(dir, "meta-state"@),
        shard_path(dir, a, "state"@) != under(dir, "state"@),
        under(dir, "meta-raft"@) != under(dir, "meta-state"@),
        dir.is_prefix_of(shard_path(dir, a, "raft"@)),
        dir.is_prefix_of(shard_path(dir, a, "state"@)),
        dir.is_prefix_of(under(dir, "meta-raft"@)),
        dir.is_prefix_of(under(dir, "meta-state"@)),
{
    reveal_strlit("/");
    reveal_strlit("shards/");
    reveal_strlit("raft");
    reveal_strlit("state");
    reveal_strlit("meta-raft");
    reveal_strlit("meta-state");
    lemma_shard_path(dir, a, "raft"@);
    lemma_shard_path(dir, b, "raft"@);
    lemma_shard_path(dir, a, "state"@);
    lemma_shard_path(dir, b, "state"@);
    lemma_under(dir, "meta-raft"@);
    lemma_under(dir, "meta-state"@);
    lemma_under(dir, "raft"@);
    lemma_under(dir, "state"@);
    let n = stem(dir).len() as int;
    // The name stands seven characters behind the stem.
    assert forall|s: ShardId, name: Seq<char>|
        shard_path(dir, s, name) == stem(dir) + ("shards/"@ + shard_name(s) + "/"@ + name)
            && shard_name(s).len() == 5 implies #[trigger] shard_path(dir, s, name).subrange(
        n + 7,
        n + 12,
    ) == shard_name(s) by {
        assert(shard_path(dir, s, name).subrange(n + 7, n + 12) =~= shard_name(s));
    }
    if shard_path(dir, a, "raft"@) == shard_path(dir, b, "raft"@) || shard_path(dir, a, "state"@)
        == shard_path(dir, b, "state"@) {
        assert(shard_path(dir, a, "raft"@).subrange(n + 7, n + 12) == shard_name(a));
        assert(shard_path(dir, b, "raft"@).subrange(n + 7, n + 12) == shard_name(b));
        assert(shard_path(dir, a, "state"@).subrange(n + 7, n + 12) == shard_name(a));
        assert(shard_path(dir, b, "state"@).subrange(n + 7, n + 12) == shard_name(b));
        lemma_shard_names(a, b);
    }
    assert(shard_path(dir, a, "raft"@).len() == n + 17);
    assert(shard_path(dir, b, "state"@).len() == n + 18);
    assert(shard_path(dir, a, "raft"@)[n] == 's');
    assert(shard_path(dir, a, "state"@)[n] == 's');
    assert(under(dir, "meta-raft"@)[n] == 'm');
    assert(under(dir, "meta-state"@)[n] == 'm');
    assert(under(dir, "raft"@).len() == n + 4);
    assert(under(dir, "state"@).len() == n + 5);
    assert(under(dir, "meta-raft"@).len() == n + 9);
    assert(under(dir, "meta-state"@).len() == n + 10);
}

/// Two shards with the same name are the same shard.
proof fn lemma_shard_names(a: ShardId, b: ShardId)
    ensures
        shard_name(a) == shard_name(b) ==> a == b,
{
    if shard_name(a) == shard_name(b) {
        let x = digits(a as nat, 5);
        let y = digits(b as nat, 5);
        lemma_digits(a as nat, 5);
        lemma_digits(b as nat, 5);
        crate::text::lemma_pow10_widths();
        assert forall|i: int| 0 <= i < 5 implies x[i] == y[i] by {
            assert(shard_name(a)[i] == x[i] as char);
            assert(shard_name(b)[i] == y[i] as char);
        }
        assert(x =~= y);
        crate::text::lemma_digits_injective(a as nat, b as nat, 5);
    }
}

fn shard_text(shard: ShardId) -> (name: String)
    ensures
        name@ == shard_name(shard),
{
    let mut out: Vec<u8> = Vec::new();
    push_digits(&mut out, shard as u64, 5);
    proof {
        lemma_digits(shard as nat, 5);
        assert(out@ =~= digits(shard as nat, 5));
    }
    ascii_text(out)
}

/// A node's election timeout in ticks, as the 32 bits a tick can be multiplied
/// by.
pub open spec fn timeout_ticks(election_timeout: u64) -> nat {
    election_timeout as nat % 0x1_0000_0000
}

/// How long a leadership lease is good for: two thirds of an election timeout.
pub open spec fn lease_of(tick: Nanos, election_timeout: u64) -> nat {
    tick as nat * timeout_ticks(election_timeout) * 2 / 3
}

/// How long a client's request may wait: six election timeouts.
pub open spec fn request_timeout_of(tick: Nanos, election_timeout: u64) -> nat {
    tick as nat * timeout_ticks(election_timeout) * 6
}

impl NodeConfig {
    /// The spans of time that the configuration names can be told by the clock.
    pub open spec fn times_fit(&self) -> bool {
        &&& request_timeout_of(self.tick, self.election_timeout) < MAX_NANOS
        &&& self.tick < MAX_NANOS
    }

    fn timeout(&self) -> (t: Nanos)
        requires
            self.tick * timeout_ticks(self.election_timeout) < MAX_NANOS,
        ensures
            t == self.tick * timeout_ticks(self.election_timeout),
    {
        let ticks: u128 = self.election_timeout as u128 % 0x1_0000_0000;
        self.tick * ticks
    }

    /// How long a leadership lease is good for, once a quorum has confirmed it.
    ///
    /// No follower starts an election before its own election timeout elapses,
    /// so within that window nobody else can have become leader, provided the
    /// clocks agree. The third that is left out is what pays for them not quite
    /// agreeing.
    pub fn lease_duration(&self) -> (t: Nanos)
        requires
            self.tick * timeout_ticks(self.election_timeout) * 2 < MAX_NANOS,
        ensures
            t == lease_of(self.tick, self.election_timeout),
            t < MAX_NANOS,
    {
        self.timeout() * 2 / 3
    }

    /// How long a client's request may wait before it is given up on:
    /// comfortably longer than an election.
    pub fn request_timeout(&self) -> (t: Nanos)
        requires
            self.times_fit(),
        ensures
            t == request_timeout_of(self.tick, self.election_timeout),
            t < MAX_NANOS,
    {
        self.timeout() * 6
    }

    /// Where every shard this node replicates lives.
    pub fn shards_dir(&self) -> (path: String)
        ensures
            path@ == under(self.data_dir@, "shards"@),
    {
        path_under(self.data_dir.as_str(), "shards")
    }

    /// One shard's directory.
    pub fn shard_dir(&self, shard: ShardId) -> (path: String)
        ensures
            path@ == under(under(self.data_dir@, "shards"@), shard_name(shard)),
    {
        path_under(self.shards_dir().as_str(), shard_text(shard).as_str())
    }

    /// One shard's Raft log. Separate from that shard's state machine, and from
    /// every other shard's: two stores in one directory would mix their keys.
    pub fn shard_raft_dir(&self, shard: ShardId) -> (path: String)
        ensures
            path@ == shard_path(self.data_dir@, shard, "raft"@),
    {
        path_under(self.shard_dir(shard).as_str(), "raft")
    }

    /// One shard's state machine.
    pub fn shard_state_dir(&self, shard: ShardId) -> (path: String)
        ensures
            path@ == shard_path(self.data_dir@, shard, "state"@),
    {
        path_under(self.shard_dir(shard).as_str(), "state")
    }

    /// Where a store of the single-group layout kept its log. Nothing writes
    /// here; a store that has it is refused.
    pub fn legacy_raft_dir(&self) -> (path: String)
        ensures
            path@ == under(self.data_dir@, "raft"@),
    {
        path_under(self.data_dir.as_str(), "raft")
    }

    /// Where a store of the single-group layout kept its state machine.
    pub fn legacy_state_dir(&self) -> (path: String)
        ensures
            path@ == under(self.data_dir@, "state"@),
    {
        path_under(self.data_dir.as_str(), "state")
    }

    /// The meta group's log.
    pub fn meta_raft_dir(&self) -> (path: String)
        ensures
            path@ == under(self.data_dir@, "meta-raft"@),
    {
        path_under(self.data_dir.as_str(), "meta-raft")
    }

    /// The meta group's state machine.
    pub fn meta_state_dir(&self) -> (path: String)
        ensures
            path@ == under(self.data_dir@, "meta-state"@),
    {
        path_under(self.data_dir.as_str(), "meta-state")
    }

    /// The first shard's core config.
    pub fn raft_config(&self) -> (config: RaftConfig)
        ensures
            config.id == self.id,
            config.peers@ == in_order(self.peers@.dom()),
            config.election_timeout == self.election_timeout,
            config.heartbeat_interval == self.heartbeat_interval,
            config.seed == seed_of(self.id, crate::group::DATA),
            config.initial_learner == self.initial_learner,
    {
        self.raft_config_for(crate::group::DATA)
    }

    /// One group's core config. The membership and timings are shared; the seed
    /// is not, or a node's groups would campaign in lockstep.
    pub fn raft_config_for(&self, group: GroupId) -> (config: RaftConfig)
        ensures
            config.id == self.id,
            config.peers@ == in_order(self.peers@.dom()),
            config.election_timeout == self.election_timeout,
            config.heartbeat_interval == self.heartbeat_interval,
            config.seed == seed_of(self.id, group),
            config.initial_learner == self.initial_learner,
    {
        RaftConfig {
            id: self.id,
            peers: keys_of(&self.peers),
            election_timeout: self.election_timeout,
            heartbeat_interval: self.heartbeat_interval,
            seed: self.id.wrapping_mul(ID_SPREAD) ^ (group as u64).wrapping_mul(GROUP_SPREAD),
            initial_learner: self.initial_learner,
        }
    }
}

/// A text in quotes, with what would not print escaped.
pub uninterp spec fn quoted(s: Seq<char>) -> Seq<char>;

/// `format!` with `{:?}` of a text: the text in quotes with what would not print
/// escaped, a function of its characters alone.
#[verifier::external_body]
pub(crate) fn quote(s: &str) -> (q: String)
    ensures
        q@ == quoted(s@),
{
    format!("{s:?}")
}

/// Where a text first has an equals sign; its length where it has none.
pub open spec fn equals_at(s: Seq<char>) -> nat
    decreases s.len(),
{
    if s.len() == 0 || s[0] == '=' {
        0
    } else {
        1 + equals_at(s.skip(1))
    }
}

/// What a member's flag says: `id=endpoint`, taken apart at the first equals
/// sign.
pub open spec fn peer_flag(s: Seq<char>) -> Option<(NodeId, Seq<char>)> {
    let at = equals_at(s) as int;
    if at >= s.len() {
        None
    } else {
        match parsed(s.take(at), u64::MAX as nat) {
            Some(id) => Some((id as u64, s.skip(at + 1))),
            None => None,
        }
    }
}

/// What is said of a flag that is no member: the whole of it where it has no
/// equals sign, else what stands in the id's place, behind `bad`.
pub open spec fn peer_complaint(s: Seq<char>, bad: Seq<char>) -> Seq<char> {
    let at = equals_at(s) as int;
    if at >= s.len() {
        "expected id=endpoint, got "@ + quoted(s)
    } else {
        bad + quoted(s.take(at))
    }
}

/// Why a flag names no member.
#[derive(Debug, PartialEq, Eq)]
pub enum PeerFault {
    NoEquals,
    /// What stands in the id's place is no id.
    BadId { text: String },
}

impl PeerFault {
    /// The fault in words: `bad` is what an unreadable id is told, and `shown`
    /// is the flag, or what stands in the id's place, as it is shown.
    pub fn message(&self, bad: &str, shown: &str) -> (text: String)
        ensures
            text@ == match *self {
                PeerFault::NoEquals => "expected id=endpoint, got "@ + shown@,
                PeerFault::BadId { .. } => bad@ + shown@,
            },
    {
        match self {
            PeerFault::NoEquals => join_text("expected id=endpoint, got ", shown),
            PeerFault::BadId { .. } => join_text(bad, shown),
        }
    }
}

/// Takes a member's flag apart.
pub fn read_peer(s: &str) -> (r: Result<(NodeId, String), PeerFault>)
    ensures
        match r {
            Ok((id, address)) => peer_flag(s@) == Some((id, address@)),
            Err(PeerFault::NoEquals) => equals_at(s@) >= s@.len(),
            Err(PeerFault::BadId { text }) => {
                &&& equals_at(s@) < s@.len()
                &&& peer_flag(s@) is None
                &&& text@ == s@.take(equals_at(s@) as int)
            },
        },
{
    let chars = chars_of(s);
    let mut at: usize = 0;
    assert(s@.skip(0) =~= s@);
    while at < chars.len() && chars[at] != '='
        invariant
            chars@ == s@,
            at <= s@.len(),
            equals_at(s@) == at + equals_at(s@.skip(at as int)),
        decreases s@.len() - at,
    {
        assert(s@.skip(at as int).skip(1) =~= s@.skip(at + 1));
        at += 1;
    }
    if at == chars.len() {
        return Err(PeerFault::NoEquals);
    }
    let id_text = s.substring_char(0, at);
    assert(id_text@ =~= s@.take(at as int));
    match crate::text::parse(id_text, u64::MAX) {
        Some(id) => {
            let address = s.substring_char(at + 1, chars.len());
            assert(address@ =~= s@.skip(at + 1));
            Ok((id, address.to_owned()))
        },
        None => Err(PeerFault::BadId { text: id_text.to_owned() }),
    }
}

/// Takes a member's flag apart; `bad` is what an unreadable id is told.
pub(crate) fn split_peer(s: &str, bad: &str) -> (r: Result<(NodeId, String), String>)
    ensures
        match r {
            Ok((id, address)) => peer_flag(s@) == Some((id, address@)),
            Err(text) => peer_flag(s@) is None && text@ == peer_complaint(s@, bad@),
        },
{
    match read_peer(s) {
        Ok(member) => Ok(member),
        Err(fault) => {
            let shown = match &fault {
                PeerFault::NoEquals => quote(s),
                PeerFault::BadId { text } => quote(text.as_str()),
            };
            Err(fault.message(bad, shown.as_str()))
        },
    }
}

/// Reads a cluster member, as `id=endpoint`.
pub fn parse_peer(s: &str) -> (r: Result<(NodeId, String), String>)
    ensures
        match r {
            Ok((id, address)) => peer_flag(s@) == Some((id, address@)),
            Err(text) => peer_flag(s@) is None && text@ == peer_complaint(s@, "bad peer id "@),
        },
{
    split_peer(s, "bad peer id ")
}

/// What a node is told on its command line.
#[derive(Debug)]
pub struct Args {
    /// This node's id.
    pub id: NodeId,
    /// Address to serve on.
    pub listen: String,
    /// Every cluster member. This node may appear in its own list and is
    /// filtered out, so the same list can be handed to every node.
    pub peers: Vec<(NodeId, String)>,
    /// Directory for the logs and the state machines.
    pub data_dir: String,
    pub tick_ms: u64,
    /// Election timeout in ticks.
    pub election_timeout: u64,
    /// Ticks between leader heartbeats.
    pub heartbeat_interval: u64,
    pub lease_reads: bool,
    pub keydir: KeydirImpl,
    pub snapshot_threshold: u64,
    /// Shards to split the keyspace into. Fixed at cluster creation.
    pub num_shards: u16,
    /// Replicas per shard. Fixed at cluster creation.
    pub replication_factor: u8,
    /// Ring positions per node.
    pub vnodes_per_node: u32,
    /// How many shards may be moving at once.
    pub max_migrations: usize,
    pub log_fsync: LogFsync,
    pub state_fsync: LogFsync,
    /// Start as a learner waiting to be admitted.
    pub join: bool,
}

/// Why a command line cannot be a node's.
#[derive(Debug, Clone, Copy, PartialEq, Eq, Structural)]
pub enum ConfigError {
    PeerTwice { id: NodeId },
    NoReplicas,
    TooManyReplicas { factor: u8, cluster_size: usize },
    NoShards,
    NoVnodes,
}

impl ConfigError {
    /// The error in words.
    pub fn message(&self) -> (text: String)
        ensures
            text@ == match *self {
                ConfigError::PeerTwice { id } => "peer "@ + as_chars(decimal(id as nat))
                    + " given twice"@,
                ConfigError::NoReplicas => "--replication-factor must be at least 1"@,
                ConfigError::TooManyReplicas { factor, cluster_size } =>
                    "--replication-factor "@ + as_chars(decimal(factor as nat)) + " exceeds the "@
                        + as_chars(decimal(cluster_size as nat))
                        + "-node cluster in --peer; a shard cannot have more replicas than there are nodes to put them on"@,
                ConfigError::NoShards => "--shards must be at least 1"@,
                ConfigError::NoVnodes => "--vnodes must be at least 1"@,
            },
    {
        match self {
            ConfigError::PeerTwice { id } => {
                let mut text = "peer ".to_owned();
                text.append(decimal_text(*id).as_str());
                text.append(" given twice");
                text
            },
            ConfigError::NoReplicas => "--replication-factor must be at least 1".to_owned(),
            ConfigError::TooManyReplicas { factor, cluster_size } => {
                let mut text = "--replication-factor ".to_owned();
                text.append(decimal_text(*factor as u64).as_str());
                text.append(" exceeds the ");
                text.append(decimal_text(*cluster_size as u64).as_str());
                text.append(
                    "-node cluster in --peer; a shard cannot have more replicas than there are nodes to put them on",
                );
                text
            },
            ConfigError::NoShards => "--shards must be at least 1".to_owned(),
            ConfigError::NoVnodes => "--vnodes must be at least 1".to_owned(),
        }
    }
}

/// Members as mathematical values.
pub open spec fn members_view(peers: Seq<(NodeId, String)>) -> Seq<(NodeId, Seq<char>)> {
    peers.map_values(|p: (NodeId, String)| (p.0, p.1@))
}

/// The peers in a list of members, without `me`; `Err` with the first that
/// stands in it twice.
pub open spec fn peers_among(members: Seq<(NodeId, Seq<char>)>, me: NodeId) -> Result<
    Map<NodeId, Seq<char>>,
    NodeId,
>
    decreases members.len(),
{
    if members.len() == 0 {
        Ok(Map::empty())
    } else {
        let (id, address) = members.last();
        match peers_among(members.drop_last(), me) {
            Err(twice) => Err(twice),
            Ok(peers) => if id == me {
                Ok(peers)
            } else if peers.contains_key(id) {
                Err(id)
            } else {
                Ok(peers.insert(id, address))
            },
        }
    }
}

/// Once a member stands in a list twice, it does in every longer one.
proof fn lemma_twice_stays(members: Seq<(NodeId, Seq<char>)>, me: NodeId, n: int)
    requires
        0 <= n <= members.len(),
        peers_among(members.take(n), me) is Err,
    ensures
        peers_among(members, me) == peers_among(members.take(n), me),
    decreases members.len() - n,
{
    if n < members.len() {
        assert(members.take(n + 1).drop_last() =~= members.take(n));
        lemma_twice_stays(members, me, n + 1);
    } else {
        assert(members.take(n) =~= members);
    }
}

/// The refusal that a command line earns, if any: of a repeated peer before
/// anything else, then in the order of the flags.
pub open spec fn refusal(args: Args) -> Option<ConfigError> {
    match peers_among(members_view(args.peers@), args.id) {
        Err(id) => Some(ConfigError::PeerTwice { id }),
        Ok(peers) => if args.replication_factor == 0 {
            Some(ConfigError::NoReplicas)
        } else if !args.join && args.replication_factor > peers.dom().len() + 1 {
            Some(
                ConfigError::TooManyReplicas {
                    factor: args.replication_factor,
                    cluster_size: (peers.dom().len() + 1) as usize,
                },
            )
        } else if args.num_shards == 0 {
            Some(ConfigError::NoShards)
        } else if args.vnodes_per_node == 0 {
            Some(ConfigError::NoVnodes)
        } else {
            None
        },
    }
}

impl Args {
    /// The configuration that the command line asks for. A config that cannot
    /// be satisfied fails here rather than under-replicating later.
    pub fn into_config(self) -> (r: Result<NodeConfig, ConfigError>)
        requires
            self.peers@.len() < usize::MAX,
        ensures
            match r {
                Err(e) => refusal(self) == Some(e),
                Ok(c) => {
                    &&& refusal(self) is None
                    &&& c.id == self.id
                    &&& c.listen == self.listen
                    &&& Ok::<_, NodeId>(book(c.peers@)) == peers_among(
                        members_view(self.peers@),
                        self.id,
                    )
                    &&& c.data_dir == self.data_dir
                    &&& c.tick == self.tick_ms * 1_000_000
                    &&& c.election_timeout == self.election_timeout
                    &&& c.heartbeat_interval == self.heartbeat_interval
                    &&& c.lease_reads == self.lease_reads
                    &&& c.keydir == self.keydir
                    &&& c.snapshot_threshold == self.snapshot_threshold
                    &&& c.initial_learner == self.join
                    &&& c.num_shards == self.num_shards
                    &&& c.replication_factor == self.replication_factor
                    &&& c.vnodes_per_node == self.vnodes_per_node
                    &&& c.max_migrations == self.max_migrations
                    &&& c.log_fsync == self.log_fsync
                    &&& c.state_fsync == self.state_fsync
                },
            },
    {
        let ghost members = members_view(self.peers@);
        let mut peers: BTreeMap<NodeId, String> = BTreeMap::new();
        let mut i: usize = 0;
        assert(members.take(0) =~= Seq::<(NodeId, Seq<char>)>::empty());
        assert(book(peers@) =~= Map::<NodeId, Seq<char>>::empty());
        while i < self.peers.len()
            invariant
                i <= self.peers@.len(),
                members == members_view(self.peers@),
                Ok::<_, NodeId>(book(peers@)) == peers_among(members.take(i as int), self.id),
                peers@.dom().len() <= i,
            decreases self.peers@.len() - i,
        {
            let ghost before = peers@;
            let id: NodeId = self.peers[i].0;
            proof {
                assert(members.take(i + 1).drop_last() =~= members.take(i as int));
                assert(members.take(i + 1).last() == members[i as int]);
                assert(book(peers@).dom() =~= peers@.dom());
            }
            if id != self.id {
                if peers.contains_key(&id) {
                    proof {
                        lemma_twice_stays(members, self.id, i + 1);
                    }
                    return Err(ConfigError::PeerTwice { id });
                }
                let address = self.peers[i].1.clone();
                peers.insert(id, address);
                assert(book(peers@) =~= book(before).insert(id, members[i as int].1));
            }
            i += 1;
        }
        assert(members.take(i as int) =~= members);
        assert(book(peers@).dom() =~= peers@.dom());
        let cluster_size: usize = peers.len() + 1;
        if self.replication_factor == 0 {
            return Err(ConfigError::NoReplicas);
        }
        if !self.join && self.replication_factor as usize > cluster_size {
            return Err(
                ConfigError::TooManyReplicas { factor: self.replication_factor, cluster_size },
            );
        }
        if self.num_shards == 0 {
            return Err(ConfigError::NoShards);
        }
        if self.vnodes_per_node == 0 {
            return Err(ConfigError::NoVnodes);
        }
        Ok(
            NodeConfig {
                id: self.id,
                listen: self.listen,
                peers,
                data_dir: self.data_dir,
                tick: crate::types::millis(self.tick_ms),
                election_timeout: self.election_timeout,
                heartbeat_interval: self.heartbeat_interval,
                lease_reads: self.lease_reads,
                keydir: self.keydir,
                snapshot_threshold: self.snapshot_threshold,
                initial_learner: self.join,
                num_shards: self.num_shards,
                replication_factor: self.replication_factor,
                vnodes_per_node: self.vnodes_per_node,
                max_migrations: self.max_migrations,
                log_fsync: self.log_fsync,
                state_fsync: self.state_fsync,
            },
        )
    }
}

/// A lease ends before anybody else can lead: it lasts two thirds of an election
/// timeout, to the nanosecond, and a request may wait for six of them.
pub proof fn law_a_lease_is_shorter_than_an_election(tick: Nanos, election_timeout: u64)
    requires
        election_timeout < 0x1_0000_0000,
    ensures
        ({
            let election = tick as nat * election_timeout as nat;
            &&& 3 * lease_of(tick, election_timeout) <= 2 * election
            &&& 2 * election < 3 * (lease_of(tick, election_timeout) + 1)
            &&& election > 0 ==> lease_of(tick, election_timeout) < election
            &&& request_timeout_of(tick, election_timeout) == 6 * election
        }),
{
    let election = tick as nat * election_timeout as nat;
    assert(election_timeout as nat % 0x1_0000_0000 == election_timeout as nat);
    assert(tick as nat * timeout_ticks(election_timeout) == election);
}

/// A member's flag is an id, an equals sign and an address: the id that was
/// written is the one read, the address is everything behind the first equals
/// sign, and a flag without one names nobody.
pub proof fn law_a_member_is_read_as_written(id: NodeId, address: Seq<char>, s: Seq<char>)
    ensures
        peer_flag(as_chars(decimal(id as nat)) + seq!['='] + address) == Some((id, address)),
        (forall|i: int| 0 <= i < s.len() ==> #[trigger] s[i] != '=') ==> peer_flag(s) is None,
        peer_flag(s) matches Some((read, rest)) ==> exists|at: int|
            #![trigger s.take(at)]
            0 <= at < s.len() && s[at] == '=' && rest == s.skip(at + 1) && parsed(
                s.take(at),
                u64::MAX as nat,
            ) == Some(read as nat) && !s.take(at).contains('='),
{
    let d = as_chars(decimal(id as nat));
    let flag = d + seq!['='] + address;
    crate::text::lemma_decimal(id as nat);
    assert forall|i: int| 0 <= i < d.len() implies #[trigger] flag[i] != '=' by {
        assert(flag[i] == d[i]);
        assert(crate::text::is_digit(d[i]));
    }
    assert(flag[d.len() as int] == '=');
    lemma_equals_at(flag);
    let at = equals_at(flag) as int;
    if at < d.len() {
        assert(flag[at] == '=');
    }
    if at > d.len() {
        assert(flag[d.len() as int] != '=');
    }
    assert(flag.take(at) =~= d);
    assert(flag.skip(at + 1) =~= address);
    crate::text::law_decimal_round_trip(id as nat, u64::MAX as nat);
    lemma_equals_at(s);
    let place = equals_at(s) as int;
    if peer_flag(s) is Some {
        let before = s.take(place);
        if before.contains('=') {
            let i = choose|i: int| 0 <= i < before.len() && before[i] == '=';
            assert(s[i] != '=');
        }
    }
}

proof fn lemma_equals_at(s: Seq<char>)
    ensures
        equals_at(s) <= s.len(),
        equals_at(s) < s.len() ==> s[equals_at(s) as int] == '=',
        forall|i: int| 0 <= i < equals_at(s) ==> #[trigger] s[i] != '=',
    decreases s.len(),
{
    if s.len() > 0 && s[0] != '=' {
        let rest = s.skip(1);
        lemma_equals_at(rest);
        assert forall|i: int| 0 <= i < equals_at(s) implies #[trigger] s[i] != '=' by {
            if i > 0 {
                assert(rest[i - 1] == s[i]);
            }
        }
    }
}

/// A node's peers are the members it was told of, but for itself, each where it
/// was told; and it is told of nobody twice, or the list is refused with one that
/// is there twice.
pub proof fn law_the_peers_are_the_other_members(
    members: Seq<(NodeId, Seq<char>)>,
    me: NodeId,
    id: NodeId,
)
    ensures
        match peers_among(members, me) {
            Ok(peers) => {
                &&& peers.contains_key(id) <==> id != me && exists|i: int|
                    0 <= i < members.len() && (#[trigger] members[i]).0 == id
                &&& forall|i: int|
                    0 <= i < members.len() && (#[trigger] members[i]).0 == id && id != me
                        ==> peers[id] == members[i].1
                &&& peers.dom().finite()
                &&& forall|i: int, j: int|
                    #![trigger members[i], members[j]]
                    0 <= i < j < members.len() && members[i].0 != me ==> members[i].0 != members[j].0
            },
            Err(twice) => twice != me && exists|i: int, j: int|
                #![trigger members[i], members[j]]
                0 <= i < j < members.len() && members[i].0 == twice && members[j].0 == twice,
        },
    decreases members.len(),
{
    if members.len() > 0 {
        let head = members.drop_last();
        let n = members.len() - 1;
        let (last, address) = members.last();
        law_the_peers_are_the_other_members(head, me, id);
        law_the_peers_are_the_other_members(head, me, last);
        assert(members[n] == members.last());
        assert forall|i: int| 0 <= i < n implies #[trigger] head[i] == members[i] by {}
        match peers_among(head, me) {
            Err(twice) => {
                let (i, j) = choose|i: int, j: int|
                    #![trigger head[i], head[j]]
                    0 <= i < j < head.len() && head[i].0 == twice && head[j].0 == twice;
                assert(members[i].0 == twice && members[j].0 == twice);
            },
            Ok(before) => {
                if last != me && before.contains_key(last) {
                    let i = choose|i: int| 0 <= i < head.len() && (#[trigger] head[i]).0 == last;
                    assert(members[i].0 == last && members[n].0 == last);
                } else {
                    let peers = peers_among(members, me)->Ok_0;
                    if before.contains_key(id) {
                        let i = choose|i: int| 0 <= i < head.len() && (#[trigger] head[i]).0 == id;
                        assert(members[i].0 == id);
                    }
                    if id != me && exists|i: int|
                        0 <= i < members.len() && (#[trigger] members[i]).0 == id {
                        let i = choose|i: int|
                            0 <= i < members.len() && (#[trigger] members[i]).0 == id;
                        if i < n {
                            assert(head[i].0 == id);
                        }
                    }
                    assert forall|i: int|
                        0 <= i < members.len() && (#[trigger] members[i]).0 == id && id
                            != me implies peers[id] == members[i].1 by {
                        if i < n {
                            assert(head[i].0 == id);
                            assert(before.contains_key(id));
                        }
                    }
                    assert forall|i: int, j: int|
                        #![trigger members[i], members[j]]
                        0 <= i < j < members.len() && members[i].0 != me implies members[i].0
                        != members[j].0 by {
                        if j < n {
                            assert(head[i].0 != head[j].0);
                        } else if members[i].0 == last {
                            assert(head[i].0 == last);
                        }
                    }
                }
            },
        }
    }
}

/// A command line is a node's exactly if nobody is named twice, there is a shard,
/// a replica and a ring position at least, and, unless the node joins a cluster,
/// there are nodes enough to put the replicas on.
pub proof fn law_only_a_cluster_that_can_be_is_accepted(args: Args)
    ensures
        refusal(args) is None <==> {
            &&& peers_among(members_view(args.peers@), args.id) is Ok
            &&& args.replication_factor >= 1
            &&& args.num_shards >= 1
            &&& args.vnodes_per_node >= 1
            &&& args.join || args.replication_factor <= (peers_among(
                members_view(args.peers@),
                args.id,
            )->Ok_0).dom().len() + 1
        },
        peers_among(members_view(args.peers@), args.id) matches Err(id) ==> refusal(args) == Some(
            ConfigError::PeerTwice { id },
        ),
        refusal(args) == Some(ConfigError::NoReplicas) <==> args.replication_factor == 0
            && peers_among(members_view(args.peers@), args.id) is Ok,
        refusal(args) == Some(ConfigError::NoShards) ==> args.num_shards == 0,
        refusal(args) == Some(ConfigError::NoVnodes) ==> args.vnodes_per_node == 0,
        refusal(args) matches Some(ConfigError::TooManyReplicas { factor, cluster_size }) ==> !args.join
            && factor == args.replication_factor,
        forall|i: int|
            #![trigger args.peers@[i]]
            0 <= i < args.peers@.len() ==> members_view(args.peers@)[i] == (
                args.peers@[i].0,
                args.peers@[i].1@,
            ),
        members_view(args.peers@).len() == args.peers@.len(),
{
}

/// A path under a directory is the directory, one slash, and the name.
pub proof fn law_a_path_has_one_slash(dir: Seq<char>, name: Seq<char>)
    ensures
        dir.is_prefix_of(under(dir, name)),
        dir.len() > 0 && dir.last() == '/' ==> under(dir, name) == dir + name,
        dir.len() > 0 && dir.last() != '/' ==> under(dir, name) == dir + seq!['/'] + name,
        dir.len() == 0 ==> under(dir, name) == name,
{
    reveal_strlit("/");
    assert("/"@ =~= seq!['/']);
    assert(under(dir, name).subrange(0, dir.len() as int) =~= dir);
    if dir.len() == 0 {
        assert(dir + name =~= name);
    }
}

/// What the flags say is what the node runs with: a cluster that cannot be is
/// refused, and of one that can every other member is a peer at its address.
pub proof fn law_the_flags_are_what_the_node_runs_with(
    args: Args,
    r: Result<NodeConfig, ConfigError>,
    id: NodeId,
    i: int,
)
    requires
        args.peers@.len() < usize::MAX,
        call_ensures(Args::into_config, (args,), r),
    ensures
        r matches Err(e) ==> refusal(args) == Some(e),
        r is Ok <==> refusal(args) is None,
        r matches Ok(c) ==> {
            &&& c.id == args.id
            &&& c.listen == args.listen
            &&& c.data_dir == args.data_dir
            &&& c.tick == args.tick_ms * 1_000_000
            &&& c.election_timeout == args.election_timeout
            &&& c.heartbeat_interval == args.heartbeat_interval
            &&& c.lease_reads == args.lease_reads
            &&& c.keydir == args.keydir
            &&& c.snapshot_threshold == args.snapshot_threshold
            &&& c.initial_learner == args.join
            &&& c.num_shards == args.num_shards && c.num_shards >= 1
            &&& c.replication_factor == args.replication_factor && c.replication_factor >= 1
            &&& c.vnodes_per_node == args.vnodes_per_node && c.vnodes_per_node >= 1
            &&& c.max_migrations == args.max_migrations
            &&& c.log_fsync == args.log_fsync
            &&& c.state_fsync == args.state_fsync
            &&& !c.peers@.contains_key(args.id)
            &&& 0 <= i < args.peers@.len() && args.peers@[i].0 != args.id ==> c.peers@.contains_key(
                args.peers@[i].0,
            ) && c.peers@[args.peers@[i].0]@ == args.peers@[i].1@
            &&& c.peers@.contains_key(id) ==> exists|k: int|
                0 <= k < args.peers@.len() && (#[trigger] args.peers@[k]).0 == id
        },
{
    let members = members_view(args.peers@);
    law_only_a_cluster_that_can_be_is_accepted(args);
    law_the_peers_are_the_other_members(members, args.id, id);
    law_the_peers_are_the_other_members(members, args.id, args.id);
    match r {
        Ok(c) => {
            crate::membership::law_a_book_is_seen_whole(c.peers@, id);
            crate::membership::law_a_book_is_seen_whole(c.peers@, args.id);
            if 0 <= i < args.peers@.len() {
                let other = args.peers@[i].0;
                assert(members[i] == (other, args.peers@[i].1@));
                law_the_peers_are_the_other_members(members, args.id, other);
                crate::membership::law_a_book_is_seen_whole(c.peers@, other);
            }
            if c.peers@.contains_key(id) {
                let k = choose|k: int| 0 <= k < members.len() && (#[trigger] members[k]).0 == id;
                assert(args.peers@[k].0 == id);
            }
        },
        Err(_) => {},
    }
}

/// A group runs with this node's own settings, every other member a peer, and a
/// seed of its own.
pub proof fn law_a_group_runs_with_the_nodes_settings(
    config: &NodeConfig,
    group: GroupId,
    raft: RaftConfig,
    id: NodeId,
)
    requires
        call_ensures(NodeConfig::raft_config_for, (config, group), raft),
        config.peers@.dom().finite(),
    ensures
        raft.id == config.id,
        raft.peers@.contains(id) <==> config.peers@.contains_key(id),
        raft.peers@.len() == config.peers@.dom().len(),
        raft.election_timeout == config.election_timeout,
        raft.heartbeat_interval == config.heartbeat_interval,
        raft.initial_learner == config.initial_learner,
        raft.seed == seed_of(config.id, group),
{
    crate::ids::law_a_set_is_listed_in_order(config.peers@.dom(), 0, 0, id);
}

/// A lease runs out before anybody else can be elected, and a request may take
/// longer than an election does.
pub proof fn law_times_of_a_node(config: &NodeConfig, lease: Nanos, request: Nanos)
    requires
        config.times_fit(),
        config.election_timeout < 0x1_0000_0000,
        call_ensures(NodeConfig::lease_duration, (config,), lease),
        call_ensures(NodeConfig::request_timeout, (config,), request),
    ensures
        3 * lease <= 2 * (config.tick as nat * config.election_timeout as nat),
        request == 6 * (config.tick as nat * config.election_timeout as nat),
{
    law_a_lease_is_shorter_than_an_election(config.tick, config.election_timeout);
}

/// A peer flag is read as it was written, and one without an equals sign or with
/// a name that is no number is refused.
pub proof fn law_a_peer_flag_is_read(s: &str, r: Result<(NodeId, String), PeerFault>, at: int)
    requires
        call_ensures(read_peer, (s,), r),
    ensures
        r matches Ok((id, address)) ==> peer_flag(s@) == Some((id, address@)),
        r is Err ==> peer_flag(s@) is None,
        r == Err::<(NodeId, String), _>(PeerFault::NoEquals) && 0 <= at < s@.len() ==> s@[at] != '=',
{
    if r == Err::<(NodeId, String), _>(PeerFault::NoEquals) {
        lemma_no_equals(s@, at);
        law_a_member_is_read_as_written(0, s@, s@);
        assert forall|i: int| 0 <= i < s@.len() implies #[trigger] s@[i] != '=' by {
            lemma_no_equals(s@, i);
        }
    }
}

/// Where no equals sign is found there is none.
proof fn lemma_no_equals(s: Seq<char>, at: int)
    requires
        equals_at(s) >= s.len(),
    ensures
        0 <= at < s.len() ==> s[at] != '=',
    decreases s.len(),
{
    if s.len() > 0 && 0 <= at < s.len() {
        if at > 0 {
            lemma_no_equals(s.skip(1), at - 1);
        }
    }
}

/// Where a node keeps its groups: each shard in a directory of its own, named by
/// its number in five digits, its log and its state apart; the meta group beside
/// them.
pub proof fn law_where_a_node_keeps_its_groups(
    config: &NodeConfig,
    shard: ShardId,
    dirs: (String, String, String, String, String, String, String, String),
)
    requires
        call_ensures(NodeConfig::shards_dir, (config,), dirs.0),
        call_ensures(NodeConfig::shard_dir, (config, shard), dirs.1),
        call_ensures(NodeConfig::shard_raft_dir, (config, shard), dirs.2),
        call_ensures(NodeConfig::shard_state_dir, (config, shard), dirs.3),
        call_ensures(NodeConfig::meta_raft_dir, (config,), dirs.4),
        call_ensures(NodeConfig::meta_state_dir, (config,), dirs.5),
        call_ensures(NodeConfig::legacy_raft_dir, (config,), dirs.6),
        call_ensures(NodeConfig::legacy_state_dir, (config,), dirs.7),
    ensures
        dirs.0@ == under(config.data_dir@, "shards"@),
        dirs.1@ == under(dirs.0@, shard_name(shard)),
        dirs.2@ == under(dirs.1@, "raft"@),
        dirs.3@ == under(dirs.1@, "state"@),
        dirs.4@ == under(config.data_dir@, "meta-raft"@),
        dirs.5@ == under(config.data_dir@, "meta-state"@),
        dirs.6@ == under(config.data_dir@, "raft"@),
        dirs.7@ == under(config.data_dir@, "state"@),
        shard_name(shard).len() == 5,
        shard_name(shard).last() == (48 + shard % 10) as char,
{
    crate::text::law_fixed_width_numbers(shard as nat, 5);
}

/// A peer flag is parsed as it is read, and a group without a number of its own
/// runs as the data group; a cluster is this node and its peers.
pub proof fn law_a_cluster_is_the_node_and_its_peers(
    s: &str,
    r: Result<(NodeId, String), String>,
    config: &NodeConfig,
    raft: RaftConfig,
    n: usize,
)
    requires
        call_ensures(parse_peer, (s,), r),
        call_ensures(NodeConfig::raft_config, (config,), raft),
        raft.peers@.len() < usize::MAX,
        call_ensures(RaftConfig::cluster_size, (&raft,), n),
        config.peers@.dom().finite(),
    ensures
        r matches Ok((id, address)) ==> peer_flag(s@) == Some((id, address@)),
        r is Err <==> peer_flag(s@) is None,
        raft.id == config.id,
        raft.election_timeout == config.election_timeout,
        raft.heartbeat_interval == config.heartbeat_interval,
        raft.initial_learner == config.initial_learner,
        n == config.peers@.dom().len() + 1,
{
    crate::ids::law_a_set_is_listed_in_order(config.peers@.dom(), 0, 0, 0);
}

} // verus!
