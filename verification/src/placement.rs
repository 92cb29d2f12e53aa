//! Which shards this node hosts, and the records that make founding a one-time
//! act.
//!
//! Placement itself is replicated. What is here is the local half: the
//! directories a node has opened, and the marker saying which map version it
//! opened them from.
//!
//! Every replica of a shard derives the same voter set from the same map
//! version, so a shard group can be founded with no conf change at all. That
//! argument holds only while they agree on the version. So a node founds groups
//! once, from the first map it ever sees, and every later start hosts exactly
//! what is on disk.

use std::collections::BTreeSet;

use vstd::prelude::*;
use vstd::string::*;

use crate::config::{quote, quoted, under, NodeConfig};
use crate::text::{as_chars, ascii_text, decimal, is_digit, is_space, join_text,
    fault_words, law_decimal_round_trip, lemma_decimal, number_fault, parse, parsed, push_decimal,
    read_number, split_words, texts_view, trim, trimmed, word_len, words, NumberFault};
use crate::types::{NodeId, ShardId};

verus! {

broadcast use {vstd::std_specs::btree::group_btree_axioms, vstd::laws_cmp::group_laws_cmp};

/// A store of the single-group layout: one Raft log and one state machine
/// holding keys from every shard.
#[derive(Debug)]
pub struct LegacyLayout {
    pub path: String,
}

impl LegacyLayout {
    /// The refusal in words.
    pub fn message(&self) -> (text: String)
        ensures
            text@ == self.path@
                + " is a pre-M11 single-group store: one log holding keys from every shard. Splitting it across per-shard groups moves data between Raft groups, which is a migration rather than a startup step — start from an empty --data-dir, or restore the data through a client"@,
    {
        join_text(
            self.path.as_str(),
            " is a pre-M11 single-group store: one log holding keys from every shard. Splitting it across per-shard groups moves data between Raft groups, which is a migration rather than a startup step — start from an empty --data-dir, or restore the data through a client",
        )
    }
}

/// Refuses to serve over a store this node would misread: one that has either
/// directory of the single-group layout. Starting anyway would present an empty
/// database over a directory holding an entire dataset.
pub fn check_layout(config: &NodeConfig, raft_exists: bool, state_exists: bool) -> (r: Result<
    (),
    LegacyLayout,
>)
    ensures
        match r {
            Ok(()) => !raft_exists && !state_exists,
            Err(refused) => if raft_exists {
                refused.path@ == under(config.data_dir@, "raft"@)
            } else {
                state_exists && refused.path@ == under(config.data_dir@, "state"@)
            },
        },
{
    if raft_exists {
        return Err(LegacyLayout { path: config.legacy_raft_dir() });
    }
    if state_exists {
        return Err(LegacyLayout { path: config.legacy_state_dir() });
    }
    Ok(())
}

/// A file under `shards/` that does not hold what it should, and what is wrong
/// with what it holds.
#[derive(Debug)]
pub enum PlacementError {
    NotAVersion { path: String, fault: NumberFault },
    NotANode { path: String, field: String, fault: NumberFault },
}

impl PlacementError {
    /// The error in words.
    pub fn message(&self) -> (text: String)
        ensures
            text@ == match *self {
                PlacementError::NotAVersion { path, fault } => version_complaint(
                    path@,
                    fault_words(fault),
                ),
                PlacementError::NotANode { path, field, fault } => node_complaint(
                    path@,
                    quoted(field@),
                    fault_words(fault),
                ),
            },
    {
        match self {
            PlacementError::NotAVersion { path, fault } => {
                let mut text = path.as_str().to_owned();
                text.append(" does not hold a map version: ");
                text.append(fault.message());
                text
            },
            PlacementError::NotANode { path, field, fault } => PlacementError::not_a_node(
                path.as_str(),
                quote(field.as_str()).as_str(),
                *fault,
            ),
        }
    }

    /// What is said of a file with a field that is no node id, as the field is
    /// shown.
    pub fn not_a_node(path: &str, shown: &str, fault: NumberFault) -> (text: String)
        ensures
            text@ == node_complaint(path@, shown@, fault_words(fault)),
    {
        let mut text = path.to_owned();
        text.append(" holds ");
        text.append(shown);
        text.append(", not a node id: ");
        text.append(fault.message());
        text
    }
}

/// What is said of a marker that holds no version.
pub open spec fn version_complaint(path: Seq<char>, fault: Seq<char>) -> Seq<char> {
    path + " does not hold a map version: "@ + fault
}

/// What is said of a file with a field that is no node id.
pub open spec fn node_complaint(path: Seq<char>, shown: Seq<char>, fault: Seq<char>) -> Seq<char> {
    path + " holds "@ + shown + ", not a node id: "@ + fault
}

/// Where the founding map version is recorded. Under `shards/` rather than the
/// data directory, so that removing `shards/` removes the claim to have founded
/// them too.
pub fn marker_path(config: &NodeConfig) -> (path: String)
    ensures
        path@ == under(under(config.data_dir@, "shards"@), ".placement"@),
{
    crate::config::path_under(config.shards_dir().as_str(), ".placement")
}

/// Where the voter set that a shard was founded with is recorded: inside that
/// shard's own directory. A founded group has no conf entry to replay its
/// membership from.
pub fn voters_path(config: &NodeConfig, shard: ShardId) -> (path: String)
    ensures
        path@ == crate::config::shard_path(config.data_dir@, shard, ".voters"@),
{
    crate::config::path_under(config.shard_dir(shard).as_str(), ".voters")
}

/// The map version in the founding marker: `None` where there is no marker.
pub fn founded_at(config: &NodeConfig, marker: Option<&str>) -> (r: Result<
    Option<u64>,
    PlacementError,
>)
    ensures
        match marker {
            None => r == Ok::<Option<u64>, PlacementError>(None),
            Some(text) => match parsed(trimmed(text@), u64::MAX as nat) {
                Some(version) => r == Ok::<Option<u64>, PlacementError>(Some(version as u64)),
                None => {
                    &&& r matches Err(PlacementError::NotAVersion { path, fault })
                    &&& path@ == under(under(config.data_dir@, "shards"@), ".placement"@)
                    &&& fault == number_fault(trimmed(text@), u64::MAX as nat)
                },
            },
        },
{
    match marker {
        None => Ok(None),
        Some(text) => {
            match read_number(trim(text), u64::MAX) {
                Ok(version) => Ok(Some(version)),
                Err(fault) => Err(
                    PlacementError::NotAVersion { path: marker_path(config), fault },
                ),
            }
        },
    }
}

/// What the founding marker says of a version.
pub open spec fn marker_of(version: u64) -> Seq<char> {
    as_chars(decimal(version as nat).push(0x0a))
}

/// The founding marker's text.
pub fn record_founding(version: u64) -> (text: String)
    ensures
        text@ == marker_of(version),
{
    let mut out: Vec<u8> = Vec::new();
    push_decimal(&mut out, version);
    out.push(0x0a);
    proof {
        lemma_decimal(version as nat);
        assert(out@ =~= decimal(version as nat).push(0x0a));
    }
    ascii_text(out)
}

/// The version that was recorded is the version that is read.
pub proof fn law_marker_round_trip(version: u64)
    ensures
        parsed(trimmed(marker_of(version)), u64::MAX as nat) == Some(version as nat),
{
    let d = as_chars(decimal(version as nat));
    let text = marker_of(version);
    lemma_decimal(version as nat);
    assert(text =~= d.push('\n'));
    assert(is_digit(d[0]));
    assert(is_digit(d[d.len() - 1]));
    assert(text[0] == d[0]);
    assert(text.drop_last() =~= d);
    assert(trimmed(text) == trimmed(d));
    law_decimal_round_trip(version as nat, u64::MAX as nat);
}

/// What a directory under `shards/` is: its name, and whether it is one.
#[derive(Debug)]
pub struct DirEntry {
    pub name: String,
    pub is_dir: bool,
}

/// Whether an entry is the directory of a shard: one whose name is its number.
pub open spec fn names_shard(entry: DirEntry, shard: ShardId) -> bool {
    entry.is_dir && parsed(entry.name@, 0xffff) == Some(shard as nat)
}

/// Whether one of the entries is a shard's directory.
pub open spec fn on_disk(entries: Seq<DirEntry>, shard: ShardId) -> bool {
    exists|i: int| 0 <= i < entries.len() && names_shard(#[trigger] entries[i], shard)
}

/// The shards this node already has directories for. A name that is not a
/// shard's number is left alone rather than guessed at.
///
/// The truth after a restart, in preference to the map: a group whose log is on
/// this disk is one this node is a member of as far as Raft is concerned.
pub fn hosted_on_disk(entries: &Vec<DirEntry>) -> (shards: BTreeSet<ShardId>)
    ensures
        forall|s: ShardId| #[trigger]
            shards@.contains(s) <==> exists|i: int|
                0 <= i < entries@.len() && names_shard(#[trigger] entries@[i], s),
        forall|s: ShardId| #[trigger] shards@.contains(s) <==> on_disk(entries@, s),
{
    let mut shards: BTreeSet<ShardId> = BTreeSet::new();
    let mut i: usize = 0;
    while i < entries.len()
        invariant
            i <= entries@.len(),
            forall|s: ShardId| #[trigger]
                shards@.contains(s) <==> exists|j: int|
                    0 <= j < i && names_shard(#[trigger] entries@[j], s),
        decreases entries@.len() - i,
    {
        let ghost before = shards@;
        if entries[i].is_dir {
            match parse(entries[i].name.as_str(), 0xffff) {
                Some(n) => {
                    shards.insert(n as u16);
                },
                None => {},
            }
        }
        i += 1;
        proof {
            assert forall|s: ShardId| #[trigger]
                shards@.contains(s) <==> exists|j: int|
                    0 <= j < i && names_shard(#[trigger] entries@[j], s) by {
                if names_shard(entries@[i - 1], s) {
                    assert(shards@.contains(s));
                }
                if before.contains(s) {
                    let j = choose|j: int| 0 <= j < i - 1 && names_shard(#[trigger] entries@[j], s);
                    assert(0 <= j < i);
                }
                if shards@.contains(s) && !before.contains(s) {
                    assert(names_shard(entries@[i - 1], s));
                }
            }
        }
    }
    shards
}

/// A shard's own directory name reads back as that shard.
pub proof fn law_shard_directory_is_found(shard: ShardId)
    ensures
        parsed(crate::config::shard_name(shard), 0xffff) == Some(shard as nat),
{
    let d = crate::text::digits(shard as nat, 5);
    let name = crate::config::shard_name(shard);
    crate::text::lemma_digits(shard as nat, 5);
    crate::text::lemma_pow10_widths();
    crate::text::lemma_number_of_chars(d);
    assert forall|i: int| 0 <= i < name.len() implies is_digit(#[trigger] name[i]) by {
        assert(48 <= d[i] <= 57);
    }
    assert(is_digit(name[0]));
}

/// What is recorded of a voter set: each id in decimal on a line of its own.
pub open spec fn voter_lines(voters: Seq<NodeId>) -> Seq<u8>
    decreases voters.len(),
{
    if voters.len() == 0 {
        Seq::empty()
    } else {
        voter_lines(voters.drop_last()) + decimal(voters.last() as nat).push(0x0a)
    }
}

/// The text in which a voter set is recorded.
pub open spec fn voters_text_of(voters: Seq<NodeId>) -> Seq<char> {
    as_chars(
        if voters.len() == 0 {
            seq![0x0au8]
        } else {
            voter_lines(voters)
        },
    )
}

/// The text in which a voter set is recorded.
pub fn record_voters(voters: &[NodeId]) -> (text: String)
    ensures
        text@ == voters_text_of(voters@),
{
    let mut out: Vec<u8> = Vec::new();
    let mut i: usize = 0;
    assert(voters@.take(0) =~= Seq::<NodeId>::empty());
    while i < voters.len()
        invariant
            i <= voters@.len(),
            out@ == voter_lines(voters@.take(i as int)),
            forall|j: int| 0 <= j < out@.len() ==> #[trigger] out@[j] < 128,
        decreases voters@.len() - i,
    {
        let ghost before = out@;
        push_decimal(&mut out, voters[i]);
        out.push(0x0a);
        i += 1;
        proof {
            lemma_decimal(voters@[i - 1] as nat);
            assert(voters@.take(i as int).drop_last() =~= voters@.take(i - 1));
            assert(out@ =~= before + decimal(voters@[i - 1] as nat).push(0x0a));
            assert forall|j: int| 0 <= j < out@.len() implies #[trigger] out@[j] < 128 by {
                if j < before.len() {
                    assert(out@[j] == before[j]);
                } else if j < out@.len() - 1 {
                    assert(out@[j] == decimal(voters@[i - 1] as nat)[j - before.len()]);
                }
            }
        }
    }
    assert(voters@.take(i as int) =~= voters@);
    if voters.len() == 0 {
        out.push(0x0a);
        assert(out@ =~= seq![0x0au8]);
    }
    ascii_text(out)
}

/// The ids that a record of voters lists, word by word; `Err` with the first
/// word that is no id.
pub open spec fn voters_among(fields: Seq<Seq<char>>) -> Result<Seq<NodeId>, Seq<char>>
    decreases fields.len(),
{
    if fields.len() == 0 {
        Ok(Seq::empty())
    } else {
        match voters_among(fields.drop_last()) {
            Err(field) => Err(field),
            Ok(ids) => match parsed(fields.last(), u64::MAX as nat) {
                Some(id) => Ok(ids.push(id as u64)),
                None => Err(fields.last()),
            },
        }
    }
}

proof fn lemma_bad_field_stays(fields: Seq<Seq<char>>, n: int)
    requires
        0 <= n <= fields.len(),
        voters_among(fields.take(n)) is Err,
    ensures
        voters_among(fields) == voters_among(fields.take(n)),
    decreases fields.len() - n,
{
    if n < fields.len() {
        assert(fields.take(n + 1).drop_last() =~= fields.take(n));
        lemma_bad_field_stays(fields, n + 1);
    } else {
        assert(fields.take(n) =~= fields);
    }
}

/// The voter set that a shard was founded with: `None` where there is no
/// record, which is a shard that was adopted rather than founded.
pub fn founding_voters(config: &NodeConfig, shard: ShardId, record: Option<&str>) -> (r: Result<
    Option<Vec<NodeId>>,
    PlacementError,
>)
    ensures
        match record {
            None => r == Ok::<Option<Vec<NodeId>>, PlacementError>(None),
            Some(text) => match voters_among(words(text@)) {
                Ok(ids) => r matches Ok(Some(v)) && v@ == ids,
                Err(bad) => {
                    &&& r matches Err(PlacementError::NotANode { path, field, fault })
                    &&& path@ == crate::config::shard_path(config.data_dir@, shard, ".voters"@)
                    &&& field@ == bad
                    &&& fault == number_fault(bad, u64::MAX as nat)
                },
            },
        },
{
    match record {
        None => Ok(None),
        Some(text) => {
            let fields = split_words(text);
            let ghost all = words(text@);
            let mut voters: Vec<NodeId> = Vec::new();
            let mut i: usize = 0;
            assert(all.take(0) =~= Seq::<Seq<char>>::empty());
            while i < fields.len()
                invariant
                    i <= fields@.len(),
                    all == texts_view(fields@),
                    all == words(text@),
                    record == Some(text),
                    voters_among(all.take(i as int)) == Ok::<Seq<NodeId>, Seq<char>>(voters@),
                decreases fields@.len() - i,
            {
                proof {
                    assert(all.take(i + 1).drop_last() =~= all.take(i as int));
                    assert(all[i as int] == fields@[i as int]@);
                }
                match read_number(fields[i], u64::MAX) {
                    Ok(id) => {
                        voters.push(id);
                    },
                    Err(fault) => {
                        proof {
                            lemma_bad_field_stays(all, i + 1);
                        }
                        return Err(
                            PlacementError::NotANode {
                                path: voters_path(config, shard),
                                field: fields[i].to_owned(),
                                fault,
                            },
                        );
                    },
                }
                i += 1;
            }
            assert(all.take(i as int) =~= all);
            Ok(Some(voters))
        },
    }
}

/// A word and the line end behind it are the first word of what they begin.
proof fn lemma_first_word(word: Seq<char>, rest: Seq<char>, n: int)
    requires
        0 <= n <= word.len(),
        forall|i: int| 0 <= i < word.len() ==> !is_space(#[trigger] word[i]),
    ensures
        word_len((word.push('\n') + rest).skip(n)) == word.len() - n,
    decreases word.len() - n,
{
    let s = word.push('\n') + rest;
    if n < word.len() {
        assert(s.skip(n)[0] == word[n]);
        assert(s.skip(n).skip(1) =~= s.skip(n + 1));
        lemma_first_word(word, rest, n + 1);
    } else {
        assert(s.skip(n)[0] == '\n');
    }
}

proof fn lemma_words_of_line(word: Seq<char>, rest: Seq<char>)
    requires
        word.len() > 0,
        forall|i: int| 0 <= i < word.len() ==> !is_space(#[trigger] word[i]),
    ensures
        words(word.push('\n') + rest) == seq![word] + words(rest),
{
    let s = word.push('\n') + rest;
    lemma_first_word(word, rest, 0);
    assert(s.skip(0) =~= s);
    assert(s[0] == word[0]);
    assert(s.take(word.len() as int) =~= word);
    let tail = s.skip(word.len() as int);
    assert(tail[0] == '\n');
    assert(tail.skip(1) =~= rest);
    assert(words(tail) == words(rest));
}

/// The fields of a record of voters.
spec fn fields_of(voters: Seq<NodeId>) -> Seq<Seq<char>> {
    voters.map_values(|id: NodeId| as_chars(decimal(id as nat)))
}

proof fn lemma_lines_head(voters: Seq<NodeId>)
    requires
        voters.len() > 0,
    ensures
        voter_lines(voters) == decimal(voters[0] as nat).push(0x0a) + voter_lines(voters.skip(1)),
    decreases voters.len(),
{
    let first = decimal(voters[0] as nat).push(0x0a);
    if voters.len() == 1 {
        assert(voters.drop_last() =~= Seq::<NodeId>::empty());
        assert(voters.skip(1) =~= Seq::<NodeId>::empty());
        assert(voter_lines(voters) =~= first + voter_lines(voters.skip(1)));
    } else {
        lemma_lines_head(voters.drop_last());
        assert(voters.drop_last().skip(1) =~= voters.skip(1).drop_last());
        assert(voter_lines(voters) =~= first + voter_lines(voters.skip(1)));
    }
}

proof fn lemma_words_of_lines(voters: Seq<NodeId>)
    ensures
        words(as_chars(voter_lines(voters))) == fields_of(voters),
    decreases voters.len(),
{
    if voters.len() == 0 {
        assert(words(as_chars(voter_lines(voters))) =~= fields_of(voters));
    } else {
        let d = decimal(voters[0] as nat);
        let word = as_chars(d);
        let rest = voters.skip(1);
        lemma_lines_head(voters);
        lemma_decimal(voters[0] as nat);
        assert(as_chars(voter_lines(voters)) =~= word.push('\n') + as_chars(voter_lines(rest)));
        assert forall|i: int| 0 <= i < word.len() implies !is_space(#[trigger] word[i]) by {
            assert(is_digit(word[i]));
        }
        lemma_words_of_line(word, as_chars(voter_lines(rest)));
        lemma_words_of_lines(rest);
        assert(fields_of(voters) =~= seq![word] + fields_of(rest));
    }
}

proof fn lemma_voters_of_fields(voters: Seq<NodeId>)
    ensures
        voters_among(fields_of(voters)) == Ok::<Seq<NodeId>, Seq<char>>(voters),
    decreases voters.len(),
{
    if voters.len() == 0 {
        assert(voters =~= Seq::<NodeId>::empty());
    } else {
        let head = voters.drop_last();
        assert(fields_of(voters).drop_last() =~= fields_of(head));
        lemma_voters_of_fields(head);
        law_decimal_round_trip(voters.last() as nat, u64::MAX as nat);
        assert(voters =~= head.push(voters.last()));
    }
}

/// The voter set that was recorded is the voter set that is read.
pub proof fn law_voters_round_trip(voters: Seq<NodeId>)
    ensures
        voters_among(words(voters_text_of(voters))) == Ok::<Seq<NodeId>, Seq<char>>(voters),
{
    if voters.len() == 0 {
        let text = voters_text_of(voters);
        assert(text[0] == '\n');
        assert(text.skip(1) =~= Seq::<char>::empty());
        assert(words(text) == words(text.skip(1)));
        assert(voters =~= Seq::<NodeId>::empty());
    } else {
        lemma_words_of_lines(voters);
        lemma_voters_of_fields(voters);
    }
}

/// A voter list is read word by word, or refused with the first word that is no
/// id.
pub proof fn law_voters_are_read_word_by_word(fields: Seq<Seq<char>>, i: int)
    ensures
        match voters_among(fields) {
            Ok(ids) => {
                &&& ids.len() == fields.len()
                &&& 0 <= i < fields.len() ==> parsed(fields[i], u64::MAX as nat) == Some(
                    ids[i] as nat,
                )
            },
            Err(bad) => exists|k: int|
                #![trigger fields[k]]
                0 <= k < fields.len() && fields[k] == bad && parsed(bad, u64::MAX as nat) is None
                    && forall|j: int|
                    #![trigger fields[j]]
                    0 <= j < k ==> parsed(fields[j], u64::MAX as nat) is Some,
        },
    decreases fields.len(),
{
    if fields.len() > 0 {
        let head = fields.drop_last();
        let n = fields.len() - 1;
        law_voters_are_read_word_by_word(head, i);
        assert(fields[n] == fields.last());
        match voters_among(head) {
            Err(bad) => {
                let k = choose|k: int|
                    #![trigger head[k]]
                    0 <= k < head.len() && head[k] == bad && parsed(bad, u64::MAX as nat) is None
                        && forall|j: int|
                        #![trigger head[j]]
                        0 <= j < k ==> parsed(head[j], u64::MAX as nat) is Some;
                assert(fields[k] == bad);
                assert forall|j: int| #![trigger fields[j]] 0 <= j < k implies parsed(
                    fields[j],
                    u64::MAX as nat,
                ) is Some by {
                    assert(fields[j] == head[j]);
                }
            },
            Ok(ids) => {
                if parsed(fields.last(), u64::MAX as nat) is None {
                    assert forall|j: int| #![trigger fields[j]] 0 <= j < n implies parsed(
                        fields[j],
                        u64::MAX as nat,
                    ) is Some by {
                        law_voters_are_read_word_by_word(head, j);
                        assert(fields[j] == head[j]);
                    }
                } else if 0 <= i < n {
                    assert(fields[i] == head[i]);
                }
            },
        }
    }
}

/// A shard is on the disk exactly if there is a directory of its name.
pub proof fn law_a_shard_is_found_by_its_directory(entry: DirEntry, shard: ShardId)
    ensures
        entry.is_dir && entry.name@ == crate::config::shard_name(shard) ==> names_shard(entry, shard),
        !entry.is_dir ==> !names_shard(entry, shard),
        names_shard(entry, shard) ==> parsed(entry.name@, 0xffff) == Some(shard as nat),
{
    law_shard_directory_is_found(shard);
}

/// What founding recorded is read back: the map's version from the marker, and
/// the voters from the shard's record; nothing recorded is nothing read.
pub proof fn law_founding_is_read_back(
    config: &NodeConfig,
    version: u64,
    marker: String,
    at: Result<Option<u64>, PlacementError>,
    shard: ShardId,
    voters: &[NodeId],
    record: String,
    kept: Result<Option<Vec<NodeId>>, PlacementError>,
    text: &str,
    line: &str,
    none: (Result<Option<u64>, PlacementError>, Result<Option<Vec<NodeId>>, PlacementError>),
)
    requires
        call_ensures(record_founding, (version,), marker),
        text@ == marker@,
        call_ensures(founded_at, (config, Some(text)), at),
        call_ensures(record_voters, (voters,), record),
        line@ == record@,
        call_ensures(founding_voters, (config, shard, Some(line)), kept),
        call_ensures(founded_at, (config, None), none.0),
        call_ensures(founding_voters, (config, shard, None), none.1),
    ensures
        at == Ok::<Option<u64>, PlacementError>(Some(version)),
        kept matches Ok(Some(v)) && v@ == voters@,
        none.0 == Ok::<Option<u64>, PlacementError>(None),
        none.1 == Ok::<Option<Vec<NodeId>>, PlacementError>(None),
{
    law_marker_round_trip(version);
    law_voters_round_trip(voters@);
}

/// A marker or a record that cannot be read is refused, with the first word that
/// is no number.
pub proof fn law_a_damaged_record_is_refused(
    config: &NodeConfig,
    text: &str,
    at: Result<Option<u64>, PlacementError>,
    shard: ShardId,
    kept: Result<Option<Vec<NodeId>>, PlacementError>,
)
    requires
        call_ensures(founded_at, (config, Some(text)), at),
        call_ensures(founding_voters, (config, shard, Some(text)), kept),
    ensures
        at is Err <==> parsed(trimmed(text@), u64::MAX as nat) is None,
        at matches Ok(found) ==> (found matches Some(v) && parsed(trimmed(text@), u64::MAX as nat)
            == Some(v as nat)),
        kept is Err <==> voters_among(words(text@)) is Err,
        kept matches Ok(found) ==> found is Some,
{
}

/// A store of the old layout is refused by the first of its directories, and a
/// node hosts exactly the shards that have a directory.
pub proof fn law_what_a_disk_holds(
    config: &NodeConfig,
    raft: bool,
    state: bool,
    r: Result<(), LegacyLayout>,
    entries: &Vec<DirEntry>,
    shards: BTreeSet<ShardId>,
    shard: ShardId,
    i: int,
)
    requires
        call_ensures(check_layout, (config, raft, state), r),
        call_ensures(hosted_on_disk, (entries,), shards),
    ensures
        r is Ok <==> !raft && !state,
        r matches Err(refused) ==> (raft ==> refused.path@ == under(config.data_dir@, "raft"@)),
        0 <= i < entries@.len() && entries@[i].is_dir && parsed(entries@[i].name@, 0xffff) == Some(
            shard as nat,
        ) ==> shards@.contains(shard),
        shards@.contains(shard) ==> exists|k: int|
            #![trigger entries@[k]]
            0 <= k < entries@.len() && entries@[k].is_dir && parsed(entries@[k].name@, 0xffff)
                == Some(shard as nat),
{
    if 0 <= i < entries@.len() && entries@[i].is_dir && parsed(entries@[i].name@, 0xffff) == Some(
        shard as nat,
    ) {
        assert(names_shard(entries@[i], shard));
        assert(on_disk(entries@, shard));
        assert(shards@.contains(shard));
    }
}

} // verus!
