//! A Raft log kept in a byte-keyed store.
//!
//! The store has no range scan, so the key space carries the structure:
//! three reserved keys hold the hard state, the log's bounds and the snapshot,
//! and each entry lives at `e` and its index in twenty digits. The last index is
//! kept rather than derived, and that is also the more crash-correct choice: a
//! crash between the entry appends and the update of the bounds simply hides
//! entries that were never acknowledged.

use vstd::prelude::*;

use crate::bytes::{from_le, le, lemma_from_le_le, lemma_le_len, lemma_pow256_widths};
use crate::codec::{bytes_at, enc_bool, enc_bytes, get_bool, get_bytes, get_u64, put_bool,
    put_bytes, put_u64};
use crate::engine::{Edit, Engine, lemma_follows_self, lemma_follows_step, lemma_follows_trans};
use crate::session::{reserved, RESERVED_PREFIX};
use crate::text::{digits, lemma_digits_injective, lemma_pow10_widths, push_digits};
use crate::types::{ClusterConfig, Entry, HardState, LogIndex, NodeId, Snapshot, SnapshotView, Term};

verus! {

/// Why the log cannot do what it was asked.
#[derive(Debug, Clone, Copy, PartialEq, Eq, Structural)]
pub enum BitcaskStorageError {
    /// A row does not hold what it should.
    Encoding,
    /// An append would leave a gap.
    Gap { expected: LogIndex, got: LogIndex },
    /// The entries to append are not contiguous.
    NotContiguous { at: LogIndex },
}

/// The key of the hard state: the reserved byte and `hard_state`.
pub open spec fn hard_state_key() -> Seq<u8> {
    seq![RESERVED_PREFIX, 0x68, 0x61, 0x72, 0x64, 0x5f, 0x73, 0x74, 0x61, 0x74, 0x65]
}

/// The key of the log's bounds: the reserved byte and `log_meta`.
pub open spec fn log_meta_key() -> Seq<u8> {
    seq![RESERVED_PREFIX, 0x6c, 0x6f, 0x67, 0x5f, 0x6d, 0x65, 0x74, 0x61]
}

/// The key of the snapshot: the reserved byte and `snapshot`.
pub open spec fn snapshot_key() -> Seq<u8> {
    seq![RESERVED_PREFIX, 0x73, 0x6e, 0x61, 0x70, 0x73, 0x68, 0x6f, 0x74]
}

/// The key of the entry at `index`: `e` and twenty digits.
pub open spec fn entry_key_of(index: LogIndex) -> Seq<u8> {
    seq![0x65u8] + digits(index as nat, 20)
}

/// No two entries share a key, and no entry's key is reserved; the three
/// reserved keys are three.
pub proof fn law_log_keys(a: LogIndex, b: LogIndex)
    ensures
        entry_key_of(a) == entry_key_of(b) ==> a == b,
        !reserved(entry_key_of(a)),
        reserved(hard_state_key()),
        reserved(log_meta_key()),
        reserved(snapshot_key()),
        hard_state_key() != log_meta_key(),
        hard_state_key() != snapshot_key(),
        log_meta_key() != snapshot_key(),
{
    lemma_pow10_widths();
    assert(entry_key_of(a).skip(1) =~= digits(a as nat, 20));
    assert(entry_key_of(b).skip(1) =~= digits(b as nat, 20));
    if entry_key_of(a) == entry_key_of(b) {
        lemma_digits_injective(a as nat, b as nat, 20);
    }
    assert(entry_key_of(a)[0] == 0x65u8);
    assert(hard_state_key().len() == 11);
    assert(log_meta_key()[1] == 0x6c);
    assert(snapshot_key()[1] == 0x73);
}

fn hard_state_row() -> (key: Vec<u8>)
    ensures
        key@ == hard_state_key(),
{
    let key: Vec<u8> = vec![
        RESERVED_PREFIX, 0x68, 0x61, 0x72, 0x64, 0x5f, 0x73, 0x74, 0x61, 0x74, 0x65,
    ];
    assert(key@ =~= hard_state_key());
    key
}

fn log_meta_row() -> (key: Vec<u8>)
    ensures
        key@ == log_meta_key(),
{
    let key: Vec<u8> = vec![RESERVED_PREFIX, 0x6c, 0x6f, 0x67, 0x5f, 0x6d, 0x65, 0x74, 0x61];
    assert(key@ =~= log_meta_key());
    key
}

fn snapshot_row() -> (key: Vec<u8>)
    ensures
        key@ == snapshot_key(),
{
    let key: Vec<u8> = vec![RESERVED_PREFIX, 0x73, 0x6e, 0x61, 0x70, 0x73, 0x68, 0x6f, 0x74];
    assert(key@ =~= snapshot_key());
    key
}

fn entry_key(index: LogIndex) -> (key: Vec<u8>)
    ensures
        key@ == entry_key_of(index),
{
    let mut key: Vec<u8> = vec![0x65];
    push_digits(&mut key, index, 20);
    assert(key@ =~= entry_key_of(index));
    key
}

/// An entry as a mathematical value: its term, its index and its command.
pub type EntryView = (Term, LogIndex, Seq<u8>);

/// The stored form of an entry.
pub open spec fn enc_log_entry(entry: EntryView) -> Seq<u8> {
    le(entry.0 as nat, 8) + le(entry.1 as nat, 8) + enc_bytes(entry.2)
}

/// The entry that a row begins with.
pub open spec fn log_entry_of(row: Seq<u8>) -> Option<EntryView> {
    if row.len() < 16 {
        None
    } else {
        match bytes_at(row.skip(16)) {
            Some((command, _)) => Some(
                (from_le(row.take(8)) as u64, from_le(row.subrange(8, 16)) as u64, command),
            ),
            None => None,
        }
    }
}

/// The stored form of the log's bounds.
pub open spec fn enc_meta(last: LogIndex, base: LogIndex) -> Seq<u8> {
    le(last as nat, 8) + le(base as nat, 8)
}

/// The log's bounds in a row: the last index, and the first one that is live.
/// A row that holds only the last index is of a log that never dropped a prefix.
pub open spec fn meta_of(row: Seq<u8>) -> Option<(LogIndex, LogIndex)> {
    if row.len() == 8 {
        Some((from_le(row) as u64, 1))
    } else if row.len() < 16 {
        None
    } else {
        let base = from_le(row.subrange(8, 16)) as u64;
        Some((from_le(row.take(8)) as u64, if base < 1 { 1 } else { base }))
    }
}

/// The stored form of a list of ids: how many, and then each.
pub open spec fn enc_ids(ids: Seq<NodeId>) -> Seq<u8> {
    le(ids.len(), 8) + enc_each(ids)
}

pub open spec fn enc_each(ids: Seq<NodeId>) -> Seq<u8>
    decreases ids.len(),
{
    if ids.len() == 0 {
        Seq::empty()
    } else {
        enc_each(ids.drop_last()) + le(ids.last() as nat, 8)
    }
}

/// `known` with the next `count` ids of `data` behind them, and what follows.
pub open spec fn parse_ids(data: Seq<u8>, count: nat, known: Seq<NodeId>) -> Option<
    (Seq<NodeId>, Seq<u8>),
>
    decreases count,
{
    if count == 0 {
        Some((known, data))
    } else if data.len() < 8 {
        None
    } else {
        parse_ids(data.skip(8), (count - 1) as nat, known.push(from_le(data.take(8)) as u64))
    }
}

/// The list of ids that a record begins with, and what follows it.
pub open spec fn ids_at(data: Seq<u8>) -> Option<(Seq<NodeId>, Seq<u8>)> {
    if data.len() < 8 {
        None
    } else {
        parse_ids(data.skip(8), from_le(data.take(8)), Seq::empty())
    }
}

/// The stored form of a snapshot.
pub open spec fn enc_snapshot(s: SnapshotView) -> Seq<u8> {
    le(s.index as nat, 8) + le(s.term as nat, 8) + enc_bytes(s.data) + enc_ids(s.voters) + enc_ids(
        s.learners,
    )
}

/// The snapshot that a row begins with.
pub open spec fn snapshot_of(row: Seq<u8>) -> Option<SnapshotView> {
    if row.len() < 16 {
        None
    } else {
        match bytes_at(row.skip(16)) {
            None => None,
            Some((data, rest)) => match ids_at(rest) {
                None => None,
                Some((voters, tail)) => match ids_at(tail) {
                    None => None,
                    Some((learners, _)) => Some(
                        SnapshotView {
                            index: from_le(row.take(8)) as u64,
                            term: from_le(row.subrange(8, 16)) as u64,
                            data,
                            voters,
                            learners,
                        },
                    ),
                },
            },
        }
    }
}

/// The lengths in a snapshot fit the eight bytes they are written in.
pub open spec fn snapshot_fits(s: SnapshotView) -> bool {
    s.data.len() <= u64::MAX && s.voters.len() <= u64::MAX && s.learners.len() <= u64::MAX
}

/// The stored form of a hard state.
pub open spec fn enc_hard_state(hs: HardState) -> Seq<u8> {
    le(hs.current_term as nat, 8) + (match hs.voted_for {
        Some(id) => enc_bool(true) + le(id as nat, 8),
        None => enc_bool(false),
    }) + le(hs.commit_index as nat, 8)
}

/// The hard state that a row begins with.
pub open spec fn hard_state_of(row: Seq<u8>) -> Option<HardState> {
    let term = from_le(row.take(8)) as u64;
    if row.len() >= 17 && row[8] == 0 {
        Some(
            HardState {
                current_term: term,
                voted_for: None,
                commit_index: from_le(row.subrange(9, 17)) as u64,
            },
        )
    } else if row.len() >= 25 && row[8] == 1 {
        Some(
            HardState {
                current_term: term,
                voted_for: Some(from_le(row.subrange(9, 17)) as u64),
                commit_index: from_le(row.subrange(17, 25)) as u64,
            },
        )
    } else {
        None
    }
}

fn read_log_entry(row: &[u8]) -> (r: Option<Entry>)
    ensures
        match (r, log_entry_of(row@)) {
            (Some(e), Some(want)) => e@ == want,
            (None, None) => true,
            _ => false,
        },
{
    let (term, rest) = get_u64(row)?;
    let (index, rest2) = get_u64(rest)?;
    proof {
        assert(row@.subrange(8, 16) =~= rest@.take(8));
        assert(row@.skip(16) =~= rest2@);
    }
    let (command, _) = get_bytes(rest2)?;
    Some(Entry { term, index, command })
}

fn write_log_entry(entry: &Entry) -> (row: Vec<u8>)
    ensures
        row@ == enc_log_entry(entry@),
{
    let mut row: Vec<u8> = Vec::new();
    put_u64(&mut row, entry.term);
    put_u64(&mut row, entry.index);
    put_bytes(&mut row, &entry.command);
    assert(row@ =~= enc_log_entry(entry@));
    row
}

fn read_meta(row: &[u8]) -> (r: Option<(LogIndex, LogIndex)>)
    ensures
        r == meta_of(row@),
{
    let (last, rest) = get_u64(row)?;
    match get_u64(rest) {
        Some((base, _)) => {
            assert(row@.subrange(8, 16) =~= rest@.take(8));
            Some((last, if base < 1 { 1 } else { base }))
        },
        None => if row.len() == 8 {
            assert(row@.take(8) =~= row@);
            Some((last, 1))
        } else {
            None
        },
    }
}

fn read_ids<'a>(data: &'a [u8]) -> (r: Option<(Vec<NodeId>, &'a [u8])>)
    ensures
        match (r, ids_at(data@)) {
            (Some((ids, rest)), Some(want)) => (ids@, rest@) == want,
            (None, None) => true,
            _ => false,
        },
{
    let (count, first) = get_u64(data)?;
    let mut rest: &[u8] = first;
    let mut left: u64 = count;
    let mut ids: Vec<NodeId> = Vec::new();
    while left > 0
        invariant
            ids_at(data@) == parse_ids(rest@, left as nat, ids@),
        decreases left,
    {
        match get_u64(rest) {
            Some((id, tail)) => {
                ids.push(id);
                rest = tail;
            },
            None => {
                return None;
            },
        }
        left -= 1;
    }
    Some((ids, rest))
}

fn write_ids(out: &mut Vec<u8>, ids: &[NodeId])
    ensures
        final(out)@ == old(out)@ + enc_ids(ids@),
{
    put_u64(out, ids.len() as u64);
    let ghost head = out@;
    let mut i: usize = 0;
    assert(ids@.take(0) =~= Seq::<NodeId>::empty());
    assert(out@ =~= head + enc_each(ids@.take(0)));
    while i < ids.len()
        invariant
            i <= ids@.len(),
            out@ == head + enc_each(ids@.take(i as int)),
        decreases ids@.len() - i,
    {
        let ghost before = out@;
        put_u64(out, ids[i]);
        i += 1;
        assert(ids@.take(i as int).drop_last() =~= ids@.take(i - 1));
        assert(out@ =~= head + enc_each(ids@.take(i as int)));
    }
    assert(ids@.take(i as int) =~= ids@);
    assert(out@ =~= old(out)@ + enc_ids(ids@));
}

fn read_snapshot(row: &[u8]) -> (r: Option<Snapshot>)
    ensures
        match (r, snapshot_of(row@)) {
            (Some(s), Some(want)) => s@ == want,
            (None, None) => true,
            _ => false,
        },
{
    let (last_included_index, rest) = get_u64(row)?;
    let (last_included_term, rest2) = get_u64(rest)?;
    proof {
        assert(row@.subrange(8, 16) =~= rest@.take(8));
        assert(row@.skip(16) =~= rest2@);
    }
    let (data, rest3) = get_bytes(rest2)?;
    let (voters, rest4) = read_ids(rest3)?;
    let (learners, _) = read_ids(rest4)?;
    Some(
        Snapshot {
            last_included_index,
            last_included_term,
            data,
            config: ClusterConfig { voters, learners },
        },
    )
}

fn write_snapshot(s: &Snapshot) -> (row: Vec<u8>)
    ensures
        row@ == enc_snapshot(s@),
{
    let mut row: Vec<u8> = Vec::new();
    put_u64(&mut row, s.last_included_index);
    put_u64(&mut row, s.last_included_term);
    put_bytes(&mut row, &s.data);
    write_ids(&mut row, &s.config.voters);
    write_ids(&mut row, &s.config.learners);
    assert(row@ =~= enc_snapshot(s@));
    row
}

fn read_hard_state(row: &[u8]) -> (r: Option<HardState>)
    ensures
        r == hard_state_of(row@),
{
    let (current_term, rest) = get_u64(row)?;
    proof {
        if rest@.len() > 0 {
            assert(rest@[0] == row@[8]);
        }
    }
    let (voted, rest2) = get_bool(rest)?;
    proof {
        assert(rest2@ =~= row@.skip(9));
    }
    let (first, rest3) = get_u64(rest2)?;
    assert(rest2@.take(8) =~= row@.subrange(9, 17));
    if !voted {
        return Some(HardState { current_term, voted_for: None, commit_index: first });
    }
    assert(rest3@ =~= row@.skip(17));
    let (commit_index, _) = get_u64(rest3)?;
    assert(rest3@.take(8) =~= row@.subrange(17, 25));
    Some(HardState { current_term, voted_for: Some(first), commit_index })
}

fn write_hard_state(hs: &HardState) -> (row: Vec<u8>)
    ensures
        row@ == enc_hard_state(*hs),
{
    let mut row: Vec<u8> = Vec::new();
    put_u64(&mut row, hs.current_term);
    match hs.voted_for {
        Some(id) => {
            put_bool(&mut row, true);
            put_u64(&mut row, id);
        },
        None => {
            put_bool(&mut row, false);
        },
    }
    put_u64(&mut row, hs.commit_index);
    assert(row@ =~= enc_hard_state(*hs));
    row
}

/// An entry reads back as it was written.
pub proof fn lemma_log_entry_round_trip(entry: EntryView)
    requires
        entry.2.len() <= u64::MAX,
    ensures
        log_entry_of(enc_log_entry(entry)) == Some(entry),
{
    lemma_pow256_widths();
    lemma_le_len(entry.0 as nat, 8);
    lemma_le_len(entry.1 as nat, 8);
    lemma_le_len(entry.2.len(), 8);
    lemma_from_le_le(entry.0 as nat, 8);
    lemma_from_le_le(entry.1 as nat, 8);
    lemma_from_le_le(entry.2.len(), 8);
    let row = enc_log_entry(entry);
    assert(row.take(8) =~= le(entry.0 as nat, 8));
    assert(row.subrange(8, 16) =~= le(entry.1 as nat, 8));
    let tail = row.skip(16);
    assert(tail.take(8) =~= le(entry.2.len(), 8));
    assert(tail.subrange(8, 8 + entry.2.len() as int) =~= entry.2);
}

/// The log's bounds read back as they were written.
pub proof fn lemma_meta_round_trip(last: LogIndex, base: LogIndex)
    requires
        base >= 1,
    ensures
        meta_of(enc_meta(last, base)) == Some((last, base)),
{
    lemma_pow256_widths();
    lemma_le_len(last as nat, 8);
    lemma_le_len(base as nat, 8);
    lemma_from_le_le(last as nat, 8);
    lemma_from_le_le(base as nat, 8);
    let row = enc_meta(last, base);
    assert(row.take(8) =~= le(last as nat, 8));
    assert(row.subrange(8, 16) =~= le(base as nat, 8));
}

/// A hard state reads back as it was written.
pub proof fn law_hard_state_round_trip(hs: HardState)
    ensures
        hard_state_of(enc_hard_state(hs)) == Some(hs),
{
    lemma_pow256_widths();
    lemma_le_len(hs.current_term as nat, 8);
    lemma_le_len(hs.commit_index as nat, 8);
    lemma_from_le_le(hs.current_term as nat, 8);
    lemma_from_le_le(hs.commit_index as nat, 8);
    let row = enc_hard_state(hs);
    assert(row.take(8) =~= le(hs.current_term as nat, 8));
    match hs.voted_for {
        Some(id) => {
            lemma_le_len(id as nat, 8);
            lemma_from_le_le(id as nat, 8);
            assert(row.subrange(9, 17) =~= le(id as nat, 8));
            assert(row.subrange(17, 25) =~= le(hs.commit_index as nat, 8));
        },
        None => {
            assert(row.subrange(9, 17) =~= le(hs.commit_index as nat, 8));
        },
    }
}

proof fn lemma_each_head(ids: Seq<NodeId>)
    requires
        ids.len() > 0,
    ensures
        enc_each(ids) == le(ids[0] as nat, 8) + enc_each(ids.skip(1)),
    decreases ids.len(),
{
    if ids.len() == 1 {
        assert(ids.drop_last() =~= Seq::<NodeId>::empty());
        assert(ids.skip(1) =~= Seq::<NodeId>::empty());
        assert(enc_each(ids) =~= le(ids[0] as nat, 8) + enc_each(ids.skip(1)));
    } else {
        lemma_each_head(ids.drop_last());
        assert(ids.drop_last().skip(1) =~= ids.skip(1).drop_last());
        assert(enc_each(ids) =~= le(ids[0] as nat, 8) + enc_each(ids.skip(1)));
    }
}

proof fn lemma_parse_ids(ids: Seq<NodeId>, known: Seq<NodeId>, rest: Seq<u8>)
    ensures
        parse_ids(enc_each(ids) + rest, ids.len(), known) == Some((known + ids, rest)),
    decreases ids.len(),
{
    let data = enc_each(ids) + rest;
    if ids.len() == 0 {
        assert(data =~= rest);
        assert(known + ids =~= known);
    } else {
        lemma_each_head(ids);
        lemma_pow256_widths();
        lemma_le_len(ids[0] as nat, 8);
        lemma_from_le_le(ids[0] as nat, 8);
        assert(data.take(8) =~= le(ids[0] as nat, 8));
        assert(data.skip(8) =~= enc_each(ids.skip(1)) + rest);
        lemma_parse_ids(ids.skip(1), known.push(ids[0]), rest);
        assert(known.push(ids[0]) + ids.skip(1) =~= known + ids);
    }
}

proof fn lemma_ids_at(ids: Seq<NodeId>, rest: Seq<u8>)
    requires
        ids.len() <= u64::MAX,
    ensures
        ids_at(enc_ids(ids) + rest) == Some((ids, rest)),
{
    let data = enc_ids(ids) + rest;
    lemma_pow256_widths();
    lemma_le_len(ids.len(), 8);
    lemma_from_le_le(ids.len(), 8);
    assert(data.take(8) =~= le(ids.len(), 8));
    assert(data.skip(8) =~= enc_each(ids) + rest);
    lemma_parse_ids(ids, Seq::empty(), rest);
    assert(Seq::<NodeId>::empty() + ids =~= ids);
}

/// A snapshot reads back as it was written.
pub proof fn law_snapshot_round_trip(s: SnapshotView)
    requires
        snapshot_fits(s),
    ensures
        snapshot_of(enc_snapshot(s)) == Some(s),
{
    lemma_pow256_widths();
    lemma_le_len(s.index as nat, 8);
    lemma_le_len(s.term as nat, 8);
    lemma_le_len(s.data.len(), 8);
    lemma_from_le_le(s.index as nat, 8);
    lemma_from_le_le(s.term as nat, 8);
    lemma_from_le_le(s.data.len(), 8);
    let row = enc_snapshot(s);
    assert(row.take(8) =~= le(s.index as nat, 8));
    assert(row.subrange(8, 16) =~= le(s.term as nat, 8));
    let tail = row.skip(16);
    assert(tail.take(8) =~= le(s.data.len(), 8));
    assert(tail.subrange(8, 8 + s.data.len() as int) =~= s.data);
    let rest = tail.skip(8 + s.data.len() as int);
    assert(rest =~= enc_ids(s.voters) + enc_ids(s.learners));
    lemma_ids_at(s.voters, enc_ids(s.learners));
    assert(enc_ids(s.learners) =~= enc_ids(s.learners) + Seq::<u8>::empty());
    lemma_ids_at(s.learners, Seq::empty());
}

/// What opening a store as a log finds: the last index, the first live one and
/// the snapshot. The log reaches at least as far as its snapshot does.
pub open spec fn opened(state: Map<Seq<u8>, Seq<u8>>) -> Result<
    (LogIndex, LogIndex, Option<SnapshotView>),
    BitcaskStorageError,
> {
    let meta = if state.contains_key(log_meta_key()) {
        meta_of(state[log_meta_key()])
    } else {
        Some((0, 1))
    };
    let held = if state.contains_key(snapshot_key()) {
        match snapshot_of(state[snapshot_key()]) {
            Some(s) => Some(Some(s)),
            None => None,
        }
    } else {
        Some(None)
    };
    match (meta, held) {
        (Some((last, base)), Some(snapshot)) => Ok((at_least(last, snapshot), base, snapshot)),
        _ => Err(BitcaskStorageError::Encoding),
    }
}

/// `last`, or the boundary of the snapshot where that is further on.
pub open spec fn at_least(last: LogIndex, snapshot: Option<SnapshotView>) -> LogIndex {
    if last < boundary(snapshot) {
        boundary(snapshot)
    } else {
        last
    }
}

/// The last index that a snapshot covers; 0 where there is none.
pub open spec fn boundary(snapshot: Option<SnapshotView>) -> LogIndex {
    match snapshot {
        Some(s) => s.index,
        None => 0,
    }
}

/// The entry stored at an index.
pub open spec fn stored(state: Map<Seq<u8>, Seq<u8>>, index: LogIndex) -> Option<EntryView> {
    if state.contains_key(entry_key_of(index)) {
        log_entry_of(state[entry_key_of(index)])
    } else {
        None
    }
}

/// Entries as mathematical values.
pub open spec fn entry_views(entries: Seq<Entry>) -> Seq<EntryView> {
    entries.map_values(|e: Entry| e@)
}

/// Each entry's index is one more than the entry's before it.
pub open spec fn contiguous(entries: Seq<EntryView>) -> bool {
    forall|i: int|
        #![trigger entries[i]]
        0 < i < entries.len() ==> entries[i].1 == entries[i - 1].1 + 1
}

/// A store with the rows of some entries put in.
pub open spec fn with_rows(
    state: Map<Seq<u8>, Seq<u8>>,
    entries: Seq<EntryView>,
) -> Map<Seq<u8>, Seq<u8>>
    decreases entries.len(),
{
    if entries.len() == 0 {
        state
    } else {
        with_rows(state, entries.drop_last()).insert(
            entry_key_of(entries.last().1),
            enc_log_entry(entries.last()),
        )
    }
}

/// The writes that put the rows of some entries in.
pub open spec fn row_edits(entries: Seq<EntryView>) -> Seq<Edit> {
    entries.map_values(|e: EntryView| Edit::Put(entry_key_of(e.1), enc_log_entry(e)))
}

/// The keys of the entries from `from` up to, and without, `to`.
pub open spec fn row_keys(from: int, to: int) -> Set<Seq<u8>> {
    Set::new(|key: Seq<u8>| exists|i: LogIndex| from <= i < to && key == #[trigger] entry_key_of(i))
}

/// The writes that take the rows from `from` up to, and without, `to` out.
pub open spec fn delete_edits(from: int, to: int) -> Seq<Edit> {
    Seq::new(
        if from < to {
            (to - from) as nat
        } else {
            0
        },
        |k: int| Edit::Delete(entry_key_of((from + k) as u64)),
    )
}

/// The entries stored from `from` up to, and without, `to`, in order; `Err`
/// where a row among them is broken.
pub open spec fn collect(state: Map<Seq<u8>, Seq<u8>>, from: int, to: int) -> Result<
    Seq<EntryView>,
    BitcaskStorageError,
>
    decreases to - from,
{
    if from >= to {
        Ok(Seq::empty())
    } else {
        match collect(state, from, to - 1) {
            Err(e) => Err(e),
            Ok(found) => if state.contains_key(entry_key_of((to - 1) as u64)) {
                match log_entry_of(state[entry_key_of((to - 1) as u64)]) {
                    Some(entry) => Ok(found.push(entry)),
                    None => Err(BitcaskStorageError::Encoding),
                }
            } else {
                Ok(found)
            },
        }
    }
}

/// Takes the rows from `from` up to, and without, `to` out of a store.
fn delete_rows(engine: &mut Engine, from: LogIndex, to: LogIndex)
    requires
        old(engine).wf(),
    ensures
        final(engine).wf(),
        final(engine)@ == old(engine)@.remove_keys(row_keys(from as int, to as int)),
        final(engine).queue() == old(engine).queue() + delete_edits(from as int, to as int),
        final(engine).follows(old(engine)),
        old(engine).unflushed() ==> final(engine).unflushed(),
{
    let mut index: LogIndex = from;
    proof {
        lemma_follows_self(engine);
        assert(engine@.remove_keys(row_keys(from as int, from as int)) =~= engine@);
        assert(engine.queue() + delete_edits(from as int, from as int) =~= engine.queue());
        if from >= to {
            assert(engine@.remove_keys(row_keys(from as int, to as int)) =~= engine@);
            assert(delete_edits(from as int, to as int) =~= Seq::<Edit>::empty());
        }
    }
    while index < to
        invariant
            from <= index,
            index <= to || index == from,
            engine.wf(),
            engine@ == old(engine)@.remove_keys(row_keys(from as int, index as int)),
            engine.queue() == old(engine).queue() + delete_edits(from as int, index as int),
            engine.follows(old(engine)),
            old(engine).unflushed() ==> engine.unflushed(),
            from >= to ==> engine@ == old(engine)@.remove_keys(row_keys(from as int, to as int))
                && delete_edits(from as int, to as int) =~= delete_edits(from as int, index as int),
        decreases to - index,
    {
        let ghost before = *engine;
        let key = entry_key(index);
        engine.delete(&key);
        proof {
            lemma_follows_step(old(engine), &before, engine, Edit::Delete(key@));
            let wider = row_keys(from as int, index + 1);
            assert forall|k: Seq<u8>| wider.contains(k) == (row_keys(
                from as int,
                index as int,
            ).contains(k) || k == key@) by {
                if wider.contains(k) {
                    let i = choose|i: LogIndex|
                        from <= i < index + 1 && k == #[trigger] entry_key_of(i);
                    if i < index {
                        assert(row_keys(from as int, index as int).contains(k));
                    }
                }
            }
            assert(engine@ =~= old(engine)@.remove_keys(wider));
            assert(engine.queue() =~= old(engine).queue() + delete_edits(from as int, index + 1));
        }
        index += 1;
    }
}

/// A Raft log in a byte-keyed store.
#[derive(Debug)]
pub struct BitcaskStorage {
    engine: Engine,
    last_index: LogIndex,
    base: LogIndex,
    snapshot: Option<Snapshot>,
}

/// An optional snapshot as a mathematical value.
pub open spec fn opt_snapshot(s: Option<Snapshot>) -> Option<SnapshotView> {
    match s {
        Some(x) => Some(x@),
        None => None,
    }
}

impl BitcaskStorage {
    /// The rows the log is kept in.
    pub open spec fn state(&self) -> Map<Seq<u8>, Seq<u8>> {
        self.store()@
    }

    /// The store the log is kept in.
    pub closed spec fn store(&self) -> Engine {
        self.engine
    }

    /// The index of the last entry.
    pub closed spec fn last(&self) -> LogIndex {
        self.last_index
    }

    /// The first live index.
    pub closed spec fn first(&self) -> LogIndex {
        self.base
    }

    /// The snapshot in place of the dropped prefix.
    pub closed spec fn held(&self) -> Option<SnapshotView> {
        opt_snapshot(self.snapshot)
    }

    /// What the log knows is what it would find if it were opened again.
    pub closed spec fn wf(&self) -> bool {
        &&& self.engine.wf()
        &&& opened(self.engine@) == Ok::<_, BitcaskStorageError>(
            (self.last_index, self.base, opt_snapshot(self.snapshot)),
        )
        &&& self.base >= 1
        &&& self.last_index >= boundary(opt_snapshot(self.snapshot))
    }

    /// Opens a store as a log.
    pub fn open(engine: Engine) -> (r: Result<Self, BitcaskStorageError>)
        requires
            engine.wf(),
        ensures
            match (r, opened(engine@)) {
                (Ok(log), Ok((last, first, snapshot))) => {
                    &&& log.wf()
                    &&& log.store() == engine
                    &&& log.state() == engine@
                    &&& log.last() == last
                    &&& log.first() == first
                    &&& log.held() == snapshot
                },
                (Err(e), Err(want)) => e == want,
                _ => false,
            },
    {
        let (last, base) = match engine.get(&log_meta_row()) {
            Some(row) => match read_meta(&row) {
                Some(meta) => meta,
                None => {
                    return Err(BitcaskStorageError::Encoding);
                },
            },
            None => (0, 1),
        };
        let snapshot: Option<Snapshot> = match engine.get(&snapshot_row()) {
            Some(row) => match read_snapshot(&row) {
                Some(s) => Some(s),
                None => {
                    return Err(BitcaskStorageError::Encoding);
                },
            },
            None => None,
        };
        let covered: LogIndex = match &snapshot {
            Some(s) => s.last_included_index,
            None => 0,
        };
        let last_index: LogIndex = if last < covered {
            covered
        } else {
            last
        };
        Ok(BitcaskStorage { engine, last_index, base, snapshot })
    }

    /// Asks for everything written so far to be made durable: what has to
    /// happen after a batch of changes and before anything is sent.
    pub fn sync(&mut self)
        requires
            old(self).wf(),
        ensures
            final(self).wf(),
            final(self).state() == old(self).state(),
            final(self).last() == old(self).last(),
            final(self).first() == old(self).first(),
            final(self).held() == old(self).held(),
            !final(self).store().unflushed(),
            final(self).store().follows(&old(self).store()),
            final(self).store().queue() == if old(self).store().unflushed() {
                old(self).store().queue().push(Edit::Flush)
            } else {
                old(self).store().queue()
            },
    {
        self.engine.sync();
    }

    /// Hands over the writes that the disk copy owes, oldest first.
    pub fn take_writes(&mut self) -> (writes: Vec<crate::engine::Write>)
        requires
            old(self).wf(),
        ensures
            crate::engine::edits(writes@) == old(self).store().queue(),
            final(self).wf(),
            final(self).state() == old(self).state(),
            final(self).last() == old(self).last(),
            final(self).first() == old(self).first(),
            final(self).held() == old(self).held(),
            final(self).store().queue() == Seq::<Edit>::empty(),
            final(self).store().unflushed() == old(self).store().unflushed(),
            final(self).store().unpublished() == old(self).store().unpublished(),
    {
        self.engine.take_writes()
    }

    /// Every row, in key order.
    pub fn scan(&self) -> (pairs: Vec<(Vec<u8>, Vec<u8>)>)
        requires
            self.wf(),
        ensures
            crate::engine::keys_increase(crate::engine::pairs_view(pairs@)),
            crate::engine::pairs_map(crate::engine::pairs_view(pairs@)) == self.state(),
    {
        self.engine.scan()
    }

    /// Writes the log's bounds.
    fn put_meta(&mut self)
        requires
            old(self).engine.wf(),
        ensures
            final(self).engine.wf(),
            final(self).engine@ == old(self).engine@.insert(
                log_meta_key(),
                enc_meta(old(self).last_index, old(self).base),
            ),
            final(self).engine.queue() == old(self).engine.queue().push(
                Edit::Put(log_meta_key(), enc_meta(old(self).last_index, old(self).base)),
            ),
            final(self).engine.unflushed(),
            final(self).engine.follows(&old(self).engine),
            final(self).last_index == old(self).last_index,
            final(self).base == old(self).base,
            final(self).snapshot == old(self).snapshot,
    {
        let mut row: Vec<u8> = Vec::new();
        put_u64(&mut row, self.last_index);
        put_u64(&mut row, self.base);
        assert(row@ =~= enc_meta(self.last_index, self.base));
        self.engine.put(&log_meta_row(), &row);
    }

    /// Keeps a hard state.
    pub fn save_hard_state(&mut self, hs: &HardState)
        requires
            old(self).wf(),
        ensures
            final(self).wf(),
            final(self).state() == old(self).state().insert(hard_state_key(), enc_hard_state(*hs)),
            final(self).store().queue() == old(self).store().queue().push(
                Edit::Put(hard_state_key(), enc_hard_state(*hs)),
            ),
            final(self).store().unflushed(),
            final(self).store().follows(&old(self).store()),
            final(self).last() == old(self).last(),
            final(self).first() == old(self).first(),
            final(self).held() == old(self).held(),
    {
        let row = write_hard_state(hs);
        self.engine.put(&hard_state_row(), &row);
        proof {
            law_log_keys(0, 0);
        }
    }

    /// The hard state that was kept last; the initial one where none was.
    pub fn hard_state(&self) -> (r: Result<HardState, BitcaskStorageError>)
        requires
            self.wf(),
        ensures
            r == if self.state().contains_key(hard_state_key()) {
                match hard_state_of(self.state()[hard_state_key()]) {
                    Some(hs) => Ok(hs),
                    None => Err(BitcaskStorageError::Encoding),
                }
            } else {
                Ok((HardState { current_term: 0, voted_for: None, commit_index: 0 }))
            },
    {
        match self.engine.get(&hard_state_row()) {
            Some(row) => match read_hard_state(&row) {
                Some(hs) => Ok(hs),
                None => Err(BitcaskStorageError::Encoding),
            },
            None => Ok(HardState { current_term: 0, voted_for: None, commit_index: 0 }),
        }
    }

    /// Appends entries that continue the log. The rows go first and the bounds
    /// last.
    pub fn append(&mut self, entries: &[Entry]) -> (r: Result<(), BitcaskStorageError>)
        requires
            old(self).wf(),
            old(self).last() + entries@.len() < u64::MAX,
        ensures
            final(self).wf(),
            final(self).first() == old(self).first(),
            final(self).held() == old(self).held(),
            final(self).store().follows(&old(self).store()),
            ({
                let views = entry_views(entries@);
                match r {
                    Ok(()) => {
                        &&& contiguous(views)
                        &&& if views.len() == 0 {
                            *final(self) == *old(self)
                        } else {
                            &&& final(self).store().unflushed()
                            &&& views[0].1 == old(self).last() + 1
                            &&& final(self).last() == old(self).last() + views.len()
                            &&& final(self).state() == with_rows(old(self).state(), views).insert(
                                log_meta_key(),
                                enc_meta(final(self).last(), old(self).first()),
                            )
                            &&& final(self).store().queue() == (old(self).store().queue()
                                + row_edits(views)).push(
                                Edit::Put(
                                    log_meta_key(),
                                    enc_meta(final(self).last(), old(self).first()),
                                ),
                            )
                        }
                    },
                    Err(BitcaskStorageError::Gap { expected, got }) => {
                        &&& *final(self) == *old(self)
                        &&& views.len() > 0
                        &&& expected == old(self).last() + 1
                        &&& got == views[0].1
                        &&& got != expected
                    },
                    Err(BitcaskStorageError::NotContiguous { at }) => {
                        &&& *final(self) == *old(self)
                        &&& views.len() > 0
                        &&& views[0].1 == old(self).last() + 1
                        &&& exists|k: int|
                            #![trigger views[k]]
                            0 < k < views.len() && contiguous(views.take(k)) && at == views[k].1
                                && at != views[k - 1].1 + 1
                    },
                    Err(BitcaskStorageError::Encoding) => false,
                }
            }),
    {
        let ghost views = entry_views(entries@);
        let n: usize = entries.len();
        proof {
            lemma_follows_self(&self.engine);
        }
        if n == 0 {
            return Ok(());
        }
        let expected: LogIndex = self.last_index + 1;
        if entries[0].index != expected {
            return Err(BitcaskStorageError::Gap { expected, got: entries[0].index });
        }
        let mut k: usize = 1;
        while k < n
            invariant
                n == entries@.len(),
                1 <= k <= n,
                views == entry_views(entries@),
                views[0].1 == expected,
                expected == old(self).last() + 1,
                old(self).last() + n < u64::MAX,
                contiguous(views.take(k as int)),
                views[k - 1].1 == expected + (k - 1),
                old(self).wf(),
                *self == *old(self),
            decreases n - k,
        {
            assert(views[k as int].1 == entries@[k as int].index);
            assert(views[k - 1].1 == entries@[k - 1].index);
            if entries[k].index != entries[k - 1].index + 1 {
                return Err(BitcaskStorageError::NotContiguous { at: entries[k].index });
            }
            k += 1;
            proof {
                let more = views.take(k as int);
                assert forall|i: int|
                    #![trigger more[i]]
                    0 < i < more.len() implies more[i].1 == more[i - 1].1 + 1 by {
                    if i < k - 1 {
                        assert(views.take(k - 1)[i] == more[i]);
                        assert(views.take(k - 1)[i - 1] == more[i - 1]);
                    }
                }
            }
        }
        assert(views.take(n as int) =~= views);
        let ghost start = self.engine;
        let mut i: usize = 0;
        proof {
            assert(views.take(0) =~= Seq::<EntryView>::empty());
            assert(start.queue() + row_edits(views.take(0)) =~= start.queue());
        }
        while i < n
            invariant
                n == entries@.len(),
                i <= n,
                views == entry_views(entries@),
                self.engine.wf(),
                self.engine.follows(&start),
                self.engine@ == with_rows(start@, views.take(i as int)),
                self.engine.queue() == start.queue() + row_edits(views.take(i as int)),
                self.last_index == old(self).last_index,
                self.base == old(self).base,
                self.snapshot == old(self).snapshot,
                opened(self.engine@) == opened(start@),
            decreases n - i,
        {
            let row = write_log_entry(&entries[i]);
            let key = entry_key(entries[i].index);
            let ghost before = self.engine;
            self.engine.put(&key, &row);
            i += 1;
            proof {
                lemma_follows_trans(&start, &before, &self.engine);
                assert(views.take(i as int).drop_last() =~= views.take(i - 1));
                assert(views.take(i as int).last() == entries@[i - 1]@);
                assert(self.engine.queue() =~= start.queue() + row_edits(views.take(i as int)));
                law_log_keys(entries@[i - 1].index, 0);
            }
        }
        assert(views[n - 1].1 == entries@[n - 1].index);
        self.last_index = entries[n - 1].index;
        let ghost rows = self.engine;
        self.put_meta();
        proof {
            lemma_follows_trans(&start, &rows, &self.engine);
            law_log_keys(0, 0);
            lemma_meta_round_trip(self.last_index, self.base);
        }
        Ok(())
    }

    /// The entries from `lo` up to, and without, `hi`, as far as the log has
    /// them.
    pub fn entries(&self, lo: LogIndex, hi: LogIndex) -> (r: Result<
        Vec<Entry>,
        BitcaskStorageError,
    >)
        requires
            self.wf(),
            self.last() < u64::MAX,
        ensures
            ({
                let from = if lo < self.first() { self.first() } else { lo };
                let to = if hi < self.last() + 1 { hi as int } else { self.last() + 1 };
                match (r, collect(self.state(), from as int, to)) {
                    (Ok(found), Ok(want)) => entry_views(found@) == want,
                    (Err(e), Err(want)) => e == want,
                    _ => false,
                }
            }),
    {
        let to: LogIndex = if hi < self.last_index + 1 {
            hi
        } else {
            self.last_index + 1
        };
        let from: LogIndex = if lo < self.base {
            self.base
        } else {
            lo
        };
        let mut found: Vec<Entry> = Vec::new();
        let mut index: LogIndex = from;
        assert(entry_views(found@) =~= Seq::<EntryView>::empty());
        while index < to
            invariant
                self.wf(),
                self.last() < u64::MAX,
                to == if hi < self.last() + 1 { hi as int } else { self.last() + 1 },
                from == if lo < self.first() { self.first() } else { lo },
                from <= index,
                index <= to || index == from,
                match collect(self.state(), from as int, index as int) {
                    Ok(want) => entry_views(found@) == want,
                    Err(_) => false,
                },
            decreases to - index,
        {
            match self.engine.get(&entry_key(index)) {
                Some(row) => match read_log_entry(&row) {
                    Some(entry) => {
                        let ghost before = entry_views(found@);
                        let ghost view = entry@;
                        found.push(entry);
                        assert(entry_views(found@) =~= before.push(view));
                    },
                    None => {
                        proof {
                            lemma_collect_stops(
                                self.state(),
                                from as int,
                                index + 1,
                                to as int,
                            );
                        }
                        return Err(BitcaskStorageError::Encoding);
                    },
                },
                None => {},
            }
            index += 1;
        }
        Ok(found)
    }

    /// The term of the entry at `index`: 0 before the first, and the
    /// snapshot's own at its boundary.
    pub fn term(&self, index: LogIndex) -> (r: Result<Option<Term>, BitcaskStorageError>)
        requires
            self.wf(),
        ensures
            r == term_at(self.state(), self.last(), self.held(), index),
    {
        if index == 0 {
            return Ok(Some(0));
        }
        if index > self.last_index {
            return Ok(None);
        }
        match self.engine.get(&entry_key(index)) {
            Some(row) => match read_log_entry(&row) {
                Some(entry) => Ok(Some(entry.term)),
                None => Err(BitcaskStorageError::Encoding),
            },
            None => match &self.snapshot {
                Some(s) => {
                    if index == s.last_included_index {
                        Ok(Some(s.last_included_term))
                    } else {
                        Ok(None)
                    }
                },
                None => Ok(None),
            },
        }
    }

    /// Drops the entries from `from` on. Never cuts into the snapshot: a
    /// conflict at or below the dropped prefix drops everything live and falls
    /// back to the snapshot's boundary.
    pub fn truncate_suffix(&mut self, from: LogIndex)
        requires
            old(self).wf(),
            old(self).last() < u64::MAX,
        ensures
            final(self).wf(),
            final(self).first() == old(self).first(),
            final(self).held() == old(self).held(),
            final(self).store().follows(&old(self).store()),
            if from > old(self).last() {
                *final(self) == *old(self)
            } else {
                let cut = cut_at(from, old(self).first(), old(self).held());
                let last = at_least(
                    if from > 0 {
                        (from - 1) as u64
                    } else {
                        0
                    },
                    old(self).held(),
                );
                &&& final(self).store().unflushed()
                &&& final(self).last() == last
                &&& final(self).state() == old(self).state().remove_keys(
                    row_keys(cut, old(self).last() + 1),
                ).insert(log_meta_key(), enc_meta(last, old(self).first()))
                &&& final(self).store().queue() == (old(self).store().queue() + delete_edits(
                    cut,
                    old(self).last() + 1,
                )).push(Edit::Put(log_meta_key(), enc_meta(last, old(self).first())))
            },
    {
        proof {
            lemma_follows_self(&self.engine);
        }
        if from > self.last_index {
            return ;
        }
        let covered: LogIndex = match &self.snapshot {
            Some(s) => s.last_included_index,
            None => 0,
        };
        let floor: LogIndex = if self.base < covered + 1 {
            covered + 1
        } else {
            self.base
        };
        let cut: LogIndex = if from < floor {
            floor
        } else {
            from
        };
        delete_rows(&mut self.engine, cut, self.last_index + 1);
        let kept: LogIndex = from.saturating_sub(1);
        self.last_index = if kept < covered {
            covered
        } else {
            kept
        };
        let ghost cut_off = self.engine;
        self.put_meta();
        proof {
            lemma_follows_trans(&old(self).engine, &cut_off, &self.engine);
            lemma_rows_and_bounds(old(self).engine@, cut as int, old(self).last_index + 1);
            law_log_keys(0, 0);
            lemma_meta_round_trip(self.last_index, self.base);
        }
    }

    /// The index of the last entry.
    pub fn last_index(&self) -> (index: LogIndex)
        ensures
            index == self.last(),
    {
        self.last_index
    }

    /// The first live index.
    pub fn first_index(&self) -> (index: LogIndex)
        ensures
            index == self.first(),
    {
        self.base
    }

    /// A copy of the snapshot, where there is one.
    pub fn snapshot(&self) -> (s: Option<Snapshot>)
        ensures
            opt_snapshot(s) == self.held(),
    {
        match &self.snapshot {
            Some(s) => Some(s.copy()),
            None => None,
        }
    }

    /// Keeps a snapshot; the log then reaches at least as far as it does.
    pub fn save_snapshot(&mut self, snapshot: &Snapshot)
        requires
            old(self).wf(),
        ensures
            final(self).wf(),
            final(self).first() == old(self).first(),
            final(self).held() == Some(snapshot@),
            final(self).last() == at_least(old(self).last(), Some(snapshot@)),
            final(self).state() == old(self).state().insert(
                snapshot_key(),
                enc_snapshot(snapshot@),
            ).insert(log_meta_key(), enc_meta(final(self).last(), old(self).first())),
            final(self).store().queue() == old(self).store().queue().push(
                Edit::Put(snapshot_key(), enc_snapshot(snapshot@)),
            ).push(Edit::Put(log_meta_key(), enc_meta(final(self).last(), old(self).first()))),
            final(self).store().unflushed(),
            final(self).store().follows(&old(self).store()),
    {
        let row = write_snapshot(snapshot);
        self.engine.put(&snapshot_row(), &row);
        let ghost kept = self.engine;
        if self.last_index < snapshot.last_included_index {
            self.last_index = snapshot.last_included_index;
        }
        self.snapshot = Some(snapshot.copy());
        self.put_meta();
        proof {
            lemma_follows_trans(&old(self).engine, &kept, &self.engine);
            law_log_keys(0, 0);
            lemma_meta_round_trip(self.last_index, self.base);
            assert(snapshot.data.len() == snapshot.data@.len());
            assert(snapshot.config.voters.len() == snapshot.config.voters@.len());
            assert(snapshot.config.learners.len() == snapshot.config.learners@.len());
            law_snapshot_round_trip(snapshot@);
        }
    }

    /// Drops the entries up to and including `up_to`.
    ///
    /// The bounds go first and the rows after. A crash between them leaves
    /// rows stored behind an advanced bound, where nothing reads them, rather
    /// than rows missing above a bound that claims them.
    pub fn truncate_prefix(&mut self, up_to: LogIndex)
        requires
            old(self).wf(),
            up_to < u64::MAX,
        ensures
            final(self).wf(),
            final(self).last() == old(self).last(),
            final(self).held() == old(self).held(),
            final(self).store().follows(&old(self).store()),
            if up_to < old(self).first() {
                *final(self) == *old(self)
            } else {
                &&& final(self).store().unflushed()
                &&& final(self).first() == up_to + 1
                &&& final(self).state() == old(self).state().insert(
                    log_meta_key(),
                    enc_meta(old(self).last(), (up_to + 1) as u64),
                ).remove_keys(row_keys(old(self).first() as int, up_to + 1))
                &&& final(self).store().queue() == old(self).store().queue().push(
                    Edit::Put(log_meta_key(), enc_meta(old(self).last(), (up_to + 1) as u64)),
                ) + delete_edits(old(self).first() as int, up_to + 1)
            },
    {
        proof {
            lemma_follows_self(&self.engine);
        }
        if up_to < self.base {
            return ;
        }
        let old_base: LogIndex = self.base;
        self.base = up_to + 1;
        self.put_meta();
        let ghost mid = self.engine;
        delete_rows(&mut self.engine, old_base, up_to + 1);
        proof {
            lemma_follows_trans(&old(self).engine, &mid, &self.engine);
            law_log_keys(0, 0);
            lemma_meta_round_trip(self.last_index, self.base);
            lemma_rows_and_bounds(mid@, old_base as int, up_to + 1);
        }
    }
}

/// Where a cut at `from` really starts: past the dropped prefix and past the
/// snapshot.
pub open spec fn cut_at(from: LogIndex, first: LogIndex, held: Option<SnapshotView>) -> int {
    let floor = if first < boundary(held) + 1 {
        boundary(held) + 1
    } else {
        first as int
    };
    if from < floor {
        floor
    } else {
        from as int
    }
}

/// The term of the entry at an index: 0 before the first, none past the last,
/// else the stored entry's, else the snapshot's at its boundary.
pub open spec fn term_at(
    state: Map<Seq<u8>, Seq<u8>>,
    last: LogIndex,
    held: Option<SnapshotView>,
    index: LogIndex,
) -> Result<Option<Term>, BitcaskStorageError> {
    if index == 0 {
        Ok(Some(0))
    } else if index > last {
        Ok(None)
    } else if state.contains_key(entry_key_of(index)) {
        match log_entry_of(state[entry_key_of(index)]) {
            Some(entry) => Ok(Some(entry.0)),
            None => Err(BitcaskStorageError::Encoding),
        }
    } else {
        match held {
            Some(s) => Ok(if index == s.index { Some(s.term) } else { None }),
            None => Ok(None),
        }
    }
}

/// A broken row stops every wider reading.
proof fn lemma_collect_stops(state: Map<Seq<u8>, Seq<u8>>, from: int, mid: int, to: int)
    requires
        from <= mid <= to,
        collect(state, from, mid) is Err,
    ensures
        collect(state, from, to) == Err::<Seq<EntryView>, _>(BitcaskStorageError::Encoding),
    decreases to - mid,
{
    if mid < to {
        lemma_collect_stops(state, from, mid, to - 1);
    } else {
        lemma_collect_error(state, from, mid);
    }
}

proof fn lemma_collect_error(state: Map<Seq<u8>, Seq<u8>>, from: int, to: int)
    ensures
        collect(state, from, to) matches Err(e) ==> e == BitcaskStorageError::Encoding,
    decreases to - from,
{
    if from < to {
        lemma_collect_error(state, from, to - 1);
    }
}

/// Taking rows out leaves what opening the store would find.
proof fn lemma_rows_and_bounds(state: Map<Seq<u8>, Seq<u8>>, from: int, to: int)
    ensures
        opened(state.remove_keys(row_keys(from, to))) == opened(state),
{
    assert(!row_keys(from, to).contains(log_meta_key())) by {
        assert forall|i: LogIndex| #[trigger] entry_key_of(i) != log_meta_key() by {
            law_log_keys(i, i);
        }
    }
    assert(!row_keys(from, to).contains(snapshot_key())) by {
        assert forall|i: LogIndex| #[trigger] entry_key_of(i) != snapshot_key() by {
            law_log_keys(i, i);
        }
    }
}

/// A log that is opened again finds what it knew: its bounds and its snapshot
/// are what its rows say, after every operation.
pub proof fn law_reopening_finds_the_log(log: BitcaskStorage)
    requires
        log.wf(),
    ensures
        opened(log.state()) == Ok::<_, BitcaskStorageError>((log.last(), log.first(), log.held())),
{
}

/// What was appended is what is read: at the appended indexes the entries
/// themselves, elsewhere what was there before.
pub proof fn law_append_stores(
    state: Map<Seq<u8>, Seq<u8>>,
    entries: Seq<EntryView>,
    last: LogIndex,
    first: LogIndex,
    index: LogIndex,
)
    requires
        contiguous(entries),
        entries.len() > 0,
        forall|i: int| #![trigger entries[i]] 0 <= i < entries.len() ==> entries[i].2.len() <= u64::MAX,
    ensures
        stored(with_rows(state, entries).insert(log_meta_key(), enc_meta(last, first)), index)
            == if entries[0].1 <= index < entries[0].1 + entries.len() {
            Some(entries[index - entries[0].1])
        } else {
            stored(state, index)
        },
{
    lemma_with_rows(state, entries, index);
    law_log_keys(index, index);
}

proof fn lemma_with_rows(
    state: Map<Seq<u8>, Seq<u8>>,
    entries: Seq<EntryView>,
    index: LogIndex,
)
    requires
        contiguous(entries),
        entries.len() > 0,
        forall|i: int| #![trigger entries[i]] 0 <= i < entries.len() ==> entries[i].2.len() <= u64::MAX,
    ensures
        entries.last().1 == entries[0].1 + entries.len() - 1,
        stored(with_rows(state, entries), index) == if entries[0].1 <= index < entries[0].1
            + entries.len() {
            Some(entries[index - entries[0].1])
        } else {
            stored(state, index)
        },
    decreases entries.len(),
{
    let head = entries.drop_last();
    let last = entries.last();
    lemma_log_entry_round_trip(last);
    law_log_keys(index, last.1);
    if head.len() > 0 {
        assert(contiguous(head)) by {
            assert forall|i: int|
                #![trigger head[i]]
                0 < i < head.len() implies head[i].1 == head[i - 1].1 + 1 by {
                assert(entries[i].1 == entries[i - 1].1 + 1);
            }
        }
        lemma_with_rows(state, head, index);
        assert(entries[entries.len() - 1].1 == entries[entries.len() - 2].1 + 1);
    } else {
        assert(with_rows(state, head) == state);
    }
}

/// What was cut off is gone, and nothing else is: at the cut indexes nothing is
/// stored, elsewhere what was there before.
pub proof fn law_truncate_forgets(
    state: Map<Seq<u8>, Seq<u8>>,
    from: int,
    to: int,
    last: LogIndex,
    first: LogIndex,
    index: LogIndex,
)
    ensures
        stored(
            state.remove_keys(row_keys(from, to)).insert(log_meta_key(), enc_meta(last, first)),
            index,
        ) == if from <= index < to {
            None
        } else {
            stored(state, index)
        },
{
    law_log_keys(index, index);
    let key = entry_key_of(index);
    if from <= index < to {
        assert(row_keys(from, to).contains(key));
    } else {
        assert(!row_keys(from, to).contains(key)) by {
            assert forall|i: LogIndex| from <= i < to implies key != #[trigger] entry_key_of(i) by {
                law_log_keys(index, i);
            }
        }
    }
}

/// A log that holds every entry of a range, readable and under its own index,
/// reads back as exactly that range.
pub proof fn law_whole_range_is_read(state: Map<Seq<u8>, Seq<u8>>, from: LogIndex, to: LogIndex)
    requires
        from <= to,
        forall|i: LogIndex| from <= i < to ==> #[trigger] stored(state, i) is Some,
    ensures
        collect(state, from as int, to as int) is Ok,
        ({
            let found = collect(state, from as int, to as int)->Ok_0;
            &&& found.len() == to - from
            &&& forall|i: LogIndex|
                from <= i < to ==> found[i - from] == (#[trigger] stored(state, i))->0
        }),
    decreases to - from,
{
    if from < to {
        let less = (to - 1) as u64;
        law_whole_range_is_read(state, from, less);
        assert(stored(state, less) is Some);
        let found = collect(state, from as int, to as int)->Ok_0;
        let before = collect(state, from as int, less as int)->Ok_0;
        assert(found == before.push(stored(state, less)->0));
        assert forall|i: LogIndex| from <= i < to implies found[i - from] == (#[trigger] stored(
            state,
            i,
        ))->0 by {
            if i < less {
                assert(before[i - from] == stored(state, i)->0);
            }
        }
    }
}

/// A log gives back what was appended to it: the very entries, in order, at the
/// indexes they were appended at.
pub proof fn law_what_was_appended_is_read(
    state: Map<Seq<u8>, Seq<u8>>,
    entries: Seq<EntryView>,
    last: LogIndex,
    first: LogIndex,
)
    requires
        contiguous(entries),
        entries.len() > 0,
        entries[0].1 + entries.len() <= u64::MAX,
        forall|i: int| #![trigger entries[i]] 0 <= i < entries.len() ==> entries[i].2.len() <= u64::MAX,
    ensures
        collect(
            with_rows(state, entries).insert(log_meta_key(), enc_meta(last, first)),
            entries[0].1 as int,
            entries[0].1 + entries.len(),
        ) == Ok::<_, BitcaskStorageError>(entries),
{
    let after = with_rows(state, entries).insert(log_meta_key(), enc_meta(last, first));
    let from = entries[0].1;
    let to = (from + entries.len()) as u64;
    assert forall|i: LogIndex| from <= i < to implies #[trigger] stored(after, i) == Some(
        entries[i - from],
    ) by {
        law_append_stores(state, entries, last, first, i);
    }
    law_whole_range_is_read(after, from, to);
    let found = collect(after, from as int, to as int)->Ok_0;
    assert forall|k: int| 0 <= k < found.len() implies found[k] == entries[k] by {
        assert(stored(after, (from + k) as u64) == Some(entries[k]));
    }
    assert(found =~= entries);
}

/// Appending and cutting touch entries only: the vote that was saved and the
/// snapshot that is held are read as before.
pub proof fn law_entries_leave_the_vote_and_the_snapshot(
    state: Map<Seq<u8>, Seq<u8>>,
    entries: Seq<EntryView>,
    from: int,
    to: int,
    last: LogIndex,
    first: LogIndex,
    key: Seq<u8>,
)
    requires
        key == hard_state_key() || key == snapshot_key(),
    ensures
        ({
            let grown = with_rows(state, entries).insert(log_meta_key(), enc_meta(last, first));
            &&& grown.contains_key(key) == state.contains_key(key)
            &&& state.contains_key(key) ==> grown[key] == state[key]
        }),
        ({
            let cut = state.remove_keys(row_keys(from, to)).insert(
                log_meta_key(),
                enc_meta(last, first),
            );
            &&& cut.contains_key(key) == state.contains_key(key)
            &&& state.contains_key(key) ==> cut[key] == state[key]
        }),
    decreases entries.len(),
{
    law_log_keys(0, 0);
    assert forall|i: LogIndex| key != #[trigger] entry_key_of(i) by {
        law_log_keys(i, i);
    }
    if entries.len() > 0 {
        law_entries_leave_the_vote_and_the_snapshot(
            state,
            entries.drop_last(),
            from,
            to,
            last,
            first,
            key,
        );
        law_log_keys(entries.last().1, entries.last().1);
    }
}

/// A cut keeps what is before it and never reaches into the snapshot or the
/// dropped prefix: it starts where it was asked to, or at the first entry that
/// is neither. And a log never ends before its snapshot does.
pub proof fn law_a_cut_stays_behind_the_snapshot(
    from: LogIndex,
    first: LogIndex,
    held: Option<SnapshotView>,
    last: LogIndex,
)
    ensures
        ({
            let cut = cut_at(from, first, held);
            &&& cut >= from
            &&& cut >= first
            &&& held matches Some(s) ==> cut > s.index
            &&& cut == from || cut == first || cut == 1 || (held matches Some(s) && cut == s.index
                + 1)
            &&& from >= first && from >= 1 && (held matches Some(s) ==> from > s.index) ==> cut
                == from
        }),
        at_least(last, held) >= last,
        held matches Some(s) ==> at_least(last, held) >= s.index,
        at_least(last, held) == last || (held matches Some(s) && at_least(last, held) == s.index),
        held is None ==> at_least(last, held) == last,
{
}

/// The term at an index is that of the entry stored there; that of the snapshot
/// at its boundary, where no entry is stored; 0 at index 0; and otherwise none.
pub proof fn law_a_term_is_its_entrys(
    state: Map<Seq<u8>, Seq<u8>>,
    last: LogIndex,
    held: Option<SnapshotView>,
    index: LogIndex,
)
    ensures
        term_at(state, last, held, 0) == Ok::<_, BitcaskStorageError>(Some(0u64)),
        index > last && index > 0 ==> (term_at(state, last, held, index) matches Ok(term) && term
            is None),
        0 < index <= last ==> {
            &&& stored(state, index) matches Some(entry) ==> term_at(state, last, held, index)
                == Ok::<_, BitcaskStorageError>(Some(entry.0))
            &&& state.contains_key(entry_key_of(index)) && stored(state, index) is None ==> term_at(
                state,
                last,
                held,
                index,
            ) is Err
            &&& !state.contains_key(entry_key_of(index)) ==> match held {
                Some(s) => if s.index == index {
                    term_at(state, last, held, index) == Ok::<_, BitcaskStorageError>(Some(s.term))
                } else {
                    term_at(state, last, held, index) matches Ok(term) && term is None
                },
                None => term_at(state, last, held, index) matches Ok(term) && term is None,
            }
        },
{
}

/// A new store is an empty log: it ends at 0, its first entry will be 1, and it
/// holds no snapshot.
pub proof fn law_a_new_store_is_an_empty_log(state: Map<Seq<u8>, Seq<u8>>)
    requires
        !state.contains_key(log_meta_key()),
        !state.contains_key(snapshot_key()),
    ensures
        opened(state) == Ok::<_, BitcaskStorageError>((0u64, 1u64, None::<SnapshotView>)),
{
}

/// A saved vote is the one found, whatever else is stored.
pub proof fn law_a_saved_vote_is_found(state: Map<Seq<u8>, Seq<u8>>, hs: HardState)
    ensures
        ({
            let after = state.insert(hard_state_key(), enc_hard_state(hs));
            after.contains_key(hard_state_key()) && hard_state_of(after[hard_state_key()]) == Some(hs)
        }),
{
    law_hard_state_round_trip(hs);
}

/// A saved snapshot is the one found, and the log then reaches at least as far.
#[verifier::spinoff_prover]
#[verifier::rlimit(60)]
pub proof fn law_a_saved_snapshot_is_found(
    state: Map<Seq<u8>, Seq<u8>>,
    s: SnapshotView,
    last: LogIndex,
    first: LogIndex,
)
    requires
        snapshot_fits(s),
        first >= 1,
    ensures
        opened(
            state.insert(snapshot_key(), enc_snapshot(s)).insert(
                log_meta_key(),
                enc_meta(last, first),
            ),
        ) == Ok::<_, BitcaskStorageError>(
            (
                if last < s.index {
                    s.index
                } else {
                    last
                },
                first,
                Some(s),
            ),
        ),
{
    let after = state.insert(snapshot_key(), enc_snapshot(s)).insert(
        log_meta_key(),
        enc_meta(last, first),
    );
    assert(log_meta_key() != snapshot_key()) by {
        law_log_keys(0, 0);
    }
    assert(snapshot_of(after[snapshot_key()]) == Some(s)) by {
        law_snapshot_round_trip(s);
    }
    assert(meta_of(after[log_meta_key()]) == Some((last, first))) by {
        lemma_meta_round_trip(last, first);
    }
}

/// A vote that is saved is the vote that is read; a log that never voted reads as
/// term zero with no vote.
pub proof fn law_a_vote_is_read_back(
    before: BitcaskStorage,
    after: BitcaskStorage,
    hs: &HardState,
    u: (),
    r: Result<HardState, BitcaskStorageError>,
    fresh: Result<HardState, BitcaskStorageError>,
)
    requires
        before.wf(),
        after.wf(),
        exists|log: &mut BitcaskStorage| #[trigger]
            call_ensures(BitcaskStorage::save_hard_state, (log, hs), u) && *log == before
                && *final(log) == after,
        call_ensures(BitcaskStorage::hard_state, (&after,), r),
        call_ensures(BitcaskStorage::hard_state, (&before,), fresh),
    ensures
        r == Ok::<_, BitcaskStorageError>(*hs),
        !before.state().contains_key(hard_state_key()) ==> fresh == Ok::<_, BitcaskStorageError>(
            HardState { current_term: 0, voted_for: None, commit_index: 0 },
        ),
        after.last() == before.last() && after.first() == before.first() && after.held()
            == before.held(),
        after.store().unflushed(),
{
    law_a_saved_vote_is_found(before.state(), *hs);
}

/// Entries are appended exactly where they go on from the last without a gap;
/// then each is stored at its index and what was there stays. Refused entries
/// change nothing.
pub proof fn law_entries_go_on_from_the_last(
    before: BitcaskStorage,
    after: BitcaskStorage,
    entries: &[Entry],
    r: Result<(), BitcaskStorageError>,
    index: LogIndex,
    i: int,
)
    requires
        before.wf(),
        before.last() + entries@.len() < u64::MAX,
        exists|log: &mut BitcaskStorage| #[trigger]
            call_ensures(BitcaskStorage::append, (log, entries), r) && *log == before
                && *final(log) == after,
    ensures
        r is Ok && entries@.len() > 0 ==> {
            &&& entries@[0].index == before.last() + 1
            &&& after.last() == before.last() + entries@.len()
            &&& 0 < i < entries@.len() ==> entries@[i].index == entries@[i - 1].index + 1
            &&& 0 <= i < entries@.len() ==> stored(after.state(), (before.last() + 1 + i) as u64)
                == Some((entries@[i].term, (before.last() + 1 + i) as u64, entries@[i].command@))
            &&& index <= before.last() ==> stored(after.state(), index) == stored(
                before.state(),
                index,
            )
            &&& after.store().unflushed()
        },
        entries@.len() == 0 ==> after == before,
        r is Err ==> after == before,
        entries@.len() > 0 && entries@[0].index != before.last() + 1 ==> r == Err::<(), _>(
            BitcaskStorageError::Gap {
                expected: (before.last() + 1) as u64,
                got: entries@[0].index,
            },
        ),
        entries@.len() > 0 && entries@[0].index == before.last() + 1 && (forall|k: int|
            #![trigger entries@[k]]
            0 < k < entries@.len() ==> entries@[k].index == entries@[k - 1].index + 1) ==> r is Ok,
        after.first() == before.first() && after.held() == before.held(),
{
    let views = entry_views(entries@);
    assert(views.len() == entries@.len());
    assert forall|k: int| #![trigger views[k]] 0 <= k < views.len() implies views[k] == entries@[k]@
        && views[k].2.len() <= u64::MAX by {
        assert(entries@[k].command@.len() == entries@[k].command.len());
    }
    if views.len() > 0 {
        assert(views[0] == entries@[0]@);
    }
    if 0 < i < views.len() {
        assert(views[i] == entries@[i]@ && views[i - 1] == entries@[i - 1]@);
    }
    if r is Ok && views.len() > 0 {
        if 0 <= i < views.len() {
            let at = (before.last() + 1 + i) as u64;
            law_append_stores(before.state(), views, after.last(), before.first(), at);
            lemma_contiguous_at(views, i);
        }
        if index <= before.last() {
            law_append_stores(before.state(), views, after.last(), before.first(), index);
        }
    }
    match r {
        Err(BitcaskStorageError::NotContiguous { at }) => {
            let k = choose|k: int|
                #![trigger views[k]]
                0 < k < views.len() && contiguous(views.take(k)) && at == views[k].1 && at
                    != views[k - 1].1 + 1;
            assert(views[k] == entries@[k]@ && views[k - 1] == entries@[k - 1]@);
        },
        _ => {},
    }
}

/// Entries without a gap are numbered from the first on.
proof fn lemma_contiguous_at(entries: Seq<EntryView>, i: int)
    requires
        contiguous(entries),
        0 <= i < entries.len(),
    ensures
        entries[i].1 == entries[0].1 + i,
    decreases i,
{
    if i > 0 {
        lemma_contiguous_at(entries, i - 1);
    }
}

/// What is read of a log between two indexes is what is stored there, as far as
/// the log goes; and an entry's term is what it was stored with.
pub proof fn law_a_range_is_read_whole(
    log: &BitcaskStorage,
    lo: LogIndex,
    hi: LogIndex,
    r: Result<Vec<Entry>, BitcaskStorageError>,
    index: LogIndex,
    term: Result<Option<Term>, BitcaskStorageError>,
)
    requires
        log.wf(),
        log.last() < u64::MAX,
        call_ensures(BitcaskStorage::entries, (log, lo, hi), r),
        call_ensures(BitcaskStorage::term, (log, index), term),
        log.first() <= lo <= hi <= log.last() + 1,
        forall|i: LogIndex| lo <= i < hi ==> #[trigger] stored(log.state(), i) is Some,
    ensures
        r matches Ok(found) && found@.len() == hi - lo && (lo <= index < hi ==> {
            let entry = stored(log.state(), index)->0;
            &&& found@[index - lo]@ == entry
            &&& 0 < index ==> term == Ok::<_, BitcaskStorageError>(Some(entry.0))
        }),
        index > log.last() && index > 0 ==> (term matches Ok(t) && t is None),
{
    law_whole_range_is_read(log.state(), lo, hi);
    law_a_term_is_its_entrys(log.state(), log.last(), log.held(), index);
    match r {
        Ok(found) => {
            let views = entry_views(found@);
            assert(views.len() == found@.len());
            if lo <= index < hi {
                assert(stored(log.state(), index) is Some);
                assert(views[index - lo] == found@[index - lo]@);
            }
        },
        Err(_) => {},
    }
}

/// Cutting a log's end forgets every entry from there on and no other, and never
/// goes back behind the snapshot; cutting its start forgets every entry up to
/// there and moves the first index past it.
pub proof fn law_a_cut_forgets_its_side(
    before: BitcaskStorage,
    after: BitcaskStorage,
    pruned: BitcaskStorage,
    from: LogIndex,
    up_to: LogIndex,
    u: ((), ()),
    index: LogIndex,
)
    requires
        before.wf(),
        before.last() < u64::MAX,
        up_to < u64::MAX,
        exists|log: &mut BitcaskStorage| #[trigger]
            call_ensures(BitcaskStorage::truncate_suffix, (log, from), u.0) && *log == before
                && *final(log) == after,
        exists|log: &mut BitcaskStorage| #[trigger]
            call_ensures(BitcaskStorage::truncate_prefix, (log, up_to), u.1) && *log == before
                && *final(log) == pruned,
    ensures
        from > before.last() ==> after == before,
        from <= before.last() ==> {
            let cut = cut_at(from, before.first(), before.held());
            &&& cut <= index <= before.last() ==> stored(after.state(), index) is None
            &&& index < cut ==> stored(after.state(), index) == stored(before.state(), index)
            &&& before.held() is None && from > 0 ==> after.last() == from - 1
            &&& before.held() matches Some(s) ==> after.last() >= s.index
            &&& after.store().unflushed()
        },
        after.first() == before.first() && after.held() == before.held(),
        up_to < before.first() ==> pruned == before,
        up_to >= before.first() ==> {
            &&& pruned.first() == up_to + 1
            &&& before.first() <= index <= up_to ==> stored(pruned.state(), index) is None
            &&& index > up_to ==> stored(pruned.state(), index) == stored(before.state(), index)
            &&& pruned.store().unflushed()
        },
        pruned.last() == before.last() && pruned.held() == before.held(),
{
    let cut = cut_at(from, before.first(), before.held());
    law_a_cut_stays_behind_the_snapshot(
        from,
        before.first(),
        before.held(),
        if from > 0 {
            (from - 1) as u64
        } else {
            0
        },
    );
    law_truncate_forgets(
        before.state(),
        cut,
        before.last() + 1,
        after.last(),
        before.first(),
        index,
    );
    if up_to >= before.first() {
        let (lo, hi) = (before.first() as int, up_to + 1);
        let meta = enc_meta(before.last(), (up_to + 1) as u64);
        law_truncate_forgets(before.state(), lo, hi, before.last(), (up_to + 1) as u64, index);
        law_log_keys(index, index);
        assert(!row_keys(lo, hi).contains(log_meta_key())) by {
            if row_keys(lo, hi).contains(log_meta_key()) {
                let i = choose|i: LogIndex|
                    lo <= i < hi && log_meta_key() == #[trigger] entry_key_of(i);
                law_log_keys(i, i);
            }
        }
        assert(pruned.state() =~= before.state().remove_keys(row_keys(lo, hi)).insert(
            log_meta_key(),
            meta,
        ));
    }
}

/// A snapshot that is saved is the one that is held and found again; the log
/// then reaches at least to its boundary.
pub proof fn law_a_saved_snapshot_is_held(
    before: BitcaskStorage,
    after: BitcaskStorage,
    snapshot: &Snapshot,
    u: (),
    held: Option<Snapshot>,
)
    requires
        before.wf(),
        after.wf(),
        exists|log: &mut BitcaskStorage| #[trigger]
            call_ensures(BitcaskStorage::save_snapshot, (log, snapshot), u) && *log == before
                && *final(log) == after,
        call_ensures(BitcaskStorage::snapshot, (&after,), held),
    ensures
        held matches Some(s) && s@ == snapshot@,
        after.last() >= before.last() && after.last() >= snapshot.last_included_index,
        after.last() == before.last() || after.last() == snapshot.last_included_index,
        after.first() == before.first(),
        after.store().unflushed(),
{
    law_a_cut_stays_behind_the_snapshot(0, before.first(), Some(snapshot@), before.last());
}

/// A store is opened as the log that it holds; what cannot be read is refused.
pub proof fn law_a_store_is_opened_as_its_log(
    engine: Engine,
    r: Result<BitcaskStorage, BitcaskStorageError>,
)
    requires
        engine.wf(),
        call_ensures(BitcaskStorage::open, (engine,), r),
    ensures
        r is Ok <==> opened(engine@) is Ok,
        r matches Ok(log) ==> log.store() == engine && log.state() == engine@ && opened(engine@)
            == Ok::<_, BitcaskStorageError>((log.last(), log.first(), log.held())),
        r matches Err(e) ==> opened(engine@) == Err::<
            (LogIndex, LogIndex, Option<SnapshotView>),
            _,
        >(e),
{
}

/// How a log lies in its store: an entry under `e` and its index in twenty
/// digits, with its term, its index and its command; the bounds, the vote and the
/// snapshot each under a reserved name.
pub proof fn law_how_a_log_lies(entry: EntryView, hs: HardState, s: SnapshotView)
    ensures
        entry_key_of(entry.1).len() == 21,
        entry_key_of(entry.1)[0] == 0x65,
        entry_key_of(entry.1).last() == 48 + entry.1 % 10,
        enc_log_entry(entry) == le(entry.0 as nat, 8) + le(entry.1 as nat, 8) + enc_bytes(entry.2),
        hard_state_key().len() == 11 && log_meta_key().len() == 9 && snapshot_key().len() == 9,
        enc_hard_state(hs).take(8) == le(hs.current_term as nat, 8),
        hs.voted_for matches Some(id) ==> enc_hard_state(hs) == le(hs.current_term as nat, 8)
            + seq![1u8] + le(id as nat, 8) + le(hs.commit_index as nat, 8),
        hs.voted_for is None ==> enc_hard_state(hs) == le(hs.current_term as nat, 8) + seq![0u8]
            + le(hs.commit_index as nat, 8),
        enc_snapshot(s).take(8) == le(s.index as nat, 8),
        enc_snapshot(s).subrange(8, 16) == le(s.term as nat, 8),
        enc_meta(entry.1, s.index) == le(entry.1 as nat, 8) + le(s.index as nat, 8),
{
    crate::text::law_fixed_width_numbers(entry.1 as nat, 20);
    lemma_le_len(hs.current_term as nat, 8);
    lemma_le_len(s.index as nat, 8);
    lemma_le_len(s.term as nat, 8);
    let tail = digits(entry.1 as nat, 20);
    assert(entry_key_of(entry.1).last() == tail.last());
    assert(enc_hard_state(hs).take(8) =~= le(hs.current_term as nat, 8));
    match hs.voted_for {
        Some(id) => {
            assert(enc_hard_state(hs) =~= le(hs.current_term as nat, 8) + seq![1u8] + le(
                id as nat,
                8,
            ) + le(hs.commit_index as nat, 8));
        },
        None => {
            assert(enc_hard_state(hs) =~= le(hs.current_term as nat, 8) + seq![0u8] + le(
                hs.commit_index as nat,
                8,
            ));
        },
    }
    assert(enc_snapshot(s).take(8) =~= le(s.index as nat, 8));
    assert(enc_snapshot(s).subrange(8, 16) =~= le(s.term as nat, 8));
}

/// A log asks for the disk, hands its writes over and lists its rows without
/// moving anything in it.
pub proof fn law_a_log_is_flushed_and_listed(
    before: BitcaskStorage,
    synced: BitcaskStorage,
    drained: BitcaskStorage,
    u: (),
    writes: Vec<crate::engine::Write>,
    pairs: Vec<(Vec<u8>, Vec<u8>)>,
    first: LogIndex,
    last: LogIndex,
)
    requires
        before.wf(),
        synced.wf(),
        exists|log: &mut BitcaskStorage| #[trigger]
            call_ensures(BitcaskStorage::sync, (log,), u) && *log == before && *final(log)
                == synced,
        exists|log: &mut BitcaskStorage| #[trigger]
            call_ensures(BitcaskStorage::take_writes, (log,), writes) && *log == synced && *final(
                log
            ) == drained,
        call_ensures(BitcaskStorage::scan, (&before,), pairs),
        call_ensures(BitcaskStorage::first_index, (&before,), first),
        call_ensures(BitcaskStorage::last_index, (&before,), last),
    ensures
        drained.state() == before.state(),
        drained.last() == before.last() && drained.first() == before.first() && drained.held()
            == before.held(),
        before.store().unflushed() ==> crate::engine::edits(writes@) == before.store().queue().push(
            Edit::Flush,
        ),
        !before.store().unflushed() ==> crate::engine::edits(writes@) == before.store().queue(),
        drained.store().queue().len() == 0 && !drained.store().unflushed(),
        crate::engine::pairs_map(crate::engine::pairs_view(pairs@)) == before.state(),
        first == before.first() && last == before.last(),
{
}

/// What is asked of a log beyond its bounds is not missed: a range that reaches
/// out of the log on either side reads as the part of it that lies within.
pub proof fn law_a_range_is_read_within_the_log(
    log: &BitcaskStorage,
    lo: LogIndex,
    hi: LogIndex,
    within: (LogIndex, LogIndex),
    r: Result<Vec<Entry>, BitcaskStorageError>,
    part: Result<Vec<Entry>, BitcaskStorageError>,
    i: int,
)
    requires
        log.wf(),
        log.last() < u64::MAX,
        within.0 == if lo < log.first() {
            log.first()
        } else {
            lo
        },
        within.1 == if hi <= log.last() {
            hi as int
        } else {
            log.last() + 1
        },
        call_ensures(BitcaskStorage::entries, (log, lo, hi), r),
        call_ensures(BitcaskStorage::entries, (log, within.0, within.1), part),
    ensures
        r is Ok <==> part is Ok,
        r matches Ok(found) ==> (part matches Ok(same) && found@.len() == same@.len() && (0 <= i
            < found@.len() ==> found@[i]@ == same@[i]@)),
        within.0 >= within.1 ==> (r matches Ok(found) && found@.len() == 0),
{
    match (r, part) {
        (Ok(found), Ok(same)) => {
            assert(entry_views(found@).len() == found@.len());
            assert(entry_views(same@).len() == same@.len());
            if 0 <= i < found@.len() {
                assert(entry_views(found@)[i] == found@[i]@);
                assert(entry_views(same@)[i] == same@[i]@);
            }
        },
        _ => {},
    }
}

} // verus!
