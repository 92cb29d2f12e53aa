//! The portable snapshot image: a state machine's live pairs, and the log
//! boundary they replace.
//!
//! Sorted by key on encode, so any two replicas snapshotting the same state
//! produce the same bytes; checksummed, so a truncated stream can never restore
//! silently.
//!
//! Layout, all big-endian: `magic u32 | index u64 | term u64 | count u64 |
//! (klen u32 | vlen u32 | key | value)* | crc32 u32`. The checksum covers
//! everything before it.

use vstd::prelude::*;

use crate::bytes::{append, be, copy_all, copy_range, from_be, less, lex_le, lex_lt, push_be,
    read_be, lemma_be_from_be, lemma_be_len, lemma_from_be_be, lemma_lex_irreflexive,
    lemma_lex_total, lemma_lex_transitive, lemma_pow256_widths};
use crate::engine::{keys_increase, pairs_map, pairs_view, lemma_pairs_map_dom,
    lemma_sorted_listing_unique};
use crate::types::{LogIndex, Term};

verus! {

/// The ASCII bytes `BHM1`.
pub const MAGIC: u64 = 0x4248_4D31;

pub const HEADER_LEN: usize = 28;

pub const CRC_LEN: usize = 4;

/// What a snapshot image holds.
#[derive(Debug, Clone, PartialEq, Eq)]
pub struct SnapshotData {
    pub last_included_index: LogIndex,
    pub last_included_term: Term,
    pub pairs: Vec<(Vec<u8>, Vec<u8>)>,
}

/// Why some bytes are not a snapshot image.
#[derive(Debug, Clone, Copy, PartialEq, Eq, Structural)]
pub enum SnapshotError {
    /// They end too early, or go on past the last pair.
    Truncated,
    /// They are not this encoding.
    BadMagic,
    /// They were truncated or tampered with.
    CrcMismatch,
}

impl SnapshotError {
    /// The error in words.
    pub fn message(&self) -> (text: &'static str)
        ensures
            text@ == match *self {
                SnapshotError::Truncated => "snapshot is truncated"@,
                SnapshotError::BadMagic => "snapshot has a bad magic: not our encoding"@,
                SnapshotError::CrcMismatch => "snapshot checksum mismatch: truncated or tampered"@,
            },
    {
        match self {
            SnapshotError::Truncated => "snapshot is truncated",
            SnapshotError::BadMagic => "snapshot has a bad magic: not our encoding",
            SnapshotError::CrcMismatch => "snapshot checksum mismatch: truncated or tampered",
        }
    }
}

/// One bit of a CRC-32 (IEEE, reflected): the register moves down by a bit, and
/// takes the polynomial in where a one falls out.
pub open spec fn crc_bit(register: u32) -> u32 {
    if register & 1 == 1 {
        (register >> 1) ^ 0xEDB8_8320
    } else {
        register >> 1
    }
}

/// One byte of it: its eight bits, the lowest first.
pub open spec fn crc_byte(register: u32, byte: u8) -> u32 {
    crc_bit(
        crc_bit(
            crc_bit(
                crc_bit(crc_bit(crc_bit(crc_bit(crc_bit(register ^ (byte as u32)))))),
            ),
        ),
    )
}

/// The register after some bytes.
pub open spec fn crc_register(data: Seq<u8>) -> u32
    decreases data.len(),
{
    if data.len() == 0 {
        0xFFFF_FFFF
    } else {
        crc_byte(crc_register(data.drop_last()), data.last())
    }
}

/// The CRC-32 checksum (IEEE) of some bytes.
pub open spec fn crc32(data: Seq<u8>) -> u32 {
    crc_register(data) ^ 0xFFFF_FFFF
}

/// `crc32fast::hash`: the CRC-32 checksum of `data`. Its tables hold what the
/// reflected polynomial makes of each byte.
#[verifier::external_body]
fn checksum(data: &[u8]) -> (crc: u32)
    ensures
        crc == crc32(data@),
{
    crc32fast::hash(data)
}

/// Pairs of byte strings.
pub type Pairs = Seq<(Seq<u8>, Seq<u8>)>;

/// `pair` put into a list that is sorted by key, after every pair whose key is
/// not greater.
pub open spec fn insert_pair(sorted: Pairs, pair: (Seq<u8>, Seq<u8>)) -> Pairs
    decreases sorted.len(),
{
    if sorted.len() == 0 || lex_le(sorted.last().0, pair.0) {
        sorted.push(pair)
    } else {
        insert_pair(sorted.drop_last(), pair).push(sorted.last())
    }
}

/// The pairs in key order; pairs of one key stay in the order they had.
pub open spec fn sort_pairs(pairs: Pairs) -> Pairs
    decreases pairs.len(),
{
    if pairs.len() == 0 {
        pairs
    } else {
        insert_pair(sort_pairs(pairs.drop_last()), pairs.last())
    }
}

/// One pair's record.
pub open spec fn record(pair: (Seq<u8>, Seq<u8>)) -> Seq<u8> {
    be(pair.0.len(), 4) + be(pair.1.len(), 4) + pair.0 + pair.1
}

/// The records of a list of pairs, one after the other.
pub open spec fn records(pairs: Pairs) -> Seq<u8>
    decreases pairs.len(),
{
    if pairs.len() == 0 {
        Seq::empty()
    } else {
        record(pairs[0]) + records(pairs.skip(1))
    }
}

/// The part of an image that its checksum covers.
pub open spec fn body(index: LogIndex, term: Term, pairs: Pairs) -> Seq<u8> {
    be(MAGIC as nat, 4) + be(index as nat, 8) + be(term as nat, 8) + be(pairs.len(), 8) + records(
        pairs,
    )
}

/// `body` with its checksum behind it.
pub open spec fn sealed(body: Seq<u8>) -> Seq<u8> {
    body + be(crc32(body) as nat, 4)
}

/// The image of a boundary and a list of pairs, in the order given.
pub open spec fn image(index: LogIndex, term: Term, pairs: Pairs) -> Seq<u8> {
    sealed(body(index, term, pairs))
}

/// Every length fits the four bytes it is written in.
pub open spec fn lengths_fit(pairs: Pairs) -> bool {
    forall|i: int|
        #![trigger pairs[i]]
        0 <= i < pairs.len() ==> pairs[i].0.len() <= u32::MAX && pairs[i].1.len() <= u32::MAX
}

/// The `count` pairs whose records `data` is, exactly; `None` when it is not
/// that many records.
pub open spec fn parse_records(data: Seq<u8>, count: nat) -> Option<Pairs>
    decreases count,
{
    if count == 0 {
        if data.len() == 0 {
            Some(Seq::empty())
        } else {
            None
        }
    } else if data.len() < 8 {
        None
    } else {
        let klen = from_be(data.subrange(0, 4));
        let vlen = from_be(data.subrange(4, 8));
        if data.len() - 8 < klen + vlen {
            None
        } else {
            let key = data.subrange(8, 8 + klen as int);
            let value = data.subrange(8 + klen as int, 8 + (klen + vlen) as int);
            match parse_records(data.skip(8 + (klen + vlen) as int), (count - 1) as nat) {
                Some(tail) => Some(seq![(key, value)] + tail),
                None => None,
            }
        }
    }
}

/// What decoding `data` gives: the boundary and the pairs, or the reason it is
/// not an image.
pub open spec fn decoded(data: Seq<u8>) -> Result<(LogIndex, Term, Pairs), SnapshotError> {
    if data.len() < HEADER_LEN + CRC_LEN {
        Err(SnapshotError::Truncated)
    } else {
        let inner = data.take(data.len() - CRC_LEN);
        if crc32(inner) as nat != from_be(data.skip(data.len() - CRC_LEN)) {
            Err(SnapshotError::CrcMismatch)
        } else if from_be(inner.subrange(0, 4)) != MAGIC {
            Err(SnapshotError::BadMagic)
        } else {
            match parse_records(inner.skip(HEADER_LEN as int), from_be(inner.subrange(20, 28))) {
                Some(pairs) => Ok(
                    (
                        from_be(inner.subrange(4, 12)) as u64,
                        from_be(inner.subrange(12, 20)) as u64,
                        pairs,
                    ),
                ),
                None => Err(SnapshotError::Truncated),
            }
        }
    }
}

proof fn lemma_insert_pair_len(sorted: Pairs, pair: (Seq<u8>, Seq<u8>))
    ensures
        insert_pair(sorted, pair).len() == sorted.len() + 1,
    decreases sorted.len(),
{
    if sorted.len() > 0 {
        lemma_insert_pair_len(sorted.drop_last(), pair);
    }
}

proof fn lemma_sort_pairs_len(pairs: Pairs)
    ensures
        sort_pairs(pairs).len() == pairs.len(),
    decreases pairs.len(),
{
    if pairs.len() > 0 {
        lemma_sort_pairs_len(pairs.drop_last());
        lemma_insert_pair_len(sort_pairs(pairs.drop_last()), pairs.last());
    }
}

/// Inserting at the place found from the back is what `insert_pair` does.
proof fn lemma_insert_pair_at(sorted: Pairs, pair: (Seq<u8>, Seq<u8>), at: int)
    requires
        0 <= at <= sorted.len(),
        at == 0 || lex_le(sorted[at - 1].0, pair.0),
        forall|i: int| at <= i < sorted.len() ==> !lex_le(#[trigger] sorted[i].0, pair.0),
    ensures
        insert_pair(sorted, pair) == sorted.insert(at, pair),
    decreases sorted.len(),
{
    if at == sorted.len() {
        assert(sorted.insert(at, pair) =~= sorted.push(pair));
    } else {
        assert(!lex_le(sorted[sorted.len() - 1].0, pair.0));
        lemma_insert_pair_at(sorted.drop_last(), pair, at);
        assert(sorted.insert(at, pair) =~= sorted.drop_last().insert(at, pair).push(sorted.last()));
    }
}

/// A sorted copy of `pairs`, by stable insertion from the back: one comparison
/// per pair where they already stand in order, as a scan's do.
fn sort(pairs: &[(Vec<u8>, Vec<u8>)]) -> (sorted: Vec<(Vec<u8>, Vec<u8>)>)
    ensures
        pairs_view(sorted@) == sort_pairs(pairs_view(pairs@)),
{
    let mut sorted: Vec<(Vec<u8>, Vec<u8>)> = Vec::new();
    let mut i: usize = 0;
    let ghost all = pairs_view(pairs@);
    assert(all.take(0) =~= Seq::<(Seq<u8>, Seq<u8>)>::empty());
    assert(pairs_view(sorted@) =~= sort_pairs(all.take(0)));
    while i < pairs.len()
        invariant
            i <= pairs@.len(),
            all == pairs_view(pairs@),
            pairs_view(sorted@) == sort_pairs(all.take(i as int)),
        decreases pairs@.len() - i,
    {
        let key: &Vec<u8> = &pairs[i].0;
        let ghost view = pairs_view(sorted@);
        let mut at: usize = sorted.len();
        while at > 0 && less(key, &sorted[at - 1].0)
            invariant
                at <= sorted@.len(),
                view == pairs_view(sorted@),
                forall|j: int| at <= j < view.len() ==> !lex_le(#[trigger] view[j].0, key@),
            decreases at,
        {
            at -= 1;
            proof {
                crate::bytes::lemma_lex_asymmetric(key@, sorted@[at as int].0@);
            }
        }
        proof {
            if at > 0 {
                lemma_lex_total(key@, sorted@[at - 1].0@);
                assert(view[at - 1].0 == sorted@[at - 1].0@);
            }
            lemma_insert_pair_at(view, all[i as int], at as int);
        }
        let pair = (copy_all(key), copy_all(&pairs[i].1));
        sorted.insert(at, pair);
        i += 1;
        proof {
            assert(pairs_view(sorted@) =~= view.insert(at as int, all[i - 1]));
            assert(all.take(i as int).drop_last() =~= all.take(i - 1));
        }
    }
    assert(all.take(i as int) =~= all);
    sorted
}

proof fn lemma_records_push(pairs: Pairs, pair: (Seq<u8>, Seq<u8>))
    ensures
        records(pairs.push(pair)) == records(pairs) + record(pair),
    decreases pairs.len(),
{
    if pairs.len() == 0 {
        assert(pairs.push(pair).skip(1) =~= pairs);
        assert(records(pairs.push(pair)) =~= records(pairs) + record(pair));
    } else {
        lemma_records_push(pairs.skip(1), pair);
        assert(pairs.push(pair).skip(1) =~= pairs.skip(1).push(pair));
        assert(records(pairs.push(pair)) =~= records(pairs) + record(pair));
    }
}

/// Serializes one state image. Sorts by key so the encoding is deterministic
/// in the state, not in whatever order the pairs happened to be listed.
pub fn encode(
    last_included_index: LogIndex,
    last_included_term: Term,
    pairs: &[(Vec<u8>, Vec<u8>)],
) -> (out: Vec<u8>)
    ensures
        out@ == image(
            last_included_index,
            last_included_term,
            sort_pairs(pairs_view(pairs@)),
        ),
{
    let sorted = sort(pairs);
    let ghost all = pairs_view(sorted@);
    let mut out: Vec<u8> = Vec::new();
    push_be(&mut out, MAGIC, 4);
    push_be(&mut out, last_included_index, 8);
    push_be(&mut out, last_included_term, 8);
    push_be(&mut out, sorted.len() as u64, 8);
    let ghost header = out@;
    let mut i: usize = 0;
    assert(all.take(0) =~= Seq::<(Seq<u8>, Seq<u8>)>::empty());
    assert(out@ =~= header + records(all.take(0)));
    while i < sorted.len()
        invariant
            i <= sorted@.len(),
            all == pairs_view(sorted@),
            out@ == header + records(all.take(i as int)),
        decreases sorted@.len() - i,
    {
        let ghost before = out@;
        push_be(&mut out, sorted[i].0.len() as u64, 4);
        push_be(&mut out, sorted[i].1.len() as u64, 4);
        append(&mut out, &sorted[i].0);
        append(&mut out, &sorted[i].1);
        i += 1;
        proof {
            let pair = all[i - 1];
            assert(out@ =~= before + record(pair));
            assert(all.take(i as int) =~= all.take(i - 1).push(pair));
            lemma_records_push(all.take(i - 1), pair);
            assert(out@ =~= header + records(all.take(i as int)));
        }
    }
    assert(all.take(i as int) =~= all);
    assert(out@ =~= body(last_included_index, last_included_term, all));
    let crc = checksum(&out);
    push_be(&mut out, crc as u64, 4);
    out
}

/// Reads a state image back.
pub fn decode(data: &[u8]) -> (r: Result<SnapshotData, SnapshotError>)
    ensures
        match (r, decoded(data@)) {
            (Ok(d), Ok((index, term, pairs))) => {
                &&& d.last_included_index == index
                &&& d.last_included_term == term
                &&& pairs_view(d.pairs@) == pairs
            },
            (Err(e), Err(want)) => e == want,
            _ => false,
        },
{
    let n: usize = data.len();
    if n < HEADER_LEN + CRC_LEN {
        return Err(SnapshotError::Truncated);
    }
    let end: usize = n - CRC_LEN;
    let ghost inner = data@.take(end as int);
    let expected: u64 = read_be(data, end, CRC_LEN);
    let covered = copy_range(data, 0, end);
    assert(data@.subrange(end as int, end + CRC_LEN) =~= data@.skip(end as int));
    assert(covered@ =~= inner);
    if checksum(&covered) as u64 != expected {
        return Err(SnapshotError::CrcMismatch);
    }
    let magic: u64 = read_be(data, 0, 4);
    assert(inner.subrange(0, 4) =~= data@.subrange(0, 4));
    if magic != MAGIC {
        return Err(SnapshotError::BadMagic);
    }
    let last_included_index: u64 = read_be(data, 4, 8);
    let last_included_term: u64 = read_be(data, 12, 8);
    let count: u64 = read_be(data, 20, 8);
    assert(inner.subrange(4, 12) =~= data@.subrange(4, 12));
    assert(inner.subrange(12, 20) =~= data@.subrange(12, 20));
    assert(inner.subrange(20, 28) =~= data@.subrange(20, 28));

    let ghost all = parse_records(inner.skip(HEADER_LEN as int), count as nat);
    let mut pairs: Vec<(Vec<u8>, Vec<u8>)> = Vec::new();
    let mut at: usize = HEADER_LEN;
    let mut left: u64 = count;
    proof {
        match all {
            Some(p) => {
                assert(pairs_view(pairs@) + p =~= p);
            },
            None => {},
        }
    }
    while left > 0
        invariant
            n == data@.len(),
            end == n - CRC_LEN,
            HEADER_LEN <= at <= end,
            inner == data@.take(end as int),
            all == match parse_records(inner.skip(at as int), left as nat) {
                Some(tail) => Some(pairs_view(pairs@) + tail),
                None => None,
            },
            decoded(data@) == match all {
                Some(p) => Ok((last_included_index, last_included_term, p)),
                None => Err(SnapshotError::Truncated),
            },
        decreases left,
    {
        let ghost rest = inner.skip(at as int);
        if end - at < 8 {
            return Err(SnapshotError::Truncated);
        }
        let klen: u64 = read_be(data, at, 4);
        let vlen: u64 = read_be(data, at + 4, 4);
        proof {
            assert(rest.subrange(0, 4) =~= data@.subrange(at as int, at + 4));
            assert(rest.subrange(4, 8) =~= data@.subrange(at + 4, at + 8));
            lemma_be_from_be(rest.subrange(0, 4));
            lemma_be_from_be(rest.subrange(4, 8));
            lemma_pow256_widths();
        }
        if ((end - at - 8) as u64) < klen + vlen {
            return Err(SnapshotError::Truncated);
        }
        let key_at: usize = at + 8;
        let value_at: usize = key_at + klen as usize;
        let next: usize = value_at + vlen as usize;
        let key = copy_range(data, key_at, value_at);
        let value = copy_range(data, value_at, next);
        let ghost before = pairs_view(pairs@);
        let ghost pair = (key@, value@);
        proof {
            assert(rest.subrange(8, 8 + klen as int) =~= key@);
            assert(rest.subrange(8 + klen as int, 8 + (klen + vlen) as int) =~= value@);
            assert(rest.skip(8 + (klen + vlen) as int) =~= inner.skip(next as int));
        }
        pairs.push((key, value));
        proof {
            assert(pairs_view(pairs@) =~= before.push(pair));
            match parse_records(inner.skip(next as int), (left - 1) as nat) {
                Some(tail) => {
                    assert(before + (seq![pair] + tail) =~= before.push(pair) + tail);
                },
                None => {},
            }
        }
        at = next;
        left -= 1;
    }
    if at != end {
        return Err(SnapshotError::Truncated);
    }
    proof {
        assert(inner.skip(at as int).len() == 0);
        assert(pairs_view(pairs@) + Seq::<(Seq<u8>, Seq<u8>)>::empty() =~= pairs_view(pairs@));
    }
    Ok(SnapshotData { last_included_index, last_included_term, pairs })
}

/// Keys stand in order, equal ones allowed.
pub open spec fn keys_ordered(pairs: Pairs) -> bool {
    forall|i: int, j: int|
        #![trigger pairs[i], pairs[j]]
        0 <= i < j < pairs.len() ==> lex_le(pairs[i].0, pairs[j].0)
}

/// Every key occurs once.
pub open spec fn keys_distinct(pairs: Pairs) -> bool {
    forall|i: int, j: int|
        #![trigger pairs[i], pairs[j]]
        0 <= i < j < pairs.len() ==> pairs[i].0 != pairs[j].0
}

proof fn lemma_lex_le_transitive(a: Seq<u8>, b: Seq<u8>, c: Seq<u8>)
    requires
        lex_le(a, b),
        lex_le(b, c),
    ensures
        lex_le(a, c),
{
    if a != b && b != c {
        lemma_lex_transitive(a, b, c);
    }
}

/// Inserting keeps the order, adds the pair and nothing else, and sets its key.
proof fn lemma_insert_pair(sorted: Pairs, pair: (Seq<u8>, Seq<u8>))
    requires
        keys_ordered(sorted),
    ensures
        keys_ordered(insert_pair(sorted, pair)),
        pairs_map(insert_pair(sorted, pair)) == pairs_map(sorted).insert(pair.0, pair.1),
        forall|k: int|
            0 <= k < insert_pair(sorted, pair).len() ==> #[trigger] insert_pair(sorted, pair)[k]
                == pair || sorted.contains(insert_pair(sorted, pair)[k]),
    decreases sorted.len(),
{
    let out = insert_pair(sorted, pair);
    if sorted.len() == 0 || lex_le(sorted.last().0, pair.0) {
        assert(out.drop_last() =~= sorted);
        assert forall|i: int, j: int|
            #![trigger out[i], out[j]]
            0 <= i < j < out.len() implies lex_le(out[i].0, out[j].0) by {
            if j == sorted.len() {
                if i < sorted.len() - 1 {
                    assert(lex_le(sorted[i].0, sorted[sorted.len() - 1].0));
                    lemma_lex_le_transitive(sorted[i].0, sorted.last().0, pair.0);
                }
            } else {
                assert(lex_le(sorted[i].0, sorted[j].0));
            }
        }
        assert forall|k: int| 0 <= k < out.len() implies #[trigger] out[k] == pair
            || sorted.contains(out[k]) by {
            if k < sorted.len() {
                assert(sorted[k] == out[k]);
            }
        }
    } else {
        let head = sorted.drop_last();
        let last = sorted.last();
        assert(keys_ordered(head)) by {
            assert forall|i: int, j: int|
                #![trigger head[i], head[j]]
                0 <= i < j < head.len() implies lex_le(head[i].0, head[j].0) by {
                assert(lex_le(sorted[i].0, sorted[j].0));
            }
        }
        lemma_insert_pair(head, pair);
        lemma_insert_pair_len(head, pair);
        let inner = insert_pair(head, pair);
        lemma_lex_total(last.0, pair.0);
        assert(lex_lt(pair.0, last.0));
        assert(out.drop_last() =~= inner);
        assert forall|i: int, j: int|
            #![trigger out[i], out[j]]
            0 <= i < j < out.len() implies lex_le(out[i].0, out[j].0) by {
            if j < inner.len() {
                assert(lex_le(inner[i].0, inner[j].0));
            } else {
                assert(inner[i] == pair || head.contains(inner[i]));
                if inner[i] != pair {
                    let k = choose|k: int| 0 <= k < head.len() && head[k] == inner[i];
                    assert(lex_le(sorted[k].0, sorted[sorted.len() - 1].0));
                }
            }
        }
        assert forall|k: int| 0 <= k < out.len() implies #[trigger] out[k] == pair
            || sorted.contains(out[k]) by {
            if k < inner.len() {
                assert(inner[k] == pair || head.contains(inner[k]));
                if inner[k] != pair {
                    let m = choose|m: int| 0 <= m < head.len() && head[m] == inner[k];
                    assert(sorted[m] == out[k]);
                }
            } else {
                assert(sorted[sorted.len() - 1] == out[k]);
            }
        }
        lemma_lex_irreflexive(pair.0);
        assert(pairs_map(out) =~= pairs_map(sorted).insert(pair.0, pair.1));
    }
}

/// Sorting puts the keys in order and leaves the map that the pairs spell.
pub proof fn lemma_sort_pairs(pairs: Pairs)
    ensures
        keys_ordered(sort_pairs(pairs)),
        pairs_map(sort_pairs(pairs)) == pairs_map(pairs),
        forall|k: int|
            0 <= k < sort_pairs(pairs).len() ==> pairs.contains(#[trigger] sort_pairs(pairs)[k]),
    decreases pairs.len(),
{
    if pairs.len() > 0 {
        let head = pairs.drop_last();
        lemma_sort_pairs(head);
        lemma_insert_pair(sort_pairs(head), pairs.last());
        let out = sort_pairs(pairs);
        assert forall|k: int| 0 <= k < out.len() implies pairs.contains(#[trigger] out[k]) by {
            if out[k] == pairs.last() {
                assert(pairs[pairs.len() - 1] == out[k]);
            } else {
                let i = choose|i: int|
                    0 <= i < sort_pairs(head).len() && sort_pairs(head)[i] == out[k];
                assert(head.contains(sort_pairs(head)[i]));
                let j = choose|j: int| 0 <= j < head.len() && head[j] == out[k];
                assert(pairs[j] == out[k]);
            }
        }
    }
}

/// The pairs of one key, in order.
pub open spec fn of_key(pairs: Pairs, key: Seq<u8>) -> Pairs
    decreases pairs.len(),
{
    if pairs.len() == 0 {
        pairs
    } else if pairs.last().0 == key {
        of_key(pairs.drop_last(), key).push(pairs.last())
    } else {
        of_key(pairs.drop_last(), key)
    }
}

/// Sorting loses no pair and adds none, and leaves the pairs of one key in the
/// order they had.
pub proof fn law_sorting_is_stable(pairs: Pairs, key: Seq<u8>)
    ensures
        sort_pairs(pairs).to_multiset() == pairs.to_multiset(),
        of_key(sort_pairs(pairs), key) == of_key(pairs, key),
    decreases pairs.len(),
{
    broadcast use vstd::seq_lib::group_to_multiset_ensures;

    if pairs.len() > 0 {
        let head = pairs.drop_last();
        law_sorting_is_stable(head, key);
        lemma_insert_is_stable(sort_pairs(head), pairs.last(), key);
        assert(head.push(pairs.last()) =~= pairs);
    }
}

proof fn lemma_insert_is_stable(sorted: Pairs, pair: (Seq<u8>, Seq<u8>), key: Seq<u8>)
    ensures
        insert_pair(sorted, pair).to_multiset() == sorted.to_multiset().insert(pair),
        of_key(insert_pair(sorted, pair), key) == if pair.0 == key {
            of_key(sorted, key).push(pair)
        } else {
            of_key(sorted, key)
        },
    decreases sorted.len(),
{
    broadcast use vstd::seq_lib::group_to_multiset_ensures;

    if sorted.len() == 0 || lex_le(sorted.last().0, pair.0) {
        assert(sorted.push(pair).drop_last() =~= sorted);
    } else {
        let head = sorted.drop_last();
        let inner = insert_pair(head, pair);
        lemma_insert_is_stable(head, pair, key);
        assert(head.push(sorted.last()) =~= sorted);
        assert(inner.push(sorted.last()).drop_last() =~= inner);
        assert(inner.push(sorted.last()).to_multiset() =~= sorted.to_multiset().insert(pair));
    }
}

/// How many bytes the records of some pairs take.
pub open spec fn records_len(pairs: Pairs) -> nat
    decreases pairs.len(),
{
    if pairs.len() == 0 {
        0
    } else {
        8 + pairs[0].0.len() + pairs[0].1.len() + records_len(pairs.skip(1))
    }
}

/// An image takes thirty-two bytes, and eight and both lengths for every pair.
pub proof fn law_image_len(index: LogIndex, term: Term, pairs: Pairs)
    ensures
        image(index, term, pairs).len() == 32 + records_len(pairs),
{
    lemma_image_parts(index, term, pairs);
    lemma_records_len(pairs);
    let inner = body(index, term, pairs);
    assert(inner.skip(28).len() == inner.len() - 28);
}

proof fn lemma_records_len(pairs: Pairs)
    ensures
        records(pairs).len() == records_len(pairs),
    decreases pairs.len(),
{
    if pairs.len() > 0 {
        lemma_be_len(pairs[0].0.len(), 4);
        lemma_be_len(pairs[0].1.len(), 4);
        lemma_records_len(pairs.skip(1));
    }
}

/// The number of keys a list of distinct pairs spells is its length.
proof fn lemma_distinct_len(pairs: Pairs)
    requires
        keys_distinct(pairs),
    ensures
        pairs_map(pairs).dom().finite(),
        pairs_map(pairs).dom().len() == pairs.len(),
    decreases pairs.len(),
{
    if pairs.len() > 0 {
        let head = pairs.drop_last();
        assert(keys_distinct(head)) by {
            assert forall|i: int, j: int|
                #![trigger head[i], head[j]]
                0 <= i < j < head.len() implies head[i].0 != head[j].0 by {
                assert(pairs[i].0 != pairs[j].0);
            }
        }
        lemma_distinct_len(head);
        lemma_pairs_map_dom(head, pairs.last().0);
        if pairs_map(head).contains_key(pairs.last().0) {
            let i = choose|i: int| 0 <= i < head.len() && #[trigger] head[i].0 == pairs.last().0;
            assert(pairs[i].0 != pairs[pairs.len() - 1].0);
        }
        assert(pairs_map(pairs).dom() =~= pairs_map(head).dom().insert(pairs.last().0));
    }
}

/// A list in key order that spells as many keys as it has pairs repeats none.
proof fn lemma_ordered_full(pairs: Pairs)
    requires
        keys_ordered(pairs),
        pairs_map(pairs).dom().finite(),
        pairs_map(pairs).dom().len() == pairs.len(),
    ensures
        keys_increase(pairs),
    decreases pairs.len(),
{
    if pairs.len() > 0 {
        let head = pairs.drop_last();
        let last = pairs.last();
        assert(keys_ordered(head)) by {
            assert forall|i: int, j: int|
                #![trigger head[i], head[j]]
                0 <= i < j < head.len() implies lex_le(head[i].0, head[j].0) by {
                assert(lex_le(pairs[i].0, pairs[j].0));
            }
        }
        lemma_spelled_at_most(head);
        assert(pairs_map(pairs).dom() =~= pairs_map(head).dom().insert(last.0));
        assert(!pairs_map(head).contains_key(last.0));
        assert(pairs_map(head).dom().len() == head.len());
        lemma_ordered_full(head);
        assert forall|i: int, j: int|
            #![trigger pairs[i], pairs[j]]
            0 <= i < j < pairs.len() implies lex_lt(pairs[i].0, pairs[j].0) by {
            if j < head.len() {
                assert(lex_lt(head[i].0, head[j].0));
            } else {
                assert(lex_le(pairs[i].0, pairs[j].0));
                lemma_pairs_map_dom(head, last.0);
                assert(head[i].0 == pairs[i].0);
            }
        }
    }
}

proof fn lemma_spelled_at_most(pairs: Pairs)
    ensures
        pairs_map(pairs).dom().finite(),
        pairs_map(pairs).dom().len() <= pairs.len(),
    decreases pairs.len(),
{
    if pairs.len() > 0 {
        let head = pairs.drop_last();
        lemma_spelled_at_most(head);
        assert(pairs_map(pairs).dom() =~= pairs_map(head).dom().insert(pairs.last().0));
    }
}

/// Any two replicas that snapshot the same state at the same boundary produce
/// the same bytes, in whatever order each of them lists its pairs.
pub proof fn law_image_of_state(index: LogIndex, term: Term, a: Pairs, b: Pairs)
    requires
        keys_distinct(a),
        keys_distinct(b),
        pairs_map(a) == pairs_map(b),
    ensures
        image(index, term, sort_pairs(a)) == image(index, term, sort_pairs(b)),
{
    lemma_sort_pairs(a);
    lemma_sort_pairs(b);
    lemma_sort_pairs_len(a);
    lemma_sort_pairs_len(b);
    lemma_distinct_len(a);
    lemma_distinct_len(b);
    lemma_ordered_full(sort_pairs(a));
    lemma_ordered_full(sort_pairs(b));
    lemma_sorted_listing_unique(sort_pairs(a), sort_pairs(b));
}

/// Pairs that stand in increasing key order are encoded as they stand.
pub proof fn lemma_sort_sorted(pairs: Pairs)
    requires
        keys_increase(pairs),
    ensures
        sort_pairs(pairs) == pairs,
    decreases pairs.len(),
{
    if pairs.len() > 0 {
        let head = pairs.drop_last();
        assert(keys_increase(head)) by {
            assert forall|i: int, j: int|
                #![trigger head[i], head[j]]
                0 <= i < j < head.len() implies lex_lt(head[i].0, head[j].0) by {
                assert(lex_lt(pairs[i].0, pairs[j].0));
            }
        }
        lemma_sort_sorted(head);
        if head.len() > 0 {
            assert(lex_lt(pairs[head.len() - 1].0, pairs[pairs.len() - 1].0));
        }
        assert(head.push(pairs.last()) =~= pairs);
    }
}

/// A record taken apart, whatever stands behind it.
#[verifier::spinoff_prover]
proof fn lemma_record_parts(key: Seq<u8>, value: Seq<u8>, rest: Seq<u8>)
    requires
        key.len() <= u32::MAX,
        value.len() <= u32::MAX,
    ensures
        ({
            let data = record((key, value)) + rest;
            let end = 8 + (key.len() + value.len()) as int;
            &&& data.len() == end + rest.len()
            &&& from_be(data.subrange(0, 4)) == key.len()
            &&& from_be(data.subrange(4, 8)) == value.len()
            &&& data.subrange(8, 8 + key.len() as int) == key
            &&& data.subrange(8 + key.len() as int, end) == value
            &&& data.skip(end) == rest
        }),
{
    let data = record((key, value)) + rest;
    lemma_pow256_widths();
    lemma_be_len(key.len(), 4);
    lemma_be_len(value.len(), 4);
    lemma_from_be_be(key.len(), 4);
    lemma_from_be_be(value.len(), 4);
    assert(data.subrange(0, 4) =~= be(key.len(), 4));
    assert(data.subrange(4, 8) =~= be(value.len(), 4));
    assert(data.subrange(8, 8 + key.len() as int) =~= key);
    assert(data.subrange(8 + key.len() as int, 8 + (key.len() + value.len()) as int) =~= value);
    assert(data.skip(8 + (key.len() + value.len()) as int) =~= rest);
}

/// The records of a list of pairs read back as that list.
#[verifier::spinoff_prover]
proof fn lemma_parse_records(pairs: Pairs)
    requires
        lengths_fit(pairs),
    ensures
        parse_records(records(pairs), pairs.len()) == Some(pairs),
    decreases pairs.len(),
{
    if pairs.len() == 0 {
        assert(pairs =~= Seq::<(Seq<u8>, Seq<u8>)>::empty());
    } else {
        let (key, value) = pairs[0];
        let tail = pairs.skip(1);
        assert(lengths_fit(tail)) by {
            assert forall|i: int|
                #![trigger tail[i]]
                0 <= i < tail.len() implies tail[i].0.len() <= u32::MAX && tail[i].1.len()
                <= u32::MAX by {
                assert(tail[i] == pairs[i + 1]);
            }
        }
        lemma_parse_records(tail);
        lemma_record_parts(key, value, records(tail));
        assert(records(pairs) == record((key, value)) + records(tail));
        assert(seq![(key, value)] + tail =~= pairs);
    }
}

/// The first record of some bytes, put together again.
proof fn lemma_record_of_head(data: Seq<u8>, klen: nat, vlen: nat)
    requires
        data.len() >= 8 + klen + vlen,
        klen == from_be(data.subrange(0, 4)),
        vlen == from_be(data.subrange(4, 8)),
    ensures
        record(
            (
                data.subrange(8, 8 + klen as int),
                data.subrange(8 + klen as int, 8 + (klen + vlen) as int),
            ),
        ) == data.take(8 + (klen + vlen) as int),
{
    lemma_be_from_be(data.subrange(0, 4));
    lemma_be_from_be(data.subrange(4, 8));
    let key = data.subrange(8, 8 + klen as int);
    let value = data.subrange(8 + klen as int, 8 + (klen + vlen) as int);
    assert(be(key.len(), 4) == data.subrange(0, 4));
    assert(be(value.len(), 4) == data.subrange(4, 8));
    assert(record((key, value)) =~= data.take(8 + (klen + vlen) as int));
}

/// Bytes that read as some pairs are those pairs' records.
proof fn lemma_records_of_parse(data: Seq<u8>, count: nat)
    requires
        parse_records(data, count) is Some,
    ensures
        ({
            let pairs = parse_records(data, count)->0;
            &&& records(pairs) == data
            &&& pairs.len() == count
            &&& lengths_fit(pairs)
        }),
    decreases count,
{
    let pairs = parse_records(data, count)->0;
    if count == 0 {
        assert(records(pairs) =~= data);
    } else {
        let klen = from_be(data.subrange(0, 4));
        let vlen = from_be(data.subrange(4, 8));
        let rest = data.skip(8 + (klen + vlen) as int);
        lemma_records_of_parse(rest, (count - 1) as nat);
        lemma_be_from_be(data.subrange(0, 4));
        lemma_be_from_be(data.subrange(4, 8));
        lemma_pow256_widths();
        let tail = parse_records(rest, (count - 1) as nat)->0;
        assert(pairs.skip(1) =~= tail);
        lemma_record_of_head(data, klen, vlen);
        assert(records(pairs) == record(pairs[0]) + rest);
        assert(records(pairs) =~= data);
        assert forall|i: int|
            #![trigger pairs[i]]
            0 <= i < pairs.len() implies pairs[i].0.len() <= u32::MAX && pairs[i].1.len()
            <= u32::MAX by {
            if i > 0 {
                assert(pairs[i] == tail[i - 1]);
            }
        }
    }
}

/// What an image is made of, taken apart.
proof fn lemma_image_parts(index: LogIndex, term: Term, pairs: Pairs)
    ensures
        ({
            let data = image(index, term, pairs);
            let inner = body(index, term, pairs);
            &&& data.len() == inner.len() + 4
            &&& inner.len() >= 28
            &&& data.take(data.len() - 4) == inner
            &&& data.skip(data.len() - 4) == be(crc32(inner) as nat, 4)
            &&& inner.subrange(0, 4) == be(MAGIC as nat, 4)
            &&& inner.subrange(4, 12) == be(index as nat, 8)
            &&& inner.subrange(12, 20) == be(term as nat, 8)
            &&& inner.subrange(20, 28) == be(pairs.len(), 8)
            &&& inner.skip(28) == records(pairs)
        }),
{
    let data = image(index, term, pairs);
    let inner = body(index, term, pairs);
    lemma_be_len(MAGIC as nat, 4);
    lemma_be_len(index as nat, 8);
    lemma_be_len(term as nat, 8);
    lemma_be_len(pairs.len(), 8);
    lemma_be_len(crc32(inner) as nat, 4);
    assert(data.take(data.len() - 4) =~= inner);
    assert(data.skip(data.len() - 4) =~= be(crc32(inner) as nat, 4));
    assert(inner.subrange(0, 4) =~= be(MAGIC as nat, 4));
    assert(inner.subrange(4, 12) =~= be(index as nat, 8));
    assert(inner.subrange(12, 20) =~= be(term as nat, 8));
    assert(inner.subrange(20, 28) =~= be(pairs.len(), 8));
    assert(inner.skip(28) =~= records(pairs));
}

/// An image decodes to the boundary and the pairs it was made of, as long as
/// no key or value is longer than its four bytes of length can say.
pub proof fn law_round_trip(index: LogIndex, term: Term, pairs: Pairs)
    requires
        lengths_fit(pairs),
        pairs.len() <= u64::MAX,
    ensures
        decoded(image(index, term, pairs)) == Ok::<_, SnapshotError>((index, term, pairs)),
{
    lemma_image_parts(index, term, pairs);
    lemma_pow256_widths();
    let inner = body(index, term, pairs);
    lemma_from_be_be(crc32(inner) as nat, 4);
    lemma_from_be_be(MAGIC as nat, 4);
    lemma_from_be_be(index as nat, 8);
    lemma_from_be_be(term as nat, 8);
    lemma_from_be_be(pairs.len(), 8);
    lemma_parse_records(pairs);
}

/// Whatever decodes is an image, byte for byte: nothing but the output of an
/// encoding is ever restored.
pub proof fn law_only_images_decode(data: Seq<u8>)
    requires
        decoded(data) is Ok,
    ensures
        ({
            let (index, term, pairs) = decoded(data)->Ok_0;
            &&& data == image(index, term, pairs)
            &&& lengths_fit(pairs)
        }),
{
    let (index, term, pairs) = decoded(data)->Ok_0;
    let inner = data.take(data.len() - 4);
    lemma_pow256_widths();
    lemma_records_of_parse(inner.skip(28), from_be(inner.subrange(20, 28)));
    lemma_be_from_be(inner.subrange(0, 4));
    lemma_be_from_be(inner.subrange(4, 12));
    lemma_be_from_be(inner.subrange(12, 20));
    lemma_be_from_be(inner.subrange(20, 28));
    lemma_be_from_be(data.skip(data.len() - 4));
    assert(inner =~= body(index, term, pairs));
    assert(data =~= image(index, term, pairs));
}

/// Registers that differ still differ a bit later.
proof fn lemma_crc_bit_differs(a: u32, b: u32)
    requires
        a != b,
    ensures
        crc_bit(a) != crc_bit(b),
{
    assert(crc_bit(a) != crc_bit(b)) by (bit_vector)
        requires
            a != b,
    ;
}

/// Where the register or the byte differs, and not both, the registers differ a
/// byte later.
proof fn lemma_crc_byte_differs(a: u32, x: u8, b: u32, y: u8)
    requires
        (a != b && x == y) || (a == b && x != y),
    ensures
        crc_byte(a, x) != crc_byte(b, y),
{
    let a0 = a ^ (x as u32);
    let b0 = b ^ (y as u32);
    assert(a ^ (x as u32) != b ^ (y as u32)) by (bit_vector)
        requires
            (a != b && x == y) || (a == b && x != y),
    ;
    lemma_crc_bit_differs(a0, b0);
    let (a1, b1) = (crc_bit(a0), crc_bit(b0));
    lemma_crc_bit_differs(a1, b1);
    let (a2, b2) = (crc_bit(a1), crc_bit(b1));
    lemma_crc_bit_differs(a2, b2);
    let (a3, b3) = (crc_bit(a2), crc_bit(b2));
    lemma_crc_bit_differs(a3, b3);
    let (a4, b4) = (crc_bit(a3), crc_bit(b3));
    lemma_crc_bit_differs(a4, b4);
    let (a5, b5) = (crc_bit(a4), crc_bit(b4));
    lemma_crc_bit_differs(a5, b5);
    let (a6, b6) = (crc_bit(a5), crc_bit(b5));
    lemma_crc_bit_differs(a6, b6);
    lemma_crc_bit_differs(crc_bit(a6), crc_bit(b6));
}

/// One changed byte changes the register.
proof fn lemma_crc_register_differs(data: Seq<u8>, i: int, byte: u8)
    requires
        0 <= i < data.len(),
        byte != data[i],
    ensures
        crc_register(data.update(i, byte)) != crc_register(data),
    decreases data.len(),
{
    let changed = data.update(i, byte);
    if i == data.len() - 1 {
        assert(changed.drop_last() =~= data.drop_last());
        lemma_crc_byte_differs(
            crc_register(data.drop_last()),
            byte,
            crc_register(data.drop_last()),
            data.last(),
        );
    } else {
        assert(changed.drop_last() =~= data.drop_last().update(i, byte));
        lemma_crc_register_differs(data.drop_last(), i, byte);
        lemma_crc_byte_differs(
            crc_register(changed.drop_last()),
            data.last(),
            crc_register(data.drop_last()),
            data.last(),
        );
    }
}

/// One changed byte changes the checksum.
pub proof fn law_checksum_tells_a_changed_byte(data: Seq<u8>, i: int, byte: u8)
    requires
        0 <= i < data.len(),
        byte != data[i],
    ensures
        crc32(data.update(i, byte)) != crc32(data),
{
    lemma_crc_register_differs(data, i, byte);
    let a = crc_register(data.update(i, byte));
    let b = crc_register(data);
    assert(a ^ 0xFFFF_FFFF != b ^ 0xFFFF_FFFF) by (bit_vector)
        requires
            a != b,
    ;
}

/// An image with any one byte changed, in the header, a length, the data or the
/// checksum itself, never restores: its checksum gives it away.
pub proof fn law_a_changed_byte_is_refused(
    index: LogIndex,
    term: Term,
    pairs: Pairs,
    i: int,
    byte: u8,
)
    requires
        0 <= i < image(index, term, pairs).len(),
        byte != image(index, term, pairs)[i],
    ensures
        decoded(image(index, term, pairs).update(i, byte)) == Err::<(LogIndex, Term, Pairs), _>(
            SnapshotError::CrcMismatch,
        ),
{
    lemma_image_parts(index, term, pairs);
    lemma_pow256_widths();
    let data = image(index, term, pairs);
    let inner = body(index, term, pairs);
    let changed = data.update(i, byte);
    let end = data.len() - 4;
    lemma_from_be_be(crc32(inner) as nat, 4);
    if i < end {
        assert(changed.take(end) =~= inner.update(i, byte));
        assert(changed.skip(end) =~= data.skip(end));
        assert(inner[i] == data[i]);
        law_checksum_tells_a_changed_byte(inner, i, byte);
    } else {
        assert(changed.take(end) =~= inner);
        let stored = changed.skip(end);
        assert(stored[i - end] == byte);
        assert(data.skip(end)[i - end] == data[i]);
        lemma_be_from_be(stored);
    }
}

/// A state that is listed, encoded and decoded spells the same state again.
pub proof fn law_state_survives(index: LogIndex, term: Term, pairs: Pairs)
    requires
        lengths_fit(pairs),
        pairs.len() <= u64::MAX,
    ensures
        decoded(image(index, term, sort_pairs(pairs))) is Ok,
        pairs_map(decoded(image(index, term, sort_pairs(pairs)))->Ok_0.2) == pairs_map(pairs),
{
    lemma_sort_pairs(pairs);
    lemma_sort_pairs_len(pairs);
    let sorted = sort_pairs(pairs);
    assert forall|i: int|
        #![trigger sorted[i]]
        0 <= i < sorted.len() implies sorted[i].0.len() <= u32::MAX && sorted[i].1.len()
        <= u32::MAX by {
        assert(pairs.contains(sorted[i]));
        let j = choose|j: int| 0 <= j < pairs.len() && pairs[j] == sorted[i];
        assert(pairs[j].0.len() <= u32::MAX);
    }
    law_round_trip(index, term, sorted);
}

/// Why bytes are no image: shorter than thirty-two bytes they are cut short; else
/// a checksum that is not theirs is told first, then a beginning that is not an
/// image's, and then records that end too early or too late.
pub proof fn law_why_bytes_are_no_image(data: Seq<u8>)
    ensures
        data.len() < 32 ==> decoded(data) == Err::<(LogIndex, Term, Pairs), _>(
            SnapshotError::Truncated,
        ),
        data.len() >= 32 ==> {
            let inner = data.take(data.len() - 4);
            let whole = crc32(inner) as nat == from_be(data.skip(data.len() - 4));
            let ours = from_be(data.take(4)) == MAGIC;
            &&& decoded(data) == Err::<(LogIndex, Term, Pairs), _>(SnapshotError::CrcMismatch)
                <==> !whole
            &&& decoded(data) == Err::<(LogIndex, Term, Pairs), _>(SnapshotError::BadMagic) <==> whole
                && !ours
            &&& decoded(data) is Ok ==> whole && ours
        },
{
    if data.len() >= 32 {
        let inner = data.take(data.len() - 4);
        assert(inner.subrange(0, 4) =~= data.take(4));
    }
}

/// An image lists its pairs by key, so that equal states make equal images.
pub proof fn law_an_image_is_in_key_order(pairs: Pairs, i: int, j: int)
    requires
        0 <= i < j < sort_pairs(pairs).len(),
    ensures
        lex_le(sort_pairs(pairs)[i].0, sort_pairs(pairs)[j].0),
{
    lemma_sort_pairs(pairs);
}

/// What is encoded is decoded: the boundary, and every pair, in key order; keys
/// and values of four gigabytes and more do not fit.
pub proof fn law_an_encoded_state_is_decoded(
    index: LogIndex,
    term: Term,
    pairs: &[(Vec<u8>, Vec<u8>)],
    out: Vec<u8>,
    data: &[u8],
    r: Result<SnapshotData, SnapshotError>,
)
    requires
        call_ensures(encode, (index, term, pairs), out),
        data@ == out@,
        call_ensures(decode, (data,), r),
        lengths_fit(pairs_view(pairs@)),
    ensures
        r matches Ok(d) && d.last_included_index == index && d.last_included_term == term
            && pairs_map(pairs_view(d.pairs@)) == pairs_map(pairs_view(pairs@))
            && pairs_view(d.pairs@) == sort_pairs(pairs_view(pairs@)),
{
    let views = pairs_view(pairs@);
    assert(pairs.len() == pairs@.len());
    law_state_survives(index, term, views);
    law_sorting_is_stable(views, Seq::empty());
    lemma_sorted_fit(views);
    lemma_sorted_len(views);
    law_round_trip(index, term, sort_pairs(views));
}

/// Sorting keeps every length within bounds.
proof fn lemma_sorted_fit(pairs: Pairs)
    requires
        lengths_fit(pairs),
    ensures
        lengths_fit(sort_pairs(pairs)),
{
    let sorted = sort_pairs(pairs);
    law_sorting_is_stable(pairs, Seq::empty());
    assert forall|i: int| #![trigger sorted[i]] 0 <= i < sorted.len() implies sorted[i].0.len()
        <= u32::MAX && sorted[i].1.len() <= u32::MAX by {
        assert(sorted.contains(sorted[i]));
        sorted.to_multiset_ensures();
        pairs.to_multiset_ensures();
        assert(sorted.to_multiset().count(sorted[i]) > 0);
        assert(pairs.contains(sorted[i]));
        let k = choose|k: int| 0 <= k < pairs.len() && pairs[k] == sorted[i];
        assert(pairs[k].0.len() <= u32::MAX);
    }
}

/// Sorting keeps the number of pairs.
proof fn lemma_sorted_len(pairs: Pairs)
    ensures
        sort_pairs(pairs).len() == pairs.len(),
{
    law_sorting_is_stable(pairs, Seq::empty());
    sort_pairs(pairs).to_multiset_ensures();
    pairs.to_multiset_ensures();
}

/// Bytes are decoded exactly where they are an image, and of an image with one
/// byte changed nothing is decoded.
pub proof fn law_only_an_image_is_decoded(data: &[u8], r: Result<SnapshotData, SnapshotError>)
    requires
        call_ensures(decode, (data,), r),
    ensures
        r matches Ok(d) ==> data@ == image(
            d.last_included_index,
            d.last_included_term,
            pairs_view(d.pairs@),
        ),
        data@.len() < 32 ==> r == Err::<SnapshotData, _>(SnapshotError::Truncated),
        r is Err <==> decoded(data@) is Err,
{
    law_why_bytes_are_no_image(data@);
    if decoded(data@) is Ok {
        law_only_images_decode(data@);
    }
}

/// How an image lies: the magic number, the boundary's index and term, how many
/// pairs follow, the pairs with their lengths in front, and a checksum over all
/// of it; every number with its most significant byte first.
pub proof fn law_how_an_image_lies(
    index: LogIndex,
    term: Term,
    pairs: Pairs,
    key: Seq<u8>,
    value: Seq<u8>,
)
    ensures
        ({
            let data = image(index, term, pairs);
            let inner = data.take(data.len() - 4);
            &&& data.len() >= 32
            &&& data.take(4) == be(0x4248_4D31, 4)
            &&& data.subrange(4, 12) == be(index as nat, 8)
            &&& data.subrange(12, 20) == be(term as nat, 8)
            &&& data.subrange(20, 28) == be(pairs.len(), 8)
            &&& data.skip(data.len() - 4) == be(crc32(inner) as nat, 4)
        }),
        record((key, value)) == be(key.len(), 4) + be(value.len(), 4) + key + value,
        records(seq![(key, value)] + pairs) == record((key, value)) + records(pairs),
{
    let whole = body(index, term, pairs);
    let data = image(index, term, pairs);
    lemma_be_len(MAGIC as nat, 4);
    lemma_be_len(index as nat, 8);
    lemma_be_len(term as nat, 8);
    lemma_be_len(pairs.len(), 8);
    lemma_be_len(crc32(whole) as nat, 4);
    assert(data.take(data.len() - 4) =~= whole);
    assert(data.take(4) =~= be(MAGIC as nat, 4));
    assert(data.subrange(4, 12) =~= be(index as nat, 8));
    assert(data.subrange(12, 20) =~= be(term as nat, 8));
    assert(data.subrange(20, 28) =~= be(pairs.len(), 8));
    assert(data.skip(data.len() - 4) =~= be(crc32(whole) as nat, 4));
    let more = seq![(key, value)] + pairs;
    assert(more[0] == (key, value));
    assert(more.skip(1) =~= pairs);
}

} // verus!
