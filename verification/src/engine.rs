//! A byte-keyed store held in memory, with the writes its disk copy still has
//! to take.
//!
//! Both the Raft log and the state machine of a group are such stores. The
//! live pairs are here, so every read is answered here; what a write does to
//! the disk is queued in order, as puts, deletes and flushes, and the process
//! around the library takes the queue and carries it out.

use vstd::prelude::*;

use crate::bytes::{copy_all, less, lex_lt, lemma_lex_asymmetric, lemma_lex_irreflexive,
    lemma_lex_total, lemma_lex_transitive, same};

verus! {

/// One thing the disk copy of a store has to do.
#[derive(Debug, PartialEq, Eq)]
pub enum Write {
    Put { key: Vec<u8>, value: Vec<u8> },
    Delete { key: Vec<u8> },
    /// Make everything before this durable.
    Flush,
}

/// A [`Write`] as a mathematical value.
pub enum Edit {
    Put(Seq<u8>, Seq<u8>),
    Delete(Seq<u8>),
    Flush,
}

impl View for Write {
    type V = Edit;

    open spec fn view(&self) -> Edit {
        match *self {
            Write::Put { key, value } => Edit::Put(key@, value@),
            Write::Delete { key } => Edit::Delete(key@),
            Write::Flush => Edit::Flush,
        }
    }
}

/// The mathematical values of a queue of writes.
pub open spec fn edits(writes: Seq<Write>) -> Seq<Edit> {
    writes.map_values(|w: Write| w@)
}

/// What one write makes of the pairs on disk.
pub open spec fn replay_one(pairs: Map<Seq<u8>, Seq<u8>>, edit: Edit) -> Map<Seq<u8>, Seq<u8>> {
    match edit {
        Edit::Put(key, value) => pairs.insert(key, value),
        Edit::Delete(key) => pairs.remove(key),
        Edit::Flush => pairs,
    }
}

/// What a queue of writes makes of the pairs on disk, first to last.
pub open spec fn replay(pairs: Map<Seq<u8>, Seq<u8>>, queue: Seq<Edit>) -> Map<Seq<u8>, Seq<u8>>
    decreases queue.len(),
{
    if queue.len() == 0 {
        pairs
    } else {
        replay_one(replay(pairs, queue.drop_last()), queue.last())
    }
}

/// Whether some writes change a pair: one of them is no flush.
pub open spec fn changes_some(queue: Seq<Edit>) -> bool {
    exists|i: int| 0 <= i < queue.len() && !(#[trigger] queue[i] is Flush)
}

/// Whether a write is left unflushed after some more: one stands behind their
/// last flush, or there are none and one was left before them.
pub open spec fn left_unflushed(before: bool, queue: Seq<Edit>) -> bool {
    if queue.len() == 0 {
        before
    } else {
        !(queue.last() is Flush)
    }
}

/// Pairs of byte strings as mathematical values.
pub open spec fn pairs_view(pairs: Seq<(Vec<u8>, Vec<u8>)>) -> Seq<(Seq<u8>, Seq<u8>)> {
    pairs.map_values(|p: (Vec<u8>, Vec<u8>)| (p.0@, p.1@))
}

/// The keys stand in strictly increasing order, so none occurs twice.
pub open spec fn keys_increase(pairs: Seq<(Seq<u8>, Seq<u8>)>) -> bool {
    forall|i: int, j: int|
        #![trigger pairs[i], pairs[j]]
        0 <= i < j < pairs.len() ==> lex_lt(pairs[i].0, pairs[j].0)
}

/// The map that a list of pairs spells out; a later pair replaces an earlier
/// one of the same key.
pub open spec fn pairs_map(pairs: Seq<(Seq<u8>, Seq<u8>)>) -> Map<Seq<u8>, Seq<u8>>
    decreases pairs.len(),
{
    if pairs.len() == 0 {
        Map::empty()
    } else {
        pairs_map(pairs.drop_last()).insert(pairs.last().0, pairs.last().1)
    }
}

/// A key is in the map of a list of pairs exactly when a pair has it.
pub proof fn lemma_pairs_map_dom(pairs: Seq<(Seq<u8>, Seq<u8>)>, key: Seq<u8>)
    ensures
        pairs_map(pairs).contains_key(key) <==> exists|i: int|
            0 <= i < pairs.len() && #[trigger] pairs[i].0 == key,
    decreases pairs.len(),
{
    if pairs.len() > 0 {
        let head = pairs.drop_last();
        lemma_pairs_map_dom(head, key);
        if pairs_map(pairs).contains_key(key) {
            if pairs.last().0 == key {
                assert(pairs[pairs.len() - 1].0 == key);
            } else {
                let i = choose|i: int| 0 <= i < head.len() && #[trigger] head[i].0 == key;
                assert(pairs[i].0 == key);
            }
        }
        if exists|i: int| 0 <= i < pairs.len() && #[trigger] pairs[i].0 == key {
            let i = choose|i: int| 0 <= i < pairs.len() && #[trigger] pairs[i].0 == key;
            if i < pairs.len() - 1 {
                assert(head[i].0 == key);
            }
        }
    }
}

/// In a list of pairs with increasing keys, each pair's value is the map's.
pub proof fn lemma_pairs_map_at(pairs: Seq<(Seq<u8>, Seq<u8>)>, i: int)
    requires
        keys_increase(pairs),
        0 <= i < pairs.len(),
    ensures
        pairs_map(pairs).contains_key(pairs[i].0),
        pairs_map(pairs)[pairs[i].0] == pairs[i].1,
    decreases pairs.len(),
{
    let head = pairs.drop_last();
    if i < pairs.len() - 1 {
        assert(keys_increase(head)) by {
            assert forall|a: int, b: int|
                #![trigger head[a], head[b]]
                0 <= a < b < head.len() implies lex_lt(head[a].0, head[b].0) by {
                assert(lex_lt(pairs[a].0, pairs[b].0));
            }
        }
        lemma_pairs_map_at(head, i);
        assert(lex_lt(pairs[i].0, pairs[pairs.len() - 1].0));
        lemma_lex_irreflexive(pairs[i].0);
        assert(head[i] == pairs[i]);
    }
}

/// Two lists of pairs with increasing keys that spell the same map are the
/// same list: one state has one sorted listing.
pub proof fn lemma_sorted_listing_unique(a: Seq<(Seq<u8>, Seq<u8>)>, b: Seq<(Seq<u8>, Seq<u8>)>)
    requires
        keys_increase(a),
        keys_increase(b),
        pairs_map(a) == pairs_map(b),
    ensures
        a == b,
    decreases a.len(),
{
    if a.len() == 0 {
        if b.len() > 0 {
            lemma_pairs_map_at(b, 0);
        }
        assert(a =~= b);
    } else if b.len() == 0 {
        lemma_pairs_map_at(a, 0);
    } else {
        let m = a.len() - 1;
        let n = b.len() - 1;
        lemma_pairs_map_at(a, m);
        lemma_pairs_map_at(b, n);
        lemma_pairs_map_dom(b, a[m].0);
        lemma_pairs_map_dom(a, b[n].0);
        let j = choose|j: int| 0 <= j < b.len() && #[trigger] b[j].0 == a[m].0;
        let i = choose|i: int| 0 <= i < a.len() && #[trigger] a[i].0 == b[n].0;
        if j < n && i < m {
            assert(lex_lt(b[j].0, b[n].0));
            assert(lex_lt(a[i].0, a[m].0));
            lemma_lex_asymmetric(a[m].0, b[n].0);
        } else if j < n {
            assert(lex_lt(b[j].0, b[n].0));
            lemma_lex_irreflexive(a[m].0);
        } else if i < m {
            assert(lex_lt(a[i].0, a[m].0));
            lemma_lex_irreflexive(a[m].0);
        }
        assert(a[m] == b[n]);
        let x = a.drop_last();
        let y = b.drop_last();
        assert(keys_increase(x)) by {
            assert forall|p: int, q: int|
                #![trigger x[p], x[q]]
                0 <= p < q < x.len() implies lex_lt(x[p].0, x[q].0) by {
                assert(lex_lt(a[p].0, a[q].0));
            }
        }
        assert(keys_increase(y)) by {
            assert forall|p: int, q: int|
                #![trigger y[p], y[q]]
                0 <= p < q < y.len() implies lex_lt(y[p].0, y[q].0) by {
                assert(lex_lt(b[p].0, b[q].0));
            }
        }
        let last = a[m].0;
        assert(!pairs_map(x).contains_key(last)) by {
            lemma_pairs_map_dom(x, last);
            if exists|p: int| 0 <= p < x.len() && #[trigger] x[p].0 == last {
                let p = choose|p: int| 0 <= p < x.len() && #[trigger] x[p].0 == last;
                assert(lex_lt(a[p].0, a[m].0));
                lemma_lex_irreflexive(last);
            }
        }
        assert(!pairs_map(y).contains_key(last)) by {
            lemma_pairs_map_dom(y, last);
            if exists|p: int| 0 <= p < y.len() && #[trigger] y[p].0 == last {
                let p = choose|p: int| 0 <= p < y.len() && #[trigger] y[p].0 == last;
                assert(lex_lt(b[p].0, b[n].0));
                lemma_lex_irreflexive(last);
            }
        }
        assert(pairs_map(x) =~= pairs_map(a).remove(last));
        assert(pairs_map(y) =~= pairs_map(b).remove(last));
        lemma_sorted_listing_unique(x, y);
        assert(a =~= x.push(a[m]));
        assert(b =~= y.push(b[n]));
    }
}

/// Where `key` stands in a sorted list of pairs, or would stand.
fn find(items: &Vec<(Vec<u8>, Vec<u8>)>, key: &[u8]) -> (r: (bool, usize))
    requires
        keys_increase(pairs_view(items@)),
    ensures
        r.1 <= items@.len(),
        r.0 ==> r.1 < items@.len() && items@[r.1 as int].0@ == key@,
        forall|i: int| 0 <= i < r.1 ==> lex_lt(#[trigger] items@[i].0@, key@),
        !r.0 ==> forall|i: int| r.1 <= i < items@.len() ==> lex_lt(key@, #[trigger] items@[i].0@),
{
    let mut lo: usize = 0;
    let mut hi: usize = items.len();
    let ghost view = pairs_view(items@);
    while lo < hi
        invariant
            lo <= hi <= items@.len(),
            view == pairs_view(items@),
            keys_increase(view),
            forall|i: int| 0 <= i < lo ==> lex_lt(#[trigger] items@[i].0@, key@),
            forall|i: int| hi <= i < items@.len() ==> lex_lt(key@, #[trigger] items@[i].0@),
        decreases hi - lo,
    {
        let mid: usize = lo + (hi - lo) / 2;
        let here: &Vec<u8> = &items[mid].0;
        if less(here, key) {
            proof {
                assert forall|i: int| 0 <= i < mid + 1 implies lex_lt(
                    #[trigger] items@[i].0@,
                    key@,
                ) by {
                    if i < mid {
                        assert(lex_lt(view[i].0, view[mid as int].0));
                        lemma_lex_transitive(items@[i].0@, items@[mid as int].0@, key@);
                    }
                }
            }
            lo = mid + 1;
        } else if same(here, key) {
            proof {
                assert forall|i: int| 0 <= i < mid implies lex_lt(
                    #[trigger] items@[i].0@,
                    key@,
                ) by {
                    assert(lex_lt(view[i].0, view[mid as int].0));
                }
            }
            return (true, mid);
        } else {
            proof {
                lemma_lex_total(items@[mid as int].0@, key@);
                assert forall|i: int| mid <= i < items@.len() implies lex_lt(
                    key@,
                    #[trigger] items@[i].0@,
                ) by {
                    if i > mid {
                        assert(lex_lt(view[mid as int].0, view[i].0));
                        lemma_lex_transitive(key@, items@[mid as int].0@, items@[i].0@);
                    }
                }
            }
            hi = mid;
        }
    }
    (false, lo)
}

/// A key that every pair of a sorted list stands before or after is not in it.
proof fn lemma_absent(pairs: Seq<(Seq<u8>, Seq<u8>)>, at: int, key: Seq<u8>)
    requires
        0 <= at <= pairs.len(),
        forall|i: int| 0 <= i < at ==> lex_lt(#[trigger] pairs[i].0, key),
        forall|i: int| at <= i < pairs.len() ==> lex_lt(key, #[trigger] pairs[i].0),
    ensures
        !pairs_map(pairs).contains_key(key),
{
    lemma_lex_irreflexive(key);
    lemma_pairs_map_dom(pairs, key);
}

/// Two maps that agree with two sorted lists agree where the lists do.
proof fn lemma_map_by_lookup(
    pairs: Seq<(Seq<u8>, Seq<u8>)>,
    map: Map<Seq<u8>, Seq<u8>>,
)
    requires
        keys_increase(pairs),
        forall|i: int|
            0 <= i < pairs.len() ==> map.contains_key(#[trigger] pairs[i].0)
                && map[pairs[i].0] == pairs[i].1,
        forall|k: Seq<u8>| #[trigger]
            map.contains_key(k) ==> exists|i: int|
                0 <= i < pairs.len() && #[trigger] pairs[i].0 == k,
    ensures
        pairs_map(pairs) == map,
{
    let spelled = pairs_map(pairs);
    assert forall|k: Seq<u8>| spelled.contains_key(k) == map.contains_key(k) by {
        lemma_pairs_map_dom(pairs, k);
    }
    assert forall|k: Seq<u8>| spelled.contains_key(k) implies spelled[k] == map[k] by {
        lemma_pairs_map_dom(pairs, k);
        let i = choose|i: int| 0 <= i < pairs.len() && #[trigger] pairs[i].0 == k;
        lemma_pairs_map_at(pairs, i);
    }
    assert(spelled =~= map);
}

/// Sets `key` to `value` in a sorted list of pairs.
fn insert_sorted(items: &mut Vec<(Vec<u8>, Vec<u8>)>, key: &[u8], value: &[u8])
    requires
        keys_increase(pairs_view(old(items)@)),
    ensures
        keys_increase(pairs_view(final(items)@)),
        pairs_map(pairs_view(final(items)@)) == pairs_map(pairs_view(old(items)@)).insert(
            key@,
            value@,
        ),
{
    let ghost before = pairs_view(items@);
    let ghost want = pairs_map(before).insert(key@, value@);
    let (found, at) = find(items, key);
    let pair = (copy_all(key), copy_all(value));
    if found {
        items[at] = pair;
        let ghost after = pairs_view(items@);
        proof {
            assert(after =~= before.update(at as int, (key@, value@)));
            assert forall|i: int, j: int|
                #![trigger after[i], after[j]]
                0 <= i < j < after.len() implies lex_lt(after[i].0, after[j].0) by {
                assert(lex_lt(before[i].0, before[j].0));
            }
            assert forall|i: int| 0 <= i < after.len() implies want.contains_key(
                #[trigger] after[i].0,
            ) && want[after[i].0] == after[i].1 by {
                lemma_pairs_map_at(before, i);
                if i < at {
                    assert(lex_lt(before[i].0, before[at as int].0));
                    lemma_lex_irreflexive(key@);
                } else if i > at {
                    assert(lex_lt(before[at as int].0, before[i].0));
                    lemma_lex_irreflexive(key@);
                }
            }
            assert forall|k: Seq<u8>| #[trigger] want.contains_key(k) implies exists|i: int|
                0 <= i < after.len() && #[trigger] after[i].0 == k by {
                if k == key@ {
                    assert(after[at as int].0 == k);
                } else {
                    lemma_pairs_map_dom(before, k);
                    let i = choose|i: int| 0 <= i < before.len() && #[trigger] before[i].0 == k;
                    assert(after[i].0 == k);
                }
            }
            lemma_map_by_lookup(after, want);
        }
    } else {
        items.insert(at, pair);
        let ghost after = pairs_view(items@);
        proof {
            assert(after =~= before.insert(at as int, (key@, value@)));
            assert forall|i: int| 0 <= i < at implies lex_lt(#[trigger] before[i].0, key@) by {
                assert(old(items)@[i].0@ == before[i].0);
            }
            assert forall|i: int| at <= i < before.len() implies lex_lt(
                key@,
                #[trigger] before[i].0,
            ) by {
                assert(old(items)@[i].0@ == before[i].0);
            }
            assert forall|i: int, j: int|
                #![trigger after[i], after[j]]
                0 <= i < j < after.len() implies lex_lt(after[i].0, after[j].0) by {
                let a = if i < at { i } else { i - 1 };
                let b = if j < at { j } else { j - 1 };
                if i != at && j != at {
                    assert(lex_lt(before[a].0, before[b].0));
                } else if i == at {
                    assert(lex_lt(key@, before[b].0));
                } else {
                    assert(lex_lt(before[a].0, key@));
                }
            }
            lemma_absent(before, at as int, key@);
            assert forall|i: int| 0 <= i < after.len() implies want.contains_key(
                #[trigger] after[i].0,
            ) && want[after[i].0] == after[i].1 by {
                if i < at {
                    lemma_pairs_map_at(before, i);
                } else if i > at {
                    lemma_pairs_map_at(before, i - 1);
                }
            }
            assert forall|k: Seq<u8>| #[trigger] want.contains_key(k) implies exists|i: int|
                0 <= i < after.len() && #[trigger] after[i].0 == k by {
                if k == key@ {
                    assert(after[at as int].0 == k);
                } else {
                    lemma_pairs_map_dom(before, k);
                    let i = choose|i: int| 0 <= i < before.len() && #[trigger] before[i].0 == k;
                    let j = if i < at { i } else { i + 1 };
                    assert(after[j].0 == k);
                }
            }
            lemma_map_by_lookup(after, want);
        }
    }
}

/// Takes `key` out of a sorted list of pairs.
fn remove_sorted(items: &mut Vec<(Vec<u8>, Vec<u8>)>, key: &[u8])
    requires
        keys_increase(pairs_view(old(items)@)),
    ensures
        keys_increase(pairs_view(final(items)@)),
        pairs_map(pairs_view(final(items)@)) == pairs_map(pairs_view(old(items)@)).remove(key@),
{
    let ghost before = pairs_view(items@);
    let ghost want = pairs_map(before).remove(key@);
    let (found, at) = find(items, key);
    if found {
        items.remove(at);
        let ghost after = pairs_view(items@);
        proof {
            assert(after =~= before.remove(at as int));
            assert forall|i: int, j: int|
                #![trigger after[i], after[j]]
                0 <= i < j < after.len() implies lex_lt(after[i].0, after[j].0) by {
                let a = if i < at { i } else { i + 1 };
                let b = if j < at { j } else { j + 1 };
                assert(lex_lt(before[a].0, before[b].0));
            }
            assert forall|i: int| 0 <= i < after.len() implies want.contains_key(
                #[trigger] after[i].0,
            ) && want[after[i].0] == after[i].1 by {
                let a = if i < at { i } else { i + 1 };
                lemma_pairs_map_at(before, a);
                if a < at {
                    assert(lex_lt(before[a].0, before[at as int].0));
                } else {
                    assert(lex_lt(before[at as int].0, before[a].0));
                }
                lemma_lex_irreflexive(key@);
            }
            assert forall|k: Seq<u8>| #[trigger] want.contains_key(k) implies exists|i: int|
                0 <= i < after.len() && #[trigger] after[i].0 == k by {
                lemma_pairs_map_dom(before, k);
                let i = choose|i: int| 0 <= i < before.len() && #[trigger] before[i].0 == k;
                let j = if i < at { i } else { i - 1 };
                assert(after[j].0 == k);
            }
            lemma_map_by_lookup(after, want);
        }
    } else {
        proof {
            assert forall|i: int| 0 <= i < at implies lex_lt(#[trigger] before[i].0, key@) by {
                assert(items@[i].0@ == before[i].0);
            }
            assert forall|i: int| at <= i < before.len() implies lex_lt(
                key@,
                #[trigger] before[i].0,
            ) by {
                assert(items@[i].0@ == before[i].0);
            }
            lemma_absent(before, at as int, key@);
            assert(pairs_map(before).remove(key@) =~= pairs_map(before));
        }
    }
}

/// The live pairs of one store, and the writes its disk copy still owes.
#[derive(Debug)]
pub struct Engine {
    items: Vec<(Vec<u8>, Vec<u8>)>,
    writes: Vec<Write>,
    unflushed: bool,
    unpublished: bool,
}

impl View for Engine {
    type V = Map<Seq<u8>, Seq<u8>>;

    closed spec fn view(&self) -> Map<Seq<u8>, Seq<u8>> {
        pairs_map(pairs_view(self.items@))
    }
}

impl Engine {
    /// The pairs are held in key order. Every constructor establishes it and
    /// every method keeps it.
    pub closed spec fn wf(&self) -> bool {
        keys_increase(pairs_view(self.items@))
    }

    /// The writes the disk copy has not been given yet, oldest first.
    pub closed spec fn queue(&self) -> Seq<Edit> {
        edits(self.writes@)
    }

    /// Whether a write was made since the last flush.
    pub closed spec fn unflushed(&self) -> bool {
        self.unflushed
    }

    /// Whether a write was made that readers do not see yet.
    pub closed spec fn unpublished(&self) -> bool {
        self.unpublished
    }

    /// The writes that this store queued since it was `before`.
    pub open spec fn since(&self, before: &Engine) -> Seq<Edit> {
        self.queue().skip(before.queue().len() as int)
    }

    /// The store went from `before` to this by the writes it queued since, and
    /// by nothing else: they made the pairs what they are, and they alone moved
    /// the marks. Readers miss a write if they missed one before, or if one was
    /// made since.
    pub open spec fn follows(&self, before: &Engine) -> bool {
        &&& before.queue().is_prefix_of(self.queue())
        &&& self@ == replay(before@, self.since(before))
        &&& self.unpublished() == (before.unpublished() || changes_some(self.since(before)))
        &&& self.unflushed() == left_unflushed(before.unflushed(), self.since(before))
    }

    /// A store holding what its disk copy holds, with nothing owed. A later
    /// pair replaces an earlier one of the same key.
    pub fn open(pairs: &Vec<(Vec<u8>, Vec<u8>)>) -> (e: Engine)
        ensures
            e.wf(),
            e@ == pairs_map(pairs_view(pairs@)),
            e.queue() == Seq::<Edit>::empty(),
            !e.unflushed(),
            !e.unpublished(),
    {
        let mut items: Vec<(Vec<u8>, Vec<u8>)> = Vec::new();
        let mut i: usize = 0;
        let ghost all = pairs_view(pairs@);
        assert(all.take(0) =~= Seq::<(Seq<u8>, Seq<u8>)>::empty());
        assert(pairs_view(items@) =~= Seq::<(Seq<u8>, Seq<u8>)>::empty());
        while i < pairs.len()
            invariant
                i <= pairs@.len(),
                all == pairs_view(pairs@),
                keys_increase(pairs_view(items@)),
                pairs_map(pairs_view(items@)) == pairs_map(all.take(i as int)),
            decreases pairs@.len() - i,
        {
            insert_sorted(&mut items, &pairs[i].0, &pairs[i].1);
            i += 1;
            assert(all.take(i as int).drop_last() =~= all.take(i - 1));
        }
        assert(all.take(i as int) =~= all);
        let e = Engine { items, writes: Vec::new(), unflushed: false, unpublished: false };
        assert(e.queue() =~= Seq::<Edit>::empty());
        e
    }

    /// The value of `key`, if it is live.
    pub fn get(&self, key: &[u8]) -> (value: Option<Vec<u8>>)
        requires
            self.wf(),
        ensures
            match value {
                Some(v) => self@.contains_key(key@) && self@[key@] == v@,
                None => !self@.contains_key(key@),
            },
    {
        let ghost view = pairs_view(self.items@);
        let (found, at) = find(&self.items, key);
        if found {
            proof {
                assert(view[at as int].0 == key@);
                lemma_pairs_map_at(view, at as int);
            }
            Some(copy_all(&self.items[at].1))
        } else {
            proof {
                assert forall|i: int| 0 <= i < at implies lex_lt(#[trigger] view[i].0, key@) by {
                    assert(self.items@[i].0@ == view[i].0);
                }
                assert forall|i: int| at <= i < view.len() implies lex_lt(
                    key@,
                    #[trigger] view[i].0,
                ) by {
                    assert(self.items@[i].0@ == view[i].0);
                }
                lemma_absent(view, at as int, key@);
            }
            None
        }
    }

    /// Sets `key` to `value`.
    pub fn put(&mut self, key: &[u8], value: &[u8])
        requires
            old(self).wf(),
        ensures
            final(self).wf(),
            final(self)@ == old(self)@.insert(key@, value@),
            final(self).queue() == old(self).queue().push(Edit::Put(key@, value@)),
            final(self).unflushed(),
            final(self).unpublished(),
            final(self).follows(old(self)),
    {
        insert_sorted(&mut self.items, key, value);
        self.writes.push(Write::Put { key: copy_all(key), value: copy_all(value) });
        self.unflushed = true;
        self.unpublished = true;
        proof {
            assert(self.queue() =~= old(self).queue().push(Edit::Put(key@, value@)));
            lemma_follows_self(old(self));
            lemma_follows_step(old(self), old(self), self, Edit::Put(key@, value@));
        }
    }

    /// Takes `key` out.
    pub fn delete(&mut self, key: &[u8])
        requires
            old(self).wf(),
        ensures
            final(self).wf(),
            final(self)@ == old(self)@.remove(key@),
            final(self).queue() == old(self).queue().push(Edit::Delete(key@)),
            final(self).unflushed(),
            final(self).unpublished(),
            final(self).follows(old(self)),
    {
        remove_sorted(&mut self.items, key);
        self.writes.push(Write::Delete { key: copy_all(key) });
        self.unflushed = true;
        self.unpublished = true;
        proof {
            assert(self.queue() =~= old(self).queue().push(Edit::Delete(key@)));
            lemma_follows_self(old(self));
            lemma_follows_step(old(self), old(self), self, Edit::Delete(key@));
        }
    }

    /// Every live pair, in key order.
    pub fn scan(&self) -> (pairs: Vec<(Vec<u8>, Vec<u8>)>)
        requires
            self.wf(),
        ensures
            keys_increase(pairs_view(pairs@)),
            pairs_map(pairs_view(pairs@)) == self@,
    {
        let mut pairs: Vec<(Vec<u8>, Vec<u8>)> = Vec::new();
        let mut i: usize = 0;
        let ghost all = pairs_view(self.items@);
        while i < self.items.len()
            invariant
                i <= self.items@.len(),
                all == pairs_view(self.items@),
                pairs_view(pairs@) == all.take(i as int),
            decreases self.items@.len() - i,
        {
            let pair = (copy_all(&self.items[i].0), copy_all(&self.items[i].1));
            assert((pair.0@, pair.1@) == all[i as int]);
            assert(pairs_view(pairs@.push(pair)) =~= pairs_view(pairs@).push((pair.0@, pair.1@)));
            pairs.push(pair);
            i += 1;
            assert(pairs_view(pairs@) =~= all.take(i as int));
        }
        assert(all.take(i as int) =~= all);
        pairs
    }

    /// Asks for everything written so far to be made durable. Asking again
    /// with nothing written in between adds nothing.
    pub fn sync(&mut self)
        ensures
            final(self)@ == old(self)@,
            old(self).wf() ==> final(self).wf(),
            final(self).queue() == if old(self).unflushed() {
                old(self).queue().push(Edit::Flush)
            } else {
                old(self).queue()
            },
            !final(self).unflushed(),
            final(self).unpublished() == old(self).unpublished(),
            final(self).follows(old(self)),
    {
        proof {
            lemma_follows_self(old(self));
        }
        if self.unflushed {
            self.writes.push(Write::Flush);
            self.unflushed = false;
            proof {
                assert(self.queue() =~= old(self).queue().push(Edit::Flush));
                lemma_follows_step(old(self), old(self), self, Edit::Flush);
            }
        }
    }

    /// Whether a write was made that readers do not see yet.
    pub fn has_unpublished(&self) -> (r: bool)
        ensures
            r == self.unpublished(),
    {
        self.unpublished
    }

    /// Notes that readers now see every write made so far.
    pub fn published(&mut self)
        ensures
            final(self)@ == old(self)@,
            old(self).wf() ==> final(self).wf(),
            final(self).queue() == old(self).queue(),
            final(self).unflushed() == old(self).unflushed(),
            !final(self).unpublished(),
    {
        self.unpublished = false;
    }

    /// Hands over the writes that the disk copy owes, oldest first.
    pub fn take_writes(&mut self) -> (writes: Vec<Write>)
        ensures
            edits(writes@) == old(self).queue(),
            final(self)@ == old(self)@,
            old(self).wf() ==> final(self).wf(),
            final(self).queue() == Seq::<Edit>::empty(),
            final(self).unflushed() == old(self).unflushed(),
            final(self).unpublished() == old(self).unpublished(),
    {
        let mut writes: Vec<Write> = Vec::new();
        std::mem::swap(&mut writes, &mut self.writes);
        assert(self.queue() =~= Seq::<Edit>::empty());
        writes
    }
}

/// A store that did nothing follows itself.
pub proof fn lemma_follows_self(engine: &Engine)
    ensures
        engine.follows(engine),
{
    assert(engine.queue() =~= engine.queue().subrange(0, engine.queue().len() as int));
    assert(engine.since(engine) =~= Seq::<Edit>::empty());
}

/// One more queued write keeps a store following.
pub proof fn lemma_follows_step(before: &Engine, mid: &Engine, after: &Engine, edit: Edit)
    requires
        mid.follows(before),
        after.queue() == mid.queue().push(edit),
        after@ == replay_one(mid@, edit),
        after.unpublished() == (mid.unpublished() || !(edit is Flush)),
        after.unflushed() == !(edit is Flush),
    ensures
        after.follows(before),
{
    let n = before.queue().len() as int;
    assert(before.queue() =~= after.queue().subrange(0, n));
    assert(after.since(before) =~= mid.since(before).push(edit));
    assert(after.since(before).drop_last() =~= mid.since(before));
    lemma_changes_concat(mid.since(before), seq![edit]);
    assert(mid.since(before) + seq![edit] =~= after.since(before));
    assert(seq![edit][0] == edit);
}

/// Following is transitive.
pub proof fn lemma_follows_trans(before: &Engine, mid: &Engine, after: &Engine)
    requires
        mid.follows(before),
        after.follows(mid),
    ensures
        after.follows(before),
{
    let n = before.queue().len() as int;
    assert(before.queue() =~= after.queue().subrange(0, n));
    assert(after.since(before) =~= mid.since(before) + after.since(mid));
    lemma_replay_concat(before@, mid.since(before), after.since(mid));
    lemma_changes_concat(mid.since(before), after.since(mid));
    if after.since(mid).len() > 0 {
        assert(after.since(before).last() == after.since(mid).last());
    }
}

proof fn lemma_changes_concat(a: Seq<Edit>, b: Seq<Edit>)
    ensures
        changes_some(a + b) == (changes_some(a) || changes_some(b)),
{
    if changes_some(a) {
        let i = choose|i: int| 0 <= i < a.len() && !(#[trigger] a[i] is Flush);
        assert((a + b)[i] == a[i]);
    }
    if changes_some(b) {
        let i = choose|i: int| 0 <= i < b.len() && !(#[trigger] b[i] is Flush);
        assert((a + b)[a.len() + i] == b[i]);
    }
    if changes_some(a + b) {
        let i = choose|i: int| 0 <= i < (a + b).len() && !(#[trigger] (a + b)[i] is Flush);
        if i < a.len() {
            assert(a[i] == (a + b)[i]);
        } else {
            assert(b[i - a.len()] == (a + b)[i]);
        }
    }
}

proof fn lemma_replay_concat(pairs: Map<Seq<u8>, Seq<u8>>, a: Seq<Edit>, b: Seq<Edit>)
    ensures
        replay(pairs, a + b) == replay(replay(pairs, a), b),
    decreases b.len(),
{
    if b.len() == 0 {
        assert(a + b =~= a);
    } else {
        assert((a + b).drop_last() =~= a + b.drop_last());
        lemma_replay_concat(pairs, a, b.drop_last());
    }
}

/// The disk copy follows the store: if carrying out the queue leaves the disk
/// with the live pairs, then so does carrying out the queue after one more put,
/// delete or flush.
pub proof fn law_disk_follows(
    disk: Map<Seq<u8>, Seq<u8>>,
    queue: Seq<Edit>,
    live: Map<Seq<u8>, Seq<u8>>,
    key: Seq<u8>,
    value: Seq<u8>,
)
    requires
        replay(disk, queue) == live,
    ensures
        replay(disk, queue.push(Edit::Put(key, value))) == live.insert(key, value),
        replay(disk, queue.push(Edit::Delete(key))) == live.remove(key),
        replay(disk, queue.push(Edit::Flush)) == live,
{
    assert(queue.push(Edit::Put(key, value)).drop_last() =~= queue);
    assert(queue.push(Edit::Delete(key)).drop_last() =~= queue);
    assert(queue.push(Edit::Flush).drop_last() =~= queue);
}

/// What a store has on disk: what was written, and what a crash leaves of it.
#[verifier::ext_equal]
pub struct Disk {
    pub written: Map<Seq<u8>, Seq<u8>>,
    pub durable: Map<Seq<u8>, Seq<u8>>,
}

/// A disk once some edits are carried out: a flush makes durable what was
/// written before it.
pub open spec fn carried_out(disk: Disk, queue: Seq<Edit>) -> Disk
    decreases queue.len(),
{
    if queue.len() == 0 {
        disk
    } else {
        let before = carried_out(disk, queue.drop_last());
        match queue.last() {
            Edit::Flush => Disk { durable: before.written, ..before },
            edit => Disk { written: replay_one(before.written, edit), ..before },
        }
    }
}

/// A disk is in step with its store: what the store owes it, carried out,
/// leaves it with the live pairs, and they are durable unless the store says
/// that it has some unflushed.
pub open spec fn in_step(disk: Disk, engine: Engine) -> bool {
    let then = carried_out(disk, engine.queue());
    &&& then.written == engine@
    &&& !engine.unflushed() ==> then.durable == engine@
}

proof fn lemma_carried_concat(disk: Disk, a: Seq<Edit>, b: Seq<Edit>)
    ensures
        carried_out(disk, a + b) == carried_out(carried_out(disk, a), b),
    decreases b.len(),
{
    if b.len() == 0 {
        assert(a + b =~= a);
    } else {
        assert((a + b).drop_last() =~= a + b.drop_last());
        lemma_carried_concat(disk, a, b.drop_last());
    }
}

proof fn lemma_carried_on(
    disk: Disk,
    live: Map<Seq<u8>, Seq<u8>>,
    before: bool,
    queue: Seq<Edit>,
)
    requires
        disk.written == live,
        !before ==> disk.durable == live,
    ensures
        carried_out(disk, queue).written == replay(live, queue),
        !left_unflushed(before, queue) ==> carried_out(disk, queue).durable == replay(live, queue),
    decreases queue.len(),
{
    if queue.len() > 0 {
        lemma_carried_on(disk, live, before, queue.drop_last());
    }
}

/// A disk stays in step: through everything that the store writes, flushes
/// included, and when it carries out what the store hands over.
pub proof fn law_a_disk_stays_in_step(disk: Disk, before: Engine, after: Engine)
    requires
        in_step(disk, before),
    ensures
        after.follows(&before) ==> in_step(disk, after),
        after.queue() == Seq::<Edit>::empty() && after@ == before@ && after.unflushed()
            == before.unflushed() ==> in_step(carried_out(disk, before.queue()), after),
{
    if after.follows(&before) {
        let then = carried_out(disk, before.queue());
        let more = after.since(&before);
        assert(after.queue() =~= before.queue() + more);
        lemma_carried_concat(disk, before.queue(), more);
        lemma_carried_on(then, before@, before.unflushed(), more);
    }
}

/// Readers see the store: `seen` is what they read, and it is what the store
/// holds unless the store says that it has a write they do not see yet.
pub open spec fn shown(seen: Map<Seq<u8>, Seq<u8>>, engine: Engine) -> bool {
    !engine.unpublished() ==> seen == engine@
}

/// A store that was just opened, and owes nothing, is in step with the disk that
/// it was opened from, and readers of that disk see it.
pub proof fn law_an_opened_store_is_in_step(engine: Engine)
    requires
        engine.queue() == Seq::<Edit>::empty(),
    ensures
        in_step((Disk { written: engine@, durable: engine@ }), engine),
        shown(engine@, engine),
{
}

proof fn lemma_replay_nothing(pairs: Map<Seq<u8>, Seq<u8>>, queue: Seq<Edit>)
    requires
        !changes_some(queue),
    ensures
        replay(pairs, queue) == pairs,
    decreases queue.len(),
{
    if queue.len() > 0 {
        let head = queue.drop_last();
        assert forall|i: int| 0 <= i < head.len() implies #[trigger] head[i] is Flush by {
            assert(queue[i] == head[i]);
        }
        lemma_replay_nothing(pairs, head);
        assert(queue[queue.len() - 1] is Flush);
    }
}

/// A store never takes readers to see what they do not: whatever it writes, it
/// notes that readers miss it, and a store that wrote nothing that readers miss
/// still holds what they see.
pub proof fn law_readers_see_what_is_published(
    seen: Map<Seq<u8>, Seq<u8>>,
    before: Engine,
    after: Engine,
)
    requires
        shown(seen, before),
        after.follows(&before),
    ensures
        shown(seen, after),
{
    if !after.unpublished() {
        lemma_replay_nothing(before@, after.since(&before));
    }
}

/// A write is seen as what it does, and writes in the order they were made.
pub proof fn law_writes_are_seen_in_order(writes: Seq<Write>, i: int)
    requires
        0 <= i < writes.len(),
    ensures
        edits(writes).len() == writes.len(),
        match writes[i] {
            Write::Put { key, value } => edits(writes)[i] == Edit::Put(key@, value@),
            Write::Delete { key } => edits(writes)[i] == Edit::Delete(key@),
            Write::Flush => edits(writes)[i] == Edit::Flush,
        },
{
}

/// A list of pairs spells what its keys are given last, and nothing else.
pub proof fn law_the_last_pair_of_a_key_counts(
    pairs: Seq<(Vec<u8>, Vec<u8>)>,
    key: Seq<u8>,
    i: int,
)
    ensures
        pairs_view(pairs).len() == pairs.len(),
        0 <= i < pairs.len() ==> pairs_view(pairs)[i] == (pairs[i].0@, pairs[i].1@),
        pairs_map(pairs_view(pairs)).contains_key(key) <==> exists|j: int|
            0 <= j < pairs.len() && (#[trigger] pairs[j]).0@ == key,
        0 <= i < pairs.len() && pairs[i].0@ == key && (forall|j: int|
            i < j < pairs.len() ==> (#[trigger] pairs[j]).0@ != key) ==> pairs_map(
            pairs_view(pairs),
        )[key] == pairs[i].1@,
    decreases pairs.len(),
{
    let views = pairs_view(pairs);
    lemma_pairs_map_dom(views, key);
    if pairs_map(views).contains_key(key) {
        let j = choose|j: int| 0 <= j < views.len() && #[trigger] views[j].0 == key;
        assert(pairs[j].0@ == key);
    }
    if exists|j: int| 0 <= j < pairs.len() && (#[trigger] pairs[j]).0@ == key {
        let j = choose|j: int| 0 <= j < pairs.len() && (#[trigger] pairs[j]).0@ == key;
        assert(views[j].0 == key);
    }
    if pairs.len() > 0 {
        let head = pairs.drop_last();
        law_the_last_pair_of_a_key_counts(head, key, i);
        assert(views.drop_last() =~= pairs_view(head));
        assert(pairs[pairs.len() - 1] == pairs.last());
        if 0 <= i < head.len() && pairs[i].0@ == key && (forall|j: int|
            i < j < pairs.len() ==> (#[trigger] pairs[j]).0@ != key) {
            assert(pairs[pairs.len() - 1].0@ != key);
            assert forall|j: int| i < j < head.len() implies (#[trigger] head[j]).0@ != key by {
                assert(pairs[j].0@ != key);
            }
            assert(head[i] == pairs[i]);
        }
    }
}

/// What is put is read, what is deleted is not, and no other key moves; the disk
/// copy owes that very write, and readers have not seen it.
pub proof fn law_a_write_is_read_back(
    before: Engine,
    put: Engine,
    deleted: Engine,
    key: &[u8],
    value: &[u8],
    u: ((), ()),
    found: Option<Vec<u8>>,
    gone: Option<Vec<u8>>,
    other: Seq<u8>,
)
    requires
        before.wf(),
        put.wf(),
        deleted.wf(),
        exists|e: &mut Engine| #[trigger]
            call_ensures(Engine::put, (e, key, value), u.0) && *e == before && *final(e) == put,
        exists|e: &mut Engine| #[trigger]
            call_ensures(Engine::delete, (e, key), u.1) && *e == before && *final(e) == deleted,
        call_ensures(Engine::get, (&put, key), found),
        call_ensures(Engine::get, (&deleted, key), gone),
    ensures
        found matches Some(v) && v@ == value@,
        gone is None,
        other != key@ ==> put@.contains_key(other) == before@.contains_key(other) && put@[other]
            == before@[other] && deleted@.contains_key(other) == before@.contains_key(other)
            && deleted@[other] == before@[other],
        put.queue() == before.queue().push(Edit::Put(key@, value@)),
        deleted.queue() == before.queue().push(Edit::Delete(key@)),
        put.unflushed() && put.unpublished(),
        deleted.unflushed() && deleted.unpublished(),
{
}

/// A store is opened with what its disk copy holds, owing nothing, and lists all
/// of it in key order.
pub proof fn law_a_store_lists_what_it_holds(
    pairs: &Vec<(Vec<u8>, Vec<u8>)>,
    opened: Engine,
    engine: &Engine,
    listed: Vec<(Vec<u8>, Vec<u8>)>,
    key: Seq<u8>,
    i: int,
    j: int,
)
    requires
        call_ensures(Engine::open, (pairs,), opened),
        engine.wf(),
        call_ensures(Engine::scan, (engine,), listed),
    ensures
        opened@.contains_key(key) <==> exists|k: int|
            0 <= k < pairs@.len() && (#[trigger] pairs@[k]).0@ == key,
        opened.queue().len() == 0 && !opened.unflushed() && !opened.unpublished(),
        engine@.contains_key(key) <==> exists|k: int|
            0 <= k < listed@.len() && (#[trigger] listed@[k]).0@ == key,
        0 <= i < j < listed@.len() ==> lex_lt(listed@[i].0@, listed@[j].0@),
        0 <= i < listed@.len() ==> engine@[listed@[i].0@] == listed@[i].1@,
{
    law_the_last_pair_of_a_key_counts(pairs@, key, i);
    law_the_last_pair_of_a_key_counts(listed@, key, i);
    let views = pairs_view(listed@);
    if 0 <= i < listed@.len() {
        lemma_pairs_map_at(views, i);
        assert(views[i] == (listed@[i].0@, listed@[i].1@));
        if i < j < listed@.len() {
            assert(views[j] == (listed@[j].0@, listed@[j].1@));
            assert(lex_lt(views[i].0, views[j].0));
        }
    }
}

/// Asking for the disk adds one flush exactly where something was written since
/// the last; handing the writes over empties the queue; and neither moves a pair.
pub proof fn law_a_flush_is_asked_for_once(
    before: Engine,
    synced: Engine,
    drained: Engine,
    shown_again: Engine,
    u: ((), ()),
    writes: Vec<Write>,
)
    requires
        exists|e: &mut Engine| #[trigger]
            call_ensures(Engine::sync, (e,), u.0) && *e == before && *final(e) == synced,
        exists|e: &mut Engine| #[trigger]
            call_ensures(Engine::take_writes, (e,), writes) && *e == synced && *final(e) == drained,
        exists|e: &mut Engine| #[trigger]
            call_ensures(Engine::published, (e,), u.1) && *e == drained && *final(e) == shown_again,
    ensures
        synced@ == before@ && drained@ == before@ && shown_again@ == before@,
        before.unflushed() ==> edits(writes@) == before.queue().push(Edit::Flush),
        !before.unflushed() ==> edits(writes@) == before.queue(),
        !synced.unflushed() && !drained.unflushed(),
        drained.queue().len() == 0,
        drained.unpublished() == before.unpublished(),
        !shown_again.unpublished(),
{
}

/// Only a flush makes anything durable, and then all that was written; any other
/// edit is written and waits.
pub proof fn law_only_a_flush_makes_durable(disk: Disk, queue: Seq<Edit>, edit: Edit)
    ensures
        ({
            let before = carried_out(disk, queue);
            let after = carried_out(disk, queue.push(edit));
            &&& edit is Flush ==> after.durable == before.written && after.written == before.written
            &&& !(edit is Flush) ==> after.durable == before.durable
            &&& edit matches Edit::Put(key, value) ==> after.written == before.written.insert(
                key,
                value,
            )
            &&& edit matches Edit::Delete(key) ==> after.written == before.written.remove(key)
        }),
        carried_out(disk, Seq::empty()) == disk,
{
    assert(queue.push(edit).drop_last() =~= queue);
}

/// What it means to be in step: once the disk copy carried out what it is owed it
/// holds what the store holds, and durably so where nothing waits for a flush;
/// and readers see the store where nothing is left to show them.
pub proof fn law_being_in_step(disk: Disk, engine: Engine, seen: Map<Seq<u8>, Seq<u8>>)
    ensures
        in_step(disk, engine) <==> carried_out(disk, engine.queue()).written == engine@ && (
        engine.unflushed() || carried_out(disk, engine.queue()).durable == engine@),
        shown(seen, engine) <==> engine.unpublished() || seen == engine@,
{
}

/// A store that follows another is it with further writes: all it was owed comes
/// first, the pairs are what the further writes make them, and a write among
/// them is neither shown nor flushed unless a flush came last.
pub proof fn law_following_is_by_further_writes(before: &Engine, after: &Engine, i: int)
    requires
        after.follows(before),
    ensures
        before.queue().len() <= after.queue().len(),
        0 <= i < before.queue().len() ==> after.queue()[i] == before.queue()[i],
        after.queue().len() == before.queue().len() ==> after@ == before@ && after.unflushed()
            == before.unflushed() && after.unpublished() == before.unpublished(),
        after.queue().len() == before.queue().len() + 1 ==> (match after.queue().last() {
            Edit::Put(key, value) => after@ == before@.insert(key, value) && after.unpublished()
                && after.unflushed(),
            Edit::Delete(key) => after@ == before@.remove(key) && after.unpublished()
                && after.unflushed(),
            Edit::Flush => after@ == before@ && after.unpublished() == before.unpublished()
                && !after.unflushed(),
        }),
{
    let since = after.since(before);
    if after.queue().len() == before.queue().len() + 1 {
        assert(since =~= seq![after.queue().last()]);
        assert(since.drop_last() =~= Seq::<Edit>::empty());
        reveal_with_fuel(replay, 2);
        assert(since[0] == after.queue().last());
    }
    if 0 <= i < before.queue().len() {
        assert(after.queue().subrange(0, before.queue().len() as int)[i] == after.queue()[i]);
    }
}

} // verus!
