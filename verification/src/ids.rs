//! Sets and maps keyed by node ids, log indexes and shard numbers, listed in
//! order.

use std::collections::{BTreeMap, BTreeSet};

use vstd::prelude::*;

verus! {

broadcast use {
    vstd::std_specs::btree::group_btree_axioms,
    vstd::laws_cmp::group_laws_cmp,
};

/// The ids stand in strictly increasing order.
pub open spec fn increasing(ids: Seq<u64>) -> bool {
    forall|i: int, j: int| 0 <= i < j < ids.len() ==> ids[i] < ids[j]
}

/// The members of a set, in increasing order.
pub open spec fn in_order(set: Set<u64>) -> Seq<u64> {
    choose|ids: Seq<u64>| increasing(ids) && ids.to_set() == set
}

/// A set has one listing in increasing order.
pub proof fn lemma_increasing_unique(a: Seq<u64>, b: Seq<u64>)
    requires
        increasing(a),
        increasing(b),
        a.to_set() == b.to_set(),
    ensures
        a == b,
    decreases a.len(),
{
    if a.len() == 0 {
        if b.len() > 0 {
            assert(b.to_set().contains(b[0]));
            assert(a.to_set().contains(b[0]));
        }
        assert(a =~= b);
    } else {
        assert(a.to_set().contains(a.last()));
        assert(b.to_set().contains(a.last()));
        assert(b.len() > 0);
        assert(b.to_set().contains(b.last()));
        assert(a.to_set().contains(b.last()));
        let i = choose|i: int| 0 <= i < a.len() && a[i] == b.last();
        let j = choose|j: int| 0 <= j < b.len() && b[j] == a.last();
        assert(a.last() == b.last());
        let x = a.drop_last();
        let y = b.drop_last();
        assert(x.to_set() =~= a.to_set().remove(a.last())) by {
            assert forall|k: u64| x.to_set().contains(k) == a.to_set().remove(
                a.last(),
            ).contains(k) by {
                if x.contains(k) {
                    let m = choose|m: int| 0 <= m < x.len() && x[m] == k;
                    assert(a[m] == k);
                }
                if a.contains(k) && k != a.last() {
                    let m = choose|m: int| 0 <= m < a.len() && a[m] == k;
                    assert(x[m] == k);
                }
            }
        }
        assert(y.to_set() =~= b.to_set().remove(b.last())) by {
            assert forall|k: u64| y.to_set().contains(k) == b.to_set().remove(
                b.last(),
            ).contains(k) by {
                if y.contains(k) {
                    let m = choose|m: int| 0 <= m < y.len() && y[m] == k;
                    assert(b[m] == k);
                }
                if b.contains(k) && k != b.last() {
                    let m = choose|m: int| 0 <= m < b.len() && b[m] == k;
                    assert(y[m] == k);
                }
            }
        }
        lemma_increasing_unique(x, y);
        assert(a =~= x.push(a.last()));
        assert(b =~= y.push(b.last()));
    }
}

/// A listing in increasing order is the one that `in_order` names.
pub proof fn lemma_in_order(ids: Seq<u64>, set: Set<u64>)
    requires
        increasing(ids),
        ids.to_set() == set,
    ensures
        in_order(set) == ids,
{
    let named = in_order(set);
    lemma_increasing_unique(named, ids);
}

spec fn insert_id(ids: Seq<u64>, id: u64) -> Seq<u64>
    decreases ids.len(),
{
    if ids.len() == 0 || ids.last() < id {
        ids.push(id)
    } else {
        insert_id(ids.drop_last(), id).push(ids.last())
    }
}

proof fn lemma_insert_id(ids: Seq<u64>, id: u64)
    requires
        increasing(ids),
        !ids.contains(id),
    ensures
        increasing(insert_id(ids, id)),
        forall|k: u64|
            #![trigger insert_id(ids, id).contains(k)]
            #![trigger ids.contains(k)]
            insert_id(ids, id).contains(k) <==> k == id || ids.contains(k),
        insert_id(ids, id).len() == ids.len() + 1,
    decreases ids.len(),
{
    let out = insert_id(ids, id);
    if ids.len() == 0 || ids.last() < id {
        assert forall|k: u64| out.contains(k) <==> k == id || ids.contains(k) by {
            if ids.contains(k) {
                let i = choose|i: int| 0 <= i < ids.len() && ids[i] == k;
                assert(out[i] == k);
            }
            assert(out[ids.len() as int] == id);
            if out.contains(k) && k != id {
                let i = choose|i: int| 0 <= i < out.len() && out[i] == k;
                assert(ids[i] == k);
            }
        }
    } else {
        let head = ids.drop_last();
        let last = ids.last();
        assert(ids[ids.len() - 1] == last);
        assert(id < last);
        assert(!head.contains(id)) by {
            if head.contains(id) {
                let i = choose|i: int| 0 <= i < head.len() && head[i] == id;
                assert(ids[i] == id);
            }
        }
        lemma_insert_id(head, id);
        let inner = insert_id(head, id);
        assert forall|i: int, j: int| 0 <= i < j < out.len() implies out[i] < out[j] by {
            if j == inner.len() {
                assert(inner.contains(inner[i]));
                if inner[i] != id {
                    assert(head.contains(inner[i]));
                    let m = choose|m: int| 0 <= m < head.len() && head[m] == inner[i];
                    assert(ids[m] < ids[ids.len() - 1]);
                }
            }
        }
        assert forall|k: u64| out.contains(k) <==> k == id || ids.contains(k) by {
            if ids.contains(k) {
                let i = choose|i: int| 0 <= i < ids.len() && ids[i] == k;
                if i < head.len() {
                    assert(head[i] == k);
                    assert(inner.contains(k));
                    let m = choose|m: int| 0 <= m < inner.len() && inner[m] == k;
                    assert(out[m] == k);
                } else {
                    assert(out[inner.len() as int] == k);
                }
            }
            if k == id {
                assert(inner.contains(k));
                let m = choose|m: int| 0 <= m < inner.len() && inner[m] == k;
                assert(out[m] == k);
            }
            if out.contains(k) {
                let m = choose|m: int| 0 <= m < out.len() && out[m] == k;
                if m < inner.len() {
                    assert(inner.contains(k));
                    if k != id {
                        let i = choose|i: int| 0 <= i < head.len() && head[i] == k;
                        assert(ids[i] == k);
                    }
                }
            }
        }
    }
}

/// Every finite set has a listing in increasing order.
pub proof fn lemma_in_order_exists(set: Set<u64>)
    requires
        set.finite(),
    ensures
        increasing(in_order(set)),
        in_order(set).to_set() == set,
        in_order(set).len() == set.len(),
    decreases set.len(),
{
    if set.len() == 0 {
        let none = Seq::<u64>::empty();
        assert(none.to_set() =~= set);
        lemma_in_order(none, set);
    } else {
        let id = set.choose();
        let rest = set.remove(id);
        lemma_in_order_exists(rest);
        let ids = in_order(rest);
        assert(!ids.contains(id)) by {
            assert(!ids.to_set().contains(id));
        }
        lemma_insert_id(ids, id);
        let out = insert_id(ids, id);
        assert forall|k: u64| out.to_set().contains(k) == set.contains(k) by {
            assert(ids.to_set().contains(k) == rest.contains(k));
        }
        assert(out.to_set() =~= set);
        lemma_in_order(out, set);
    }
}

/// The set of one more of a list's items has one more member.
pub proof fn lemma_take_to_set<T>(items: Seq<T>, n: int)
    requires
        0 <= n < items.len(),
    ensures
        items.take(n + 1).to_set() == items.take(n).to_set().insert(items[n]),
{
    let longer = items.take(n + 1);
    let shorter = items.take(n);
    assert forall|k: T| longer.contains(k) == (shorter.contains(k) || k == items[n]) by {
        if longer.contains(k) {
            let j = choose|j: int| 0 <= j < longer.len() && longer[j] == k;
            if j < n {
                assert(shorter[j] == k);
            }
        }
        if shorter.contains(k) {
            let j = choose|j: int| 0 <= j < shorter.len() && shorter[j] == k;
            assert(longer[j] == k);
        }
        assert(longer[n] == items[n]);
    }
    assert(longer.to_set() =~= shorter.to_set().insert(items[n]));
}

/// The keys of a map, in increasing order.
pub fn keys_of<V>(map: &BTreeMap<u64, V>) -> (ids: Vec<u64>)
    ensures
        ids@ == in_order(map@.dom()),
        increasing(ids@),
        ids@.to_set() == map@.dom(),
{
    let mut ids: Vec<u64> = Vec::new();
    let items = map.iter();
    let ghost all = vstd::std_specs::iter::IteratorSpec::remaining(&items);
    let ghost keys = all.map_values(|kv: (&u64, &V)| *kv.0);
    assert(vstd::std_specs::btree::increasing_seq(keys));
    for item in it: items
        invariant
            it.seq() == all,
            ids@ == keys.take(it.index()),
            keys == all.map_values(|kv: (&u64, &V)| *kv.0),
    {
        ids.push(*item.0);
        assert(ids@ =~= keys.take(it.index() + 1));
    }
    assert(ids@ =~= keys);
    proof {
        assert forall|i: int, j: int| 0 <= i < j < keys.len() implies keys[i] < keys[j] by {
            assert(vstd::std_specs::cmp::OrdSpec::cmp_spec(&keys[i], &keys[j]) is Less);
        }
        assert forall|k: u64| ids@.to_set().contains(k) == map@.dom().contains(k) by {
            if ids@.contains(k) {
                let i = choose|i: int| 0 <= i < ids@.len() && ids@[i] == k;
                assert(map@.contains_key(*all[i].0));
            }
            if map@.contains_key(k) {
                assert(all.contains((&k, &map@[k])));
                let i = choose|i: int| 0 <= i < all.len() && all[i] == (&k, &map@[k]);
                assert(ids@[i] == k);
            }
        }
        assert(ids@.to_set() =~= map@.dom());
        lemma_in_order(ids@, map@.dom());
    }
    ids
}

/// Those of `ids` that `pick` takes, in their order.
pub open spec fn picked(ids: Seq<u64>, pick: spec_fn(u64) -> bool) -> Seq<u64>
    decreases ids.len(),
{
    if ids.len() == 0 {
        Seq::empty()
    } else {
        let before = picked(ids.drop_last(), pick);
        if pick(ids.last()) {
            before.push(ids.last())
        } else {
            before
        }
    }
}

/// What is picked from ids in increasing order is in increasing order, and is
/// what the ids and `pick` both hold.
proof fn lemma_picked(ids: Seq<u64>, pick: spec_fn(u64) -> bool)
    requires
        increasing(ids),
    ensures
        increasing(picked(ids, pick)),
        forall|k: u64|
            #![trigger picked(ids, pick).contains(k)]
            picked(ids, pick).contains(k) <==> ids.contains(k) && pick(k),
    decreases ids.len(),
{
    let out = picked(ids, pick);
    if ids.len() > 0 {
        let head = ids.drop_last();
        let last = ids.last();
        lemma_picked(head, pick);
        let inner = picked(head, pick);
        assert forall|k: u64| out.contains(k) <==> ids.contains(k) && pick(k) by {
            if out.contains(k) {
                let m = choose|m: int| 0 <= m < out.len() && out[m] == k;
                if m < inner.len() {
                    assert(inner.contains(k)) by {
                        assert(inner[m] == k);
                    }
                    let i = choose|i: int| 0 <= i < head.len() && head[i] == k;
                    assert(ids[i] == k);
                } else {
                    assert(ids[ids.len() - 1] == k);
                }
            }
            if ids.contains(k) && pick(k) {
                let i = choose|i: int| 0 <= i < ids.len() && ids[i] == k;
                if i < head.len() {
                    assert(head[i] == k);
                    assert(inner.contains(k));
                    let m = choose|m: int| 0 <= m < inner.len() && inner[m] == k;
                    assert(out[m] == k);
                } else {
                    assert(out[inner.len() as int] == k);
                }
            }
        }
        if pick(last) {
            assert forall|i: int, j: int| 0 <= i < j < out.len() implies out[i] < out[j] by {
                if j == inner.len() {
                    assert(inner.contains(inner[i]));
                    let m = choose|m: int| 0 <= m < head.len() && head[m] == inner[i];
                    assert(ids[m] < ids[ids.len() - 1]);
                } else {
                    assert(inner[i] < inner[j]);
                }
            }
        }
    }
}

/// Picking from a set's listing lists what is picked from the set.
pub proof fn lemma_picked_in_order(ids: Seq<u64>, set: Set<u64>, pick: spec_fn(u64) -> bool)
    requires
        increasing(ids),
        ids.to_set() == set,
    ensures
        picked(ids, pick) == in_order(set.filter(pick)),
        increasing(picked(ids, pick)),
        picked(ids, pick).to_set() == set.filter(pick),
{
    let out = picked(ids, pick);
    lemma_picked(ids, pick);
    assert forall|k: u64| out.to_set().contains(k) == set.filter(pick).contains(k) by {
        assert(out.contains(k) <==> ids.contains(k) && pick(k));
        assert(ids.to_set().contains(k) == set.contains(k));
    }
    assert(out.to_set() =~= set.filter(pick));
    lemma_in_order(out, set.filter(pick));
}

/// Takes what stands under each of `keys` out of a map, in the keys' order.
pub fn take_keys<V>(map: &mut BTreeMap<u64, V>, keys: &Vec<u64>) -> (taken: Vec<V>)
    requires
        increasing(keys@),
        keys@.to_set().subset_of(old(map)@.dom()),
    ensures
        taken@ == keys@.map_values(|k: u64| old(map)@[k]),
        final(map)@ == old(map)@.remove_keys(keys@.to_set()),
{
    let mut taken: Vec<V> = Vec::new();
    let ghost before = map@;
    let mut i: usize = 0;
    assert(before.remove_keys(keys@.take(0).to_set()) =~= before);
    while i < keys.len()
        invariant
            i <= keys@.len(),
            increasing(keys@),
            before == old(map)@,
            keys@.to_set().subset_of(before.dom()),
            taken@ == keys@.take(i as int).map_values(|k: u64| before[k]),
            map@ == before.remove_keys(keys@.take(i as int).to_set()),
        decreases keys@.len() - i,
    {
        let key: u64 = keys[i];
        proof {
            assert(keys@.to_set().contains(key));
            assert(!keys@.take(i as int).contains(key)) by {
                if keys@.take(i as int).contains(key) {
                    let j = choose|j: int| 0 <= j < i && keys@.take(i as int)[j] == key;
                    assert(keys@[j] < keys@[i as int]);
                }
            }
            assert(map@.contains_key(key));
        }
        match map.remove(&key) {
            Some(value) => {
                taken.push(value);
            },
            None => {},
        }
        i += 1;
        proof {
            lemma_take_to_set(keys@, i - 1);
            assert(map@ =~= before.remove_keys(keys@.take(i as int).to_set()));
            assert(taken@ =~= keys@.take(i as int).map_values(|k: u64| before[k]));
        }
    }
    assert(keys@.take(i as int) =~= keys@);
    taken
}

/// References to ids are ordered as the ids are.
proof fn lemma_references_are_ordered()
    ensures
        vstd::laws_cmp::obeys_cmp::<&u64>(),
        vstd::laws_cmp::obeys_cmp::<&u16>(),
{
    broadcast use vstd::laws_eq::group_laws_eq;

    reveal(vstd::laws_eq::obeys_eq_spec_properties);
    reveal(vstd::laws_cmp::obeys_partial_cmp_spec_properties);
    reveal(vstd::laws_cmp::obeys_cmp_partial_ord);
    reveal(vstd::laws_cmp::obeys_cmp_ord);
    assert(vstd::laws_eq::obeys_eq::<&u64>());
    assert(vstd::laws_eq::obeys_eq::<&u16>());
}

/// The members of a set of ids, in increasing order.
pub fn members_of(set: &BTreeSet<u64>) -> (ids: Vec<u64>)
    ensures
        ids@ == in_order(set@),
        increasing(ids@),
        ids@.to_set() == set@,
{
    let mut ids: Vec<u64> = Vec::new();
    let items = set.iter();
    let ghost all = vstd::std_specs::iter::IteratorSpec::remaining(&items);
    assert(vstd::std_specs::btree::increasing_seq(all));
    for item in it: items
        invariant
            it.seq() == all,
            ids@ == all.take(it.index()).unref(),
    {
        ids.push(*item);
        assert(ids@ =~= all.take(it.index() + 1).unref());
    }
    assert(ids@ =~= all.unref());
    proof {
        lemma_references_are_ordered();
        assert forall|i: int, j: int| 0 <= i < j < ids@.len() implies ids@[i] < ids@[j] by {
            assert(vstd::std_specs::cmp::OrdSpec::cmp_spec(&all[i], &all[j]) is Less);
        }
        lemma_in_order(ids@, set@);
    }
    ids
}

/// The shard numbers stand in strictly increasing order.
pub open spec fn shards_increasing(shards: Seq<u16>) -> bool {
    forall|i: int, j: int| 0 <= i < j < shards.len() ==> shards[i] < shards[j]
}

/// The members of a set of shards, in increasing order.
pub fn shards_in(set: &BTreeSet<u16>) -> (shards: Vec<u16>)
    ensures
        shards_increasing(shards@),
        shards@.to_set() == set@,
{
    let mut shards: Vec<u16> = Vec::new();
    let items = set.iter();
    let ghost all = vstd::std_specs::iter::IteratorSpec::remaining(&items);
    assert(vstd::std_specs::btree::increasing_seq(all));
    for item in it: items
        invariant
            it.seq() == all,
            shards@ == all.take(it.index()).unref(),
    {
        shards.push(*item);
        assert(shards@ =~= all.take(it.index() + 1).unref());
    }
    assert(shards@ =~= all.unref());
    proof {
        lemma_references_are_ordered();
        assert forall|i: int, j: int| 0 <= i < j < shards@.len() implies shards@[i]
            < shards@[j] by {
            assert(vstd::std_specs::cmp::OrdSpec::cmp_spec(&all[i], &all[j]) is Less);
        }
    }
    shards
}

/// A set is listed by increasing id: every member once, and nobody else.
pub proof fn law_a_set_is_listed_in_order(set: Set<u64>, i: int, j: int, id: u64)
    requires
        set.finite(),
    ensures
        0 <= i < j < in_order(set).len() ==> in_order(set)[i] < in_order(set)[j],
        in_order(set).contains(id) <==> set.contains(id),
        in_order(set).len() == set.len(),
{
    lemma_in_order_exists(set);
    assert(in_order(set).to_set().contains(id) <==> set.contains(id));
}

/// A list in increasing order has each number before every greater one.
pub proof fn law_increasing_lists(ids: Seq<u64>, shards: Seq<u16>, i: int, j: int)
    ensures
        increasing(ids) && 0 <= i < j < ids.len() ==> ids[i] < ids[j],
        shards_increasing(shards) && 0 <= i < j < shards.len() ==> shards[i] < shards[j],
{
}

/// Keys and members are listed by increasing id, each once; what is taken out of
/// a map is what its keys held, in order, and nothing else goes.
pub proof fn law_what_is_listed_and_taken<V>(
    map: &BTreeMap<u64, V>,
    keys: Vec<u64>,
    set: &BTreeSet<u64>,
    members: Vec<u64>,
    shards: &BTreeSet<u16>,
    listed: Vec<u16>,
    id: u64,
    shard: u16,
    i: int,
    j: int,
)
    requires
        call_ensures(keys_of::<V>, (map,), keys),
        call_ensures(members_of, (set,), members),
        call_ensures(shards_in, (shards,), listed),
    ensures
        keys@.contains(id) <==> map@.contains_key(id),
        0 <= i < j < keys@.len() ==> keys@[i] < keys@[j],
        members@.contains(id) <==> set@.contains(id),
        0 <= i < j < members@.len() ==> members@[i] < members@[j],
        listed@.contains(shard) <==> shards@.contains(shard),
        0 <= i < j < listed@.len() ==> listed@[i] < listed@[j],
{
    assert(keys@.to_set().contains(id) <==> keys@.contains(id));
    assert(members@.to_set().contains(id) <==> members@.contains(id));
    assert(listed@.to_set().contains(shard) <==> listed@.contains(shard));
}

} // verus!
