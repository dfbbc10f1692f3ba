//! The mathematical model of a map that is stored as a list of pairs.

use vstd::prelude::*;

verus! {

/// A key of the model: the bytes of a name.
pub type Key = Seq<u8>;

/// The map that results from inserting the pairs of `items` one after the
/// other into the empty map. Where a key occurs more than once, the last
/// pair wins.
pub open spec fn assoc_map<V>(items: Seq<(Key, V)>) -> Map<Key, V>
    decreases items.len(),
{
    if items.len() == 0 {
        Map::empty()
    } else {
        assoc_map(items.drop_last()).insert(items.last().0, items.last().1)
    }
}

/// No key occurs twice in `items`.
pub open spec fn distinct_keys<V>(items: Seq<(Key, V)>) -> bool {
    forall|i: int, j: int| 0 <= i < j < items.len() ==> items[i].0 != items[j].0
}

/// Some pair of `items` has the key `k`.
pub open spec fn has_key<V>(items: Seq<(Key, V)>, k: Key) -> bool {
    exists|i: int| 0 <= i < items.len() && #[trigger] items[i].0 == k
}

/// The map of a list has exactly the keys of the list, and is finite.
pub proof fn lemma_assoc_dom<V>(items: Seq<(Key, V)>)
    ensures
        assoc_map(items).dom().finite(),
        forall|k: Key| #[trigger] assoc_map(items).contains_key(k) <==> has_key(items, k),
    decreases items.len(),
{
    if items.len() > 0 {
        let front = items.drop_last();
        lemma_assoc_dom(front);
        assert forall|k: Key| #[trigger]
            assoc_map(items).contains_key(k) <==> has_key(items, k) by {
            if has_key(front, k) {
                let i = choose|i: int| 0 <= i < front.len() && #[trigger] front[i].0 == k;
                assert(items[i].0 == k);
            }
            if has_key(items, k) {
                let i = choose|i: int| 0 <= i < items.len() && #[trigger] items[i].0 == k;
                if i < front.len() {
                    assert(front[i].0 == k);
                }
            }
            if k == items.last().0 {
                assert(items[items.len() - 1].0 == k);
            }
        }
    }
}

/// Where no key occurs twice, the map sends the key of each pair to the
/// value of that pair.
pub proof fn lemma_assoc_index<V>(items: Seq<(Key, V)>, i: int)
    requires
        distinct_keys(items),
        0 <= i < items.len(),
    ensures
        assoc_map(items).contains_key(items[i].0),
        assoc_map(items)[items[i].0] == items[i].1,
    decreases items.len(),
{
    if i < items.len() - 1 {
        lemma_assoc_index(items.drop_last(), i);
    }
}

/// Where no key occurs twice, the map has as many keys as the list has pairs.
pub proof fn lemma_assoc_len<V>(items: Seq<(Key, V)>)
    requires
        distinct_keys(items),
    ensures
        assoc_map(items).dom().finite(),
        assoc_map(items).len() == items.len(),
    decreases items.len(),
{
    lemma_assoc_dom(items);
    if items.len() > 0 {
        let front = items.drop_last();
        lemma_assoc_len(front);
        lemma_assoc_dom(front);
        if has_key(front, items.last().0) {
            let i = choose|i: int| 0 <= i < front.len() && #[trigger] front[i].0 == items.last().0;
            assert(items[i].0 == items[items.len() - 1].0);
        }
    }
}

/// Appending a pair to the list inserts it into the map.
pub proof fn lemma_assoc_push<V>(items: Seq<(Key, V)>, k: Key, v: V)
    ensures
        assoc_map(items.push((k, v))) == assoc_map(items).insert(k, v),
{
    assert(items.push((k, v)).drop_last() == items);
}

/// Where no key occurs twice, replacing the value of the pair at `i` inserts
/// the new value under that pair's key.
pub proof fn lemma_assoc_update<V>(items: Seq<(Key, V)>, i: int, v: V)
    requires
        distinct_keys(items),
        0 <= i < items.len(),
    ensures
        assoc_map(items.update(i, (items[i].0, v))) == assoc_map(items).insert(items[i].0, v),
    decreases items.len(),
{
    let k = items[i].0;
    let changed = items.update(i, (k, v));
    let front = items.drop_last();
    if i == items.len() - 1 {
        assert(changed.drop_last() == front);
        assert(assoc_map(changed) == assoc_map(front).insert(k, v));
        assert(assoc_map(items).insert(k, v) == assoc_map(front).insert(k, v));
    } else {
        lemma_assoc_update(front, i, v);
        assert(changed.drop_last() == front.update(i, (k, v)));
        assert(items.last().0 != k);
        assert(assoc_map(changed) == assoc_map(front).insert(k, v).insert(
            items.last().0,
            items.last().1,
        ));
        assert(assoc_map(items).insert(k, v) == assoc_map(front).insert(k, v).insert(
            items.last().0,
            items.last().1,
        ));
    }
}

/// Where no key occurs twice, removing the pair at `i` removes its key from
/// the map.
pub proof fn lemma_assoc_remove<V>(items: Seq<(Key, V)>, i: int)
    requires
        distinct_keys(items),
        0 <= i < items.len(),
    ensures
        assoc_map(items.remove(i)) == assoc_map(items).remove(items[i].0),
    decreases items.len(),
{
    let k = items[i].0;
    let front = items.drop_last();
    if i == items.len() - 1 {
        assert(items.remove(i) == front);
        lemma_assoc_dom(front);
        if has_key(front, k) {
            let j = choose|j: int| 0 <= j < front.len() && #[trigger] front[j].0 == k;
            assert(items[j].0 == items[i].0);
        }
        assert(assoc_map(front) == assoc_map(items).remove(k));
    } else {
        lemma_assoc_remove(front, i);
        assert(items.remove(i).drop_last() == front.remove(i));
        assert(items.remove(i).last() == items.last());
        assert(items.last().0 != k);
        assert(assoc_map(items.remove(i)) == assoc_map(front).remove(k).insert(
            items.last().0,
            items.last().1,
        ));
        assert(assoc_map(items).remove(k) == assoc_map(front).remove(k).insert(
            items.last().0,
            items.last().1,
        ));
    }
}

/// The order of the pairs does not matter: two lists without repeated keys
/// that hold the same pairs stand for the same map.
pub proof fn lemma_assoc_order_irrelevant<V>(a: Seq<(Key, V)>, b: Seq<(Key, V)>)
    requires
        distinct_keys(a),
        distinct_keys(b),
        forall|i: int| 0 <= i < a.len() ==> b.contains(#[trigger] a[i]),
        forall|j: int| 0 <= j < b.len() ==> a.contains(#[trigger] b[j]),
    ensures
        assoc_map(a) == assoc_map(b),
{
    lemma_assoc_dom(a);
    lemma_assoc_dom(b);
    assert forall|k: Key| assoc_map(a).contains_key(k) implies assoc_map(b).contains_key(k)
        && assoc_map(a)[k] == assoc_map(b)[k] by {
        let i = choose|i: int| 0 <= i < a.len() && #[trigger] a[i].0 == k;
        assert(b.contains(a[i]));
        let j = choose|j: int| 0 <= j < b.len() && b[j] == a[i];
        assert(b[j].0 == k);
        lemma_assoc_index(a, i);
        lemma_assoc_index(b, j);
    }
    assert forall|k: Key| assoc_map(b).contains_key(k) implies assoc_map(a).contains_key(k) by {
        let j = choose|j: int| 0 <= j < b.len() && #[trigger] b[j].0 == k;
        assert(a.contains(b[j]));
        let i = choose|i: int| 0 <= i < a.len() && a[i] == b[j];
        assert(a[i].0 == k);
    }
    assert(assoc_map(a) =~= assoc_map(b));
}

} // verus!
