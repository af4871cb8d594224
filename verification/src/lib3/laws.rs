//! Laws that relate the operations of the list to each other.
use vstd::prelude::*;

use super::{SkipListjjj, MAX_HEIGHT};
use crate::key::OrderedKey;
use crate::model::{
    in_range, inserted_once, key_range, lemma_entries_map_index, lemma_entries_map_keys,
    lemma_range_keys, lemma_range_values_none, lemma_range_values_single, range_keys, range_values,
};

verus! {

/// A read of a range whose end is not past its start gives back nothing.
pub proof fn law_get_empty_range<K: OrderedKey, V>(list: &SkipListjjj<K, V>, key: K, range_end: K)
    requires
        range_end.rank() <= key.rank(),
    ensures
        range_values(list.entries(), key, range_end) == Seq::<V>::empty(),
{
    let e = list.entries();
    assert forall|i: int| 0 <= i < e.len() implies !in_range(#[trigger] e[i].0, key, range_end) by {}
    lemma_range_values_none(e, key, range_end);
}

/// After `k` is mapped to `v`, a read of `[k, range_end)` that holds no other
/// key gives back exactly `v`.
pub proof fn law_get_after_insert<K: OrderedKey, V>(
    before: &SkipListjjj<K, V>,
    after: &SkipListjjj<K, V>,
    k: K,
    v: V,
    range_end: K,
)
    requires
        after.wf(),
        after@ == before@.insert(k, v),
        k.rank() < range_end.rank(),
        forall|k2: K| #[trigger] before@.contains_key(k2) && in_range(k2, k, range_end) ==> k2 == k,
    ensures
        range_values(after.entries(), k, range_end) == seq![v],
{
    let e = after.entries();
    after.lemma_entries_sorted();
    lemma_entries_map_index(e);
    assert(after@.contains_key(k));
    lemma_entries_map_keys(e, k);
    let q = choose|q: int| 0 <= q < e.len() && e[q].0 == k;
    assert(e[q].1 == v);
    assert forall|i: int| 0 <= i < e.len() && i != q implies !in_range(
        #[trigger] e[i].0,
        k,
        range_end,
    ) by {
        assert(after@.contains_key(e[i].0));
        if i < q {
            assert(e[i].0.rank() < e[q].0.rank());
        } else {
            assert(e[q].0.rank() < e[i].0.rank());
        }
        assert(before@.contains_key(e[i].0));
    }
    lemma_range_values_single(e, q, k, range_end);
}

/// After the keys of `[key, range_end)` are deleted, a read of that range
/// gives back nothing.
pub proof fn law_get_after_delete<K: OrderedKey, V>(
    before: &SkipListjjj<K, V>,
    after: &SkipListjjj<K, V>,
    key: K,
    range_end: K,
)
    requires
        after.wf(),
        after@ == before@.remove_keys(key_range(key, range_end)),
    ensures
        range_values(after.entries(), key, range_end) == Seq::<V>::empty(),
{
    let e = after.entries();
    after.lemma_entries_sorted();
    lemma_entries_map_index(e);
    assert forall|i: int| 0 <= i < e.len() implies !in_range(#[trigger] e[i].0, key, range_end) by {
        assert(after@.contains_key(e[i].0));
    }
    lemma_range_values_none(e, key, range_end);
}

} // verus!

verus! {

/// A read of `[key, range_end)` gives back the values of exactly the keys in
/// that range, in increasing key order: the keys it visits increase, are all
/// in the range and in the map, and cover every key of the map in the range.
pub proof fn law_get_reads_map_range<K: OrderedKey, V>(
    list: &SkipListjjj<K, V>,
    key: K,
    range_end: K,
)
    requires
        list.wf(),
    ensures
        range_values(list.entries(), key, range_end) == range_keys(
            list.entries(),
            key,
            range_end,
        ).map_values(|k: K| list@[k]),
        forall|i: int, j: int|
            #![trigger range_keys(list.entries(), key, range_end)[i], range_keys(list.entries(), key, range_end)[j]]
            0 <= i < j < range_keys(list.entries(), key, range_end).len() ==> range_keys(
                list.entries(),
                key,
                range_end,
            )[i].rank() < range_keys(list.entries(), key, range_end)[j].rank(),
        forall|k: K|
            #[trigger] range_keys(list.entries(), key, range_end).contains(k) <==> list@.contains_key(
                k,
            ) && in_range(k, key, range_end),
{
    list.lemma_entries_sorted();
    lemma_range_keys(list.entries(), key, range_end);
}

} // verus!

verus! {

/// An insert (whose outcome is `same_layout` when the key already had a node,
/// `linked_one` otherwise) keeps every node of every chain, in order; the
/// lowest chain gains at most the one new node; and the height never falls.
pub proof fn law_insert_keeps_chains<K: OrderedKey, V>(
    before: &SkipListjjj<K, V>,
    after: &SkipListjjj<K, V>,
)
    requires
        after.same_layout(before) || after.linked_one(before),
    ensures
        before.height() <= after.height(),
        after.chain(0) == before.chain(0) || inserted_once(
            before.chain(0),
            after.chain(0),
            before.node_count() as usize,
        ),
        forall|l: int|
            0 <= l < MAX_HEIGHT ==> #[trigger] after.chain(l) == before.chain(l) || inserted_once(
                before.chain(l),
                after.chain(l),
                before.node_count() as usize,
            ),
{
    if after.linked_one(before) {
        assert(0 < after.tower(before.node_count() as int));
    } else {
        assert(after.chain(0) == before.chain(0));
    }
}

} // verus!
