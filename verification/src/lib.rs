//! A skip list ordered map with range reads and range deletes.
//!
//! The list keeps its nodes in an arena and links them by index, one
//! sorted chain per level; every level is a sub-chain of the level below.
pub mod key;
pub mod model;
pub mod node;
pub mod lib3;

use vstd::prelude::*;

use crate::key::OrderedKey;
use crate::model::{entries_map, key_range, range_values};

verus! {

/// Operations of an ordered index over keys `K` and values `V`.
pub trait IndexOperate<K: OrderedKey, V>: Sized {
    /// The keys that hold a value, with their values, in increasing key order.
    spec fn index_entries(&self) -> Seq<(K, V)>;

    /// The invariant of the index.
    spec fn index_wf(&self) -> bool;

    /// Get the values of the keys in `[key, range_end)`, in increasing key order.
    fn get(&self, key: &K, range_end: &K) -> (r: Vec<&V>)
        requires
            self.index_wf(),
        ensures
            r@.map_values(|x: &V| *x) == range_values(self.index_entries(), *key, *range_end),
    ;

    /// Delete the keys in `[key, range_end)`; gives back their values, in
    /// increasing key order.
    fn delete(&mut self, key: &K, range_end: &K) -> (r: Vec<V>)
        requires
            old(self).index_wf(),
        ensures
            final(self).index_wf(),
            r@ == range_values(old(self).index_entries(), *key, *range_end),
            entries_map(final(self).index_entries()) == entries_map(
                old(self).index_entries(),
            ).remove_keys(key_range(*key, *range_end)),
    ;

    /// Insert or update a key; gives back the value it held before, if any.
    fn insert_or_update(&mut self, key: K, value: V) -> (r: Option<V>)
        requires
            old(self).index_wf(),
        ensures
            final(self).index_wf(),
            entries_map(final(self).index_entries()) == entries_map(
                old(self).index_entries(),
            ).insert(key, value),
            r == (if entries_map(old(self).index_entries()).contains_key(key) {
                Some(entries_map(old(self).index_entries())[key])
            } else {
                None
            }),
    ;
}

} // verus!
