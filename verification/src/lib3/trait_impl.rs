//! The list as an `IndexOperate`.
use vstd::prelude::*;

use super::SkipListjjj;
use crate::key::OrderedKey;
use crate::IndexOperate;

verus! {

impl<K: OrderedKey, V> IndexOperate<K, V> for SkipListjjj<K, V> {
    open spec fn index_entries(&self) -> Seq<(K, V)> {
        self.entries()
    }

    open spec fn index_wf(&self) -> bool {
        self.wf()
    }

    fn get(&self, key: &K, range_end: &K) -> (r: Vec<&V>) {
        self.inner_get(key, range_end)
    }

    fn delete(&mut self, key: &K, range_end: &K) -> (r: Vec<V>) {
        self.inner_delete(key, range_end)
    }

    fn insert_or_update(&mut self, key: K, value: V) -> (r: Option<V>) {
        self.insert(key, value)
    }
}

} // verus!
