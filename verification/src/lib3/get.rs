//! Range reads.
use vstd::prelude::*;

use super::chain::{chain_has, key_at, level_ok, node_ok, pred_at, succ_of};
use super::SkipListjjj;
use crate::key::{KeyOrder, OrderedKey};
use crate::model::{
    in_range, lemma_range_values_prefix, lemma_range_values_step, present, range_values,
};
use crate::node::{ConcurrentSkiplistMode, Node};

verus! {

/// The slots of a lowest chain `s`: each node's key and value.
pub(super) open spec fn chain_slots<K, V>(nodes: Seq<Node<K, V>>, s: Seq<usize>) -> Seq<(K, Option<V>)> {
    s.map_values(|i: usize| (key_at(nodes, i as int), nodes[i as int].v))
}

/// A scan of the lowest chain that meets a key at or past `hi` at position `j`
/// has read everything in `[lo, hi)`.
pub(super) proof fn lemma_scan_stop<K: OrderedKey, V>(
    nodes: Seq<Node<K, V>>,
    head: Seq<Option<usize>>,
    s: Seq<usize>,
    j: int,
    lo: K,
    hi: K,
)
    requires
        level_ok(nodes, head, s, 0),
        0 <= j < s.len(),
        key_at(nodes, s[j] as int).rank() >= hi.rank(),
    ensures
        range_values(present(chain_slots(nodes, s)), lo, hi) == range_values(
            present(chain_slots(nodes, s).take(j)),
            lo,
            hi,
        ),
{
    let slots = chain_slots(nodes, s);
    assert forall|i: int| j <= i < slots.len() implies !in_range(#[trigger] slots[i].0, lo, hi) by {
        if i > j {
            assert(key_at(nodes, s[j] as int).rank() < key_at(nodes, s[i] as int).rank());
        }
    }
    lemma_range_values_prefix(slots, j, lo, hi);
}

impl<K: OrderedKey, V> SkipListjjj<K, V> {
    /// The position in the lowest chain of the first node whose key is not
    /// below `key`, and that node (`None` past the end).
    pub(super) fn seek(&self, key: &K) -> (r: (Option<usize>, Ghost<int>))
        requires
            self.wf(),
        ensures
            0 <= r.1@ <= self.levels@[0].len(),
            r.0 == (if r.1@ < self.levels@[0].len() {
                Some(self.levels@[0][r.1@])
            } else {
                None
            }),
            forall|i: int|
                0 <= i < self.levels@[0].len() ==> (i < r.1@ <==> key_at(
                    self.nodes@,
                    #[trigger] self.levels@[0][i] as int,
                ).rank() < key.rank()),
    {
        let mode = ConcurrentSkiplistMode::NoLock;
        let (found, preds, Ghost(qs)) = self.find(key);
        let ghost s = self.levels@[0];
        assert(level_ok(self.nodes@, self.lanes@, s, 0));
        match found {
            Some(n) => {
                assert(chain_has(s, n as int));
                let ghost j = choose|j: int| 0 <= j < s.len() && s[j] == n;
                assert forall|i: int| 0 <= i < s.len() implies (i < j <==> key_at(
                    self.nodes@,
                    #[trigger] s[i] as int,
                ).rank() < key.rank()) by {
                    if i < j {
                        assert(key_at(self.nodes@, s[i] as int).rank() < key_at(
                            self.nodes@,
                            s[j] as int,
                        ).rank());
                    } else if i > j {
                        assert(key_at(self.nodes@, s[j] as int).rank() < key_at(
                            self.nodes@,
                            s[i] as int,
                        ).rank());
                    }
                }
                (Some(n), Ghost(j))
            },
            None => {
                let ghost q = qs[0];
                assert(pred_at(self.nodes@, s, q, preds@[0], *key));
                let next = match preds[0] {
                    None => self.lanes[0],
                    Some(p) => self.nodes[p].next(&mode, 0),
                };
                proof {
                    if q >= 0 {
                        assert(self.nodes@[s[q] as int].lanes@[0] == succ_of(s, q));
                    }
                    assert(next == succ_of(s, q));
                    assert forall|i: int| 0 <= i < s.len() implies (i < q + 1 <==> key_at(
                        self.nodes@,
                        #[trigger] s[i] as int,
                    ).rank() < key.rank()) by {
                        if i < q {
                            assert(key_at(self.nodes@, s[i] as int).rank() < key_at(
                                self.nodes@,
                                s[q] as int,
                            ).rank());
                        } else if i > q + 1 {
                            assert(key_at(self.nodes@, s[q + 1] as int).rank() < key_at(
                                self.nodes@,
                                s[i] as int,
                            ).rank());
                        }
                    }
                }
                (next, Ghost(q + 1))
            },
        }
    }

    /// The values of the keys in `[key, range_end)`, in increasing key order.
    pub fn inner_get(&self, key: &K, range_end: &K) -> (r: Vec<&V>)
        requires
            self.wf(),
        ensures
            r@.map_values(|x: &V| *x) == range_values(self.entries(), *key, *range_end),
    {
        let mode = ConcurrentSkiplistMode::NoLock;
        let (mut ptr, Ghost(p)) = self.seek(key);
        let ghost s = self.levels@[0];
        let ghost slots = chain_slots(self.nodes@, s);
        proof {
            assert(slots == self.slots());
            self.lemma_slots_sorted();
            assert(level_ok(self.nodes@, self.lanes@, s, 0));
            let t = slots.take(p);
            assert(t.take(0) =~= Seq::<(K, Option<V>)>::empty());
            assert forall|i: int| 0 <= i < t.len() implies !in_range(
                #[trigger] t[i].0,
                *key,
                *range_end,
            ) by {
                assert(t[i] == slots[i]);
                assert(key_at(self.nodes@, s[i] as int).rank() < key.rank());
            }
            lemma_range_values_prefix(t, 0, *key, *range_end);
        }
        let mut out: Vec<&V> = Vec::new();
        let ghost mut w: int = p;
        loop
            invariant_except_break
                out@.map_values(|x: &V| *x) == range_values(
                    present(slots.take(w)),
                    *key,
                    *range_end,
                ),
            invariant
                level_ok(self.nodes@, self.lanes@, s, 0),
                forall|i: int| 0 <= i < self.nodes@.len() ==> node_ok(#[trigger] self.nodes@[i]),
                slots == chain_slots(self.nodes@, s),
                s == self.levels@[0],
                slots.len() == s.len(),
                0 <= p <= w <= s.len(),
                ptr == (if w < s.len() {
                    Some(s[w])
                } else {
                    None
                }),
                forall|i: int|
                    0 <= i < s.len() ==> (i < p <==> key_at(
                        self.nodes@,
                        #[trigger] s[i] as int,
                    ).rank() < key.rank()),
            ensures
                out@.map_values(|x: &V| *x) == range_values(present(slots), *key, *range_end),
            decreases s.len() - w,
        {
            match ptr {
                None => {
                    assert(slots.take(w) =~= slots);
                    break ;
                },
                Some(n) => {
                    assert(s[w] < self.nodes@.len());
                    let node = &self.nodes[n];
                    assert(slots[w] == (key_at(self.nodes@, n as int), node.v));
                    match node.unwrap_key_ref().compare(range_end) {
                        KeyOrder::Less => {},
                        _ => {
                            proof {
                                lemma_scan_stop(self.nodes@, self.lanes@, s, w, *key, *range_end);
                            }
                            break ;
                        },
                    }
                    proof {
                        lemma_range_values_step(slots, w, *key, *range_end);
                        if p < w {
                            assert(key_at(self.nodes@, s[p] as int).rank() < key_at(
                                self.nodes@,
                                s[w] as int,
                            ).rank());
                        }
                        assert(in_range(slots[w].0, *key, *range_end));
                    }
                    match node.v.as_ref() {
                        Some(v) => {
                            let ghost before = out@;
                            out.push(v);
                            assert(out@.map_values(|x: &V| *x) =~= before.map_values(
                                |x: &V| *x,
                            ).push(*v));
                        },
                        None => {},
                    }
                    assert(node.lanes@[0] == succ_of(s, w));
                    ptr = node.next(&mode, 0);
                    proof {
                        w = w + 1;
                    }
                },
            }
        }
        out
    }
}

} // verus!
