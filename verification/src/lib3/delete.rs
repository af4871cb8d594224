//! Range deletes.
use vstd::prelude::*;

use super::get::{chain_slots, lemma_scan_stop};
use super::chain::{key_at, lemma_level_frame, level_ok, node_ok, same_at_level, succ_of};
use super::{SkipListjjj, MAX_HEIGHT};
use crate::key::{KeyOrder, OrderedKey};
use crate::model::{
    in_range, key_range, lemma_clear_range, lemma_range_values_prefix, lemma_range_values_step,
    present, range_values,
};
use crate::node::ConcurrentSkiplistMode;

verus! {

impl<K: OrderedKey, V> SkipListjjj<K, V> {
    /// Removes the keys in `[key, range_end)` and gives back their values,
    /// in increasing key order.
    pub(crate) fn inner_delete(&mut self, key: &K, range_end: &K) -> (r: Vec<V>)
        requires
            old(self).wf(),
        ensures
            final(self).wf(),
            r@ == range_values(old(self).entries(), *key, *range_end),
            final(self)@ == old(self)@.remove_keys(key_range(*key, *range_end)),
            final(self).same_layout(&*old(self)),
    {
        let mode = ConcurrentSkiplistMode::NoLock;
        let (mut ptr, Ghost(p)) = self.seek(key);
        let ghost s = self.levels@[0];
        let ghost nodes0 = self.nodes@;
        let ghost lanes0 = self.lanes@;
        let ghost levels0 = self.levels@;
        let ghost height0 = self.current_height;
        let ghost slots = chain_slots(nodes0, s);
        proof {
            self.lemma_slots_sorted();
            assert(slots == self.slots());
            assert(level_ok(nodes0, lanes0, s, 0));
            let t = slots.take(p);
            assert(t.take(0) =~= Seq::<(K, Option<V>)>::empty());
            assert forall|i: int| 0 <= i < t.len() implies !in_range(
                #[trigger] t[i].0,
                *key,
                *range_end,
            ) by {
                assert(t[i] == slots[i]);
                assert(key_at(nodes0, s[i] as int).rank() < key.rank());
            }
            lemma_range_values_prefix(t, 0, *key, *range_end);
        }
        let mut out: Vec<V> = Vec::new();
        let ghost mut w: int = p;
        loop
            invariant_except_break
                out@ == range_values(present(slots.take(w)), *key, *range_end),
                forall|i: int|
                    0 <= i < s.len() ==> (#[trigger] self.nodes@[s[i] as int]).v == (if i < w
                        && in_range(key_at(nodes0, s[i] as int), *key, *range_end) {
                        None
                    } else {
                        nodes0[s[i] as int].v
                    }),
            invariant
                level_ok(nodes0, lanes0, s, 0),
                forall|i: int| 0 <= i < nodes0.len() ==> node_ok(#[trigger] nodes0[i]),
                self.lanes@ == lanes0,
                self.levels@ == levels0,
                self.current_height == height0,
                s == levels0[0],
                slots == chain_slots(nodes0, s),
                slots.len() == s.len(),
                self.nodes@.len() == nodes0.len(),
                forall|i: int|
                    #![trigger self.nodes@[i]]
                    0 <= i < nodes0.len() ==> self.nodes@[i].k == nodes0[i].k
                        && self.nodes@[i].height == nodes0[i].height && self.nodes@[i].lanes@
                        == nodes0[i].lanes@,
                0 <= p <= w <= s.len(),
                ptr == (if w < s.len() {
                    Some(s[w])
                } else {
                    None
                }),
                forall|i: int|
                    0 <= i < s.len() ==> (i < p <==> key_at(
                        nodes0,
                        #[trigger] s[i] as int,
                    ).rank() < key.rank()),
            ensures
                out@ == range_values(present(slots), *key, *range_end),
                forall|i: int|
                    0 <= i < s.len() ==> (#[trigger] self.nodes@[s[i] as int]).v == (if in_range(
                        key_at(nodes0, s[i] as int),
                        *key,
                        *range_end,
                    ) {
                        None
                    } else {
                        nodes0[s[i] as int].v
                    }),
            decreases s.len() - w,
        {
            match ptr {
                None => {
                    assert(slots.take(w) =~= slots);
                    break ;
                },
                Some(n) => {
                    assert(s[w] < nodes0.len());
                    assert(slots[w] == (key_at(nodes0, n as int), nodes0[n as int].v));
                    match self.nodes[n].unwrap_key_ref().compare(range_end) {
                        KeyOrder::Less => {},
                        _ => {
                            proof {
                                lemma_scan_stop(nodes0, lanes0, s, w, *key, *range_end);
                                assert forall|i: int| 0 <= i < s.len() implies (
                                #[trigger] self.nodes@[s[i] as int]).v == (if in_range(
                                    key_at(nodes0, s[i] as int),
                                    *key,
                                    *range_end,
                                ) {
                                    None
                                } else {
                                    nodes0[s[i] as int].v
                                }) by {
                                    if i > w {
                                        assert(key_at(nodes0, s[w] as int).rank() < key_at(
                                            nodes0,
                                            s[i] as int,
                                        ).rank());
                                    }
                                }
                            }
                            break ;
                        },
                    }
                    proof {
                        lemma_range_values_step(slots, w, *key, *range_end);
                        if p < w {
                            assert(key_at(nodes0, s[p] as int).rank() < key_at(
                                nodes0,
                                s[w] as int,
                            ).rank());
                        }
                        assert(in_range(slots[w].0, *key, *range_end));
                        assert(self.nodes@[n as int].v == nodes0[n as int].v);
                    }
                    let taken = self.nodes[n].v.take();
                    match taken {
                        Some(x) => {
                            out.push(x);
                        },
                        None => {},
                    }
                    proof {
                        assert(nodes0[n as int].lanes@[0] == succ_of(s, w));
                        assert forall|i: int| 0 <= i < s.len() && i != w implies s[i] != s[w] by {
                            if i < w {
                                assert(key_at(nodes0, s[i] as int).rank() < key_at(
                                    nodes0,
                                    s[w] as int,
                                ).rank());
                            } else {
                                assert(key_at(nodes0, s[w] as int).rank() < key_at(
                                    nodes0,
                                    s[i] as int,
                                ).rank());
                            }
                        }
                    }
                    ptr = self.nodes[n].next(&mode, 0);
                    proof {
                        w = w + 1;
                    }
                },
            }
        }
        proof {
            let nodes1 = self.nodes@;
            assert forall|l: int| 0 <= l < MAX_HEIGHT implies level_ok(
                nodes1,
                self.lanes@,
                #[trigger] self.levels@[l],
                l,
            ) by {
                assert(level_ok(nodes0, lanes0, levels0[l], l));
                assert(same_at_level(nodes0, nodes1, l));
                lemma_level_frame(nodes0, lanes0, nodes1, self.lanes@, levels0[l], l);
            }
            assert forall|i: int| 0 <= i < nodes1.len() implies node_ok(#[trigger] nodes1[i])
                && nodes1[i].height <= self.current_height by {
                assert(node_ok(nodes0[i]));
                assert(nodes0[i].height <= height0);
            }
            let slots1 = chain_slots(nodes1, s);
            assert(slots1 == self.slots());
            assert forall|i: int| 0 <= i < slots.len() implies (#[trigger] slots1[i]).0
                == slots[i].0 && slots1[i].1 == (if in_range(slots[i].0, *key, *range_end) {
                None
            } else {
                slots[i].1
            }) by {
                assert(nodes1[s[i] as int].v == (if in_range(
                    key_at(nodes0, s[i] as int),
                    *key,
                    *range_end,
                ) {
                    None
                } else {
                    nodes0[s[i] as int].v
                }));
            }
            lemma_clear_range(slots, slots1, *key, *range_end);
        }
        out
    }
}

} // verus!
