//! Inserting a key, or updating the value of a key already in the list.
use vstd::prelude::*;

use super::get::chain_slots;
use super::chain::{
    chain_has, key_at, lemma_level_frame, lemma_link_level, level_ok, node_ok, pred_at,
    same_at_level, spliced, succ_of,
};
use super::{random_height, SkipListjjj, MAX_HEIGHT};
use crate::key::OrderedKey;
use crate::model::{inserted_once, lemma_insert_slot, lemma_update_slot};
use crate::node::{ConcurrentSkiplistMode, Node};

verus! {

impl<K: OrderedKey, V> SkipListjjj<K, V> {
    /// Maps `k` to `v`. Gives back the value `k` held before, if it held one.
    pub fn insert(&mut self, k: K, v: V) -> (r: Option<V>)
        requires
            old(self).wf(),
        ensures
            final(self).wf(),
            final(self)@ == old(self)@.insert(k, v),
            r == (if old(self)@.contains_key(k) {
                Some(old(self)@[k])
            } else {
                None
            }),
            old(self).height() <= final(self).height() <= MAX_HEIGHT,
            final(self).holds_key(k),
            old(self).holds_key(k) ==> final(self).same_layout(&*old(self)),
            !old(self).holds_key(k) ==> final(self).linked_one(&*old(self)),
    {
        let (found, preds, qs) = self.find(&k);
        match found {
            Some(n) => self.replace_value(n, k, v),
            None => {
                let h = random_height();
                self.link_new(k, v, preds, qs, h);
                None
            },
        }
    }

    /// Stores `v` in node `n`, which holds the key `k`; gives back its former value.
    fn replace_value(&mut self, n: usize, k: K, v: V) -> (r: Option<V>)
        requires
            old(self).wf(),
            n < old(self).nodes@.len(),
            key_at(old(self).nodes@, n as int).rank() == k.rank(),
        ensures
            final(self).wf(),
            final(self)@ == old(self)@.insert(k, v),
            r == (if old(self)@.contains_key(k) {
                Some(old(self)@[k])
            } else {
                None
            }),
            old(self).holds_key(k),
            final(self).holds_key(k),
            final(self).same_layout(&*old(self)),
    {
        let ghost nodes0 = self.nodes@;
        let ghost s = self.levels@[0];
        let ghost slots = chain_slots(nodes0, s);
        proof {
            K::lemma_rank_injective(&key_at(nodes0, n as int), &k);
            self.lemma_slots_sorted();
            assert(slots == self.slots());
            assert(level_ok(nodes0, self.lanes@, s, 0));
            assert(node_ok(nodes0[n as int]));
            assert(chain_has(s, n as int));
        }
        let ghost q = choose|j: int| 0 <= j < s.len() && s[j] == n;
        let r = self.nodes[n].v.take();
        self.nodes[n].v = Some(v);
        proof {
            let nodes1 = self.nodes@;
            assert(nodes1 == nodes0.update(n as int, Node { v: Some(v), ..nodes0[n as int] }));
            assert forall|l: int| 0 <= l < MAX_HEIGHT implies level_ok(
                nodes1,
                self.lanes@,
                #[trigger] self.levels@[l],
                l,
            ) by {
                assert(level_ok(nodes0, self.lanes@, self.levels@[l], l));
                assert(same_at_level(nodes0, nodes1, l));
                lemma_level_frame(nodes0, self.lanes@, nodes1, self.lanes@, self.levels@[l], l);
            }
            assert forall|i: int| 0 <= i < nodes1.len() implies node_ok(#[trigger] nodes1[i])
                && nodes1[i].height <= self.current_height by {
                assert(node_ok(nodes0[i]));
                assert(nodes0[i].height <= self.current_height);
            }
            let slots1 = chain_slots(nodes1, s);
            assert(slots1 == self.slots());
            assert forall|i: int| 0 <= i < s.len() && i != q implies s[i] != n by {
                if i < q {
                    assert(key_at(nodes0, s[i] as int).rank() < key_at(nodes0, s[q] as int).rank());
                } else {
                    assert(key_at(nodes0, s[q] as int).rank() < key_at(nodes0, s[i] as int).rank());
                }
            }
            assert(slots1 =~= slots.update(q, (slots[q].0, Some(v))));
            lemma_update_slot(slots, q, Some(v));
            assert(self.slots()[q].0 == k);
        }
        r
    }

    /// Splices a new node holding `k` and `v`, with a tower of `h` levels,
    /// into every level below `h`, after the nodes `preds`.
    fn link_new(
        &mut self,
        k: K,
        v: V,
        preds: Vec<Option<usize>>,
        qs: Ghost<Seq<int>>,
        h: usize,
    )
        requires
            old(self).wf(),
            1 <= h <= MAX_HEIGHT,
            preds@.len() == MAX_HEIGHT,
            qs@.len() == MAX_HEIGHT,
            forall|l: int|
                0 <= l < MAX_HEIGHT ==> pred_at(
                    old(self).nodes@,
                    #[trigger] old(self).levels@[l],
                    qs@[l],
                    preds@[l],
                    k,
                ),
        ensures
            final(self).wf(),
            final(self)@ == old(self)@.insert(k, v),
            !old(self)@.contains_key(k),
            !old(self).holds_key(k),
            final(self).holds_key(k),
            final(self).tower(old(self).node_count() as int) == h,
            final(self).linked_one(&*old(self)),
    {
        let mode = ConcurrentSkiplistMode::NoLock;
        let ghost key = k;
        let ghost nodes0 = self.nodes@;
        let ghost lanes0 = self.lanes@;
        let ghost levels0 = self.levels@;
        let ghost qv = qs@;
        let m = self.nodes.len();
        self.nodes.push(Node::new(k, v, h as u8));
        if (h as u8) > self.current_height {
            self.current_height = h as u8;
        }
        let ghost pushed = self.nodes@;
        let ghost height1 = self.current_height;
        let ghost newlv = Seq::new(
            MAX_HEIGHT as nat,
            |l: int|
                if l < h {
                    levels0[l].insert(qv[l] + 1, m)
                } else {
                    levels0[l]
                },
        );
        proof {
            assert forall|l: int| 0 <= l < MAX_HEIGHT implies level_ok(
                nodes0,
                lanes0,
                #[trigger] levels0[l],
                l,
            ) by {}
        }
        let mut l: usize = 0;
        while l < h
            invariant
                1 <= h <= MAX_HEIGHT,
                l <= h,
                m == nodes0.len(),
                preds@.len() == MAX_HEIGHT,
                qv.len() == MAX_HEIGHT,
                levels0.len() == MAX_HEIGHT,
                lanes0.len() == MAX_HEIGHT,
                self.levels@ == levels0,
                self.lanes@.len() == MAX_HEIGHT,
                self.current_height == height1,
                newlv == Seq::new(
                    MAX_HEIGHT as nat,
                    |l2: int|
                        if l2 < h {
                            levels0[l2].insert(qv[l2] + 1, m)
                        } else {
                            levels0[l2]
                        },
                ),
                pushed == nodes0.push(
                    Node { k: Some(key), v: Some(v), height: h as u8, lanes: pushed[m as int].lanes },
                ),
                pushed[m as int].lanes@ == Seq::new(h as nat, |i: int| None::<usize>),
                forall|l2: int|
                    0 <= l2 < MAX_HEIGHT ==> level_ok(nodes0, lanes0, #[trigger] levels0[l2], l2),
                forall|l2: int|
                    0 <= l2 < MAX_HEIGHT ==> pred_at(
                        nodes0,
                        #[trigger] levels0[l2],
                        qv[l2],
                        preds@[l2],
                        key,
                    ),
                forall|i: int| 0 <= i < nodes0.len() ==> node_ok(#[trigger] nodes0[i]),
                self.nodes@.len() == m + 1,
                forall|i: int|
                    #![trigger self.nodes@[i]]
                    0 <= i <= m ==> self.nodes@[i].k == pushed[i].k && self.nodes@[i].v
                        == pushed[i].v && self.nodes@[i].height == pushed[i].height
                        && self.nodes@[i].lanes@.len() == pushed[i].lanes@.len(),
                forall|i: int, l2: int|
                    #![trigger self.nodes@[i].lanes@[l2]]
                    0 <= i <= m && l <= l2 < pushed[i].height ==> self.nodes@[i].lanes@[l2]
                        == pushed[i].lanes@[l2],
                forall|l2: int| l <= l2 < MAX_HEIGHT ==> #[trigger] self.lanes@[l2] == lanes0[l2],
                forall|l2: int|
                    0 <= l2 < l ==> level_ok(
                        self.nodes@,
                        self.lanes@,
                        #[trigger] newlv[l2],
                        l2,
                    ),
            decreases h - l,
        {
            let ghost n1 = self.nodes@;
            let ghost h1 = self.lanes@;
            let ghost s = levels0[l as int];
            let ghost q = qv[l as int];
            assert(pred_at(nodes0, s, q, preds@[l as int], key));
            assert(level_ok(nodes0, lanes0, s, l as int));
            let succ = match preds[l] {
                None => self.lanes[l],
                Some(p) => {
                    assert(node_ok(nodes0[p as int]));
                    self.nodes[p].next(&mode, l as i32)
                },
            };
            proof {
                if q >= 0 {
                    assert(nodes0[s[q] as int].lanes@[l as int] == succ_of(s, q));
                    assert(self.nodes@[s[q] as int].lanes@[l as int] == pushed[s[q] as int].lanes@[l as int]);
                }
                assert(succ == succ_of(s, q));
            }
            self.nodes[m].set_next(&mode, l as i32, succ, false);
            match preds[l] {
                None => {
                    self.lanes.set(l, Some(m));
                },
                Some(p) => {
                    // Nothing else writes the link since it was read, so the
                    // exchange always succeeds.
                    let swapped = self.nodes[p].cas_setnext(l as i32, succ, Some(m));
                    assert(swapped);
                },
            }
            proof {
                let n2 = self.nodes@;
                let h2 = self.lanes@;
                assert(spliced(nodes0, lanes0, n2, h2, s, q, preds@[l as int], m, key, l as int));
                lemma_link_level(nodes0, lanes0, n2, h2, s, q, preds@[l as int], m, key, l as int);
                assert(newlv[l as int] == s.insert(q + 1, m));
                assert forall|l2: int| 0 <= l2 < l implies level_ok(
                    n2,
                    h2,
                    #[trigger] newlv[l2],
                    l2,
                ) by {
                    assert(level_ok(n1, h1, newlv[l2], l2));
                    assert(same_at_level(n1, n2, l2));
                    lemma_level_frame(n1, h1, n2, h2, newlv[l2], l2);
                }
            }
            l = l + 1;
        }
        self.levels = Ghost(newlv);
        proof {
            let n2 = self.nodes@;
            assert forall|l2: int| 0 <= l2 < MAX_HEIGHT implies level_ok(
                n2,
                self.lanes@,
                #[trigger] self.levels@[l2],
                l2,
            ) by {
                if l2 >= h {
                    assert(same_at_level(nodes0, n2, l2));
                    lemma_level_frame(nodes0, lanes0, n2, self.lanes@, levels0[l2], l2);
                }
            }
            assert(height1 >= h);
            assert forall|i: int| 0 <= i < n2.len() implies node_ok(#[trigger] n2[i])
                && n2[i].height <= self.current_height by {
                if i < m {
                    assert(node_ok(nodes0[i]));
                    assert(old(self).nodes@[i].height <= old(self).current_height);
                    assert(pushed[i] == nodes0[i]);
                }
            }
            let s0 = levels0[0];
            let q0 = qv[0];
            let slots0 = chain_slots(nodes0, s0);
            assert(slots0 == old(self).slots());
            assert(self.levels@[0] == s0.insert(q0 + 1, m));
            assert(chain_slots(n2, s0.insert(q0 + 1, m)) =~= slots0.insert(q0 + 1, (key, Some(v)))) by {
                let t = s0.insert(q0 + 1, m);
                assert forall|j: int| 0 <= j < t.len() implies chain_slots(n2, t)[j]
                    == slots0.insert(q0 + 1, (key, Some(v)))[j] by {
                    if j <= q0 {
                        assert(t[j] == s0[j]);
                        assert(s0[j] < nodes0.len());
                        assert(pushed[s0[j] as int] == nodes0[s0[j] as int]);
                    } else if j > q0 + 1 {
                        assert(t[j] == s0[j - 1]);
                        assert(s0[j - 1] < nodes0.len());
                        assert(pushed[s0[j - 1] as int] == nodes0[s0[j - 1] as int]);
                    }
                }
            }
            assert(self.wf());
            self.lemma_slots_sorted();
            assert(self.slots() == chain_slots(n2, s0.insert(q0 + 1, m)));
            lemma_insert_slot(slots0, q0 + 1, key, Some(v));
            assert(self.slots()[q0 + 1].0 == key);
            assert forall|i: int| 0 <= i < slots0.len() implies slots0[i].0 != key by {
                assert(level_ok(nodes0, lanes0, s0, 0));
                assert(pred_at(nodes0, s0, q0, preds@[0], key));
                if i <= q0 {
                    if i < q0 {
                        assert(key_at(nodes0, s0[i] as int).rank() < key_at(
                            nodes0,
                            s0[q0] as int,
                        ).rank());
                    }
                } else if i > q0 + 1 {
                    assert(key_at(nodes0, s0[q0 + 1] as int).rank() < key_at(
                        nodes0,
                        s0[i] as int,
                    ).rank());
                }
            }
            assert(self.tower(m as int) == h);
            assert forall|l2: int|
                0 <= l2 < self.tower(old(self).node_count() as int) implies #[trigger] inserted_once(
                    old(self).chain(l2),
                    self.chain(l2),
                    old(self).node_count() as usize,
                ) by {
                assert(pred_at(nodes0, levels0[l2], qv[l2], preds@[l2], key));
                let p = qv[l2] + 1;
                assert(0 <= p <= old(self).chain(l2).len());
                assert(self.chain(l2) == old(self).chain(l2).insert(
                    p,
                    old(self).node_count() as usize,
                ));
            }
        }
    }
}

} // verus!
