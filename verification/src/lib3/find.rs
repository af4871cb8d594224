//! The descent through the levels that locates a key.
use vstd::prelude::*;

use super::chain::{chain_has, key_at, level_ok, pred_at, succ_of};
use super::{SkipListjjj, MAX_HEIGHT};
use crate::key::{KeyOrder, OrderedKey};
use crate::node::ConcurrentSkiplistMode;

verus! {

impl<K: OrderedKey, V> SkipListjjj<K, V> {
    /// Descends from the top level towards `key`.
    ///
    /// Returns the node that holds `key` if the descent meets it; otherwise,
    /// for each level `l`, the node after which `key` belongs (`None` for the
    /// head) together with its position in the chain of level `l`.
    pub(super) fn find(&self, key: &K) -> (r: (Option<usize>, Vec<Option<usize>>, Ghost<Seq<int>>))
        requires
            self.wf(),
        ensures
            r.1@.len() == MAX_HEIGHT,
            r.2@.len() == MAX_HEIGHT,
            r.0 matches Some(n) ==> n < self.nodes@.len() && key_at(self.nodes@, n as int).rank()
                == key.rank(),
            r.0 is None ==> forall|l: int|
                0 <= l < MAX_HEIGHT ==> pred_at(
                    self.nodes@,
                    #[trigger] self.levels@[l],
                    r.2@[l],
                    r.1@[l],
                    *key,
                ),
    {
        let mode = ConcurrentSkiplistMode::NoLock;
        let mut preds: Vec<Option<usize>> = Vec::new();
        let mut i: usize = 0;
        while i < MAX_HEIGHT
            invariant
                i <= MAX_HEIGHT,
                preds@.len() == i,
            decreases MAX_HEIGHT - i,
        {
            preds.push(None);
            i = i + 1;
        }
        let ghost mut qs: Seq<int> = Seq::new(MAX_HEIGHT as nat, |l: int| -1int);
        let mut lvl: usize = MAX_HEIGHT;
        let mut cur: Option<usize> = None;
        let ghost mut q: int = -1;
        let mut found: Option<usize> = None;
        while lvl > 0
            invariant
                self.wf(),
                lvl <= MAX_HEIGHT,
                preds@.len() == MAX_HEIGHT,
                qs.len() == MAX_HEIGHT,
                found matches Some(n) ==> n < self.nodes@.len() && key_at(
                    self.nodes@,
                    n as int,
                ).rank() == key.rank(),
                found is Some ==> lvl == 0,
                lvl > 0 ==> -1 <= q < self.levels@[lvl - 1].len(),
                lvl > 0 ==> (q == -1 <==> cur is None),
                lvl > 0 && q >= 0 ==> cur == Some(self.levels@[lvl - 1][q]),
                cur matches Some(c) ==> c < self.nodes@.len() && self.nodes@[c as int].height >= lvl
                    && key_at(self.nodes@, c as int).rank() < key.rank(),
                found is None ==> forall|l: int|
                    lvl <= l < MAX_HEIGHT ==> pred_at(
                        self.nodes@,
                        #[trigger] self.levels@[l],
                        qs[l],
                        preds@[l],
                        *key,
                    ),
            decreases lvl, self.levels@[lvl - 1].len() - q,
        {
            let li = lvl - 1;
            let ghost s = self.levels@[li as int];
            assert(level_ok(self.nodes@, self.lanes@, s, li as int));
            let next = match cur {
                None => self.lanes[li],
                Some(c) => self.nodes[c].next(&mode, li as i32),
            };
            proof {
                if q >= 0 {
                    assert(self.nodes@[s[q] as int].lanes@[li as int] == succ_of(s, q));
                }
                assert(next == succ_of(s, q));
            }
            let descend = match next {
                None => true,
                Some(nx) => {
                    proof {
                        assert(s[q + 1] < self.nodes@.len());
                    }
                    match key.compare(self.nodes[nx].unwrap_key_ref()) {
                        KeyOrder::Greater => {
                            cur = Some(nx);
                            proof {
                                q = q + 1;
                            }
                            false
                        },
                        KeyOrder::Equal => {
                            found = Some(nx);
                            lvl = 0;
                            false
                        },
                        KeyOrder::Less => true,
                    }
                },
            };
            if descend {
                preds.set(li, cur);
                proof {
                    qs = qs.update(li as int, q);
                }
                lvl = li;
                proof {
                    if lvl > 0 {
                        let t = self.levels@[lvl - 1];
                        assert(level_ok(self.nodes@, self.lanes@, t, lvl - 1));
                        match cur {
                            Some(c) => {
                                assert(chain_has(t, c as int));
                                q = choose|j: int| 0 <= j < t.len() && t[j] == c;
                            },
                            None => {
                                q = -1;
                            },
                        }
                    }
                }
            }
        }
        (found, preds, Ghost(qs))
    }
}

} // verus!
