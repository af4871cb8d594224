//! A node of the skip list: a key, an optional value, and one forward link
//! per level of the node's tower.
use vstd::prelude::*;

verus! {

/// How a list was meant to guard its links. Every operation reads and
/// writes a link the same way in either mode.
#[derive(PartialEq, Eq, Structural, Clone, Copy, Debug)]
pub enum ConcurrentSkiplistMode {
    NoLock,
    OneBigLock,
}

/// A node of the list. `lanes[l]` is the index, in the list's arena, of the
/// next node at level `l`, or `None` at the end of that level.
pub struct Node<K, V> {
    pub k: Option<K>,
    pub v: Option<V>,
    pub height: u8,
    pub lanes: Vec<Option<usize>>,
}

impl<K, V> Node<K, V> {
    /// A fresh node whose tower has `height` levels, all at the end of their level.
    pub fn new(k: K, v: V, height: u8) -> (r: Self)
        ensures
            r.k == Some(k),
            r.v == Some(v),
            r.height == height,
            r.lanes@ == Seq::new(height as nat, |i: int| None::<usize>),
    {
        let mut lanes: Vec<Option<usize>> = Vec::new();
        let mut i: u8 = 0;
        while i < height
            invariant
                i <= height,
                lanes@ == Seq::new(i as nat, |j: int| None::<usize>),
            decreases height - i,
        {
            lanes.push(None);
            i = i + 1;
        }
        Node { k: Some(k), v: Some(v), height, lanes }
    }

    /// The key of the node; the node must hold one.
    pub fn unwrap_key_ref(&self) -> (r: &K)
        requires
            self.k is Some,
        ensures
            *r == self.k->0,
    {
        self.k.as_ref().unwrap()
    }

    /// The next node at level `n`.
    #[allow(unused_variables)]
    pub fn next(&self, mode: &ConcurrentSkiplistMode, n: i32) -> (r: Option<usize>)
        requires
            0 <= n < self.lanes@.len(),
        ensures
            r == self.lanes@[n as int],
    {
        self.lanes[n as usize]
    }

    /// Sets the link at level `n` to `node` if it is `exp`; says whether it did.
    pub fn cas_setnext(&mut self, n: i32, exp: Option<usize>, node: Option<usize>) -> (ok: bool)
        requires
            0 <= n < old(self).lanes@.len(),
        ensures
            ok == (old(self).lanes@[n as int] == exp),
            final(self).lanes@ == (if ok {
                old(self).lanes@.update(n as int, node)
            } else {
                old(self).lanes@
            }),
            final(self).k == old(self).k,
            final(self).v == old(self).v,
            final(self).height == old(self).height,
    {
        let cur = self.lanes[n as usize];
        let same = match (cur, exp) {
            (None, None) => true,
            (Some(a), Some(b)) => a == b,
            _ => false,
        };
        if same {
            self.lanes.set(n as usize, node);
        }
        same
    }

    /// Sets the link at level `n` to `node`.
    #[allow(unused_variables)]
    pub fn set_next(
        &mut self,
        mode: &ConcurrentSkiplistMode,
        n: i32,
        node: Option<usize>,
        locked: bool,
    )
        requires
            0 <= n < old(self).lanes@.len(),
        ensures
            final(self).lanes@ == old(self).lanes@.update(n as int, node),
            final(self).k == old(self).k,
            final(self).v == old(self).v,
            final(self).height == old(self).height,
    {
        self.lanes.set(n as usize, node);
    }

    /// The next node at level `n`, read without ordering the read against others.
    #[allow(unused_variables)]
    pub fn nobarrier_next(&self, mode: &ConcurrentSkiplistMode, n: i32, locked: bool) -> (r:
        Option<usize>)
        requires
            0 <= n < self.lanes@.len(),
        ensures
            r == self.lanes@[n as int],
    {
        self.lanes[n as usize]
    }

    /// Sets the link at level `n` to `node`, without ordering the write against others.
    #[allow(unused_variables)]
    pub fn nobarrier_set_next(&mut self, mode: &ConcurrentSkiplistMode, n: i32, node: Option<usize>)
        requires
            0 <= n < old(self).lanes@.len(),
        ensures
            final(self).lanes@ == old(self).lanes@.update(n as int, node),
            final(self).k == old(self).k,
            final(self).v == old(self).v,
            final(self).height == old(self).height,
    {
        self.lanes.set(n as usize, node);
    }

    /// The number of levels of the node's tower.
    pub fn height(&self) -> (r: usize)
        ensures
            r == self.height,
    {
        self.height as usize
    }

    /// The forward links of the node, lowest level first.
    pub fn lanes(&self) -> (r: &[Option<usize>])
        ensures
            r@ == self.lanes@,
    {
        self.lanes.as_slice()
    }
}

} // verus!
