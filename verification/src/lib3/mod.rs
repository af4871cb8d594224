//! The skip list: its layout, its invariant, its model, and its constructor.
mod chain;
mod find;
mod get;
mod insert;
mod delete;
mod trait_impl;
pub mod laws;

use vstd::prelude::*;

use crate::key::OrderedKey;
use crate::model::{entries_map, inserted_once, present, strictly_sorted};
use crate::node::Node;
use chain::{key_at, level_ok, node_ok};

verus! {

/// The number of levels of the list.
pub const MAX_HEIGHT: usize = 31;

/// An ordered map kept as a skip list.
///
/// The nodes live in an arena, `nodes`, and link to each other by index.
/// `lanes[l]` is the first node of level `l`; the chain of level `l` runs
/// through the links at level `l` of the nodes, in increasing key order.
/// A node whose tower has `h` levels is in the chains of levels `0..h`.
/// Deleting a key empties its node's value and leaves the node in place.
pub struct SkipListjjj<K, V> {
    current_height: u8,
    lanes: Vec<Option<usize>>,
    nodes: Vec<Node<K, V>>,
    /// `levels[l]` lists the arena indices of the chain of level `l`, in order.
    levels: Ghost<Seq<Seq<usize>>>,
}

impl<K: OrderedKey, V> SkipListjjj<K, V> {
    /// The invariant of the list.
    pub closed spec fn wf(&self) -> bool {
        &&& self.lanes@.len() == MAX_HEIGHT
        &&& self.levels@.len() == MAX_HEIGHT
        &&& forall|i: int| 0 <= i < self.nodes@.len() ==> node_ok(#[trigger] self.nodes@[i])
        &&& forall|l: int|
            0 <= l < MAX_HEIGHT ==> level_ok(self.nodes@, self.lanes@, #[trigger] self.levels@[l], l)
        &&& self.current_height <= MAX_HEIGHT
        &&& forall|i: int|
            0 <= i < self.nodes@.len() ==> (#[trigger] self.nodes@[i]).height <= self.current_height
    }

    /// Every slot of the lowest level, in key order: each node's key and value.
    pub closed spec fn slots(&self) -> Seq<(K, Option<V>)> {
        self.levels@[0].map_values(|i: usize| (key_at(self.nodes@, i as int), self.nodes@[i as int].v))
    }

    /// The current height of the list: the number of levels that a descent
    /// is meant to need. It only grows, as taller nodes are linked.
    pub closed spec fn height(&self) -> nat {
        self.current_height as nat
    }

    /// The head links: `head()[l]` is the first node of level `l`.
    pub closed spec fn head(&self) -> Seq<Option<usize>> {
        self.lanes@
    }

    /// The number of nodes in the arena.
    pub closed spec fn node_count(&self) -> nat {
        self.nodes@.len()
    }

    /// The number of levels of the tower of node `i`.
    pub closed spec fn tower(&self, i: int) -> nat {
        self.nodes@[i].height as nat
    }

    /// The arena indices of the chain of level `l`, in order.
    pub closed spec fn chain(&self, l: int) -> Seq<usize> {
        self.levels@[l]
    }

    /// Some node of the lowest level holds the key `k`, with or without a value.
    pub closed spec fn holds_key(&self, k: K) -> bool {
        exists|i: int| 0 <= i < self.slots().len() && self.slots()[i].0 == k
    }

    /// `self` has the layout of `before`: the same height, head links, nodes,
    /// towers and chains (the values in the nodes may differ).
    pub open spec fn same_layout(&self, before: &Self) -> bool {
        &&& self.height() == before.height()
        &&& self.head() == before.head()
        &&& self.node_count() == before.node_count()
        &&& forall|l: int| #[trigger] self.chain(l) == before.chain(l)
        &&& forall|i: int| 0 <= i < before.node_count() ==> #[trigger] self.tower(i) == before.tower(i)
    }

    /// `self` is `before` with one node added at the end of the arena: its
    /// tower has between one and `MAX_HEIGHT` levels, the height rose to that
    /// tower's if it was lower, the other towers stay, and each chain of the new
    /// tower's levels is the old chain with the new node put in at one place,
    /// every old node kept in order, while the chains above it stay.
    pub open spec fn linked_one(&self, before: &Self) -> bool {
        let m = before.node_count();
        &&& self.node_count() == m + 1
        &&& 1 <= self.tower(m as int) <= MAX_HEIGHT
        &&& self.height() == (if before.height() < self.tower(m as int) {
            self.tower(m as int)
        } else {
            before.height()
        })
        &&& forall|i: int| 0 <= i < m ==> #[trigger] self.tower(i) == before.tower(i)
        &&& forall|l: int|
            0 <= l < self.tower(m as int) ==> #[trigger] inserted_once(
                before.chain(l),
                self.chain(l),
                m as usize,
            )
        &&& forall|l: int|
            self.tower(m as int) <= l < MAX_HEIGHT ==> #[trigger] self.chain(l) == before.chain(l)
    }

    /// The keys that hold a value, with their values, in increasing key order.
    pub closed spec fn entries(&self) -> Seq<(K, V)> {
        present(self.slots())
    }

    /// A well-formed list: its slots are in strictly increasing key order, one
    /// per node of the lowest chain; every node's tower has between one and
    /// `height()` levels; and the height is at most `MAX_HEIGHT`.
    pub proof fn lemma_slots_sorted(&self)
        requires
            self.wf(),
        ensures
            strictly_sorted(self.slots()),
            self.slots().len() == self.chain(0).len(),
            self.height() <= MAX_HEIGHT,
            self.head().len() == MAX_HEIGHT,
            forall|i: int|
                0 <= i < self.node_count() ==> 1 <= #[trigger] self.tower(i) <= self.height(),
    {
        assert forall|i: int| 0 <= i < self.node_count() implies 1 <= #[trigger] self.tower(i)
            <= self.height() by {
            assert(node_ok(self.nodes@[i]));
        }
        let s = self.levels@[0];
        assert(level_ok(self.nodes@, self.lanes@, s, 0));
        let t = self.slots();
        assert forall|i: int, j: int| 0 <= i < j < t.len() implies #[trigger] t[i].0.rank()
            < #[trigger] t[j].0.rank() by {
            assert(t[i].0 == key_at(self.nodes@, s[i] as int));
            assert(t[j].0 == key_at(self.nodes@, s[j] as int));
        }
    }

    /// The entries of a well-formed list are in strictly increasing key order.
    pub proof fn lemma_entries_sorted(&self)
        requires
            self.wf(),
        ensures
            strictly_sorted(self.entries()),
    {
        self.lemma_slots_sorted();
        crate::model::lemma_present_sorted(self.slots());
    }

    /// An empty list.
    pub fn new() -> (r: SkipListjjj<K, V>)
        ensures
            r.wf(),
            r.entries() == Seq::<(K, V)>::empty(),
            r@ == Map::<K, V>::empty(),
            r.height() == 8,
            r.head() == Seq::new(MAX_HEIGHT as nat, |l: int| None::<usize>),
            r.node_count() == 0,
            forall|l: int| 0 <= l < MAX_HEIGHT ==> #[trigger] r.chain(l) == Seq::<usize>::empty(),
    {
        let mut lanes: Vec<Option<usize>> = Vec::new();
        let mut i: usize = 0;
        while i < MAX_HEIGHT
            invariant
                i <= MAX_HEIGHT,
                lanes@ == Seq::new(i as nat, |j: int| None::<usize>),
            decreases MAX_HEIGHT - i,
        {
            lanes.push(None);
            i = i + 1;
        }
        let r = SkipListjjj {
            current_height: 8,
            lanes,
            nodes: Vec::new(),
            levels: Ghost(Seq::new(MAX_HEIGHT as nat, |l: int| Seq::<usize>::empty())),
        };
        assert forall|l: int| 0 <= l < MAX_HEIGHT implies level_ok(
            r.nodes@,
            r.lanes@,
            #[trigger] r.levels@[l],
            l,
        ) by {}
        assert(r.slots() =~= Seq::<(K, Option<V>)>::empty());
        r
    }
}

impl<K: OrderedKey, V> View for SkipListjjj<K, V> {
    type V = Map<K, V>;

    /// The map from each key that holds a value to that value.
    open spec fn view(&self) -> Map<K, V> {
        entries_map(self.entries())
    }
}

/// A height drawn at random: `1 + t`, where `t` is the number of trailing
/// zero bits of `bits` with bit 30 set, so that a height is half as likely
/// as the one below it and never exceeds `MAX_HEIGHT`.
pub fn height_from_bits(bits: u32) -> (h: usize)
    ensures
        h == 1 + (bits | 0x4000_0000u32).trailing_zeros(),
        1 <= h <= MAX_HEIGHT,
{
    let x: u32 = bits | 0x4000_0000u32;
    let t = x.trailing_zeros();
    proof {
        vstd::std_specs::bits::axiom_u32_trailing_zeros(x);
        assert((x >> 30u32) & 1u32 == 1u32) by (bit_vector)
            requires
                x == bits | 0x4000_0000u32,
        ;
    }
    1 + t as usize
}

/// A random height for a new node: drawn from operating-system randomness,
/// or 1 when the operating system cannot supply any.
fn random_height() -> (h: usize)
    ensures
        1 <= h <= MAX_HEIGHT,
{
    match random_u32() {
        Some(bits) => height_from_bits(bits),
        None => 1,
    }
}

/// Calls `rand::RngCore::try_fill_bytes` on `rand::rngs::OsRng` for four bytes
/// and reads them as a little-endian `u32`; `None` when the operating system
/// reports an error. The call returns its error rather than panicking. Every
/// `u32` may come back, and whether the draw succeeds depends on the system,
/// so nothing is claimed of the result.
#[verifier::external_body]
fn random_u32() -> (r: Option<u32>) {
    let mut buf = [0u8; 4];
    match rand::RngCore::try_fill_bytes(&mut rand::rngs::OsRng, &mut buf) {
        Ok(()) => Some(u32::from_le_bytes(buf)),
        Err(_) => None,
    }
}

} // verus!
