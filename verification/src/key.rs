//! Keys of the skip list: totally ordered values with an integer rank.
use vstd::prelude::*;

verus! {

/// The outcome of comparing two keys.
#[derive(PartialEq, Eq, Structural, Clone, Copy, Debug)]
pub enum KeyOrder {
    Less,
    Equal,
    Greater,
}

/// A key type that the skip list can order.
///
/// Each key has an integer rank; the order of keys is the order of their
/// ranks, and two keys with one rank are the same key.
pub trait OrderedKey: Sized {
    /// The position of the key in the total order.
    spec fn rank(&self) -> int;

    /// Equal ranks mean equal keys.
    proof fn lemma_rank_injective(a: &Self, b: &Self)
        requires
            a.rank() == b.rank(),
        ensures
            *a == *b,
    ;

    /// Compares `self` with `other`.
    fn compare(&self, other: &Self) -> (c: KeyOrder)
        ensures
            c == KeyOrder::Less <==> self.rank() < other.rank(),
            c == KeyOrder::Equal <==> self.rank() == other.rank(),
            c == KeyOrder::Greater <==> self.rank() > other.rank(),
    ;
}

impl OrderedKey for i32 {
    open spec fn rank(&self) -> int {
        *self as int
    }

    proof fn lemma_rank_injective(a: &Self, b: &Self) {
    }

    fn compare(&self, other: &Self) -> (c: KeyOrder) {
        if *self < *other {
            KeyOrder::Less
        } else if *self == *other {
            KeyOrder::Equal
        } else {
            KeyOrder::Greater
        }
    }
}

impl OrderedKey for i64 {
    open spec fn rank(&self) -> int {
        *self as int
    }

    proof fn lemma_rank_injective(a: &Self, b: &Self) {
    }

    fn compare(&self, other: &Self) -> (c: KeyOrder) {
        if *self < *other {
            KeyOrder::Less
        } else if *self == *other {
            KeyOrder::Equal
        } else {
            KeyOrder::Greater
        }
    }
}

impl OrderedKey for u32 {
    open spec fn rank(&self) -> int {
        *self as int
    }

    proof fn lemma_rank_injective(a: &Self, b: &Self) {
    }

    fn compare(&self, other: &Self) -> (c: KeyOrder) {
        if *self < *other {
            KeyOrder::Less
        } else if *self == *other {
            KeyOrder::Equal
        } else {
            KeyOrder::Greater
        }
    }
}

impl OrderedKey for u64 {
    open spec fn rank(&self) -> int {
        *self as int
    }

    proof fn lemma_rank_injective(a: &Self, b: &Self) {
    }

    fn compare(&self, other: &Self) -> (c: KeyOrder) {
        if *self < *other {
            KeyOrder::Less
        } else if *self == *other {
            KeyOrder::Equal
        } else {
            KeyOrder::Greater
        }
    }
}

impl OrderedKey for usize {
    open spec fn rank(&self) -> int {
        *self as int
    }

    proof fn lemma_rank_injective(a: &Self, b: &Self) {
    }

    fn compare(&self, other: &Self) -> (c: KeyOrder) {
        if *self < *other {
            KeyOrder::Less
        } else if *self == *other {
            KeyOrder::Equal
        } else {
            KeyOrder::Greater
        }
    }
}

} // verus!
