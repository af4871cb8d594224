//! The chains of the list's levels: what makes one well formed, and how
//! splicing a node into one, or changing nodes beside it, keeps it so.
use vstd::prelude::*;

use super::MAX_HEIGHT;
use crate::key::OrderedKey;
use crate::node::Node;

verus! {

/// The key held by the node at arena index `i`.
pub(crate) open spec fn key_at<K, V>(nodes: Seq<Node<K, V>>, i: int) -> K {
    nodes[i].k->0
}

/// The node after position `j` of chain `s`.
pub(crate) open spec fn succ_of(s: Seq<usize>, j: int) -> Option<usize> {
    if j + 1 < s.len() {
        Some(s[j + 1])
    } else {
        None
    }
}

/// The first node of chain `s`.
pub(crate) open spec fn first_of(s: Seq<usize>) -> Option<usize> {
    if s.len() == 0 {
        None
    } else {
        Some(s[0])
    }
}

/// Node `i` is on chain `s`.
pub(crate) open spec fn chain_has(s: Seq<usize>, i: int) -> bool {
    exists|j: int| 0 <= j < s.len() && s[j] == i
}

/// A node that the list can hold: it has a key, and one link per level of its tower.
pub(crate) open spec fn node_ok<K, V>(n: Node<K, V>) -> bool {
    &&& n.k is Some
    &&& 1 <= n.height <= MAX_HEIGHT
    &&& n.lanes@.len() == n.height
}

/// `s` is the chain of level `l` of the nodes `nodes` whose heads are `head`.
pub(crate) open spec fn level_ok<K: OrderedKey, V>(
    nodes: Seq<Node<K, V>>,
    head: Seq<Option<usize>>,
    s: Seq<usize>,
    l: int,
) -> bool {
    &&& forall|j: int|
        0 <= j < s.len() ==> (#[trigger] s[j]) < nodes.len() && nodes[s[j] as int].height > l
    &&& forall|a: int, b: int|
        #![trigger s[a], s[b]]
        0 <= a < b < s.len() ==> key_at(nodes, s[a] as int).rank() < key_at(
            nodes,
            s[b] as int,
        ).rank()
    &&& head[l] == first_of(s)
    &&& forall|j: int|
        0 <= j < s.len() ==> #[trigger] nodes[s[j] as int].lanes@[l] == succ_of(s, j)
    &&& forall|i: int| 0 <= i < nodes.len() && nodes[i].height > l ==> #[trigger] chain_has(s, i)
}

/// Position `q` of chain `s` is where `key` goes: the node there (or the head,
/// for `q == -1`) is `p` and holds a smaller key, and the next node a greater one.
pub(crate) open spec fn pred_at<K: OrderedKey, V>(
    nodes: Seq<Node<K, V>>,
    s: Seq<usize>,
    q: int,
    p: Option<usize>,
    key: K,
) -> bool {
    &&& -1 <= q < s.len()
    &&& q == -1 ==> p is None
    &&& q >= 0 ==> p == Some(s[q]) && key_at(nodes, s[q] as int).rank() < key.rank()
    &&& q + 1 < s.len() ==> key_at(nodes, s[q + 1] as int).rank() > key.rank()
}

/// Nodes `n2` have the keys, heights and links of nodes `n1` at level `l`,
/// and the nodes added after them are below level `l`.
pub(crate) open spec fn same_at_level<K, V>(n1: Seq<Node<K, V>>, n2: Seq<Node<K, V>>, l: int) -> bool {
    &&& n1.len() <= n2.len()
    &&& forall|i: int|
        #![trigger n2[i]]
        0 <= i < n1.len() ==> n2[i].k == n1[i].k && n2[i].height == n1[i].height && (n1[i].height
            > l ==> n2[i].lanes@[l] == n1[i].lanes@[l])
    &&& forall|i: int| #![trigger n2[i]] n1.len() <= i < n2.len() ==> n2[i].height <= l
}

/// A chain stays well formed when the nodes keep their keys, heights and
/// links at its level, and the new nodes do not reach it.
pub(crate) proof fn lemma_level_frame<K: OrderedKey, V>(
    n1: Seq<Node<K, V>>,
    h1: Seq<Option<usize>>,
    n2: Seq<Node<K, V>>,
    h2: Seq<Option<usize>>,
    s: Seq<usize>,
    l: int,
)
    requires
        level_ok(n1, h1, s, l),
        same_at_level(n1, n2, l),
        h2[l] == h1[l],
    ensures
        level_ok(n2, h2, s, l),
{
    assert forall|j: int| 0 <= j < s.len() implies #[trigger] n2[s[j] as int].lanes@[l] == succ_of(
        s,
        j,
    ) by {
        assert(n1[s[j] as int].lanes@[l] == succ_of(s, j));
    }
    assert forall|i: int| 0 <= i < n2.len() && n2[i].height > l implies #[trigger] chain_has(
        s,
        i,
    ) by {
        assert(n1[i].height > l);
    }
}

/// The state in which node `m`, with key `key`, has been spliced into chain
/// `s` of level `l` right after position `q` (whose node is `p`, or the head):
/// `n1`/`h1` before, `n2`/`h2` after.
pub(crate) open spec fn spliced<K: OrderedKey, V>(
    n1: Seq<Node<K, V>>,
    h1: Seq<Option<usize>>,
    n2: Seq<Node<K, V>>,
    h2: Seq<Option<usize>>,
    s: Seq<usize>,
    q: int,
    p: Option<usize>,
    m: usize,
    key: K,
    l: int,
) -> bool {
    &&& level_ok(n1, h1, s, l)
    &&& pred_at(n1, s, q, p, key)
    &&& m == n1.len()
    &&& n2.len() == n1.len() + 1
    &&& forall|i: int|
        #![trigger n2[i]]
        0 <= i < n1.len() ==> n2[i].k == n1[i].k && n2[i].height == n1[i].height && (n1[i].height
            > l && p != Some(i as usize) ==> n2[i].lanes@[l] == n1[i].lanes@[l])
    &&& p matches Some(pp) ==> n2[pp as int].lanes@[l] == Some(m)
    &&& n2[m as int].k == Some(key)
    &&& n2[m as int].height > l
    &&& n2[m as int].lanes@[l] == succ_of(s, q)
    &&& h2[l] == (if p is None {
        Some(m)
    } else {
        h1[l]
    })
}

/// The nodes of a chain are distinct.
proof fn lemma_chain_distinct<K: OrderedKey, V>(
    n1: Seq<Node<K, V>>,
    h1: Seq<Option<usize>>,
    s: Seq<usize>,
    l: int,
    a: int,
    b: int,
)
    requires
        level_ok(n1, h1, s, l),
        0 <= a < s.len(),
        0 <= b < s.len(),
        a != b,
    ensures
        s[a] != s[b],
{
    if a < b {
        assert(key_at(n1, s[a] as int).rank() < key_at(n1, s[b] as int).rank());
    } else {
        assert(key_at(n1, s[b] as int).rank() < key_at(n1, s[a] as int).rank());
    }
}

/// After a splice, the chain's nodes, and their keys, are those of `s` with `m` at `q + 1`.
proof fn lemma_splice_keys<K: OrderedKey, V>(
    n1: Seq<Node<K, V>>,
    h1: Seq<Option<usize>>,
    n2: Seq<Node<K, V>>,
    h2: Seq<Option<usize>>,
    s: Seq<usize>,
    q: int,
    p: Option<usize>,
    m: usize,
    key: K,
    l: int,
)
    requires
        spliced(n1, h1, n2, h2, s, q, p, m, key, l),
    ensures
        forall|j: int|
            0 <= j < s.len() + 1 ==> (#[trigger] s.insert(q + 1, m)[j]) < n2.len() && n2[s.insert(
                q + 1,
                m,
            )[j] as int].height > l && key_at(n2, s.insert(q + 1, m)[j] as int) == (if j == q + 1 {
                key
            } else if j <= q {
                key_at(n1, s[j] as int)
            } else {
                key_at(n1, s[j - 1] as int)
            }),
        forall|a: int, b: int|
            #![trigger s.insert(q + 1, m)[a], s.insert(q + 1, m)[b]]
            0 <= a < b < s.len() + 1 ==> key_at(n2, s.insert(q + 1, m)[a] as int).rank() < key_at(
                n2,
                s.insert(q + 1, m)[b] as int,
            ).rank(),
{
    let t = s.insert(q + 1, m);
    assert forall|j: int| 0 <= j < t.len() implies (#[trigger] t[j]) < n2.len() && n2[t[j] as int].height
        > l && key_at(n2, t[j] as int) == (if j == q + 1 {
        key
    } else if j <= q {
        key_at(n1, s[j] as int)
    } else {
        key_at(n1, s[j - 1] as int)
    }) by {
        if j <= q {
            assert(t[j] == s[j]);
            assert(n2[s[j] as int].k == n1[s[j] as int].k);
        } else if j > q + 1 {
            assert(t[j] == s[j - 1]);
            assert(n2[s[j - 1] as int].k == n1[s[j - 1] as int].k);
        }
    }
    assert forall|a: int, b: int| 0 <= a < b < t.len() implies key_at(
        n2,
        #[trigger] t[a] as int,
    ).rank() < key_at(n2, #[trigger] t[b] as int).rank() by {
        if a <= q && b <= q {
            assert(key_at(n1, s[a] as int).rank() < key_at(n1, s[b] as int).rank());
        } else if a <= q && b == q + 1 {
            if a < q {
                assert(key_at(n1, s[a] as int).rank() < key_at(n1, s[q] as int).rank());
            }
        } else if a <= q {
            assert(key_at(n1, s[a] as int).rank() < key_at(n1, s[b - 1] as int).rank());
        } else if a == q + 1 {
            if b - 1 > q + 1 {
                assert(key_at(n1, s[q + 1] as int).rank() < key_at(n1, s[b - 1] as int).rank());
            }
        } else {
            assert(key_at(n1, s[a - 1] as int).rank() < key_at(n1, s[b - 1] as int).rank());
        }
    }
}

/// After a splice, each node of the chain links to the next one.
proof fn lemma_splice_links<K: OrderedKey, V>(
    n1: Seq<Node<K, V>>,
    h1: Seq<Option<usize>>,
    n2: Seq<Node<K, V>>,
    h2: Seq<Option<usize>>,
    s: Seq<usize>,
    q: int,
    p: Option<usize>,
    m: usize,
    key: K,
    l: int,
)
    requires
        spliced(n1, h1, n2, h2, s, q, p, m, key, l),
    ensures
        forall|j: int|
            0 <= j < s.len() + 1 ==> #[trigger] n2[s.insert(q + 1, m)[j] as int].lanes@[l]
                == succ_of(s.insert(q + 1, m), j),
{
    let t = s.insert(q + 1, m);
    assert forall|j: int| 0 <= j < t.len() implies #[trigger] n2[t[j] as int].lanes@[l] == succ_of(
        t,
        j,
    ) by {
        if j < q {
            assert(t[j] == s[j]);
            lemma_chain_distinct(n1, h1, s, l, j, q);
            assert(n1[s[j] as int].lanes@[l] == succ_of(s, j));
            assert(t[j + 1] == s[j + 1]);
        } else if j == q {
            assert(t[j] == s[q]);
        } else if j > q + 1 {
            assert(t[j] == s[j - 1]);
            if q >= 0 {
                lemma_chain_distinct(n1, h1, s, l, j - 1, q);
            }
            assert(n1[s[j - 1] as int].lanes@[l] == succ_of(s, j - 1));
            if j + 1 < t.len() {
                assert(t[j + 1] == s[j]);
            }
        } else {
            if j + 1 < t.len() {
                assert(t[j + 1] == s[q + 1]);
            }
        }
    }
}

/// Splicing node `m` into chain `s` keeps the chain well formed.
pub(crate) proof fn lemma_link_level<K: OrderedKey, V>(
    n1: Seq<Node<K, V>>,
    h1: Seq<Option<usize>>,
    n2: Seq<Node<K, V>>,
    h2: Seq<Option<usize>>,
    s: Seq<usize>,
    q: int,
    p: Option<usize>,
    m: usize,
    key: K,
    l: int,
)
    requires
        spliced(n1, h1, n2, h2, s, q, p, m, key, l),
    ensures
        level_ok(n2, h2, s.insert(q + 1, m), l),
{
    let t = s.insert(q + 1, m);
    lemma_splice_keys(n1, h1, n2, h2, s, q, p, m, key, l);
    lemma_splice_links(n1, h1, n2, h2, s, q, p, m, key, l);
    assert forall|i: int| 0 <= i < n2.len() && n2[i].height > l implies #[trigger] chain_has(t, i) by {
        if i == m {
            assert(t[q + 1] == m);
        } else {
            assert(n1[i].height > l);
            assert(chain_has(s, i));
            let jj = choose|jj: int| 0 <= jj < s.len() && s[jj] == i;
            if jj <= q {
                assert(t[jj] == s[jj]);
            } else {
                assert(t[jj + 1] == s[jj]);
            }
        }
    }
    if q >= 0 {
        assert(t[0] == s[0]);
    }
}

} // verus!
