//! The mathematical model of the list: a sequence of key/value entries
//! ordered by key, and what a range read gives back of it.
use vstd::prelude::*;

use crate::key::OrderedKey;

verus! {

/// `k` lies in the half-open range `[lo, hi)`.
pub open spec fn in_range<K: OrderedKey>(k: K, lo: K, hi: K) -> bool {
    lo.rank() <= k.rank() && k.rank() < hi.rank()
}

/// The set of keys in the half-open range `[lo, hi)`.
pub open spec fn key_range<K: OrderedKey>(lo: K, hi: K) -> Set<K> {
    Set::new(|k: K| in_range(k, lo, hi))
}

/// The keys of `s` strictly increase from first to last.
pub open spec fn strictly_sorted<K: OrderedKey, T>(s: Seq<(K, T)>) -> bool {
    forall|i: int, j: int|
        #![trigger s[i], s[j]]
        0 <= i < j < s.len() ==> s[i].0.rank() < s[j].0.rank()
}

/// The entries of `s` that hold a value, in the order of `s`.
pub open spec fn present<K, V>(s: Seq<(K, Option<V>)>) -> Seq<(K, V)>
    decreases s.len(),
{
    if s.len() == 0 {
        Seq::empty()
    } else {
        let rest = present(s.drop_last());
        match s.last().1 {
            Some(v) => rest.push((s.last().0, v)),
            None => rest,
        }
    }
}

/// The values of the entries of `e` whose keys lie in `[lo, hi)`, in the order of `e`.
pub open spec fn range_values<K: OrderedKey, V>(e: Seq<(K, V)>, lo: K, hi: K) -> Seq<V>
    decreases e.len(),
{
    if e.len() == 0 {
        Seq::empty()
    } else {
        let rest = range_values(e.drop_last(), lo, hi);
        if in_range(e.last().0, lo, hi) {
            rest.push(e.last().1)
        } else {
            rest
        }
    }
}

/// `t` is `s` with `x` inserted at one position, every element of `s` kept in order.
pub open spec fn inserted_once<T>(s: Seq<T>, t: Seq<T>, x: T) -> bool {
    exists|p: int| 0 <= p <= s.len() && t == s.insert(p, x)
}

/// The keys of the entries of `e` that lie in `[lo, hi)`, in the order of `e`.
pub open spec fn range_keys<K: OrderedKey, V>(e: Seq<(K, V)>, lo: K, hi: K) -> Seq<K>
    decreases e.len(),
{
    if e.len() == 0 {
        Seq::empty()
    } else {
        let rest = range_keys(e.drop_last(), lo, hi);
        if in_range(e.last().0, lo, hi) {
            rest.push(e.last().0)
        } else {
            rest
        }
    }
}

/// The map from key to value that the entries of `e` describe.
pub open spec fn entries_map<K, V>(e: Seq<(K, V)>) -> Map<K, V>
    decreases e.len(),
{
    if e.len() == 0 {
        Map::empty()
    } else {
        entries_map(e.drop_last()).insert(e.last().0, e.last().1)
    }
}

/// Every entry that `present` keeps comes from an entry of `s` that holds its value.
pub proof fn lemma_present_from<K, V>(s: Seq<(K, Option<V>)>)
    ensures
        present(s).len() <= s.len(),
        forall|i: int|
            0 <= i < present(s).len() ==> exists|j: int|
                0 <= j < s.len() && s[j].0 == (#[trigger] present(s)[i]).0 && s[j].1 == Some(
                    present(s)[i].1,
                ),
    decreases s.len(),
{
    if s.len() > 0 {
        let d = s.drop_last();
        lemma_present_from(d);
        assert forall|i: int| 0 <= i < present(s).len() implies exists|j: int|
            0 <= j < s.len() && s[j].0 == (#[trigger] present(s)[i]).0 && s[j].1 == Some(
                present(s)[i].1,
            ) by {
            if i < present(d).len() {
                assert(present(s)[i] == present(d)[i]);
                let j = choose|j: int|
                    0 <= j < d.len() && d[j].0 == present(d)[i].0 && d[j].1 == Some(
                        present(d)[i].1,
                    );
                assert(s[j] == d[j]);
            } else {
                assert(s[s.len() - 1] == s.last());
            }
        }
    }
}

/// Keeping the entries that hold a value keeps the order of keys.
pub proof fn lemma_present_sorted<K: OrderedKey, V>(s: Seq<(K, Option<V>)>)
    requires
        strictly_sorted(s),
    ensures
        strictly_sorted(present(s)),
    decreases s.len(),
{
    if s.len() > 0 {
        let d = s.drop_last();
        assert(strictly_sorted(d));
        lemma_present_sorted(d);
        lemma_present_from(d);
        if s.last().1 is Some {
            let p = present(s);
            assert forall|i: int, j: int| 0 <= i < j < p.len() implies #[trigger] p[i].0.rank()
                < #[trigger] p[j].0.rank() by {
                if j == p.len() - 1 {
                    assert(p[i] == present(d)[i]);
                    let jj = choose|jj: int|
                        0 <= jj < d.len() && d[jj].0 == (#[trigger] present(d)[i]).0 && d[jj].1
                            == Some(present(d)[i].1);
                    assert(s[jj] == d[jj]);
                    assert(s[s.len() - 1] == s.last());
                } else {
                    assert(p[i] == present(d)[i]);
                    assert(p[j] == present(d)[j]);
                }
            }
        }
    }
}

/// `entries_map(present(s))` in terms of the slots before the last one.
pub proof fn lemma_map_present_last<K, V>(s: Seq<(K, Option<V>)>)
    requires
        s.len() > 0,
    ensures
        entries_map(present(s)) == (match s.last().1 {
            Some(v) => entries_map(present(s.drop_last())).insert(s.last().0, v),
            None => entries_map(present(s.drop_last())),
        }),
{
    if s.last().1 is Some {
        let p = present(s);
        assert(p.drop_last() =~= present(s.drop_last()));
    }
}

/// `range_values(present(s), ..)` in terms of the slots before the last one.
pub proof fn lemma_range_present_last<K: OrderedKey, V>(s: Seq<(K, Option<V>)>, lo: K, hi: K)
    requires
        s.len() > 0,
    ensures
        range_values(present(s), lo, hi) == (if in_range(s.last().0, lo, hi)
            && s.last().1 is Some {
            range_values(present(s.drop_last()), lo, hi).push(s.last().1.unwrap())
        } else {
            range_values(present(s.drop_last()), lo, hi)
        }),
{
    if s.last().1 is Some {
        let p = present(s);
        assert(p.drop_last() =~= present(s.drop_last()));
    }
}

/// Entries of `s` from index `j` on whose keys lie outside `[lo, hi)` add nothing
/// to a range read.
pub proof fn lemma_range_values_prefix<K: OrderedKey, V>(
    s: Seq<(K, Option<V>)>,
    j: int,
    lo: K,
    hi: K,
)
    requires
        0 <= j <= s.len(),
        forall|i: int| j <= i < s.len() ==> !in_range(#[trigger] s[i].0, lo, hi),
    ensures
        range_values(present(s), lo, hi) == range_values(present(s.take(j)), lo, hi),
    decreases s.len(),
{
    if s.len() == j {
        assert(s.take(j) =~= s);
    } else {
        let d = s.drop_last();
        assert(d.take(j) =~= s.take(j));
        assert forall|i: int| j <= i < d.len() implies !in_range(#[trigger] d[i].0, lo, hi) by {
            assert(d[i] == s[i]);
        }
        lemma_range_values_prefix(d, j, lo, hi);
        assert(s[s.len() - 1] == s.last());
        lemma_range_present_last(s, lo, hi);
    }
}

/// One more slot of a scan: the read of `s.take(j + 1)` extends that of `s.take(j)`.
pub proof fn lemma_range_values_step<K: OrderedKey, V>(
    s: Seq<(K, Option<V>)>,
    j: int,
    lo: K,
    hi: K,
)
    requires
        0 <= j < s.len(),
    ensures
        range_values(present(s.take(j + 1)), lo, hi) == (if in_range(s[j].0, lo, hi)
            && s[j].1 is Some {
            range_values(present(s.take(j)), lo, hi).push(s[j].1.unwrap())
        } else {
            range_values(present(s.take(j)), lo, hi)
        }),
{
    let t = s.take(j + 1);
    assert(t.drop_last() =~= s.take(j));
    assert(t.last() == s[j]);
    lemma_range_present_last(t, lo, hi);
}

/// Every key of the map of `present(s)` is the key of some entry of `s`.
pub proof fn lemma_map_keys_from<K, V>(s: Seq<(K, Option<V>)>, k: K)
    requires
        entries_map(present(s)).contains_key(k),
    ensures
        exists|i: int| 0 <= i < s.len() && s[i].0 == k,
    decreases s.len(),
{
    let d = s.drop_last();
    assert(s.len() > 0);
    if s.last().1 is Some && s.last().0 == k {
        assert(s[s.len() - 1] == s.last());
    } else {
        lemma_map_present_last(s);
        lemma_map_keys_from(d, k);
        let i = choose|i: int| 0 <= i < d.len() && d[i].0 == k;
        assert(s[i] == d[i]);
    }
}

/// Writing `x` into slot `q` of a sorted `s`: the map gains or loses that key,
/// and the slot held a value exactly when the key was in the map.
pub proof fn lemma_update_slot<K: OrderedKey, V>(s: Seq<(K, Option<V>)>, q: int, x: Option<V>)
    requires
        strictly_sorted(s),
        0 <= q < s.len(),
    ensures
        entries_map(present(s)).contains_key(s[q].0) <==> s[q].1 is Some,
        s[q].1 is Some ==> entries_map(present(s))[s[q].0] == s[q].1.unwrap(),
        entries_map(present(s.update(q, (s[q].0, x)))) == (match x {
            Some(v) => entries_map(present(s)).insert(s[q].0, v),
            None => entries_map(present(s)).remove(s[q].0),
        }),
    decreases s.len(),
{
    let k = s[q].0;
    let t = s.update(q, (k, x));
    let d = s.drop_last();
    let td = t.drop_last();
    lemma_map_present_last(s);
    lemma_map_present_last(t);
    if q == s.len() - 1 {
        assert(td =~= d);
        assert(s.last() == s[q]);
        if !(d.len() == 0) {
            if entries_map(present(d)).contains_key(k) {
                lemma_map_keys_from(d, k);
                let i = choose|i: int| 0 <= i < d.len() && d[i].0 == k;
                assert(s[i] == d[i]);
                assert(s[i].0.rank() < s[q].0.rank());
            }
        }
        assert(entries_map(present(t)) =~= (match x {
            Some(v) => entries_map(present(s)).insert(k, v),
            None => entries_map(present(s)).remove(k),
        }));
    } else {
        assert(strictly_sorted(d));
        assert(d[q] == s[q]);
        lemma_update_slot(d, q, x);
        assert(td =~= d.update(q, (k, x)));
        let l = s.last();
        assert(s[s.len() - 1] == l);
        assert(t.last() == l);
        assert(l.0 != k) by {
            assert(s[q].0.rank() < s[s.len() - 1].0.rank());
        }
        assert(entries_map(present(t)) =~= (match x {
            Some(v) => entries_map(present(s)).insert(k, v),
            None => entries_map(present(s)).remove(k),
        }));
    }
}

/// Inserting the entry `(k, x)` at position `p` of `s`, where the result stays
/// sorted: the key was not in the map, and the map gains it if `x` holds a value.
pub proof fn lemma_insert_slot<K: OrderedKey, V>(
    s: Seq<(K, Option<V>)>,
    p: int,
    k: K,
    x: Option<V>,
)
    requires
        0 <= p <= s.len(),
        strictly_sorted(s.insert(p, (k, x))),
    ensures
        !entries_map(present(s)).contains_key(k),
        entries_map(present(s.insert(p, (k, x)))) == (match x {
            Some(v) => entries_map(present(s)).insert(k, v),
            None => entries_map(present(s)),
        }),
    decreases s.len(),
{
    let t = s.insert(p, (k, x));
    if entries_map(present(s)).contains_key(k) {
        lemma_map_keys_from(s, k);
        let i = choose|i: int| 0 <= i < s.len() && s[i].0 == k;
        if i < p {
            assert(t[i] == s[i]);
            assert(t[i].0.rank() < t[p].0.rank());
        } else {
            assert(t[i + 1] == s[i]);
            assert(t[p].0.rank() < t[i + 1].0.rank());
        }
    }
    lemma_map_present_last(t);
    if p == s.len() {
        assert(t.drop_last() =~= s);
        assert(t.last() == (k, x));
        assert(entries_map(present(t)) =~= (match x {
            Some(v) => entries_map(present(s)).insert(k, v),
            None => entries_map(present(s)),
        }));
    } else {
        let d = s.drop_last();
        assert(t.drop_last() =~= d.insert(p, (k, x)));
        assert(strictly_sorted(d.insert(p, (k, x)))) by {
            let u = d.insert(p, (k, x));
            assert forall|i: int, j: int| 0 <= i < j < u.len() implies #[trigger] u[i].0.rank()
                < #[trigger] u[j].0.rank() by {
                assert(u[i] == t[i]);
                assert(u[j] == t[j]);
            }
        }
        lemma_insert_slot(d, p, k, x);
        lemma_map_present_last(s);
        let l = s.last();
        assert(t.last() == l);
        assert(t[t.len() - 1] == l);
        assert(l.0 != k) by {
            assert(t[p].0.rank() < t[t.len() - 1].0.rank());
        }
        assert(entries_map(present(t)) =~= (match x {
            Some(v) => entries_map(present(s)).insert(k, v),
            None => entries_map(present(s)),
        }));
    }
}

/// Emptying the slots whose keys lie in `[lo, hi)` removes exactly those keys
/// from the map.
pub proof fn lemma_clear_range<K: OrderedKey, V>(
    s: Seq<(K, Option<V>)>,
    t: Seq<(K, Option<V>)>,
    lo: K,
    hi: K,
)
    requires
        t.len() == s.len(),
        forall|i: int|
            0 <= i < s.len() ==> (#[trigger] t[i]).0 == s[i].0 && t[i].1 == (if in_range(
                s[i].0,
                lo,
                hi,
            ) {
                None
            } else {
                s[i].1
            }),
    ensures
        entries_map(present(t)) == entries_map(present(s)).remove_keys(key_range(lo, hi)),
    decreases s.len(),
{
    if s.len() == 0 {
        assert(entries_map(present(t)) =~= entries_map(present(s)).remove_keys(
            key_range(lo, hi),
        ));
    } else {
        let d = s.drop_last();
        let e = t.drop_last();
        assert forall|i: int| 0 <= i < d.len() implies (#[trigger] e[i]).0 == d[i].0 && e[i].1
            == (if in_range(d[i].0, lo, hi) {
            None
        } else {
            d[i].1
        }) by {
            assert(e[i] == t[i]);
            assert(d[i] == s[i]);
        }
        lemma_clear_range(d, e, lo, hi);
        lemma_map_present_last(s);
        lemma_map_present_last(t);
        assert(t[t.len() - 1] == t.last());
        assert(s[s.len() - 1] == s.last());
        assert(entries_map(present(t)) =~= entries_map(present(s)).remove_keys(
            key_range(lo, hi),
        ));
    }
}

/// Every key of the map of `e` is the key of an entry of `e`.
pub proof fn lemma_entries_map_keys<K, V>(e: Seq<(K, V)>, k: K)
    requires
        entries_map(e).contains_key(k),
    ensures
        exists|i: int| 0 <= i < e.len() && e[i].0 == k,
    decreases e.len(),
{
    if e.last().0 == k {
        assert(e[e.len() - 1] == e.last());
    } else {
        lemma_entries_map_keys(e.drop_last(), k);
        let i = choose|i: int| 0 <= i < e.drop_last().len() && e.drop_last()[i].0 == k;
        assert(e[i] == e.drop_last()[i]);
    }
}

/// In the map of a sorted `e`, each entry's key maps to the entry's value.
pub proof fn lemma_entries_map_index<K: OrderedKey, V>(e: Seq<(K, V)>)
    requires
        strictly_sorted(e),
    ensures
        forall|i: int|
            0 <= i < e.len() ==> entries_map(e).contains_key((#[trigger] e[i]).0) && entries_map(
                e,
            )[e[i].0] == e[i].1,
    decreases e.len(),
{
    if e.len() > 0 {
        let d = e.drop_last();
        assert(strictly_sorted(d));
        lemma_entries_map_index(d);
        assert forall|i: int| 0 <= i < e.len() implies entries_map(e).contains_key(
            (#[trigger] e[i]).0,
        ) && entries_map(e)[e[i].0] == e[i].1 by {
            if i < e.len() - 1 {
                assert(e[i] == d[i]);
                assert(e[i].0.rank() < e[e.len() - 1].0.rank());
            } else {
                assert(e[i] == e.last());
            }
        }
    }
}

/// A range that no entry's key lies in reads nothing.
pub proof fn lemma_range_values_none<K: OrderedKey, V>(e: Seq<(K, V)>, lo: K, hi: K)
    requires
        forall|i: int| 0 <= i < e.len() ==> !in_range(#[trigger] e[i].0, lo, hi),
    ensures
        range_values(e, lo, hi) == Seq::<V>::empty(),
    decreases e.len(),
{
    if e.len() > 0 {
        let d = e.drop_last();
        assert forall|i: int| 0 <= i < d.len() implies !in_range(#[trigger] d[i].0, lo, hi) by {
            assert(d[i] == e[i]);
        }
        lemma_range_values_none(d, lo, hi);
        assert(e[e.len() - 1] == e.last());
    }
}

/// A range that only the entry at `q` lies in reads that entry's value.
pub proof fn lemma_range_values_single<K: OrderedKey, V>(e: Seq<(K, V)>, q: int, lo: K, hi: K)
    requires
        0 <= q < e.len(),
        in_range(e[q].0, lo, hi),
        forall|i: int| 0 <= i < e.len() && i != q ==> !in_range(#[trigger] e[i].0, lo, hi),
    ensures
        range_values(e, lo, hi) == seq![e[q].1],
    decreases e.len(),
{
    let d = e.drop_last();
    if q == e.len() - 1 {
        assert forall|i: int| 0 <= i < d.len() implies !in_range(#[trigger] d[i].0, lo, hi) by {
            assert(d[i] == e[i]);
        }
        lemma_range_values_none(d, lo, hi);
        assert(e.last() == e[q]);
        assert(range_values(e, lo, hi) =~= seq![e[q].1]);
    } else {
        assert(d[q] == e[q]);
        assert forall|i: int| 0 <= i < d.len() && i != q implies !in_range(
            #[trigger] d[i].0,
            lo,
            hi,
        ) by {
            assert(d[i] == e[i]);
        }
        lemma_range_values_single(d, q, lo, hi);
        assert(e[e.len() - 1] == e.last());
    }
}

/// For sorted `e`, the keys that a range read visits are the map's keys in
/// `[lo, hi)`, increasing, and the values it gives back are theirs in the map.
pub proof fn lemma_range_keys<K: OrderedKey, V>(e: Seq<(K, V)>, lo: K, hi: K)
    requires
        strictly_sorted(e),
    ensures
        range_values(e, lo, hi) == range_keys(e, lo, hi).map_values(|k: K| entries_map(e)[k]),
        forall|i: int, j: int|
            #![trigger range_keys(e, lo, hi)[i], range_keys(e, lo, hi)[j]]
            0 <= i < j < range_keys(e, lo, hi).len() ==> range_keys(e, lo, hi)[i].rank()
                < range_keys(e, lo, hi)[j].rank(),
        forall|k: K|
            #[trigger] range_keys(e, lo, hi).contains(k) <==> entries_map(e).contains_key(k)
                && in_range(k, lo, hi),
    decreases e.len(),
{
    let ks = range_keys(e, lo, hi);
    let m = entries_map(e);
    if e.len() == 0 {
        assert(range_values(e, lo, hi) =~= ks.map_values(|k: K| m[k]));
    } else {
        let d = e.drop_last();
        let l = e.last();
        let kd = range_keys(d, lo, hi);
        let md = entries_map(d);
        assert(strictly_sorted(d));
        lemma_range_keys(d, lo, hi);
        assert(e[e.len() - 1] == l);
        assert forall|x: int| 0 <= x < kd.len() implies (#[trigger] kd[x]).rank() < l.0.rank()
            && kd[x] != l.0 by {
            assert(kd.contains(kd[x]));
            lemma_entries_map_keys(d, kd[x]);
            let i = choose|i: int| 0 <= i < d.len() && d[i].0 == kd[x];
            assert(d[i] == e[i]);
        }
        assert(kd.map_values(|k: K| m[k]) =~= kd.map_values(|k: K| md[k])) by {
            assert forall|x: int| #![trigger kd[x]] 0 <= x < kd.len() implies kd.map_values(|k: K| m[k])[x]
                == kd.map_values(|k: K| md[k])[x] by {
                assert(kd[x] != l.0);
            }
        }
        if in_range(l.0, lo, hi) {
            assert(ks == kd.push(l.0));
            assert(range_values(e, lo, hi) =~= ks.map_values(|k: K| m[k]));
            assert forall|k: K| #[trigger] ks.contains(k) <==> m.contains_key(k) && in_range(
                k,
                lo,
                hi,
            ) by {
                if ks.contains(k) && k != l.0 {
                    let x = choose|x: int| 0 <= x < ks.len() && ks[x] == k;
                    assert(x < kd.len());
                    assert(kd[x] == k);
                    assert(kd.contains(k));
                }
                if m.contains_key(k) && in_range(k, lo, hi) && k != l.0 {
                    assert(md.contains_key(k));
                    assert(kd.contains(k));
                    let x = choose|x: int| 0 <= x < kd.len() && kd[x] == k;
                    assert(ks[x] == kd[x]);
                }
                if k == l.0 {
                    assert(ks[ks.len() - 1] == k);
                }
            }
        } else {
            assert(ks == kd);
            assert forall|k: K| #[trigger] ks.contains(k) <==> m.contains_key(k) && in_range(
                k,
                lo,
                hi,
            ) by {
                if m.contains_key(k) && in_range(k, lo, hi) {
                    assert(k != l.0);
                    assert(md.contains_key(k));
                }
            }
        }
    }
}

} // verus!
