//! The abstract model of a container: its entries as a sequence of
//! `(key, value)` pairs in ascending key order, and what each operation
//! does to that sequence.
use vstd::prelude::*;

use crate::order::KeyOrder;

verus! {

/// Keys strictly increase along `s` in the order `c`: no key occurs twice.
pub open spec fn sorted<K, V, C: KeyOrder<K>>(c: C, s: Seq<(K, V)>) -> bool {
    forall|a: int, b: int| 0 <= a < b < s.len() ==> c.lt(#[trigger] s[a].0, #[trigger] s[b].0)
}

/// The number of leading entries whose key is below `k`; in a sorted
/// sequence, the index at which `k` stands or would be inserted.
pub open spec fn position<K, V, C: KeyOrder<K>>(c: C, s: Seq<(K, V)>, k: K) -> nat
    decreases s.len(),
{
    if s.len() == 0 {
        0
    } else if c.lt(s[0].0, k) {
        1 + position(c, s.drop_first(), k)
    } else {
        0
    }
}

/// The value stored under `k`, if any.
pub open spec fn lookup<K, V, C: KeyOrder<K>>(c: C, s: Seq<(K, V)>, k: K) -> Option<V> {
    let p = position(c, s, k) as int;
    if p < s.len() && s[p].0 == k {
        Some(s[p].1)
    } else {
        None
    }
}

/// The entries after storing `v` under `k`: the value is replaced where the
/// key is present, else a new entry goes in at its place in key order.
pub open spec fn inserted<K, V, C: KeyOrder<K>>(c: C, s: Seq<(K, V)>, k: K, v: V) -> Seq<(K, V)> {
    let p = position(c, s, k) as int;
    if p < s.len() && s[p].0 == k {
        s.update(p, (k, v))
    } else {
        s.insert(p, (k, v))
    }
}

/// The entries after taking out the entry of `k`, if there is one.
pub open spec fn removed<K, V, C: KeyOrder<K>>(c: C, s: Seq<(K, V)>, k: K) -> Seq<(K, V)> {
    let p = position(c, s, k) as int;
    if p < s.len() && s[p].0 == k {
        s.remove(p)
    } else {
        s
    }
}

/// Inserting each pair of `pairs` in turn, starting from no entries.
pub open spec fn insert_all<K, V, C: KeyOrder<K>>(c: C, pairs: Seq<(K, V)>) -> Seq<(K, V)>
    decreases pairs.len(),
{
    if pairs.len() == 0 {
        Seq::empty()
    } else {
        let last = pairs.last();
        inserted(c, insert_all(c, pairs.drop_last()), last.0, last.1)
    }
}

/// Removing each key of `keys` in turn from `s`.
pub open spec fn remove_all<K, V, C: KeyOrder<K>>(c: C, s: Seq<(K, V)>, keys: Seq<K>) -> Seq<(K, V)>
    decreases keys.len(),
{
    if keys.len() == 0 {
        s
    } else {
        removed(c, remove_all(c, s, keys.drop_last()), keys.last())
    }
}

/// What `position` is: every entry before it has a smaller key, and in a
/// sorted sequence no entry from it on does.
pub proof fn lemma_position<K, V, C: KeyOrder<K>>(c: C, s: Seq<(K, V)>, k: K)
    ensures
        position(c, s, k) <= s.len(),
        forall|j: int| 0 <= j < position(c, s, k) ==> c.lt(#[trigger] s[j].0, k),
        sorted(c, s) ==> forall|j: int| position(c, s, k) <= j < s.len() ==> !c.lt(#[trigger] s[j].0, k),
    decreases s.len(),
{
    c.lemma_total_order();
    if s.len() > 0 && c.lt(s[0].0, k) {
        let t = s.drop_first();
        lemma_position(c, t, k);
        assert forall|j: int| 0 <= j < position(c, s, k) implies c.lt(#[trigger] s[j].0, k) by {
            if j > 0 {
                assert(s[j] == t[j - 1]);
            }
        }
        if sorted(c, s) {
            assert(sorted(c, t)) by {
                assert forall|a: int, b: int| 0 <= a < b < t.len() implies c.lt(#[trigger] t[a].0, #[trigger] t[b].0) by {
                    assert(t[a] == s[a + 1] && t[b] == s[b + 1]);
                }
            }
            assert forall|j: int| position(c, s, k) <= j < s.len() implies !c.lt(#[trigger] s[j].0, k) by {
                assert(s[j] == t[j - 1]);
            }
        }
    }
}

/// The index `p` that splits `s` into keys below `k` and keys from `k` on
/// is `position(c, s, k)`.
pub proof fn lemma_position_is<K, V, C: KeyOrder<K>>(c: C, s: Seq<(K, V)>, k: K, p: int)
    requires
        0 <= p <= s.len(),
        forall|j: int| 0 <= j < p ==> c.lt(#[trigger] s[j].0, k),
        forall|j: int| p <= j < s.len() ==> !c.lt(#[trigger] s[j].0, k),
    ensures
        position(c, s, k) == p,
    decreases s.len(),
{
    c.lemma_total_order();
    if s.len() > 0 && p > 0 {
        let t = s.drop_first();
        assert(c.lt(s[0].0, k));
        assert forall|j: int| 0 <= j < p - 1 implies c.lt(#[trigger] t[j].0, k) by {
            assert(t[j] == s[j + 1]);
        }
        assert forall|j: int| p - 1 <= j < t.len() implies !c.lt(#[trigger] t[j].0, k) by {
            assert(t[j] == s[j + 1]);
        }
        lemma_position_is(c, t, k, p - 1);
    } else if s.len() > 0 {
        assert(!c.lt(s[0].0, k));
    }
}

/// In a sorted sequence, `lookup` finds the entry that holds the key.
pub proof fn lemma_lookup_at<K, V, C: KeyOrder<K>>(c: C, s: Seq<(K, V)>, j: int)
    requires
        sorted(c, s),
        0 <= j < s.len(),
    ensures
        lookup(c, s, s[j].0) == Some(s[j].1),
        position(c, s, s[j].0) == j,
{
    c.lemma_total_order();
    let k = s[j].0;
    assert forall|i: int| 0 <= i < j implies c.lt(#[trigger] s[i].0, k) by {}
    assert forall|i: int| j <= i < s.len() implies !c.lt(#[trigger] s[i].0, k) by {}
    lemma_position_is(c, s, k, j);
}

/// In a sorted sequence, a key that no entry holds is not found.
pub proof fn lemma_lookup_none<K, V, C: KeyOrder<K>>(c: C, s: Seq<(K, V)>, k: K)
    requires
        sorted(c, s),
    ensures
        lookup(c, s, k) is None <==> forall|j: int| 0 <= j < s.len() ==> #[trigger] s[j].0 != k,
{
    c.lemma_total_order();
    lemma_position(c, s, k);
    if lookup(c, s, k) is None {
        assert forall|j: int| 0 <= j < s.len() implies #[trigger] s[j].0 != k by {
            lemma_lookup_at(c, s, j);
        }
    }
}

/// Storing a value keeps the keys sorted, and changes what `lookup` finds
/// for that key alone.
pub proof fn lemma_inserted<K, V, C: KeyOrder<K>>(c: C, s: Seq<(K, V)>, k: K, v: V)
    requires
        sorted(c, s),
    ensures
        sorted(c, inserted(c, s, k, v)),
        forall|k2: K| #[trigger]
            lookup(c, inserted(c, s, k, v), k2) == if k2 == k {
                Some(v)
            } else {
                lookup(c, s, k2)
            },
        inserted(c, s, k, v).len() == s.len() + if lookup(c, s, k) is Some {
            0int
        } else {
            1int
        },
{
    c.lemma_total_order();
    lemma_position(c, s, k);
    let p = position(c, s, k) as int;
    let t = inserted(c, s, k, v);
    if p < s.len() && s[p].0 == k {
        assert(sorted(c, t));
    } else {
        assert(sorted(c, t)) by {
            assert forall|a: int, b: int| 0 <= a < b < t.len() implies c.lt(#[trigger] t[a].0, #[trigger] t[b].0) by {
                if a < p && b > p {
                    assert(t[b] == s[b - 1]);
                }
                if b > a && a > p {
                    assert(t[a] == s[a - 1] && t[b] == s[b - 1]);
                }
            }
        }
    }
    assert forall|k2: K| #[trigger]
        lookup(c, inserted(c, s, k, v), k2) == if k2 == k {
            Some(v)
        } else {
            lookup(c, s, k2)
        } by {
        if k2 == k {
            lemma_lookup_at(c, t, p);
        } else {
            lemma_lookup_none(c, s, k2);
            lemma_lookup_none(c, t, k2);
            if lookup(c, s, k2) is Some {
                let q = position(c, s, k2) as int;
                lemma_position(c, s, k2);
                if q < p {
                    lemma_lookup_at(c, t, q);
                } else {
                    if t.len() == s.len() {
                        lemma_lookup_at(c, t, q);
                    } else {
                        assert(t[q + 1] == s[q]);
                        lemma_lookup_at(c, t, q + 1);
                    }
                }
            } else {
                assert forall|j: int| 0 <= j < t.len() implies #[trigger] t[j].0 != k2 by {
                    if j < p {
                        assert(t[j] == s[j]);
                    } else if j > p && t.len() > s.len() {
                        assert(t[j] == s[j - 1]);
                    }
                }
            }
        }
    }
}

/// Taking out a key keeps the keys sorted, and changes what `lookup` finds
/// for that key alone.
pub proof fn lemma_removed<K, V, C: KeyOrder<K>>(c: C, s: Seq<(K, V)>, k: K)
    requires
        sorted(c, s),
    ensures
        sorted(c, removed(c, s, k)),
        forall|k2: K| #[trigger]
            lookup(c, removed(c, s, k), k2) == if k2 == k {
                None
            } else {
                lookup(c, s, k2)
            },
        removed(c, s, k).len() == s.len() - if lookup(c, s, k) is Some {
            1int
        } else {
            0int
        },
{
    c.lemma_total_order();
    lemma_position(c, s, k);
    let p = position(c, s, k) as int;
    let t = removed(c, s, k);
    assert(sorted(c, t)) by {
        if p < s.len() && s[p].0 == k {
            assert forall|a: int, b: int| 0 <= a < b < t.len() implies c.lt(#[trigger] t[a].0, #[trigger] t[b].0) by {
                if a < p && b >= p {
                    assert(t[b] == s[b + 1]);
                }
                if a >= p {
                    assert(t[a] == s[a + 1] && t[b] == s[b + 1]);
                }
            }
        }
    }
    assert forall|k2: K| #[trigger]
        lookup(c, removed(c, s, k), k2) == if k2 == k {
            None
        } else {
            lookup(c, s, k2)
        } by {
        lemma_lookup_none(c, s, k2);
        lemma_lookup_none(c, t, k2);
        if p < s.len() && s[p].0 == k {
            if k2 == k {
                assert forall|j: int| 0 <= j < t.len() implies #[trigger] t[j].0 != k2 by {
                    if j >= p {
                        assert(t[j] == s[j + 1]);
                    }
                }
            } else if lookup(c, s, k2) is Some {
                let q = position(c, s, k2) as int;
                lemma_position(c, s, k2);
                if q < p {
                    lemma_lookup_at(c, t, q);
                } else {
                    assert(t[q - 1] == s[q]);
                    lemma_lookup_at(c, t, q - 1);
                }
            } else {
                assert forall|j: int| 0 <= j < t.len() implies #[trigger] t[j].0 != k2 by {
                    if j >= p {
                        assert(t[j] == s[j + 1]);
                    }
                }
            }
        }
    }
}

/// No two pairs of `pairs` share a key.
pub open spec fn distinct_keys<K, V>(pairs: Seq<(K, V)>) -> bool {
    forall|a: int, b: int| 0 <= a < pairs.len() && 0 <= b < pairs.len() && a != b ==> #[trigger] pairs[a].0 != #[trigger] pairs[b].0
}

/// Inserting pairs with distinct keys, one after another, gives as many
/// entries as pairs; each key then finds the value inserted with it, and
/// any other key finds nothing.
pub proof fn lemma_search_after_inserts<K, V, C: KeyOrder<K>>(c: C, pairs: Seq<(K, V)>)
    requires
        distinct_keys(pairs),
    ensures
        sorted(c, insert_all(c, pairs)),
        insert_all(c, pairs).len() == pairs.len(),
        forall|i: int| 0 <= i < pairs.len() ==> lookup(c, insert_all(c, pairs), #[trigger] pairs[i].0) == Some(pairs[i].1),
        forall|k: K| (forall|i: int| 0 <= i < pairs.len() ==> #[trigger] pairs[i].0 != k) ==> lookup(c, insert_all(c, pairs), k) is None,
    decreases pairs.len(),
{
    c.lemma_total_order();
    if pairs.len() > 0 {
        let q = pairs.drop_last();
        let last = pairs.last();
        assert(distinct_keys(q)) by {
            assert forall|a: int, b: int| 0 <= a < q.len() && 0 <= b < q.len() && a != b implies #[trigger] q[a].0 != #[trigger] q[b].0 by {
                assert(q[a] == pairs[a] && q[b] == pairs[b]);
            }
        }
        lemma_search_after_inserts(c, q);
        let s = insert_all(c, q);
        assert forall|i: int| 0 <= i < q.len() implies #[trigger] q[i].0 != last.0 by {
            assert(q[i] == pairs[i]);
            assert(pairs[i].0 != pairs[pairs.len() - 1].0);
        }
        lemma_inserted(c, s, last.0, last.1);
        assert forall|i: int| 0 <= i < pairs.len() implies lookup(c, insert_all(c, pairs), #[trigger] pairs[i].0) == Some(pairs[i].1) by {
            if i < q.len() {
                assert(q[i] == pairs[i]);
            }
        }
        assert forall|k: K| (forall|i: int| 0 <= i < pairs.len() ==> #[trigger] pairs[i].0 != k) implies lookup(c, insert_all(c, pairs), k) is None by {
            assert(pairs[pairs.len() - 1].0 != k);
            assert forall|i: int| 0 <= i < q.len() implies #[trigger] q[i].0 != k by {
                assert(q[i] == pairs[i]);
            }
        }
    }
}

/// Storing under a key that is present returns its value and keeps the
/// number of entries; storing under an absent key adds one entry.
pub proof fn lemma_insert_present<K, V, C: KeyOrder<K>>(c: C, s: Seq<(K, V)>, k: K, v: V)
    requires
        sorted(c, s),
    ensures
        lookup(c, s, k) is Some ==> inserted(c, s, k, v).len() == s.len(),
        lookup(c, s, k) is None ==> inserted(c, s, k, v).len() == s.len() + 1,
        lookup(c, inserted(c, s, k, v), k) == Some(v),
{
    c.lemma_total_order();
    lemma_inserted(c, s, k, v);
}

/// Taking out a present key removes exactly one entry, after which the key
/// is absent, so taking it out again finds nothing.
pub proof fn lemma_remove_present<K, V, C: KeyOrder<K>>(c: C, s: Seq<(K, V)>, k: K)
    requires
        sorted(c, s),
        lookup(c, s, k) is Some,
    ensures
        removed(c, s, k).len() == s.len() - 1,
        lookup(c, removed(c, s, k), k) is None,
        removed(c, removed(c, s, k), k) == removed(c, s, k),
{
    c.lemma_total_order();
    lemma_removed(c, s, k);
    lemma_removed(c, removed(c, s, k), k);
}

/// Taking out each key of `keys` in turn leaves the entries of the other
/// keys as they were.
pub proof fn lemma_remove_all<K, V, C: KeyOrder<K>>(c: C, s: Seq<(K, V)>, keys: Seq<K>)
    requires
        sorted(c, s),
    ensures
        sorted(c, remove_all(c, s, keys)),
        forall|k: K| #[trigger] lookup(c, remove_all(c, s, keys), k) == if keys.contains(k) {
            None
        } else {
            lookup(c, s, k)
        },
    decreases keys.len(),
{
    c.lemma_total_order();
    if keys.len() > 0 {
        let q = keys.drop_last();
        lemma_remove_all(c, s, q);
        lemma_removed(c, remove_all(c, s, q), keys.last());
        assert forall|k: K| #[trigger] lookup(c, remove_all(c, s, keys), k) == if keys.contains(k) {
            None
        } else {
            lookup(c, s, k)
        } by {
            if q.contains(k) {
                let i = choose|i: int| 0 <= i < q.len() && q[i] == k;
                assert(keys[i] == k);
            }
            if keys.contains(k) && k != keys.last() {
                let i = choose|i: int| 0 <= i < keys.len() && keys[i] == k;
                assert(q[i] == k);
            }
        }
    }
}

/// A sorted sequence in which no key is found is empty.
pub proof fn lemma_nothing_found<K, V, C: KeyOrder<K>>(c: C, s: Seq<(K, V)>)
    requires
        sorted(c, s),
        forall|k: K| #[trigger] lookup(c, s, k) is None,
    ensures
        s.len() == 0,
{
    c.lemma_total_order();
    if s.len() > 0 {
        lemma_lookup_at(c, s, 0);
        assert(lookup(c, s, s[0].0) is None);
    }
}

/// Inserting pairs with distinct keys and then taking out every one of
/// those keys, in any order, leaves no entries, and no key is found.
pub proof fn lemma_round_trip<K, V, C: KeyOrder<K>>(c: C, pairs: Seq<(K, V)>, keys: Seq<K>)
    requires
        distinct_keys(pairs),
        forall|i: int| 0 <= i < pairs.len() ==> keys.contains(#[trigger] pairs[i].0),
    ensures
        remove_all(c, insert_all(c, pairs), keys).len() == 0,
        forall|k: K| #[trigger] lookup(c, remove_all(c, insert_all(c, pairs), keys), k) is None,
{
    c.lemma_total_order();
    lemma_search_after_inserts(c, pairs);
    let s = insert_all(c, pairs);
    lemma_remove_all(c, s, keys);
    let t = remove_all(c, s, keys);
    assert forall|k: K| #[trigger] lookup(c, t, k) is None by {
        if !keys.contains(k) {
            assert forall|i: int| 0 <= i < pairs.len() implies #[trigger] pairs[i].0 != k by {
                assert(keys.contains(pairs[i].0));
            }
        }
    }
    lemma_nothing_found(c, t);
}

} // verus!
