//! Where a link at a given level leads, stated over the sequence of node
//! heights in key order.
use vstd::prelude::*;

verus! {

/// The first index after `j` whose height exceeds `i`, or `h.len()` where
/// there is none: the node that a link at level `i` from index `j` reaches.
/// Index `-1` stands for the head, which precedes every node.
pub open spec fn succ(h: Seq<int>, j: int, i: int) -> int
    decreases h.len() - j,
{
    if j + 1 >= h.len() {
        h.len() as int
    } else if h[j + 1] > i {
        j + 1
    } else {
        succ(h, j + 1, i)
    }
}

/// `succ` lies after `j`; nothing between reaches above level `i`, and it
/// does, unless it is the end.
pub proof fn lemma_succ(h: Seq<int>, j: int, i: int)
    requires
        -1 <= j < h.len(),
    ensures
        j < succ(h, j, i) <= h.len(),
        succ(h, j, i) < h.len() ==> h[succ(h, j, i)] > i,
        forall|t: int| j < t < succ(h, j, i) ==> #[trigger] h[t] <= i,
    decreases h.len() - j,
{
    if j + 1 < h.len() && h[j + 1] <= i {
        lemma_succ(h, j + 1, i);
    }
}

/// An index with the properties of `succ` is `succ`.
pub proof fn lemma_succ_is(h: Seq<int>, j: int, i: int, s: int)
    requires
        -1 <= j < s <= h.len(),
        s < h.len() ==> h[s] > i,
        forall|t: int| j < t < s ==> #[trigger] h[t] <= i,
    ensures
        succ(h, j, i) == s,
    decreases h.len() - j,
{
    if j + 1 < s {
        assert(h[j + 1] <= i);
        lemma_succ_is(h, j + 1, i, s);
    }
}

/// The height of the tallest entry of `h`, or one where `h` is empty.
pub open spec fn top_level(h: Seq<int>) -> int
    decreases h.len(),
{
    if h.len() == 0 {
        1
    } else {
        let t = top_level(h.drop_last());
        if h.last() > t {
            h.last()
        } else {
            t
        }
    }
}

/// `top_level` is at least one, no entry is taller, and it is one or the
/// height of some entry.
pub proof fn lemma_top_level_bounds(h: Seq<int>)
    ensures
        top_level(h) >= 1,
        forall|j: int| 0 <= j < h.len() ==> #[trigger] h[j] <= top_level(h),
        top_level(h) == 1 || exists|j: int| 0 <= j < h.len() && h[j] == top_level(h),
    decreases h.len(),
{
    if h.len() > 0 {
        let q = h.drop_last();
        lemma_top_level_bounds(q);
        assert forall|j: int| 0 <= j < h.len() implies #[trigger] h[j] <= top_level(h) by {
            if j < q.len() {
                assert(h[j] == q[j]);
            }
        }
        if top_level(h) != 1 && top_level(h) != h.last() {
            let j = choose|j: int| 0 <= j < q.len() && q[j] == top_level(q);
            assert(h[j] == q[j]);
        }
    }
}

/// A level `l` that no entry exceeds, and that is one or the height of some
/// entry, is `top_level`.
pub proof fn lemma_top_level_is(h: Seq<int>, l: int, j: int)
    requires
        l >= 1,
        forall|t: int| 0 <= t < h.len() ==> #[trigger] h[t] <= l,
        l == 1 || (0 <= j < h.len() && h[j] == l),
    ensures
        top_level(h) == l,
{
    lemma_top_level_bounds(h);
    if top_level(h) != 1 {
        let k = choose|k: int| 0 <= k < h.len() && h[k] == top_level(h);
        assert(h[k] <= l);
    }
    if l != 1 {
        assert(h[j] <= top_level(h));
    }
}

} // verus!
