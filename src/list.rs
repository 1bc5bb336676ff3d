//! The skip list: an arena of nodes in ascending key order, whose forward
//! links at each level carry the number of positions they skip.
use std::cmp::Ordering;
use vstd::prelude::*;

use crate::entries::{
    inserted, lemma_inserted, lemma_lookup_none, lemma_position, lemma_position_is, lemma_removed,
    lookup, position, removed, sorted,
};
use crate::levels::{lemma_succ, lemma_succ_is, lemma_top_level_is, succ, top_level};
use crate::order::KeyOrder;
use crate::random::{next_state, Rng};

verus! {

/// A forward link: the node it reaches (an arena index) and how many
/// positions in key order it advances.
#[derive(Clone, Copy)]
struct Link {
    next: Option<usize>,
    width: usize,
}

struct Node<K, V> {
    key: K,
    value: V,
    links: Vec<Link>,
}

/// An ordered map from keys to values with access by rank, in the key
/// order `C` that the caller supplies.
///
/// Nodes live in an arena; `order` records, as ghost state, the arena
/// indices of the present entries in ascending key order. The head stands
/// before every node and has a link at every level up to `max_level`.
pub struct SkipList<K, V, C> {
    cmp: C,
    max_level: u16,
    p_num: u32,
    p_den: u32,
    level: u16,
    size: usize,
    head: Vec<Link>,
    nodes: Vec<Node<K, V>>,
    vacant: Vec<usize>,
    rng: Rng,
    order: Ghost<Seq<usize>>,
}

/// `count` links that reach no node.
fn empty_links(count: usize) -> (r: Vec<Link>)
    ensures
        r@ == Seq::new(count as nat, |t: int| Link { next: None, width: 0 }),
{
    let mut links: Vec<Link> = Vec::new();
    let mut c: usize = 0;
    while c < count
        invariant
            c <= count,
            links@.len() == c,
            forall|t: int| 0 <= t < c ==> #[trigger] links@[t] == (Link { next: None, width: 0 }),
        decreases count - c,
    {
        links.push(Link { next: None, width: 0 });
        c = c + 1;
    }
    assert(links@ =~= Seq::new(count as nat, |t: int| Link { next: None, width: 0 }));
    links
}

/// `at` is the arena index `y`.
spec fn points_to(at: Option<usize>, y: int) -> bool {
    at matches Some(x) && x == y
}

/// The level that a new node gets, and the generator state after the draws,
/// when the node already has `lvl` levels and the generator is in `state`:
/// while below `max_level`, each draw below `p_num` out of `p_den` adds a
/// level, and the first other draw stops.
pub open spec fn drawn_level(state: u64, p_num: u32, p_den: u32, max_level: int, lvl: int) -> (int, u64)
    decreases max_level - lvl,
{
    if lvl >= max_level {
        (lvl, state)
    } else {
        let s = next_state(state);
        if ((s >> 32u64) as u32) % p_den < p_num {
            drawn_level(s, p_num, p_den, max_level, lvl + 1)
        } else {
            (lvl, s)
        }
    }
}

/// Draws a level for a new node: starting at one, each further level is
/// taken with probability `p_num / p_den`, up to `max_level`.
fn random_level(rng: &mut Rng, p_num: u32, p_den: u32, max_level: u16) -> (r: usize)
    requires
        1 <= max_level,
        0 < p_den,
    ensures
        1 <= r <= max_level,
        (r as int, final(rng).state()) == drawn_level(old(rng).state(), p_num, p_den, max_level as int, 1),
{
    let mut lvl: usize = 1;
    while lvl < max_level as usize
        invariant_except_break
            1 <= lvl <= max_level,
            0 < p_den,
            drawn_level(rng.state(), p_num, p_den, max_level as int, lvl as int) == drawn_level(
                old(rng).state(),
                p_num,
                p_den,
                max_level as int,
                1,
            ),
        ensures
            1 <= lvl <= max_level,
            (lvl as int, rng.state()) == drawn_level(old(rng).state(), p_num, p_den, max_level as int, 1),
        decreases max_level - lvl,
    {
        let draw = rng.below(p_den);
        if draw >= p_num {
            break;
        }
        lvl = lvl + 1;
    }
    lvl
}

impl<K, V, C> View for SkipList<K, V, C> {
    type V = Seq<(K, V)>;

    /// The entries in ascending key order.
    closed spec fn view(&self) -> Seq<(K, V)> {
        self.order@.map_values(|x: usize| (self.nodes@[x as int].key, self.nodes@[x as int].value))
    }
}

impl<K: Copy, V: Copy, C: KeyOrder<K>> SkipList<K, V, C> {
    /// The key at position `j` in key order.
    spec fn key_of(&self, j: int) -> K {
        self.nodes@[self.order@[j] as int].key
    }

    /// The number of levels of each node, in key order.
    spec fn heights(&self) -> Seq<int> {
        self.order@.map_values(|x: usize| self.nodes@[x as int].links@.len() as int)
    }

    /// The node at position `j`, the head for `-1`.
    spec fn at_pos(&self, j: int) -> Option<usize> {
        if j < 0 {
            None
        } else {
            Some(self.order@[j])
        }
    }

    /// The links of the node `at`, of the head for `None`.
    spec fn links_of(&self, at: Option<usize>) -> Seq<Link> {
        match at {
            None => self.head@,
            Some(x) => self.nodes@[x as int].links@,
        }
    }

    /// The links of the node at position `j`, of the head for `-1`.
    spec fn links_at(&self, j: int) -> Seq<Link> {
        self.links_of(self.at_pos(j))
    }

    /// The link at level `i` of position `j` reaches the next node that is
    /// present at that level and spans the distance to it.
    spec fn link_ok(&self, j: int, i: int) -> bool {
        let n = self.order@.len() as int;
        let s = succ(self.heights(), j, i);
        let l = self.links_at(j)[i];
        if s < n {
            l.next == Some(self.order@[s]) && l.width == s - j
        } else {
            l.next is None
        }
    }

    /// Present nodes and vacant slots are distinct arena indices.
    spec fn arena_ok(&self) -> bool {
        let order = self.order@;
        let vacant = self.vacant@;
        &&& forall|j: int| 0 <= j < order.len() ==> #[trigger] order[j] < self.nodes@.len()
        &&& forall|a: int, b: int|
            0 <= a < order.len() && 0 <= b < order.len() && a != b ==> #[trigger] order[a]
                != #[trigger] order[b]
        &&& forall|j: int| 0 <= j < vacant.len() ==> #[trigger] vacant[j] < self.nodes@.len()
        &&& forall|a: int, b: int|
            0 <= a < vacant.len() && 0 <= b < vacant.len() && a != b ==> #[trigger] vacant[a]
                != #[trigger] vacant[b]
        &&& forall|a: int, b: int|
            0 <= a < vacant.len() && 0 <= b < order.len() ==> #[trigger] vacant[a]
                != #[trigger] order[b]
    }

    /// Nodes in ascending key order, each present at every level below its
    /// height, and each link reaching the next node at its level with the
    /// number of positions between as its width.
    spec fn shape_ok(&self) -> bool {
        let n = self.order@.len() as int;
        &&& 1 <= self.level <= self.max_level
        &&& self.head@.len() == self.max_level
        &&& 0 < self.p_num <= self.p_den
        &&& self.size == n
        &&& self.arena_ok()
        &&& forall|j: int| 0 <= j < n ==> 1 <= #[trigger] self.heights()[j] <= self.level
        &&& sorted(self.comparator(), self@)
        &&& forall|j: int, i: int|
            -1 <= j < n && 0 <= i < self.links_at(j).len() ==> #[trigger] self.link_ok(j, i)
    }

    /// The list is well formed, and its current level is the highest level
    /// that a node reaches, or one where there is none.
    pub closed spec fn wf(&self) -> bool {
        &&& self.shape_ok()
        &&& self.level == 1 || self.head@[self.level - 1].next is Some
    }

    /// The order the keys are kept in.
    pub closed spec fn comparator(&self) -> C {
        self.cmp
    }

    /// The most levels a node can have.
    pub closed spec fn max_level(&self) -> int {
        self.max_level as int
    }

    /// The promotion probability, as numerator and denominator.
    pub closed spec fn promotion(&self) -> (u32, u32) {
        (self.p_num, self.p_den)
    }

    /// The state of the list's own random source.
    pub closed spec fn rng_state(&self) -> u64 {
        self.rng.state()
    }

    /// The number of levels of each entry, in key order.
    pub closed spec fn heights_by_rank(&self) -> Seq<int> {
        self.heights()
    }

    /// The current level: the highest level any node reaches, at least one.
    pub closed spec fn level(&self) -> int {
        self.level as int
    }

    /// `at` and `rank` describe the node from which the walk towards `key`
    /// goes down from level `i`: the head or a node present at that level
    /// with a smaller key, whose link at that level reaches the end or a key
    /// at least `key`. `rank` is its position plus one.
    spec fn pred_ok(&self, key: K, i: int, at: Option<usize>, rank: int) -> bool {
        let n = self.order@.len() as int;
        let u = rank - 1;
        let s = succ(self.heights(), u, i);
        &&& 0 <= rank <= n
        &&& at == self.at_pos(u)
        &&& u == -1 || (self.heights()[u] > i && self.comparator().lt(self.key_of(u), key))
        &&& s == n || !self.comparator().lt(self.key_of(s), key)
    }

    /// The view holds one entry per position, with the key of that node.
    proof fn lemma_view(&self)
        ensures
            self@.len() == self.order@.len(),
            forall|j: int| 0 <= j < self.order@.len() ==> #[trigger] self@[j].0 == self.key_of(j),
            self.heights().len() == self.order@.len(),
    {
    }

    /// The node from which the walk goes down at level `i` stands before the
    /// position of `key`, and its link at that level does not.
    proof fn lemma_pred(&self, key: K, i: int, at: Option<usize>, rank: int)
        requires
            self.wf(),
            self.pred_ok(key, i, at, rank),
        ensures
            rank <= position(self.comparator(), self@, key),
            succ(self.heights(), rank - 1, i) >= position(self.comparator(), self@, key),
    {
        self.lemma_view();
        lemma_position(self.comparator(), self@, key);
        lemma_succ(self.heights(), rank - 1, i);
        let u = rank - 1;
        let s = succ(self.heights(), u, i);
        if u >= 0 {
            assert(self@[u].0 == self.key_of(u));
        }
        if s < self.order@.len() {
            assert(self@[s].0 == self.key_of(s));
        }
    }

    /// The walk towards a new key at position `p` goes down at level `i`
    /// from the head or from a node before `p` that is present at that
    /// level and whose link there reaches no further back than `p`.
    spec fn below(&self, i: int, at: Option<usize>, rank: int, p: int) -> bool {
        let u = rank - 1;
        &&& 0 <= rank <= p
        &&& at == self.at_pos(u)
        &&& u == -1 || self.heights()[u] > i
        &&& succ(self.heights(), u, i) >= p
    }

    /// The link at level `l` of the node after which a new entry goes in:
    /// to the new node where that reaches level `l`, else one wider.
    spec fn pred_link(pre: Self, preds: Seq<Option<usize>>, ranks: Seq<usize>, slot: usize, lvl: int, l: int) -> Link {
        let old = pre.links_of(preds[l])[l];
        if l < lvl {
            Link { next: Some(slot), width: (ranks[0] - ranks[l] + 1) as usize }
        } else if old.next is Some {
            Link { next: old.next, width: (old.width + 1) as usize }
        } else {
            old
        }
    }

    /// The link at level `l` of a new node: where its predecessor's link
    /// went, less the distance from the predecessor to it.
    spec fn new_link(pre: Self, preds: Seq<Option<usize>>, ranks: Seq<usize>, l: int) -> Link {
        let old = pre.links_of(preds[l])[l];
        if old.next is Some {
            Link { next: old.next, width: (old.width - (ranks[0] - ranks[l])) as usize }
        } else {
            Link { next: None, width: 0 }
        }
    }

    /// `head` and `nodes` hold `pre`'s links, with those of levels below
    /// `upto` spliced for a new node at arena index `slot` with `lvl` levels.
    spec fn spliced(pre: Self, head: Seq<Link>, nodes: Seq<Node<K, V>>, preds: Seq<Option<usize>>, ranks: Seq<usize>, slot: usize, lvl: int, upto: int) -> bool {
        &&& head.len() == pre.head@.len()
        &&& (nodes.len() == pre.nodes@.len() || (nodes.len() == pre.nodes@.len() + 1 && slot == pre.nodes@.len()))
        &&& (forall|l: int| 0 <= l < head.len() ==> #[trigger] head[l] == (if l < upto && preds[l] is None {
            Self::pred_link(pre, preds, ranks, slot, lvl, l)
        } else {
            pre.head@[l]
        }))
        &&& (forall|y: int| 0 <= y < nodes.len() && y != slot ==> {
            &&& (#[trigger] nodes[y]).links@.len() == pre.nodes@[y].links@.len()
            &&& nodes[y].key == pre.nodes@[y].key
            &&& nodes[y].value == pre.nodes@[y].value
        })
        &&& (forall|y: int, l: int| 0 <= y < nodes.len() && y != slot && 0 <= l < nodes[y].links@.len() ==> #[trigger] nodes[y].links@[l] == (if l < upto && points_to(preds[l], y) {
            Self::pred_link(pre, preds, ranks, slot, lvl, l)
        } else {
            pre.nodes@[y].links@[l]
        }))
        &&& slot < nodes.len()
        &&& nodes[slot as int].links@.len() == lvl
        &&& (forall|l: int| 0 <= l < lvl ==> #[trigger] nodes[slot as int].links@[l] == (if l < upto {
            Self::new_link(pre, preds, ranks, l)
        } else {
            Link { next: None, width: 0 }
        }))
    }

    /// After a new node goes in at position `p` and the links of the nodes
    /// before it are spliced, every link again reaches the next node at its
    /// level with the right width.
    #[verifier::rlimit(50)]
    proof fn lemma_insert_links(pre: Self, post: Self, preds: Seq<Option<usize>>, ranks: Seq<usize>, slot: usize, lvl: int, top: int)
        requires
            pre.wf(),
            1 <= lvl <= pre.max_level,
            top == if lvl > pre.level { lvl } else { pre.level as int },
            preds.len() == top,
            ranks.len() == top,
            ranks[0] <= pre.order@.len() < usize::MAX,
            forall|i: int| 0 <= i < top ==> #[trigger] pre.below(i, preds[i], ranks[i] as int, ranks[0] as int),
            forall|j: int| 0 <= j < pre.order@.len() ==> #[trigger] pre.order@[j] != slot,
            post.order@ == pre.order@.insert(ranks[0] as int, slot),
            Self::spliced(pre, post.head@, post.nodes@, preds, ranks, slot, lvl, top),
        ensures
            post.heights() == pre.heights().insert(ranks[0] as int, lvl),
            forall|j: int, i: int|
                -1 <= j < post.order@.len() && 0 <= i < post.links_at(j).len() ==> #[trigger] post.link_ok(j, i),
    {
        let n = pre.order@.len() as int;
        let p = ranks[0] as int;
        let h = pre.heights();
        let h2 = h.insert(p, lvl);
        assert(post.heights() =~= h2) by {
            assert forall|t: int| 0 <= t < n + 1 implies #[trigger] post.heights()[t] == h2[t] by {
                if t < p {
                    assert(post.order@[t] == pre.order@[t]);
                    assert(pre.order@[t] != slot);
                    assert(post.nodes@[pre.order@[t] as int].links@.len() == pre.nodes@[pre.order@[t] as int].links@.len());
                } else if t > p {
                    assert(post.order@[t] == pre.order@[t - 1]);
                    assert(pre.order@[t - 1] != slot);
                    assert(post.nodes@[pre.order@[t - 1] as int].links@.len() == pre.nodes@[pre.order@[t - 1] as int].links@.len());
                }
            }
        }
        assert forall|j: int, i: int|
            -1 <= j < post.order@.len() && 0 <= i < post.links_at(j).len() implies #[trigger] post.link_ok(j, i) by {
            if j == p {
                // The new node takes over where its predecessor's link went.
                assert(post.at_pos(j) == Some(slot));
                assert(pre.below(i, preds[i], ranks[i] as int, p));
                let u = ranks[i] - 1;
                lemma_succ(h, u, i);
                let s = succ(h, u, i);
                if u >= 0 {
                    assert(h[u] == pre.nodes@[pre.order@[u] as int].links@.len());
                }
                assert(pre.link_ok(u, i));
                assert forall|t: int| p < t < s + 1 implies #[trigger] h2[t] <= i by {
                    assert(h2[t] == h[t - 1]);
                }
                if s < n {
                    assert(h2[s + 1] == h[s]);
                }
                lemma_succ_is(h2, p, i, s + 1);
                if s < n {
                    assert(post.order@[s + 1] == pre.order@[s]);
                }
            } else if j < p {
                assert(post.at_pos(j) == pre.at_pos(j));
                if j >= 0 {
                    assert(post.order@[j] == pre.order@[j]);
                    assert(pre.heights()[j] == pre.nodes@[pre.order@[j] as int].links@.len());
                }
                assert(pre.link_ok(j, i));
                lemma_succ(h, j, i);
                if i >= top {
                    // No node reaches this level; only the head has a link here.
                    assert forall|t: int| j < t < n + 1 implies #[trigger] h2[t] <= i by {
                        if t < p {
                            assert(h2[t] == h[t]);
                        } else if t > p {
                            assert(h2[t] == h[t - 1]);
                        }
                    }
                    lemma_succ_is(h2, j, i, n + 1);
                    assert(succ(h, j, i) == n) by {
                        assert forall|t: int| j < t < n implies #[trigger] h[t] <= i by {}
                        lemma_succ_is(h, j, i, n);
                    }
                } else {
                    assert(pre.below(i, preds[i], ranks[i] as int, p));
                    let u = ranks[i] - 1;
                    lemma_succ(h, u, i);
                    let s = succ(h, u, i);
                    assert(pre.link_ok(u, i));
                    if j == u {
                        if u >= 0 {
                            assert(pre.order@[u] != slot);
                            assert(i < post.nodes@[pre.order@[u] as int].links@.len());
                        }
                        assert(post.links_at(j)[i] == Self::pred_link(pre, preds, ranks, slot, lvl, i));
                        assert(post.order@[p] == slot);
                        if i < lvl {
                            assert forall|t: int| u < t < p implies #[trigger] h2[t] <= i by {
                                assert(h2[t] == h[t]);
                            }
                            lemma_succ_is(h2, u, i, p);
                        } else {
                            assert forall|t: int| u < t < s + 1 implies #[trigger] h2[t] <= i by {
                                if t < p {
                                    assert(h2[t] == h[t]);
                                } else if t > p {
                                    assert(h2[t] == h[t - 1]);
                                }
                            }
                            if s < n {
                                assert(h2[s + 1] == h[s]);
                                assert(post.order@[s + 1] == pre.order@[s]);
                            }
                            lemma_succ_is(h2, u, i, s + 1);
                        }
                    } else {
                        // A node before the predecessor: its link stops at or before it.
                        assert(preds[i] != pre.at_pos(j));
                        if j > u {
                            assert(h[j] <= i);
                        }
                        assert(j < u);
                        let sj = succ(h, j, i);
                        assert(sj <= u);
                        assert forall|t: int| j < t < sj implies #[trigger] h2[t] <= i by {
                            assert(h2[t] == h[t]);
                        }
                        assert(h2[sj] == h[sj]);
                        lemma_succ_is(h2, j, i, sj);
                        assert(post.order@[sj] == pre.order@[sj]);
                    }
                }
            } else {
                // A node after the new one: same link, one position further on.
                let j0 = j - 1;
                assert(post.order@[j] == pre.order@[j0]);
                assert(post.at_pos(j) == pre.at_pos(j0));
                assert(pre.heights()[j0] == pre.nodes@[pre.order@[j0] as int].links@.len());
                assert(i < h[j0]);
                assert forall|l: int| 0 <= l < top implies #[trigger] preds[l] != Some(pre.order@[j0]) by {
                    assert(pre.below(l, preds[l], ranks[l] as int, p));
                }
                assert(pre.link_ok(j0, i));
                lemma_succ(h, j0, i);
                let s = succ(h, j0, i);
                assert forall|t: int| j < t < s + 1 implies #[trigger] h2[t] <= i by {
                    assert(h2[t] == h[t - 1]);
                }
                if s < n {
                    assert(h2[s + 1] == h[s]);
                    assert(post.order@[s + 1] == pre.order@[s]);
                }
                lemma_succ_is(h2, j, i, s + 1);
            }
        }
    }

    /// The link at level `l` of the node before the entry at arena index `t`
    /// once that entry is taken out: where the entry's own link went, or
    /// one narrower where it passed over the entry.
    spec fn unlinked_link(pre: Self, preds: Seq<Option<usize>>, t: usize, l: int) -> Link {
        let old = pre.links_of(preds[l])[l];
        if old.next == Some(t) {
            let tl = pre.nodes@[t as int].links@[l];
            if tl.next is Some {
                Link { next: tl.next, width: (old.width + tl.width - 1) as usize }
            } else {
                Link { next: None, width: 0 }
            }
        } else if old.next is Some {
            Link { next: old.next, width: (old.width - 1) as usize }
        } else {
            old
        }
    }

    /// `head` and `nodes` hold `pre`'s links, with those of levels below
    /// `upto` changed for taking out the entry at arena index `t`.
    spec fn unlinked(pre: Self, head: Seq<Link>, nodes: Seq<Node<K, V>>, preds: Seq<Option<usize>>, t: usize, upto: int) -> bool {
        &&& head.len() == pre.head@.len()
        &&& nodes.len() == pre.nodes@.len()
        &&& (forall|l: int| 0 <= l < head.len() ==> #[trigger] head[l] == (if l < upto && preds[l] is None {
            Self::unlinked_link(pre, preds, t, l)
        } else {
            pre.head@[l]
        }))
        &&& (forall|y: int| 0 <= y < nodes.len() ==> {
            &&& (#[trigger] nodes[y]).links@.len() == pre.nodes@[y].links@.len()
            &&& nodes[y].key == pre.nodes@[y].key
            &&& nodes[y].value == pre.nodes@[y].value
        })
        &&& (forall|y: int, l: int| 0 <= y < nodes.len() && 0 <= l < nodes[y].links@.len() ==> #[trigger] nodes[y].links@[l] == (if l < upto && points_to(preds[l], y) {
            Self::unlinked_link(pre, preds, t, l)
        } else {
            pre.nodes@[y].links@[l]
        }))
    }

    /// After the entry at position `p` is taken out and the links of the
    /// nodes before it are changed, every link again reaches the next node
    /// at its level with the right width.
    #[verifier::rlimit(50)]
    proof fn lemma_remove_links(pre: Self, post: Self, preds: Seq<Option<usize>>, ranks: Seq<usize>, p: int)
        requires
            pre.wf(),
            0 <= p < pre.order@.len(),
            preds.len() == pre.level,
            ranks.len() == pre.level,
            forall|i: int| 0 <= i < pre.level ==> #[trigger] pre.below(i, preds[i], ranks[i] as int, p),
            post.order@ == pre.order@.remove(p),
            Self::unlinked(pre, post.head@, post.nodes@, preds, pre.order@[p], pre.level as int),
        ensures
            post.heights() == pre.heights().remove(p),
            forall|j: int, i: int|
                -1 <= j < post.order@.len() && 0 <= i < post.links_at(j).len() ==> #[trigger] post.link_ok(j, i),
    {
        let n = pre.order@.len() as int;
        let h = pre.heights();
        let h2 = h.remove(p);
        let t = pre.order@[p];
        assert(post.heights() =~= h2) by {
            assert forall|x: int| 0 <= x < n - 1 implies #[trigger] post.heights()[x] == h2[x] by {
                if x < p {
                    assert(post.order@[x] == pre.order@[x]);
                } else {
                    assert(post.order@[x] == pre.order@[x + 1]);
                }
            }
        }
        assert forall|j: int, i: int|
            -1 <= j < post.order@.len() && 0 <= i < post.links_at(j).len() implies #[trigger] post.link_ok(j, i) by {
            if j < p {
                assert(post.at_pos(j) == pre.at_pos(j));
                if j >= 0 {
                    assert(post.order@[j] == pre.order@[j]);
                    assert(pre.heights()[j] == pre.nodes@[pre.order@[j] as int].links@.len());
                }
                assert(pre.link_ok(j, i));
                lemma_succ(h, j, i);
                if i >= pre.level {
                    // No node reaches this level; only the head has a link here.
                    assert forall|x: int| j < x < n implies #[trigger] h[x] <= i by {}
                    lemma_succ_is(h, j, i, n);
                    assert forall|x: int| j < x < n - 1 implies #[trigger] h2[x] <= i by {
                        if x >= p {
                            assert(h2[x] == h[x + 1]);
                        }
                    }
                    lemma_succ_is(h2, j, i, n - 1);
                    assert(post.links_at(j)[i] == pre.links_at(j)[i]);
                } else {
                    assert(pre.below(i, preds[i], ranks[i] as int, p));
                    let u = ranks[i] - 1;
                    lemma_succ(h, u, i);
                    let s = succ(h, u, i);
                    assert(pre.link_ok(u, i));
                    if j == u {
                        if u >= 0 {
                            assert(i < post.nodes@[pre.order@[u] as int].links@.len());
                        }
                        assert(post.links_at(j)[i] == Self::unlinked_link(pre, preds, t, i));
                        if h[p] > i {
                            // The link reached the entry taken out: it now goes where the entry's went.
                            assert(s == p);
                            assert(pre.links_at(p) == pre.nodes@[t as int].links@);
                            assert(pre.heights()[p] == pre.nodes@[t as int].links@.len());
                            assert(pre.link_ok(p, i));
                            lemma_succ(h, p, i);
                            let st = succ(h, p, i);
                            assert forall|x: int| u < x < st - 1 implies #[trigger] h2[x] <= i by {
                                if x >= p {
                                    assert(h2[x] == h[x + 1]);
                                }
                            }
                            if st < n {
                                assert(h2[st - 1] == h[st]);
                                assert(post.order@[st - 1] == pre.order@[st]);
                            }
                            lemma_succ_is(h2, u, i, st - 1);
                        } else {
                            // The link passed over the entry taken out.
                            assert(s != p);
                            if s < n {
                                assert(pre.order@[s] != t);
                                assert(h2[s - 1] == h[s]);
                                assert(post.order@[s - 1] == pre.order@[s]);
                            }
                            assert forall|x: int| u < x < s - 1 implies #[trigger] h2[x] <= i by {
                                if x >= p {
                                    assert(h2[x] == h[x + 1]);
                                }
                            }
                            lemma_succ_is(h2, u, i, s - 1);
                        }
                    } else {
                        // A node before the predecessor: its link stops at or before it.
                        assert(preds[i] != pre.at_pos(j));
                        if j > u {
                            assert(h[j] <= i);
                        }
                        assert(j < u);
                        let sj = succ(h, j, i);
                        assert(sj <= u);
                        assert forall|x: int| j < x < sj implies #[trigger] h2[x] <= i by {
                            assert(h2[x] == h[x]);
                        }
                        assert(h2[sj] == h[sj]);
                        lemma_succ_is(h2, j, i, sj);
                        assert(post.order@[sj] == pre.order@[sj]);
                        if j >= 0 {
                            assert(post.links_at(j)[i] == pre.links_at(j)[i]);
                        }
                    }
                }
            } else {
                // A node after the entry taken out: same link, one position back.
                let j0 = j + 1;
                assert(post.order@[j] == pre.order@[j0]);
                assert(post.at_pos(j) == pre.at_pos(j0));
                assert(pre.heights()[j0] == pre.nodes@[pre.order@[j0] as int].links@.len());
                assert(i < h[j0]);
                assert forall|l: int| 0 <= l < pre.level implies #[trigger] preds[l] != Some(pre.order@[j0]) by {
                    assert(pre.below(l, preds[l], ranks[l] as int, p));
                }
                assert(post.links_at(j)[i] == pre.links_at(j0)[i]);
                assert(pre.link_ok(j0, i));
                lemma_succ(h, j0, i);
                let s = succ(h, j0, i);
                assert forall|x: int| j < x < s - 1 implies #[trigger] h2[x] <= i by {
                    assert(h2[x] == h[x + 1]);
                }
                if s < n {
                    assert(h2[s - 1] == h[s]);
                    assert(post.order@[s - 1] == pre.order@[s]);
                }
                lemma_succ_is(h2, j, i, s - 1);
            }
        }
    }

    /// Where the walk towards `key` ends at the bottom level: the link there
    /// reaches the entry at position `rank`, or the end.
    proof fn lemma_bottom(&self, key: K, at: Option<usize>, rank: int)
        requires
            self.wf(),
            self.pred_ok(key, 0, at, rank),
        ensures
            match at {
                None => 0 < self.head@.len(),
                Some(x) => x < self.nodes@.len() && 0 < self.nodes@[x as int].links@.len(),
            },
            self.links_of(at)[0].next == (if rank < self.order@.len() {
                Some(self.order@[rank])
            } else {
                None::<usize>
            }),
            self@.len() == self.order@.len(),
            rank < self.order@.len() ==> self@[rank].0 == self.key_of(rank),
    {
        let u = rank - 1;
        let h = self.heights();
        lemma_succ(h, u, 0);
        self.lemma_view();
        if u + 1 < self.order@.len() {
            assert(h[u + 1] >= 1);
        }
        if u >= 0 {
            assert(h[u] == self.nodes@[self.order@[u] as int].links@.len());
        }
        assert(self.link_ok(u, 0));
    }

    /// An empty list that keeps its keys in the order `comparator`, with at
    /// most `max_level` levels, whose new nodes go up one more level with
    /// probability `p_num / p_den`, drawn from a random source seeded with
    /// `seed`.
    pub fn new(max_level: u16, p_num: u32, p_den: u32, comparator: C, seed: u64) -> (r: Self)
        requires
            max_level >= 1,
            0 < p_num <= p_den,
        ensures
            r.wf(),
            r@ == Seq::<(K, V)>::empty(),
            r.comparator() == comparator,
            r.max_level() == max_level,
            r.promotion() == (p_num, p_den),
            r.rng_state() == seed,
            r.level() == 1,
            r.heights_by_rank() == Seq::<int>::empty(),
    {
        let head = empty_links(max_level as usize);
        let r = SkipList {
            cmp: comparator,
            max_level,
            p_num,
            p_den,
            level: 1,
            size: 0,
            head,
            nodes: Vec::new(),
            vacant: Vec::new(),
            rng: Rng::new(seed),
            order: Ghost(Seq::empty()),
        };
        assert(r@ =~= Seq::<(K, V)>::empty());
        assert(r.heights() =~= Seq::<int>::empty());
        assert forall|j: int, i: int| -1 <= j < 0 && 0 <= i < r.links_at(j).len() implies #[trigger] r.link_ok(j, i) by {
            assert(r.heights().len() == 0);
        }
        r
    }

    /// The link at level `i` of the node `at`, of the head for `None`.
    fn link_of(&self, at: Option<usize>, i: usize) -> (r: Link)
        requires
            match at {
                None => i < self.head@.len(),
                Some(x) => x < self.nodes@.len() && i < self.nodes@[x as int].links@.len(),
            },
        ensures
            r == self.links_of(at)[i as int],
    {
        match at {
            None => self.head[i],
            Some(x) => self.nodes[x].links[i],
        }
    }

    /// Walks from the top level down, recording at each level the node from
    /// which the walk goes down and its rank.
    fn descend(&self, key: K) -> (r: (Vec<Option<usize>>, Vec<usize>))
        requires
            self.wf(),
        ensures
            r.0@.len() == self.level,
            r.1@.len() == self.level,
            r.1@[0] == position(self.comparator(), self@, key),
            forall|i: int| 0 <= i < self.level ==> #[trigger] self.pred_ok(key, i, r.0@[i], r.1@[i] as int),
    {
        let ghost n = self.order@.len() as int;
        let ghost h = self.heights();
        let mut preds: Vec<Option<usize>> = Vec::new();
        let mut ranks: Vec<usize> = Vec::new();
        let mut t: u16 = 0;
        while t < self.level
            invariant
                t <= self.level,
                preds@.len() == t,
                ranks@.len() == t,
            decreases self.level - t,
        {
            preds.push(None);
            ranks.push(0);
            t = t + 1;
        }
        let mut cur: Option<usize> = None;
        let mut rank: usize = 0;
        let mut i: usize = self.level as usize;
        while i > 0
            invariant
                self.wf(),
                n == self.order@.len(),
                h == self.heights(),
                i <= self.level,
                preds@.len() == self.level,
                ranks@.len() == self.level,
                0 <= rank <= n,
                cur == self.at_pos(rank - 1),
                rank == 0 || (h[rank - 1] >= i && self.comparator().lt(self.key_of(rank - 1), key)),
                forall|l: int| i <= l < self.level ==> #[trigger] self.pred_ok(key, l, preds@[l], ranks@[l] as int),
                i < self.level ==> ranks@[i as int] == rank,
            decreases i,
        {
            let lv = i - 1;
            loop
                invariant
                    self.wf(),
                    n == self.order@.len(),
                    h == self.heights(),
                    lv < self.level,
                    0 <= rank <= n,
                    cur == self.at_pos(rank - 1),
                    rank == 0 || (h[rank - 1] > lv && self.comparator().lt(self.key_of(rank - 1), key)),
                ensures
                    0 <= rank <= n,
                    cur == self.at_pos(rank - 1),
                    rank == 0 || (h[rank - 1] > lv && self.comparator().lt(self.key_of(rank - 1), key)),
                    succ(h, rank - 1, lv as int) == n || !self.comparator().lt(self.key_of(succ(h, rank - 1, lv as int)), key),
                decreases n - rank,
            {
                proof {
                    lemma_succ(h, rank - 1, lv as int);
                    assert(self.link_ok(rank - 1, lv as int));
                }
                let link = self.link_of(cur, lv);
                match link.next {
                    Some(x) => {
                        let ord = self.cmp.compare(&self.nodes[x].key, &key);
                        match ord {
                            Ordering::Less => {
                                cur = Some(x);
                                rank = rank + link.width;
                            },
                            _ => {
                                break;
                            },
                        }
                    },
                    None => {
                        break;
                    },
                }
            }
            preds.set(lv, cur);
            ranks.set(lv, rank);
            i = lv;
        }
        proof {
            let u = rank - 1;
            self.cmp.lemma_total_order();
            self.lemma_view();
            assert(self.pred_ok(key, 0, preds@[0], ranks@[0] as int));
            lemma_succ(h, u, 0);
            if u + 1 < n {
                assert(h[u + 1] >= 1);
                assert(succ(h, u, 0) == u + 1);
                assert(self@[u + 1].0 == self.key_of(u + 1));
            }
            if u >= 0 {
                assert(self@[u].0 == self.key_of(u));
            }
            assert forall|j: int| 0 <= j < rank implies self.comparator().lt(#[trigger] self@[j].0, key) by {
                if j < u {
                    assert(self.comparator().lt(self@[j].0, self@[u].0));
                }
            }
            assert forall|j: int| rank <= j < self@.len() implies !self.comparator().lt(#[trigger] self@[j].0, key) by {
                assert(h[u + 1] >= 1);
                assert(succ(h, u, 0) == u + 1);
                assert(self@[u + 1].0 == self.key_of(u + 1));
                if j > u + 1 {
                    assert(self.comparator().lt(self@[u + 1].0, self@[j].0));
                }
            }
            lemma_position_is(self.comparator(), self@, key, rank as int);
        }
        (preds, ranks)
    }

    /// The value stored under `key`, if any.
    pub fn search(&self, key: &K) -> (r: Option<V>)
        requires
            self.wf(),
        ensures
            r == lookup(self.comparator(), self@, *key),
    {
        let (preds, ranks) = self.descend(*key);
        proof {
            self.lemma_bottom(*key, preds@[0], ranks@[0] as int);
        }
        let link = self.link_of(preds[0], 0);
        match link.next {
            Some(x) => {
                match self.cmp.compare(&self.nodes[x].key, key) {
                    Ordering::Equal => Some(self.nodes[x].value),
                    _ => None,
                }
            },
            None => None,
        }
    }

    /// The arena index of the entry at position `index` in key order, found
    /// by spending `index + 1` on link widths from the top level down.
    fn node_at(&self, index: usize) -> (r: Option<usize>)
        requires
            self.wf(),
        ensures
            r == (if index < self.order@.len() {
                Some(self.order@[index as int])
            } else {
                None
            }),
    {
        if index >= self.size {
            return None;
        }
        let ghost n = self.order@.len() as int;
        let ghost h = self.heights();
        let mut remaining: usize = index + 1;
        let mut cur: Option<usize> = None;
        let ghost mut u: int = -1;
        let mut i: usize = self.level as usize;
        while i > 0
            invariant
                self.wf(),
                n == self.order@.len(),
                h == self.heights(),
                index < n,
                i <= self.level,
                -1 <= u < index,
                remaining == index - u,
                cur == self.at_pos(u),
                u == -1 || h[u] >= i,
                i < self.level ==> succ(h, u, i as int) > index,
            decreases i,
        {
            let lv = i - 1;
            loop
                invariant
                    self.wf(),
                    n == self.order@.len(),
                    h == self.heights(),
                    index < n,
                    lv < self.level,
                    -1 <= u < index,
                    remaining == index - u,
                    cur == self.at_pos(u),
                    u == -1 || h[u] > lv,
                ensures
                    -1 <= u < index,
                    remaining == index - u,
                    cur == self.at_pos(u),
                    u == -1 || h[u] > lv,
                    succ(h, u, lv as int) > index,
                decreases n - u,
            {
                proof {
                    lemma_succ(h, u, lv as int);
                    assert(self.link_ok(u, lv as int));
                }
                let link = self.link_of(cur, lv);
                match link.next {
                    Some(x) => {
                        if link.width <= remaining {
                            remaining = remaining - link.width;
                            cur = Some(x);
                            proof {
                                u = succ(h, u, lv as int);
                            }
                            if remaining == 0 {
                                return Some(x);
                            }
                        } else {
                            break;
                        }
                    },
                    None => {
                        break;
                    },
                }
            }
            i = lv;
        }
        proof {
            lemma_succ(h, u, 0);
            assert(h[u + 1] >= 1);
        }
        None
    }

    /// The key at position `index` in key order, if there is one.
    pub fn key_at(&self, index: usize) -> (r: Option<K>)
        requires
            self.wf(),
        ensures
            r == (if index < self@.len() {
                Some(self@[index as int].0)
            } else {
                None
            }),
    {
        proof {
            self.lemma_view();
        }
        match self.node_at(index) {
            Some(x) => Some(self.nodes[x].key),
            None => None,
        }
    }

    /// The value at position `index` in key order, if there is one.
    pub fn data_at(&self, index: usize) -> (r: Option<V>)
        requires
            self.wf(),
        ensures
            r == (if index < self@.len() {
                Some(self@[index as int].1)
            } else {
                None
            }),
    {
        proof {
            self.lemma_view();
        }
        match self.node_at(index) {
            Some(x) => Some(self.nodes[x].value),
            None => None,
        }
    }

    /// Only values may differ between `pre` and `post`: the shape and the
    /// keys are the same, so `post` is well formed too.
    proof fn lemma_values_only(pre: Self, post: Self)
        requires
            pre.wf(),
            post.level == pre.level,
            post.cmp == pre.cmp,
            post.max_level == pre.max_level,
            post.p_num == pre.p_num,
            post.p_den == pre.p_den,
            post.size == pre.size,
            post.head@ == pre.head@,
            post.vacant@ == pre.vacant@,
            post.order@ == pre.order@,
            post.nodes@.len() == pre.nodes@.len(),
            forall|y: int| 0 <= y < pre.nodes@.len() ==> {
                &&& (#[trigger] post.nodes@[y]).key == pre.nodes@[y].key
                &&& post.nodes@[y].links@ == pre.nodes@[y].links@
            },
        ensures
            post.wf(),
            post.heights() == pre.heights(),
    {
        assert(post.heights() =~= pre.heights());
        assert forall|j: int, i: int|
            -1 <= j < post.order@.len() && 0 <= i < post.links_at(j).len() implies #[trigger] post.link_ok(j, i) by {
            assert(post.links_at(j) == pre.links_at(j));
            assert(pre.link_ok(j, i));
        }
        assert(sorted(post.comparator(), post@)) by {
            assert forall|a: int, b: int| 0 <= a < b < post@.len() implies post.comparator().lt(#[trigger] post@[a].0, #[trigger] post@[b].0) by {
                assert(pre.comparator().lt(pre@[a].0, pre@[b].0));
            }
        }
    }

    /// Replaces the link at level `i` of the node `at`, of the head for
    /// `None`; nothing else changes.
    fn set_link(&mut self, at: Option<usize>, i: usize, link: Link)
        requires
            match at {
                None => i < old(self).head@.len(),
                Some(x) => x < old(self).nodes@.len() && i < old(self).nodes@[x as int].links@.len(),
            },
        ensures
            final(self).head@ == (if at is None {
                old(self).head@.update(i as int, link)
            } else {
                old(self).head@
            }),
            final(self).nodes@.len() == old(self).nodes@.len(),
            forall|y: int| 0 <= y < old(self).nodes@.len() ==> {
                &&& (#[trigger] final(self).nodes@[y]).key == old(self).nodes@[y].key
                &&& final(self).nodes@[y].value == old(self).nodes@[y].value
                &&& final(self).nodes@[y].links@ == if points_to(at, y) {
                    old(self).nodes@[y].links@.update(i as int, link)
                } else {
                    old(self).nodes@[y].links@
                }
            },
            final(self).order == old(self).order,
            final(self).vacant@ == old(self).vacant@,
            final(self).level == old(self).level,
            final(self).max_level == old(self).max_level,
            final(self).size == old(self).size,
            final(self).p_num == old(self).p_num,
            final(self).p_den == old(self).p_den,
            final(self).rng == old(self).rng,
            final(self).cmp == old(self).cmp,
    {
        match at {
            None => self.head.set(i, link),
            Some(x) => {
                let ghost before = self.nodes@;
                self.nodes[x].links.set(i, link);
                proof {
                    assert forall|y: int| 0 <= y < before.len() implies {
                        &&& (#[trigger] self.nodes@[y]).key == before[y].key
                        &&& self.nodes@[y].value == before[y].value
                        &&& self.nodes@[y].links@ == if points_to(at, y) {
                            before[y].links@.update(i as int, link)
                        } else {
                            before[y].links@
                        }
                    } by {
                        if y == x {
                            assert(points_to(at, y));
                        } else {
                            assert(!points_to(at, y));
                        }
                    }
                }
            },
        }
    }

    /// At a level above every node, the walk goes down from the head, whose
    /// link there reaches the end.
    proof fn lemma_above(&self, i: int, p: int)
        requires
            self.wf(),
            self.level <= i,
            0 <= p <= self.order@.len(),
        ensures
            self.below(i, None, 0, p),
    {
        let h = self.heights();
        assert forall|t: int| -1 < t < self.order@.len() implies #[trigger] h[t] <= i by {}
        lemma_succ_is(h, -1, i, self.order@.len() as int);
    }

    /// Places a new node with `lvl` empty links in a vacant arena slot, or
    /// at the end of the arena.
    fn alloc_node(&mut self, key: K, data: V, lvl: usize) -> (slot: usize)
        requires
            old(self).arena_ok(),
        ensures
            final(self).head@ == old(self).head@,
            final(self).order == old(self).order,
            final(self).level == old(self).level,
            final(self).max_level == old(self).max_level,
            final(self).size == old(self).size,
            final(self).p_num == old(self).p_num,
            final(self).p_den == old(self).p_den,
            final(self).rng == old(self).rng,
            final(self).cmp == old(self).cmp,
            final(self).nodes@.len() >= old(self).nodes@.len(),
            slot < final(self).nodes@.len(),
            forall|j: int| 0 <= j < old(self).order@.len() ==> #[trigger] old(self).order@[j] != slot,
            final(self).nodes@.len() == old(self).nodes@.len() || (final(self).nodes@.len() == old(self).nodes@.len() + 1
                && slot == old(self).nodes@.len()),
            forall|y: int| 0 <= y < old(self).nodes@.len() && y != slot ==> #[trigger] final(self).nodes@[y] == old(self).nodes@[y],
            final(self).nodes@[slot as int].key == key,
            final(self).nodes@[slot as int].value == data,
            final(self).nodes@[slot as int].links@ == Seq::new(lvl as nat, |t: int| Link { next: None, width: 0 }),
            forall|j: int| 0 <= j < final(self).vacant@.len() ==> #[trigger] final(self).vacant@[j] < final(self).nodes@.len(),
            forall|a: int, b: int|
                0 <= a < final(self).vacant@.len() && 0 <= b < final(self).vacant@.len() && a != b ==> #[trigger] final(self).vacant@[a]
                    != #[trigger] final(self).vacant@[b],
            forall|a: int, b: int|
                0 <= a < final(self).vacant@.len() && 0 <= b < old(self).order@.len() ==> #[trigger] final(self).vacant@[a]
                    != #[trigger] old(self).order@[b],
            forall|a: int| 0 <= a < final(self).vacant@.len() ==> #[trigger] final(self).vacant@[a] != slot,
    {
        let links = empty_links(lvl);
        let node = Node { key, value: data, links };
        let ghost vac = self.vacant@;
        match self.vacant.pop() {
            Some(v) => {
                self.nodes.set(v, node);
                proof {
                    assert(vac[vac.len() - 1] == v);
                    assert forall|j: int| 0 <= j < old(self).order@.len() implies #[trigger] old(self).order@[j] != v by {
                        assert(vac[vac.len() - 1] != old(self).order@[j]);
                    }
                    assert forall|a: int| 0 <= a < self.vacant@.len() implies #[trigger] self.vacant@[a] != v by {
                        assert(vac[a] != vac[vac.len() - 1]);
                    }
                    assert forall|a: int, b: int|
                        0 <= a < self.vacant@.len() && 0 <= b < old(self).order@.len() implies #[trigger] self.vacant@[a]
                            != #[trigger] old(self).order@[b] by {
                        assert(vac[a] != old(self).order@[b]);
                    }
                    assert forall|a: int, b: int|
                        0 <= a < self.vacant@.len() && 0 <= b < self.vacant@.len() && a != b implies #[trigger] self.vacant@[a]
                            != #[trigger] self.vacant@[b] by {
                        assert(vac[a] != vac[b]);
                    }
                }
                v
            },
            None => {
                self.nodes.push(node);
                self.nodes.len() - 1
            },
        }
    }

    /// Links a new node at arena index `slot` in after the nodes that the
    /// walk went down from, level by level, and widens the links that pass
    /// over it.
    #[verifier::rlimit(30)]
    fn splice(&mut self, preds: &Vec<Option<usize>>, ranks: &Vec<usize>, slot: usize, lvl: usize, top: usize, Ghost(pre): Ghost<Self>)
        requires
            pre.wf(),
            pre.order@.len() < usize::MAX,
            1 <= lvl <= pre.max_level,
            top == if lvl > pre.level { lvl } else { pre.level as usize },
            preds@.len() == top,
            ranks@.len() == top,
            ranks@[0] <= pre.order@.len(),
            forall|l: int| 0 <= l < top ==> #[trigger] pre.below(l, preds@[l], ranks@[l] as int, ranks@[0] as int),
            forall|j: int| 0 <= j < pre.order@.len() ==> #[trigger] pre.order@[j] != slot,
            Self::spliced(pre, old(self).head@, old(self).nodes@, preds@, ranks@, slot, lvl as int, 0),
        ensures
            Self::spliced(pre, final(self).head@, final(self).nodes@, preds@, ranks@, slot, lvl as int, top as int),
            final(self).nodes@[slot as int].key == old(self).nodes@[slot as int].key,
            final(self).nodes@[slot as int].value == old(self).nodes@[slot as int].value,
            final(self).nodes@.len() == old(self).nodes@.len(),
            final(self).order == old(self).order,
            final(self).vacant@ == old(self).vacant@,
            final(self).level == old(self).level,
            final(self).max_level == old(self).max_level,
            final(self).size == old(self).size,
            final(self).p_num == old(self).p_num,
            final(self).p_den == old(self).p_den,
            final(self).rng == old(self).rng,
            final(self).cmp == old(self).cmp,
    {
        let ghost h = pre.heights();
        let ghost p = ranks@[0] as int;
        let mut i: usize = 0;
        while i < top
            invariant
                pre.wf(),
                h == pre.heights(),
                pre.order@.len() < usize::MAX,
                0 <= p <= pre.order@.len(),
                ranks@[0] == p,
                1 <= lvl <= pre.max_level,
                top == if lvl > pre.level { lvl } else { pre.level as usize },
                i <= top,
                preds@.len() == top,
                ranks@.len() == top,
                forall|l: int| 0 <= l < top ==> #[trigger] pre.below(l, preds@[l], ranks@[l] as int, p),
                forall|j: int| 0 <= j < pre.order@.len() ==> #[trigger] pre.order@[j] != slot,
                Self::spliced(pre, self.head@, self.nodes@, preds@, ranks@, slot, lvl as int, i as int),
                self.nodes@[slot as int].key == old(self).nodes@[slot as int].key,
                self.nodes@[slot as int].value == old(self).nodes@[slot as int].value,
                self.nodes@.len() == old(self).nodes@.len(),
                self.order == old(self).order,
                self.vacant@ == old(self).vacant@,
                self.level == old(self).level,
                self.max_level == old(self).max_level,
                self.size == old(self).size,
                self.p_num == old(self).p_num,
                self.p_den == old(self).p_den,
                self.rng == old(self).rng,
                self.cmp == old(self).cmp,
            decreases top - i,
        {
            let at = preds[i];
            let ghost u = ranks@[i as int] - 1;
            proof {
                assert(pre.below(i as int, at, ranks@[i as int] as int, p));
                if u >= 0 {
                    assert(h[u] == pre.nodes@[pre.order@[u] as int].links@.len());
                    assert(pre.order@[u] != slot);
                    assert(self.nodes@[pre.order@[u] as int].links@[i as int] == pre.nodes@[pre.order@[u] as int].links@[i as int]);
                } else {
                    assert(self.head@[i as int] == pre.head@[i as int]);
                }
                assert(pre.link_ok(u, i as int));
                lemma_succ(h, u, i as int);
            }
            let l = self.link_of(at, i);
            let ghost before = *self;
            assert(l == pre.links_of(at)[i as int]);
            if i < lvl {
                let gap = ranks[0] - ranks[i];
                let nl = match l.next {
                    Some(_) => Link { next: l.next, width: l.width - gap },
                    None => Link { next: None, width: 0 },
                };
                assert(nl == Self::new_link(pre, preds@, ranks@, i as int));
                self.set_link(Some(slot), i, nl);
                let pl = Link { next: Some(slot), width: gap + 1 };
                assert(pl == Self::pred_link(pre, preds@, ranks@, slot, lvl as int, i as int));
                self.set_link(at, i, pl);
            } else {
                match l.next {
                    Some(_) => {
                        let pl = Link { next: l.next, width: l.width + 1 };
                        assert(pl == Self::pred_link(pre, preds@, ranks@, slot, lvl as int, i as int));
                        self.set_link(at, i, pl);
                    },
                    None => {
                        assert(l == Self::pred_link(pre, preds@, ranks@, slot, lvl as int, i as int));
                        self.set_link(at, i, l);
                    },
                }
            }
            proof {
                let ii = i as int;
                assert forall|l: int| 0 <= l < self.head@.len() implies #[trigger] self.head@[l] == if l < ii + 1 && preds@[l] is None {
                    Self::pred_link(pre, preds@, ranks@, slot, lvl as int, l)
                } else {
                    pre.head@[l]
                } by {
                    if l != ii {
                        assert(self.head@[l] == before.head@[l]);
                    }
                }
                assert forall|y: int| 0 <= y < self.nodes@.len() && y != slot implies {
                    &&& (#[trigger] self.nodes@[y]).links@.len() == pre.nodes@[y].links@.len()
                    &&& self.nodes@[y].key == pre.nodes@[y].key
                    &&& self.nodes@[y].value == pre.nodes@[y].value
                } by {
                    assert(before.nodes@[y].links@.len() == pre.nodes@[y].links@.len());
                }
                assert forall|y: int, l: int| 0 <= y < self.nodes@.len() && y != slot && 0 <= l < self.nodes@[y].links@.len() implies #[trigger] self.nodes@[y].links@[l] == if l < ii + 1 && points_to(preds@[l], y) {
                    Self::pred_link(pre, preds@, ranks@, slot, lvl as int, l)
                } else {
                    pre.nodes@[y].links@[l]
                } by {
                    assert(before.nodes@[y].links@.len() == pre.nodes@[y].links@.len());
                    if l != ii {
                        assert(self.nodes@[y].links@[l] == before.nodes@[y].links@[l]);
                    }
                }
                assert forall|l: int| 0 <= l < lvl implies #[trigger] self.nodes@[slot as int].links@[l] == if l < ii + 1 {
                    Self::new_link(pre, preds@, ranks@, l)
                } else {
                    Link { next: None, width: 0 }
                } by {
                    if l != ii {
                        assert(self.nodes@[slot as int].links@[l] == before.nodes@[slot as int].links@[l]);
                    }
                }
            }
            i = i + 1;
        }
    }

    /// Stores `data` under `key`. Where the key is present its value is
    /// replaced and the previous one returned; else a new node goes in, with
    /// a level drawn from the list's own random source.
    #[verifier::rlimit(80)]
    pub fn insert(&mut self, key: K, data: V) -> (r: Option<V>)
        requires
            old(self).wf(),
            old(self)@.len() < usize::MAX || lookup(old(self).comparator(), old(self)@, key) is Some,
        ensures
            final(self).wf(),
            r == lookup(old(self).comparator(), old(self)@, key),
            final(self)@ == inserted(old(self).comparator(), old(self)@, key, data),
            final(self)@.len() == old(self)@.len() + if r is Some { 0int } else { 1int },
            final(self).comparator() == old(self).comparator(),
            final(self).max_level() == old(self).max_level(),
            final(self).promotion() == old(self).promotion(),
            r is Some ==> final(self).rng_state() == old(self).rng_state() && final(self).level()
                == old(self).level() && final(self).heights_by_rank() == old(self).heights_by_rank(),
            r is None ==> ({
                let d = drawn_level(
                    old(self).rng_state(),
                    old(self).promotion().0,
                    old(self).promotion().1,
                    old(self).max_level(),
                    1,
                );
                &&& final(self).rng_state() == d.1
                &&& final(self).level() == if d.0 > old(self).level() {
                    d.0
                } else {
                    old(self).level()
                }
                &&& final(self).heights_by_rank() == old(self).heights_by_rank().insert(
                    position(old(self).comparator(), old(self)@, key) as int,
                    d.0,
                )
            }),
    {
        let ghost pre = *self;
        let (mut preds, mut ranks) = self.descend(key);
        let ghost n = self.order@.len() as int;
        let ghost h = self.heights();
        let ghost p = ranks@[0] as int;
        proof {
            self.lemma_bottom(key, preds@[0], p);
            lemma_position(self.comparator(), self@, key);
            lemma_inserted(self.comparator(), self@, key, data);
        }
        let link0 = self.link_of(preds[0], 0);
        match link0.next {
            Some(x) => {
                match self.cmp.compare(&self.nodes[x].key, &key) {
                    Ordering::Equal => {
                        let previous = self.nodes[x].value;
                        self.nodes[x].value = data;
                        proof {
                            Self::lemma_values_only(pre, *self);
                            assert(self@ =~= pre@.update(p, (key, data)));
                        }
                        return Some(previous);
                    },
                    _ => {},
                }
            },
            None => {},
        }
        proof {
            assert(p == n || self.key_of(p) != key);
            assert(lookup(pre.comparator(), pre@, key) is None);
            assert forall|i: int| 0 <= i < pre.level implies #[trigger] pre.below(i, preds@[i], ranks@[i] as int, p) by {
                assert(pre.pred_ok(key, i, preds@[i], ranks@[i] as int));
                pre.lemma_pred(key, i, preds@[i], ranks@[i] as int);
            }
        }
        let ghost d = drawn_level(pre.rng.state(), pre.p_num, pre.p_den, pre.max_level as int, 1);
        let lvl = random_level(&mut self.rng, self.p_num, self.p_den, self.max_level);
        assert(lvl == d.0 && self.rng.state() == d.1);
        let ghost rng_after = self.rng;
        let old_level = self.level as usize;
        let top: usize = if lvl > old_level { lvl } else { old_level };
        let mut k: usize = old_level;
        while k < top
            invariant
                pre.wf(),
                n == pre.order@.len(),
                old_level == pre.level,
                old_level <= k <= top,
                preds@.len() == k,
                ranks@.len() == k,
                ranks@[0] == p,
                0 <= p <= n,
                forall|i: int| 0 <= i < k ==> #[trigger] pre.below(i, preds@[i], ranks@[i] as int, p),
                forall|i: int| old_level <= i < k ==> #[trigger] preds@[i] is None,
            decreases top - k,
        {
            proof {
                pre.lemma_above(k as int, p);
            }
            preds.push(None);
            ranks.push(0);
            k = k + 1;
        }
        assert(self.arena_ok());
        let slot = self.alloc_node(key, data, lvl);

        proof {
            assert forall|y: int, l: int| 0 <= y < self.nodes@.len() && y != slot && 0 <= l < self.nodes@[y].links@.len() implies #[trigger] self.nodes@[y].links@[l] == pre.nodes@[y].links@[l] by {
                assert(self.nodes@[y] == pre.nodes@[y]);
            }
            assert forall|l: int| 0 <= l < lvl implies #[trigger] self.nodes@[slot as int].links@[l] == (Link { next: None, width: 0 }) by {}
        }
        self.splice(&preds, &ranks, slot, lvl, top, Ghost(pre));
        if lvl > old_level {
            self.level = lvl as u16;
        }
        self.order = Ghost(self.order@.insert(p, slot));
        self.size = self.size + 1;
        assert(self.rng == rng_after);
        proof {
            Self::lemma_insert_links(pre, *self, preds@, ranks@, slot, lvl as int, top as int);
            assert(self@ =~= pre@.insert(p, (key, data)));
            self.lemma_view();
            assert forall|j: int| 0 <= j < self.order@.len() implies 1 <= #[trigger] self.heights()[j] <= self.level by {
                if j != p {
                    assert(self.heights()[j] == h[if j < p { j } else { j - 1 }]);
                }
            }
            if lvl > old_level {
                assert(self.head@[lvl - 1] == Self::pred_link(pre, preds@, ranks@, slot, lvl as int, lvl - 1));
            } else if old_level > 1 {
                assert(self.head@[old_level - 1] == Self::pred_link(pre, preds@, ranks@, slot, lvl as int, old_level - 1) || self.head@[old_level - 1] == pre.head@[old_level - 1]);
            }
            assert(self.arena_ok()) by {
                assert forall|a: int, b: int|
                    0 <= a < self.order@.len() && 0 <= b < self.order@.len() && a != b implies #[trigger] self.order@[a]
                        != #[trigger] self.order@[b] by {
                    if a != p && b != p {
                        assert(pre.order@[if a < p { a } else { a - 1 }] != pre.order@[if b < p { b } else { b - 1 }]);
                    } else if a == p {
                        assert(pre.order@[if b < p { b } else { b - 1 }] != slot);
                    } else {
                        assert(pre.order@[if a < p { a } else { a - 1 }] != slot);
                    }
                }
                assert forall|a: int, b: int|
                    0 <= a < self.vacant@.len() && 0 <= b < self.order@.len() implies #[trigger] self.vacant@[a]
                        != #[trigger] self.order@[b] by {
                    if b != p {
                        assert(self.vacant@[a] != pre.order@[if b < p { b } else { b - 1 }]);
                    }
                }
                assert forall|j: int| 0 <= j < self.order@.len() implies #[trigger] self.order@[j] < self.nodes@.len() by {
                    if j != p {
                        assert(pre.order@[if j < p { j } else { j - 1 }] < pre.nodes@.len());
                    }
                }
            }
        }
        None
    }

    /// Takes the node at arena index `t` out of every level: each link
    /// that reached it now goes where its own link went, and each link that
    /// passed over it becomes one narrower.
    #[verifier::rlimit(30)]
    fn unlink(&mut self, preds: &Vec<Option<usize>>, t: usize, Ghost(pre): Ghost<Self>, Ghost(ranks): Ghost<Seq<usize>>, Ghost(p): Ghost<int>)
        requires
            pre.wf(),
            0 <= p < pre.order@.len(),
            t == pre.order@[p],
            preds@.len() == pre.level,
            ranks.len() == pre.level,
            forall|l: int| 0 <= l < pre.level ==> #[trigger] pre.below(l, preds@[l], ranks[l] as int, p),
            Self::unlinked(pre, old(self).head@, old(self).nodes@, preds@, t, 0),
            old(self).order == pre.order,
            old(self).level == pre.level,
        ensures
            Self::unlinked(pre, final(self).head@, final(self).nodes@, preds@, t, pre.level as int),
            final(self).order == old(self).order,
            final(self).vacant@ == old(self).vacant@,
            final(self).level == old(self).level,
            final(self).max_level == old(self).max_level,
            final(self).size == old(self).size,
            final(self).p_num == old(self).p_num,
            final(self).p_den == old(self).p_den,
            final(self).rng == old(self).rng,
            final(self).cmp == old(self).cmp,
    {
        let ghost h = pre.heights();
        let top = self.level as usize;
        let mut i: usize = 0;
        while i < top
            invariant
                pre.wf(),
                h == pre.heights(),
                0 <= p < pre.order@.len(),
                t == pre.order@[p],
                top == pre.level,
                i <= top,
                preds@.len() == top,
                ranks.len() == top,
                forall|l: int| 0 <= l < top ==> #[trigger] pre.below(l, preds@[l], ranks[l] as int, p),
                Self::unlinked(pre, self.head@, self.nodes@, preds@, t, i as int),
                self.order == old(self).order,
                self.vacant@ == old(self).vacant@,
                self.level == old(self).level,
                self.max_level == old(self).max_level,
                self.size == old(self).size,
                self.p_num == old(self).p_num,
                self.p_den == old(self).p_den,
                self.rng == old(self).rng,
                self.cmp == old(self).cmp,
            decreases top - i,
        {
            let at = preds[i];
            let ghost u = ranks[i as int] - 1;
            proof {
                assert(pre.below(i as int, at, ranks[i as int] as int, p));
                if u >= 0 {
                    assert(h[u] == pre.nodes@[pre.order@[u] as int].links@.len());
                    assert(self.nodes@[pre.order@[u] as int].links@[i as int] == pre.nodes@[pre.order@[u] as int].links@[i as int]);
                } else {
                    assert(self.head@[i as int] == pre.head@[i as int]);
                }
                assert(pre.link_ok(u, i as int));
                lemma_succ(h, u, i as int);
                assert(pre.heights()[p] == pre.nodes@[t as int].links@.len());
                assert(t != pre.order@[u] || u < 0) by {
                    if u >= 0 {
                        assert(u < p);
                    }
                }
            }
            let l = self.link_of(at, i);
            let ghost before = *self;
            assert(l == pre.links_of(at)[i as int]);
            let nl = match l.next {
                Some(x) => {
                    if x == t {
                        proof {
                            assert(succ(h, u, i as int) == p);
                            assert(pre.link_ok(p, i as int));
                            lemma_succ(h, p, i as int);
                            assert(self.nodes@[t as int].links@[i as int] == pre.nodes@[t as int].links@[i as int]);
                        }
                        let tl = self.nodes[t].links[i];
                        match tl.next {
                            Some(_) => Link { next: tl.next, width: l.width + tl.width - 1 },
                            None => Link { next: None, width: 0 },
                        }
                    } else {
                        Link { next: l.next, width: l.width - 1 }
                    }
                },
                None => l,
            };
            assert(nl == Self::unlinked_link(pre, preds@, t, i as int));
            self.set_link(at, i, nl);
            proof {
                let ii = i as int;
                assert forall|l: int| 0 <= l < self.head@.len() implies #[trigger] self.head@[l] == (if l < ii + 1 && preds@[l] is None {
                    Self::unlinked_link(pre, preds@, t, l)
                } else {
                    pre.head@[l]
                }) by {
                    if l != ii {
                        assert(self.head@[l] == before.head@[l]);
                    }
                }
                assert forall|y: int, l: int| 0 <= y < self.nodes@.len() && 0 <= l < self.nodes@[y].links@.len() implies #[trigger] self.nodes@[y].links@[l] == (if l < ii + 1 && points_to(preds@[l], y) {
                    Self::unlinked_link(pre, preds@, t, l)
                } else {
                    pre.nodes@[y].links@[l]
                }) by {
                    assert(before.nodes@[y].links@.len() == pre.nodes@[y].links@.len());
                    if l != ii {
                        assert(self.nodes@[y].links@[l] == before.nodes@[y].links@[l]);
                    }
                }
            }
            i = i + 1;
        }
    }

    /// Takes out the entry of `key` and returns its value, if there is one.
    #[verifier::rlimit(30)]
    pub fn remove(&mut self, key: &K) -> (r: Option<V>)
        requires
            old(self).wf(),
        ensures
            final(self).wf(),
            r == lookup(old(self).comparator(), old(self)@, *key),
            final(self)@ == removed(old(self).comparator(), old(self)@, *key),
            final(self)@.len() == old(self)@.len() - if r is Some { 1int } else { 0int },
            r is None ==> *final(self) == *old(self),
            r is Some ==> final(self).heights_by_rank() == old(self).heights_by_rank().remove(
                position(old(self).comparator(), old(self)@, *key) as int,
            ),
            final(self).level() == top_level(final(self).heights_by_rank()),
            final(self).comparator() == old(self).comparator(),
            final(self).max_level() == old(self).max_level(),
            final(self).promotion() == old(self).promotion(),
            final(self).rng_state() == old(self).rng_state(),
    {
        let ghost pre = *self;
        let (preds, ranks) = self.descend(*key);
        let ghost n = self.order@.len() as int;
        let ghost h = self.heights();
        let ghost p = ranks@[0] as int;
        proof {
            self.lemma_level_is_top();
            self.lemma_bottom(*key, preds@[0], p);
            lemma_position(self.comparator(), self@, *key);
            lemma_removed(self.comparator(), self@, *key);
        }
        let link0 = self.link_of(preds[0], 0);
        let t = match link0.next {
            Some(x) => x,
            None => {
                return None;
            },
        };
        match self.cmp.compare(&self.nodes[t].key, key) {
            Ordering::Equal => {},
            _ => {
                return None;
            },
        }
        let previous = self.nodes[t].value;
        proof {
            assert(t == pre.order@[p]);
            assert forall|i: int| 0 <= i < pre.level implies #[trigger] pre.below(i, preds@[i], ranks@[i] as int, p) by {
                assert(pre.pred_ok(*key, i, preds@[i], ranks@[i] as int));
                pre.lemma_pred(*key, i, preds@[i], ranks@[i] as int);
            }
        }
        self.unlink(&preds, t, Ghost(pre), Ghost(ranks@), Ghost(p));
        self.order = Ghost(self.order@.remove(p));
        self.size = self.size - 1;
        self.vacant.push(t);
        proof {
            Self::lemma_remove_links(pre, *self, preds@, ranks@, p);
            assert(self@ =~= pre@.remove(p));
            self.lemma_view();
            assert forall|j: int| 0 <= j < self.order@.len() implies 1 <= #[trigger] self.heights()[j] <= self.level by {
                assert(self.heights()[j] == h[if j < p { j } else { j + 1 }]);
            }
            assert(self.arena_ok()) by {
                let vac = pre.vacant@;
                assert forall|a: int, b: int|
                    0 <= a < self.order@.len() && 0 <= b < self.order@.len() && a != b implies #[trigger] self.order@[a]
                        != #[trigger] self.order@[b] by {
                    assert(pre.order@[if a < p { a } else { a + 1 }] != pre.order@[if b < p { b } else { b + 1 }]);
                }
                assert forall|a: int, b: int|
                    0 <= a < self.vacant@.len() && 0 <= b < self.order@.len() implies #[trigger] self.vacant@[a]
                        != #[trigger] self.order@[b] by {
                    if a < vac.len() {
                        assert(vac[a] != pre.order@[if b < p { b } else { b + 1 }]);
                    } else {
                        assert(pre.order@[p] != pre.order@[if b < p { b } else { b + 1 }]);
                    }
                }
                assert forall|a: int, b: int|
                    0 <= a < self.vacant@.len() && 0 <= b < self.vacant@.len() && a != b implies #[trigger] self.vacant@[a]
                        != #[trigger] self.vacant@[b] by {
                    if a < vac.len() && b < vac.len() {
                        assert(vac[a] != vac[b]);
                    } else if a < vac.len() {
                        assert(vac[a] != pre.order@[p]);
                    } else {
                        assert(vac[b] != pre.order@[p]);
                    }
                }
                assert forall|j: int| 0 <= j < self.vacant@.len() implies #[trigger] self.vacant@[j] < self.nodes@.len() by {
                    if j < vac.len() {
                        assert(vac[j] < pre.nodes@.len());
                    }
                }
                assert forall|j: int| 0 <= j < self.order@.len() implies #[trigger] self.order@[j] < self.nodes@.len() by {
                    assert(pre.order@[if j < p { j } else { j + 1 }] < pre.nodes@.len());
                }
            }
        }
        self.lower_level();
        Some(previous)
    }

    /// Lowers the current level while its head link reaches no node.
    fn lower_level(&mut self)
        requires
            old(self).shape_ok(),
        ensures
            final(self).wf(),
            final(self)@ == old(self)@,
            final(self).max_level == old(self).max_level,
            final(self).p_num == old(self).p_num,
            final(self).p_den == old(self).p_den,
            final(self).rng == old(self).rng,
            final(self).cmp == old(self).cmp,
            final(self).heights() == old(self).heights(),
            final(self).level() == top_level(final(self).heights()),
    {
        while self.level > 1 && self.head[self.level as usize - 1].next.is_none()
            invariant
                self.shape_ok(),
                self@ == old(self)@,
                self.heights() == old(self).heights(),
                self.max_level == old(self).max_level,
                self.p_num == old(self).p_num,
                self.p_den == old(self).p_den,
                self.rng == old(self).rng,
                self.cmp == old(self).cmp,
            decreases self.level,
        {
            let ghost before = *self;
            proof {
                let top = self.level - 1;
                assert(self.link_ok(-1, top));
                lemma_succ(self.heights(), -1, top);
                assert forall|j: int| 0 <= j < self.order@.len() implies #[trigger] self.heights()[j] <= top by {}
            }
            self.level = self.level - 1;
            proof {
                assert(self.heights() == before.heights());
                assert(self@ == before@);
                assert forall|j: int, i: int|
                    -1 <= j < self.order@.len() && 0 <= i < self.links_at(j).len() implies #[trigger] self.link_ok(j, i) by {
                    assert(self.links_at(j) == before.links_at(j));
                    assert(before.link_ok(j, i));
                }
                assert(self.arena_ok() == before.arena_ok());
            }
        }
        proof {
            self.lemma_level_is_top();
        }
    }

    /// In a well-formed list the current level is the height of the tallest
    /// entry, or one.
    proof fn lemma_level_is_top(&self)
        requires
            self.wf(),
        ensures
            self.level() == top_level(self.heights()),
    {
        let h = self.heights();
        let l = self.level as int;
        if l > 1 {
            assert(self.link_ok(-1, l - 1));
            lemma_succ(h, -1, l - 1);
            let j = succ(h, -1, l - 1);
            lemma_top_level_is(h, l, j);
        } else {
            lemma_top_level_is(h, l, 0);
        }
    }

    /// Read by rank, the keys of a list strictly increase, and a key is
    /// found exactly where some rank holds it.
    pub proof fn lemma_keys_by_rank(&self)
        requires
            self.wf(),
        ensures
            forall|a: int, b: int| 0 <= a < b < self@.len() ==> self.comparator().lt(#[trigger] self@[a].0, #[trigger] self@[b].0),
            forall|k: K| #[trigger] lookup(self.comparator(), self@, k) is None <==> forall|i: int| 0 <= i < self@.len() ==> #[trigger] self@[i].0 != k,
    {
        assert forall|k: K| #[trigger] lookup(self.comparator(), self@, k) is None <==> forall|i: int| 0 <= i < self@.len() ==> #[trigger] self@[i].0 != k by {
            lemma_lookup_none(self.comparator(), self@, k);
        }
    }

    /// Takes every entry out and hands them back in ascending key order;
    /// the list is then empty, with its level back at one.
    pub fn clear(&mut self) -> (r: Vec<(K, V)>)
        requires
            old(self).wf(),
        ensures
            final(self).wf(),
            r@ == old(self)@,
            final(self)@ == Seq::<(K, V)>::empty(),
            final(self).comparator() == old(self).comparator(),
            final(self).max_level() == old(self).max_level(),
            final(self).promotion() == old(self).promotion(),
            final(self).rng_state() == old(self).rng_state(),
            final(self).level() == 1,
            final(self).heights_by_rank() == Seq::<int>::empty(),
    {
        let ghost n = self.order@.len() as int;
        let ghost h = self.heights();
        let mut out: Vec<(K, V)> = Vec::new();
        proof {
            self.lemma_view();
            assert(self.link_ok(-1, 0));
            lemma_succ(h, -1, 0);
            if n > 0 {
                assert(h[0] >= 1);
            }
        }
        let mut cur: Option<usize> = self.head[0].next;
        let ghost mut j: int = 0;
        loop
            invariant
                self.wf(),
                n == self.order@.len(),
                h == self.heights(),
                0 <= j <= n,
                out@ == self@.subrange(0, j),
                cur == (if j < n { Some(self.order@[j]) } else { None::<usize> }),
            ensures
                out@ == self@,
            decreases n - j,
        {
            match cur {
                None => {
                    proof {
                        assert(out@ =~= self@);
                    }
                    break;
                },
                Some(x) => {
                    proof {
                        assert(self.links_at(j) == self.nodes@[x as int].links@);
                        assert(h[j] == self.nodes@[x as int].links@.len());
                        assert(self.link_ok(j, 0));
                        lemma_succ(h, j, 0);
                        if j + 1 < n {
                            assert(h[j + 1] >= 1);
                        }
                    }
                    out.push((self.nodes[x].key, self.nodes[x].value));
                    cur = self.nodes[x].links[0].next;
                    proof {
                        assert(out@ =~= self@.subrange(0, j + 1));
                        j = j + 1;
                    }
                },
            }
        }
        self.head = empty_links(self.max_level as usize);
        self.nodes = Vec::new();
        self.vacant = Vec::new();
        self.level = 1;
        self.size = 0;
        self.order = Ghost(Seq::empty());
        proof {
            assert(self@ =~= Seq::<(K, V)>::empty());
            assert(self.heights() =~= Seq::<int>::empty());
            assert forall|j: int, i: int| -1 <= j < 0 && 0 <= i < self.links_at(j).len() implies #[trigger] self.link_ok(j, i) by {
                assert(self.heights().len() == 0);
            }
        }
        out
    }

    /// The number of entries.
    pub fn len(&self) -> (r: usize)
        requires
            self.wf(),
        ensures
            r == self@.len(),
    {
        proof {
            self.lemma_view();
        }
        self.size
    }
}

} // verus!
