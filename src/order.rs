//! The order on keys that a list is built with.
use std::cmp::Ordering;
use vstd::prelude::*;

verus! {

/// Compares two keys in their natural order.
pub fn int_comparator(a: &i32, b: &i32) -> (r: Ordering)
    ensures
        r == (if *a < *b {
            Ordering::Less
        } else if *a > *b {
            Ordering::Greater
        } else {
            Ordering::Equal
        }),
{
    a.cmp(b)
}

/// A strict total order on keys of type `K`, supplied by the caller when a
/// list is built.
pub trait KeyOrder<K> {
    /// `a` comes before `b`.
    spec fn lt(&self, a: K, b: K) -> bool;

    /// `lt` is irreflexive, transitive and total.
    proof fn lemma_total_order(&self)
        ensures
            forall|a: K| !#[trigger] self.lt(a, a),
            forall|a: K, b: K, d: K| #[trigger] self.lt(a, b) && #[trigger] self.lt(b, d) ==> self.lt(a, d),
            forall|a: K, b: K| #![trigger self.lt(a, b)] a != b ==> self.lt(a, b) || self.lt(b, a),
    ;

    /// Where `a` stands relative to `b`.
    fn compare(&self, a: &K, b: &K) -> (r: Ordering)
        ensures
            (r == Ordering::Less) == self.lt(*a, *b),
            (r == Ordering::Greater) == self.lt(*b, *a),
            (r == Ordering::Equal) == (*a == *b),
    ;
}

/// `i32` keys in ascending order.
pub struct IntOrder;

impl KeyOrder<i32> for IntOrder {
    open spec fn lt(&self, a: i32, b: i32) -> bool {
        a < b
    }

    proof fn lemma_total_order(&self) {
    }

    fn compare(&self, a: &i32, b: &i32) -> (r: Ordering) {
        int_comparator(a, b)
    }
}

/// `i32` keys in descending order.
pub struct ReverseIntOrder;

impl KeyOrder<i32> for ReverseIntOrder {
    open spec fn lt(&self, a: i32, b: i32) -> bool {
        b < a
    }

    proof fn lemma_total_order(&self) {
    }

    fn compare(&self, a: &i32, b: &i32) -> (r: Ordering) {
        int_comparator(b, a)
    }
}

} // verus!
