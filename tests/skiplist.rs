use skiplist::int_comparator;
use skiplist::random::Rng;
use skiplist::{IntOrder, ReverseIntOrder, SkipList};
use std::cmp::Ordering;

fn keys_in_order<V: Copy>(list: &SkipList<i32, V, IntOrder>) -> Vec<i32> {
    let mut keys = Vec::new();
    for i in 0..list.len() {
        keys.push(list.key_at(i).unwrap());
    }
    keys
}

/// A deterministic shuffle of 0..n, spread out so keys arrive out of order.
fn scattered(n: i32) -> Vec<i32> {
    let mut keys: Vec<i32> = (0..n).map(|i| (i * 7919) % n * 3 + 1).collect();
    let mut rng = Rng::new(7);
    for i in (1..keys.len()).rev() {
        let j = rng.below(i as u32 + 1) as usize;
        keys.swap(i, j);
    }
    keys
}

#[test]
fn example_inserts_updates_and_removals() {
    let mut sl: SkipList<i32, &str, IntOrder> = SkipList::new(4, 1, 2, IntOrder, 42);
    let pairs = [
        (3, "a"),
        (6, "b"),
        (7, "c"),
        (12, "d"),
        (19, "e"),
        (17, "f"),
        (26, "g"),
        (21, "h"),
        (25, "i"),
    ];
    for (k, v) in pairs {
        assert_eq!(sl.insert(k, v), None);
    }
    assert_eq!(sl.insert(21, "k"), Some("h"));
    assert_eq!(sl.len(), 9);
    assert_eq!(sl.key_at(0), Some(3));
    assert_eq!(sl.key_at(8), Some(26));
    assert_eq!(sl.search(&21), Some("k"));

    assert_eq!(sl.remove(&6), Some("b"));
    assert_eq!(sl.remove(&9), None);
    assert_eq!(sl.remove(&19), Some("e"));
    assert_eq!(sl.remove(&26), Some("g"));
    assert_eq!(sl.remove(&25), Some("i"));
    assert_eq!(sl.len(), 5);
    assert_eq!(keys_in_order(&sl), vec![3, 7, 12, 17, 21]);
    assert_eq!(sl.data_at(4), Some("k"));
}

#[test]
fn distinct_inserts_are_all_found() {
    let mut sl: SkipList<i32, i64, IntOrder> = SkipList::new(8, 1, 2, IntOrder, 1);
    let keys = scattered(500);
    for &k in &keys {
        assert_eq!(sl.insert(k, k as i64 * 10), None);
    }
    assert_eq!(sl.len(), keys.len());
    for &k in &keys {
        assert_eq!(sl.search(&k), Some(k as i64 * 10));
    }
    assert_eq!(sl.search(&0), None);
    assert_eq!(sl.search(&2), None);
}

#[test]
fn keys_by_rank_strictly_increase() {
    let mut sl: SkipList<i32, u8, IntOrder> = SkipList::new(6, 1, 4, IntOrder, 9);
    let keys = scattered(300);
    for &k in &keys {
        sl.insert(k, 0);
    }
    let got = keys_in_order(&sl);
    let mut expected = keys.clone();
    expected.sort();
    assert_eq!(got, expected);
    for w in got.windows(2) {
        assert!(w[0] < w[1]);
    }
}

#[test]
fn insert_on_present_key_returns_previous_value() {
    let mut sl: SkipList<i32, u32, IntOrder> = SkipList::new(5, 1, 2, IntOrder, 3);
    assert_eq!(sl.insert(10, 1), None);
    assert_eq!(sl.insert(20, 2), None);
    assert_eq!(sl.len(), 2);
    assert_eq!(sl.insert(10, 5), Some(1));
    assert_eq!(sl.len(), 2);
    assert_eq!(sl.search(&10), Some(5));
    assert_eq!(sl.insert(10, 6), Some(5));
    assert_eq!(sl.len(), 2);
}

#[test]
fn remove_twice_finds_nothing_the_second_time() {
    let mut sl: SkipList<i32, char, IntOrder> = SkipList::new(5, 1, 2, IntOrder, 4);
    for (i, c) in ['p', 'q', 'r', 's'].iter().enumerate() {
        sl.insert(i as i32 * 2, *c);
    }
    assert_eq!(sl.remove(&4), Some('r'));
    assert_eq!(sl.len(), 3);
    assert_eq!(sl.remove(&4), None);
    assert_eq!(sl.len(), 3);
    assert_eq!(sl.search(&4), None);
    assert_eq!(keys_in_order(&sl), vec![0, 2, 6]);
}

#[test]
fn rank_access_matches_sorted_entries() {
    let mut sl: SkipList<i32, i32, IntOrder> = SkipList::new(7, 1, 2, IntOrder, 11);
    let keys = scattered(400);
    for &k in &keys {
        sl.insert(k, -k);
    }
    for &k in keys.iter().step_by(3) {
        assert_eq!(sl.remove(&k), Some(-k));
    }
    let mut remaining: Vec<i32> = keys
        .iter()
        .enumerate()
        .filter(|(i, _)| i % 3 != 0)
        .map(|(_, k)| *k)
        .collect();
    remaining.sort();
    assert_eq!(sl.len(), remaining.len());
    for (i, k) in remaining.iter().enumerate() {
        assert_eq!(sl.key_at(i), Some(*k));
        assert_eq!(sl.data_at(i), Some(-*k));
    }
    assert_eq!(sl.key_at(remaining.len()), None);
    assert_eq!(sl.data_at(remaining.len()), None);
    assert_eq!(sl.key_at(usize::MAX), None);
}

#[test]
fn round_trip_leaves_nothing() {
    let mut sl: SkipList<i32, i32, IntOrder> = SkipList::new(6, 1, 2, IntOrder, 5);
    let keys = scattered(200);
    for &k in &keys {
        sl.insert(k, k);
    }
    let mut order = keys.clone();
    order.reverse();
    for &k in &order {
        assert_eq!(sl.remove(&k), Some(k));
    }
    assert_eq!(sl.len(), 0);
    for &k in &keys {
        assert_eq!(sl.search(&k), None);
    }
    assert_eq!(sl.key_at(0), None);
    // The list works as before once emptied.
    assert_eq!(sl.insert(5, 50), None);
    assert_eq!(sl.key_at(0), Some(5));
}

#[test]
fn empty_list_finds_nothing() {
    let mut sl: SkipList<i32, i32, IntOrder> = SkipList::new(1, 1, 2, IntOrder, 0);
    assert_eq!(sl.len(), 0);
    assert_eq!(sl.search(&1), None);
    assert_eq!(sl.remove(&1), None);
    assert_eq!(sl.key_at(0), None);
    assert_eq!(sl.data_at(0), None);
}

#[test]
fn single_level_list_keeps_order() {
    let mut sl: SkipList<i32, i32, IntOrder> = SkipList::new(1, 1, 2, IntOrder, 8);
    for &k in &[5, -3, 9, 0, i32::MIN, i32::MAX] {
        sl.insert(k, k);
    }
    assert_eq!(keys_in_order(&sl), vec![i32::MIN, -3, 0, 5, 9, i32::MAX]);
    assert_eq!(sl.remove(&0), Some(0));
    assert_eq!(keys_in_order(&sl), vec![i32::MIN, -3, 5, 9, i32::MAX]);
}

#[test]
fn certain_promotion_reaches_the_top_level() {
    let mut sl: SkipList<i32, i32, IntOrder> = SkipList::new(5, 3, 3, IntOrder, 2);
    for k in 0..50 {
        sl.insert(k, k);
    }
    for k in (0..50).step_by(2) {
        assert_eq!(sl.remove(&k), Some(k));
    }
    let expected: Vec<i32> = (0..50).filter(|k| k % 2 == 1).collect();
    assert_eq!(keys_in_order(&sl), expected);
}

#[test]
fn freed_slots_are_reused() {
    let mut sl: SkipList<i32, i32, IntOrder> = SkipList::new(4, 1, 2, IntOrder, 6);
    for round in 0..20 {
        for k in 0..30 {
            sl.insert(k, k + round);
        }
        for k in 0..30 {
            if k % 5 != 0 {
                assert_eq!(sl.remove(&k), Some(k + round));
            }
        }
    }
    assert_eq!(keys_in_order(&sl), vec![0, 5, 10, 15, 20, 25]);
    assert_eq!(sl.search(&25), Some(44));
}

#[test]
fn clear_hands_back_entries_in_key_order() {
    let mut sl: SkipList<i32, i32, IntOrder> = SkipList::new(4, 1, 2, IntOrder, 10);
    for &k in &[8, 2, 6, 4] {
        sl.insert(k, k * k);
    }
    let out = sl.clear();
    assert_eq!(out, vec![(2, 4), (4, 16), (6, 36), (8, 64)]);
    assert_eq!(sl.len(), 0);
    assert_eq!(sl.search(&2), None);
    assert_eq!(sl.insert(3, 9), None);
    assert_eq!(sl.len(), 1);
    assert_eq!(sl.clear(), vec![(3, 9)]);
}

#[test]
fn same_seed_gives_same_results() {
    let mut a: SkipList<i32, i32, IntOrder> = SkipList::new(6, 1, 2, IntOrder, 77);
    let mut b: SkipList<i32, i32, IntOrder> = SkipList::new(6, 1, 2, IntOrder, 77);
    for &k in &scattered(100) {
        assert_eq!(a.insert(k, k), b.insert(k, k));
    }
    assert_eq!(a.clear(), b.clear());
}

#[test]
fn comparator_orders_integers() {
    assert_eq!(int_comparator(&1, &2), Ordering::Less);
    assert_eq!(int_comparator(&2, &2), Ordering::Equal);
    assert_eq!(int_comparator(&3, &-2), Ordering::Greater);
    assert_eq!(int_comparator(&i32::MIN, &i32::MAX), Ordering::Less);
}

#[test]
fn random_source_steps_its_state() {
    let mut rng = Rng::new(0);
    assert_eq!(rng.below(u32::MAX), 335903614);
    let mut rng = Rng::new(42);
    assert_eq!(rng.below(10), 9);
    assert_eq!(rng.below(10), 3);
    assert_eq!(rng.below(10), 7);
    assert_eq!(rng.below(1), 0);
}

#[test]
fn remove_of_absent_key_changes_nothing() {
    let mut sl: SkipList<i32, i32, IntOrder> = SkipList::new(5, 1, 2, IntOrder, 12);
    for &k in &scattered(60) {
        sl.insert(k, k + 1);
    }
    let before: Vec<(Option<i32>, Option<i32>)> = (0..sl.len()).map(|i| (sl.key_at(i), sl.data_at(i))).collect();
    assert_eq!(sl.remove(&2), None);
    assert_eq!(sl.remove(&-5), None);
    let after: Vec<(Option<i32>, Option<i32>)> = (0..sl.len()).map(|i| (sl.key_at(i), sl.data_at(i))).collect();
    assert_eq!(before, after);
    // Later draws are unaffected: a twin list without the misses agrees.
    let mut twin: SkipList<i32, i32, IntOrder> = SkipList::new(5, 1, 2, IntOrder, 12);
    for &k in &scattered(60) {
        twin.insert(k, k + 1);
    }
    for k in 1000..1050 {
        assert_eq!(sl.insert(k, k), twin.insert(k, k));
    }
    assert_eq!(sl.clear(), twin.clear());
}

#[test]
fn caller_supplied_order_is_followed() {
    let mut sl: SkipList<i32, char, ReverseIntOrder> = SkipList::new(5, 1, 2, ReverseIntOrder, 3);
    for (k, c) in [(2, 'b'), (9, 'i'), (-4, 'x'), (5, 'e')] {
        assert_eq!(sl.insert(k, c), None);
    }
    let keys: Vec<i32> = (0..sl.len()).map(|i| sl.key_at(i).unwrap()).collect();
    assert_eq!(keys, vec![9, 5, 2, -4]);
    assert_eq!(sl.search(&5), Some('e'));
    assert_eq!(sl.remove(&9), Some('i'));
    assert_eq!(sl.key_at(0), Some(5));
    assert_eq!(sl.data_at(2), Some('x'));
}
