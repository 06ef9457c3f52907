use treap::{Error, Treap};

fn sample() -> Treap<u64, u64, ()> {
    let mut treap: Treap<u64, u64, ()> = Treap::new();
    treap.insert(7, 10, ()).unwrap();
    treap.insert(4, 6, ()).unwrap();
    treap.insert(13, 8, ()).unwrap();
    treap.insert(2, 4, ()).unwrap();
    treap.insert(6, 2, ()).unwrap();
    treap.insert(9, 7, ()).unwrap();
    treap.insert(14, 4, ()).unwrap();
    treap.insert(0, 3, ()).unwrap();
    treap.insert(3, 3, ()).unwrap();
    treap.insert(5, 1, ()).unwrap();
    treap.insert(11, 3, ()).unwrap();
    treap
}

#[test]
fn new_is_empty() {
    let mut treap: Treap<u64, u64, u64> = Treap::new();
    assert_eq!(treap.len(), 0);
    assert_eq!(treap.depth().unwrap(), 0);
    assert!(treap.get(&1).unwrap().is_none());
    assert!(treap.pop().unwrap().is_none());
    assert!(treap.remove(&1).unwrap().is_none());
    assert!(treap.nth_priority(1).unwrap().is_none());
}

#[test]
fn len_counts_distinct_keys() {
    let mut treap = sample();
    assert_eq!(treap.len(), 11);
    treap.insert(5, 8, ()).unwrap();
    assert_eq!(treap.len(), 11);
    treap.remove(&5).unwrap();
    assert_eq!(treap.len(), 10);
    treap.remove(&5).unwrap();
    assert_eq!(treap.len(), 10);
    treap.insert(100, 1, ()).unwrap();
    assert_eq!(treap.len(), 11);
}

#[test]
fn insert_returns_previous_entry() {
    let mut treap: Treap<u64, u64, &str> = Treap::new();
    assert_eq!(treap.insert(5, 1, "a").unwrap(), None);
    assert_eq!(treap.insert(5, 8, "b").unwrap(), Some((1, "a")));
    assert_eq!(treap.len(), 1);
    assert_eq!(treap.get(&5).unwrap(), Some((&8, &"b")));
}

#[test]
fn remove_gives_back_what_was_inserted() {
    let mut treap = sample();
    assert!(treap.get(&8).unwrap().is_none());
    treap.insert(8, 5, ()).unwrap();
    assert_eq!(treap.len(), 12);
    assert_eq!(treap.remove(&8).unwrap(), Some((5, ())));
    assert_eq!(treap.len(), 11);
    for k in [0u64, 2, 3, 4, 5, 6, 7, 9, 11, 13, 14] {
        assert!(treap.get(&k).unwrap().is_some());
    }
    assert!(treap.get(&8).unwrap().is_none());
}

#[test]
fn remove_missing_key_changes_nothing() {
    let mut treap = sample();
    assert_eq!(treap.remove(&8).unwrap(), None);
    assert_eq!(treap.len(), 11);
    assert_eq!(treap.remove(&7).unwrap(), Some((10, ())));
    assert_eq!(treap.remove(&13).unwrap(), Some((8, ())));
    assert_eq!(treap.len(), 9);
    assert!(treap.get(&7).unwrap().is_none());
}

#[test]
fn get_finds_priority_and_value() {
    let mut treap: Treap<u64, u64, (u64, u64)> = Treap::new();
    for (k, p) in [(7u64, 10u64), (4, 6), (13, 8), (2, 4), (6, 2), (9, 7)] {
        treap.insert(k, p, (k, p)).unwrap();
    }
    assert_eq!(treap.insert(5, 8, (5, 8)).unwrap(), None);
    assert_eq!(treap.get(&5).unwrap(), Some((&8, &(5, 8))));
    assert_eq!(treap.get(&7).unwrap(), Some((&10, &(7, 10))));
    assert_eq!(treap.get(&8).unwrap(), None);
    assert_eq!(treap.get(&13).unwrap(), Some((&8, &(13, 8))));
}

#[test]
fn get_mut_changes_the_value_in_place() {
    let mut treap: Treap<u64, u64, u64> = Treap::new();
    treap.insert(1, 5, 100).unwrap();
    treap.insert(2, 9, 200).unwrap();
    treap.insert(3, 7, 300).unwrap();
    {
        let (p, v) = treap.get_mut(&3).unwrap().unwrap();
        assert_eq!(*p, 7);
        assert_eq!(*v, 300);
        *v = 301;
    }
    assert_eq!(treap.get(&3).unwrap(), Some((&7, &301)));
    assert_eq!(treap.get(&2).unwrap(), Some((&9, &200)));
    assert!(treap.get_mut(&4).unwrap().is_none());
    assert_eq!(treap.len(), 3);
}

#[test]
fn priority_finds_the_priority() {
    let treap = sample();
    assert_eq!(treap.priority(&5).unwrap(), Some(&1));
    assert_eq!(treap.priority(&7).unwrap(), Some(&10));
    assert_eq!(treap.priority(&8).unwrap(), None);
    assert_eq!(treap.priority(&13).unwrap(), Some(&8));
}

#[test]
fn prioritize_returns_the_old_priority() {
    let mut treap: Treap<u64, u64, &str> = Treap::new();
    treap.insert(1, 5, "one").unwrap();
    treap.insert(2, 9, "two").unwrap();
    treap.insert(3, 7, "three").unwrap();
    assert_eq!(treap.prioritize(&1, 20).unwrap(), Some(5));
    assert_eq!(treap.get(&1).unwrap(), Some((&20, &"one")));
    assert_eq!(treap.len(), 3);
    assert_eq!(treap.pop().unwrap(), Some((1, 20, "one")));
    assert_eq!(treap.prioritize(&8, 1).unwrap(), None);
    assert_eq!(treap.len(), 2);
    assert!(treap.get(&8).unwrap().is_none());
}

#[test]
fn pop_hands_out_priorities_highest_first() {
    let mut treap = sample();
    let mut seen = Vec::new();
    while let Some((k, p, ())) = treap.pop().unwrap() {
        seen.push((k, p));
    }
    assert_eq!(seen.len(), 11);
    assert_eq!(treap.len(), 0);
    assert!(treap.pop().unwrap().is_none());
    for w in seen.windows(2) {
        assert!(w[0].1 >= w[1].1);
    }
    assert_eq!(seen[0], (7, 10));
    assert_eq!(seen[1], (13, 8));
    assert_eq!(seen[2], (9, 7));
    assert_eq!(seen[3], (4, 6));
    assert_eq!(seen[10], (5, 1));
    let mut keys: Vec<u64> = seen.iter().map(|e| e.0).collect();
    keys.sort();
    assert_eq!(keys, vec![0, 2, 3, 4, 5, 6, 7, 9, 11, 13, 14]);
}

#[test]
fn pop_takes_the_right_root_among_equal_priorities() {
    let mut treap: Treap<u64, u64, ()> = Treap::new();
    treap.insert(1, 5, ()).unwrap();
    treap.insert(2, 5, ()).unwrap();
    assert_eq!(treap.pop().unwrap(), Some((2, 5, ())));
    assert_eq!(treap.pop().unwrap(), Some((1, 5, ())));
    let mut treap: Treap<u64, u64, ()> = Treap::new();
    treap.insert(2, 5, ()).unwrap();
    treap.insert(1, 5, ()).unwrap();
    assert_eq!(treap.pop().unwrap(), Some((2, 5, ())));
}

#[test]
fn root_is_the_highest_priority() {
    let mut treap = sample();
    assert_eq!(treap.pop().unwrap(), Some((7, 10, ())));
}

#[test]
fn depth_of_the_sample_tree() {
    // 7(10) has 4(6) to the left and 13(8) to the right; below 4 stand 2(4)
    // and 6(2), below 2 stand 0(3) and 3(3), below 6 stands 5(1); below 13
    // stand 9(7) and 14(4), and below 9 stands 11(3).
    let treap = sample();
    assert_eq!(treap.depth().unwrap(), 4);
}

#[test]
fn depth_of_a_chain() {
    let mut treap: Treap<u64, u64, ()> = Treap::new();
    for i in 0..10u64 {
        treap.insert(i, i, ()).unwrap();
    }
    assert_eq!(treap.depth().unwrap(), 10);
    let mut treap: Treap<u64, u64, ()> = Treap::new();
    treap.insert(2, 9, ()).unwrap();
    treap.insert(1, 1, ()).unwrap();
    treap.insert(3, 1, ()).unwrap();
    assert_eq!(treap.depth().unwrap(), 2);
}

#[test]
fn cut_drops_everything_below_the_threshold() {
    let mut treap = sample();
    treap.cut(&4).unwrap();
    assert_eq!(treap.len(), 6);
    for (k, p) in [(7u64, 10u64), (4, 6), (13, 8), (2, 4), (9, 7), (14, 4)] {
        assert_eq!(treap.get(&k).unwrap(), Some((&p, &())));
    }
    for k in [0u64, 3, 5, 6, 11] {
        assert!(treap.get(&k).unwrap().is_none());
    }
    treap.cut(&4).unwrap();
    assert_eq!(treap.len(), 6);
    treap.cut(&11).unwrap();
    assert_eq!(treap.len(), 0);
    assert_eq!(treap.depth().unwrap(), 0);
    treap.insert(1, 1, ()).unwrap();
    assert_eq!(treap.len(), 1);
}

#[test]
fn cut_below_every_priority_keeps_all() {
    let mut treap = sample();
    treap.cut(&1).unwrap();
    assert_eq!(treap.len(), 11);
    assert_eq!(treap.depth().unwrap(), 4);
}

#[test]
fn nth_priority_counts_distinct_priorities() {
    // The priorities are 10, 6, 8, 4, 2, 7, 4, 3, 3, 1, 3.
    let treap = sample();
    assert_eq!(treap.nth_priority(1).unwrap(), Some(&10));
    assert_eq!(treap.nth_priority(2).unwrap(), Some(&8));
    assert_eq!(treap.nth_priority(3).unwrap(), Some(&7));
    assert_eq!(treap.nth_priority(4).unwrap(), Some(&6));
    assert_eq!(treap.nth_priority(5).unwrap(), Some(&4));
    assert_eq!(treap.nth_priority(6).unwrap(), Some(&3));
    assert_eq!(treap.nth_priority(7).unwrap(), Some(&2));
    assert_eq!(treap.nth_priority(8).unwrap(), Some(&1));
    assert_eq!(treap.nth_priority(9).unwrap(), None);
    assert_eq!(treap.nth_priority(100).unwrap(), None);
}

#[test]
fn slots_are_reused_after_removal() {
    let mut treap: Treap<u64, u64, u64> = Treap::new();
    for round in 0..50u64 {
        for k in 0..20u64 {
            treap.insert(k, (k * 7 + round) % 13, round).unwrap();
        }
        assert_eq!(treap.len(), 20);
        for k in 0..10u64 {
            assert_eq!(treap.remove(&(2 * k)).unwrap().map(|e| e.1), Some(round));
        }
        assert_eq!(treap.len(), 10);
    }
}

#[test]
fn depth_stays_low_with_scattered_priorities() {
    let mut treap: Treap<u64, u64, ()> = Treap::new();
    let mut state: u64 = 0x2545_f491_4f6c_dd1d;
    for k in 0..1000u64 {
        state ^= state << 13;
        state ^= state >> 7;
        state ^= state << 17;
        treap.insert(k, state, ()).unwrap();
    }
    assert_eq!(treap.len(), 1000);
    let depth = treap.depth().unwrap();
    assert!(depth >= 10);
    assert!(depth <= 60);
}

#[test]
fn errors_can_be_shown() {
    let e = Error::Index(treap::IndexError::Empty(3));
    assert_eq!(format!("{:?}", e), "Index(Empty(3))");
}

#[test]
fn signed_and_tuple_free_keys_work() {
    let mut treap: Treap<i32, i8, char> = Treap::new();
    treap.insert(-5, 3, 'a').unwrap();
    treap.insert(5, -3, 'b').unwrap();
    treap.insert(0, 0, 'c').unwrap();
    assert_eq!(treap.get(&-5).unwrap(), Some((&3, &'a')));
    assert_eq!(treap.pop().unwrap(), Some((-5, 3, 'a')));
    assert_eq!(treap.pop().unwrap(), Some((0, 0, 'c')));
    assert_eq!(treap.pop().unwrap(), Some((5, -3, 'b')));
}

#[test]
fn prioritize_moves_an_entry_to_the_root() {
    let mut treap = sample();
    assert_eq!(treap.prioritize(&5, 50).unwrap(), Some(1));
    assert_eq!(treap.len(), 11);
    assert_eq!(treap.nth_priority(1).unwrap(), Some(&50));
    assert_eq!(treap.nth_priority(2).unwrap(), Some(&10));
    assert_eq!(treap.nth_priority(9).unwrap(), None);
    assert_eq!(treap.pop().unwrap(), Some((5, 50, ())));
    assert_eq!(treap.pop().unwrap(), Some((7, 10, ())));
}

#[test]
fn insert_of_an_existing_key_keeps_one_entry() {
    let mut treap = sample();
    assert_eq!(treap.insert(5, 8, ()).unwrap(), Some((1, ())));
    assert_eq!(treap.len(), 11);
    assert_eq!(treap.priority(&5).unwrap(), Some(&8));
    let mut count = 0;
    while let Some((k, _, ())) = treap.pop().unwrap() {
        if k == 5 {
            count += 1;
        }
    }
    assert_eq!(count, 1);
}

#[test]
fn keys_inserted_in_rising_order() {
    let keys: [u64; 11] = [0, 2, 3, 4, 5, 6, 7, 9, 11, 13, 14];
    let priorities: [u64; 11] = [3, 4, 3, 6, 1, 2, 10, 7, 3, 8, 4];
    let mut treap: Treap<u64, u64, ()> = Treap::new();
    for i in 0..11 {
        assert_eq!(treap.insert(keys[i], priorities[i], ()).unwrap(), None);
    }
    assert_eq!(treap.len(), 11);
    // 7 is the root; the longest ways down are 7, 4, 2, 0 and 7, 4, 6, 5 and
    // 7, 13, 9, 11.
    assert_eq!(treap.depth().unwrap(), 4);
    assert_eq!(treap.nth_priority(1).unwrap(), Some(&10));
    assert_eq!(treap.nth_priority(3).unwrap(), Some(&7));
    assert_eq!(treap.nth_priority(9).unwrap(), None);
    for i in 0..11 {
        assert_eq!(treap.priority(&keys[i]).unwrap(), Some(&priorities[i]));
    }
    assert_eq!(treap.pop().unwrap(), Some((7, 10, ())));
    // Now 13 is the root, and the longest way down is 13, 9, 4, 2, 0.
    assert_eq!(treap.depth().unwrap(), 5);
}
