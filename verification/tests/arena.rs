use treap::{DirectVecIndex, IndexError, Node};

fn node(key: u32) -> Node<u32, u32, u32> {
    Node { key, priority: key * 10, value: key * 100, left: None, right: None }
}

#[test]
fn arena_starts_empty() {
    let arena: DirectVecIndex<u32, u32, u32> = DirectVecIndex::new();
    assert_eq!(arena.size(), 0);
    assert!(matches!(arena.get(&Some(0)), Err(IndexError::OutOfBounds(0))));
}

#[test]
fn arena_insert_appends_slots() {
    let mut arena = DirectVecIndex::new();
    assert_eq!(arena.insert(node(1)), Some(0));
    assert_eq!(arena.insert(node(2)), Some(1));
    assert_eq!(arena.insert(node(3)), Some(2));
    assert_eq!(arena.size(), 3);
    assert_eq!(arena.get(&Some(1)).unwrap().key, 2);
    assert_eq!(arena.get(&Some(1)).unwrap().value, 200);
}

#[test]
fn arena_reuses_the_slot_freed_last() {
    let mut arena = DirectVecIndex::new();
    for k in 0..4 {
        arena.insert(node(k));
    }
    assert_eq!(arena.remove(&Some(1)).unwrap().key, 1);
    assert_eq!(arena.remove(&Some(3)).unwrap().key, 3);
    assert_eq!(arena.size(), 2);
    assert_eq!(arena.insert(node(7)), Some(3));
    assert_eq!(arena.insert(node(8)), Some(1));
    assert_eq!(arena.insert(node(9)), Some(4));
    assert_eq!(arena.size(), 5);
    assert_eq!(arena.get(&Some(3)).unwrap().key, 7);
    assert_eq!(arena.get(&Some(1)).unwrap().key, 8);
}

#[test]
fn arena_reports_no_handle() {
    let mut arena = DirectVecIndex::new();
    arena.insert(node(1));
    assert!(matches!(arena.get(&None), Err(IndexError::NoHandle)));
    assert!(matches!(arena.get_mut(&None), Err(IndexError::NoHandle)));
    assert!(matches!(arena.remove(&None), Err(IndexError::NoHandle)));
    assert_eq!(arena.size(), 1);
}

#[test]
fn arena_reports_out_of_bounds() {
    let mut arena = DirectVecIndex::new();
    arena.insert(node(1));
    assert!(matches!(arena.get(&Some(1)), Err(IndexError::OutOfBounds(1))));
    assert!(matches!(arena.get_mut(&Some(5)), Err(IndexError::OutOfBounds(5))));
    assert!(matches!(arena.remove(&Some(9)), Err(IndexError::OutOfBounds(9))));
    assert_eq!(arena.size(), 1);
}

#[test]
fn arena_reports_empty_slot() {
    let mut arena = DirectVecIndex::new();
    arena.insert(node(1));
    arena.insert(node(2));
    arena.remove(&Some(0)).unwrap();
    assert!(matches!(arena.get(&Some(0)), Err(IndexError::Empty(0))));
    assert!(matches!(arena.get_mut(&Some(0)), Err(IndexError::Empty(0))));
    assert!(matches!(arena.remove(&Some(0)), Err(IndexError::Empty(0))));
    assert_eq!(arena.size(), 1);
    assert_eq!(arena.insert(node(3)), Some(0));
}

#[test]
fn arena_get_mut_changes_the_node() {
    let mut arena = DirectVecIndex::new();
    arena.insert(node(1));
    arena.insert(node(2));
    arena.get_mut(&Some(0)).unwrap().right = Some(1);
    arena.get_mut(&Some(1)).unwrap().value = 5;
    assert_eq!(arena.get(&Some(0)).unwrap().right, Some(1));
    assert_eq!(arena.get(&Some(0)).unwrap().left, None);
    assert_eq!(arena.get(&Some(1)).unwrap().value, 5);
    assert_eq!(arena.size(), 2);
}
