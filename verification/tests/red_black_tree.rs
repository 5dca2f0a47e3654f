use derpy::{NodeNotFoundErr, RedBlackTree};

fn sorted_values(tree: &RedBlackTree) -> Vec<i64> {
    let mut v = tree.dfs_iter();
    v.sort();
    v
}

#[test]
fn new_tree_is_empty() {
    let t = RedBlackTree::new();
    assert_eq!(t.get_size(), 0);
    assert!(t.dfs_iter().is_empty());
    assert!(t.bfs_iter().is_empty());
}

#[test]
fn insert_grows_size() {
    let mut t = RedBlackTree::new();
    t.insert(5);
    t.insert(3);
    t.insert(8);
    assert_eq!(t.get_size(), 3);
}

#[test]
fn duplicate_insert_is_a_noop() {
    let mut t = RedBlackTree::new();
    t.insert(5);
    t.insert(5);
    t.insert(5);
    assert_eq!(t.get_size(), 1);
    assert_eq!(t.dfs_iter(), vec![5]);
}

#[test]
fn dfs_yields_preorder_on_small_tree() {
    let mut t = RedBlackTree::new();
    t.insert(5);
    t.insert(3);
    t.insert(8);
    assert_eq!(t.dfs_iter(), vec![5, 3, 8]);
}

#[test]
fn bfs_yields_levelorder_on_small_tree() {
    let mut t = RedBlackTree::new();
    t.insert(5);
    t.insert(3);
    t.insert(8);
    assert_eq!(t.bfs_iter(), vec![5, 3, 8]);
}

#[test]
fn round_trip_insert_then_remove() {
    let mut t = RedBlackTree::new();
    for v in [5, 3, 8, 1, 4, 7, 9] {
        t.insert(v);
    }
    assert!(t.remove(&3).is_ok());
    assert!(t.remove(&8).is_ok());
    assert_eq!(t.get_size(), 5);
    assert_eq!(sorted_values(&t), vec![1, 4, 5, 7, 9]);
}

#[test]
fn remove_absent_value_reports_node_not_found() {
    let mut t = RedBlackTree::new();
    t.insert(5);
    t.insert(3);
    t.insert(8);
    let before_dfs = t.dfs_iter();
    let before_bfs = t.bfs_iter();
    assert_eq!(t.remove(&7), Err(NodeNotFoundErr));
    assert_eq!(t.get_size(), 3);
    assert_eq!(t.dfs_iter(), before_dfs);
    assert_eq!(t.bfs_iter(), before_bfs);
}

#[test]
fn remove_on_empty_tree_reports_node_not_found() {
    let mut t = RedBlackTree::new();
    assert_eq!(t.remove(&1), Err(NodeNotFoundErr));
    assert_eq!(t.get_size(), 0);
}

#[test]
fn removing_everything_in_insertion_order_empties_the_tree() {
    let mut t = RedBlackTree::new();
    let vals = [5, 3, 8, 1, 4, 7, 9];
    for v in vals {
        t.insert(v);
    }
    for v in vals {
        assert!(t.remove(&v).is_ok());
    }
    assert_eq!(t.get_size(), 0);
    assert!(t.dfs_iter().is_empty());
    assert!(t.bfs_iter().is_empty());
}

#[test]
fn removing_everything_in_another_order_empties_the_tree() {
    let mut t = RedBlackTree::new();
    for v in [5, 3, 8, 1, 4, 7, 9] {
        t.insert(v);
    }
    for v in [9, 1, 5, 8, 4, 3, 7] {
        assert!(t.remove(&v).is_ok());
    }
    assert_eq!(t.get_size(), 0);
    assert!(t.dfs_iter().is_empty());
    assert!(t.bfs_iter().is_empty());
}

#[test]
fn second_removal_of_a_value_fails() {
    let mut t = RedBlackTree::new();
    t.insert(2);
    t.insert(1);
    t.insert(3);
    assert!(t.remove(&1).is_ok());
    assert_eq!(t.remove(&1), Err(NodeNotFoundErr));
    assert_eq!(t.get_size(), 2);
}

#[test]
fn in_order_reconstruction_is_sorted_and_duplicate_free() {
    let mut t = RedBlackTree::new();
    for v in [20, 4, 15, 4, 8, 30, -3, 15, 0, 11] {
        t.insert(v);
    }
    assert!(t.remove(&15).is_ok());
    assert!(t.remove(&20).is_ok());
    assert_eq!(sorted_values(&t), vec![-3, 0, 4, 8, 11, 30]);
    assert_eq!(t.get_size(), 6);
}

#[test]
fn ascending_inserts_stay_consistent() {
    let mut t = RedBlackTree::new();
    for v in 0..50 {
        t.insert(v);
    }
    assert_eq!(t.get_size(), 50);
    let expected: Vec<i64> = (0..50).collect();
    assert_eq!(sorted_values(&t), expected);
    assert_eq!(t.bfs_iter().len(), 50);
}

#[test]
fn descending_inserts_stay_consistent() {
    let mut t = RedBlackTree::new();
    for v in (0..50).rev() {
        t.insert(v);
    }
    assert_eq!(t.get_size(), 50);
    let expected: Vec<i64> = (0..50).collect();
    assert_eq!(sorted_values(&t), expected);
}

#[test]
fn traversals_agree_on_the_value_set() {
    let mut t = RedBlackTree::new();
    for v in [13, -2, 44, 7, 0, 99, 21] {
        t.insert(v);
    }
    let mut dfs = t.dfs_iter();
    let mut bfs = t.bfs_iter();
    dfs.sort();
    bfs.sort();
    assert_eq!(dfs, bfs);
    assert_eq!(dfs, vec![-2, 0, 7, 13, 21, 44, 99]);
}

#[test]
fn removal_of_a_two_child_node_keeps_order() {
    let mut t = RedBlackTree::new();
    for v in [10, 5, 15, 3, 7, 12, 18] {
        t.insert(v);
    }
    // 10 sits at an interior node with two children.
    assert!(t.remove(&10).is_ok());
    assert_eq!(sorted_values(&t), vec![3, 5, 7, 12, 15, 18]);
    assert_eq!(t.get_size(), 6);
}

#[test]
fn interleaved_inserts_and_removals_keep_order() {
    let mut t = RedBlackTree::new();
    for v in 0..30 {
        t.insert(v);
    }
    for v in (0..30).step_by(2) {
        assert!(t.remove(&v).is_ok());
    }
    let odds: Vec<i64> = (0..30).filter(|v| v % 2 == 1).collect();
    assert_eq!(sorted_values(&t), odds);
    assert_eq!(t.get_size(), 15);
    for v in odds {
        assert!(t.remove(&v).is_ok());
    }
    assert_eq!(t.get_size(), 0);
    assert!(t.bfs_iter().is_empty());
}
