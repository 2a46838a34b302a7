use avl_tree::avl_iter::IntoIter;
use avl_tree::avl_tree::AVLTree;

/// Drains the borrowing iterator into a vector of copied values.
fn collected(t: &AVLTree) -> Vec<i64> {
    let mut out = Vec::new();
    let mut it = t.iter();
    while let Some(v) = it.next() {
        out.push(*v);
    }
    out
}

/// Drains the consuming iterator into a vector of owned values.
fn consumed(t: AVLTree) -> Vec<i64> {
    let mut out = Vec::new();
    let mut it = IntoIter::new(t);
    while let Some(v) = it.next() {
        out.push(v);
    }
    out
}

#[test]
fn test_iter() {
    // Given
    let mut t = AVLTree::new();
    t.insert(4);
    t.insert(2);
    t.insert(6);
    t.insert(1);
    t.insert(3);
    t.insert(5);
    t.insert(7);

    // When
    let nums = collected(&t);

    // Then
    assert_eq!(vec![1, 2, 3, 4, 5, 6, 7], nums);
}

#[test]
fn test_into_iter() {
    // Given
    let mut t = AVLTree::new();
    t.insert(4);
    t.insert(2);
    t.insert(6);
    t.insert(1);
    t.insert(3);
    t.insert(5);
    t.insert(7);

    // When
    let nums = consumed(t);

    // Then
    assert_eq!(vec![1, 2, 3, 4, 5, 6, 7], nums);
}

#[test]
fn it_works() {
    let mut t = AVLTree::new();
    t.insert(4);
    t.insert(5);
    t.insert(6);
    t.insert(10);
    t.insert(1);
    t.insert(94);
    t.insert(54);
    t.insert(3);

    println!("{}", t.render());

    assert!(t.contains(10));
    assert!(!t.contains(100));
}

#[test]
fn balanced_seven_has_height_two() {
    let mut t = AVLTree::new();
    for v in [4, 2, 6, 1, 3, 5, 7] {
        t.insert(v);
    }
    assert_eq!(t.height(), 2);
    assert_eq!(collected(&t), vec![1, 2, 3, 4, 5, 6, 7]);
    assert_eq!(consumed(t), vec![1, 2, 3, 4, 5, 6, 7]);
}

#[test]
fn ascending_run_triggers_rotation() {
    let mut t = AVLTree::new();
    t.insert(1);
    t.insert(2);
    t.insert(3);
    assert_eq!(t.height(), 1);
    assert_eq!(collected(&t), vec![1, 2, 3]);
}

#[test]
fn descending_run_triggers_rotation() {
    let mut t = AVLTree::new();
    t.insert(3);
    t.insert(2);
    t.insert(1);
    assert_eq!(t.height(), 1);
    assert_eq!(collected(&t), vec![1, 2, 3]);
}

#[test]
fn empty_tree_queries() {
    let t = AVLTree::new();
    assert!(!t.contains(0));
    assert!(!t.contains(-7));
    assert!(!t.contains(i64::MAX));
    assert_eq!(t.height(), 0);
    assert_eq!(collected(&t), Vec::<i64>::new());
}

#[test]
fn duplicate_insert_changes_nothing() {
    let mut once = AVLTree::new();
    let mut twice = AVLTree::new();
    for v in [5, 1, 9, 3] {
        once.insert(v);
        twice.insert(v);
    }
    twice.insert(9);
    twice.insert(9);
    assert_eq!(once.height(), twice.height());
    assert_eq!(collected(&once), collected(&twice));
    for v in [5, 1, 9, 3, 0, 2] {
        assert_eq!(once.contains(v), twice.contains(v));
    }
    assert_eq!(consumed(once), consumed(twice));
}

#[test]
fn contains_tracks_insertions() {
    let mut t = AVLTree::new();
    let stored = [13, -2, 40, 7, 0];
    for v in stored {
        t.insert(v);
    }
    for v in stored {
        assert!(t.contains(v));
    }
    for v in [1, -1, 14, 39, 41, i64::MIN] {
        assert!(!t.contains(v));
    }
}

#[test]
fn consuming_iterator_is_complete() {
    let mut t = AVLTree::new();
    for v in [8, 3, 11, 3, 8, 20, -4] {
        t.insert(v);
    }
    let nums = consumed(t);
    assert_eq!(nums, vec![-4, 3, 8, 11, 20]);
    assert_eq!(nums.len(), 5);
}

#[test]
fn render_draws_the_tree() {
    let mut t = AVLTree::new();
    t.insert(2);
    t.insert(1);
    t.insert(3);
    assert_eq!(t.render(), "└── 2\n    ├── 1\n    └── 3\n");
    assert_eq!(AVLTree::new().render(), "(empty tree)");

    let mut neg = AVLTree::new();
    neg.insert(-10);
    assert_eq!(neg.render(), "└── -10\n");
}

#[test]
fn zig_zag_insertion_keeps_order() {
    // A bent insertion path: the single rotation promotes the left child and
    // leaves the right side two levels deep, which the height shows.
    let mut t = AVLTree::new();
    t.insert(3);
    t.insert(1);
    t.insert(2);
    assert_eq!(collected(&t), vec![1, 2, 3]);
    assert_eq!(t.height(), 2);
    assert!(t.contains(1) && t.contains(2) && t.contains(3));
}

#[test]
fn single_leaf_has_height_zero() {
    let mut t = AVLTree::new();
    t.insert(42);
    assert_eq!(t.height(), 0);
    assert!(t.contains(42));
}
