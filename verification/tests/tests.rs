use tree_rb::Tree;

#[test]
fn tree_new() {
    let tree: Tree = Tree::new();
    assert!(tree.is_empty());
}

#[test]
fn tree_insert_root() {
    let mut tree = Tree::new();
    tree.insert(5);
    assert!(!tree.is_empty());
}

#[test]
fn tree_iter() {
    let mut tree = tree_rb::Tree::new();
    tree.insert(15);
    tree.insert(10);
    tree.insert(15);
    tree.insert(17);
    tree.insert(44);
    tree.insert(0);

    let z: Vec<u64> = tree
        .traverse_in_order()
        .into_iter()
        .map(|x| x * 2)
        .filter(|x| *x > 20)
        .take(3)
        .collect();
    assert_eq!(z, vec![30, 34, 88]);
}

#[test]
fn insert_five_keys_traverses_sorted() {
    let mut tree = Tree::new();
    let ks: [u64; 5] = [15, 10, 17, 44, 0];
    for &k in ks.iter() {
        assert!(tree.insert(k));
    }
    assert_eq!(tree.size(), 5);
    assert_eq!(tree.traverse_in_order(), vec![0, 10, 15, 17, 44]);
}

#[test]
fn duplicate_insert_is_rejected() {
    let mut tree = Tree::new();
    assert!(tree.insert(15));
    assert!(!tree.insert(15));
    assert_eq!(tree.size(), 1);
    assert_eq!(tree.traverse_in_order(), vec![15]);
}

#[test]
fn ascending_inserts_stay_consistent() {
    let mut tree = Tree::new();
    let ks: [u64; 7] = [1, 2, 3, 4, 5, 6, 7];
    for &k in ks.iter() {
        assert!(tree.insert(k));
        assert!(tree.contains(k));
    }
    assert_eq!(tree.size(), 7);
    assert_eq!(tree.traverse_in_order(), vec![1, 2, 3, 4, 5, 6, 7]);
}

#[test]
fn descending_inserts_stay_consistent() {
    let mut tree = Tree::new();
    let ks: [u64; 7] = [7, 6, 5, 4, 3, 2, 1];
    for &k in ks.iter() {
        assert!(tree.insert(k));
        assert!(tree.contains(k));
    }
    assert_eq!(tree.size(), 7);
    assert_eq!(tree.traverse_in_order(), vec![1, 2, 3, 4, 5, 6, 7]);
}

#[test]
fn remove_interior_and_root() {
    let mut tree = Tree::new();
    let ks: [u64; 7] = [5, 3, 8, 1, 4, 7, 9];
    for &k in ks.iter() {
        assert!(tree.insert(k));
    }
    assert!(tree.remove(3));
    assert!(tree.remove(5));
    assert_eq!(tree.size(), 5);
    assert_eq!(tree.traverse_in_order(), vec![1, 4, 7, 8, 9]);
    assert!(!tree.contains(3));
    assert!(!tree.contains(5));
    assert!(tree.contains(4));
}

#[test]
fn empty_tree_behaviour() {
    let mut tree = Tree::new();
    assert!(tree.is_empty());
    assert_eq!(tree.size(), 0);
    assert!(!tree.remove(42));
    assert!(!tree.contains(42));
    assert_eq!(tree.traverse_in_order(), Vec::<u64>::new());
}

#[test]
fn remove_absent_key_changes_nothing() {
    let mut tree = Tree::new();
    tree.insert(10);
    tree.insert(20);
    assert!(!tree.remove(15));
    assert_eq!(tree.size(), 2);
    assert_eq!(tree.traverse_in_order(), vec![10, 20]);
}

#[test]
fn removing_all_keys_empties_the_tree() {
    let mut tree = Tree::new();
    let ins: [u64; 7] = [5, 3, 8, 1, 4, 7, 9];
    for &k in ins.iter() {
        assert!(tree.insert(k));
    }
    let del: [u64; 7] = [8, 1, 5, 9, 3, 7, 4];
    for &k in del.iter() {
        assert!(tree.remove(k));
    }
    assert!(tree.is_empty());
    assert_eq!(tree.size(), 0);
    assert_eq!(tree.traverse_in_order(), Vec::<u64>::new());
}

#[test]
fn contains_tracks_inserts_and_removes() {
    let mut tree = Tree::new();
    assert!(!tree.contains(7));
    tree.insert(7);
    assert!(tree.contains(7));
    tree.insert(3);
    assert!(tree.contains(7) && tree.contains(3));
    tree.remove(7);
    assert!(!tree.contains(7));
    assert!(tree.contains(3));
}

#[test]
fn traversal_is_restartable() {
    let mut tree = Tree::new();
    let ks: [u64; 4] = [2, 9, 4, 6];
    for &k in ks.iter() {
        tree.insert(k);
    }
    let first = tree.traverse_in_order();
    let second = tree.traverse_in_order();
    assert_eq!(first, vec![2, 4, 6, 9]);
    assert_eq!(first, second);
    assert_eq!(tree.size(), 4);
}

#[test]
fn permutation_round_trip_sorts() {
    let mut tree = Tree::new();
    let ks: [u64; 12] = [31, 2, 77, 19, 64, 5, 90, 11, 43, 58, 26, 70];
    for &k in ks.iter() {
        assert!(tree.insert(k));
    }
    assert_eq!(tree.size(), 12);
    assert_eq!(
        tree.traverse_in_order(),
        vec![2, 5, 11, 19, 26, 31, 43, 58, 64, 70, 77, 90]
    );
    for &k in ks.iter() {
        assert!(tree.contains(k));
    }
}

#[test]
fn interleaved_inserts_and_removes() {
    let mut tree = Tree::new();
    let ks: [u64; 9] = [50, 25, 75, 12, 37, 62, 87, 6, 18];
    for &k in ks.iter() {
        assert!(tree.insert(k));
    }
    assert!(tree.remove(25));
    assert!(tree.insert(30));
    assert!(tree.remove(50));
    assert!(tree.remove(6));
    assert_eq!(tree.size(), 7);
    assert_eq!(tree.traverse_in_order(), vec![12, 18, 30, 37, 62, 75, 87]);
}
