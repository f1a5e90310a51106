//! Concrete checks of the tree's stated properties: ascending
//! iteration, splicing deletions, idempotent insertion, the height
//! bound, and agreement with a reference ordered set over interleaved
//! operations.

use avl_tree::tree::Tree;
use std::collections::BTreeSet;
use itertools::equal;

#[test]
fn search_absent_value() {
    let mut tree = Tree::new();
    tree.insert(4);
    tree.insert(2);
    tree.insert(1);
    tree.insert(5);

    assert!(tree.contains(2));
    assert!(!tree.contains(3));
    if let Some(ref node) = tree.root {
        assert_eq!(3, node.height());
    } else {
        panic!("Tree not constructed")
    }
}

#[test]
fn delete_root_with_two_children() {
    let mut tree = Tree::new();
    for v in [5, 2, 8, 1, 3, 7, 9] {
        tree.insert(v);
    }
    assert!(tree.delete(5));
    assert!(!tree.contains(5));
    assert_eq!(tree.iter(), vec![1, 2, 3, 7, 8, 9]);
}

#[test]
fn iteration_is_ascending() {
    let mut tree = Tree::new();
    for v in [13, -4, 7, 0, 22, -19, 5] {
        tree.insert(v);
    }
    assert_eq!(tree.iter(), vec![-19, -4, 0, 5, 7, 13, 22]);
}

#[test]
fn iteration_on_empty_tree() {
    let tree: Tree = Tree::new();
    assert_eq!(tree.iter(), Vec::<i64>::new());
}

#[test]
fn insert_is_idempotent() {
    let mut tree = Tree::new();
    assert!(tree.insert(7));
    assert!(tree.insert(7));
    assert!(tree.contains(7));
    assert_eq!(tree.iter(), vec![7]);
    assert!(tree.delete(7));
    assert!(tree.is_empty());
}

#[test]
fn delete_then_absent() {
    let mut tree = Tree::new();
    for v in [6, 3, 9, 1, 4, 8, 11] {
        tree.insert(v);
    }
    for v in [3, 9, 6, 1, 11, 4, 8] {
        assert!(tree.delete(v));
        assert!(!tree.contains(v));
    }
    assert!(tree.is_empty());
}

#[test]
fn delete_absent_value_reports_false() {
    let mut tree = Tree::new();
    assert!(!tree.delete(0));
    tree.insert(1);
    tree.insert(2);
    assert!(!tree.delete(3));
    assert!(tree.contains(1));
    assert!(tree.contains(2));
}

#[test]
fn duplicate_insert_and_absent_delete_leave_structure_alone() {
    let mut tree = Tree::new();
    for v in [4, 2, 1, 5, 6, 9] {
        tree.insert(v);
    }
    let (root_value, root_height) = {
        let root = tree.root.as_ref().expect("Tree not constructed");
        (*root.value(), root.height())
    };
    let listing = tree.iter();

    // Inserting a value already present changes nothing structural.
    assert!(tree.insert(5));
    // Deleting an absent value changes nothing at all.
    assert!(!tree.delete(7));

    let root = tree.root.as_ref().expect("Tree not constructed");
    assert_eq!(*root.value(), root_value);
    assert_eq!(root.height(), root_height);
    assert_eq!(tree.iter(), listing);
}

#[test]
fn height_stays_logarithmic() {
    let mut tree = Tree::new();
    for v in 1..=1000 {
        tree.insert(v);
    }
    let h = tree.root.as_ref().expect("Tree not constructed").height();
    // An AVL tree of 1000 values is at most 1.44 * log2(1001) levels deep.
    assert!(h <= 14);
}

#[test]
fn descending_inserts_rebalance() {
    let mut tree = Tree::new();
    for v in (1..=10).rev() {
        tree.insert(v);
    }
    if let Some(ref node) = tree.root {
        assert_eq!(7, *node.value());
        assert_eq!(4, node.height());
    } else {
        panic!("Tree not constructed")
    }
    assert_eq!(tree.iter(), vec![1, 2, 3, 4, 5, 6, 7, 8, 9, 10]);
}

#[test]
fn node_iter_is_lazy_and_restartable() {
    let mut tree = Tree::new();
    for v in [4, 2, 6, 1, 3, 5, 7] {
        tree.insert(v);
    }

    // Partial consumption produces the smallest values first.
    let mut it = tree.node_iter();
    assert_eq!(*it.next().expect("first").value(), 1);
    assert_eq!(*it.next().expect("second").value(), 2);

    // A fresh traversal restarts from the beginning.
    let mut again = tree.node_iter();
    assert_eq!(*again.next().expect("restart").value(), 1);

    // Full consumption visits every value in ascending order.
    let mut full = tree.node_iter();
    let mut seen = Vec::new();
    while let Some(n) = full.next() {
        seen.push(*n.value());
    }
    assert_eq!(seen, vec![1, 2, 3, 4, 5, 6, 7]);
    assert!(full.next().is_none());
}

#[test]
fn matches_reference_set_over_interleaved_ops() {
    let mut tree = Tree::new();
    let mut reference = BTreeSet::new();
    let inserts = [10, -3, 10, 42, 0, 7, -3, 19, 6, -25, 7];
    let deletes = [10, -100, 0, 7, 55, -25];

    let mut step = 0;
    for (i, v) in inserts.iter().enumerate() {
        tree.insert(*v);
        reference.insert(*v);
        if i % 2 == 1 && step < deletes.len() {
            let d = deletes[step];
            step += 1;
            assert_eq!(tree.delete(d), reference.remove(&d));
        }
        let tv = tree.iter();
        assert!(equal(reference.iter(), tv.iter()));
    }
    while step < deletes.len() {
        let d = deletes[step];
        step += 1;
        assert_eq!(tree.delete(d), reference.remove(&d));
        let tv = tree.iter();
        assert!(equal(reference.iter(), tv.iter()));
    }
}

#[test]
fn deletion_in_insertion_order_matches_reference() {
    let xs: Vec<i64> = vec![0, -1, 1, 2];
    let mut canonical_set = xs.iter().cloned().collect::<BTreeSet<_>>();
    let mut tree_set = Tree::new();
    for x in xs.iter() {
        tree_set.insert(*x);
    }
    for x in xs {
        tree_set.delete(x);
        canonical_set.remove(&x);
        let tv = tree_set.iter();
        assert!(equal(canonical_set.iter(), tv.iter()));
        assert!(!tree_set.contains(x));
    }
    assert!(tree_set.is_empty());
}
