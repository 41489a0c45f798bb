use avl_bst::avl_node::Node;
use avl_bst::avl_tree::{
    AvlTree, convert_node_to_vec, build_free_from_values, build_free_from_index_and_values,
};

// Check the full invariant set on a concrete tree: every cached height is
// recomputable from the children's caches, every balance factor lies in
// [-1, 1], every child's parent back-reference names its true parent, and
// the root is exactly the node without a parent.
fn check_invariants(tree: &AvlTree) {
    for j in 0..tree.nodes.len() {
        let nd = tree.nodes[j];
        let lh = nd.get_left_child_height(&tree.nodes);
        let rh = nd.get_right_child_height(&tree.nodes);
        assert_eq!(nd.height, (if lh > rh { lh } else { rh }) + 1);
        let bf = nd.get_balance_factor(&tree.nodes);
        assert!(-1 <= bf && bf <= 1);
        if let Some(c) = nd.left_child {
            assert_eq!(tree.nodes[c].parent, Some(j));
            assert!(tree.nodes[c].value <= nd.value);
        }
        if let Some(c) = nd.right_child {
            assert_eq!(tree.nodes[c].parent, Some(j));
            assert!(tree.nodes[c].value >= nd.value);
        }
        match nd.parent {
            Some(p) => assert!(
                tree.nodes[p].left_child == Some(j) || tree.nodes[p].right_child == Some(j)
            ),
            None => assert_eq!(tree.root, Some(j)),
        }
    }
}

#[test]
fn test_invariants_after_insert_sequence() {
    let mut tree = AvlTree::new();
    for v in [30, 50, 70, 65, 68, 10, 40, 55, 5, 75, 68, 30] {
        tree.insert(Node::new(0, v));
        check_invariants(&tree);
    }
}

#[test]
fn test_invariants_after_delete_sequence() {
    let mut tree = build_free_from_values(vec![30, 50, 70, 65, 68, 10, 40, 55, 5, 75]);
    check_invariants(&tree);
    for v in [50, 10, 70, 30, 75, 68] {
        let found = tree.search_tree_by_value(v).unwrap();
        tree.delete_node(found);
        check_invariants(&tree);
    }
    assert_eq!(tree.nodes.len(), 4);
}

#[test]
fn test_search_miss_leaves_tree_unchanged() {
    let tree = build_free_from_values(vec![30, 50, 70, 65, 68]);
    let nodes_before = tree.nodes.clone();
    let root_before = tree.root;
    assert_eq!(tree.search_tree_by_value(42), None);
    assert_eq!(tree.nodes, nodes_before);
    assert_eq!(tree.root, root_before);
}

#[test]
fn test_duplicate_values_go_right() {
    let mut tree = AvlTree::new();
    tree.insert(Node::new(1, 10));
    tree.insert(Node::new(2, 10));
    let root = tree.root.unwrap();
    assert!(tree.nodes[root].left_child.is_none());
    let right = tree.nodes[root].right_child.unwrap();
    assert_eq!(tree.nodes[right].value, 10);
    assert_eq!(tree.nodes[right].index, 2);
}

#[test]
fn test_direct_left_then_right_rotate() {
    let mut tree = build_free_from_values(vec![2, 1, 3]);
    let root = tree.root.unwrap();
    tree.left_rotate(root);
    assert_eq!(tree.nodes[tree.root.unwrap()].value, 3);
    assert_eq!(
        convert_node_to_vec(&tree, tree.root.unwrap()),
        vec![3, 2, 1]
    );
    let new_root = tree.root.unwrap();
    tree.right_rotate(new_root);
    assert_eq!(tree.nodes[tree.root.unwrap()].value, 2);
    assert_eq!(
        convert_node_to_vec(&tree, tree.root.unwrap()),
        vec![2, 1, 3]
    );
}

#[test]
fn test_build_from_index_and_values() {
    let tree = build_free_from_index_and_values(vec![20, 10, 30], vec![7, 8, 9]);
    let root = tree.root.unwrap();
    assert_eq!(tree.nodes[root].value, 20);
    assert_eq!(tree.nodes[root].index, 7);
    let found = tree.search_tree_by_value(30).unwrap();
    assert_eq!(tree.nodes[found].index, 9);
}

#[test]
fn test_same_structure_to() {
    let a = Node::new(0, 5);
    let b = Node::new(0, 5);
    assert!(a.same_structure_to(&b));
    let mut tree = build_free_from_values(vec![5, 3]);
    let root = tree.root.unwrap();
    // The built root has a child; a fresh leaf does not.
    assert!(!tree.nodes[root].same_structure_to(&a));
    tree.delete_node(tree.nodes[root].get_left_child().unwrap());
    let root = tree.root.unwrap();
    assert!(tree.nodes[root].same_structure_to(&a));
}

#[test]
fn test_child_classification() {
    let tree = build_free_from_values(vec![20, 10, 30]);
    let root = tree.root.unwrap();
    assert!(tree.nodes[root].has_both_children());
    assert!(!tree.nodes[root].has_no_child());
    assert!(!tree.nodes[root].has_only_left_child());
    assert!(!tree.nodes[root].has_only_right_child());
    let left = tree.nodes[root].get_left_child().unwrap();
    let right = tree.nodes[root].get_right_child().unwrap();
    assert!(tree.nodes[left].has_no_child());
    assert!(tree.is_left_child(left));
    assert!(!tree.is_right_child(left));
    assert!(tree.is_right_child(right));
    assert!(!tree.is_left_child(right));
    // The root counts as a left child by convention.
    assert!(tree.is_left_child(root));
    let two = build_free_from_values(vec![20, 10]);
    assert!(two.nodes[two.root.unwrap()].has_only_left_child());
    let two_r = build_free_from_values(vec![20, 30]);
    assert!(two_r.nodes[two_r.root.unwrap()].has_only_right_child());
}

#[test]
fn test_get_value() {
    let node = Node::new(3, 44);
    assert_eq!(node.get_value(), 44);
}

#[test]
fn test_search_found_after_rebalance() {
    let tree = build_free_from_values(vec![30, 50, 70, 65, 68]);
    for v in [30, 50, 70, 65, 68] {
        let found = tree.search_tree_by_value(v).unwrap();
        assert_eq!(tree.nodes[found].value, v);
    }
    assert_eq!(tree.search_tree_by_value(69), None);
}

#[test]
fn test_min_max_of_subtree() {
    let tree = build_free_from_values(vec![50, 30, 70, 20, 40, 60, 80]);
    let root = tree.root.unwrap();
    let right = tree.nodes[root].get_right_child().unwrap();
    let min_right = tree.get_minimum_child(right);
    assert_eq!(tree.nodes[min_right].value, 60);
    let max_right = tree.get_maximum_child(right);
    assert_eq!(tree.nodes[max_right].value, 80);
    // A node with no child in the chosen direction is its own extremum.
    let leaf = tree.search_tree_by_value(20).unwrap();
    assert_eq!(tree.get_minimum_child(leaf), leaf);
    assert_eq!(tree.get_maximum_child(leaf), leaf);
}

#[test]
fn test_delete_node_with_right_child_only() {
    let mut tree = build_free_from_values(vec![20, 10, 30, 35]);
    let found = tree.search_tree_by_value(30).unwrap();
    tree.delete_node(found);
    assert_eq!(
        convert_node_to_vec(&tree, tree.root.unwrap()),
        vec![20, 10, 35]
    );
    check_invariants(&tree);
}

#[test]
fn test_delete_cascades_to_empty() {
    let mut tree = build_free_from_values(vec![4, 2, 6, 1, 3, 5, 7]);
    for v in [4, 2, 6, 1, 3, 5, 7] {
        let found = tree.search_tree_by_value(v).unwrap();
        tree.delete_node(found);
        check_invariants(&tree);
    }
    assert_eq!(tree.root, None);
    assert_eq!(tree.nodes.len(), 0);
}
