use avl_bst::avl_node::Node;
use avl_bst::avl_tree::{AvlTree, convert_node_to_vec, build_free_from_values};

fn setup_empty_tree() -> AvlTree {
    AvlTree::new()
}

fn setup_node1() -> Node {
    Node::new(10, 20)
}

fn setup_tree1() -> AvlTree {
    let mut tree = AvlTree::new();
    tree.insert(setup_node1());
    tree
}

fn setup_tree2() -> AvlTree {
    let mut tree = AvlTree::new();
    tree.insert(setup_node1());
    tree.insert(Node::new(10, 10));
    tree.insert(Node::new(10, 30));
    tree.insert(Node::new(10, 12));
    tree
}

fn setup_tree3() -> AvlTree {
    let mut tree = AvlTree::new();
    tree.insert(setup_node1());
    tree.insert(Node::new(10, 30));
    tree.insert(Node::new(10, 40));
    tree
}

fn setup_tree4() -> AvlTree {
    let mut tree = AvlTree::new();
    tree.insert(setup_node1());
    tree.insert(Node::new(10, 10));
    tree.insert(Node::new(10, 5));
    tree
}

fn setup_tree5() -> AvlTree {
    let mut tree = AvlTree::new();
    tree.insert(setup_node1());
    tree.insert(Node::new(10, 10));
    tree
}

fn setup_tree6() -> AvlTree {
    build_free_from_values(vec![30, 50, 70, 65, 68])
}

#[test]
fn test_tree3_left_rotate() {
    let tree = setup_tree3();
    let result = convert_node_to_vec(&tree, tree.root.unwrap());
    assert_eq!(result, vec![30, 20, 40]);
}

#[test]
fn test_tree4_right_rotate() {
    let tree = setup_tree4();
    let result = convert_node_to_vec(&tree, tree.root.unwrap());
    assert_eq!(result, vec![10, 5, 20]);
}

#[test]
fn test_tree1_as_list() {
    let tree = setup_tree1();
    let result = convert_node_to_vec(&tree, tree.root.unwrap());
    assert_eq!(result, vec![20]);
}

#[test]
fn test_tree2_as_list() {
    let tree = setup_tree2();
    let result = convert_node_to_vec(&tree, tree.root.unwrap());
    assert_eq!(result, vec![20, 10, 30, 12]);
}

#[test]
fn test_empty_tree_insert() {
    let mut tree = setup_empty_tree();
    tree.insert(setup_node1());
    assert_eq!(tree.root, Some(0));
    assert_eq!(tree.nodes[0], setup_node1());
}

#[test]
fn test_tree1_insert1() {
    let mut tree = setup_tree1();
    tree.insert(Node::new(10, 10));
    let root = tree.root.unwrap();
    let left = tree.nodes[root].get_left_child().unwrap();
    assert_eq!(tree.nodes[left].index, 10);
    assert_eq!(tree.nodes[left].value, 10);
    assert!(tree.nodes[left].has_no_child());
}

#[test]
fn test_tree1_insert1_parent() {
    let mut tree = setup_tree1();
    tree.insert(Node::new(10, 10));
    let root = tree.root.unwrap();
    let left = tree.nodes[root].get_left_child().unwrap();
    assert_eq!(tree.nodes[left].parent, tree.root);
}

#[test]
fn test_tree1_insert1_bf() {
    let mut tree = setup_tree1();
    tree.insert(Node::new(10, 10));
    let root = tree.root.unwrap();
    assert_eq!(tree.nodes[root].get_balance_factor(&tree.nodes), -1);
}

#[test]
fn test_tree1_insert1_height() {
    let mut tree = setup_tree1();
    tree.insert(Node::new(10, 10));
    let root = tree.root.unwrap();
    assert_eq!(tree.nodes[root].height, 2);
}

#[test]
fn test_tree1_insert2() {
    let mut tree = setup_tree1();
    tree.insert(Node::new(10, 10));
    tree.insert(Node::new(10, 5));
    let result = convert_node_to_vec(&tree, tree.root.unwrap());
    assert_eq!(result, vec![10, 5, 20]);
}

#[test]
fn test_tree1_insert2_bf() {
    let mut tree = setup_tree1();
    tree.insert(Node::new(10, 10));
    tree.insert(Node::new(10, 5));
    let root = tree.root.unwrap();
    assert_eq!(tree.nodes[root].get_balance_factor(&tree.nodes), 0);
}

#[test]
fn test_tree1_insert3() {
    let mut tree = setup_tree1();
    tree.insert(Node::new(10, 10));
    tree.insert(Node::new(10, 5));
    tree.insert(Node::new(10, 12));
    let result = convert_node_to_vec(&tree, tree.root.unwrap());
    assert_eq!(result, vec![10, 5, 20, 12]);
}

#[test]
fn test_empty_tree_search() {
    let tree = setup_empty_tree();
    assert_eq!(tree.search_tree_by_value(19), None);
}

#[test]
fn test_tree2_search() {
    let tree = setup_tree2();
    let found = tree.search_tree_by_value(30).unwrap();
    assert_eq!(tree.nodes[found].value, 30);
}

#[test]
fn test_tree2_max() {
    let tree = setup_tree2();
    let node = tree.get_maximum_child(tree.root.unwrap());
    assert_eq!(tree.nodes[node].value, 30);
}

#[test]
fn test_tree2_min() {
    let tree = setup_tree2();
    let node = tree.get_minimum_child(tree.root.unwrap());
    assert_eq!(tree.nodes[node].value, 10);
}

#[test]
fn test_tree5_delete() {
    let mut tree = setup_tree5();
    let node = tree.search_tree_by_value(10);
    tree.delete_node(node.unwrap());
    assert_eq!(tree.nodes[tree.root.unwrap()].value, 20);
    assert_eq!(tree.nodes[tree.root.unwrap()].parent, None);
}

#[test]
fn test_left_right_rotate() {
    let mut tree = build_free_from_values(vec![30, 40]);
    tree.insert(Node::new(0, 35));
    let root = tree.root.unwrap();
    assert_eq!(convert_node_to_vec(&tree, root), vec![35, 30, 40]);
    assert_eq!(tree.nodes[root].value, 35);
    assert_eq!(tree.nodes[root].parent, None);
    let left = tree.nodes[root].get_left_child().unwrap();
    let right = tree.nodes[root].get_right_child().unwrap();
    assert_eq!(tree.nodes[tree.nodes[left].parent.unwrap()].value, 35);
    assert_eq!(tree.nodes[tree.nodes[right].parent.unwrap()].value, 35);
    assert!(tree.nodes[right].has_no_child());
    assert!(tree.nodes[left].has_no_child());
    assert!(tree.nodes[tree.nodes[right].parent.unwrap()].has_both_children());
}

#[test]
fn test_right_left_rotate() {
    let mut tree = build_free_from_values(vec![30, 20]);
    tree.insert(Node::new(0, 25));
    let root = tree.root.unwrap();
    let node_20 = tree.nodes[root].get_left_child().unwrap();
    let node_30 = tree.nodes[root].get_right_child().unwrap();
    assert_eq!(convert_node_to_vec(&tree, root), vec![25, 20, 30]);
    assert_eq!(tree.nodes[tree.nodes[node_20].parent.unwrap()].value, 25);
    assert_eq!(tree.nodes[tree.nodes[node_30].parent.unwrap()].value, 25);
}

#[test]
fn test_left_rotate() {
    let tree = build_free_from_values(vec![30, 20, 10]);
    let root = tree.root.unwrap();
    let node_10 = tree.nodes[root].get_left_child().unwrap();
    let node_30 = tree.nodes[root].get_right_child().unwrap();
    assert_eq!(convert_node_to_vec(&tree, root), vec![20, 10, 30]);
    assert_eq!(tree.nodes[tree.nodes[node_10].parent.unwrap()].value, 20);
    assert_eq!(tree.nodes[tree.nodes[node_30].parent.unwrap()].value, 20);
}

#[test]
fn test_left_rotate2() {
    let tree = build_free_from_values(vec![15, 10, 20, 30, 40]);
    let root = tree.root.unwrap();
    let node_10 = tree.nodes[root].get_left_child().unwrap();
    let node_30 = tree.nodes[root].get_right_child().unwrap();
    assert_eq!(convert_node_to_vec(&tree, root), vec![15, 10, 30, 20, 40]);
    assert_eq!(tree.nodes[tree.nodes[node_10].parent.unwrap()].value, 15);
    assert_eq!(tree.nodes[tree.nodes[node_30].parent.unwrap()].value, 15);
}

#[test]
fn test_right_rotate() {
    let tree = build_free_from_values(vec![30, 40, 50]);
    let root = tree.root.unwrap();
    let node_30 = tree.nodes[root].get_left_child().unwrap();
    let node_50 = tree.nodes[root].get_right_child().unwrap();
    assert_eq!(convert_node_to_vec(&tree, root), vec![40, 30, 50]);
    assert_eq!(tree.nodes[tree.nodes[node_30].parent.unwrap()].value, 40);
    assert_eq!(tree.nodes[tree.nodes[node_50].parent.unwrap()].value, 40);
}

#[test]
fn test_tree6_root_correct() {
    let tree = setup_tree6();
    assert_eq!(tree.nodes[tree.root.unwrap()].value, 50);
}

#[test]
fn test_tree6_init_correct() {
    let tree = setup_tree6();
    let root = tree.root.unwrap();
    let node_30 = tree.nodes[root].get_left_child().unwrap();
    let node_68 = tree.nodes[root].get_right_child().unwrap();
    assert_eq!(convert_node_to_vec(&tree, root), vec![50, 30, 68, 65, 70]);
    assert_eq!(tree.nodes[tree.nodes[node_30].parent.unwrap()].value, 50);
    assert_eq!(tree.nodes[tree.nodes[node_68].parent.unwrap()].value, 50);
}

#[test]
fn test_tree6_insertion_correct() {
    let mut tree = setup_tree6();
    tree.insert(Node::new(0, 75));
    assert_eq!(
        convert_node_to_vec(&tree, tree.root.unwrap()),
        vec![68, 50, 70, 30, 65, 75]
    );
}

#[test]
fn test_tree6_insertion_correct2() {
    let mut tree = setup_tree6();
    tree.insert(Node::new(0, 64));
    assert_eq!(
        convert_node_to_vec(&tree, tree.root.unwrap()),
        vec![65, 50, 68, 30, 64, 70]
    );
}

#[test]
fn test_tree_min_child() {
    let tree = setup_tree6();
    let min_child = tree.get_minimum_child(tree.root.unwrap());
    assert_eq!(tree.nodes[min_child].value, 30);
}

#[test]
fn test_tree6_deletion_correct() {
    let mut tree = setup_tree6();
    let node_found = tree.search_tree_by_value(30);
    assert_eq!(tree.nodes[node_found.unwrap()].value, 30);
    tree.delete_node(node_found.unwrap());
    assert_eq!(
        convert_node_to_vec(&tree, tree.root.unwrap()),
        vec![68, 50, 70, 65]
    );
}

#[test]
fn test_tree6_deletion_correct2() {
    let mut tree = setup_tree6();
    let node_found = tree.search_tree_by_value(70);
    tree.delete_node(node_found.unwrap());
    assert_eq!(
        convert_node_to_vec(&tree, tree.root.unwrap()),
        vec![50, 30, 68, 65]
    );
}

#[test]
fn test_tree6_deletion_correct3() {
    let mut tree = setup_tree6();
    let node_found = tree.search_tree_by_value(50);
    assert_eq!(tree.nodes[node_found.unwrap()].value, 50);
    tree.delete_node(node_found.unwrap());
    assert_eq!(
        convert_node_to_vec(&tree, tree.root.unwrap()),
        vec![65, 30, 68, 70]
    );
}

#[test]
fn test_delete_root_with_no_child() {
    let mut tree = build_free_from_values(vec![10]);
    let node_found = tree.search_tree_by_value(10);
    assert_eq!(tree.nodes[node_found.unwrap()].value, 10);
    tree.delete_node(node_found.unwrap());
    assert_eq!(tree.root, None);
}

#[test]
fn test_delete_root_with_both_child() {
    let mut tree = build_free_from_values(vec![10, 5, 15]);
    let node_found = tree.search_tree_by_value(10);
    assert_eq!(tree.nodes[node_found.unwrap()].value, 10);
    tree.delete_node(node_found.unwrap());
    assert_eq!(convert_node_to_vec(&tree, tree.root.unwrap()), vec![15, 5]);
}

#[test]
fn test_delete_root_with_one_child() {
    let mut tree = build_free_from_values(vec![10, 5]);
    let node_found = tree.search_tree_by_value(10);
    assert_eq!(tree.nodes[node_found.unwrap()].value, 10);
    tree.delete_node(node_found.unwrap());
    assert_eq!(convert_node_to_vec(&tree, tree.root.unwrap()), vec![5]);
}

#[test]
fn test_delete_leaf() {
    let mut tree = build_free_from_values(vec![10, 5, 15]);
    let node_found = tree.search_tree_by_value(5);
    tree.delete_node(node_found.unwrap());
    assert_eq!(convert_node_to_vec(&tree, tree.root.unwrap()), vec![10, 15]);
}
