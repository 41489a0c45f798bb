use avl_bst::avl_node::Node;
use avl_bst::avl_tree::AvlTree;

fn setup_node1() -> Node {
    Node::new(10, 20)
}

// A node with value 15 holding a left child (5, 10) and a right child
// (10, 20), realised as a small tree in the arena.
fn setup_tree_node2() -> AvlTree {
    let mut tree = AvlTree::new();
    tree.insert(Node::new(1, 15));
    tree.insert(Node::new(5, 10));
    tree.insert(setup_node1());
    tree
}

// A node with value 15 holding only the right child (10, 20).
fn setup_tree_node3() -> AvlTree {
    let mut tree = AvlTree::new();
    tree.insert(Node::new(1, 15));
    tree.insert(setup_node1());
    tree
}

#[test]
fn test_node1_fields() {
    let node = setup_node1();
    assert_eq!(node.index, 10);
    assert_eq!(node.value, 20);
    assert!(node.parent.is_none());
    assert!(node.left_child.is_none());
    assert!(node.right_child.is_none());
    assert_eq!(node.height, 1);
}

#[test]
fn test_node1_equal_self() {
    assert_eq!(setup_node1(), setup_node1());
}

#[test]
fn test_node1_not_equal_node2() {
    let tree = setup_tree_node2();
    let root = tree.root.unwrap();
    assert_ne!(setup_node1(), tree.nodes[root]);
}

#[test]
fn test_node1_height() {
    let mut node = setup_node1();
    node.set_height(0, 0);
    assert_eq!(node.height, 1);
}

#[test]
fn test_node2_left_child() {
    let tree = setup_tree_node2();
    let root = tree.root.unwrap();
    let left = tree.nodes[root].get_left_child().unwrap();
    assert_eq!(tree.nodes[left].value, 10);
    assert_eq!(tree.nodes[left].index, 5);
}

#[test]
fn test_node2_height() {
    let tree = setup_tree_node2();
    let root = tree.root.unwrap();
    let lh = tree.nodes[root].get_left_child_height(&tree.nodes);
    let rh = tree.nodes[root].get_right_child_height(&tree.nodes);
    let mut node = tree.nodes[root];
    node.set_height(lh, rh);
    assert_eq!(node.height, 2);
}

#[test]
fn test_node2_balance_factor() {
    let tree = setup_tree_node2();
    let root = tree.root.unwrap();
    assert_eq!(tree.nodes[root].get_balance_factor(&tree.nodes), 0);
}

#[test]
fn test_node3_balance_factor() {
    let tree = setup_tree_node3();
    let root = tree.root.unwrap();
    assert_eq!(tree.nodes[root].get_balance_factor(&tree.nodes), 1);
}

#[test]
fn test_node4_left_child() {
    let tree = setup_tree_node2();
    let root = tree.root.unwrap();
    let left = tree.nodes[root].get_left_child().unwrap();
    assert!(tree.is_left_child(left));
}
