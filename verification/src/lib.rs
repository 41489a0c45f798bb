//! An AVL tree: a self-balancing binary search tree over signed integer
//! keys, with an auxiliary integer payload per node.
//!
//! Nodes live in an arena (`Vec<Node>`) and refer to each other by index;
//! each node carries a non-owning back-reference to its parent.  The tree
//! is verified to maintain, across every insertion and deletion: binary
//! search tree order, the AVL height-balance bound, correctness of every
//! cached subtree height, and mutual consistency of parent and child links.

pub mod avl_node;
pub mod shape;
pub mod avl_tree;
