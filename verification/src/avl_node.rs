//! A single tree vertex, stored in the tree's node arena.

use vstd::prelude::*;

verus! {

/// One vertex of the AVL tree.
///
/// Links to other vertices are arena indices.  `parent` is the non-owning
/// back-reference: `None` exactly when this node is the root.  `index` is an
/// auxiliary payload tag; `value` is the ordering key.  `height` caches the
/// height of the subtree rooted here (a leaf has height 1).
#[derive(Clone, Copy, Debug, PartialEq, Eq)]
pub struct Node {
    pub parent: Option<usize>,
    pub index: i64,
    pub value: i64,
    pub height: usize,
    pub left_child: Option<usize>,
    pub right_child: Option<usize>,
}

/// The cached height of an optional child slot: 0 when absent, else the
/// child's cached height.
pub open spec fn child_height(c: Option<usize>, nodes: Seq<Node>) -> nat {
    match c {
        None => 0,
        Some(j) => nodes[j as int].height as nat,
    }
}

impl Node {
    /// A fresh leaf node: height 1, no children, no parent.
    pub fn new(index: i64, value: i64) -> (n: Node)
        ensures
            n == (Node {
                parent: None,
                index,
                value,
                height: 1,
                left_child: None,
                right_child: None,
            }),
    {
        Node { parent: None, index, value, height: 1, left_child: None, right_child: None }
    }

    /// Shallow structural comparison: same payload, and children and parent
    /// present on the same sides.
    pub fn same_structure_to(&self, other: &Node) -> (r: bool)
        ensures
            r == (self.index == other.index && self.value == other.value
                && self.left_child.is_some() == other.left_child.is_some()
                && self.right_child.is_some() == other.right_child.is_some()
                && self.parent.is_some() == other.parent.is_some()),
    {
        let same_index_value = self.index == other.index && self.value == other.value;
        let same_children_structure = self.left_child.is_some() == other.left_child.is_some()
            && self.right_child.is_some() == other.right_child.is_some();
        let same_parent_structure = self.parent.is_some() == other.parent.is_some();
        same_index_value && same_children_structure && same_parent_structure
    }

    /// The cached height of the left child, 0 if there is none.
    pub fn get_left_child_height(&self, nodes: &Vec<Node>) -> (h: usize)
        requires
            self.left_child.is_some() ==> self.left_child.unwrap() < nodes.len(),
        ensures
            h == child_height(self.left_child, nodes@),
    {
        match self.left_child {
            Some(j) => nodes[j].height,
            None => 0,
        }
    }

    /// The cached height of the right child, 0 if there is none.
    pub fn get_right_child_height(&self, nodes: &Vec<Node>) -> (h: usize)
        requires
            self.right_child.is_some() ==> self.right_child.unwrap() < nodes.len(),
        ensures
            h == child_height(self.right_child, nodes@),
    {
        match self.right_child {
            Some(j) => nodes[j].height,
            None => 0,
        }
    }

    /// Balance factor: cached height of the right child minus cached height
    /// of the left child.  Computed in `i128`, where the difference of two
    /// `usize` heights always fits.
    pub fn get_balance_factor(&self, nodes: &Vec<Node>) -> (bf: i128)
        requires
            self.left_child.is_some() ==> self.left_child.unwrap() < nodes.len(),
            self.right_child.is_some() ==> self.right_child.unwrap() < nodes.len(),
        ensures
            bf == child_height(self.right_child, nodes@) - child_height(self.left_child, nodes@),
    {
        let lh = self.get_left_child_height(nodes);
        let rh = self.get_right_child_height(nodes);
        (rh as i128) - (lh as i128)
    }

    /// Recompute this node's cached height from the cached heights of its
    /// children, which the caller reads from the arena.
    pub fn set_height(&mut self, left_height: usize, right_height: usize)
        requires
            left_height < usize::MAX,
            right_height < usize::MAX,
        ensures
            *final(self) == (Node {
                height: ((if left_height > right_height { left_height } else { right_height })
                    + 1) as usize,
                ..*old(self)
            }),
    {
        let m = if left_height > right_height { left_height } else { right_height };
        self.height = m + 1;
    }

    /// The ordering key.
    pub fn get_value(&self) -> (v: i64)
        ensures
            v == self.value,
    {
        self.value
    }

    /// The left child's arena index, if any.
    pub fn get_left_child(&self) -> (c: Option<usize>)
        ensures
            c == self.left_child,
    {
        self.left_child
    }

    /// The right child's arena index, if any.
    pub fn get_right_child(&self) -> (c: Option<usize>)
        ensures
            c == self.right_child,
    {
        self.right_child
    }

    /// True when both child slots are filled.
    pub fn has_both_children(&self) -> (r: bool)
        ensures
            r == (self.left_child.is_some() && self.right_child.is_some()),
    {
        self.left_child.is_some() && self.right_child.is_some()
    }

    /// True when neither child slot is filled.
    pub fn has_no_child(&self) -> (r: bool)
        ensures
            r == (self.left_child.is_none() && self.right_child.is_none()),
    {
        self.left_child.is_none() && self.right_child.is_none()
    }

    /// True when exactly the left child slot is filled.
    pub fn has_only_left_child(&self) -> (r: bool)
        ensures
            r == (self.left_child.is_some() && self.right_child.is_none()),
    {
        self.left_child.is_some() && self.right_child.is_none()
    }

    /// True when exactly the right child slot is filled.
    pub fn has_only_right_child(&self) -> (r: bool)
        ensures
            r == (self.right_child.is_some() && self.left_child.is_none()),
    {
        self.right_child.is_some() && self.left_child.is_none()
    }
}

} // verus!
