//! The ghost model of the tree: a structural shape whose vertices are the
//! arena indices of the nodes.  The spec predicates here tie a shape to the
//! arena contents, and the lemmas let the verified operations rebuild the
//! shape after local mutations.

use vstd::prelude::*;
use crate::avl_node::Node;

verus! {

/// The structural shape of a (sub)tree: which arena index sits at each
/// position.
pub ghost enum Shape {
    Nil,
    Vertex { idx: int, left: Box<Shape>, right: Box<Shape> },
}

/// The arena index at the root of a shape, if the shape is non-empty.
pub open spec fn root_of(s: Shape) -> Option<int> {
    match s {
        Shape::Nil => None,
        Shape::Vertex { idx, .. } => Some(idx),
    }
}

/// An `Option<usize>` link field, lifted to the ghost index domain.
pub open spec fn opt_i(c: Option<usize>) -> Option<int> {
    match c {
        None => None,
        Some(j) => Some(j as int),
    }
}

/// The set of arena indices occurring in a shape.
pub open spec fn idxs(s: Shape) -> Set<int>
    decreases s,
{
    match s {
        Shape::Nil => Set::empty(),
        Shape::Vertex { idx, left, right } => idxs(*left).union(idxs(*right)).insert(idx),
    }
}

/// The structural height of a shape: 0 for the empty shape, else one more
/// than the taller child.
pub open spec fn sheight(s: Shape) -> nat
    decreases s,
{
    match s {
        Shape::Nil => 0,
        Shape::Vertex { left, right, .. } => 1 + if sheight(*left) > sheight(*right) {
            sheight(*left)
        } else {
            sheight(*right)
        },
    }
}

/// The number of vertices in a shape.
pub open spec fn ssize(s: Shape) -> nat
    decreases s,
{
    match s {
        Shape::Nil => 0,
        Shape::Vertex { left, right, .. } => 1 + ssize(*left) + ssize(*right),
    }
}

/// Every vertex of the shape satisfies the AVL balance bound: the heights of
/// its two children differ by at most one.
pub open spec fn sbalanced(s: Shape) -> bool
    decreases s,
{
    match s {
        Shape::Nil => true,
        Shape::Vertex { left, right, .. } => {
            &&& -1 <= sheight(*right) - sheight(*left) <= 1
            &&& sbalanced(*left)
            &&& sbalanced(*right)
        },
    }
}

/// No arena index occurs twice in the shape.
pub open spec fn uniq(s: Shape) -> bool
    decreases s,
{
    match s {
        Shape::Nil => true,
        Shape::Vertex { idx, left, right } => {
            &&& !idxs(*left).contains(idx)
            &&& !idxs(*right).contains(idx)
            &&& idxs(*left).disjoint(idxs(*right))
            &&& uniq(*left)
            &&& uniq(*right)
        },
    }
}

/// The shape agrees with the arena links and the binary search tree order:
/// at every vertex, the stored child links are the roots of the shape's
/// children, the stored parent link is the shape parent, every key in the
/// left subtree is at most this vertex's key, and every key in the right
/// subtree is at least it.
pub open spec fn shape_wf(s: Shape, nodes: Seq<Node>, parent: Option<int>) -> bool
    decreases s,
{
    match s {
        Shape::Nil => true,
        Shape::Vertex { idx, left, right } => {
            &&& 0 <= idx < nodes.len()
            &&& opt_i(nodes[idx].parent) == parent
            &&& opt_i(nodes[idx].left_child) == root_of(*left)
            &&& opt_i(nodes[idx].right_child) == root_of(*right)
            &&& forall|j: int|
                #[trigger] idxs(*left).contains(j) ==> nodes[j].value <= nodes[idx].value
            &&& forall|j: int|
                #[trigger] idxs(*right).contains(j) ==> nodes[j].value >= nodes[idx].value
            &&& shape_wf(*left, nodes, Some(idx))
            &&& shape_wf(*right, nodes, Some(idx))
        },
    }
}

/// Every vertex's cached height equals the structural height of its subtree.
pub open spec fn heights_ok(s: Shape, nodes: Seq<Node>) -> bool
    decreases s,
{
    match s {
        Shape::Nil => true,
        Shape::Vertex { idx, left, right } => {
            &&& nodes[idx].height == sheight(s)
            &&& heights_ok(*left, nodes)
            &&& heights_ok(*right, nodes)
        },
    }
}

/// The shape predicates only read the arena slots named by the shape, so
/// they carry over to any arena that agrees on those slots.
pub proof fn lemma_frame(s: Shape, nodes1: Seq<Node>, nodes2: Seq<Node>, parent: Option<int>)
    requires
        forall|j: int| #[trigger] idxs(s).contains(j) ==> 0 <= j < nodes2.len() && nodes2[j] == nodes1[j],
    ensures
        shape_wf(s, nodes1, parent) ==> shape_wf(s, nodes2, parent),
        heights_ok(s, nodes1) ==> heights_ok(s, nodes2),
    decreases s,
{
    match s {
        Shape::Nil => {},
        Shape::Vertex { idx, left, right } => {
            assert(idxs(s).contains(idx));
            assert forall|j: int| #[trigger] idxs(*left).contains(j) implies idxs(s).contains(j) by {}
            assert forall|j: int| #[trigger] idxs(*right).contains(j) implies idxs(s).contains(j) by {}
            lemma_frame(*left, nodes1, nodes2, Some(idx));
            lemma_frame(*right, nodes1, nodes2, Some(idx));
        },
    }
}

/// The index set of a shape is finite and has exactly as many members as
/// the shape has vertices (given uniqueness); the structural height never
/// exceeds the vertex count.
pub proof fn lemma_size(s: Shape)
    requires
        uniq(s),
    ensures
        idxs(s).finite(),
        idxs(s).len() == ssize(s),
        sheight(s) <= ssize(s),
    decreases s,
{
    match s {
        Shape::Nil => {
            assert(idxs(s) =~= Set::<int>::empty());
        },
        Shape::Vertex { idx, left, right } => {
            lemma_size(*left);
            lemma_size(*right);
            vstd::set_lib::lemma_set_disjoint_lens(idxs(*left), idxs(*right));
            assert(!idxs(*left).union(idxs(*right)).contains(idx));
        },
    }
}

/// A well-formed shape's indices all lie within the arena.
pub proof fn lemma_in_range(s: Shape, nodes: Seq<Node>, parent: Option<int>)
    requires
        shape_wf(s, nodes, parent),
    ensures
        forall|j: int| #[trigger] idxs(s).contains(j) ==> 0 <= j < nodes.len(),
    decreases s,
{
    match s {
        Shape::Nil => {
            assert(idxs(s) =~= Set::<int>::empty());
        },
        Shape::Vertex { idx, left, right } => {
            lemma_in_range(*left, nodes, Some(idx));
            lemma_in_range(*right, nodes, Some(idx));
            assert(forall|j: int| #[trigger] idxs(s).contains(j) ==> idxs(*left).contains(j)
                || idxs(*right).contains(j) || j == idx);
        },
    }
}

/// The arena link (`Option<usize>`) that points at the root of a shape.
pub open spec fn root_link(s: Shape) -> Option<usize> {
    match root_of(s) {
        None => None,
        Some(j) => Some(j as usize),
    }
}

/// `nd` with whichever child link pointed at `from` redirected to `to`, the
/// left slot checked first (matching the executable child test); `nd`
/// unchanged when neither link points at `from`.
pub open spec fn relink(nd: Node, from: Option<int>, to: Option<usize>) -> Node {
    if opt_i(nd.left_child) == from {
        Node { left_child: to, ..nd }
    } else if opt_i(nd.right_child) == from {
        Node { right_child: to, ..nd }
    } else {
        nd
    }
}

/// The (payload tag, key) pair of every arena slot, in slot order.
pub open spec fn payloads(nodes: Seq<Node>) -> Seq<(int, int)> {
    nodes.map_values(|nd: Node| (nd.index as int, nd.value as int))
}

/// Arenas that agree on every payload field have equal payload sequences.
pub proof fn lemma_payloads_eq(nodes1: Seq<Node>, nodes2: Seq<Node>)
    requires
        nodes1.len() == nodes2.len(),
        forall|j: int|
            0 <= j < nodes1.len() ==> (#[trigger] nodes2[j].value) == nodes1[j].value
                && nodes2[j].index == nodes1[j].index,
    ensures
        payloads(nodes2) == payloads(nodes1),
{
    assert(payloads(nodes2) =~= payloads(nodes1));
}

/// Every payload field can be read back from the payload sequence.
pub proof fn lemma_payloads_index(nodes: Seq<Node>, j: int)
    requires
        0 <= j < nodes.len(),
    ensures
        payloads(nodes)[j] == (nodes[j].index as int, nodes[j].value as int),
{
}

/// Rewriting only the parent field of the root slot moves a well-formed
/// subtree under a new parent; heights are untouched.
pub proof fn lemma_reparent(
    s: Shape,
    nodes1: Seq<Node>,
    nodes2: Seq<Node>,
    p1: Option<int>,
    p2: Option<int>,
)
    requires
        shape_wf(s, nodes1, p1),
        uniq(s),
        s is Vertex,
        0 <= s->idx < nodes2.len(),
        nodes2[s->idx].left_child == nodes1[s->idx].left_child,
        nodes2[s->idx].right_child == nodes1[s->idx].right_child,
        nodes2[s->idx].value == nodes1[s->idx].value,
        nodes2[s->idx].index == nodes1[s->idx].index,
        nodes2[s->idx].height == nodes1[s->idx].height,
        opt_i(nodes2[s->idx].parent) == p2,
        forall|j: int| #[trigger] idxs(s).contains(j) && j != s->idx
            ==> 0 <= j < nodes2.len() && nodes2[j] == nodes1[j],
    ensures
        shape_wf(s, nodes2, p2),
        heights_ok(s, nodes1) ==> heights_ok(s, nodes2),
{
    let idx = s->idx;
    let left = *s->left;
    let right = *s->right;
    assert(idxs(s).contains(idx));
    assert(forall|j: int| #[trigger] idxs(left).contains(j) ==> idxs(s).contains(j) && j != idx);
    assert(forall|j: int| #[trigger] idxs(right).contains(j) ==> idxs(s).contains(j) && j != idx);
    lemma_frame(left, nodes1, nodes2, Some(idx));
    lemma_frame(right, nodes1, nodes2, Some(idx));
}

/// In a well-formed shape with distinct indices, the structural height is
/// at most the vertex count, which is at most the arena size.
pub proof fn lemma_height_le_len(s: Shape, nodes: Seq<Node>, parent: Option<int>)
    requires
        shape_wf(s, nodes, parent),
        uniq(s),
    ensures
        sheight(s) <= ssize(s),
        ssize(s) <= nodes.len(),
        idxs(s).finite(),
        idxs(s).len() == ssize(s),
{
    lemma_size(s);
    lemma_in_range(s, nodes, parent);
    let full = vstd::set_lib::set_int_range(0, nodes.len() as int);
    assert(idxs(s).subset_of(full));
    vstd::set_lib::lemma_int_range(0, nodes.len() as int);
    vstd::set_lib::lemma_len_subset(idxs(s), full);
}

/// The subtree of `s` whose root is the arena index `x` (`Nil` when `x`
/// does not occur in `s`; well-defined because indices are distinct).
pub open spec fn subtree_at(s: Shape, x: int) -> Shape
    decreases s,
{
    match s {
        Shape::Nil => Shape::Nil,
        Shape::Vertex { idx, left, right } => if idx == x {
            s
        } else if idxs(*left).contains(x) {
            subtree_at(*left, x)
        } else {
            subtree_at(*right, x)
        },
    }
}

/// The subtree rooted at a member index is a well-formed shape of its own,
/// rooted there, sitting under the parent that the member's slot records.
pub proof fn lemma_subtree_at(s: Shape, nodes: Seq<Node>, parent: Option<int>, x: int)
    requires
        shape_wf(s, nodes, parent),
        uniq(s),
        idxs(s).contains(x),
    ensures
        subtree_at(s, x) is Vertex,
        subtree_at(s, x)->idx == x,
        shape_wf(subtree_at(s, x), nodes, opt_i(nodes[x].parent)),
        uniq(subtree_at(s, x)),
        forall|j: int| #[trigger] idxs(subtree_at(s, x)).contains(j) ==> idxs(s).contains(j),
        heights_ok(s, nodes) ==> heights_ok(subtree_at(s, x), nodes),
        sbalanced(s) ==> sbalanced(subtree_at(s, x)),
    decreases s,
{
    match s {
        Shape::Nil => {},
        Shape::Vertex { idx, left, right } => {
            if idx == x {
                assert(opt_i(nodes[x].parent) == parent);
            } else if idxs(*left).contains(x) {
                lemma_subtree_at(*left, nodes, Some(idx), x);
            } else {
                assert(idxs(*right).contains(x));
                lemma_subtree_at(*right, nodes, Some(idx), x);
            }
        },
    }
}

/// Structural facts about every member of a well-formed shape: indices are
/// in range, child links point at members whose parent link points back,
/// and every member but the root has a parent in the shape whose child slot
/// points at it.
pub proof fn lemma_members(s: Shape, nodes: Seq<Node>, parent: Option<int>)
    requires
        shape_wf(s, nodes, parent),
        uniq(s),
    ensures
        forall|j: int| #[trigger] idxs(s).contains(j) ==> 0 <= j < nodes.len(),
        forall|j: int| #[trigger] idxs(s).contains(j) ==> match nodes[j].left_child {
            Some(c) => idxs(s).contains(c as int) && opt_i(nodes[c as int].parent) == Some(j),
            None => true,
        },
        forall|j: int| #[trigger] idxs(s).contains(j) ==> match nodes[j].right_child {
            Some(c) => idxs(s).contains(c as int) && opt_i(nodes[c as int].parent) == Some(j),
            None => true,
        },
        forall|j: int| #[trigger] idxs(s).contains(j) ==> if root_of(s) == Some(j) {
            opt_i(nodes[j].parent) == parent
        } else {
            match nodes[j].parent {
                Some(p) => idxs(s).contains(p as int) && (nodes[p as int].left_child == Some(
                    j as usize,
                ) || nodes[p as int].right_child == Some(j as usize)),
                None => false,
            }
        },
    decreases s,
{
    match s {
        Shape::Nil => {},
        Shape::Vertex { idx, left, right } => {
            lemma_members(*left, nodes, Some(idx));
            lemma_members(*right, nodes, Some(idx));
            lemma_in_range(s, nodes, parent);
            assert(idxs(s).contains(idx));
            if *left is Vertex {
                assert(idxs(*left).contains((*left)->idx));
            }
            if *right is Vertex {
                assert(idxs(*right).contains((*right)->idx));
            }
            assert(forall|j: int| #[trigger] idxs(*left).contains(j) ==> idxs(s).contains(j));
            assert(forall|j: int| #[trigger] idxs(*right).contains(j) ==> idxs(s).contains(j));
        },
    }
}

/// With correct height caches, every non-root member's cached height is
/// strictly below its parent's.
#[verifier::rlimit(60)]
pub proof fn lemma_parent_height(s: Shape, nodes: Seq<Node>, parent: Option<int>)
    requires
        shape_wf(s, nodes, parent),
        uniq(s),
        heights_ok(s, nodes),
    ensures
        forall|j: int| #[trigger] idxs(s).contains(j) && root_of(s) != Some(j)
            ==> match nodes[j].parent {
                Some(p) => idxs(s).contains(p as int) && nodes[p as int].height > nodes[j].height,
                None => false,
            },
        forall|j: int| #[trigger] idxs(s).contains(j) ==> nodes[j].height >= 1,
    decreases s,
{
    match s {
        Shape::Nil => {},
        Shape::Vertex { idx, left, right } => {
            lemma_parent_height(*left, nodes, Some(idx));
            lemma_parent_height(*right, nodes, Some(idx));
            lemma_members(s, nodes, parent);
            assert(nodes[idx].height == sheight(s));
            assert(heights_ok(*left, nodes) && heights_ok(*right, nodes));
            assert(shape_wf(*left, nodes, Some(idx)));
            assert(shape_wf(*right, nodes, Some(idx)));
            if *left is Vertex {
                assert(idxs(*left).contains((*left)->idx));
                assert(nodes[(*left)->idx].height == sheight(*left));
            }
            if *right is Vertex {
                assert(idxs(*right).contains((*right)->idx));
                assert(nodes[(*right)->idx].height == sheight(*right));
            }
            assert(forall|j: int| #[trigger] idxs(*left).contains(j) ==> idxs(s).contains(j));
            assert(forall|j: int| #[trigger] idxs(*right).contains(j) ==> idxs(s).contains(j));
            assert forall|j: int| #[trigger] idxs(s).contains(j) && root_of(s) != Some(j)
                implies match nodes[j].parent {
                    Some(p) => idxs(s).contains(p as int)
                        && nodes[p as int].height > nodes[j].height,
                    None => false,
                } by {
                if idxs(*left).contains(j) {
                    if root_of(*left) == Some(j) {
                        assert(opt_i(nodes[j].parent) == Some(idx));
                        assert(nodes[j].height == sheight(*left));
                        assert(sheight(s) > sheight(*left));
                    }
                } else if idxs(*right).contains(j) {
                    if root_of(*right) == Some(j) {
                        assert(opt_i(nodes[j].parent) == Some(idx));
                        assert(nodes[j].height == sheight(*right));
                        assert(sheight(s) > sheight(*right));
                    }
                } else {
                    assert(j == idx);
                }
            }
        },
    }
}

/// A shape is determined by the arena links and its root index: two
/// well-formed shapes over the same arena with the same root are equal.
pub proof fn lemma_shape_unique(
    s1: Shape,
    s2: Shape,
    nodes: Seq<Node>,
    p1: Option<int>,
    p2: Option<int>,
)
    requires
        shape_wf(s1, nodes, p1),
        shape_wf(s2, nodes, p2),
        root_of(s1) == root_of(s2),
    ensures
        s1 == s2,
    decreases s1,
{
    match s1 {
        Shape::Nil => {
            assert(s2 is Nil);
        },
        Shape::Vertex { idx, left, right } => {
            match s2 {
                Shape::Nil => {
                    assert(false);
                },
                Shape::Vertex { idx: idx2, left: left2, right: right2 } => {
                    lemma_shape_unique(*left, *left2, nodes, Some(idx), Some(idx2));
                    lemma_shape_unique(*right, *right2, nodes, Some(idx), Some(idx2));
                },
            }
        },
    }
}

/// `s` with every occurrence of the arena index `from` replaced by `to`.
pub open spec fn rename(s: Shape, from: int, to: int) -> Shape
    decreases s,
{
    match s {
        Shape::Nil => Shape::Nil,
        Shape::Vertex { idx, left, right } => Shape::Vertex {
            idx: if idx == from { to } else { idx },
            left: Box::new(rename(*left, from, to as int)),
            right: Box::new(rename(*right, from, to as int)),
        },
    }
}

/// A link field with `from` redirected to `to`.
pub open spec fn subst_opt(c: Option<usize>, from: int, to: usize) -> Option<usize> {
    match c {
        None => None,
        Some(k) => if k as int == from {
            Some(to)
        } else {
            Some(k)
        },
    }
}

/// A node with all three of its links redirected from `from` to `to`.
pub open spec fn subst_node(nd: Node, from: int, to: usize) -> Node {
    Node {
        parent: subst_opt(nd.parent, from, to),
        left_child: subst_opt(nd.left_child, from, to),
        right_child: subst_opt(nd.right_child, from, to),
        ..nd
    }
}

/// Moving the node at index `from` to the vacant index `to`, and redirecting
/// every link accordingly, renames the shape and keeps it well-formed.
pub proof fn lemma_rename(
    s: Shape,
    nodes1: Seq<Node>,
    nodes2: Seq<Node>,
    parent: Option<int>,
    from: int,
    to: usize,
)
    requires
        shape_wf(s, nodes1, parent),
        uniq(s),
        !idxs(s).contains(to as int),
        forall|j: int| #[trigger] idxs(s).contains(j) && j != from
            ==> 0 <= j < nodes2.len() && nodes2[j] == subst_node(nodes1[j], from, to),
        idxs(s).contains(from) ==> (to as int) < nodes2.len() && nodes2[to as int] == subst_node(
            nodes1[from],
            from,
            to,
        ),
    ensures
        shape_wf(
            rename(s, from, to as int),
            nodes2,
            if parent == Some(from) {
                Some(to as int)
            } else {
                parent
            },
        ),
        uniq(rename(s, from, to as int)),
        idxs(rename(s, from, to as int)) =~= if idxs(s).contains(from) {
            idxs(s).remove(from).insert(to as int)
        } else {
            idxs(s)
        },
        sheight(rename(s, from, to as int)) == sheight(s),
        heights_ok(s, nodes1) ==> heights_ok(rename(s, from, to as int), nodes2),
        sbalanced(s) ==> sbalanced(rename(s, from, to as int)),
        root_of(rename(s, from, to as int)) == (if root_of(s) == Some(from) {
            Some(to as int)
        } else {
            root_of(s)
        }),
    decreases s,
{
    match s {
        Shape::Nil => {
            assert(idxs(s) =~= Set::<int>::empty());
            assert(idxs(rename(s, from, to as int)) =~= Set::<int>::empty());
        },
        Shape::Vertex { idx, left, right } => {
            assert(idxs(s).contains(idx));
            assert(forall|j: int| #[trigger] idxs(*left).contains(j) ==> idxs(s).contains(j));
            assert(forall|j: int| #[trigger] idxs(*right).contains(j) ==> idxs(s).contains(j));
            lemma_rename(*left, nodes1, nodes2, Some(idx), from, to);
            lemma_rename(*right, nodes1, nodes2, Some(idx), from, to);
            let idx2: int = if idx == from { to as int } else { idx };
            let nd2 = nodes2[idx2];
            let nd1 = nodes1[idx];
            assert(nd2 == subst_node(nd1, from, to));
            // The renamed root's links are the renamed children's roots.
            assert(opt_i(subst_opt(nd1.left_child, from, to)) == root_of(rename(*left, from, to as int)));
            assert(opt_i(subst_opt(nd1.right_child, from, to)) == root_of(
                rename(*right, from, to as int),
            ));
            // Search order: values are untouched by the move.
            assert forall|j: int| #[trigger] idxs(rename(*left, from, to as int)).contains(j)
                implies nodes2[j].value <= nd2.value by {
                if j == to as int && idxs(*left).contains(from) {
                    assert(nodes2[j] == subst_node(nodes1[from], from, to));
                    assert(nodes1[from].value <= nd1.value);
                } else {
                    assert(idxs(*left).contains(j) && j != from);
                    assert(nodes2[j] == subst_node(nodes1[j], from, to));
                }
            }
            assert forall|j: int| #[trigger] idxs(rename(*right, from, to as int)).contains(j)
                implies nodes2[j].value >= nd2.value by {
                if j == to as int && idxs(*right).contains(from) {
                    assert(nodes2[j] == subst_node(nodes1[from], from, to));
                    assert(nodes1[from].value >= nd1.value);
                } else {
                    assert(idxs(*right).contains(j) && j != from);
                    assert(nodes2[j] == subst_node(nodes1[j], from, to));
                }
            }
            assert(shape_wf(rename(s, from, to as int), nodes2, if parent == Some(from) {
                Some(to as int)
            } else {
                parent
            }));
            assert(!idxs(rename(*left, from, to as int)).contains(idx2));
            assert(!idxs(rename(*right, from, to as int)).contains(idx2));
            assert(idxs(rename(*left, from, to as int)).disjoint(idxs(rename(*right, from, to as int))));
            assert(uniq(rename(s, from, to as int)));
            if heights_ok(s, nodes1) {
                assert(nd2.height == nd1.height);
                assert(heights_ok(rename(s, from, to as int), nodes2));
            }
        },
    }
}

/// A member whose stored parent link names the root is one of the root's
/// two shape children.
pub proof fn lemma_child_of(s: Shape, nodes: Seq<Node>, parent: Option<int>, j: int)
    requires
        shape_wf(s, nodes, parent),
        uniq(s),
        s is Vertex,
        idxs(s).contains(j),
        opt_i(nodes[j].parent) == Some(s->idx),
        match parent {
            Some(p) => !idxs(s).contains(p),
            None => true,
        },
    ensures
        root_of(*s->left) == Some(j) || root_of(*s->right) == Some(j),
{
    let idx = s->idx;
    assert(idxs(s).contains(idx));
    if j == idx {
        assert(opt_i(nodes[idx].parent) == parent);
        assert(false);
    }
    assert(idxs(*s->left).contains(j) || idxs(*s->right).contains(j));
    if idxs(*s->left).contains(j) {
        lemma_members(*s->left, nodes, Some(idx));
        if root_of(*s->left) != Some(j) {
            assert(match nodes[j].parent {
                Some(p) => idxs(*s->left).contains(p as int),
                None => false,
            });
            assert(idxs(*s->left).contains(idx));
            assert(false);
        }
    } else {
        lemma_members(*s->right, nodes, Some(idx));
        if root_of(*s->right) != Some(j) {
            assert(match nodes[j].parent {
                Some(p) => idxs(*s->right).contains(p as int),
                None => false,
            });
            assert(idxs(*s->right).contains(idx));
            assert(false);
        }
    }
}

/// Every later element of a parent chain that starts inside a child
/// subtree stays inside that child subtree.
pub proof fn lemma_chain_in(
    s: Shape,
    sub: Shape,
    nodes: Seq<Node>,
    parent: Option<int>,
    path: Seq<int>,
    k: int,
    m: int,
)
    requires
        shape_wf(s, nodes, parent),
        uniq(s),
        s is Vertex,
        sub == *s->left || sub == *s->right,
        0 <= k,
        k + 1 <= m < path.len(),
        root_of(s) == Some(path[k]),
        root_of(sub) == Some(path[k + 1]),
        forall|mm: int| k <= mm < path.len() - 1
            ==> opt_i(#[trigger] nodes[path[mm + 1]].parent) == Some(path[mm]),
        forall|mm: int| k <= mm < path.len() ==> idxs(s).contains(#[trigger] path[mm]),
        match parent {
            Some(p) => !idxs(s).contains(p),
            None => true,
        },
    ensures
        idxs(sub).contains(path[m]),
    decreases m - k,
{
    let idx = s->idx;
    if sub is Vertex {
        assert(idxs(sub).contains(sub->idx));
    }
    if m == k + 1 {
        assert(idxs(sub).contains(path[m]));
    } else {
        lemma_chain_in(s, sub, nodes, parent, path, k, m - 1);
        let e = path[m];
        let pe = path[m - 1];
        assert(opt_i(nodes[path[(m - 1) + 1]].parent) == Some(path[m - 1]));
        assert(opt_i(nodes[e].parent) == Some(pe));
        assert(idxs(s).contains(e));
        assert(idxs(sub).contains(pe));
        if e == idx {
            assert(opt_i(nodes[idx].parent) == parent);
            assert(idxs(s).contains(pe));
            assert(false);
        }
        assert(idxs(*s->left).contains(e) || idxs(*s->right).contains(e));
        let other = if sub == *s->left {
            *s->right
        } else {
            *s->left
        };
        if idxs(other).contains(e) {
            lemma_members(other, nodes, Some(idx));
            if root_of(other) == Some(e) {
                assert(opt_i(nodes[e].parent) == Some(idx));
                assert(pe == idx);
                assert(!idxs(sub).contains(idx));
                assert(false);
            } else {
                assert(idxs(other).contains(pe));
                assert(idxs(sub).disjoint(idxs(other)) || idxs(other).disjoint(idxs(sub)));
                assert(false);
            }
        }
        assert(idxs(sub).contains(e));
    }
}

/// Overwriting the key (and tag) of one member with the key of another
/// member of the same subtree preserves the search order, provided the new
/// key still bounds the member's own two subtrees correctly.
pub proof fn lemma_update_value(
    s: Shape,
    nodes1: Seq<Node>,
    nodes2: Seq<Node>,
    parent: Option<int>,
    i: int,
    w: int,
)
    requires
        shape_wf(s, nodes1, parent),
        uniq(s),
        idxs(s).contains(i),
        idxs(subtree_at(s, i)).contains(w),
        nodes2.len() == nodes1.len(),
        nodes2[i] == (Node { value: nodes1[w].value, index: nodes1[w].index, ..nodes1[i] }),
        forall|j: int| 0 <= j < nodes1.len() && j != i ==> #[trigger] nodes2[j] == nodes1[j],
        forall|j: int| #[trigger] idxs(*subtree_at(s, i)->left).contains(j)
            ==> nodes1[j].value <= nodes1[w].value,
        forall|j: int| #[trigger] idxs(*subtree_at(s, i)->right).contains(j)
            ==> nodes1[j].value >= nodes1[w].value,
    ensures
        shape_wf(s, nodes2, parent),
        heights_ok(s, nodes1) ==> heights_ok(s, nodes2),
    decreases s,
{
    lemma_in_range(s, nodes1, parent);
    match s {
        Shape::Nil => {},
        Shape::Vertex { idx, left, right } => {
            assert(idxs(s).contains(idx));
            assert(forall|j: int| #[trigger] idxs(*left).contains(j) ==> idxs(s).contains(j));
            assert(forall|j: int| #[trigger] idxs(*right).contains(j) ==> idxs(s).contains(j));
            if idx == i {
                let sub = subtree_at(s, i);
                assert(sub == s);
                lemma_frame(*left, nodes1, nodes2, Some(idx));
                lemma_frame(*right, nodes1, nodes2, Some(idx));
                assert(shape_wf(s, nodes2, parent));
            } else if idxs(*left).contains(i) {
                assert(subtree_at(s, i) == subtree_at(*left, i));
                lemma_subtree_at(*left, nodes1, Some(idx), i);
                assert(idxs(subtree_at(*left, i)).contains(w));
                assert(idxs(*left).contains(w));
                lemma_update_value(*left, nodes1, nodes2, Some(idx), i, w);
                lemma_frame(*right, nodes1, nodes2, Some(idx));
                assert(nodes2[i].value == nodes1[w].value);
                assert(nodes1[w].value <= nodes1[idx].value);
                assert(shape_wf(s, nodes2, parent));
            } else {
                assert(idxs(*right).contains(i));
                assert(subtree_at(s, i) == subtree_at(*right, i));
                lemma_subtree_at(*right, nodes1, Some(idx), i);
                assert(idxs(subtree_at(*right, i)).contains(w));
                assert(idxs(*right).contains(w));
                lemma_update_value(*right, nodes1, nodes2, Some(idx), i, w);
                lemma_frame(*left, nodes1, nodes2, Some(idx));
                assert(nodes2[i].value == nodes1[w].value);
                assert(nodes1[w].value >= nodes1[idx].value);
                assert(shape_wf(s, nodes2, parent));
            }
        },
    }
}

/// `s` with the subtree whose root index is `x` replaced by `t`.
pub open spec fn replace_at(s: Shape, x: int, t: Shape) -> Shape
    decreases s,
{
    match s {
        Shape::Nil => Shape::Nil,
        Shape::Vertex { idx, left, right } => if idx == x {
            t
        } else if idxs(*left).contains(x) {
            Shape::Vertex { idx, left: Box::new(replace_at(*left, x, t)), right }
        } else if idxs(*right).contains(x) {
            Shape::Vertex { idx, left, right: Box::new(replace_at(*right, x, t)) }
        } else {
            s
        },
    }
}

/// Replacing the subtree rooted at `x` by a new well-formed subtree over
/// the same indices, with the member's recorded parent relinked to the new
/// subtree's root, keeps the whole shape well-formed.
#[verifier::rlimit(60)]
pub proof fn lemma_replace_at(
    s: Shape,
    nodes1: Seq<Node>,
    nodes2: Seq<Node>,
    parent: Option<int>,
    x: int,
    t: Shape,
)
    requires
        shape_wf(s, nodes1, parent),
        uniq(s),
        idxs(s).contains(x),
        t is Vertex,
        shape_wf(t, nodes2, opt_i(nodes1[x].parent)),
        uniq(t),
        idxs(t) =~= idxs(subtree_at(s, x)),
        nodes2.len() == nodes1.len(),
        nodes1.len() <= usize::MAX,
        payloads(nodes2) == payloads(nodes1),
        forall|j: int| #[trigger] idxs(s).contains(j) && !idxs(subtree_at(s, x)).contains(j)
            && opt_i(nodes1[x].parent) != Some(j) ==> nodes2[j] == nodes1[j],
        match opt_i(nodes1[x].parent) {
            Some(p) => idxs(s).contains(p) ==> nodes2[p] == relink(
                nodes1[p],
                Some(x),
                root_link(t),
            ),
            None => true,
        },
    ensures
        shape_wf(replace_at(s, x, t), nodes2, parent),
        uniq(replace_at(s, x, t)),
        idxs(replace_at(s, x, t)) =~= idxs(s),
        root_of(replace_at(s, x, t)) == (if root_of(s) == Some(x) {
            root_of(t)
        } else {
            root_of(s)
        }),
    decreases s,
{
    lemma_in_range(s, nodes1, parent);
    lemma_subtree_at(s, nodes1, parent, x);
    match s {
        Shape::Nil => {},
        Shape::Vertex { idx, left, right } => {
            assert(idxs(s).contains(idx));
            assert(forall|j: int| #[trigger] idxs(*left).contains(j) ==> idxs(s).contains(j));
            assert(forall|j: int| #[trigger] idxs(*right).contains(j) ==> idxs(s).contains(j));
            assert forall|j: int| 0 <= j < nodes1.len() implies (#[trigger] nodes2[j].value)
                == nodes1[j].value && nodes2[j].index == nodes1[j].index by {
                lemma_payloads_index(nodes1, j);
                lemma_payloads_index(nodes2, j);
                assert(payloads(nodes2)[j] == payloads(nodes1)[j]);
            }
            if idx == x {
                assert(subtree_at(s, x) == s);
                assert(opt_i(nodes1[x].parent) == parent);
            } else if idxs(*left).contains(x) {
                assert(subtree_at(s, x) == subtree_at(*left, x));
                lemma_subtree_at(*left, nodes1, Some(idx), x);
                lemma_replace_at(*left, nodes1, nodes2, Some(idx), x, t);
                let nl = replace_at(*left, x, t);
                assert(idxs(nl) =~= idxs(*left));
                // The untouched right side and this vertex.
                assert(forall|j: int| #[trigger] idxs(*right).contains(j)
                    ==> !idxs(subtree_at(s, x)).contains(j));
                assert forall|j: int| #[trigger] idxs(*right).contains(j)
                    implies nodes2[j] == nodes1[j] by {
                    if opt_i(nodes1[x].parent) == Some(j) {
                        assert(idxs(subtree_at(*left, x)).contains(x));
                        lemma_members(*left, nodes1, Some(idx));
                        if root_of(*left) == Some(x) {
                            assert(opt_i(nodes1[x].parent) == Some(idx));
                            assert(!idxs(*right).contains(idx));
                            assert(false);
                        } else {
                            assert(match nodes1[x].parent {
                                Some(p) => idxs(*left).contains(p as int),
                                None => false,
                            });
                            assert(false);
                        }
                    }
                }
                lemma_frame(*right, nodes1, nodes2, Some(idx));
                // This vertex's own slot.
                if opt_i(nodes1[x].parent) == Some(idx) {
                    // x hangs directly under this vertex, on the left.
                    assert(root_of(*left) == Some(x)) by {
                        lemma_members(*left, nodes1, Some(idx));
                        if root_of(*left) != Some(x) {
                            assert(match nodes1[x].parent {
                                Some(p) => idxs(*left).contains(p as int),
                                None => false,
                            });
                            assert(!idxs(*left).contains(idx));
                        }
                    }
                    assert(subtree_at(*left, x) == *left);
                    assert(nodes2[idx] == relink(nodes1[idx], Some(x), root_link(t)));
                    assert(opt_i(nodes1[idx].left_child) == Some(x));
                    assert(nodes2[idx] == (Node { left_child: root_link(t), ..nodes1[idx] }));
                    assert(t is Vertex);
                    assert(idxs(t).contains(t->idx));
                    assert(0 <= t->idx < nodes2.len());
                    assert(opt_i(root_link(t)) == root_of(t));
                    assert(root_of(nl) == root_of(t));
                } else {
                    assert(!idxs(subtree_at(s, x)).contains(idx)) by {
                        assert(idxs(subtree_at(*left, x)).contains(x));
                        assert(forall|j: int|
                            #[trigger] idxs(subtree_at(*left, x)).contains(j)
                                ==> idxs(*left).contains(j));
                        assert(!idxs(*left).contains(idx));
                    }
                    assert(nodes2[idx] == nodes1[idx]);
                    assert(root_of(nl) == root_of(*left)) by {
                        lemma_members(*left, nodes1, Some(idx));
                        if root_of(*left) == Some(x) {
                            assert(opt_i(nodes1[x].parent) == Some(idx));
                        }
                    }
                }
                assert(shape_wf(replace_at(s, x, t), nodes2, parent));
            } else {
                assert(idxs(*right).contains(x));
                assert(subtree_at(s, x) == subtree_at(*right, x));
                lemma_subtree_at(*right, nodes1, Some(idx), x);
                lemma_replace_at(*right, nodes1, nodes2, Some(idx), x, t);
                let nr = replace_at(*right, x, t);
                assert(idxs(nr) =~= idxs(*right));
                assert(forall|j: int| #[trigger] idxs(*left).contains(j)
                    ==> !idxs(subtree_at(s, x)).contains(j));
                assert forall|j: int| #[trigger] idxs(*left).contains(j)
                    implies nodes2[j] == nodes1[j] by {
                    if opt_i(nodes1[x].parent) == Some(j) {
                        assert(idxs(subtree_at(*right, x)).contains(x));
                        lemma_members(*right, nodes1, Some(idx));
                        if root_of(*right) == Some(x) {
                            assert(opt_i(nodes1[x].parent) == Some(idx));
                            assert(!idxs(*left).contains(idx));
                            assert(false);
                        } else {
                            assert(match nodes1[x].parent {
                                Some(p) => idxs(*right).contains(p as int),
                                None => false,
                            });
                            assert(false);
                        }
                    }
                }
                lemma_frame(*left, nodes1, nodes2, Some(idx));
                if opt_i(nodes1[x].parent) == Some(idx) {
                    assert(root_of(*right) == Some(x)) by {
                        lemma_members(*right, nodes1, Some(idx));
                        if root_of(*right) != Some(x) {
                            assert(match nodes1[x].parent {
                                Some(p) => idxs(*right).contains(p as int),
                                None => false,
                            });
                            assert(!idxs(*right).contains(idx));
                        }
                    }
                    assert(subtree_at(*right, x) == *right);
                    assert(nodes2[idx] == relink(nodes1[idx], Some(x), root_link(t)));
                    assert(opt_i(nodes1[idx].right_child) == Some(x));
                    if opt_i(nodes1[idx].left_child) == Some(x) {
                        assert(idxs(*left).contains(x));
                        assert(false);
                    }
                    assert(nodes2[idx] == (Node { right_child: root_link(t), ..nodes1[idx] }));
                    assert(t is Vertex);
                    assert(idxs(t).contains(t->idx));
                    assert(0 <= t->idx < nodes2.len());
                    assert(opt_i(root_link(t)) == root_of(t));
                    assert(root_of(nr) == root_of(t));
                } else {
                    assert(!idxs(subtree_at(s, x)).contains(idx)) by {
                        assert(idxs(subtree_at(*right, x)).contains(x));
                        assert(forall|j: int|
                            #[trigger] idxs(subtree_at(*right, x)).contains(j)
                                ==> idxs(*right).contains(j));
                        assert(!idxs(*right).contains(idx));
                    }
                    assert(nodes2[idx] == nodes1[idx]);
                    assert(root_of(nr) == root_of(*right)) by {
                        lemma_members(*right, nodes1, Some(idx));
                        if root_of(*right) == Some(x) {
                            assert(opt_i(nodes1[x].parent) == Some(idx));
                        }
                    }
                }
                assert(shape_wf(replace_at(s, x, t), nodes2, parent));
            }
        },
    }
}

/// The total number of vertices across a queue of shapes.
pub open spec fn ssize_sum(q: Seq<Shape>) -> nat
    decreases q.len(),
{
    if q.len() == 0 {
        0
    } else {
        ssize(q[0]) + ssize_sum(q.drop_first())
    }
}

/// Appending a shape to a queue adds its vertex count to the total.
pub proof fn lemma_ssize_sum_push(q: Seq<Shape>, x: Shape)
    ensures
        ssize_sum(q.push(x)) == ssize_sum(q) + ssize(x),
    decreases q.len(),
{
    if q.len() == 0 {
        assert(q.push(x).drop_first() =~= Seq::<Shape>::empty());
        assert(q.push(x)[0] == x);
        assert(ssize_sum(q.push(x)) == ssize(q.push(x)[0]) + ssize_sum(q.push(x).drop_first()));
        assert(ssize_sum(Seq::<Shape>::empty()) == 0);
    } else {
        assert(q.push(x).drop_first() =~= q.drop_first().push(x));
        assert(q.push(x)[0] == q[0]);
        lemma_ssize_sum_push(q.drop_first(), x);
    }
}

/// Breadth-first traversal of a queue of non-empty subtrees: read the key
/// at the front subtree's root, then enqueue its non-empty children.
pub open spec fn bfs(q: Seq<Shape>, nodes: Seq<Node>) -> Seq<int>
    decreases ssize_sum(q),
    via bfs_decreases
{
    if q.len() == 0 {
        Seq::empty()
    } else {
        match q[0] {
            Shape::Nil => Seq::empty(),
            Shape::Vertex { idx, left, right } => {
                let q1 = q.drop_first();
                let q2 = if *left is Vertex {
                    q1.push(*left)
                } else {
                    q1
                };
                let q3 = if *right is Vertex {
                    q2.push(*right)
                } else {
                    q2
                };
                seq![nodes[idx].value as int] + bfs(q3, nodes)
            },
        }
    }
}

#[via_fn]
proof fn bfs_decreases(q: Seq<Shape>, nodes: Seq<Node>) {
    if q.len() != 0 {
        match q[0] {
            Shape::Nil => {},
            Shape::Vertex { idx, left, right } => {
                let q1 = q.drop_first();
                let q2 = if *left is Vertex {
                    q1.push(*left)
                } else {
                    q1
                };
                let q3 = if *right is Vertex {
                    q2.push(*right)
                } else {
                    q2
                };
                assert(ssize_sum(q) == ssize(q[0]) + ssize_sum(q1));
                if *left is Vertex {
                    lemma_ssize_sum_push(q1, *left);
                } else {
                    assert(ssize(*left) == 0);
                }
                if *right is Vertex {
                    lemma_ssize_sum_push(q2, *right);
                } else {
                    assert(ssize(*right) == 0);
                }
                assert(ssize(q[0]) == 1 + ssize(*left) + ssize(*right));
                assert(ssize_sum(q3) < ssize_sum(q));
            },
        }
    }
}

/// The key stored in each arena slot, in slot order.
pub open spec fn keys(nodes: Seq<Node>) -> Seq<int> {
    nodes.map_values(|nd: Node| nd.value as int)
}

/// The structural result of a left rotation at the root of `s`: the right
/// child rises, its former left subtree moving under the old root.  `s`
/// itself when there is no right child to rise.
pub open spec fn rot_left(s: Shape) -> Shape {
    if s is Vertex && (*s->right) is Vertex {
        Shape::Vertex {
            idx: (*s->right)->idx,
            left: Box::new(Shape::Vertex {
                idx: s->idx,
                left: s->left,
                right: (*s->right)->left,
            }),
            right: (*s->right)->right,
        }
    } else {
        s
    }
}

/// The structural result of a right rotation at the root of `s`: the
/// mirror image of `rot_left`.
pub open spec fn rot_right(s: Shape) -> Shape {
    if s is Vertex && (*s->left) is Vertex {
        Shape::Vertex {
            idx: (*s->left)->idx,
            left: (*s->left)->left,
            right: Box::new(Shape::Vertex {
                idx: s->idx,
                left: (*s->left)->right,
                right: s->right,
            }),
        }
    } else {
        s
    }
}

/// One step of the rebalancing walk, as a function of the shape alone: a
/// balance factor of +2 takes a left rotation, preceded by a right rotation
/// of the right child when that child leans left (the right-left case);
/// -2 is the mirror image; anything in [-1, 1] changes nothing.
pub open spec fn rebalanced(s: Shape) -> Shape {
    if s is Vertex {
        let l = *s->left;
        let r = *s->right;
        if sheight(r) - sheight(l) > 1 {
            if r is Vertex && sheight(*r->right) - sheight(*r->left) < 0 {
                rot_left(Shape::Vertex {
                    idx: s->idx,
                    left: s->left,
                    right: Box::new(rot_right(r)),
                })
            } else {
                rot_left(s)
            }
        } else if sheight(r) - sheight(l) < -1 {
            if l is Vertex && sheight(*l->right) - sheight(*l->left) > 0 {
                rot_right(Shape::Vertex {
                    idx: s->idx,
                    left: Box::new(rot_left(l)),
                    right: s->right,
                })
            } else {
                rot_right(s)
            }
        } else {
            s
        }
    } else {
        s
    }
}

/// The shape that the standard AVL insertion produces: descend left on a
/// strictly smaller key and right otherwise — so equal keys become right
/// descendants — attach the fresh index `n` at the empty slot the descent
/// reaches, and rebalance at every node on the way back up.
pub open spec fn inserted(s: Shape, ks: Seq<int>, n: int, v: int) -> Shape
    decreases s,
{
    match s {
        Shape::Nil => Shape::Vertex {
            idx: n,
            left: Box::new(Shape::Nil),
            right: Box::new(Shape::Nil),
        },
        Shape::Vertex { idx, left, right } => if v < ks[idx] {
            rebalanced(Shape::Vertex { idx, left: Box::new(inserted(*left, ks, n, v)), right })
        } else {
            rebalanced(Shape::Vertex { idx, left, right: Box::new(inserted(*right, ks, n, v)) })
        },
    }
}

/// The arena index of the leftmost vertex of `s`: the in-order minimum
/// (-1 for the empty shape, which no caller uses).
pub open spec fn min_idx(s: Shape) -> int
    decreases s,
{
    match s {
        Shape::Nil => -1,
        Shape::Vertex { idx, left, .. } => if *left is Vertex {
            min_idx(*left)
        } else {
            idx
        },
    }
}

/// The arena index of the rightmost vertex of `s`: the in-order maximum.
pub open spec fn max_idx(s: Shape) -> int
    decreases s,
{
    match s {
        Shape::Nil => -1,
        Shape::Vertex { idx, right, .. } => if *right is Vertex {
            max_idx(*right)
        } else {
            idx
        },
    }
}

/// The shape after splicing out the vertex with arena index `d`, which
/// must have at most one child: that child (if any) takes its place, and
/// every node on the path from `d`'s parent back to the root of `s` is
/// rebalanced.
pub open spec fn spliced(s: Shape, d: int) -> Shape
    decreases s,
{
    match s {
        Shape::Nil => Shape::Nil,
        Shape::Vertex { idx, left, right } => if idx == d {
            if *left is Vertex {
                *left
            } else {
                *right
            }
        } else if idxs(*left).contains(d) {
            rebalanced(Shape::Vertex { idx, left: Box::new(spliced(*left, d)), right })
        } else if idxs(*right).contains(d) {
            rebalanced(Shape::Vertex { idx, left, right: Box::new(spliced(*right, d)) })
        } else {
            s
        },
    }
}

/// The shape after the arena slot `last` moves into the freed slot `d`.
pub open spec fn shape_freed(s: Shape, d: int, last: int) -> Shape {
    if d == last {
        s
    } else {
        rename(s, last, d)
    }
}

/// A payload sequence after slot `d` is freed: the last slot's pair moves
/// into `d` and the sequence shortens by one.
pub open spec fn seq_freed(pl: Seq<(int, int)>, d: int) -> Seq<(int, int)> {
    if d == pl.len() - 1 {
        pl.drop_last()
    } else {
        pl.update(d, pl[pl.len() - 1]).drop_last()
    }
}

/// The shape built by inserting the keys of `ks` in order into an empty
/// tree, each new node taking the next arena index.
pub open spec fn built(ks: Seq<int>) -> Shape
    decreases ks.len(),
{
    if ks.len() == 0 {
        Shape::Nil
    } else {
        inserted(built(ks.drop_last()), ks, ks.len() - 1, ks.last())
    }
}

/// `inserted` reads only the keys of the vertices it visits.
pub proof fn lemma_inserted_frame(s: Shape, ks1: Seq<int>, ks2: Seq<int>, n: int, v: int)
    requires
        forall|j: int| #[trigger] idxs(s).contains(j) ==> ks1[j] == ks2[j],
    ensures
        inserted(s, ks1, n, v) == inserted(s, ks2, n, v),
    decreases s,
{
    match s {
        Shape::Nil => {},
        Shape::Vertex { idx, left, right } => {
            assert(idxs(s).contains(idx));
            assert(forall|j: int| #[trigger] idxs(*left).contains(j) ==> idxs(s).contains(j));
            assert(forall|j: int| #[trigger] idxs(*right).contains(j) ==> idxs(s).contains(j));
            lemma_inserted_frame(*left, ks1, ks2, n, v);
            lemma_inserted_frame(*right, ks1, ks2, n, v);
        },
    }
}

/// A vertex's recorded parent never lies inside that vertex's own subtree.
pub proof fn lemma_parent_not_in_subtree(
    s: Shape,
    nodes: Seq<Node>,
    parent: Option<int>,
    x: int,
)
    requires
        shape_wf(s, nodes, parent),
        uniq(s),
        idxs(s).contains(x),
        match parent {
            Some(p) => !idxs(s).contains(p),
            None => true,
        },
    ensures
        match nodes[x].parent {
            Some(p) => !idxs(subtree_at(s, x)).contains(p as int),
            None => true,
        },
    decreases s,
{
    match s {
        Shape::Nil => {},
        Shape::Vertex { idx, left, right } => {
            lemma_subtree_at(s, nodes, parent, x);
            if idx == x {
                assert(subtree_at(s, x) == s);
                assert(opt_i(nodes[x].parent) == parent);
            } else if idxs(*left).contains(x) {
                assert(subtree_at(s, x) == subtree_at(*left, x));
                assert(!idxs(*left).contains(idx));
                lemma_parent_not_in_subtree(*left, nodes, Some(idx), x);
            } else {
                assert(idxs(*right).contains(x));
                assert(subtree_at(s, x) == subtree_at(*right, x));
                assert(!idxs(*right).contains(idx));
                lemma_parent_not_in_subtree(*right, nodes, Some(idx), x);
            }
        },
    }
}

} // verus!
