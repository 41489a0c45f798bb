//! The AVL tree proper: an arena of nodes, a root index, and the verified
//! insertion, search, rotation and deletion operations.

use vstd::prelude::*;
use vstd::multiset::Multiset;
use crate::avl_node::{Node, child_height};
use crate::shape::{Shape, root_of, opt_i, idxs, sheight, ssize, sbalanced, uniq, shape_wf,
    heights_ok, lemma_frame, lemma_size, lemma_in_range, lemma_shape_unique, root_link, relink,
    lemma_reparent, lemma_height_le_len, payloads, lemma_payloads_eq, lemma_payloads_index,
    subtree_at, lemma_subtree_at, lemma_members, lemma_parent_height, rename,
    subst_node, lemma_rename, lemma_child_of, lemma_chain_in, lemma_update_value,
    replace_at, lemma_replace_at, ssize_sum, lemma_ssize_sum_push, bfs,
    keys, rot_left, rot_right, rebalanced, inserted, min_idx, max_idx, spliced, shape_freed,
    seq_freed, built, lemma_inserted_frame, lemma_parent_not_in_subtree};

verus! {

/// A self-balancing binary search tree.  Every arena slot holds a node of
/// the tree; `root` is the arena index of the root, `None` when empty.
#[derive(Debug)]
pub struct AvlTree {
    pub nodes: Vec<Node>,
    pub root: Option<usize>,
}

impl AvlTree {
    /// The given shape describes this tree exactly: links and search order
    /// agree, indices are distinct, every arena slot appears, and the root
    /// matches.
    pub open spec fn linked_by(&self, s: Shape) -> bool {
        &&& shape_wf(s, self.nodes@, None)
        &&& uniq(s)
        &&& idxs(s) =~= vstd::set_lib::set_int_range(0, self.nodes@.len() as int)
        &&& opt_i(self.root) == root_of(s)
    }

    /// Parent, child and search-order consistency: some shape describes the
    /// tree.  Cached heights are not constrained.
    pub closed spec fn linked(&self) -> bool {
        exists|s: Shape| #[trigger] self.linked_by(s)
    }

    /// Full well-formedness: linked, and every cached height is correct.
    pub closed spec fn wf(&self) -> bool {
        exists|s: Shape| #[trigger] self.linked_by(s) && heights_ok(s, self.nodes@)
    }

    /// The AVL invariant: well-formed and height-balanced at every node.
    pub closed spec fn avl(&self) -> bool {
        exists|s: Shape|
            #[trigger] self.linked_by(s) && heights_ok(s, self.nodes@) && sbalanced(s)
    }

    /// The three well-formedness levels nest: an AVL tree is fully
    /// well-formed, and a fully well-formed tree is linked.
    pub proof fn lemma_avl_implies_wf(&self)
        requires
            self.avl(),
        ensures
            self.wf(),
            self.linked(),
    {
        let s = choose|t: Shape|
            #[trigger] self.linked_by(t) && heights_ok(t, self.nodes@) && sbalanced(t);
        assert(self.linked_by(s) && heights_ok(s, self.nodes@));
    }

    /// A fully well-formed tree is linked.
    pub proof fn lemma_wf_implies_linked(&self)
        requires
            self.wf(),
        ensures
            self.linked(),
    {
        let s = choose|t: Shape| #[trigger] self.linked_by(t) && heights_ok(t, self.nodes@);
        assert(self.linked_by(s));
    }

    /// The multiset of (payload tag, key) pairs held by the tree.
    pub open spec fn entries(&self) -> Multiset<(int, int)> {
        payloads(self.nodes@).to_multiset()
    }

    /// The number of nodes in the tree.
    pub open spec fn size(&self) -> nat {
        self.nodes@.len()
    }

    /// An empty tree.
    pub fn new() -> (tree: AvlTree)
        ensures
            tree.avl(),
            tree.size() == 0,
            tree.root is None,
    {
        let tree = AvlTree { nodes: Vec::new(), root: None };
        proof {
            assert(idxs(Shape::Nil) =~= vstd::set_lib::set_int_range(0, 0));
            assert(tree.linked_by(Shape::Nil));
            assert(heights_ok(Shape::Nil, tree.nodes@) && sbalanced(Shape::Nil));
        }
        tree
    }

    /// The core of a left rotation, applied to the subtree described by the
    /// ghost shape `s`, whose root is the arena index `x`.  The right child
    /// `y` takes `x`'s place under `x`'s former parent (or as tree root);
    /// `y`'s former left subtree becomes `x`'s right subtree; `x` becomes
    /// `y`'s left child.  `x`'s height is recomputed first, then `y`'s.
    #[verifier::rlimit(100)]
    fn rotate_left_at(&mut self, x: usize, Ghost(s): Ghost<Shape>, Ghost(parent): Ghost<
        Option<int>,
    >) -> (res: Ghost<Shape>)
        requires
            s is Vertex,
            s->idx == x as int,
            (*s->right) is Vertex,
            shape_wf(s, old(self).nodes@, parent),
            uniq(s),
            heights_ok(*s->left, old(self).nodes@),
            heights_ok(*(*s->right)->left, old(self).nodes@),
            heights_ok(*(*s->right)->right, old(self).nodes@),
            match parent {
                Some(p) => 0 <= p < old(self).nodes@.len() && !idxs(s).contains(p)
                    && (opt_i(old(self).nodes@[p].left_child) == Some(x as int)
                    || opt_i(old(self).nodes@[p].right_child) == Some(x as int)),
                None => true,
            },
        ensures
            res@ == (Shape::Vertex {
                idx: (*s->right)->idx,
                left: Box::new(Shape::Vertex {
                    idx: x as int,
                    left: s->left,
                    right: (*s->right)->left,
                }),
                right: (*s->right)->right,
            }),
            shape_wf(res@, final(self).nodes@, parent),
            uniq(res@),
            heights_ok(res@, final(self).nodes@),
            idxs(res@) =~= idxs(s),
            final(self).nodes@.len() == old(self).nodes@.len(),
            forall|j: int|
                0 <= j < old(self).nodes@.len() && !(#[trigger] idxs(s).contains(j))
                    && parent != Some(j) ==> final(self).nodes@[j] == old(self).nodes@[j],
            payloads(final(self).nodes@) == payloads(old(self).nodes@),
            match parent {
                Some(p) => final(self).nodes@[p] == relink(
                    old(self).nodes@[p],
                    Some(x as int),
                    root_link(res@),
                ) && final(self).root == old(self).root,
                None => opt_i(final(self).root) == root_of(res@) && (forall|j: int|
                    0 <= j < old(self).nodes@.len() && !(#[trigger] idxs(s).contains(j))
                        ==> final(self).nodes@[j] == old(self).nodes@[j]),
            },
    {
        let ghost nodes0 = self.nodes@;
        let ghost a = *s->left;
        let ghost sy = *s->right;
        let ghost b = *sy->left;
        let ghost c = *sy->right;
        let n_len = self.nodes.len();
        proof {
            assert(shape_wf(sy, nodes0, Some(x as int)));
            assert(shape_wf(a, nodes0, Some(x as int)));
            assert(ssize(s) == 1 + ssize(a) + ssize(sy));
            assert(ssize(sy) == 1 + ssize(b) + ssize(c));
            lemma_in_range(s, nodes0, parent);
            lemma_height_le_len(s, nodes0, parent);
            assert(uniq(a) && uniq(sy));
            assert(uniq(b) && uniq(c));
            lemma_size(a);
            lemma_size(b);
            lemma_size(c);
            assert(idxs(s).contains(x as int));
            assert(idxs(sy).contains(sy->idx));
            assert(idxs(s).contains(sy->idx));
        }
        let y = match self.nodes[x].right_child {
            Some(j) => j,
            None => unreached(),
        };
        proof {
            assert(y as int == sy->idx);
        }
        // Transplant y's left subtree to be x's right subtree.
        let b_opt = self.nodes[y].left_child;
        proof {
            assert(opt_i(b_opt) == root_of(b));
            if b is Vertex {
                assert(idxs(b).contains(b->idx));
                assert(idxs(sy).contains(b->idx));
                assert(idxs(s).contains(b->idx));
            }
        }
        match b_opt {
            Some(bi) => {
                let mut nb = self.nodes[bi];
                nb.parent = Some(x);
                self.nodes[bi] = nb;
            },
            None => {},
        }
        let mut nx = self.nodes[x];
        nx.right_child = b_opt;
        self.nodes[x] = nx;
        // y takes x's place under x's former parent.
        let p_opt = self.nodes[x].parent;
        match p_opt {
            None => {
                let mut ny = self.nodes[y];
                ny.parent = None;
                self.nodes[y] = ny;
                self.root = Some(y);
            },
            Some(p) => {
                let is_l = match self.nodes[p].left_child {
                    Some(lc) => lc == x,
                    None => false,
                };
                let mut np = self.nodes[p];
                if is_l {
                    np.left_child = Some(y);
                } else {
                    np.right_child = Some(y);
                }
                self.nodes[p] = np;
                let mut ny = self.nodes[y];
                ny.parent = Some(p);
                self.nodes[y] = ny;
            },
        }
        // x becomes y's left child.
        let mut ny = self.nodes[y];
        ny.left_child = Some(x);
        self.nodes[y] = ny;
        let mut nx = self.nodes[x];
        nx.parent = Some(y);
        self.nodes[x] = nx;
        // Recompute x's height, then y's: y's height depends on x's new one.
        proof {
            let n1 = self.nodes@;
            // a's, b's and c's slots are untouched so far except for the
            // parent field of b's root; caches still match the subtrees.
            assert(!idxs(a).contains(x as int) && !idxs(sy).contains(x as int));
            assert(forall|j: int| #[trigger] idxs(b).contains(j) ==> idxs(sy).contains(j));
            assert(forall|j: int| #[trigger] idxs(c).contains(j) ==> idxs(sy).contains(j));
            assert(forall|j: int| #[trigger] idxs(a).contains(j)
                ==> idxs(s).contains(j) && j != x as int && j != y as int);
            assert(forall|j: int| #[trigger] idxs(a).contains(j) ==> n1[j] == nodes0[j]);
            assert(forall|j: int| #[trigger] idxs(c).contains(j)
                ==> idxs(s).contains(j) && j != x as int && j != y as int);
            assert(forall|j: int| #[trigger] idxs(c).contains(j) ==> n1[j] == nodes0[j]);
            if a is Vertex {
                assert(idxs(a).contains(a->idx));
                assert(n1[a->idx].height == sheight(a));
            }
            if b is Vertex {
                assert(n1[b->idx].height == nodes0[b->idx].height);
                assert(n1[b->idx].height == sheight(b));
            }
            if c is Vertex {
                assert(idxs(c).contains(c->idx));
                assert(n1[c->idx].height == sheight(c));
            }
            assert(opt_i(n1[x as int].left_child) == root_of(a));
            assert(n1[x as int].right_child == b_opt);
            lemma_size(s);
            assert(sheight(a) <= ssize(a) && sheight(b) <= ssize(b) && sheight(c) <= ssize(c));
            assert(ssize(s) <= n_len);
        }
        let ndx = self.nodes[x];
        let xlh = ndx.get_left_child_height(&self.nodes);
        let xrh = ndx.get_right_child_height(&self.nodes);
        let mut nx = self.nodes[x];
        nx.set_height(xlh, xrh);
        self.nodes[x] = nx;
        let ndy = self.nodes[y];
        let ylh = ndy.get_left_child_height(&self.nodes);
        let yrh = ndy.get_right_child_height(&self.nodes);
        let mut ny = self.nodes[y];
        ny.set_height(ylh, yrh);
        self.nodes[y] = ny;

        let ghost newx = Shape::Vertex { idx: x as int, left: Box::new(a), right: Box::new(b) };
        let ghost news = Shape::Vertex {
            idx: y as int,
            left: Box::new(newx),
            right: Box::new(c),
        };
        proof {
            let n1 = self.nodes@;
            assert(forall|j: int| #[trigger] idxs(a).contains(j) ==> idxs(s).contains(j));
            assert(forall|j: int| #[trigger] idxs(b).contains(j)
                ==> idxs(sy).contains(j) && idxs(s).contains(j));
            assert(forall|j: int| #[trigger] idxs(c).contains(j)
                ==> idxs(sy).contains(j) && idxs(s).contains(j));
            // Slots outside {x, y, b-root, parent} are untouched.
            assert(forall|j: int| #[trigger] idxs(a).contains(j)
                ==> 0 <= j < n1.len() && n1[j] == nodes0[j]);
            assert(forall|j: int| #[trigger] idxs(c).contains(j)
                ==> 0 <= j < n1.len() && n1[j] == nodes0[j]);
            lemma_frame(a, nodes0, n1, Some(x as int));
            lemma_frame(c, nodes0, n1, Some(y as int));
            match b {
                Shape::Nil => {},
                Shape::Vertex { .. } => {
                    lemma_reparent(b, nodes0, n1, Some(y as int), Some(x as int));
                },
            }
            assert(ssize(a) + ssize(b) + 2 <= ssize(s));
            assert(xlh == sheight(a) && xrh == sheight(b));
            assert(n1[x as int].height == ((if xlh > xrh {
                xlh
            } else {
                xrh
            }) + 1) as usize);
            assert(sheight(newx) == 1 + if sheight(a) > sheight(b) {
                sheight(a)
            } else {
                sheight(b)
            });
            assert(n1[x as int].height == sheight(newx));
            assert(heights_ok(a, n1));
            assert(heights_ok(b, n1));
            assert(heights_ok(c, n1));
            assert(shape_wf(a, n1, Some(x as int)));
            assert(shape_wf(b, n1, Some(x as int)));
            assert(shape_wf(c, n1, Some(y as int)));
            assert(heights_ok(newx, n1));
            assert(ylh == sheight(newx) && yrh == sheight(c));
            assert(sheight(news) == 1 + if sheight(newx) > sheight(c) {
                sheight(newx)
            } else {
                sheight(c)
            });
            assert(n1[y as int].height == sheight(news));
            assert(heights_ok(news, n1));
            // No payload was touched.
            assert(forall|j: int| 0 <= j < n1.len()
                ==> (#[trigger] n1[j].value) == nodes0[j].value && n1[j].index == nodes0[j].index);
            lemma_payloads_eq(nodes0, n1);
            // Search order: everything in a and b is bounded by x's key, and
            // x's whole old subtree is bounded by y's key.
            assert(idxs(sy).contains(y as int));
            assert(nodes0[y as int].value >= nodes0[x as int].value);
            assert(forall|j: int| #[trigger] idxs(b).contains(j)
                ==> n1[j].value >= n1[x as int].value);
            assert(forall|j: int| #[trigger] idxs(newx).contains(j)
                ==> j == x as int || idxs(a).contains(j) || idxs(b).contains(j));
            assert forall|j: int| #[trigger] idxs(newx).contains(j) implies n1[j].value <= n1[y
                as int].value by {
                if j == x as int {
                } else if idxs(a).contains(j) {
                    assert(nodes0[j].value <= nodes0[x as int].value);
                } else {
                    assert(idxs(b).contains(j));
                    assert(nodes0[j].value <= nodes0[y as int].value);
                }
            }
            assert(shape_wf(newx, n1, Some(y as int)));
            assert(shape_wf(news, n1, parent));
            // Index distinctness carries over: the same indices, regrouped.
            assert(!idxs(sy).contains(x as int));
            assert(!idxs(a).contains(x as int) && !idxs(b).contains(x as int));
            assert(idxs(a).disjoint(idxs(b)));
            assert(uniq(newx));
            assert(!idxs(newx).contains(y as int));
            assert(!idxs(c).contains(y as int));
            assert(idxs(newx).disjoint(idxs(c)));
            assert(uniq(news));
            assert(idxs(news) =~= idxs(s));
        }
        Ghost(news)
    }

    /// The core of a right rotation: the mirror image of `rotate_left_at`.
    /// The left child `y` takes `x`'s place under `x`'s former parent (or as
    /// tree root); `y`'s former right subtree becomes `x`'s left subtree;
    /// `x` becomes `y`'s right child.
    #[verifier::rlimit(100)]
    fn rotate_right_at(&mut self, x: usize, Ghost(s): Ghost<Shape>, Ghost(parent): Ghost<
        Option<int>,
    >) -> (res: Ghost<Shape>)
        requires
            s is Vertex,
            s->idx == x as int,
            (*s->left) is Vertex,
            shape_wf(s, old(self).nodes@, parent),
            uniq(s),
            heights_ok(*s->right, old(self).nodes@),
            heights_ok(*(*s->left)->left, old(self).nodes@),
            heights_ok(*(*s->left)->right, old(self).nodes@),
            match parent {
                Some(p) => 0 <= p < old(self).nodes@.len() && !idxs(s).contains(p)
                    && (opt_i(old(self).nodes@[p].left_child) == Some(x as int)
                    || opt_i(old(self).nodes@[p].right_child) == Some(x as int)),
                None => true,
            },
        ensures
            res@ == (Shape::Vertex {
                idx: (*s->left)->idx,
                left: (*s->left)->left,
                right: Box::new(Shape::Vertex {
                    idx: x as int,
                    left: (*s->left)->right,
                    right: s->right,
                }),
            }),
            shape_wf(res@, final(self).nodes@, parent),
            uniq(res@),
            heights_ok(res@, final(self).nodes@),
            idxs(res@) =~= idxs(s),
            final(self).nodes@.len() == old(self).nodes@.len(),
            forall|j: int|
                0 <= j < old(self).nodes@.len() && !(#[trigger] idxs(s).contains(j))
                    && parent != Some(j) ==> final(self).nodes@[j] == old(self).nodes@[j],
            payloads(final(self).nodes@) == payloads(old(self).nodes@),
            match parent {
                Some(p) => final(self).nodes@[p] == relink(
                    old(self).nodes@[p],
                    Some(x as int),
                    root_link(res@),
                ) && final(self).root == old(self).root,
                None => opt_i(final(self).root) == root_of(res@) && (forall|j: int|
                    0 <= j < old(self).nodes@.len() && !(#[trigger] idxs(s).contains(j))
                        ==> final(self).nodes@[j] == old(self).nodes@[j]),
            },
    {
        let ghost nodes0 = self.nodes@;
        let ghost sy = *s->left;
        let ghost a = *sy->left;
        let ghost b = *sy->right;
        let ghost c = *s->right;
        let n_len = self.nodes.len();
        proof {
            assert(shape_wf(sy, nodes0, Some(x as int)));
            assert(shape_wf(c, nodes0, Some(x as int)));
            assert(ssize(s) == 1 + ssize(sy) + ssize(c));
            assert(ssize(sy) == 1 + ssize(a) + ssize(b));
            lemma_in_range(s, nodes0, parent);
            lemma_height_le_len(s, nodes0, parent);
            assert(uniq(c) && uniq(sy));
            assert(uniq(a) && uniq(b));
            lemma_size(a);
            lemma_size(b);
            lemma_size(c);
            assert(idxs(s).contains(x as int));
            assert(idxs(sy).contains(sy->idx));
            assert(idxs(s).contains(sy->idx));
        }
        let y = match self.nodes[x].left_child {
            Some(j) => j,
            None => unreached(),
        };
        proof {
            assert(y as int == sy->idx);
        }
        // Transplant y's right subtree to be x's left subtree.
        let b_opt = self.nodes[y].right_child;
        proof {
            assert(opt_i(b_opt) == root_of(b));
            if b is Vertex {
                assert(idxs(b).contains(b->idx));
                assert(idxs(sy).contains(b->idx));
                assert(idxs(s).contains(b->idx));
            }
        }
        match b_opt {
            Some(bi) => {
                let mut nb = self.nodes[bi];
                nb.parent = Some(x);
                self.nodes[bi] = nb;
            },
            None => {},
        }
        let mut nx = self.nodes[x];
        nx.left_child = b_opt;
        self.nodes[x] = nx;
        // y takes x's place under x's former parent.
        let p_opt = self.nodes[x].parent;
        match p_opt {
            None => {
                let mut ny = self.nodes[y];
                ny.parent = None;
                self.nodes[y] = ny;
                self.root = Some(y);
            },
            Some(p) => {
                let is_l = match self.nodes[p].left_child {
                    Some(lc) => lc == x,
                    None => false,
                };
                let mut np = self.nodes[p];
                if is_l {
                    np.left_child = Some(y);
                } else {
                    np.right_child = Some(y);
                }
                self.nodes[p] = np;
                let mut ny = self.nodes[y];
                ny.parent = Some(p);
                self.nodes[y] = ny;
            },
        }
        // x becomes y's right child.
        let mut ny = self.nodes[y];
        ny.right_child = Some(x);
        self.nodes[y] = ny;
        let mut nx = self.nodes[x];
        nx.parent = Some(y);
        self.nodes[x] = nx;
        // Recompute x's height, then y's: y's height depends on x's new one.
        proof {
            let n1 = self.nodes@;
            assert(!idxs(c).contains(x as int) && !idxs(sy).contains(x as int));
            assert(forall|j: int| #[trigger] idxs(b).contains(j) ==> idxs(sy).contains(j));
            assert(forall|j: int| #[trigger] idxs(a).contains(j) ==> idxs(sy).contains(j));
            assert(forall|j: int| #[trigger] idxs(c).contains(j)
                ==> idxs(s).contains(j) && j != x as int && j != y as int);
            assert(forall|j: int| #[trigger] idxs(c).contains(j) ==> n1[j] == nodes0[j]);
            assert(forall|j: int| #[trigger] idxs(a).contains(j)
                ==> idxs(s).contains(j) && j != x as int && j != y as int);
            assert(forall|j: int| #[trigger] idxs(a).contains(j) ==> n1[j] == nodes0[j]);
            if c is Vertex {
                assert(idxs(c).contains(c->idx));
                assert(n1[c->idx].height == sheight(c));
            }
            if b is Vertex {
                assert(n1[b->idx].height == nodes0[b->idx].height);
                assert(n1[b->idx].height == sheight(b));
            }
            if a is Vertex {
                assert(idxs(a).contains(a->idx));
                assert(n1[a->idx].height == sheight(a));
            }
            assert(opt_i(n1[x as int].right_child) == root_of(c));
            assert(n1[x as int].left_child == b_opt);
            lemma_size(s);
            assert(sheight(a) <= ssize(a) && sheight(b) <= ssize(b) && sheight(c) <= ssize(c));
            assert(ssize(s) <= n_len);
        }
        let ndx = self.nodes[x];
        let xlh = ndx.get_left_child_height(&self.nodes);
        let xrh = ndx.get_right_child_height(&self.nodes);
        let mut nx = self.nodes[x];
        nx.set_height(xlh, xrh);
        self.nodes[x] = nx;
        let ndy = self.nodes[y];
        let ylh = ndy.get_left_child_height(&self.nodes);
        let yrh = ndy.get_right_child_height(&self.nodes);
        let mut ny = self.nodes[y];
        ny.set_height(ylh, yrh);
        self.nodes[y] = ny;

        let ghost newx = Shape::Vertex { idx: x as int, left: Box::new(b), right: Box::new(c) };
        let ghost news = Shape::Vertex {
            idx: y as int,
            left: Box::new(a),
            right: Box::new(newx),
        };
        proof {
            let n1 = self.nodes@;
            assert(forall|j: int| #[trigger] idxs(c).contains(j) ==> idxs(s).contains(j));
            assert(forall|j: int| #[trigger] idxs(b).contains(j)
                ==> idxs(sy).contains(j) && idxs(s).contains(j));
            assert(forall|j: int| #[trigger] idxs(a).contains(j)
                ==> idxs(sy).contains(j) && idxs(s).contains(j));
            // Slots outside {x, y, b-root, parent} are untouched.
            assert(forall|j: int| #[trigger] idxs(c).contains(j)
                ==> 0 <= j < n1.len() && n1[j] == nodes0[j]);
            assert(forall|j: int| #[trigger] idxs(a).contains(j)
                ==> 0 <= j < n1.len() && n1[j] == nodes0[j]);
            lemma_frame(c, nodes0, n1, Some(x as int));
            lemma_frame(a, nodes0, n1, Some(y as int));
            match b {
                Shape::Nil => {},
                Shape::Vertex { .. } => {
                    lemma_reparent(b, nodes0, n1, Some(y as int), Some(x as int));
                },
            }
            assert(ssize(b) + ssize(c) + 2 <= ssize(s));
            assert(xlh == sheight(b) && xrh == sheight(c));
            assert(n1[x as int].height == ((if xlh > xrh {
                xlh
            } else {
                xrh
            }) + 1) as usize);
            assert(sheight(newx) == 1 + if sheight(b) > sheight(c) {
                sheight(b)
            } else {
                sheight(c)
            });
            assert(n1[x as int].height == sheight(newx));
            assert(heights_ok(a, n1));
            assert(heights_ok(b, n1));
            assert(heights_ok(c, n1));
            assert(shape_wf(c, n1, Some(x as int)));
            assert(shape_wf(b, n1, Some(x as int)));
            assert(shape_wf(a, n1, Some(y as int)));
            assert(heights_ok(newx, n1));
            assert(ylh == sheight(a) && yrh == sheight(newx));
            assert(sheight(news) == 1 + if sheight(a) > sheight(newx) {
                sheight(a)
            } else {
                sheight(newx)
            });
            assert(n1[y as int].height == sheight(news));
            assert(heights_ok(news, n1));
            // No payload was touched.
            assert(forall|j: int| 0 <= j < n1.len()
                ==> (#[trigger] n1[j].value) == nodes0[j].value && n1[j].index == nodes0[j].index);
            lemma_payloads_eq(nodes0, n1);
            // Search order: everything in b and c is at least x's key is
            // mirrored: b and c bound x from below and above, and x's whole
            // old subtree is bounded below by y's key.
            assert(idxs(sy).contains(y as int));
            assert(nodes0[y as int].value <= nodes0[x as int].value);
            assert(forall|j: int| #[trigger] idxs(b).contains(j)
                ==> n1[j].value <= n1[x as int].value);
            assert(forall|j: int| #[trigger] idxs(newx).contains(j)
                ==> j == x as int || idxs(b).contains(j) || idxs(c).contains(j));
            assert forall|j: int| #[trigger] idxs(newx).contains(j) implies n1[j].value >= n1[y
                as int].value by {
                if j == x as int {
                } else if idxs(c).contains(j) {
                    assert(nodes0[j].value >= nodes0[x as int].value);
                } else {
                    assert(idxs(b).contains(j));
                    assert(nodes0[j].value >= nodes0[y as int].value);
                }
            }
            assert(shape_wf(newx, n1, Some(y as int)));
            assert(shape_wf(news, n1, parent));
            // Index distinctness carries over: the same indices, regrouped.
            assert(!idxs(sy).contains(x as int));
            assert(!idxs(b).contains(x as int) && !idxs(c).contains(x as int));
            assert(idxs(b).disjoint(idxs(c)));
            assert(uniq(newx));
            assert(!idxs(newx).contains(y as int));
            assert(!idxs(a).contains(y as int));
            assert(idxs(a).disjoint(idxs(newx)));
            assert(uniq(news));
            assert(idxs(news) =~= idxs(s));
        }
        Ghost(news)
    }

    /// Restore the AVL balance at a node whose two subtrees are balanced but
    /// whose own balance factor has reached +2 or -2.  This is the standard
    /// four-case dispatch: right-heavy with a left-leaning right child takes
    /// a right rotation of that child first (right-left case), then a left
    /// rotation; mirrored for the left-heavy cases.
    #[verifier::rlimit(100)]
    fn rebalance(&mut self, i: usize, Ghost(s): Ghost<Shape>, Ghost(parent): Ghost<
        Option<int>,
    >) -> (res: Ghost<Shape>)
        requires
            s is Vertex,
            s->idx == i as int,
            shape_wf(s, old(self).nodes@, parent),
            uniq(s),
            heights_ok(s, old(self).nodes@),
            sbalanced(*s->left),
            sbalanced(*s->right),
            sheight(*s->right) - sheight(*s->left) == 2 || sheight(*s->right) - sheight(*s->left)
                == -2,
            match parent {
                Some(p) => 0 <= p < old(self).nodes@.len() && !idxs(s).contains(p)
                    && (opt_i(old(self).nodes@[p].left_child) == Some(i as int)
                    || opt_i(old(self).nodes@[p].right_child) == Some(i as int)),
                None => true,
            },
        ensures
            shape_wf(res@, final(self).nodes@, parent),
            uniq(res@),
            heights_ok(res@, final(self).nodes@),
            sbalanced(res@),
            idxs(res@) =~= idxs(s),
            res@ is Vertex,
            sheight(res@) <= sheight(s),
            sheight(res@) + 1 >= sheight(s),
            res@ == rebalanced(s),
            final(self).nodes@.len() == old(self).nodes@.len(),
            forall|j: int|
                0 <= j < old(self).nodes@.len() && !(#[trigger] idxs(s).contains(j))
                    && parent != Some(j) ==> final(self).nodes@[j] == old(self).nodes@[j],
            payloads(final(self).nodes@) == payloads(old(self).nodes@),
            match parent {
                Some(p) => final(self).nodes@[p] == relink(
                    old(self).nodes@[p],
                    Some(i as int),
                    root_link(res@),
                ) && final(self).root == old(self).root,
                None => opt_i(final(self).root) == root_of(res@) && (forall|j: int|
                    0 <= j < old(self).nodes@.len() && !(#[trigger] idxs(s).contains(j))
                        ==> final(self).nodes@[j] == old(self).nodes@[j]),
            },
    {
        let ghost nodes0 = self.nodes@;
        let ghost sl = *s->left;
        let ghost sr = *s->right;
        proof {
            lemma_in_range(s, nodes0, parent);
            assert(idxs(s).contains(i as int));
            assert(heights_ok(sl, nodes0) && heights_ok(sr, nodes0));
            if sl is Vertex {
                assert(idxs(sl).contains(sl->idx));
                assert(idxs(s).contains(sl->idx));
                assert(shape_wf(sl, nodes0, Some(i as int)));
                assert(nodes0[sl->idx].height == sheight(sl));
            }
            if sr is Vertex {
                assert(idxs(sr).contains(sr->idx));
                assert(idxs(s).contains(sr->idx));
                assert(shape_wf(sr, nodes0, Some(i as int)));
                assert(nodes0[sr->idx].height == sheight(sr));
            }
            assert(child_height(nodes0[i as int].left_child, nodes0) == sheight(sl));
            assert(child_height(nodes0[i as int].right_child, nodes0) == sheight(sr));
        }
        let nd = self.nodes[i];
        let bf = nd.get_balance_factor(&self.nodes);
        proof {
            assert(bf == sheight(sr) - sheight(sl));
        }
        if bf > 0 {
            self.rebalance_right(i, Ghost(s), Ghost(parent))
        } else {
            self.rebalance_left(i, Ghost(s), Ghost(parent))
        }
    }

    /// The right-heavy half of `rebalance`: the balance factor is +2.
    #[verifier::rlimit(100)]
    fn rebalance_right(&mut self, i: usize, Ghost(s): Ghost<Shape>, Ghost(parent): Ghost<
        Option<int>,
    >) -> (res: Ghost<Shape>)
        requires
            s is Vertex,
            s->idx == i as int,
            shape_wf(s, old(self).nodes@, parent),
            uniq(s),
            heights_ok(s, old(self).nodes@),
            sbalanced(*s->left),
            sbalanced(*s->right),
            sheight(*s->right) - sheight(*s->left) == 2,
            match parent {
                Some(p) => 0 <= p < old(self).nodes@.len() && !idxs(s).contains(p)
                    && (opt_i(old(self).nodes@[p].left_child) == Some(i as int)
                    || opt_i(old(self).nodes@[p].right_child) == Some(i as int)),
                None => true,
            },
        ensures
            shape_wf(res@, final(self).nodes@, parent),
            uniq(res@),
            heights_ok(res@, final(self).nodes@),
            sbalanced(res@),
            idxs(res@) =~= idxs(s),
            res@ is Vertex,
            sheight(res@) <= sheight(s),
            sheight(res@) + 1 >= sheight(s),
            res@ == rebalanced(s),
            final(self).nodes@.len() == old(self).nodes@.len(),
            forall|j: int|
                0 <= j < old(self).nodes@.len() && !(#[trigger] idxs(s).contains(j))
                    && parent != Some(j) ==> final(self).nodes@[j] == old(self).nodes@[j],
            payloads(final(self).nodes@) == payloads(old(self).nodes@),
            match parent {
                Some(p) => final(self).nodes@[p] == relink(
                    old(self).nodes@[p],
                    Some(i as int),
                    root_link(res@),
                ) && final(self).root == old(self).root,
                None => opt_i(final(self).root) == root_of(res@) && (forall|j: int|
                    0 <= j < old(self).nodes@.len() && !(#[trigger] idxs(s).contains(j))
                        ==> final(self).nodes@[j] == old(self).nodes@[j]),
            },
    {
        let ghost nodes0 = self.nodes@;
        let ghost sl = *s->left;
        let ghost sr = *s->right;
        proof {
            lemma_in_range(s, nodes0, parent);
            assert(idxs(s).contains(i as int));
            assert(heights_ok(sl, nodes0) && heights_ok(sr, nodes0));
            if sl is Vertex {
                assert(idxs(sl).contains(sl->idx));
                assert(idxs(s).contains(sl->idx));
                assert(shape_wf(sl, nodes0, Some(i as int)));
                assert(nodes0[sl->idx].height == sheight(sl));
            }
            if sr is Vertex {
                assert(idxs(sr).contains(sr->idx));
                assert(idxs(s).contains(sr->idx));
                assert(shape_wf(sr, nodes0, Some(i as int)));
                assert(nodes0[sr->idx].height == sheight(sr));
            }
            assert(child_height(nodes0[i as int].left_child, nodes0) == sheight(sl));
            assert(child_height(nodes0[i as int].right_child, nodes0) == sheight(sr));
        }
        let nd = self.nodes[i];
        let bf = nd.get_balance_factor(&self.nodes);
        proof {
            assert(bf == sheight(sr) - sheight(sl));
        }
        // Right-heavy: the right child exists because its subtree is at
        // least two levels tall.
        proof {
            if sr is Nil {
                assert(sheight(sr) == 0);
                assert(false);
            }
        }
        let r_idx = match nd.right_child {
            Some(j) => j,
            None => unreached(),
        };
        let ghost b = *sr->left;
        let ghost c = *sr->right;
        proof {
            assert(r_idx as int == sr->idx);
            if b is Vertex {
                assert(idxs(b).contains(b->idx));
                assert(idxs(sr).contains(b->idx));
                assert(idxs(s).contains(b->idx));
            }
            if c is Vertex {
                assert(idxs(c).contains(c->idx));
                assert(idxs(sr).contains(c->idx));
                assert(idxs(s).contains(c->idx));
            }
        }
        let r_bf = self.nodes[r_idx].get_balance_factor(&self.nodes);
        proof {
            assert(heights_ok(b, nodes0) && heights_ok(c, nodes0));
            assert(sbalanced(b) && sbalanced(c));
            if b is Vertex {
                assert(nodes0[b->idx].height == sheight(b));
            }
            if c is Vertex {
                assert(nodes0[c->idx].height == sheight(c));
            }
            assert(child_height(nodes0[r_idx as int].left_child, nodes0) == sheight(b));
            assert(child_height(nodes0[r_idx as int].right_child, nodes0) == sheight(c));
            assert(r_bf == sheight(c) - sheight(b));
            assert(sheight(sr) == 1 + if sheight(b) > sheight(c) {
                sheight(b)
            } else {
                sheight(c)
            });
            assert(sheight(s) == 1 + if sheight(sl) > sheight(sr) {
                sheight(sl)
            } else {
                sheight(sr)
            });
        }
        if r_bf < 0 {
            // Right-left case: rotate the right child right, then this
            // node left.
            proof {
                if b is Nil {
                    assert(sheight(b) == 0);
                    assert(false);
                }
                assert(!idxs(sr).contains(i as int));
                assert(opt_i(nodes0[i as int].right_child) == Some(r_idx as int));
            }
            let res_r = self.rotate_right_at(r_idx, Ghost(sr), Ghost(Some(i as int)));
            let ghost nmid = self.nodes@;
            let ghost s2 = Shape::Vertex {
                idx: i as int,
                left: s->left,
                right: Box::new(res_r@),
            };
            let ghost bl = *b->left;
            let ghost br = *b->right;
            proof {
                let n1 = self.nodes@;
                // This node's slot was relinked to the rotated child's
                // new root; its left link cannot have pointed there.
                if sl is Vertex {
                    assert(!idxs(sr).contains(sl->idx));
                    assert(opt_i(nodes0[i as int].left_child) != Some(r_idx as int));
                }
                assert(n1[i as int] == (Node {
                    right_child: root_link(res_r@),
                    ..nodes0[i as int]
                }));
                assert(forall|j: int| #[trigger] idxs(sl).contains(j)
                    ==> idxs(s).contains(j) && !idxs(sr).contains(j) && j != i as int);
                assert(forall|j: int| #[trigger] idxs(sl).contains(j)
                    ==> 0 <= j < n1.len() && n1[j] == nodes0[j]);
                lemma_frame(sl, nodes0, n1, Some(i as int));
                assert(forall|j: int| #[trigger] idxs(res_r@).contains(j)
                    ==> idxs(sr).contains(j));
                assert forall|j: int|
                    0 <= j < n1.len() implies (#[trigger] n1[j].value) == nodes0[j].value by {
                    lemma_payloads_index(n1, j);
                    lemma_payloads_index(nodes0, j);
                    assert(payloads(n1)[j] == payloads(nodes0)[j]);
                }
                assert forall|j: int| #[trigger] idxs(res_r@).contains(j) implies n1[j].value
                    >= n1[i as int].value by {
                    assert(idxs(*s->right).contains(j));
                    assert(idxs(s).contains(j));
                    assert(0 <= j < nodes0.len());
                    assert(nodes0[j].value >= nodes0[i as int].value);
                    assert(n1[j].value == nodes0[j].value);
                    assert(n1[i as int].value == nodes0[i as int].value);
                }
                assert(shape_wf(res_r@, n1, Some(i as int)));
                assert(shape_wf(s2, n1, parent));
                assert(uniq(s2));
                assert(heights_ok(*s2->left, n1));
                assert(heights_ok(*(*s2->right)->left, n1));
                assert(heights_ok(*(*s2->right)->right, n1));
                assert(idxs(s2) =~= idxs(s));
                // Height bookkeeping for the balance argument below.
                assert(sheight(b) == 1 + if sheight(bl) > sheight(br) {
                    sheight(bl)
                } else {
                    sheight(br)
                });
                assert(-1 <= sheight(br) - sheight(bl) <= 1);
            }
            let res = self.rotate_left_at(i, Ghost(s2), Ghost(parent));
            proof {
                let ghost low = *res@->left;
                let ghost high = *res@->right;
                assert(low == Shape::Vertex { idx: i as int, left: s->left, right: b->left });
                assert(high == Shape::Vertex { idx: r_idx as int, left: b->right, right: (*s->right)->right });
                assert(sheight(low) == 1 + if sheight(sl) > sheight(bl) {
                    sheight(sl)
                } else {
                    sheight(bl)
                });
                assert(sheight(high) == 1 + if sheight(br) > sheight(c) {
                    sheight(br)
                } else {
                    sheight(c)
                });
                assert(sheight(res@) == 1 + if sheight(low) > sheight(high) {
                    sheight(low)
                } else {
                    sheight(high)
                });
                assert(sbalanced(low) && sbalanced(high));
                assert(sbalanced(res@));
                assert(sheight(res@) <= sheight(s) && sheight(res@) + 1 >= sheight(s));
                assert(idxs(res@) =~= idxs(s));
            }
            res
        } else {
            // Right-right case: a single left rotation.
            let res = self.rotate_left_at(i, Ghost(s), Ghost(parent));
            proof {
                let ghost low = *res@->left;
                assert(low == Shape::Vertex {
                    idx: i as int,
                    left: s->left,
                    right: (*s->right)->left,
                });
                assert(sheight(low) == 1 + if sheight(sl) > sheight(b) {
                    sheight(sl)
                } else {
                    sheight(b)
                });
                assert(sheight(res@) == 1 + if sheight(low) > sheight(c) {
                    sheight(low)
                } else {
                    sheight(c)
                });
                assert(sbalanced(low));
                assert(sbalanced(res@));
                assert(sheight(res@) <= sheight(s) && sheight(res@) + 1 >= sheight(s));
            }
            res
        }
    }

    /// The left-heavy half of `rebalance`: the balance factor is -2.
    #[verifier::rlimit(100)]
    fn rebalance_left(&mut self, i: usize, Ghost(s): Ghost<Shape>, Ghost(parent): Ghost<
        Option<int>,
    >) -> (res: Ghost<Shape>)
        requires
            s is Vertex,
            s->idx == i as int,
            shape_wf(s, old(self).nodes@, parent),
            uniq(s),
            heights_ok(s, old(self).nodes@),
            sbalanced(*s->left),
            sbalanced(*s->right),
            sheight(*s->right) - sheight(*s->left) == -2,
            match parent {
                Some(p) => 0 <= p < old(self).nodes@.len() && !idxs(s).contains(p)
                    && (opt_i(old(self).nodes@[p].left_child) == Some(i as int)
                    || opt_i(old(self).nodes@[p].right_child) == Some(i as int)),
                None => true,
            },
        ensures
            shape_wf(res@, final(self).nodes@, parent),
            uniq(res@),
            heights_ok(res@, final(self).nodes@),
            sbalanced(res@),
            idxs(res@) =~= idxs(s),
            res@ is Vertex,
            sheight(res@) <= sheight(s),
            sheight(res@) + 1 >= sheight(s),
            res@ == rebalanced(s),
            final(self).nodes@.len() == old(self).nodes@.len(),
            forall|j: int|
                0 <= j < old(self).nodes@.len() && !(#[trigger] idxs(s).contains(j))
                    && parent != Some(j) ==> final(self).nodes@[j] == old(self).nodes@[j],
            payloads(final(self).nodes@) == payloads(old(self).nodes@),
            match parent {
                Some(p) => final(self).nodes@[p] == relink(
                    old(self).nodes@[p],
                    Some(i as int),
                    root_link(res@),
                ) && final(self).root == old(self).root,
                None => opt_i(final(self).root) == root_of(res@) && (forall|j: int|
                    0 <= j < old(self).nodes@.len() && !(#[trigger] idxs(s).contains(j))
                        ==> final(self).nodes@[j] == old(self).nodes@[j]),
            },
    {
        let ghost nodes0 = self.nodes@;
        let ghost sl = *s->left;
        let ghost sr = *s->right;
        proof {
            lemma_in_range(s, nodes0, parent);
            assert(idxs(s).contains(i as int));
            assert(heights_ok(sl, nodes0) && heights_ok(sr, nodes0));
            if sl is Vertex {
                assert(idxs(sl).contains(sl->idx));
                assert(idxs(s).contains(sl->idx));
                assert(shape_wf(sl, nodes0, Some(i as int)));
                assert(nodes0[sl->idx].height == sheight(sl));
            }
            if sr is Vertex {
                assert(idxs(sr).contains(sr->idx));
                assert(idxs(s).contains(sr->idx));
                assert(shape_wf(sr, nodes0, Some(i as int)));
                assert(nodes0[sr->idx].height == sheight(sr));
            }
            assert(child_height(nodes0[i as int].left_child, nodes0) == sheight(sl));
            assert(child_height(nodes0[i as int].right_child, nodes0) == sheight(sr));
        }
        let nd = self.nodes[i];
        let bf = nd.get_balance_factor(&self.nodes);
        proof {
            assert(bf == sheight(sr) - sheight(sl));
        }
        // Left-heavy: the left child exists because its subtree is at
        // least two levels tall.
        proof {
            if sl is Nil {
                assert(sheight(sl) == 0);
                assert(false);
            }
        }
        let l_idx = match nd.left_child {
            Some(j) => j,
            None => unreached(),
        };
        let ghost a = *sl->left;
        let ghost b = *sl->right;
        proof {
            assert(l_idx as int == sl->idx);
            if a is Vertex {
                assert(idxs(a).contains(a->idx));
                assert(idxs(sl).contains(a->idx));
                assert(idxs(s).contains(a->idx));
            }
            if b is Vertex {
                assert(idxs(b).contains(b->idx));
                assert(idxs(sl).contains(b->idx));
                assert(idxs(s).contains(b->idx));
            }
        }
        let l_bf = self.nodes[l_idx].get_balance_factor(&self.nodes);
        proof {
            assert(heights_ok(a, nodes0) && heights_ok(b, nodes0));
            assert(sbalanced(a) && sbalanced(b));
            if a is Vertex {
                assert(nodes0[a->idx].height == sheight(a));
            }
            if b is Vertex {
                assert(nodes0[b->idx].height == sheight(b));
            }
            assert(child_height(nodes0[l_idx as int].left_child, nodes0) == sheight(a));
            assert(child_height(nodes0[l_idx as int].right_child, nodes0) == sheight(b));
            assert(l_bf == sheight(b) - sheight(a));
            assert(sheight(sl) == 1 + if sheight(a) > sheight(b) {
                sheight(a)
            } else {
                sheight(b)
            });
            assert(sheight(s) == 1 + if sheight(sl) > sheight(sr) {
                sheight(sl)
            } else {
                sheight(sr)
            });
        }
        if l_bf > 0 {
            // Left-right case: rotate the left child left, then this
            // node right.
            proof {
                if b is Nil {
                    assert(sheight(b) == 0);
                    assert(false);
                }
                assert(!idxs(sl).contains(i as int));
                assert(opt_i(nodes0[i as int].left_child) == Some(l_idx as int));
            }
            let res_l = self.rotate_left_at(l_idx, Ghost(sl), Ghost(Some(i as int)));
            let ghost nmid = self.nodes@;
            let ghost s2 = Shape::Vertex {
                idx: i as int,
                left: Box::new(res_l@),
                right: s->right,
            };
            let ghost bl = *b->left;
            let ghost br = *b->right;
            proof {
                let n1 = self.nodes@;
                assert(n1[i as int] == (Node {
                    left_child: root_link(res_l@),
                    ..nodes0[i as int]
                }));
                assert(forall|j: int| #[trigger] idxs(sr).contains(j)
                    ==> idxs(s).contains(j) && !idxs(sl).contains(j) && j != i as int);
                assert(forall|j: int| #[trigger] idxs(sr).contains(j)
                    ==> 0 <= j < n1.len() && n1[j] == nodes0[j]);
                lemma_frame(sr, nodes0, n1, Some(i as int));
                assert(forall|j: int| #[trigger] idxs(res_l@).contains(j)
                    ==> idxs(sl).contains(j));
                assert forall|j: int|
                    0 <= j < n1.len() implies (#[trigger] n1[j].value) == nodes0[j].value by {
                    lemma_payloads_index(n1, j);
                    lemma_payloads_index(nodes0, j);
                    assert(payloads(n1)[j] == payloads(nodes0)[j]);
                }
                assert forall|j: int| #[trigger] idxs(res_l@).contains(j) implies n1[j].value
                    <= n1[i as int].value by {
                    assert(idxs(*s->left).contains(j));
                    assert(idxs(s).contains(j));
                    assert(0 <= j < nodes0.len());
                    assert(nodes0[j].value <= nodes0[i as int].value);
                    assert(n1[j].value == nodes0[j].value);
                    assert(n1[i as int].value == nodes0[i as int].value);
                }
                assert(shape_wf(res_l@, n1, Some(i as int)));
                assert(shape_wf(s2, n1, parent));
                assert(uniq(s2));
                assert(heights_ok(*s2->right, n1));
                assert(heights_ok(*(*s2->left)->left, n1));
                assert(heights_ok(*(*s2->left)->right, n1));
                assert(idxs(s2) =~= idxs(s));
                // Height bookkeeping for the balance argument below.
                assert(sheight(b) == 1 + if sheight(bl) > sheight(br) {
                    sheight(bl)
                } else {
                    sheight(br)
                });
                assert(-1 <= sheight(br) - sheight(bl) <= 1);
            }
            let res = self.rotate_right_at(i, Ghost(s2), Ghost(parent));
            proof {
                let ghost low = *res@->left;
                let ghost high = *res@->right;
                assert(low == Shape::Vertex { idx: l_idx as int, left: sl->left, right: b->left });
                assert(high == Shape::Vertex { idx: i as int, left: b->right, right: s->right });
                assert(sheight(low) == 1 + if sheight(a) > sheight(bl) {
                    sheight(a)
                } else {
                    sheight(bl)
                });
                assert(sheight(high) == 1 + if sheight(br) > sheight(sr) {
                    sheight(br)
                } else {
                    sheight(sr)
                });
                assert(sheight(res@) == 1 + if sheight(low) > sheight(high) {
                    sheight(low)
                } else {
                    sheight(high)
                });
                assert(sbalanced(low) && sbalanced(high));
                assert(sbalanced(res@));
                assert(sheight(res@) <= sheight(s) && sheight(res@) + 1 >= sheight(s));
                assert(idxs(res@) =~= idxs(s));
            }
            res
        } else {
            // Left-left case: a single right rotation.
            let res = self.rotate_right_at(i, Ghost(s), Ghost(parent));
            proof {
                let ghost high = *res@->right;
                assert(high == Shape::Vertex {
                    idx: i as int,
                    left: (*s->left)->right,
                    right: s->right,
                });
                assert(sheight(high) == 1 + if sheight(b) > sheight(sr) {
                    sheight(b)
                } else {
                    sheight(sr)
                });
                assert(sheight(res@) == 1 + if sheight(a) > sheight(high) {
                    sheight(a)
                } else {
                    sheight(high)
                });
                assert(sbalanced(high));
                assert(sbalanced(res@));
                assert(sheight(res@) <= sheight(s) && sheight(res@) + 1 >= sheight(s));
            }
            res
        }
    }

    /// One step of the upward rebalancing walk: recompute this node's
    /// cached height from its children's caches, then rebalance it if its
    /// balance factor has left [-1, 1].  Both subtrees are assumed already
    /// restored; this node's cache may be stale.
    #[verifier::rlimit(100)]
    fn update_balance(&mut self, i: usize, Ghost(s): Ghost<Shape>, Ghost(parent): Ghost<
        Option<int>,
    >) -> (res: Ghost<Shape>)
        requires
            s is Vertex,
            s->idx == i as int,
            shape_wf(s, old(self).nodes@, parent),
            uniq(s),
            heights_ok(*s->left, old(self).nodes@),
            heights_ok(*s->right, old(self).nodes@),
            sbalanced(*s->left),
            sbalanced(*s->right),
            -2 <= sheight(*s->right) - sheight(*s->left) <= 2,
            match parent {
                Some(p) => 0 <= p < old(self).nodes@.len() && !idxs(s).contains(p)
                    && (opt_i(old(self).nodes@[p].left_child) == Some(i as int)
                    || opt_i(old(self).nodes@[p].right_child) == Some(i as int)),
                None => opt_i(old(self).root) == Some(i as int),
            },
        ensures
            res@ is Vertex,
            shape_wf(res@, final(self).nodes@, parent),
            uniq(res@),
            heights_ok(res@, final(self).nodes@),
            sbalanced(res@),
            idxs(res@) =~= idxs(s),
            sheight(res@) <= 1 + (if sheight(*s->left) > sheight(*s->right) {
                sheight(*s->left)
            } else {
                sheight(*s->right)
            }),
            sheight(res@) + 1 >= 1 + (if sheight(*s->left) > sheight(*s->right) {
                sheight(*s->left)
            } else {
                sheight(*s->right)
            }),
            (-1 <= sheight(*s->right) - sheight(*s->left) <= 1) ==> res@ == s && sheight(res@)
                == sheight(s),
            res@ == rebalanced(s),
            final(self).nodes@.len() == old(self).nodes@.len(),
            forall|j: int|
                0 <= j < old(self).nodes@.len() && !(#[trigger] idxs(s).contains(j))
                    && parent != Some(j) ==> final(self).nodes@[j] == old(self).nodes@[j],
            payloads(final(self).nodes@) == payloads(old(self).nodes@),
            match parent {
                Some(p) => final(self).nodes@[p] == relink(
                    old(self).nodes@[p],
                    Some(i as int),
                    root_link(res@),
                ) && final(self).root == old(self).root,
                None => opt_i(final(self).root) == root_of(res@) && (forall|j: int|
                    0 <= j < old(self).nodes@.len() && !(#[trigger] idxs(s).contains(j))
                        ==> final(self).nodes@[j] == old(self).nodes@[j]),
            },
    {
        let ghost nodes0 = self.nodes@;
        let ghost sl = *s->left;
        let ghost sr = *s->right;
        let n_len = self.nodes.len();
        proof {
            lemma_in_range(s, nodes0, parent);
            lemma_height_le_len(s, nodes0, parent);
            assert(uniq(sl) && uniq(sr));
            lemma_size(sl);
            lemma_size(sr);
            assert(ssize(s) == 1 + ssize(sl) + ssize(sr));
            assert(idxs(s).contains(i as int));
            if sl is Vertex {
                assert(idxs(sl).contains(sl->idx));
                assert(idxs(s).contains(sl->idx));
                assert(nodes0[sl->idx].height == sheight(sl));
            }
            if sr is Vertex {
                assert(idxs(sr).contains(sr->idx));
                assert(idxs(s).contains(sr->idx));
                assert(nodes0[sr->idx].height == sheight(sr));
            }
            assert(child_height(nodes0[i as int].left_child, nodes0) == sheight(sl));
            assert(child_height(nodes0[i as int].right_child, nodes0) == sheight(sr));
            assert(sheight(sl) <= ssize(sl) && sheight(sr) <= ssize(sr));
            assert(ssize(s) <= n_len);
        }
        let nd = self.nodes[i];
        let lh = nd.get_left_child_height(&self.nodes);
        let rh = nd.get_right_child_height(&self.nodes);
        let mut me = self.nodes[i];
        me.set_height(lh, rh);
        self.nodes[i] = me;
        proof {
            let n1 = self.nodes@;
            assert(n1[i as int] == (Node {
                height: ((if lh > rh { lh } else { rh }) + 1) as usize,
                ..nodes0[i as int]
            }));
            assert(forall|j: int| #[trigger] idxs(sl).contains(j)
                ==> idxs(s).contains(j) && j != i as int);
            assert(forall|j: int| #[trigger] idxs(sr).contains(j)
                ==> idxs(s).contains(j) && j != i as int);
            assert(forall|j: int| #[trigger] idxs(sl).contains(j)
                ==> 0 <= j < n1.len() && n1[j] == nodes0[j]);
            assert(forall|j: int| #[trigger] idxs(sr).contains(j)
                ==> 0 <= j < n1.len() && n1[j] == nodes0[j]);
            lemma_frame(sl, nodes0, n1, Some(i as int));
            lemma_frame(sr, nodes0, n1, Some(i as int));
            assert(forall|j: int| 0 <= j < n1.len()
                ==> (#[trigger] n1[j].value) == nodes0[j].value
                    && n1[j].index == nodes0[j].index);
            assert(shape_wf(s, n1, parent));
            assert(sheight(s) == 1 + if sheight(sl) > sheight(sr) {
                sheight(sl)
            } else {
                sheight(sr)
            });
            assert(n1[i as int].height == sheight(s));
            assert(heights_ok(s, n1));
            assert(child_height(n1[i as int].left_child, n1) == sheight(sl));
            assert(child_height(n1[i as int].right_child, n1) == sheight(sr));
            lemma_payloads_eq(nodes0, n1);
        }
        let bf = self.nodes[i].get_balance_factor(&self.nodes);
        proof {
            assert(bf == sheight(sr) - sheight(sl));
        }
        if bf < -1 || bf > 1 {
            let ghost nmid = self.nodes@;
            let res = self.rebalance(i, Ghost(s), Ghost(parent));
            proof {
                assert(sheight(res@) <= sheight(s) && sheight(res@) + 1 >= sheight(s));
                match parent {
                    Some(p) => {
                        assert(nmid[p] == nodes0[p]);
                    },
                    None => {},
                }
            }
            res
        } else {
            proof {
                assert(sbalanced(s));
                assert(rebalanced(s) == s);
                match parent {
                    Some(p) => {
                        assert(self.nodes@[p] == nodes0[p]);
                        assert(root_link(s) == Some(i));
                        assert(relink(nodes0[p], Some(i as int), Some(i)) == nodes0[p]);
                    },
                    None => {},
                }
            }
            Ghost(s)
        }
    }


    /// Attach `node` as the left child of `i`, which has no left child,
    /// then refresh `i`'s height: the subtree gains exactly the new leaf.
    #[verifier::rlimit(100)]
    fn insert_attach_left(&mut self, i: usize, Ghost(s): Ghost<Shape>, Ghost(parent): Ghost<
        Option<int>,
    >, node: Node) -> (res: Ghost<Shape>)
        requires
            node.value < old(self).nodes@[i as int].value,
            old(self).nodes@[i as int].left_child is None,
            s is Vertex,
            s->idx == i as int,
            shape_wf(s, old(self).nodes@, parent),
            uniq(s),
            heights_ok(s, old(self).nodes@),
            sbalanced(s),
            node.parent is None,
            node.left_child is None,
            node.right_child is None,
            node.height == 1,
            match parent {
                Some(p) => 0 <= p < old(self).nodes@.len() && !idxs(s).contains(p)
                    && (opt_i(old(self).nodes@[p].left_child) == Some(i as int)
                    || opt_i(old(self).nodes@[p].right_child) == Some(i as int)),
                None => opt_i(old(self).root) == Some(i as int),
            },
        ensures
            res@ is Vertex,
            shape_wf(res@, final(self).nodes@, parent),
            uniq(res@),
            heights_ok(res@, final(self).nodes@),
            sbalanced(res@),
            idxs(res@) =~= idxs(s).insert(old(self).nodes@.len() as int),
            final(self).nodes@.len() == old(self).nodes@.len() + 1,
            sheight(res@) >= sheight(s),
            sheight(res@) <= sheight(s) + 1,
            res@ == inserted(
                s,
                keys(old(self).nodes@),
                old(self).nodes@.len() as int,
                node.value as int,
            ),
            forall|j: int|
                0 <= j < old(self).nodes@.len() && !(#[trigger] idxs(s).contains(j))
                    && parent != Some(j) ==> final(self).nodes@[j] == old(self).nodes@[j],
            payloads(final(self).nodes@) == payloads(old(self).nodes@).push(
                (node.index as int, node.value as int),
            ),
            match parent {
                Some(p) => final(self).nodes@[p] == relink(
                    old(self).nodes@[p],
                    Some(i as int),
                    root_link(res@),
                ) && final(self).root == old(self).root,
                None => opt_i(final(self).root) == root_of(res@) && (forall|j: int|
                    0 <= j < old(self).nodes@.len() && !(#[trigger] idxs(s).contains(j))
                        ==> final(self).nodes@[j] == old(self).nodes@[j]),
            },
    {
        let ghost nodes0 = self.nodes@;
        let ghost sl = *s->left;
        let ghost sr = *s->right;
        let n = self.nodes.len();
        proof {
            lemma_in_range(s, nodes0, parent);
            assert(idxs(s).contains(i as int));
            assert(!idxs(s).contains(n as int));
            assert(uniq(sl) && uniq(sr));
            assert(heights_ok(sl, nodes0) && heights_ok(sr, nodes0));
            assert(sbalanced(sl) && sbalanced(sr));
            if sl is Vertex {
                assert(idxs(sl).contains(sl->idx));
                assert(idxs(s).contains(sl->idx));
                assert(nodes0[sl->idx].height == sheight(sl));
                assert(shape_wf(sl, nodes0, Some(i as int)));
            }
            if sr is Vertex {
                assert(idxs(sr).contains(sr->idx));
                assert(idxs(s).contains(sr->idx));
                assert(nodes0[sr->idx].height == sheight(sr));
                assert(shape_wf(sr, nodes0, Some(i as int)));
            }
            assert(forall|j: int| #[trigger] idxs(sl).contains(j)
                ==> idxs(s).contains(j) && j != i as int);
            assert(forall|j: int| #[trigger] idxs(sr).contains(j)
                ==> idxs(s).contains(j) && j != i as int);
            assert(sheight(s) == 1 + if sheight(sl) > sheight(sr) {
                sheight(sl)
            } else {
                sheight(sr)
            });
        }
        let mut child = node;
        child.parent = Some(i);
        self.nodes.push(child);
        let mut me = self.nodes[i];
        me.left_child = Some(n);
        self.nodes[i] = me;
        let ghost nmid = self.nodes@;
        let ghost leaf = Shape::Vertex {
            idx: n as int,
            left: Box::new(Shape::Nil),
            right: Box::new(Shape::Nil),
        };
        let ghost s1 = Shape::Vertex {
            idx: i as int,
            left: Box::new(leaf),
            right: s->right,
        };
        proof {
            let n1 = self.nodes@;
            assert(sl is Nil);
            assert(n1[i as int] == (Node { left_child: Some(n), ..nodes0[i as int] }));
            assert(n1[n as int] == (Node { parent: Some(i), ..node }));
            assert(forall|j: int| #[trigger] idxs(sr).contains(j)
                ==> 0 <= j < n1.len() && n1[j] == nodes0[j]);
            lemma_frame(sr, nodes0, n1, Some(i as int));
            assert(idxs(Shape::Nil) =~= Set::<int>::empty());
            assert(idxs(leaf) =~= Set::<int>::empty().insert(n as int));
            assert(shape_wf(Shape::Nil, n1, Some(n as int)));
            assert(heights_ok(Shape::Nil, n1));
            assert(root_of(Shape::Nil) == None::<int>);
            assert(sheight(Shape::Nil) == 0);
            assert(opt_i(n1[n as int].parent) == Some(i as int));
            assert(n1[n as int].left_child is None && n1[n as int].right_child is None);
            assert(shape_wf(leaf, n1, Some(i as int)));
            assert(heights_ok(leaf, n1));
            assert(sbalanced(leaf) && uniq(leaf));
            assert(sheight(leaf) == 1);
            assert(forall|j: int| #[trigger] idxs(leaf).contains(j)
                ==> n1[j].value <= n1[i as int].value);
            assert(shape_wf(s1, n1, parent));
            assert(uniq(s1));
            assert(sheight(sr) <= 1);
            assert(idxs(s1) =~= idxs(s).insert(n as int));
            assert forall|j: int| 0 <= j < n1.len() implies #[trigger] payloads(n1)[j]
                == payloads(nodes0).push((node.index as int, node.value as int))[j] by {
                lemma_payloads_index(n1, j);
                if j < n as int {
                    lemma_payloads_index(nodes0, j);
                }
            }
            assert(payloads(n1) =~= payloads(nodes0).push(
                (node.index as int, node.value as int),
            ));
        }
        let res = self.update_balance(i, Ghost(s1), Ghost(parent));
        proof {
            assert(res@ == s1);
            assert(sheight(res@) >= sheight(s) && sheight(res@) <= sheight(s) + 1);
            assert(idxs(res@) =~= idxs(s).insert(n as int));
            // The attach matches one unfolding of the shape-level insertion.
            assert(keys(nodes0)[i as int] == nodes0[i as int].value as int);
            assert((node.value as int) < keys(nodes0)[i as int]);
            assert(inserted(sl, keys(nodes0), n as int, node.value as int) == leaf);
            assert(inserted(s, keys(nodes0), n as int, node.value as int) == rebalanced(s1));
            assert forall|j: int|
                0 <= j < nodes0.len() && !(#[trigger] idxs(s).contains(j)) && parent
                != Some(j) implies self.nodes@[j] == nodes0[j] by {
                assert(!idxs(sl).contains(j) && !idxs(sr).contains(j));
                assert(j != i as int && j != n as int);
                assert(!idxs(s1).contains(j));
                assert(nmid[j] == nodes0[j]);
                assert(self.nodes@[j] == nmid[j]);
            }
            match parent {
                Some(p) => {
                    assert(nmid[p] == nodes0[p]);
                },
                None => {
                    assert forall|j: int|
                        0 <= j < nodes0.len() && !(#[trigger] idxs(s).contains(j))
                        implies self.nodes@[j] == nodes0[j] by {
                        assert(!idxs(s1).contains(j));
                        assert(nmid[j] == nodes0[j]);
                        assert(self.nodes@[j] == nmid[j]);
                    }
                },
            }
        }
        res
    }

    /// Attach `node` as the right child of `i`, which has no right child,
    /// then refresh `i`'s height: the subtree gains exactly the new leaf.
    #[verifier::rlimit(100)]
    fn insert_attach_right(&mut self, i: usize, Ghost(s): Ghost<Shape>, Ghost(parent): Ghost<
        Option<int>,
    >, node: Node) -> (res: Ghost<Shape>)
        requires
            node.value >= old(self).nodes@[i as int].value,
            old(self).nodes@[i as int].right_child is None,
            s is Vertex,
            s->idx == i as int,
            shape_wf(s, old(self).nodes@, parent),
            uniq(s),
            heights_ok(s, old(self).nodes@),
            sbalanced(s),
            node.parent is None,
            node.left_child is None,
            node.right_child is None,
            node.height == 1,
            match parent {
                Some(p) => 0 <= p < old(self).nodes@.len() && !idxs(s).contains(p)
                    && (opt_i(old(self).nodes@[p].left_child) == Some(i as int)
                    || opt_i(old(self).nodes@[p].right_child) == Some(i as int)),
                None => opt_i(old(self).root) == Some(i as int),
            },
        ensures
            res@ is Vertex,
            shape_wf(res@, final(self).nodes@, parent),
            uniq(res@),
            heights_ok(res@, final(self).nodes@),
            sbalanced(res@),
            idxs(res@) =~= idxs(s).insert(old(self).nodes@.len() as int),
            final(self).nodes@.len() == old(self).nodes@.len() + 1,
            sheight(res@) >= sheight(s),
            sheight(res@) <= sheight(s) + 1,
            res@ == inserted(
                s,
                keys(old(self).nodes@),
                old(self).nodes@.len() as int,
                node.value as int,
            ),
            forall|j: int|
                0 <= j < old(self).nodes@.len() && !(#[trigger] idxs(s).contains(j))
                    && parent != Some(j) ==> final(self).nodes@[j] == old(self).nodes@[j],
            payloads(final(self).nodes@) == payloads(old(self).nodes@).push(
                (node.index as int, node.value as int),
            ),
            match parent {
                Some(p) => final(self).nodes@[p] == relink(
                    old(self).nodes@[p],
                    Some(i as int),
                    root_link(res@),
                ) && final(self).root == old(self).root,
                None => opt_i(final(self).root) == root_of(res@) && (forall|j: int|
                    0 <= j < old(self).nodes@.len() && !(#[trigger] idxs(s).contains(j))
                        ==> final(self).nodes@[j] == old(self).nodes@[j]),
            },
    {
        let ghost nodes0 = self.nodes@;
        let ghost sl = *s->left;
        let ghost sr = *s->right;
        let n = self.nodes.len();
        proof {
            lemma_in_range(s, nodes0, parent);
            assert(idxs(s).contains(i as int));
            assert(!idxs(s).contains(n as int));
            assert(uniq(sl) && uniq(sr));
            assert(heights_ok(sl, nodes0) && heights_ok(sr, nodes0));
            assert(sbalanced(sl) && sbalanced(sr));
            if sl is Vertex {
                assert(idxs(sl).contains(sl->idx));
                assert(idxs(s).contains(sl->idx));
                assert(nodes0[sl->idx].height == sheight(sl));
                assert(shape_wf(sl, nodes0, Some(i as int)));
            }
            if sr is Vertex {
                assert(idxs(sr).contains(sr->idx));
                assert(idxs(s).contains(sr->idx));
                assert(nodes0[sr->idx].height == sheight(sr));
                assert(shape_wf(sr, nodes0, Some(i as int)));
            }
            assert(forall|j: int| #[trigger] idxs(sl).contains(j)
                ==> idxs(s).contains(j) && j != i as int);
            assert(forall|j: int| #[trigger] idxs(sr).contains(j)
                ==> idxs(s).contains(j) && j != i as int);
            assert(sheight(s) == 1 + if sheight(sl) > sheight(sr) {
                sheight(sl)
            } else {
                sheight(sr)
            });
        }
        let mut child = node;
        child.parent = Some(i);
        self.nodes.push(child);
        let mut me = self.nodes[i];
        me.right_child = Some(n);
        self.nodes[i] = me;
        let ghost nmid = self.nodes@;
        let ghost leaf = Shape::Vertex {
            idx: n as int,
            left: Box::new(Shape::Nil),
            right: Box::new(Shape::Nil),
        };
        let ghost s1 = Shape::Vertex {
            idx: i as int,
            left: s->left,
            right: Box::new(leaf),
        };
        proof {
            let n1 = self.nodes@;
            assert(sr is Nil);
            assert(n1[i as int] == (Node { right_child: Some(n), ..nodes0[i as int] }));
            assert(n1[n as int] == (Node { parent: Some(i), ..node }));
            assert(forall|j: int| #[trigger] idxs(sl).contains(j)
                ==> 0 <= j < n1.len() && n1[j] == nodes0[j]);
            lemma_frame(sl, nodes0, n1, Some(i as int));
            assert(idxs(Shape::Nil) =~= Set::<int>::empty());
            assert(idxs(leaf) =~= Set::<int>::empty().insert(n as int));
            assert(shape_wf(Shape::Nil, n1, Some(n as int)));
            assert(heights_ok(Shape::Nil, n1));
            assert(root_of(Shape::Nil) == None::<int>);
            assert(sheight(Shape::Nil) == 0);
            assert(opt_i(n1[n as int].parent) == Some(i as int));
            assert(n1[n as int].left_child is None && n1[n as int].right_child is None);
            assert(shape_wf(leaf, n1, Some(i as int)));
            assert(heights_ok(leaf, n1));
            assert(sbalanced(leaf) && uniq(leaf));
            assert(sheight(leaf) == 1);
            assert(forall|j: int| #[trigger] idxs(leaf).contains(j)
                ==> n1[j].value >= n1[i as int].value);
            assert(shape_wf(s1, n1, parent));
            assert(uniq(s1));
            assert(sheight(sl) <= 1);
            assert(idxs(s1) =~= idxs(s).insert(n as int));
            assert forall|j: int| 0 <= j < n1.len() implies #[trigger] payloads(n1)[j]
                == payloads(nodes0).push((node.index as int, node.value as int))[j] by {
                lemma_payloads_index(n1, j);
                if j < n as int {
                    lemma_payloads_index(nodes0, j);
                }
            }
            assert(payloads(n1) =~= payloads(nodes0).push(
                (node.index as int, node.value as int),
            ));
        }
        let res = self.update_balance(i, Ghost(s1), Ghost(parent));
        proof {
            assert(res@ == s1);
            assert(sheight(res@) >= sheight(s) && sheight(res@) <= sheight(s) + 1);
            assert(idxs(res@) =~= idxs(s).insert(n as int));
            // The attach matches one unfolding of the shape-level insertion.
            assert(keys(nodes0)[i as int] == nodes0[i as int].value as int);
            assert(!((node.value as int) < keys(nodes0)[i as int]));
            assert(inserted(sr, keys(nodes0), n as int, node.value as int) == leaf);
            assert(inserted(s, keys(nodes0), n as int, node.value as int) == rebalanced(s1));
            assert forall|j: int|
                0 <= j < nodes0.len() && !(#[trigger] idxs(s).contains(j)) && parent
                != Some(j) implies self.nodes@[j] == nodes0[j] by {
                assert(!idxs(sl).contains(j) && !idxs(sr).contains(j));
                assert(j != i as int && j != n as int);
                assert(!idxs(s1).contains(j));
                assert(nmid[j] == nodes0[j]);
                assert(self.nodes@[j] == nmid[j]);
            }
            match parent {
                Some(p) => {
                    assert(nmid[p] == nodes0[p]);
                },
                None => {
                    assert forall|j: int|
                        0 <= j < nodes0.len() && !(#[trigger] idxs(s).contains(j))
                        implies self.nodes@[j] == nodes0[j] by {
                        assert(!idxs(s1).contains(j));
                        assert(nmid[j] == nodes0[j]);
                        assert(self.nodes@[j] == nmid[j]);
                    }
                },
            }
        }
        res
    }

    /// Descend from node `i` toward the insertion point for `node` (left on
    /// a strictly smaller key, right otherwise), attach the new node at the
    /// empty child slot that ends the descent, and on the way back up
    /// recompute each ancestor's height and rebalance it where needed.
    #[verifier::rlimit(100)]
    fn insert_at(&mut self, i: usize, Ghost(s): Ghost<Shape>, Ghost(parent): Ghost<Option<int>>,
        node: Node) -> (res: Ghost<Shape>)
        requires
            s is Vertex,
            s->idx == i as int,
            shape_wf(s, old(self).nodes@, parent),
            uniq(s),
            heights_ok(s, old(self).nodes@),
            sbalanced(s),
            node.parent is None,
            node.left_child is None,
            node.right_child is None,
            node.height == 1,
            match parent {
                Some(p) => 0 <= p < old(self).nodes@.len() && !idxs(s).contains(p)
                    && (opt_i(old(self).nodes@[p].left_child) == Some(i as int)
                    || opt_i(old(self).nodes@[p].right_child) == Some(i as int)),
                None => opt_i(old(self).root) == Some(i as int),
            },
        ensures
            res@ is Vertex,
            shape_wf(res@, final(self).nodes@, parent),
            uniq(res@),
            heights_ok(res@, final(self).nodes@),
            sbalanced(res@),
            idxs(res@) =~= idxs(s).insert(old(self).nodes@.len() as int),
            final(self).nodes@.len() == old(self).nodes@.len() + 1,
            sheight(res@) >= sheight(s),
            sheight(res@) <= sheight(s) + 1,
            res@ == inserted(
                s,
                keys(old(self).nodes@),
                old(self).nodes@.len() as int,
                node.value as int,
            ),
            forall|j: int|
                0 <= j < old(self).nodes@.len() && !(#[trigger] idxs(s).contains(j))
                    && parent != Some(j) ==> final(self).nodes@[j] == old(self).nodes@[j],
            payloads(final(self).nodes@) == payloads(old(self).nodes@).push(
                (node.index as int, node.value as int),
            ),
            match parent {
                Some(p) => final(self).nodes@[p] == relink(
                    old(self).nodes@[p],
                    Some(i as int),
                    root_link(res@),
                ) && final(self).root == old(self).root,
                None => opt_i(final(self).root) == root_of(res@) && (forall|j: int|
                    0 <= j < old(self).nodes@.len() && !(#[trigger] idxs(s).contains(j))
                        ==> final(self).nodes@[j] == old(self).nodes@[j]),
            },
        decreases s,
    {
        let ghost nodes0 = self.nodes@;
        let ghost sl = *s->left;
        let ghost sr = *s->right;
        let n = self.nodes.len();
        proof {
            lemma_in_range(s, nodes0, parent);
            assert(idxs(s).contains(i as int));
            assert(!idxs(s).contains(n as int));
            assert(uniq(sl) && uniq(sr));
            assert(heights_ok(sl, nodes0) && heights_ok(sr, nodes0));
            assert(sbalanced(sl) && sbalanced(sr));
            if sl is Vertex {
                assert(idxs(sl).contains(sl->idx));
                assert(idxs(s).contains(sl->idx));
                assert(nodes0[sl->idx].height == sheight(sl));
                assert(shape_wf(sl, nodes0, Some(i as int)));
            }
            if sr is Vertex {
                assert(idxs(sr).contains(sr->idx));
                assert(idxs(s).contains(sr->idx));
                assert(nodes0[sr->idx].height == sheight(sr));
                assert(shape_wf(sr, nodes0, Some(i as int)));
            }
            assert(forall|j: int| #[trigger] idxs(sl).contains(j)
                ==> idxs(s).contains(j) && j != i as int);
            assert(forall|j: int| #[trigger] idxs(sr).contains(j)
                ==> idxs(s).contains(j) && j != i as int);
            assert(sheight(s) == 1 + if sheight(sl) > sheight(sr) {
                sheight(sl)
            } else {
                sheight(sr)
            });
        }
        let nd = self.nodes[i];
        if node.value < nd.value {
            match nd.left_child {
                None => {
                    self.insert_attach_left(i, Ghost(s), Ghost(parent), node)
                },
                Some(l) => {
                    proof {
                        assert(sl is Vertex && sl->idx == l as int);
                        assert(opt_i(nodes0[i as int].left_child) == Some(l as int));
                    }
                    let res_l = self.insert_at(l, Ghost(sl), Ghost(Some(i as int)), node);
                    let ghost nmid = self.nodes@;
                    let ghost s1 = Shape::Vertex {
                        idx: i as int,
                        left: Box::new(res_l@),
                        right: s->right,
                    };
                    proof {
                        let n1 = self.nodes@;
                        lemma_in_range(res_l@, n1, Some(i as int));
                        assert(n1[i as int] == relink(
                            nodes0[i as int],
                            Some(l as int),
                            root_link(res_l@),
                        ));
                        assert(n1[i as int] == (Node {
                            left_child: root_link(res_l@),
                            ..nodes0[i as int]
                        }));
                        assert(res_l@ is Vertex);
                        assert(idxs(res_l@).contains(res_l@->idx));
                        assert(opt_i(root_link(res_l@)) == root_of(res_l@));
                        assert(forall|j: int| #[trigger] idxs(sr).contains(j)
                            ==> 0 <= j < n1.len() && n1[j] == nodes0[j]);
                        lemma_frame(sr, nodes0, n1, Some(i as int));
                        assert(forall|j: int| #[trigger] idxs(res_l@).contains(j)
                            ==> idxs(sl).contains(j) || j == n as int);
                        assert forall|j: int| #[trigger] idxs(res_l@).contains(j)
                            implies n1[j].value <= n1[i as int].value by {
                            if idxs(sl).contains(j) {
                                assert(idxs(*s->left).contains(j));
                                assert(0 <= j < nodes0.len());
                                assert(nodes0[j].value <= nodes0[i as int].value);
                                lemma_payloads_index(n1, j);
                                lemma_payloads_index(nodes0, j);
                                assert(payloads(n1)[j] == payloads(nodes0)[j]);
                                assert(n1[j].value == nodes0[j].value);
                            } else {
                                assert(j == n as int);
                                lemma_payloads_index(n1, j);
                                assert(payloads(n1)[j] == (node.index as int,
                                    node.value as int));
                                assert(n1[j].value == node.value);
                            }
                            lemma_payloads_index(n1, i as int);
                            lemma_payloads_index(nodes0, i as int);
                            assert(payloads(n1)[i as int] == payloads(nodes0)[i as int]);
                            assert(n1[i as int].value == nodes0[i as int].value);
                        }
                        assert(shape_wf(s1, n1, parent));
                        assert(uniq(s1));
                        assert(idxs(s1) =~= idxs(s).insert(n as int));
                        assert(-2 <= sheight(sr) - sheight(res_l@) <= 2);
                    }
                    let res = self.update_balance(i, Ghost(s1), Ghost(parent));
                    proof {
                        assert(sheight(res@) >= sheight(s) && sheight(res@) <= sheight(s) + 1);
                        assert(idxs(res@) =~= idxs(s).insert(n as int));
                        assert forall|j: int|
                            0 <= j < nodes0.len() && !(#[trigger] idxs(s).contains(j)) && parent
                            != Some(j) implies self.nodes@[j] == nodes0[j] by {
                            assert(!idxs(sl).contains(j) && !idxs(sr).contains(j));
                            assert(j != i as int && j != n as int);
                            assert(!idxs(s1).contains(j));
                            assert(nmid[j] == nodes0[j]);
                            assert(self.nodes@[j] == nmid[j]);
                        }
                        match parent {
                            Some(p) => {
                                assert(nmid[p] == nodes0[p]);
                            },
                            None => {
                                assert forall|j: int|
                                    0 <= j < nodes0.len() && !(#[trigger] idxs(s).contains(j))
                                    implies self.nodes@[j] == nodes0[j] by {
                                    assert(!idxs(s1).contains(j));
                                    assert(nmid[j] == nodes0[j]);
                                    assert(self.nodes@[j] == nmid[j]);
                                }
                            },
                        }
                    }
                    res
                },
            }
        } else {
            match nd.right_child {
                None => {
                    self.insert_attach_right(i, Ghost(s), Ghost(parent), node)
                },
                Some(r) => {
                    proof {
                        assert(sr is Vertex && sr->idx == r as int);
                        assert(opt_i(nodes0[i as int].right_child) == Some(r as int));
                        assert(!idxs(sl).contains(r as int));
                        assert(opt_i(nodes0[i as int].left_child) != Some(r as int));
                    }
                    let res_r = self.insert_at(r, Ghost(sr), Ghost(Some(i as int)), node);
                    let ghost nmid = self.nodes@;
                    let ghost s1 = Shape::Vertex {
                        idx: i as int,
                        left: s->left,
                        right: Box::new(res_r@),
                    };
                    proof {
                        let n1 = self.nodes@;
                        lemma_in_range(res_r@, n1, Some(i as int));
                        assert(n1[i as int] == relink(
                            nodes0[i as int],
                            Some(r as int),
                            root_link(res_r@),
                        ));
                        assert(n1[i as int] == (Node {
                            right_child: root_link(res_r@),
                            ..nodes0[i as int]
                        }));
                        assert(res_r@ is Vertex);
                        assert(idxs(res_r@).contains(res_r@->idx));
                        assert(opt_i(root_link(res_r@)) == root_of(res_r@));
                        assert(forall|j: int| #[trigger] idxs(sl).contains(j)
                            ==> 0 <= j < n1.len() && n1[j] == nodes0[j]);
                        lemma_frame(sl, nodes0, n1, Some(i as int));
                        assert(forall|j: int| #[trigger] idxs(res_r@).contains(j)
                            ==> idxs(sr).contains(j) || j == n as int);
                        assert forall|j: int| #[trigger] idxs(res_r@).contains(j)
                            implies n1[j].value >= n1[i as int].value by {
                            if idxs(sr).contains(j) {
                                assert(idxs(*s->right).contains(j));
                                assert(0 <= j < nodes0.len());
                                assert(nodes0[j].value >= nodes0[i as int].value);
                                lemma_payloads_index(n1, j);
                                lemma_payloads_index(nodes0, j);
                                assert(payloads(n1)[j] == payloads(nodes0)[j]);
                                assert(n1[j].value == nodes0[j].value);
                            } else {
                                assert(j == n as int);
                                lemma_payloads_index(n1, j);
                                assert(payloads(n1)[j] == (node.index as int,
                                    node.value as int));
                                assert(n1[j].value == node.value);
                            }
                            lemma_payloads_index(n1, i as int);
                            lemma_payloads_index(nodes0, i as int);
                            assert(payloads(n1)[i as int] == payloads(nodes0)[i as int]);
                            assert(n1[i as int].value == nodes0[i as int].value);
                        }
                        assert(shape_wf(s1, n1, parent));
                        assert(uniq(s1));
                        assert(idxs(s1) =~= idxs(s).insert(n as int));
                        assert(-2 <= sheight(res_r@) - sheight(sl) <= 2);
                    }
                    let res = self.update_balance(i, Ghost(s1), Ghost(parent));
                    proof {
                        assert(sheight(res@) >= sheight(s) && sheight(res@) <= sheight(s) + 1);
                        assert(idxs(res@) =~= idxs(s).insert(n as int));
                        assert forall|j: int|
                            0 <= j < nodes0.len() && !(#[trigger] idxs(s).contains(j)) && parent
                            != Some(j) implies self.nodes@[j] == nodes0[j] by {
                            assert(!idxs(sl).contains(j) && !idxs(sr).contains(j));
                            assert(j != i as int && j != n as int);
                            assert(!idxs(s1).contains(j));
                            assert(nmid[j] == nodes0[j]);
                            assert(self.nodes@[j] == nmid[j]);
                        }
                        match parent {
                            Some(p) => {
                                assert(nmid[p] == nodes0[p]);
                            },
                            None => {
                                assert forall|j: int|
                                    0 <= j < nodes0.len() && !(#[trigger] idxs(s).contains(j))
                                    implies self.nodes@[j] == nodes0[j] by {
                                    assert(!idxs(s1).contains(j));
                                    assert(nmid[j] == nodes0[j]);
                                    assert(self.nodes@[j] == nmid[j]);
                                }
                            },
                        }
                    }
                    res
                },
            }
        }
    }

    /// Insert a freshly created leaf node.  If the tree is empty it becomes
    /// the root; otherwise it is attached at the leaf position that the
    /// standard descent finds (strictly smaller keys go left, equal keys
    /// right), and the tree is rebalanced along the path back to the root.
    pub fn insert(&mut self, node: Node)
        requires
            old(self).avl(),
            node.parent is None,
            node.left_child is None,
            node.right_child is None,
            node.height == 1,
        ensures
            final(self).avl(),
            final(self).size() == old(self).size() + 1,
            payloads(final(self).nodes@) == payloads(old(self).nodes@).push(
                (node.index as int, node.value as int),
            ),
            final(self).entries() == old(self).entries().insert(
                (node.index as int, node.value as int),
            ),
            final(self).rep_shape() == inserted(
                old(self).rep_shape(),
                keys(old(self).nodes@),
                old(self).nodes@.len() as int,
                node.value as int,
            ),
    {
        broadcast use vstd::seq_lib::group_to_multiset_ensures;

        let ghost s0 = choose|t: Shape|
            #[trigger] self.linked_by(t) && heights_ok(t, self.nodes@) && sbalanced(t);
        let ghost nodes0 = self.nodes@;
        proof {
            assert(self.linked_by(s0));
            self.lemma_rep(s0);
        }
        match self.root {
            None => {
                proof {
                    assert(self.linked_by(s0));
                    assert(root_of(s0) is None);
                    assert(s0 is Nil);
                    assert(idxs(s0) =~= Set::<int>::empty());
                    vstd::set_lib::lemma_int_range(0, self.nodes@.len() as int);
                    assert(self.nodes@.len() == 0);
                }
                self.nodes.push(node);
                self.root = Some(0);
                proof {
                    let w = Shape::Vertex {
                        idx: 0,
                        left: Box::new(Shape::Nil),
                        right: Box::new(Shape::Nil),
                    };
                    assert(idxs(Shape::Nil) =~= Set::<int>::empty());
                    assert(idxs(w) =~= vstd::set_lib::set_int_range(0, 1));
                    assert(self.nodes@[0] == node);
                    assert(shape_wf(Shape::Nil, self.nodes@, Some(0)));
                    assert(heights_ok(Shape::Nil, self.nodes@));
                    assert(sbalanced(Shape::Nil) && uniq(Shape::Nil));
                    assert(root_of(Shape::Nil) == None::<int>);
                    assert(sheight(Shape::Nil) == 0);
                    assert(shape_wf(w, self.nodes@, None));
                    assert(self.linked_by(w));
                    self.lemma_rep(w);
                    assert(inserted(Shape::Nil, keys(nodes0), 0, node.value as int) == w);
                    assert(heights_ok(w, self.nodes@) && sbalanced(w));
                    assert(payloads(self.nodes@) =~= payloads(nodes0).push(
                        (node.index as int, node.value as int),
                    ));
                }
            },
            Some(r) => {
                proof {
                    assert(self.linked_by(s0));
                    assert(root_of(s0) == Some(r as int));
                    assert(s0 is Vertex && s0->idx == r as int);
                }
                let res = self.insert_at(r, Ghost(s0), Ghost(None), node);
                proof {
                    let n1 = self.nodes@;
                    let n = nodes0.len() as int;
                    vstd::set_lib::lemma_int_range(0, n);
                    assert(idxs(res@) =~= vstd::set_lib::set_int_range(0, n + 1));
                    assert(self.linked_by(res@));
                    self.lemma_rep(res@);
                    assert(payloads(n1) == payloads(nodes0).push(
                        (node.index as int, node.value as int),
                    ));
                }
            },
        }
    }



    /// The unique shape that describes a linked tree.
    pub closed spec fn rep_shape(&self) -> Shape {
        choose|s: Shape| self.linked_by(s)
    }

    /// The arena indices of the subtree rooted at `i`.
    pub closed spec fn subtree_idxs(&self, i: int) -> Set<int> {
        idxs(subtree_at(self.rep_shape(), i))
    }

    /// Any shape that describes the tree is its representative shape: the
    /// ghost witness a caller holds can be traded for `rep_shape` facts.
    pub proof fn lemma_rep(&self, s: Shape)
        requires
            self.linked_by(s),
        ensures
            self.rep_shape() == s,
            self.linked_by(self.rep_shape()),
    {
        assert(self.linked_by(self.rep_shape()));
        lemma_shape_unique(self.rep_shape(), s, self.nodes@, None, None);
    }

    /// The representative shape of a linked tree does describe it, so
    /// every fact of `linked_by` is available for `rep_shape` itself.
    pub proof fn lemma_rep_linked(&self)
        requires
            self.linked(),
        ensures
            self.linked_by(self.rep_shape()),
    {
        let s = choose|t: Shape| #[trigger] self.linked_by(t);
        assert(self.linked_by(s));
        self.lemma_rep(s);
    }

    /// The subtree of the root is the whole tree: its index set is exactly
    /// the set of arena slots, so a bound shown for the root's subtree is a
    /// bound for every node.
    pub proof fn lemma_root_subtree(&self)
        requires
            self.linked(),
            self.root is Some,
        ensures
            subtree_at(self.rep_shape(), self.root.unwrap() as int) == self.rep_shape(),
            forall|j: int|
                #[trigger] self.subtree_idxs(self.root.unwrap() as int).contains(j) <==> 0 <= j
                    < self.nodes@.len(),
    {
        self.lemma_rep_linked();
        let s = self.rep_shape();
        let rt = self.root.unwrap() as int;
        assert(root_of(s) == Some(rt));
        assert(s is Vertex && s->idx == rt);
        assert(subtree_at(s, rt) == s);
        vstd::set_lib::lemma_int_range(0, self.nodes@.len() as int);
        assert forall|j: int| #[trigger] self.subtree_idxs(rt).contains(j) <==> 0 <= j
            < self.nodes@.len() by {
            assert(self.subtree_idxs(rt) == idxs(s));
            assert(idxs(s).contains(j) <==> vstd::set_lib::set_int_range(
                0,
                self.nodes@.len() as int,
            ).contains(j));
        }
    }

    /// Standard binary search descent: go left on a strictly smaller key,
    /// right on a strictly larger one, stop on an exact match.  Returns the
    /// arena index of a node holding `value`, and `None` exactly when no
    /// node holds it.  The tree itself is untouched.
    pub fn search_tree_by_value(&self, value: i64) -> (r: Option<usize>)
        requires
            self.linked(),
        ensures
            match r {
                Some(j) => j < self.nodes@.len() && self.nodes@[j as int].value == value,
                None => forall|j: int|
                    0 <= j < self.nodes@.len() ==> (#[trigger] self.nodes@[j].value) != value,
            },
    {
        let ghost s = choose|t: Shape| self.linked_by(t);
        match self.root {
            None => {
                proof {
                    assert(self.linked_by(s));
                    assert(s is Nil);
                    assert(idxs(s) =~= Set::<int>::empty());
                    vstd::set_lib::lemma_int_range(0, self.nodes@.len() as int);
                    assert(self.nodes@.len() == 0);
                }
                None
            },
            Some(rt) => {
                proof {
                    assert(self.linked_by(s));
                    assert(s is Vertex && s->idx == rt as int);
                    lemma_in_range(s, self.nodes@, None);
                    assert(idxs(s).contains(rt as int));
                }
                let mut cur = rt;
                let ghost mut scur = s;
                let ghost mut par: Option<int> = None;
                loop
                    invariant
                        self.linked(),
                        scur is Vertex,
                        scur->idx == cur as int,
                        shape_wf(scur, self.nodes@, par),
                        uniq(scur),
                        cur < self.nodes@.len(),
                        forall|j: int|
                            0 <= j < self.nodes@.len() && (#[trigger] self.nodes@[j].value)
                                == value ==> idxs(scur).contains(j),
                    decreases ssize(scur),
                {
                    let nd = self.nodes[cur];
                    let ghost sl = *scur->left;
                    let ghost sr = *scur->right;
                    proof {
                        lemma_in_range(scur, self.nodes@, par);
                        if sl is Vertex {
                            assert(idxs(sl).contains(sl->idx));
                            assert(idxs(scur).contains(sl->idx));
                        }
                        if sr is Vertex {
                            assert(idxs(sr).contains(sr->idx));
                            assert(idxs(scur).contains(sr->idx));
                        }
                        assert(ssize(scur) == 1 + ssize(sl) + ssize(sr));
                    }
                    if value < nd.value {
                        match nd.left_child {
                            Some(l) => {
                                proof {
                                    assert(sl is Vertex && sl->idx == l as int);
                                    assert forall|j: int|
                                        0 <= j < self.nodes@.len()
                                        && (#[trigger] self.nodes@[j].value) == value
                                        implies idxs(sl).contains(j) by {
                                        assert(idxs(scur).contains(j));
                                        if j == cur as int {
                                            assert(false);
                                        } else if idxs(sr).contains(j) {
                                            assert(self.nodes@[j].value >= nd.value);
                                            assert(false);
                                        }
                                    }
                                    par = Some(cur as int);
                                    scur = sl;
                                }
                                cur = l;
                            },
                            None => {
                                proof {
                                    assert forall|j: int|
                                        0 <= j < self.nodes@.len() implies (
                                        #[trigger] self.nodes@[j].value) != value by {
                                        if self.nodes@[j].value == value {
                                            assert(idxs(scur).contains(j));
                                            assert(sl is Nil);
                                            if j != cur as int {
                                                assert(idxs(sr).contains(j));
                                                assert(self.nodes@[j].value >= nd.value);
                                            }
                                        }
                                    }
                                }
                                return None;
                            },
                        }
                    } else if value > nd.value {
                        match nd.right_child {
                            Some(rr) => {
                                proof {
                                    assert(sr is Vertex && sr->idx == rr as int);
                                    assert forall|j: int|
                                        0 <= j < self.nodes@.len()
                                        && (#[trigger] self.nodes@[j].value) == value
                                        implies idxs(sr).contains(j) by {
                                        assert(idxs(scur).contains(j));
                                        if j == cur as int {
                                            assert(false);
                                        } else if idxs(sl).contains(j) {
                                            assert(self.nodes@[j].value <= nd.value);
                                            assert(false);
                                        }
                                    }
                                    par = Some(cur as int);
                                    scur = sr;
                                }
                                cur = rr;
                            },
                            None => {
                                proof {
                                    assert forall|j: int|
                                        0 <= j < self.nodes@.len() implies (
                                        #[trigger] self.nodes@[j].value) != value by {
                                        if self.nodes@[j].value == value {
                                            assert(idxs(scur).contains(j));
                                            assert(sr is Nil);
                                            if j != cur as int {
                                                assert(idxs(sl).contains(j));
                                                assert(self.nodes@[j].value <= nd.value);
                                            }
                                        }
                                    }
                                }
                                return None;
                            },
                        }
                    } else {
                        return Some(cur);
                    }
                }
            },
        }
    }

    /// Whether node `i` is its parent's left child.  A node with no parent
    /// counts as a left child by convention, so that rotation code need not
    /// treat the root specially; callers must not use this as a root test.
    pub fn is_left_child(&self, i: usize) -> (r: bool)
        requires
            self.linked(),
            i < self.nodes@.len(),
        ensures
            r == (match self.nodes@[i as int].parent {
                None => true,
                Some(p) => self.nodes@[p as int].left_child == Some(i),
            }),
    {
        let ghost s = choose|t: Shape| self.linked_by(t);
        proof {
            assert(self.linked_by(s));
            lemma_members(s, self.nodes@, None);
            lemma_in_range(s, self.nodes@, None);
            assert(idxs(s).contains(i as int));
        }
        match self.nodes[i].parent {
            None => true,
            Some(p) => {
                proof {
                    if root_of(s) == Some(i as int) {
                        assert(opt_i(self.nodes@[i as int].parent) == None::<int>);
                        assert(false);
                    }
                    assert(idxs(s).contains(p as int));
                }
                match self.nodes[p].left_child {
                    Some(lc) => lc == i,
                    None => false,
                }
            },
        }
    }

    /// Whether node `i` is its parent's right child: the negation of
    /// `is_left_child`.
    pub fn is_right_child(&self, i: usize) -> (r: bool)
        requires
            self.linked(),
            i < self.nodes@.len(),
        ensures
            r == !(match self.nodes@[i as int].parent {
                None => true,
                Some(p) => self.nodes@[p as int].left_child == Some(i),
            }),
    {
        !self.is_left_child(i)
    }

    /// Follow left children from `i` until none remains: the node reached
    /// holds the smallest key of the subtree rooted at `i`.
    pub fn get_minimum_child(&self, i: usize) -> (r: usize)
        requires
            self.wf(),
            i < self.nodes@.len(),
        ensures
            r < self.nodes@.len(),
            self.subtree_idxs(i as int).contains(r as int),
            r as int == min_idx(subtree_at(self.rep_shape(), i as int)),
            self.nodes@[i as int].left_child is None ==> r == i,
            self.nodes@[r as int].left_child is None,
            forall|j: int|
                #[trigger] self.subtree_idxs(i as int).contains(j)
                    ==> self.nodes@[r as int].value <= self.nodes@[j].value,
    {
        let ghost s = choose|t: Shape| self.linked_by(t) && heights_ok(t, self.nodes@);
        proof {
            assert(self.linked_by(s));
            self.lemma_rep(s);
            assert(idxs(s).contains(i as int));
            lemma_subtree_at(s, self.nodes@, None, i as int);
        }
        let ghost sub = subtree_at(s, i as int);
        proof {
            assert(self.subtree_idxs(i as int) == idxs(sub));
        }
        let r = self.min_in(i, Ghost(sub));
        r
    }

    /// Follow right children from `i` until none remains: the node reached
    /// holds the largest key of the subtree rooted at `i`.
    pub fn get_maximum_child(&self, i: usize) -> (r: usize)
        requires
            self.wf(),
            i < self.nodes@.len(),
        ensures
            r < self.nodes@.len(),
            self.subtree_idxs(i as int).contains(r as int),
            r as int == max_idx(subtree_at(self.rep_shape(), i as int)),
            self.nodes@[i as int].right_child is None ==> r == i,
            self.nodes@[r as int].right_child is None,
            forall|j: int|
                #[trigger] self.subtree_idxs(i as int).contains(j)
                    ==> self.nodes@[r as int].value >= self.nodes@[j].value,
    {
        let ghost s = choose|t: Shape| self.linked_by(t) && heights_ok(t, self.nodes@);
        proof {
            assert(self.linked_by(s));
            self.lemma_rep(s);
            assert(idxs(s).contains(i as int));
            lemma_subtree_at(s, self.nodes@, None, i as int);
        }
        let ghost sub = subtree_at(s, i as int);
        proof {
            assert(self.subtree_idxs(i as int) == idxs(sub));
            assert(opt_i(self.nodes@[i as int].right_child) == root_of(*sub->right));
            if self.nodes@[i as int].right_child is None {
                assert((*sub->right) is Nil);
            }
        }
        let mut cur = i;
        let ghost mut scur = sub;
        loop
            invariant
                scur is Vertex,
                scur->idx == cur as int,
                shape_wf(scur, self.nodes@, opt_i(self.nodes@[cur as int].parent)),
                uniq(scur),
                cur < self.nodes@.len(),
                self.subtree_idxs(i as int) == idxs(sub),
                max_idx(scur) == max_idx(sub),
                self.rep_shape() == s,
                subtree_at(s, i as int) == sub,
                sub is Vertex && sub->idx == i as int,
                self.nodes@[i as int].right_child is None ==> (*sub->right) is Nil,
                forall|j: int| #[trigger] idxs(scur).contains(j) ==> idxs(sub).contains(j),
                forall|j: int|
                    #[trigger] idxs(sub).contains(j) && !idxs(scur).contains(j)
                        ==> self.nodes@[j].value <= self.nodes@[cur as int].value,
            decreases ssize(scur),
        {
            let nd = self.nodes[cur];
            let ghost sl = *scur->left;
            let ghost sr = *scur->right;
            proof {
                lemma_in_range(scur, self.nodes@, opt_i(self.nodes@[cur as int].parent));
                assert(ssize(scur) == 1 + ssize(sl) + ssize(sr));
                if sr is Vertex {
                    assert(idxs(sr).contains(sr->idx));
                    assert(idxs(scur).contains(sr->idx));
                }
            }
            match nd.right_child {
                None => {
                    proof {
                        assert(sr is Nil);
                        assert forall|j: int| #[trigger] idxs(sub).contains(j)
                            implies self.nodes@[cur as int].value >= self.nodes@[j].value by {
                            if idxs(scur).contains(j) {
                                if j != cur as int {
                                    assert(idxs(sl).contains(j));
                                    assert(self.nodes@[j].value <= nd.value);
                                }
                            }
                        }
                        assert(idxs(scur).contains(cur as int));
                        assert(idxs(sub).contains(cur as int));
                        assert(max_idx(scur) == cur as int);
                        if self.nodes@[i as int].right_child is None {
                            assert(max_idx(sub) == i as int);
                        }
                    }
                    return cur;
                },
                Some(rr) => {
                    proof {
                        assert(sr is Vertex && sr->idx == rr as int);
                        assert(shape_wf(sr, self.nodes@, Some(cur as int)));
                        assert(opt_i(self.nodes@[rr as int].parent) == Some(cur as int));
                        assert(uniq(sr));
                        assert(max_idx(scur) == max_idx(sr));
                        assert(forall|j: int| #[trigger] idxs(sr).contains(j)
                            ==> idxs(scur).contains(j));
                        assert forall|j: int|
                            #[trigger] idxs(sub).contains(j) && !idxs(sr).contains(j)
                            implies self.nodes@[j].value <= self.nodes@[rr as int].value by {
                            assert(self.nodes@[rr as int].value >= nd.value);
                            if idxs(scur).contains(j) {
                                if j == cur as int {
                                } else if idxs(sl).contains(j) {
                                    assert(self.nodes@[j].value <= nd.value);
                                }
                            } else {
                                assert(self.nodes@[j].value <= nd.value);
                            }
                        }
                        scur = sr;
                    }
                    cur = rr;
                },
            }
        }
    }

    /// The descent itself, over a ghost subtree: used by the public
    /// minimum query and by deletion, which needs the minimum of a specific
    /// right subtree.
    fn min_in(&self, i: usize, Ghost(sub): Ghost<Shape>) -> (r: usize)
        requires
            sub is Vertex,
            sub->idx == i as int,
            shape_wf(sub, self.nodes@, opt_i(self.nodes@[i as int].parent)),
            uniq(sub),
            i < self.nodes@.len(),
        ensures
            r < self.nodes@.len(),
            idxs(sub).contains(r as int),
            r as int == min_idx(sub),
            self.nodes@[i as int].left_child is None ==> r == i,
            self.nodes@[r as int].left_child is None,
            forall|j: int|
                #[trigger] idxs(sub).contains(j)
                    ==> self.nodes@[r as int].value <= self.nodes@[j].value,
    {
        proof {
            if self.nodes@[i as int].left_child is None {
                assert((*sub->left) is Nil);
                assert(min_idx(sub) == i as int);
            }
        }
        let mut cur = i;
        let ghost mut scur = sub;
        loop
            invariant
                scur is Vertex,
                scur->idx == cur as int,
                shape_wf(scur, self.nodes@, opt_i(self.nodes@[cur as int].parent)),
                uniq(scur),
                cur < self.nodes@.len(),
                min_idx(scur) == min_idx(sub),
                self.nodes@[i as int].left_child is None ==> min_idx(sub) == i as int,
                forall|j: int| #[trigger] idxs(scur).contains(j) ==> idxs(sub).contains(j),
                forall|j: int|
                    #[trigger] idxs(sub).contains(j) && !idxs(scur).contains(j)
                        ==> self.nodes@[j].value >= self.nodes@[cur as int].value,
            decreases ssize(scur),
        {
            let nd = self.nodes[cur];
            let ghost sl = *scur->left;
            let ghost sr = *scur->right;
            proof {
                lemma_in_range(scur, self.nodes@, opt_i(self.nodes@[cur as int].parent));
                assert(ssize(scur) == 1 + ssize(sl) + ssize(sr));
                if sl is Vertex {
                    assert(idxs(sl).contains(sl->idx));
                    assert(idxs(scur).contains(sl->idx));
                }
            }
            match nd.left_child {
                None => {
                    proof {
                        assert(sl is Nil);
                        assert forall|j: int| #[trigger] idxs(sub).contains(j)
                            implies self.nodes@[cur as int].value <= self.nodes@[j].value by {
                            if idxs(scur).contains(j) {
                                if j != cur as int {
                                    assert(idxs(sr).contains(j));
                                    assert(self.nodes@[j].value >= nd.value);
                                }
                            }
                        }
                        assert(idxs(scur).contains(cur as int));
                        assert(idxs(sub).contains(cur as int));
                        assert(min_idx(scur) == cur as int);
                    }
                    return cur;
                },
                Some(l) => {
                    proof {
                        assert(sl is Vertex && sl->idx == l as int);
                        assert(shape_wf(sl, self.nodes@, Some(cur as int)));
                        assert(opt_i(self.nodes@[l as int].parent) == Some(cur as int));
                        assert(uniq(sl));
                        assert(min_idx(scur) == min_idx(sl));
                        assert(forall|j: int| #[trigger] idxs(sl).contains(j)
                            ==> idxs(scur).contains(j));
                        assert forall|j: int|
                            #[trigger] idxs(sub).contains(j) && !idxs(sl).contains(j)
                            implies self.nodes@[j].value >= self.nodes@[l as int].value by {
                            assert(self.nodes@[l as int].value <= nd.value);
                            if idxs(scur).contains(j) {
                                if j == cur as int {
                                } else if idxs(sr).contains(j) {
                                    assert(self.nodes@[j].value >= nd.value);
                                }
                            } else {
                                assert(self.nodes@[j].value >= nd.value);
                            }
                        }
                        scur = sl;
                    }
                    cur = l;
                },
            }
        }
    }


    /// Physically free the arena slot `d`, whose node has already been cut
    /// out of the tree: the last slot's node moves into `d`, and the three
    /// links that named the moved node are redirected.
    #[verifier::rlimit(100)]
    #[verifier::spinoff_prover]
    fn remove_slot(&mut self, d: usize, Ghost(s): Ghost<Shape>)
        requires
            shape_wf(s, old(self).nodes@, None),
            uniq(s),
            heights_ok(s, old(self).nodes@),
            sbalanced(s),
            d < old(self).nodes@.len(),
            idxs(s) =~= vstd::set_lib::set_int_range(0, old(self).nodes@.len() as int).remove(
                d as int,
            ),
            opt_i(old(self).root) == root_of(s),
        ensures
            final(self).avl(),
            final(self).nodes@.len() == old(self).nodes@.len() - 1,
            final(self).rep_shape() == shape_freed(s, d as int, old(self).nodes@.len() - 1),
            payloads(final(self).nodes@) == seq_freed(payloads(old(self).nodes@), d as int),
            final(self).entries() == old(self).entries().remove(
                (old(self).nodes@[d as int].index as int, old(self).nodes@[d as int].value as int),
            ),
    {
        broadcast use vstd::seq_lib::group_to_multiset_ensures;

        let ghost nodes0 = self.nodes@;
        let ghost n0 = self.nodes@.len() as int;
        let last = self.nodes.len() - 1;
        proof {
            vstd::set_lib::lemma_int_range(0, n0);
        }
        if d == last {
            let _ = self.nodes.pop();
            proof {
                let n1 = self.nodes@;
                assert(n1 == nodes0.subrange(0, n0 - 1));
                lemma_in_range(s, nodes0, None);
                assert(forall|j: int| #[trigger] idxs(s).contains(j)
                    ==> 0 <= j < n1.len() && n1[j] == nodes0[j]);
                lemma_frame(s, nodes0, n1, None);
                assert(idxs(s) =~= vstd::set_lib::set_int_range(0, n1.len() as int));
                assert(self.linked_by(s));
                self.lemma_rep(s);
                // The payload sequence lost exactly its last element.
                assert(payloads(n1) =~= payloads(nodes0).remove(n0 - 1));
                assert(payloads(n1) =~= payloads(nodes0).drop_last());
                assert(payloads(nodes0).to_multiset().remove(payloads(nodes0)[n0 - 1])
                    =~= payloads(n1).to_multiset());
                assert(payloads(nodes0)[n0 - 1] == (nodes0[d as int].index as int,
                    nodes0[d as int].value as int));
            }
        } else {
            let ghost m = last as int;
            proof {
                assert(idxs(s).contains(m));
                lemma_in_range(s, nodes0, None);
                lemma_members(s, nodes0, None);
                lemma_parent_height(s, nodes0, None);
                assert(!idxs(s).contains(d as int));
            }
            let mnd = self.nodes[last];
            // Redirect the link that owns the moved node.
            match mnd.parent {
                None => {
                    proof {
                        assert(root_of(s) == Some(m));
                    }
                    self.root = Some(d);
                },
                Some(p) => {
                    proof {
                        assert(idxs(s).contains(p as int));
                        assert(nodes0[p as int].left_child == Some(last)
                            || nodes0[p as int].right_child == Some(last));
                        assert(root_of(s) != Some(m));
                    }
                    let is_l = match self.nodes[p].left_child {
                        Some(lc) => lc == last,
                        None => false,
                    };
                    let mut np = self.nodes[p];
                    if is_l {
                        np.left_child = Some(d);
                    } else {
                        np.right_child = Some(d);
                    }
                    self.nodes[p] = np;
                },
            }
            // Redirect the moved node's children's back-references.
            match mnd.left_child {
                Some(c) => {
                    let mut nc = self.nodes[c];
                    nc.parent = Some(d);
                    self.nodes[c] = nc;
                },
                None => {},
            }
            match mnd.right_child {
                Some(c) => {
                    let mut nc = self.nodes[c];
                    nc.parent = Some(d);
                    self.nodes[c] = nc;
                },
                None => {},
            }
            let _ = self.nodes.swap_remove(d);
            proof {
                let n1 = self.nodes@;
                let ghost s2 = rename(s, m, d as int);
                // The moved node is nobody's own parent or child.
                assert(opt_i(nodes0[m].parent) != Some(m));
                assert(opt_i(nodes0[m].left_child) != Some(m) && opt_i(nodes0[m].right_child)
                    != Some(m)) by {
                    assert(idxs(s).contains(m));
                    match nodes0[m].left_child {
                        Some(c) => {
                            assert(idxs(s).contains(c as int));
                            assert(opt_i(nodes0[c as int].parent) == Some(m));
                            if c as int == m {
                                assert(false);
                            }
                        },
                        None => {},
                    }
                    match nodes0[m].right_child {
                        Some(c) => {
                            assert(idxs(s).contains(c as int));
                            assert(opt_i(nodes0[c as int].parent) == Some(m));
                            if c as int == m {
                                assert(false);
                            }
                        },
                        None => {},
                    }
                }
                // The moved node's two children are distinct, as are any
                // node's two child links.
                lemma_subtree_at(s, nodes0, None, m);
                let subm = subtree_at(s, m);
                assert(shape_wf(subm, nodes0, opt_i(nodes0[m].parent)));
                assert(opt_i(nodes0[m].left_child) == root_of(*subm->left));
                assert(opt_i(nodes0[m].right_child) == root_of(*subm->right));
                if *subm->left is Vertex {
                    assert(idxs(*subm->left).contains((*subm->left)->idx));
                }
                if *subm->right is Vertex {
                    assert(idxs(*subm->right).contains((*subm->right)->idx));
                }
                // Describe the patched arena slot by slot.
                assert forall|j: int| #[trigger] idxs(s).contains(j) && j != m
                    implies 0 <= j < n1.len() && n1[j] == subst_node(nodes0[j], m, d) by {
                    assert(0 <= j < n0 && j != d as int);
                    assert(j < n0 - 1);
                    lemma_subtree_at(s, nodes0, None, j);
                    let subj = subtree_at(s, j);
                    assert(shape_wf(subj, nodes0, opt_i(nodes0[j].parent)));
                    assert(opt_i(nodes0[j].left_child) == root_of(*subj->left));
                    assert(opt_i(nodes0[j].right_child) == root_of(*subj->right));
                    if *subj->left is Vertex {
                        assert(idxs(*subj->left).contains((*subj->left)->idx));
                        assert(!idxs(*subj->right).contains((*subj->left)->idx));
                    }
                    // Which of j's links could have named the moved node?
                    match nodes0[j].left_child {
                        Some(c) => {
                            if c as int == m {
                                assert(opt_i(nodes0[m].parent) == Some(j));
                            }
                        },
                        None => {},
                    }
                    match nodes0[j].right_child {
                        Some(c) => {
                            if c as int == m {
                                assert(opt_i(nodes0[m].parent) == Some(j));
                            }
                        },
                        None => {},
                    }
                    if opt_i(nodes0[j].parent) == Some(m) {
                        assert(nodes0[m].left_child == Some(j as usize)
                            || nodes0[m].right_child == Some(j as usize));
                    }
                    // A node is never its own parent's parent: cached
                    // heights strictly decrease downward.
                    if opt_i(nodes0[m].parent) == Some(j) {
                        assert(root_of(s) != Some(m));
                        assert(nodes0[j].height > nodes0[m].height);
                        if opt_i(nodes0[j].parent) == Some(m) {
                            assert(root_of(s) != Some(j));
                            assert(nodes0[m].height > nodes0[j].height);
                            assert(false);
                        }
                    }
                }
                assert(n1[d as int] == nodes0[m]);
                assert(nodes0[m] == subst_node(nodes0[m], m, d));
                lemma_rename(s, nodes0, n1, None, m, d);
                assert(shape_wf(s2, n1, None));
                assert(idxs(s2) =~= vstd::set_lib::set_int_range(0, n1.len() as int));
                assert(opt_i(self.root) == root_of(s2));
                assert(self.linked_by(s2));
                self.lemma_rep(s2);
                assert(heights_ok(s2, n1) && sbalanced(s2));
                // The payload multiset lost exactly the freed slot's pair.
                assert(payloads(n1) =~= payloads(nodes0).update(d as int,
                    payloads(nodes0)[m]).drop_last());
                assert(payloads(nodes0).update(d as int, payloads(nodes0)[m]).drop_last()
                    =~= payloads(nodes0).update(d as int, payloads(nodes0)[m]).remove(n0 - 1));
                assert(payloads(n1).to_multiset() =~= payloads(nodes0).to_multiset().remove(
                    (nodes0[d as int].index as int, nodes0[d as int].value as int),
                ));
            }
        }
    }


    /// The chain of arena indices from the root down to node `i`, collected
    /// by following parent back-references upward from `i`.
    fn collect_path(&self, i: usize) -> (path: Vec<usize>)
        requires
            self.wf(),
            i < self.nodes@.len(),
        ensures
            path@.len() >= 1,
            path@[path@.len() - 1] == i,
            opt_i(self.root) == Some(path@[0] as int),
            self.nodes@[path@[0] as int].parent is None,
            forall|mm: int|
                0 <= mm < path@.len() - 1 ==> opt_i(
                    #[trigger] self.nodes@[path@[mm + 1] as int].parent,
                ) == Some(path@[mm] as int),
            forall|mm: int| 0 <= mm < path@.len() ==> (#[trigger] path@[mm]) < self.nodes@.len(),
    {
        let ghost s = choose|t: Shape| self.linked_by(t) && heights_ok(t, self.nodes@);
        proof {
            assert(self.linked_by(s));
        }
        let mut path: Vec<usize> = Vec::new();
        path.push(i);
        let mut cur = i;
        loop
            invariant
                self.linked_by(s),
                heights_ok(s, self.nodes@),
                idxs(s).contains(cur as int),
                cur < self.nodes@.len(),
                path@.len() >= 1,
                path@[0] == cur,
                path@[path@.len() - 1] == i,
                forall|mm: int|
                    0 <= mm < path@.len() - 1 ==> opt_i(
                        #[trigger] self.nodes@[path@[mm + 1] as int].parent,
                    ) == Some(path@[mm] as int),
                forall|mm: int| 0 <= mm < path@.len() ==> (#[trigger] path@[mm])
                    < self.nodes@.len(),
            decreases self.nodes@.len() - self.nodes@[cur as int].height,
        {
            let nd = self.nodes[cur];
            match nd.parent {
                None => {
                    proof {
                        lemma_members(s, self.nodes@, None);
                        assert(root_of(s) == Some(cur as int));
                    }
                    return path;
                },
                Some(p) => {
                    proof {
                        lemma_members(s, self.nodes@, None);
                        lemma_parent_height(s, self.nodes@, None);
                        assert(root_of(s) != Some(cur as int)) by {
                            if root_of(s) == Some(cur as int) {
                                assert(opt_i(self.nodes@[cur as int].parent) == None::<int>);
                            }
                        }
                        assert(idxs(s).contains(p as int));
                        assert(self.nodes@[p as int].height > self.nodes@[cur as int].height);
                        lemma_subtree_at(s, self.nodes@, None, p as int);
                        lemma_height_le_len(
                            subtree_at(s, p as int),
                            self.nodes@,
                            opt_i(self.nodes@[p as int].parent),
                        );
                        assert(self.nodes@[p as int].height == sheight(subtree_at(s, p as int)));
                        assert(self.nodes@[p as int].height <= self.nodes@.len());
                    }
                    let ghost oldpath = path@;
                    path.insert(0, p);
                    proof {
                        assert(path@ == oldpath.insert(0, p));
                        assert(path@[0] == p);
                        assert(path@.len() == oldpath.len() + 1);
                        assert(forall|mm: int| 1 <= mm < path@.len()
                            ==> (#[trigger] path@[mm]) == oldpath[mm - 1]);
                        assert(opt_i(self.nodes@[path@[1] as int].parent) == Some(
                            path@[0] as int,
                        ));
                        assert forall|mm: int| 0 <= mm < path@.len() - 1 implies opt_i(
                            #[trigger] self.nodes@[path@[mm + 1] as int].parent,
                        ) == Some(path@[mm] as int) by {
                            if mm >= 1 {
                                assert(path@[mm + 1] == oldpath[mm]);
                                assert(path@[mm] == oldpath[mm - 1]);
                                assert(opt_i(self.nodes@[oldpath[(mm - 1) + 1] as int].parent)
                                    == Some(oldpath[mm - 1] as int));
                            }
                        }
                    }
                    cur = p;
                },
            }
        }
    }

    /// Splice the doomed node `dd` (a child of `cur` with at most one
    /// child of its own) out of the tree, then restore `cur`'s height and
    /// balance.
    #[verifier::rlimit(100)]
    #[verifier::spinoff_prover]
    fn del_splice(&mut self, cur: usize, dd: usize, Ghost(s): Ghost<Shape>, Ghost(parent): Ghost<
        Option<int>,
    >) -> (res: Ghost<Shape>)
        requires
            s is Vertex,
            s->idx == cur as int,
            shape_wf(s, old(self).nodes@, parent),
            uniq(s),
            heights_ok(s, old(self).nodes@),
            sbalanced(s),
            idxs(s).contains(dd as int),
            dd < old(self).nodes@.len(),
            opt_i(old(self).nodes@[dd as int].parent) == Some(cur as int),
            root_of(*s->left) == Some(dd as int) || root_of(*s->right) == Some(dd as int),
            !(old(self).nodes@[dd as int].left_child is Some && old(self).nodes@[
                dd as int
            ].right_child is Some),
            match parent {
                Some(p) => 0 <= p < old(self).nodes@.len() && !idxs(s).contains(p)
                    && (opt_i(old(self).nodes@[p].left_child) == Some(cur as int)
                    || opt_i(old(self).nodes@[p].right_child) == Some(cur as int)),
                None => opt_i(old(self).root) == Some(cur as int),
            },
        ensures
            res@ is Vertex,
            shape_wf(res@, final(self).nodes@, parent),
            uniq(res@),
            heights_ok(res@, final(self).nodes@),
            sbalanced(res@),
            idxs(res@) =~= idxs(s).remove(dd as int),
            final(self).nodes@.len() == old(self).nodes@.len(),
            sheight(res@) <= sheight(s),
            sheight(res@) + 1 >= sheight(s),
            res@ == spliced(s, dd as int),
            forall|j: int|
                0 <= j < old(self).nodes@.len() && !(#[trigger] idxs(s).contains(j))
                    && parent != Some(j) ==> final(self).nodes@[j] == old(self).nodes@[j],
            payloads(final(self).nodes@) == payloads(old(self).nodes@),
            match parent {
                Some(p) => final(self).nodes@[p] == relink(
                    old(self).nodes@[p],
                    Some(cur as int),
                    root_link(res@),
                ) && final(self).root == old(self).root,
                None => opt_i(final(self).root) == root_of(res@) && (forall|j: int|
                    0 <= j < old(self).nodes@.len() && !(#[trigger] idxs(s).contains(j))
                        ==> final(self).nodes@[j] == old(self).nodes@[j]),
            },
    {
        let ghost nodes0 = self.nodes@;
        let ghost sl = *s->left;
        let ghost sr = *s->right;
        let ghost d = dd as int;
        let n_len = self.nodes.len();
        proof {
            lemma_in_range(s, nodes0, parent);
            assert(idxs(s).contains(cur as int));
            assert(uniq(sl) && uniq(sr));
            assert(heights_ok(sl, nodes0) && heights_ok(sr, nodes0));
            assert(sbalanced(sl) && sbalanced(sr));
            assert(shape_wf(sl, nodes0, Some(cur as int)));
            assert(shape_wf(sr, nodes0, Some(cur as int)));
            if sl is Vertex {
                assert(idxs(sl).contains(sl->idx));
                assert(idxs(s).contains(sl->idx));
                assert(nodes0[sl->idx].height == sheight(sl));
            }
            if sr is Vertex {
                assert(idxs(sr).contains(sr->idx));
                assert(idxs(s).contains(sr->idx));
                assert(nodes0[sr->idx].height == sheight(sr));
            }
            assert(forall|j: int| #[trigger] idxs(sl).contains(j)
                ==> idxs(s).contains(j) && j != cur as int);
            assert(forall|j: int| #[trigger] idxs(sr).contains(j)
                ==> idxs(s).contains(j) && j != cur as int);
            assert(sheight(s) == 1 + if sheight(sl) > sheight(sr) {
                sheight(sl)
            } else {
                sheight(sr)
            });
        }
        // The next element is the node to remove; splice it out here.
        let dnd = self.nodes[dd];
        let ghost subd = if root_of(sl) == Some(d) {
            sl
        } else {
            sr
        };
        let ghost dl = *subd->left;
        let ghost dr = *subd->right;
        let ghost child_shape = if dl is Vertex {
            dl
        } else {
            dr
        };
        proof {
            assert(subd is Vertex && subd->idx == d);
            assert(shape_wf(subd, nodes0, Some(cur as int)));
            assert(heights_ok(subd, nodes0) && sbalanced(subd) && uniq(subd));
            assert(opt_i(nodes0[d].left_child) == root_of(dl));
            assert(opt_i(nodes0[d].right_child) == root_of(dr));
            // With at most one child, that child is a leaf.
            assert(dl is Nil || dr is Nil);
            assert(sheight(subd) == 1 + if sheight(dl) > sheight(dr) {
                sheight(dl)
            } else {
                sheight(dr)
            });
            assert(sheight(child_shape) + 1 == sheight(subd));
            assert(shape_wf(child_shape, nodes0, Some(d)));
            assert(heights_ok(child_shape, nodes0) && sbalanced(child_shape)
                && uniq(child_shape));
            if child_shape is Vertex {
                assert(idxs(child_shape).contains(child_shape->idx));
                assert(idxs(subd).contains(child_shape->idx));
                assert(idxs(s).contains(child_shape->idx));
            }
        }
        let child_opt = match dnd.left_child {
            Some(c) => Some(c),
            None => dnd.right_child,
        };
        proof {
            assert(opt_i(child_opt) == root_of(child_shape));
        }
        match child_opt {
            Some(c) => {
                let mut nc = self.nodes[c];
                nc.parent = Some(cur);
                self.nodes[c] = nc;
            },
            None => {},
        }
        let is_l = match self.nodes[cur].left_child {
            Some(lc) => lc == dd,
            None => false,
        };
        let mut ncur = self.nodes[cur];
        if is_l {
            ncur.left_child = child_opt;
        } else {
            ncur.right_child = child_opt;
        }
        self.nodes[cur] = ncur;
        let ghost s1 = if is_l {
            Shape::Vertex { idx: cur as int, left: Box::new(child_shape), right: Box::new(sr) }
        } else {
            Shape::Vertex { idx: cur as int, left: Box::new(sl), right: Box::new(child_shape) }
        };
        proof {
            let n1 = self.nodes@;
            let ghost keep = if is_l {
                sr
            } else {
                sl
            };
            assert(if is_l {
                subd == sl
            } else {
                subd == sr
            });
            // The kept side and the spliced-in child subtree are
            // untouched except for the child's root parent link.
            assert(forall|j: int| #[trigger] idxs(keep).contains(j)
                ==> 0 <= j < n1.len() && n1[j] == nodes0[j]);
            lemma_frame(keep, nodes0, n1, Some(cur as int));
            match child_shape {
                Shape::Nil => {},
                Shape::Vertex { .. } => {
                    lemma_reparent(child_shape, nodes0, n1, Some(d), Some(cur as int));
                },
            }
            assert(n1[cur as int] == (if is_l {
                Node { left_child: root_link(child_shape), ..nodes0[cur as int] }
            } else {
                Node { right_child: root_link(child_shape), ..nodes0[cur as int] }
            }));
            assert(forall|j: int| #[trigger] idxs(child_shape).contains(j)
                ==> idxs(subd).contains(j));
            assert(n1.len() == n_len);
            if child_shape is Vertex {
                assert(0 <= child_shape->idx < n1.len());
                assert(opt_i(root_link(child_shape)) == root_of(child_shape));
            }
            assert(forall|j: int| 0 <= j < n1.len()
                ==> (#[trigger] n1[j].value) == nodes0[j].value
                    && n1[j].index == nodes0[j].index);
            lemma_payloads_eq(nodes0, n1);
            assert forall|j: int| #[trigger] idxs(child_shape).contains(j)
                implies (if is_l {
                n1[j].value <= n1[cur as int].value
            } else {
                n1[j].value >= n1[cur as int].value
            }) by {
                assert(idxs(subd).contains(j));
                assert(0 <= j < nodes0.len());
                if is_l {
                    assert(idxs(*s->left).contains(j));
                    assert(nodes0[j].value <= nodes0[cur as int].value);
                } else {
                    assert(idxs(*s->right).contains(j));
                    assert(nodes0[j].value >= nodes0[cur as int].value);
                }
            }
            assert forall|j: int| #[trigger] idxs(keep).contains(j)
                implies (if is_l {
                n1[j].value >= n1[cur as int].value
            } else {
                n1[j].value <= n1[cur as int].value
            }) by {
                if is_l {
                    assert(idxs(*s->right).contains(j));
                    assert(nodes0[j].value >= nodes0[cur as int].value);
                } else {
                    assert(idxs(*s->left).contains(j));
                    assert(nodes0[j].value <= nodes0[cur as int].value);
                }
            }
            assert(shape_wf(child_shape, n1, Some(cur as int)));
            assert(shape_wf(keep, n1, Some(cur as int)));
            assert(shape_wf(s1, n1, parent));
            assert(uniq(s1));
            assert(heights_ok(*s1->left, n1) && heights_ok(*s1->right, n1));
            assert(sbalanced(*s1->left) && sbalanced(*s1->right));
            assert(-2 <= sheight(*s1->right) - sheight(*s1->left) <= 2);
            assert(idxs(s1) =~= idxs(s).remove(d));
        }
        let res = self.update_balance(cur, Ghost(s1), Ghost(parent));
        proof {
            assert(sheight(res@) <= sheight(s) && sheight(res@) + 1 >= sheight(s));
            assert(idxs(res@) =~= idxs(s).remove(d));
            // The splice matches one unfolding of the shape-level removal.
            assert(cur as int != d) by {
                if cur as int == d {
                    if root_of(sl) == Some(d) {
                        assert(idxs(sl).contains(d));
                        assert(!idxs(sl).contains(cur as int));
                    } else {
                        assert(root_of(sr) == Some(d));
                        assert(idxs(sr).contains(d));
                        assert(!idxs(sr).contains(cur as int));
                    }
                }
            }
            assert(spliced(subd, d) == child_shape);
            if root_of(sl) == Some(d) {
                assert(idxs(*s->left).contains(d));
                assert(spliced(s, d) == rebalanced(Shape::Vertex {
                    idx: cur as int,
                    left: Box::new(child_shape),
                    right: Box::new(sr),
                }));
            } else {
                assert(root_of(sr) == Some(d));
                assert(idxs(*s->right).contains(d));
                assert(!idxs(*s->left).contains(d));
                assert(spliced(s, d) == rebalanced(Shape::Vertex {
                    idx: cur as int,
                    left: Box::new(sl),
                    right: Box::new(child_shape),
                }));
            }
            assert(res@ == spliced(s, d));
        }
        res
    }

    /// Walk down the explicit root-to-node chain to the parent of the node
    /// being deleted (the chain's last element), splice that node out
    /// there, and rebalance every node of the chain on the way back up.
    /// Deletion, unlike insertion, may need a rotation at each level.
    #[verifier::rlimit(100)]
    fn del_walk(&mut self, k: usize, path: &Vec<usize>, Ghost(s): Ghost<Shape>, Ghost(
        parent,
    ): Ghost<Option<int>>) -> (res: Ghost<Shape>)
        requires
            2 <= path@.len(),
            k < path@.len() - 1,
            s is Vertex,
            s->idx == path@[k as int] as int,
            shape_wf(s, old(self).nodes@, parent),
            uniq(s),
            heights_ok(s, old(self).nodes@),
            sbalanced(s),
            forall|mm: int|
                k <= mm < path@.len() - 1 ==> opt_i(
                    #[trigger] old(self).nodes@[path@[mm + 1] as int].parent,
                ) == Some(path@[mm] as int),
            forall|mm: int| k <= mm < path@.len() ==> idxs(s).contains(
                #[trigger] path@[mm] as int,
            ) && path@[mm] < old(self).nodes@.len(),
            !(old(self).nodes@[path@[path@.len() - 1] as int].left_child is Some && old(
                self,
            ).nodes@[path@[path@.len() - 1] as int].right_child is Some),
            match parent {
                Some(p) => 0 <= p < old(self).nodes@.len() && !idxs(s).contains(p)
                    && (opt_i(old(self).nodes@[p].left_child) == Some(path@[k as int] as int)
                    || opt_i(old(self).nodes@[p].right_child) == Some(path@[k as int] as int)),
                None => opt_i(old(self).root) == Some(path@[k as int] as int),
            },
        ensures
            res@ is Vertex,
            shape_wf(res@, final(self).nodes@, parent),
            uniq(res@),
            heights_ok(res@, final(self).nodes@),
            sbalanced(res@),
            idxs(res@) =~= idxs(s).remove(path@[path@.len() - 1] as int),
            final(self).nodes@.len() == old(self).nodes@.len(),
            sheight(res@) <= sheight(s),
            sheight(res@) + 1 >= sheight(s),
            res@ == spliced(s, path@[path@.len() - 1] as int),
            forall|j: int|
                0 <= j < old(self).nodes@.len() && !(#[trigger] idxs(s).contains(j))
                    && parent != Some(j) ==> final(self).nodes@[j] == old(self).nodes@[j],
            payloads(final(self).nodes@) == payloads(old(self).nodes@),
            match parent {
                Some(p) => final(self).nodes@[p] == relink(
                    old(self).nodes@[p],
                    Some(path@[k as int] as int),
                    root_link(res@),
                ) && final(self).root == old(self).root,
                None => opt_i(final(self).root) == root_of(res@) && (forall|j: int|
                    0 <= j < old(self).nodes@.len() && !(#[trigger] idxs(s).contains(j))
                        ==> final(self).nodes@[j] == old(self).nodes@[j]),
            },
        decreases path@.len() - k,
    {
        let ghost nodes0 = self.nodes@;
        let ghost sl = *s->left;
        let ghost sr = *s->right;
        let plen = path.len();
        let cur = path[k];
        let ghost d = path@[plen - 1] as int;
        proof {
            lemma_in_range(s, nodes0, parent);
            assert(idxs(s).contains(cur as int));
            assert(uniq(sl) && uniq(sr));
            assert(heights_ok(sl, nodes0) && heights_ok(sr, nodes0));
            assert(sbalanced(sl) && sbalanced(sr));
            assert(shape_wf(sl, nodes0, Some(cur as int)));
            assert(shape_wf(sr, nodes0, Some(cur as int)));
            if sl is Vertex {
                assert(idxs(sl).contains(sl->idx));
                assert(idxs(s).contains(sl->idx));
                assert(nodes0[sl->idx].height == sheight(sl));
            }
            if sr is Vertex {
                assert(idxs(sr).contains(sr->idx));
                assert(idxs(s).contains(sr->idx));
                assert(nodes0[sr->idx].height == sheight(sr));
            }
            assert(forall|j: int| #[trigger] idxs(sl).contains(j)
                ==> idxs(s).contains(j) && j != cur as int);
            assert(forall|j: int| #[trigger] idxs(sr).contains(j)
                ==> idxs(s).contains(j) && j != cur as int);
            assert(sheight(s) == 1 + if sheight(sl) > sheight(sr) {
                sheight(sl)
            } else {
                sheight(sr)
            });
        }
        let nxt = path[k + 1];
        proof {
            // The next chain element hangs directly under this node.
            assert(opt_i(nodes0[path@[k as int + 1] as int].parent) == Some(
                path@[k as int] as int,
            ));
            assert(idxs(s).contains(nxt as int));
            lemma_child_of(s, nodes0, parent, nxt as int);
        }
        if k == plen - 2 {
            self.del_splice(cur, nxt, Ghost(s), Ghost(parent))
        } else {
            // Descend along the chain, then restore height and balance here.
            let ghost subc = if root_of(sl) == Some(nxt as int) {
                sl
            } else {
                sr
            };
            proof {
                assert(subc is Vertex && subc->idx == nxt as int);
                assert(shape_wf(subc, nodes0, Some(cur as int)));
                // The rest of the chain lies inside the child subtree.
                let pth = Seq::new(path@.len(), |mm: int| path@[mm] as int);
                assert forall|mm: int| k + 1 <= mm < path@.len() implies idxs(subc).contains(
                    #[trigger] path@[mm] as int,
                ) by {
                    assert(pth[mm] == path@[mm] as int);
                    assert(forall|m2: int| k <= m2 < pth.len() - 1 ==> opt_i(
                        #[trigger] nodes0[pth[m2 + 1]].parent,
                    ) == Some(pth[m2]));
                    assert(forall|m2: int| k <= m2 < pth.len() ==> idxs(s).contains(
                        #[trigger] pth[m2],
                    ));
                    lemma_chain_in(s, subc, nodes0, parent, pth, k as int, mm);
                }
                assert(!idxs(subc).contains(cur as int));
                assert(opt_i(nodes0[cur as int].left_child) == root_of(sl));
                assert(opt_i(nodes0[cur as int].right_child) == root_of(sr));
            }
            let res_c = self.del_walk(k + 1, path, Ghost(subc), Ghost(Some(cur as int)));
            let n_len1 = self.nodes.len();
            let ghost s1 = if root_of(sl) == Some(nxt as int) {
                Shape::Vertex { idx: cur as int, left: Box::new(res_c@), right: Box::new(sr) }
            } else {
                Shape::Vertex { idx: cur as int, left: Box::new(sl), right: Box::new(res_c@) }
            };
            proof {
                let n1 = self.nodes@;
                let ghost keep = if root_of(sl) == Some(nxt as int) {
                    sr
                } else {
                    sl
                };
                assert(subc == if root_of(sl) == Some(nxt as int) {
                    sl
                } else {
                    sr
                });
                assert(n1[cur as int] == relink(
                    nodes0[cur as int],
                    Some(nxt as int),
                    root_link(res_c@),
                ));
                if root_of(sl) == Some(nxt as int) {
                    assert(opt_i(nodes0[cur as int].left_child) == Some(nxt as int));
                    assert(n1[cur as int] == (Node {
                        left_child: root_link(res_c@),
                        ..nodes0[cur as int]
                    }));
                } else {
                    assert(root_of(sr) == Some(nxt as int));
                    if sl is Vertex {
                        assert(idxs(sl).contains(sl->idx));
                        assert(!idxs(sr).contains(sl->idx));
                        assert(opt_i(nodes0[cur as int].left_child) != Some(nxt as int));
                    }
                    assert(n1[cur as int] == (Node {
                        right_child: root_link(res_c@),
                        ..nodes0[cur as int]
                    }));
                }
                assert(forall|j: int| #[trigger] idxs(keep).contains(j)
                    ==> !idxs(subc).contains(j) && j != cur as int);
                assert(forall|j: int| #[trigger] idxs(keep).contains(j)
                    ==> 0 <= j < n1.len() && n1[j] == nodes0[j]);
                lemma_frame(keep, nodes0, n1, Some(cur as int));
                lemma_in_range(res_c@, n1, Some(cur as int));
                assert(res_c@ is Vertex);
                assert(idxs(res_c@).contains(res_c@->idx));
                assert(n1.len() == n_len1);
                assert(0 <= res_c@->idx < n1.len());
                assert(opt_i(root_link(res_c@)) == root_of(res_c@));
                assert(forall|j: int| #[trigger] idxs(res_c@).contains(j)
                    ==> idxs(subc).contains(j));
                assert forall|j: int| #[trigger] idxs(res_c@).contains(j)
                    implies (if root_of(sl) == Some(nxt as int) {
                    n1[j].value <= n1[cur as int].value
                } else {
                    n1[j].value >= n1[cur as int].value
                }) by {
                    assert(idxs(subc).contains(j));
                    assert(0 <= j < nodes0.len());
                    lemma_payloads_index(n1, j);
                    lemma_payloads_index(nodes0, j);
                    assert(payloads(n1)[j] == payloads(nodes0)[j]);
                    assert(n1[j].value == nodes0[j].value);
                    lemma_payloads_index(n1, cur as int);
                    lemma_payloads_index(nodes0, cur as int);
                    assert(payloads(n1)[cur as int] == payloads(nodes0)[cur as int]);
                    assert(n1[cur as int].value == nodes0[cur as int].value);
                    if root_of(sl) == Some(nxt as int) {
                        assert(idxs(*s->left).contains(j));
                        assert(nodes0[j].value <= nodes0[cur as int].value);
                    } else {
                        assert(idxs(*s->right).contains(j));
                        assert(nodes0[j].value >= nodes0[cur as int].value);
                    }
                }
                assert(shape_wf(s1, n1, parent));
                assert(uniq(s1));
                assert(heights_ok(*s1->left, n1) && heights_ok(*s1->right, n1));
                assert(sbalanced(*s1->left) && sbalanced(*s1->right));
                assert(-2 <= sheight(*s1->right) - sheight(*s1->left) <= 2);
                assert(idxs(s1) =~= idxs(s).remove(d));
            }
            let res = self.update_balance(cur, Ghost(s1), Ghost(parent));
            proof {
                assert(sheight(res@) <= sheight(s) && sheight(res@) + 1 >= sheight(s));
                assert(idxs(res@) =~= idxs(s).remove(d));
                match parent {
                    Some(p) => {
                        assert(final(self).nodes@[p] == relink(
                            nodes0[p],
                            Some(cur as int),
                            root_link(res@),
                        ));
                    },
                    None => {},
                }
            }
            res
        }
    }


    /// Delete the node held in arena slot `i`.  Every index below the arena
    /// length names a node of the tree.  The root is handled by
    /// `delete_root`; a node with two children by payload replacement with
    /// its in-order successor; any other node is spliced out by its parent,
    /// and the tree is rebalanced along the whole path to the root.  The
    /// last arena slot's node moves into the freed slot, so indices held
    /// across this call may move.
    pub fn delete_node(&mut self, i: usize)
        requires
            old(self).avl(),
            i < old(self).nodes@.len(),
        ensures
            final(self).avl(),
            final(self).nodes@.len() == old(self).nodes@.len() - 1,
            final(self).entries() == old(self).entries().remove(
                (old(self).nodes@[i as int].index as int, old(self).nodes@[i as int].value as int),
            ),
            ({
                let s = old(self).rep_shape();
                let pl = payloads(old(self).nodes@);
                if old(self).nodes@[i as int].left_child is Some && old(self).nodes@[
                    i as int
                ].right_child is Some {
                    let m = min_idx(*subtree_at(s, i as int)->right);
                    final(self).rep_shape() == shape_freed(
                        spliced(s, m),
                        m,
                        old(self).nodes@.len() - 1,
                    ) && payloads(final(self).nodes@) == seq_freed(pl.update(i as int, pl[m]), m)
                } else {
                    final(self).rep_shape() == shape_freed(
                        spliced(s, i as int),
                        i as int,
                        old(self).nodes@.len() - 1,
                    ) && payloads(final(self).nodes@) == seq_freed(pl, i as int)
                }
            }),
        decreases (if opt_i(self.root) == Some(i as int) || (self.nodes@[i as int].left_child
            is Some && self.nodes@[i as int].right_child is Some) {
            3int
        } else {
            0int
        }),
    {
        broadcast use vstd::seq_lib::group_to_multiset_ensures;

        let is_root = match self.root {
            Some(rt) => rt == i,
            None => false,
        };
        if is_root {
            self.delete_root();
            return;
        }
        let ghost s = choose|t: Shape|
            #[trigger] self.linked_by(t) && heights_ok(t, self.nodes@) && sbalanced(t);
        proof {
            assert(self.linked_by(s));
            self.lemma_rep(s);
            assert(idxs(s).contains(i as int));
        }
        let nd = self.nodes[i];
        if nd.left_child.is_some() && nd.right_child.is_some() {
            self.delete_node_with_children(i);
            return;
        }
        let ghost nodes0 = self.nodes@;
        let path = self.collect_path(i);
        proof {
            assert(root_of(s) == Some(path@[0] as int)) by {
                assert(opt_i(self.root) == root_of(s));
            }
            assert(s is Vertex && s->idx == path@[0] as int);
            if path@.len() < 2 {
                assert(path@[0] == i);
                assert(opt_i(self.root) == Some(i as int));
                assert(false);
            }
            assert(forall|mm: int| 0 <= mm < path@.len() ==> idxs(s).contains(
                #[trigger] path@[mm] as int,
            ));
        }
        let res = self.del_walk(0, &path, Ghost(s), Ghost(None));
        proof {
            assert(idxs(res@) =~= vstd::set_lib::set_int_range(0, self.nodes@.len() as int)
                .remove(i as int));
            lemma_payloads_index(self.nodes@, i as int);
            lemma_payloads_index(nodes0, i as int);
            assert(payloads(self.nodes@)[i as int] == payloads(nodes0)[i as int]);
            assert(self.nodes@[i as int].index == nodes0[i as int].index
                && self.nodes@[i as int].value == nodes0[i as int].value);
        }
        let ghost mid = *self;
        self.remove_slot(i, Ghost(res@));
        proof {
            assert(mid.entries() == old(self).entries());
        }
    }

    /// Delete the root node: an empty tree results from a childless root, a
    /// single child is promoted to root, and a root with two children is
    /// replaced by its in-order successor.
    fn delete_root(&mut self)
        requires
            old(self).avl(),
            old(self).root is Some,
        ensures
            final(self).avl(),
            old(self).nodes@.len() >= 1,
            final(self).nodes@.len() == old(self).nodes@.len() - 1,
            ({
                let rt = old(self).root.unwrap() as int;
                final(self).entries() == old(self).entries().remove(
                    (old(self).nodes@[rt].index as int, old(self).nodes@[rt].value as int),
                )
            }),
            ({
                let s = old(self).rep_shape();
                let pl = payloads(old(self).nodes@);
                let rt = old(self).root.unwrap() as int;
                if old(self).nodes@[rt].left_child is Some && old(self).nodes@[
                    rt
                ].right_child is Some {
                    let m = min_idx(*subtree_at(s, rt)->right);
                    final(self).rep_shape() == shape_freed(
                        spliced(s, m),
                        m,
                        old(self).nodes@.len() - 1,
                    ) && payloads(final(self).nodes@) == seq_freed(pl.update(rt, pl[m]), m)
                } else {
                    final(self).rep_shape() == shape_freed(
                        spliced(s, rt),
                        rt,
                        old(self).nodes@.len() - 1,
                    ) && payloads(final(self).nodes@) == seq_freed(pl, rt)
                }
            }),
        decreases 2int,
    {
        broadcast use vstd::seq_lib::group_to_multiset_ensures;

        let ghost s = choose|t: Shape|
            #[trigger] self.linked_by(t) && heights_ok(t, self.nodes@) && sbalanced(t);
        let ghost nodes0 = self.nodes@;
        let rt = match self.root {
            Some(rt) => rt,
            None => unreached(),
        };
        proof {
            assert(self.linked_by(s));
            self.lemma_rep(s);
            assert(s is Vertex && s->idx == rt as int);
            assert(idxs(s).contains(rt as int));
            lemma_in_range(s, nodes0, None);
            vstd::set_lib::lemma_int_range(0, nodes0.len() as int);
        }
        let ghost sl = *s->left;
        let ghost sr = *s->right;
        let nd = self.nodes[rt];
        if nd.left_child.is_none() && nd.right_child.is_none() {
            proof {
                assert(sl is Nil && sr is Nil);
                assert(idxs(s) =~= Set::<int>::empty().insert(rt as int));
                assert(idxs(s).len() == 1);
                assert(nodes0.len() == 1);
                assert(rt == 0);
            }
            let _ = self.nodes.pop();
            self.root = None;
            proof {
                assert(idxs(Shape::Nil) =~= vstd::set_lib::set_int_range(0, 0));
                assert(self.linked_by(Shape::Nil));
                self.lemma_rep(Shape::Nil);
                assert(spliced(s, rt as int) == Shape::Nil);
                assert(payloads(self.nodes@) =~= seq_freed(payloads(nodes0), rt as int));
                assert(heights_ok(Shape::Nil, self.nodes@) && sbalanced(Shape::Nil));
                assert(payloads(self.nodes@) =~= payloads(nodes0).remove(0));
                assert(payloads(self.nodes@).to_multiset() =~= payloads(
                    nodes0,
                ).to_multiset().remove(payloads(nodes0)[0]));
                assert(payloads(nodes0)[0] == (nodes0[0].index as int, nodes0[0].value as int));
            }
        } else if nd.left_child.is_some() && nd.right_child.is_some() {
            self.delete_node_with_children(rt);
        } else {
            // Exactly one child: it becomes the new root.
            let ghost child_shape = if sl is Vertex {
                sl
            } else {
                sr
            };
            let c = match nd.left_child {
                Some(c) => c,
                None => match nd.right_child {
                    Some(c) => c,
                    None => unreached(),
                },
            };
            proof {
                assert(child_shape is Vertex && child_shape->idx == c as int);
                assert(idxs(child_shape).contains(c as int));
                assert(idxs(s).contains(c as int));
                assert(shape_wf(child_shape, nodes0, Some(rt as int)));
                assert(heights_ok(child_shape, nodes0));
                assert(sbalanced(child_shape) && uniq(child_shape));
            }
            let mut nc = self.nodes[c];
            nc.parent = None;
            self.nodes[c] = nc;
            self.root = Some(c);
            proof {
                let n1 = self.nodes@;
                lemma_reparent(child_shape, nodes0, n1, Some(rt as int), None);
                assert(forall|j: int| 0 <= j < n1.len()
                    ==> (#[trigger] n1[j].value) == nodes0[j].value
                        && n1[j].index == nodes0[j].index);
                lemma_payloads_eq(nodes0, n1);
                assert(idxs(child_shape) =~= vstd::set_lib::set_int_range(
                    0,
                    n1.len() as int,
                ).remove(rt as int)) by {
                    assert(sl is Nil || sr is Nil);
                    assert(forall|j: int| #[trigger] idxs(s).contains(j)
                        ==> j == rt as int || idxs(child_shape).contains(j));
                    assert(forall|j: int| #[trigger] idxs(child_shape).contains(j)
                        ==> idxs(s).contains(j) && j != rt as int);
                }
                assert(opt_i(self.root) == root_of(child_shape));
                lemma_payloads_index(n1, rt as int);
                lemma_payloads_index(nodes0, rt as int);
                assert(n1[rt as int].index == nodes0[rt as int].index
                    && n1[rt as int].value == nodes0[rt as int].value);
            }
            let ghost mid = *self;
            proof {
                assert(spliced(s, rt as int) == child_shape);
                assert(payloads(mid.nodes@) == payloads(nodes0));
            }
            self.remove_slot(rt, Ghost(child_shape));
            proof {
                assert(mid.entries() == old(self).entries());
            }
        }
    }

    /// Delete a node that has both children: copy the payload of its
    /// in-order successor (the minimum of its right subtree) into it, then
    /// delete that successor, which never has a left child.
    fn delete_node_with_children(&mut self, i: usize)
        requires
            old(self).avl(),
            i < old(self).nodes@.len(),
            old(self).nodes@[i as int].left_child is Some,
            old(self).nodes@[i as int].right_child is Some,
        ensures
            final(self).avl(),
            final(self).nodes@.len() == old(self).nodes@.len() - 1,
            final(self).entries() == old(self).entries().remove(
                (old(self).nodes@[i as int].index as int, old(self).nodes@[i as int].value as int),
            ),
            ({
                let s = old(self).rep_shape();
                let pl = payloads(old(self).nodes@);
                let m = min_idx(*subtree_at(s, i as int)->right);
                final(self).rep_shape() == shape_freed(
                    spliced(s, m),
                    m,
                    old(self).nodes@.len() - 1,
                ) && payloads(final(self).nodes@) == seq_freed(pl.update(i as int, pl[m]), m)
            }),
        decreases 1int,
    {
        let ghost s = choose|t: Shape|
            #[trigger] self.linked_by(t) && heights_ok(t, self.nodes@) && sbalanced(t);
        let ghost nodes0 = self.nodes@;
        proof {
            assert(self.linked_by(s));
            self.lemma_rep(s);
            assert(idxs(s).contains(i as int));
            lemma_in_range(s, nodes0, None);
            lemma_subtree_at(s, nodes0, None, i as int);
        }
        let ghost subi = subtree_at(s, i as int);
        let ghost subr = *subi->right;
        let rc = match self.nodes[i].right_child {
            Some(c) => c,
            None => unreached(),
        };
        proof {
            assert(shape_wf(subi, nodes0, opt_i(nodes0[i as int].parent)));
            assert(opt_i(nodes0[i as int].right_child) == root_of(subr));
            assert(subr is Vertex && subr->idx == rc as int);
            assert(shape_wf(subr, nodes0, Some(i as int)));
            assert(uniq(subr));
            assert(idxs(subr).contains(rc as int));
            assert(idxs(subi).contains(rc as int));
            assert(idxs(s).contains(rc as int));
            assert(opt_i(nodes0[rc as int].parent) == Some(i as int));
        }
        let succ = self.min_in(rc, Ghost(subr));
        let ghost spair = (nodes0[succ as int].index as int, nodes0[succ as int].value as int);
        proof {
            assert(idxs(subr).contains(succ as int));
            assert(idxs(subi).contains(succ as int));
            assert(!idxs(subr).contains(i as int));
            assert(succ != i);
        }
        let snd = self.nodes[succ];
        let mut me = self.nodes[i];
        me.value = snd.value;
        me.index = snd.index;
        self.nodes[i] = me;
        proof {
            let n1 = self.nodes@;
            assert(n1[i as int] == (Node {
                value: nodes0[succ as int].value,
                index: nodes0[succ as int].index,
                ..nodes0[i as int]
            }));
            // The successor key respects both of this node's subtrees.
            assert(forall|j: int| #[trigger] idxs(*subi->right).contains(j)
                ==> nodes0[j].value >= nodes0[succ as int].value);
            assert forall|j: int| #[trigger] idxs(*subi->left).contains(j)
                implies nodes0[j].value <= nodes0[succ as int].value by {
                assert(nodes0[j].value <= nodes0[i as int].value);
                assert(nodes0[succ as int].value >= nodes0[i as int].value);
            }
            lemma_update_value(s, nodes0, n1, None, i as int, succ as int);
            assert(shape_wf(s, n1, None));
            assert(heights_ok(s, n1));
            assert(idxs(s) =~= vstd::set_lib::set_int_range(0, n1.len() as int));
            assert(opt_i(self.root) == root_of(s));
            assert(self.linked_by(s));
            self.lemma_rep(s);
            assert(succ as int == min_idx(subr));
            assert(min_idx(*subtree_at(s, i as int)->right) == succ as int);
            lemma_payloads_index(nodes0, succ as int);
            assert(payloads(nodes0)[succ as int] == spair);
            // The successor is neither the root nor a two-child node.
            lemma_members(s, n1, None);
            assert(n1[succ as int].parent == nodes0[succ as int].parent);
            assert(opt_i(n1[succ as int].parent) == Some(i as int)
                || idxs(subr).contains(succ as int));
            if opt_i(self.root) == Some(succ as int) {
                assert(root_of(s) == Some(succ as int));
                assert(s is Vertex && s->idx == succ as int);
                assert(opt_i(n1[succ as int].parent) == None::<int>);
                lemma_members(subr, nodes0, Some(i as int));
                if root_of(subr) == Some(succ as int) {
                    assert(opt_i(nodes0[succ as int].parent) == Some(i as int));
                } else {
                    assert(match nodes0[succ as int].parent {
                        Some(_) => true,
                        None => false,
                    });
                }
                assert(false);
            }
            assert(n1[succ as int].left_child is None);
        }
        let ghost mid = *self;
        self.delete_node(succ);
        proof {
            broadcast use vstd::seq_lib::group_to_multiset_ensures;

            // Account for the payload copy and the successor's removal.
            assert(payloads(mid.nodes@) =~= payloads(nodes0).update(i as int, spair));
            assert(payloads(mid.nodes@).to_multiset() =~= payloads(nodes0).to_multiset().remove(
                (nodes0[i as int].index as int, nodes0[i as int].value as int),
            ).insert(spair));
            lemma_payloads_index(mid.nodes@, succ as int);
            assert(payloads(mid.nodes@)[succ as int] == spair);
            assert((mid.nodes@[succ as int].index as int, mid.nodes@[succ as int].value as int)
                == spair);
            assert(final(self).entries() =~= old(self).entries().remove(
                (old(self).nodes@[i as int].index as int, old(self).nodes@[i as int].value as int),
            ));
        }
    }


    /// A left rotation at node `x`, which must have a right child: the
    /// right child takes `x`'s place under `x`'s former parent (or becomes
    /// the tree root), its former left subtree becomes `x`'s right subtree,
    /// and `x` becomes its left child.  Only the cached heights inside the
    /// subtree rooted at `x` need to be correct beforehand — stale caches
    /// at and above `x` are allowed.  On return `x`'s height and then the
    /// risen child's are recomputed, so every cache inside the rotated
    /// subtree is correct; every node outside it keeps all its fields,
    /// except the former parent, whose child slot now names the risen
    /// child (or the tree root, when `x` was the root).
    pub fn left_rotate(&mut self, x: usize)
        requires
            old(self).linked(),
            x < old(self).nodes@.len(),
            old(self).nodes@[x as int].right_child is Some,
            heights_ok(subtree_at(old(self).rep_shape(), x as int), old(self).nodes@),
        ensures
            final(self).linked(),
            final(self).nodes@.len() == old(self).nodes@.len(),
            payloads(final(self).nodes@) == payloads(old(self).nodes@),
            ({
                let sub = subtree_at(old(self).rep_shape(), x as int);
                let rotated = rot_left(sub);
                &&& final(self).rep_shape() == replace_at(
                    old(self).rep_shape(),
                    x as int,
                    rotated,
                )
                &&& subtree_at(final(self).rep_shape(), rotated->idx) == rotated
                &&& heights_ok(rotated, final(self).nodes@)
                &&& forall|j: int|
                    0 <= j < old(self).nodes@.len() && !(#[trigger] idxs(sub).contains(j))
                        && opt_i(old(self).nodes@[x as int].parent) != Some(j)
                        ==> final(self).nodes@[j] == old(self).nodes@[j]
                &&& match old(self).nodes@[x as int].parent {
                    Some(p) => final(self).nodes@[p as int] == relink(
                        old(self).nodes@[p as int],
                        Some(x as int),
                        root_link(rotated),
                    ) && final(self).root == old(self).root,
                    None => opt_i(final(self).root) == root_of(rotated),
                }
            }),
            ({
                let y = old(self).nodes@[x as int].right_child.unwrap() as int;
                &&& final(self).nodes@[y].parent == old(self).nodes@[x as int].parent
                &&& final(self).nodes@[y].left_child == Some(x)
                &&& final(self).nodes@[x as int].parent == Some(
                    old(self).nodes@[x as int].right_child.unwrap(),
                )
                &&& final(self).nodes@[x as int].right_child == old(self).nodes@[y].left_child
                &&& match old(self).nodes@[y].left_child {
                    Some(b) => final(self).nodes@[b as int].parent == Some(x),
                    None => true,
                }
                &&& (old(self).nodes@[x as int].parent is None ==> final(self).root == Some(
                    old(self).nodes@[x as int].right_child.unwrap(),
                ))
            }),
    {
        let ghost s = choose|t: Shape| self.linked_by(t);
        let ghost nodes0 = self.nodes@;
        let n_len = self.nodes.len();
        proof {
            assert(self.linked_by(s));
            self.lemma_rep(s);
            assert(idxs(s).contains(x as int));
            lemma_subtree_at(s, nodes0, None, x as int);
            lemma_members(s, nodes0, None);
        }
        let ghost sub = subtree_at(s, x as int);
        let ghost plink = opt_i(self.nodes@[x as int].parent);
        proof {
            assert(sub is Vertex && sub->idx == x as int);
            assert(shape_wf(sub, nodes0, plink));
            assert(opt_i(nodes0[x as int].right_child) == root_of(*sub->right));
            assert((*sub->right) is Vertex);
            assert(heights_ok(sub, nodes0));
            assert(heights_ok(*sub->left, nodes0));
            assert(heights_ok(*sub->right, nodes0));
            assert(heights_ok(*(*sub->right)->left, nodes0) && heights_ok(
                *(*sub->right)->right,
                nodes0,
            ));
            lemma_parent_not_in_subtree(s, nodes0, None, x as int);
            match plink {
                Some(p) => {
                    assert(root_of(s) != Some(x as int));
                    assert(idxs(s).contains(p) && 0 <= p < nodes0.len());
                    assert(nodes0[p as int].left_child == Some(x)
                        || nodes0[p as int].right_child == Some(x));
                    assert(!idxs(sub).contains(p));
                },
                None => {
                    assert(root_of(s) == Some(x as int));
                },
            }
        }
        let res = self.rotate_left_at(x, Ghost(sub), Ghost(plink));
        proof {
            let n1 = self.nodes@;
            assert(n1.len() == n_len);
            lemma_replace_at(s, nodes0, n1, None, x as int, res@);
            let s2 = replace_at(s, x as int, res@);
            assert(idxs(s2) =~= vstd::set_lib::set_int_range(0, n1.len() as int));
            assert(opt_i(self.root) == root_of(s2));
            assert(self.linked_by(s2));
            self.lemma_rep(s2);
            assert(res@ == rot_left(sub));
            // The rotated subtree sits in the new tree where it was built.
            assert(idxs(res@).contains(res@->idx));
            assert(idxs(sub).contains(res@->idx));
            assert(idxs(s2).contains(res@->idx));
            lemma_subtree_at(s2, n1, None, res@->idx);
            lemma_shape_unique(
                subtree_at(s2, res@->idx),
                res@,
                n1,
                opt_i(n1[res@->idx].parent),
                plink,
            );
            // The per-slot link facts, read off the rotated subtree's
            // well-formedness.
            let y = res@->idx;
            assert(shape_wf(res@, n1, plink));
            assert(opt_i(n1[y].parent) == plink);
            assert(opt_i(n1[y].left_child) == root_of(*res@->left));
            assert((*res@->left) is Vertex && (*res@->left)->idx == x as int);
            assert(shape_wf(*res@->left, n1, Some(y)));
            assert(opt_i(n1[x as int].parent) == Some(y));
            assert(opt_i(n1[x as int].right_child) == root_of(*(*res@->left)->right));
            assert((*(*res@->left)->right) == *(*sub->right)->left);
            assert(shape_wf(*sub->right, nodes0, Some(x as int)));
            assert((*sub->right)->idx == y);
            assert(opt_i(nodes0[y].left_child) == root_of(*(*sub->right)->left));
            match nodes0[y].left_child {
                Some(b) => {
                    assert((*(*sub->right)->left) is Vertex
                        && (*(*sub->right)->left)->idx == b as int);
                    assert(shape_wf(*(*res@->left)->right, n1, Some(x as int)));
                    assert(opt_i(n1[b as int].parent) == Some(x as int));
                },
                None => {},
            }
        }
    }

    /// A right rotation at node `x`, which must have a left child: the
    /// mirror image of `left_rotate`, with the same height discipline.
    pub fn right_rotate(&mut self, x: usize)
        requires
            old(self).linked(),
            x < old(self).nodes@.len(),
            old(self).nodes@[x as int].left_child is Some,
            heights_ok(subtree_at(old(self).rep_shape(), x as int), old(self).nodes@),
        ensures
            final(self).linked(),
            final(self).nodes@.len() == old(self).nodes@.len(),
            payloads(final(self).nodes@) == payloads(old(self).nodes@),
            ({
                let sub = subtree_at(old(self).rep_shape(), x as int);
                let rotated = rot_right(sub);
                &&& final(self).rep_shape() == replace_at(
                    old(self).rep_shape(),
                    x as int,
                    rotated,
                )
                &&& subtree_at(final(self).rep_shape(), rotated->idx) == rotated
                &&& heights_ok(rotated, final(self).nodes@)
                &&& forall|j: int|
                    0 <= j < old(self).nodes@.len() && !(#[trigger] idxs(sub).contains(j))
                        && opt_i(old(self).nodes@[x as int].parent) != Some(j)
                        ==> final(self).nodes@[j] == old(self).nodes@[j]
                &&& match old(self).nodes@[x as int].parent {
                    Some(p) => final(self).nodes@[p as int] == relink(
                        old(self).nodes@[p as int],
                        Some(x as int),
                        root_link(rotated),
                    ) && final(self).root == old(self).root,
                    None => opt_i(final(self).root) == root_of(rotated),
                }
            }),
            ({
                let y = old(self).nodes@[x as int].left_child.unwrap() as int;
                &&& final(self).nodes@[y].parent == old(self).nodes@[x as int].parent
                &&& final(self).nodes@[y].right_child == Some(x)
                &&& final(self).nodes@[x as int].parent == Some(
                    old(self).nodes@[x as int].left_child.unwrap(),
                )
                &&& final(self).nodes@[x as int].left_child == old(self).nodes@[y].right_child
                &&& match old(self).nodes@[y].right_child {
                    Some(b) => final(self).nodes@[b as int].parent == Some(x),
                    None => true,
                }
                &&& (old(self).nodes@[x as int].parent is None ==> final(self).root == Some(
                    old(self).nodes@[x as int].left_child.unwrap(),
                ))
            }),
    {
        let ghost s = choose|t: Shape| self.linked_by(t);
        let ghost nodes0 = self.nodes@;
        let n_len = self.nodes.len();
        proof {
            assert(self.linked_by(s));
            self.lemma_rep(s);
            assert(idxs(s).contains(x as int));
            lemma_subtree_at(s, nodes0, None, x as int);
            lemma_members(s, nodes0, None);
        }
        let ghost sub = subtree_at(s, x as int);
        let ghost plink = opt_i(self.nodes@[x as int].parent);
        proof {
            assert(sub is Vertex && sub->idx == x as int);
            assert(shape_wf(sub, nodes0, plink));
            assert(opt_i(nodes0[x as int].left_child) == root_of(*sub->left));
            assert((*sub->left) is Vertex);
            assert(heights_ok(sub, nodes0));
            assert(heights_ok(*sub->right, nodes0));
            assert(heights_ok(*sub->left, nodes0));
            assert(heights_ok(*(*sub->left)->left, nodes0) && heights_ok(
                *(*sub->left)->right,
                nodes0,
            ));
            lemma_parent_not_in_subtree(s, nodes0, None, x as int);
            match plink {
                Some(p) => {
                    assert(root_of(s) != Some(x as int));
                    assert(idxs(s).contains(p) && 0 <= p < nodes0.len());
                    assert(nodes0[p as int].left_child == Some(x)
                        || nodes0[p as int].right_child == Some(x));
                    assert(!idxs(sub).contains(p));
                },
                None => {
                    assert(root_of(s) == Some(x as int));
                },
            }
        }
        let res = self.rotate_right_at(x, Ghost(sub), Ghost(plink));
        proof {
            let n1 = self.nodes@;
            assert(n1.len() == n_len);
            lemma_replace_at(s, nodes0, n1, None, x as int, res@);
            let s2 = replace_at(s, x as int, res@);
            assert(idxs(s2) =~= vstd::set_lib::set_int_range(0, n1.len() as int));
            assert(opt_i(self.root) == root_of(s2));
            assert(self.linked_by(s2));
            self.lemma_rep(s2);
            assert(res@ == rot_right(sub));
            // The rotated subtree sits in the new tree where it was built.
            assert(idxs(res@).contains(res@->idx));
            assert(idxs(sub).contains(res@->idx));
            assert(idxs(s2).contains(res@->idx));
            lemma_subtree_at(s2, n1, None, res@->idx);
            lemma_shape_unique(
                subtree_at(s2, res@->idx),
                res@,
                n1,
                opt_i(n1[res@->idx].parent),
                plink,
            );
            // The per-slot link facts, read off the rotated subtree's
            // well-formedness.
            let y = res@->idx;
            assert(shape_wf(res@, n1, plink));
            assert(opt_i(n1[y].parent) == plink);
            assert(opt_i(n1[y].right_child) == root_of(*res@->right));
            assert((*res@->right) is Vertex && (*res@->right)->idx == x as int);
            assert(shape_wf(*res@->right, n1, Some(y)));
            assert(opt_i(n1[x as int].parent) == Some(y));
            assert(opt_i(n1[x as int].left_child) == root_of(*(*res@->right)->left));
            assert((*(*res@->right)->left) == *(*sub->left)->right);
            assert(shape_wf(*sub->left, nodes0, Some(x as int)));
            assert((*sub->left)->idx == y);
            assert(opt_i(nodes0[y].right_child) == root_of(*(*sub->left)->right));
            match nodes0[y].right_child {
                Some(b) => {
                    assert((*(*sub->left)->right) is Vertex
                        && (*(*sub->left)->right)->idx == b as int);
                    assert(shape_wf(*(*res@->right)->left, n1, Some(x as int)));
                    assert(opt_i(n1[b as int].parent) == Some(x as int));
                },
                None => {},
            }
        }
    }

    /// The level-order key sequence of the subtree rooted at `i`:
    /// breadth-first, enqueueing the left child before the right one.
    pub open spec fn level_order(&self, i: int) -> Seq<int> {
        bfs(seq![subtree_at(self.rep_shape(), i)], self.nodes@)
    }


    /// Cached heights are locally correct and balance factors lie in
    /// [-1, 1], at every node.
    #[verifier::rlimit(100)]
    proof fn lemma_inv_heights(&self)
        requires
            self.avl(),
        ensures
            forall|j: int|
                0 <= j < self.nodes@.len() ==> (#[trigger] self.nodes@[j].height)
                    == 1 + (if child_height(self.nodes@[j].left_child, self.nodes@)
                    > child_height(self.nodes@[j].right_child, self.nodes@) {
                    child_height(self.nodes@[j].left_child, self.nodes@)
                } else {
                    child_height(self.nodes@[j].right_child, self.nodes@)
                }),
            forall|j: int|
                0 <= j < self.nodes@.len() ==> -1 <= child_height(
                    (#[trigger] self.nodes@[j]).right_child,
                    self.nodes@,
                ) - child_height(self.nodes@[j].left_child, self.nodes@) <= 1,
    {
        let s = choose|t: Shape|
            #[trigger] self.linked_by(t) && heights_ok(t, self.nodes@) && sbalanced(t);
        assert(self.linked_by(s));
        let nodes = self.nodes@;
        lemma_in_range(s, nodes, None);
        assert forall|j: int| #![trigger nodes[j]]
            0 <= j < nodes.len() implies nodes[j].height == 1 + (if child_height(
            nodes[j].left_child,
            nodes,
        ) > child_height(nodes[j].right_child, nodes) {
            child_height(nodes[j].left_child, nodes)
        } else {
            child_height(nodes[j].right_child, nodes)
        }) && -1 <= child_height(nodes[j].right_child, nodes) - child_height(
            nodes[j].left_child,
            nodes,
        ) <= 1 by {
            assert(idxs(s).contains(j));
            lemma_subtree_at(s, nodes, None, j);
            let sub = subtree_at(s, j);
            let sl = *sub->left;
            let sr = *sub->right;
            assert(heights_ok(sub, nodes) && sbalanced(sub));
            assert(heights_ok(sl, nodes) && heights_ok(sr, nodes));
            if sl is Vertex {
                assert(idxs(sl).contains(sl->idx));
                assert(nodes[sl->idx].height == sheight(sl));
            }
            if sr is Vertex {
                assert(idxs(sr).contains(sr->idx));
                assert(nodes[sr->idx].height == sheight(sr));
            }
            assert(child_height(nodes[j].left_child, nodes) == sheight(sl));
            assert(child_height(nodes[j].right_child, nodes) == sheight(sr));
            assert(nodes[j].height == sheight(sub));
        }
    }

    /// Every key of a node's left subtree is at most the node's key, and
    /// every key of its right subtree at least it.
    #[verifier::rlimit(100)]
    proof fn lemma_inv_order(&self)
        requires
            self.avl(),
        ensures
            forall|j: int|
                0 <= j < self.nodes@.len() ==> match (#[trigger] self.nodes@[j]).left_child {
                    Some(c) => forall|k: int|
                        #[trigger] self.subtree_idxs(c as int).contains(k) ==> self.nodes@[
                            k
                        ].value <= self.nodes@[j].value,
                    None => true,
                },
            forall|j: int|
                0 <= j < self.nodes@.len() ==> match (#[trigger] self.nodes@[j]).right_child {
                    Some(c) => forall|k: int|
                        #[trigger] self.subtree_idxs(c as int).contains(k) ==> self.nodes@[
                            k
                        ].value >= self.nodes@[j].value,
                    None => true,
                },
    {
        let s = choose|t: Shape|
            #[trigger] self.linked_by(t) && heights_ok(t, self.nodes@) && sbalanced(t);
        assert(self.linked_by(s));
        self.lemma_rep(s);
        let nodes = self.nodes@;
        lemma_in_range(s, nodes, None);
        lemma_members(s, nodes, None);
        assert forall|j: int| 0 <= j < nodes.len() implies match (#[trigger] nodes[j]).left_child {
            Some(c) => forall|k: int|
                #[trigger] self.subtree_idxs(c as int).contains(k) ==> nodes[k].value <= nodes[
                    j
                ].value,
            None => true,
        } by {
            assert(idxs(s).contains(j));
            lemma_subtree_at(s, nodes, None, j);
            let sub = subtree_at(s, j);
            match nodes[j].left_child {
                Some(c) => {
                    assert(root_of(*sub->left) == Some(c as int));
                    assert(idxs(s).contains(c as int));
                    lemma_subtree_at(s, nodes, None, c as int);
                    lemma_shape_unique(
                        subtree_at(s, c as int),
                        *sub->left,
                        nodes,
                        opt_i(nodes[c as int].parent),
                        Some(j),
                    );
                    assert(self.subtree_idxs(c as int) == idxs(*sub->left));
                },
                None => {},
            }
        }
        assert forall|j: int| 0 <= j < nodes.len() implies match (
        #[trigger] nodes[j]).right_child {
            Some(c) => forall|k: int|
                #[trigger] self.subtree_idxs(c as int).contains(k) ==> nodes[k].value >= nodes[
                    j
                ].value,
            None => true,
        } by {
            assert(idxs(s).contains(j));
            lemma_subtree_at(s, nodes, None, j);
            let sub = subtree_at(s, j);
            match nodes[j].right_child {
                Some(c) => {
                    assert(root_of(*sub->right) == Some(c as int));
                    assert(idxs(s).contains(c as int));
                    lemma_subtree_at(s, nodes, None, c as int);
                    lemma_shape_unique(
                        subtree_at(s, c as int),
                        *sub->right,
                        nodes,
                        opt_i(nodes[c as int].parent),
                        Some(j),
                    );
                    assert(self.subtree_idxs(c as int) == idxs(*sub->right));
                },
                None => {},
            }
        }
    }

    /// The AVL tree invariants, read off the arena directly: every cached
    /// height is one more than the taller child's cache, every balance
    /// factor lies in [-1, 1], child and parent links point at each other,
    /// the root has no parent and is the only such node, and the keys of
    /// every node's left and right subtrees bound its own key from below
    /// and above.
    pub proof fn lemma_avl_invariants(&self)
        requires
            self.avl(),
        ensures
            forall|j: int|
                0 <= j < self.nodes@.len() ==> (#[trigger] self.nodes@[j].height)
                    == 1 + (if child_height(self.nodes@[j].left_child, self.nodes@)
                    > child_height(self.nodes@[j].right_child, self.nodes@) {
                    child_height(self.nodes@[j].left_child, self.nodes@)
                } else {
                    child_height(self.nodes@[j].right_child, self.nodes@)
                }),
            forall|j: int|
                0 <= j < self.nodes@.len() ==> -1 <= child_height(
                    (#[trigger] self.nodes@[j]).right_child,
                    self.nodes@,
                ) - child_height(self.nodes@[j].left_child, self.nodes@) <= 1,
            forall|j: int|
                0 <= j < self.nodes@.len() ==> match (#[trigger] self.nodes@[j]).left_child {
                    Some(c) => c < self.nodes@.len() && self.nodes@[c as int].parent == Some(
                        j as usize,
                    ),
                    None => true,
                },
            forall|j: int|
                0 <= j < self.nodes@.len() ==> match (#[trigger] self.nodes@[j]).right_child {
                    Some(c) => c < self.nodes@.len() && self.nodes@[c as int].parent == Some(
                        j as usize,
                    ),
                    None => true,
                },
            forall|j: int|
                0 <= j < self.nodes@.len() ==> match (#[trigger] self.nodes@[j]).parent {
                    Some(p) => p < self.nodes@.len() && (self.nodes@[p as int].left_child == Some(
                        j as usize,
                    ) || self.nodes@[p as int].right_child == Some(j as usize)),
                    None => self.root == Some(j as usize),
                },
            match self.root {
                Some(r) => r < self.nodes@.len() && self.nodes@[r as int].parent is None,
                None => self.nodes@.len() == 0,
            },
            forall|j: int|
                0 <= j < self.nodes@.len() ==> match (#[trigger] self.nodes@[j]).left_child {
                    Some(c) => forall|k: int|
                        #[trigger] self.subtree_idxs(c as int).contains(k) ==> self.nodes@[
                            k
                        ].value <= self.nodes@[j].value,
                    None => true,
                },
            forall|j: int|
                0 <= j < self.nodes@.len() ==> match (#[trigger] self.nodes@[j]).right_child {
                    Some(c) => forall|k: int|
                        #[trigger] self.subtree_idxs(c as int).contains(k) ==> self.nodes@[
                            k
                        ].value >= self.nodes@[j].value,
                    None => true,
                },
    {
        self.lemma_inv_heights();
        self.lemma_inv_order();
        self.lemma_inv_links();
    }

    /// Child links and parent back-references are mutually consistent, and
    /// the root is exactly the node without a parent.
    #[verifier::rlimit(100)]
    #[verifier::spinoff_prover]
    proof fn lemma_inv_links(&self)
        requires
            self.avl(),
        ensures
            forall|j: int|
                0 <= j < self.nodes@.len() ==> match (#[trigger] self.nodes@[j]).left_child {
                    Some(c) => c < self.nodes@.len() && self.nodes@[c as int].parent == Some(
                        j as usize,
                    ),
                    None => true,
                },
            forall|j: int|
                0 <= j < self.nodes@.len() ==> match (#[trigger] self.nodes@[j]).right_child {
                    Some(c) => c < self.nodes@.len() && self.nodes@[c as int].parent == Some(
                        j as usize,
                    ),
                    None => true,
                },
            forall|j: int|
                0 <= j < self.nodes@.len() ==> match (#[trigger] self.nodes@[j]).parent {
                    Some(p) => p < self.nodes@.len() && (self.nodes@[p as int].left_child == Some(
                        j as usize,
                    ) || self.nodes@[p as int].right_child == Some(j as usize)),
                    None => self.root == Some(j as usize),
                },
            match self.root {
                Some(r) => r < self.nodes@.len() && self.nodes@[r as int].parent is None,
                None => self.nodes@.len() == 0,
            },
    {
        let s = choose|t: Shape|
            #[trigger] self.linked_by(t) && heights_ok(t, self.nodes@) && sbalanced(t);
        assert(self.linked_by(s));
        let nodes = self.nodes@;
        lemma_members(s, nodes, None);
        lemma_in_range(s, nodes, None);
        assert(forall|j: int| 0 <= j < nodes.len() ==> idxs(s).contains(j));
        match self.root {
            Some(r) => {
                assert(s is Vertex && s->idx == r as int);
                assert(idxs(s).contains(r as int));
            },
            None => {
                assert(s is Nil);
                assert(idxs(s) =~= Set::<int>::empty());
                vstd::set_lib::lemma_int_range(0, nodes.len() as int);
            },
        }
        assert forall|j: int| 0 <= j < nodes.len() implies match (#[trigger] nodes[j]).parent {
            Some(p) => p < nodes.len() && (nodes[p as int].left_child == Some(j as usize)
                || nodes[p as int].right_child == Some(j as usize)),
            None => self.root == Some(j as usize),
        } by {
            assert(idxs(s).contains(j));
            if root_of(s) == Some(j) {
                assert(opt_i(nodes[j].parent) == None::<int>);
            }
        }
        assert forall|j: int| 0 <= j < nodes.len() implies match (#[trigger] nodes[j]).left_child {
            Some(c) => c < nodes.len() && nodes[c as int].parent == Some(j as usize),
            None => true,
        } by {
            assert(idxs(s).contains(j));
            match nodes[j].left_child {
                Some(c) => {
                    assert(idxs(s).contains(c as int));
                    assert(opt_i(nodes[c as int].parent) == Some(j));
                },
                None => {},
            }
        }
        assert forall|j: int| 0 <= j < nodes.len() implies match (
        #[trigger] nodes[j]).right_child {
            Some(c) => c < nodes.len() && nodes[c as int].parent == Some(j as usize),
            None => true,
        } by {
            assert(idxs(s).contains(j));
            match nodes[j].right_child {
                Some(c) => {
                    assert(idxs(s).contains(c as int));
                    assert(opt_i(nodes[c as int].parent) == Some(j));
                },
                None => {},
            }
        }
    }
}

/// The breadth-first key sequence of the subtree rooted at arena index `i`:
/// nodes are visited level by level, each node's left child enqueued
/// before its right one.
pub fn convert_node_to_vec(tree: &AvlTree, i: usize) -> (r: Vec<i64>)
    requires
        tree.linked(),
        i < tree.nodes@.len(),
    ensures
        r@.map_values(|v: i64| v as int) == tree.level_order(i as int),
{
    let ghost s = choose|t: Shape| tree.linked_by(t);
    proof {
        assert(tree.linked_by(s));
        tree.lemma_rep(s);
        assert(idxs(s).contains(i as int));
        lemma_subtree_at(s, tree.nodes@, None, i as int);
    }
    let ghost sub = subtree_at(s, i as int);
    let ghost target = bfs(seq![sub], tree.nodes@);
    proof {
        assert(tree.level_order(i as int) == target);
    }
    let mut result: Vec<i64> = Vec::new();
    let mut queue: Vec<usize> = Vec::new();
    queue.push(i);
    let ghost mut qs: Seq<Shape> = seq![sub];
    proof {
        assert(qs[0] == sub);
        assert(shape_wf(sub, tree.nodes@, opt_i(tree.nodes@[sub->idx].parent)));
    }
    while queue.len() > 0
        invariant
            qs.len() == queue@.len(),
            forall|k: int|
                0 <= k < qs.len() ==> ((#[trigger] qs[k]) is Vertex && qs[k]->idx == queue@[
                    k
                ] as int && queue@[k] < tree.nodes@.len() && shape_wf(
                    qs[k],
                    tree.nodes@,
                    opt_i(tree.nodes@[qs[k]->idx].parent),
                )),
            result@.map_values(|v: i64| v as int) + bfs(qs, tree.nodes@) == target,
            tree.level_order(i as int) == target,
        decreases ssize_sum(qs),
    {
        let ghost qs0 = qs;
        let ghost res0 = result@;
        let cur = queue.remove(0);
        let ghost scur = qs[0];
        proof {
            assert(scur is Vertex && scur->idx == cur as int);
            qs = qs.drop_first();
            assert(qs.len() == queue@.len());
            assert(forall|k: int| 0 <= k < qs.len() ==> (#[trigger] qs[k]) == qs0[k + 1]);
            assert(forall|k: int| 0 <= k < qs.len() ==> (#[trigger] queue@[k]) == qs[k]->idx);
        }
        let nd = tree.nodes[cur];
        result.push(nd.value);
        let ghost sl = *scur->left;
        let ghost sr = *scur->right;
        proof {
            assert(shape_wf(scur, tree.nodes@, opt_i(tree.nodes@[cur as int].parent)));
            assert(opt_i(nd.left_child) == root_of(sl));
            assert(opt_i(nd.right_child) == root_of(sr));
            lemma_in_range(scur, tree.nodes@, opt_i(tree.nodes@[cur as int].parent));
            if sl is Vertex {
                assert(idxs(sl).contains(sl->idx));
                assert(idxs(scur).contains(sl->idx));
                assert(shape_wf(sl, tree.nodes@, Some(cur as int)));
                assert(opt_i(tree.nodes@[sl->idx].parent) == Some(cur as int));
            }
            if sr is Vertex {
                assert(idxs(sr).contains(sr->idx));
                assert(idxs(scur).contains(sr->idx));
                assert(shape_wf(sr, tree.nodes@, Some(cur as int)));
                assert(opt_i(tree.nodes@[sr->idx].parent) == Some(cur as int));
            }
        }
        match nd.left_child {
            Some(l) => {
                queue.push(l);
                proof {
                    qs = qs.push(sl);
                }
            },
            None => {},
        }
        match nd.right_child {
            Some(rr) => {
                queue.push(rr);
                proof {
                    qs = qs.push(sr);
                }
            },
            None => {},
        }
        proof {
            // One unfolding of the breadth-first specification.
            let q1 = qs0.drop_first();
            let q2 = if sl is Vertex {
                q1.push(sl)
            } else {
                q1
            };
            let q3 = if sr is Vertex {
                q2.push(sr)
            } else {
                q2
            };
            assert(qs == q3);
            assert(bfs(qs0, tree.nodes@) == seq![tree.nodes@[cur as int].value as int] + bfs(
                q3,
                tree.nodes@,
            ));
            assert(result@ == res0.push(nd.value));
            assert(result@.map_values(|v: i64| v as int) =~= res0.map_values(
                |v: i64| v as int,
            ).push(nd.value as int));
            assert(res0.map_values(|v: i64| v as int).push(nd.value as int) + bfs(
                q3,
                tree.nodes@,
            ) =~= res0.map_values(|v: i64| v as int) + (seq![
                tree.nodes@[cur as int].value as int,
            ] + bfs(q3, tree.nodes@)));
            // Termination: the queue lost a vertex.
            assert(ssize_sum(qs0) == ssize(scur) + ssize_sum(q1));
            if sl is Vertex {
                lemma_ssize_sum_push(q1, sl);
            } else {
                assert(ssize(sl) == 0);
            }
            if sr is Vertex {
                lemma_ssize_sum_push(q2, sr);
            } else {
                assert(ssize(sr) == 0);
            }
            assert(ssize(scur) == 1 + ssize(sl) + ssize(sr));
            assert(ssize_sum(qs) < ssize_sum(qs0));
        }
    }
    proof {
        assert(qs.len() == 0);
        assert(bfs(qs, tree.nodes@) == Seq::<int>::empty());
        assert(result@.map_values(|v: i64| v as int) + Seq::<int>::empty() =~= result@.map_values(
            |v: i64| v as int,
        ));
    }
    result
}

/// Build a tree by inserting each key of `values_list` in order, with the
/// payload tag 0 for every node.
pub fn build_free_from_values(values_list: Vec<i64>) -> (tree: AvlTree)
    ensures
        tree.avl(),
        payloads(tree.nodes@) == values_list@.map_values(|v: i64| (0int, v as int)),
        tree.rep_shape() == built(values_list@.map_values(|v: i64| v as int)),
        tree.entries() == values_list@.map_values(|v: i64| (0int, v as int)).to_multiset(),
{
    broadcast use vstd::seq_lib::group_to_multiset_ensures;

    let ghost ks = values_list@.map_values(|v: i64| v as int);
    let mut tree = AvlTree::new();
    proof {
        assert(values_list@.subrange(0, 0).map_values(|v: i64| (0int, v as int))
            =~= Seq::<(int, int)>::empty());
        assert(payloads(tree.nodes@) =~= Seq::<(int, int)>::empty());
        assert(idxs(Shape::Nil) =~= vstd::set_lib::set_int_range(0, 0));
        assert(tree.linked_by(Shape::Nil));
        tree.lemma_rep(Shape::Nil);
        assert(ks.subrange(0, 0) =~= Seq::<int>::empty());
        assert(built(ks.subrange(0, 0)) == Shape::Nil);
    }
    let mut k: usize = 0;
    while k < values_list.len()
        invariant
            k <= values_list@.len(),
            tree.avl(),
            ks == values_list@.map_values(|v: i64| v as int),
            payloads(tree.nodes@) == values_list@.subrange(0, k as int).map_values(
                |v: i64| (0int, v as int),
            ),
            tree.rep_shape() == built(ks.subrange(0, k as int)),
        decreases values_list@.len() - k,
    {
        let v = values_list[k];
        let ghost pre = tree;
        tree.insert(Node::new(0, v));
        proof {
            assert(values_list@.subrange(0, k + 1).map_values(|v2: i64| (0int, v2 as int))
                =~= values_list@.subrange(0, k as int).map_values(
                |v2: i64| (0int, v2 as int),
            ).push((0int, v as int)));
            // The arena keys so far are the first k input keys.
            assert(pre.nodes@.len() == k);
            assert forall|j: int| 0 <= j < k implies #[trigger] keys(pre.nodes@)[j] == ks.subrange(
                0,
                k as int,
            )[j] by {
                lemma_payloads_index(pre.nodes@, j);
                assert(payloads(pre.nodes@)[j] == (0int, values_list@[j] as int));
            }
            assert(keys(pre.nodes@) =~= ks.subrange(0, k as int));
            // The shape-level insertion reads only those keys.
            pre.lemma_avl_implies_wf();
            pre.lemma_rep_linked();
            assert(idxs(pre.rep_shape()) =~= vstd::set_lib::set_int_range(0, k as int));
            lemma_inserted_frame(
                pre.rep_shape(),
                ks.subrange(0, k as int),
                ks.subrange(0, k + 1),
                k as int,
                v as int,
            );
            // One fold step of the built shape.
            assert(ks.subrange(0, k + 1).drop_last() =~= ks.subrange(0, k as int));
            assert(ks.subrange(0, k + 1).last() == v as int);
            assert(built(ks.subrange(0, k + 1)) == inserted(
                built(ks.subrange(0, k as int)),
                ks.subrange(0, k + 1),
                k as int,
                v as int,
            ));
        }
        k = k + 1;
    }
    proof {
        assert(values_list@.subrange(0, values_list@.len() as int) =~= values_list@);
        assert(ks.subrange(0, values_list@.len() as int) =~= ks);
        assert(payloads(tree.nodes@).to_multiset() == values_list@.map_values(
            |v: i64| (0int, v as int),
        ).to_multiset());
    }
    tree
}

/// Build a tree by inserting each (tag, key) pair in order; the two lists
/// must have the same length.
pub fn build_free_from_index_and_values(values_list: Vec<i64>, index_list: Vec<i64>) -> (tree:
    AvlTree)
    requires
        values_list@.len() == index_list@.len(),
    ensures
        tree.avl(),
        payloads(tree.nodes@) == Seq::new(
            values_list@.len(),
            |k: int| (index_list@[k] as int, values_list@[k] as int),
        ),
        tree.rep_shape() == built(values_list@.map_values(|v: i64| v as int)),
        tree.entries() == Seq::new(
            values_list@.len(),
            |k: int| (index_list@[k] as int, values_list@[k] as int),
        ).to_multiset(),
{
    broadcast use vstd::seq_lib::group_to_multiset_ensures;

    let ghost ks = values_list@.map_values(|v: i64| v as int);
    let mut tree = AvlTree::new();
    proof {
        assert(Seq::new(0, |k: int| (index_list@[k] as int, values_list@[k] as int))
            =~= Seq::<(int, int)>::empty());
        assert(payloads(tree.nodes@) =~= Seq::<(int, int)>::empty());
        assert(idxs(Shape::Nil) =~= vstd::set_lib::set_int_range(0, 0));
        assert(tree.linked_by(Shape::Nil));
        tree.lemma_rep(Shape::Nil);
        assert(ks.subrange(0, 0) =~= Seq::<int>::empty());
        assert(built(ks.subrange(0, 0)) == Shape::Nil);
    }
    let mut k: usize = 0;
    while k < values_list.len()
        invariant
            k <= values_list@.len(),
            values_list@.len() == index_list@.len(),
            tree.avl(),
            ks == values_list@.map_values(|v: i64| v as int),
            payloads(tree.nodes@) == Seq::new(
                k as nat,
                |k2: int| (index_list@[k2] as int, values_list@[k2] as int),
            ),
            tree.rep_shape() == built(ks.subrange(0, k as int)),
        decreases values_list@.len() - k,
    {
        let v = values_list[k];
        let ix = index_list[k];
        let ghost pre = tree;
        tree.insert(Node::new(ix, v));
        proof {
            assert(Seq::new(
                (k + 1) as nat,
                |k2: int| (index_list@[k2] as int, values_list@[k2] as int),
            ) =~= Seq::new(
                k as nat,
                |k2: int| (index_list@[k2] as int, values_list@[k2] as int),
            ).push((ix as int, v as int)));
            // The arena keys so far are the first k input keys.
            assert(pre.nodes@.len() == k);
            assert forall|j: int| 0 <= j < k implies #[trigger] keys(pre.nodes@)[j] == ks.subrange(
                0,
                k as int,
            )[j] by {
                lemma_payloads_index(pre.nodes@, j);
                assert(payloads(pre.nodes@)[j] == (index_list@[j] as int, values_list@[j] as int));
            }
            assert(keys(pre.nodes@) =~= ks.subrange(0, k as int));
            // The shape-level insertion reads only those keys.
            pre.lemma_avl_implies_wf();
            pre.lemma_rep_linked();
            assert(idxs(pre.rep_shape()) =~= vstd::set_lib::set_int_range(0, k as int));
            lemma_inserted_frame(
                pre.rep_shape(),
                ks.subrange(0, k as int),
                ks.subrange(0, k + 1),
                k as int,
                v as int,
            );
            // One fold step of the built shape.
            assert(ks.subrange(0, k + 1).drop_last() =~= ks.subrange(0, k as int));
            assert(ks.subrange(0, k + 1).last() == v as int);
            assert(built(ks.subrange(0, k + 1)) == inserted(
                built(ks.subrange(0, k as int)),
                ks.subrange(0, k + 1),
                k as int,
                v as int,
            ));
        }
        k = k + 1;
    }
    proof {
        assert(ks.subrange(0, values_list@.len() as int) =~= ks);
    }
    tree
}


} // verus!
