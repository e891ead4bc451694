use vstd::prelude::*;
use crate::primitives::aabb::AABB;
use crate::primitives::triangle::TriangleCPU;

verus! {

/// One record of the node array. A leaf names its primitive in `triangle`
/// and has `-1` for both children; an internal node names its two children
/// and has `-1` for `triangle`.
#[derive(Copy, Clone, Debug, PartialEq, Eq)]
pub struct BVHNode {
    pub aabb: AABB,
    pub left: i32,
    pub right: i32,
    pub triangle: i32,
}

/// A bounding volume hierarchy as a mathematical tree, free of any array
/// layout.
pub enum Tree {
    Leaf { primitive: int, bounds: AABB },
    Branch { bounds: AABB, left: Box<Tree>, right: Box<Tree> },
}

impl Tree {
    /// The box stored at the root.
    pub open spec fn bounds(self) -> AABB {
        match self {
            Tree::Leaf { bounds, .. } => bounds,
            Tree::Branch { bounds, .. } => bounds,
        }
    }

    /// Number of nodes.
    pub open spec fn size(self) -> nat
        decreases self,
    {
        match self {
            Tree::Leaf { .. } => 1,
            Tree::Branch { left, right, .. } => 1 + left.size() + right.size(),
        }
    }

    /// Number of leaves.
    pub open spec fn leaf_count(self) -> nat
        decreases self,
    {
        match self {
            Tree::Leaf { .. } => 1,
            Tree::Branch { left, right, .. } => left.leaf_count() + right.leaf_count(),
        }
    }

    /// Number of internal nodes.
    pub open spec fn branch_count(self) -> nat
        decreases self,
    {
        match self {
            Tree::Leaf { .. } => 0,
            Tree::Branch { left, right, .. } => 1 + left.branch_count() + right.branch_count(),
        }
    }

    /// The primitive indices of the leaves, from left to right.
    pub open spec fn leaves(self) -> Seq<int>
        decreases self,
    {
        match self {
            Tree::Leaf { primitive, .. } => seq![primitive],
            Tree::Branch { left, right, .. } => left.leaves() + right.leaves(),
        }
    }

    /// Whether every leaf's primitive index fits a node record.
    pub open spec fn storable(self) -> bool
        decreases self,
    {
        match self {
            Tree::Leaf { primitive, .. } => 0 <= primitive <= i32::MAX,
            Tree::Branch { left, right, .. } => left.storable() && right.storable(),
        }
    }

    /// The record of the root, given where its children are stored.
    pub open spec fn record(self, left_index: int, right_index: int) -> BVHNode {
        match self {
            Tree::Leaf { primitive, bounds } => BVHNode {
                aabb: bounds,
                left: -1i32,
                right: -1i32,
                triangle: primitive as i32,
            },
            Tree::Branch { bounds, .. } => BVHNode {
                aabb: bounds,
                left: left_index as i32,
                right: right_index as i32,
                triangle: -1i32,
            },
        }
    }

    /// The layout in which children come before their parent, the left
    /// subtree first, when the first record lands at index `base`.
    pub open spec fn postorder(self, base: int) -> Seq<BVHNode>
        decreases self,
    {
        match self {
            Tree::Leaf { .. } => seq![self.record(-1, -1)],
            Tree::Branch { left, right, .. } => left.postorder(base) + right.postorder(
                base + left.size(),
            ) + seq![
                self.record(base + left.size() - 1, base + left.size() + right.size() - 1),
            ],
        }
    }

    /// The depth-first layout: a parent, then its whole left subtree, then
    /// its whole right subtree, when the root lands at index `base`.
    pub open spec fn preorder(self, base: int) -> Seq<BVHNode>
        decreases self,
    {
        match self {
            Tree::Leaf { .. } => seq![self.record(-1, -1)],
            Tree::Branch { left, right, .. } => seq![
                self.record(base + 1, base + 1 + left.size()),
            ] + left.preorder(base + 1) + right.preorder(base + 1 + left.size()),
        }
    }

    /// Whether `nodes` holds this tree with its root at `index`.
    pub open spec fn is_at(self, nodes: Seq<BVHNode>, index: int) -> bool
        decreases self,
    {
        &&& 0 <= index < nodes.len()
        &&& match self {
            Tree::Leaf { primitive, bounds } => {
                &&& 0 <= primitive <= i32::MAX
                &&& nodes[index] == self.record(-1, -1)
            },
            Tree::Branch { bounds, left, right } => {
                &&& nodes[index].aabb == bounds
                &&& nodes[index].triangle == -1
                &&& left.is_at(nodes, nodes[index].left as int)
                &&& right.is_at(nodes, nodes[index].right as int)
            },
        }
    }

    /// The array indices that a walk from `index` visits: a node, then its
    /// left subtree, then its right subtree.
    pub open spec fn walk(self, nodes: Seq<BVHNode>, index: int) -> Seq<int>
        decreases self,
    {
        match self {
            Tree::Leaf { .. } => seq![index],
            Tree::Branch { left, right, .. } => seq![index] + left.walk(
                nodes,
                nodes[index].left as int,
            ) + right.walk(nodes, nodes[index].right as int),
        }
    }

    /// Whether this tree is a hierarchy over the primitives that start at
    /// index `first`: its leaves name `first`, `first + 1`, ... from left to
    /// right, each leaf carries its primitive's own box, and each internal
    /// node carries the join of its children's boxes.
    pub open spec fn covers(self, primitives: Seq<TriangleCPU>, first: int) -> bool
        decreases self,
    {
        match self {
            Tree::Leaf { primitive, bounds } => {
                &&& primitive == first
                &&& 0 <= first < primitives.len()
                &&& bounds == primitives[first]@.bbox
            },
            Tree::Branch { bounds, left, right } => {
                &&& left.covers(primitives, first)
                &&& right.covers(primitives, first + left.leaf_count())
                &&& bounds == left.bounds().joined(right.bounds())
            },
        }
    }

    /// A tree has one leaf more than it has internal nodes.
    pub proof fn lemma_counts(self)
        ensures
            self.size() == self.leaf_count() + self.branch_count(),
            self.leaf_count() == self.branch_count() + 1,
            self.leaves().len() == self.leaf_count(),
        decreases self,
    {
        match self {
            Tree::Leaf { .. } => {},
            Tree::Branch { left, right, .. } => {
                left.lemma_counts();
                right.lemma_counts();
            },
        }
    }

    /// Both layouts hold one record per node.
    pub proof fn lemma_layout_len(self, base: int)
        ensures
            self.postorder(base).len() == self.size(),
            self.preorder(base).len() == self.size(),
        decreases self,
    {
        match self {
            Tree::Leaf { .. } => {},
            Tree::Branch { left, right, .. } => {
                left.lemma_layout_len(base);
                right.lemma_layout_len(base + left.size());
                left.lemma_layout_len(base + 1);
                right.lemma_layout_len(base + 1 + left.size());
            },
        }
    }

    /// The last record of the children-first layout is the root's, and it
    /// carries the root's box.
    pub proof fn lemma_root_record(self, base: int)
        ensures
            self.postorder(base).len() == self.size(),
            self.postorder(base)[self.size() - 1].aabb == self.bounds(),
    {
        self.lemma_layout_len(base);
        match self {
            Tree::Leaf { .. } => {},
            Tree::Branch { left, right, .. } => {
                left.lemma_layout_len(base);
                right.lemma_layout_len(base + left.size());
            },
        }
    }

    /// A node array holds at most one tree at a given index.
    pub proof fn lemma_unique(self, other: Tree, nodes: Seq<BVHNode>, index: int)
        requires
            self.is_at(nodes, index),
            other.is_at(nodes, index),
        ensures
            self == other,
        decreases self,
    {
        match self {
            Tree::Leaf { primitive, bounds } => {
                assert(other is Leaf);
            },
            Tree::Branch { bounds, left, right } => {
                assert(other is Branch);
                let ol = other->left;
                let or = other->right;
                left.lemma_unique(*ol, nodes, nodes[index].left as int);
                right.lemma_unique(*or, nodes, nodes[index].right as int);
            },
        }
    }

    /// An array that holds the children-first layout of a tree from position
    /// `base` on holds the tree, with its root at the layout's last record.
    pub proof fn lemma_postorder_is_at(self, nodes: Seq<BVHNode>, base: int)
        requires
            self.storable(),
            0 <= base,
            base + self.size() <= nodes.len(),
            base + self.size() <= i32::MAX,
            nodes.subrange(base, base + self.size()) == self.postorder(base),
        ensures
            self.is_at(nodes, base + self.size() - 1),
        decreases self,
    {
        let layout = self.postorder(base);
        self.lemma_layout_len(base);
        match self {
            Tree::Leaf { .. } => {
                assert(nodes.subrange(base, base + 1)[0] == nodes[base]);
            },
            Tree::Branch { left, right, .. } => {
                let l = left.size() as int;
                let r = right.size() as int;
                left.lemma_layout_len(base);
                right.lemma_layout_len(base + l);
                assert(layout.subrange(0, l) =~= left.postorder(base));
                assert(layout.subrange(l, l + r) =~= right.postorder(base + l));
                lemma_window(nodes, base, layout, 0, l);
                lemma_window(nodes, base, layout, l, l + r);
                lemma_window(nodes, base, layout, l + r, l + r + 1);
                left.lemma_postorder_is_at(nodes, base);
                right.lemma_postorder_is_at(nodes, base + l);
                assert(nodes.subrange(base + l + r, base + l + r + 1)[0] == nodes[base + l + r]);
                assert(layout.subrange(l + r, l + r + 1)[0] == layout[l + r]);
            },
        }
    }

    /// An array that holds the depth-first layout of a tree from position
    /// `base` on holds the tree, with its root at `base`.
    pub proof fn lemma_preorder_is_at(self, nodes: Seq<BVHNode>, base: int)
        requires
            self.storable(),
            0 <= base,
            base + self.size() <= nodes.len(),
            base + self.size() <= i32::MAX,
            nodes.subrange(base, base + self.size()) == self.preorder(base),
        ensures
            self.is_at(nodes, base),
        decreases self,
    {
        let layout = self.preorder(base);
        self.lemma_layout_len(base);
        lemma_window(nodes, base, layout, 0, 1);
        assert(nodes.subrange(base, base + 1)[0] == nodes[base]);
        assert(layout.subrange(0, 1)[0] == layout[0]);
        match self {
            Tree::Leaf { .. } => {},
            Tree::Branch { left, right, .. } => {
                let l = left.size() as int;
                let r = right.size() as int;
                left.lemma_layout_len(base + 1);
                right.lemma_layout_len(base + 1 + l);
                assert(layout.subrange(1, 1 + l) =~= left.preorder(base + 1));
                assert(layout.subrange(1 + l, 1 + l + r) =~= right.preorder(base + 1 + l));
                lemma_window(nodes, base, layout, 1, 1 + l);
                lemma_window(nodes, base, layout, 1 + l, 1 + l + r);
                left.lemma_preorder_is_at(nodes, base + 1);
                right.lemma_preorder_is_at(nodes, base + 1 + l);
            },
        }
    }

    /// A tree that is stored in some array has storable leaves.
    pub proof fn lemma_is_at_storable(self, nodes: Seq<BVHNode>, index: int)
        requires
            self.is_at(nodes, index),
        ensures
            self.storable(),
        decreases self,
    {
        match self {
            Tree::Leaf { .. } => {},
            Tree::Branch { left, right, .. } => {
                left.lemma_is_at_storable(nodes, nodes[index].left as int);
                right.lemma_is_at_storable(nodes, nodes[index].right as int);
            },
        }
    }

    /// In the depth-first layout a walk from the root visits the array
    /// indices one after the other, each exactly once.
    pub proof fn lemma_preorder_walk(self, nodes: Seq<BVHNode>, base: int)
        requires
            self.storable(),
            0 <= base,
            base + self.size() <= nodes.len(),
            base + self.size() <= i32::MAX,
            nodes.subrange(base, base + self.size()) == self.preorder(base),
        ensures
            self.walk(nodes, base) == Seq::new(self.size(), |i: int| base + i),
        decreases self,
    {
        let layout = self.preorder(base);
        self.lemma_layout_len(base);
        lemma_window(nodes, base, layout, 0, 1);
        assert(nodes.subrange(base, base + 1)[0] == nodes[base]);
        assert(layout.subrange(0, 1)[0] == layout[0]);
        match self {
            Tree::Leaf { .. } => {},
            Tree::Branch { left, right, .. } => {
                let l = left.size() as int;
                let r = right.size() as int;
                left.lemma_layout_len(base + 1);
                right.lemma_layout_len(base + 1 + l);
                assert(layout.subrange(1, 1 + l) =~= left.preorder(base + 1));
                assert(layout.subrange(1 + l, 1 + l + r) =~= right.preorder(base + 1 + l));
                lemma_window(nodes, base, layout, 1, 1 + l);
                lemma_window(nodes, base, layout, 1 + l, 1 + l + r);
                left.lemma_preorder_walk(nodes, base + 1);
                right.lemma_preorder_walk(nodes, base + 1 + l);
            },
        }
        assert(self.walk(nodes, base) =~= Seq::new(self.size(), |i: int| base + i));
    }
}

/// A part of a window of an array is a window of the array.
pub proof fn lemma_window<T>(nodes: Seq<T>, base: int, window: Seq<T>, from: int, to: int)
    requires
        0 <= base,
        base + window.len() <= nodes.len(),
        nodes.subrange(base, base + window.len()) == window,
        0 <= from <= to <= window.len(),
    ensures
        nodes.subrange(base + from, base + to) == window.subrange(from, to),
{
    let part = nodes.subrange(base + from, base + to);
    let want = window.subrange(from, to);
    assert forall|i: int| 0 <= i < to - from implies #[trigger] part[i] == want[i] by {
        assert(nodes.subrange(base, base + window.len())[from + i] == window[from + i]);
    }
    assert(part =~= want);
}

} // verus!
