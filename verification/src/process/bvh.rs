use vstd::prelude::*;
use crate::primitives::aabb::{lemma_bounds_concat, lemma_bounds_rearranged, AABB};
use crate::process::layout::{buffer_bytes, serialize};
use crate::primitives::triangle::TriangleCPU;
use crate::process::split::{
    best_axis, best_divide, select_axis, lemma_sorted_by_min, lemma_split_point_inside, range, sorted_by_min,
    splice, split_point,
    MAX_PRIMITIVES,
};
pub use crate::process::tree::BVHNode;
use crate::process::tree::{lemma_window, Tree};

verus! {

/// The order in which building a tree over the run `s` leaves the run: the
/// run is sorted along its best axis and cut, and each part is then ordered
/// in the same way.
#[verifier::opaque]
pub open spec fn arranged(s: Seq<TriangleCPU>) -> Seq<TriangleCPU>
    decreases s.len(),
{
    if s.len() < 2 {
        s
    } else {
        let t = sorted_by_min(s, best_axis(s));
        let m = split_point(t);
        if 0 < m < s.len() {
            arranged(t.subrange(0, m)) + arranged(t.subrange(m, t.len() as int))
        } else {
            s
        }
    }
}

/// The tree that is built over the run `s` when the run starts at index
/// `first` of the primitive array. Leaves name positions of the run in its
/// final order, `arranged(s)`.
#[verifier::opaque]
pub open spec fn hierarchy(s: Seq<TriangleCPU>, first: int) -> Tree
    decreases s.len(),
{
    if s.len() < 2 {
        Tree::Leaf { primitive: first, bounds: s[0]@.bbox }
    } else {
        let t = sorted_by_min(s, best_axis(s));
        let m = split_point(t);
        if 0 < m < s.len() {
            let left = hierarchy(t.subrange(0, m), first);
            let right = hierarchy(t.subrange(m, t.len() as int), first + m);
            Tree::Branch {
                bounds: left.bounds().joined(right.bounds()),
                left: Box::new(left),
                right: Box::new(right),
            }
        } else {
            Tree::Leaf { primitive: first, bounds: s[0]@.bbox }
        }
    }
}

/// Building reorders a run without changing its length.
pub proof fn lemma_arranged_len(s: Seq<TriangleCPU>)
    ensures
        arranged(s).len() == s.len(),
    decreases s.len(),
{
    reveal(arranged);
    if s.len() >= 2 {
        let t = sorted_by_min(s, best_axis(s));
        let m = split_point(t);
        lemma_split_point_inside(t);
        lemma_arranged_len(t.subrange(0, m));
        lemma_arranged_len(t.subrange(m, t.len() as int));
    }
}

/// Building reorders a run without changing what is in it.
pub proof fn lemma_arranged_multiset(s: Seq<TriangleCPU>)
    ensures
        arranged(s).to_multiset() == s.to_multiset(),
    decreases s.len(),
{
    broadcast use vstd::seq_lib::lemma_multiset_commutative;

    reveal(arranged);
    if s.len() >= 2 {
        let t = sorted_by_min(s, best_axis(s));
        let m = split_point(t);
        lemma_split_point_inside(t);
        lemma_sorted_by_min(s, best_axis(s));
        lemma_arranged_multiset(t.subrange(0, m));
        lemma_arranged_multiset(t.subrange(m, t.len() as int));
        assert(t =~= t.subrange(0, m) + t.subrange(m, t.len() as int));
    }
}

/// A tree over `n` primitives has `n` leaves and `n - 1` internal nodes,
/// and its leaves name the positions `first`, `first + 1`, ... in order.
pub proof fn lemma_hierarchy_counts(s: Seq<TriangleCPU>, first: int)
    requires
        s.len() >= 1,
    ensures
        hierarchy(s, first).leaf_count() == s.len(),
        hierarchy(s, first).branch_count() == s.len() - 1,
        hierarchy(s, first).size() == 2 * s.len() - 1,
        hierarchy(s, first).leaves() == Seq::new(s.len(), |i: int| first + i),
    decreases s.len(),
{
    reveal(hierarchy);
    let tree = hierarchy(s, first);
    if s.len() >= 2 {
        let t = sorted_by_min(s, best_axis(s));
        let m = split_point(t);
        lemma_split_point_inside(t);
        lemma_hierarchy_counts(t.subrange(0, m), first);
        lemma_hierarchy_counts(t.subrange(m, t.len() as int), first + m);
    }
    assert(tree.leaves() =~= Seq::new(s.len(), |i: int| first + i));
}

/// A tree over primitives whose positions fit a node record can be stored.
pub proof fn lemma_hierarchy_storable(s: Seq<TriangleCPU>, first: int)
    requires
        s.len() >= 1,
        0 <= first,
        first + s.len() <= i32::MAX,
    ensures
        hierarchy(s, first).storable(),
    decreases s.len(),
{
    reveal(hierarchy);
    if s.len() >= 2 {
        let t = sorted_by_min(s, best_axis(s));
        let m = split_point(t);
        lemma_split_point_inside(t);
        lemma_hierarchy_storable(t.subrange(0, m), first);
        lemma_hierarchy_storable(t.subrange(m, t.len() as int), first + m);
    }
}

/// The tree built over a run is a hierarchy over the run in its final
/// order: each leaf carries the box of the primitive it names, and each
/// internal node the join of its children's boxes.
pub proof fn lemma_hierarchy_covers(s: Seq<TriangleCPU>, first: int, primitives: Seq<TriangleCPU>)
    requires
        s.len() >= 1,
        0 <= first,
        first + s.len() <= primitives.len(),
        primitives.subrange(first, first + s.len()) == arranged(s),
    ensures
        hierarchy(s, first).covers(primitives, first),
    decreases s.len(),
{
    reveal(hierarchy);
    reveal(arranged);
    if s.len() >= 2 {
        let t = sorted_by_min(s, best_axis(s));
        let m = split_point(t);
        lemma_split_point_inside(t);
        let a = t.subrange(0, m);
        let b = t.subrange(m, t.len() as int);
        lemma_arranged_len(a);
        lemma_arranged_len(b);
        lemma_arranged_len(s);
        lemma_window(primitives, first, arranged(s), 0, m);
        lemma_window(primitives, first, arranged(s), m, s.len() as int);
        assert(arranged(s).subrange(0, m) =~= arranged(a));
        assert(arranged(s).subrange(m, s.len() as int) =~= arranged(b));
        lemma_hierarchy_covers(a, first, primitives);
        lemma_hierarchy_covers(b, first + m, primitives);
        lemma_hierarchy_counts(a, first);
    } else {
        assert(primitives.subrange(first, first + 1)[0] == primitives[first]);
    }
}

/// The box at the root of the tree built over a run is the box around the
/// whole run.
pub proof fn lemma_hierarchy_bounds(s: Seq<TriangleCPU>, first: int)
    requires
        s.len() >= 1,
    ensures
        hierarchy(s, first).bounds() == AABB::bounds_of(arranged(s)),
    decreases s.len(),
{
    reveal(hierarchy);
    reveal(arranged);
    if s.len() >= 2 {
        let t = sorted_by_min(s, best_axis(s));
        let m = split_point(t);
        lemma_split_point_inside(t);
        let a = t.subrange(0, m);
        let b = t.subrange(m, t.len() as int);
        lemma_hierarchy_bounds(a, first);
        lemma_hierarchy_bounds(b, first + m);
        lemma_arranged_len(a);
        lemma_arranged_len(b);
        lemma_bounds_concat(arranged(a), arranged(b));
    }
}

/// What is built over `n` primitives: a tree of `n` leaves and `n - 1`
/// internal nodes in an array of `2n - 1` records with the root last; its
/// leaves name the positions `0..n` of the reordered primitives, each
/// exactly once, from left to right; each leaf carries the box of the
/// primitive it names and each internal node the join of its children's
/// boxes; and the root's box is the box around all the primitives.
pub proof fn lemma_build_shape(
    input: Seq<TriangleCPU>,
    output: Seq<TriangleCPU>,
    nodes: Seq<BVHNode>,
)
    requires
        1 <= input.len() <= MAX_PRIMITIVES,
        nodes == hierarchy(input, 0).postorder(0),
        output == arranged(input),
    ensures
        output.to_multiset() == input.to_multiset(),
        nodes.len() == 2 * input.len() - 1,
        hierarchy(input, 0).size() == nodes.len(),
        hierarchy(input, 0).is_at(nodes, nodes.len() - 1),
        hierarchy(input, 0).leaf_count() == input.len(),
        hierarchy(input, 0).branch_count() == input.len() - 1,
        hierarchy(input, 0).leaves() == Seq::new(input.len(), |i: int| i),
        hierarchy(input, 0).covers(output, 0),
        hierarchy(input, 0).bounds() == AABB::bounds_of(output),
        hierarchy(input, 0).bounds() == AABB::bounds_of(input),
        first_position(hierarchy(input, 0)) == 0,
        runs_fit(hierarchy(input, 0), input.len() as int),
{
    lemma_hierarchy_runs(input, 0);
    let tree = hierarchy(input, 0);
    lemma_arranged_len(input);
    lemma_arranged_multiset(input);
    lemma_hierarchy_counts(input, 0);
    lemma_hierarchy_storable(input, 0);
    tree.lemma_layout_len(0);
    assert(nodes.subrange(0, tree.size() as int) =~= tree.postorder(0));
    tree.lemma_postorder_is_at(nodes, 0);
    assert(output.subrange(0, input.len() as int) =~= arranged(input));
    lemma_hierarchy_covers(input, 0, output);
    lemma_hierarchy_bounds(input, 0);
    lemma_bounds_rearranged(output, input);
}

/// The run of primitives below one node: the node's index in the node
/// array, the positions `start..end` that its leaves name when they name
/// consecutive positions from the leftmost leaf on, and, for an internal
/// node, the axis along which that run was ordered and the position at
/// which it was cut. For a leaf, `axis` and `split` are zero.
#[derive(Copy, Clone, Debug, PartialEq, Eq)]
pub struct NodeRun {
    pub node: i32,
    pub start: usize,
    pub end: usize,
    pub axis: usize,
    pub split: usize,
}

/// The position that the leftmost leaf of a tree names.
pub open spec fn first_position(t: Tree) -> int
    decreases t,
{
    match t {
        Tree::Leaf { primitive, .. } => primitive,
        Tree::Branch { left, .. } => first_position(*left),
    }
}

/// Whether the run of every node of the tree, as many positions from its
/// leftmost leaf on as it has leaves, ends within `len` primitives.
pub open spec fn runs_fit(t: Tree, len: int) -> bool
    decreases t,
{
    &&& first_position(t) + t.leaf_count() <= len
    &&& match t {
        Tree::Leaf { .. } => true,
        Tree::Branch { left, right, .. } => runs_fit(*left, len) && runs_fit(*right, len),
    }
}

/// The runs of the nodes of the tree stored at `index`, children before
/// parents and the left subtree first.
pub open spec fn node_runs_of(
    t: Tree,
    nodes: Seq<BVHNode>,
    index: int,
    primitives: Seq<TriangleCPU>,
) -> Seq<NodeRun>
    decreases t,
{
    let start = first_position(t);
    let end = start + t.leaf_count();
    match t {
        Tree::Leaf { .. } => seq![
            NodeRun {
                node: index as i32,
                start: start as usize,
                end: end as usize,
                axis: 0,
                split: 0,
            },
        ],
        Tree::Branch { left, right, .. } => node_runs_of(
            *left,
            nodes,
            nodes[index].left as int,
            primitives,
        ) + node_runs_of(*right, nodes, nodes[index].right as int, primitives) + seq![
            NodeRun {
                node: index as i32,
                start: start as usize,
                end: end as usize,
                axis: best_axis(primitives.subrange(start, end)),
                split: (start + left.leaf_count()) as usize,
            },
        ],
    }
}

/// In the tree built over a run, every node's run lies within the run, and
/// the run of an internal node is cut where the run of its right child
/// starts.
pub proof fn lemma_hierarchy_runs(s: Seq<TriangleCPU>, first: int)
    requires
        s.len() >= 1,
        0 <= first,
    ensures
        first_position(hierarchy(s, first)) == first,
        runs_fit(hierarchy(s, first), first + s.len()),
    decreases s.len(),
{
    reveal(hierarchy);
    if s.len() >= 2 {
        let t = sorted_by_min(s, best_axis(s));
        let m = split_point(t);
        lemma_split_point_inside(t);
        let a = t.subrange(0, m);
        let b = t.subrange(m, t.len() as int);
        lemma_hierarchy_runs(a, first);
        lemma_hierarchy_runs(b, first + m);
        lemma_hierarchy_counts(a, first);
        lemma_hierarchy_counts(b, first + m);
        lemma_runs_fit_longer(hierarchy(a, first), first + m, first + s.len());
    }
}

/// Runs that end within `len` primitives end within any greater number.
pub proof fn lemma_runs_fit_longer(t: Tree, len: int, longer: int)
    requires
        runs_fit(t, len),
        len <= longer,
    ensures
        runs_fit(t, longer),
    decreases t,
{
    match t {
        Tree::Leaf { .. } => {},
        Tree::Branch { left, right, .. } => {
            lemma_runs_fit_longer(*left, len, longer);
            lemma_runs_fit_longer(*right, len, longer);
        },
    }
}

/// Why a build was refused.
#[derive(Copy, Clone, Debug, PartialEq, Eq)]
pub enum BuildError {
    /// There is no primitive to build a tree over.
    EmptyInput,
    /// There are more than `MAX_PRIMITIVES` primitives.
    TooManyPrimitives,
}

/// A run of two or more primitives is built in two parts: what one step of
/// `arranged` and of `hierarchy` amounts to.
pub proof fn lemma_build_step(s: Seq<TriangleCPU>, first: int)
    requires
        s.len() >= 2,
    ensures
        ({
            let t = sorted_by_min(s, best_axis(s));
            let m = split_point(t);
            let a = t.subrange(0, m);
            let b = t.subrange(m, t.len() as int);
            let left = hierarchy(a, first);
            let right = hierarchy(b, first + m);
            &&& 0 < m < s.len()
            &&& t.len() == s.len()
            &&& arranged(s) == arranged(a) + arranged(b)
            &&& arranged(a).len() == m
            &&& arranged(b).len() == s.len() - m
            &&& hierarchy(s, first) == Tree::Branch {
                bounds: left.bounds().joined(right.bounds()),
                left: Box::new(left),
                right: Box::new(right),
            }
        }),
{
    reveal(hierarchy);
    reveal(arranged);
    let t = sorted_by_min(s, best_axis(s));
    let m = split_point(t);
    lemma_split_point_inside(t);
    lemma_arranged_len(t.subrange(0, m));
    lemma_arranged_len(t.subrange(m, t.len() as int));
}

/// A run of one primitive stays as it is and becomes a leaf.
pub proof fn lemma_build_leaf(s: Seq<TriangleCPU>, first: int)
    requires
        s.len() == 1,
    ensures
        arranged(s) == s,
        hierarchy(s, first) == (Tree::Leaf { primitive: first, bounds: s[0]@.bbox }),
{
    reveal(hierarchy);
    reveal(arranged);
}

/// After a run has been replaced by `t`, the two parts of the run are the
/// two parts of `t`; and they stay so for the second part when the first
/// part is replaced in turn.
proof fn lemma_splice_parts(
    initial: Seq<TriangleCPU>,
    ordered: Seq<TriangleCPU>,
    start: int,
    t: Seq<TriangleCPU>,
    m: int,
)
    requires
        0 <= start,
        start + t.len() <= initial.len(),
        0 <= m <= t.len(),
        ordered == splice(initial, start, t),
    ensures
        ordered.len() == initial.len(),
        ordered.subrange(start, start + m) == t.subrange(0, m),
        ordered.subrange(start + m, start + t.len()) == t.subrange(m, t.len() as int),
        forall|x: Seq<TriangleCPU>|
            x.len() == m ==> (#[trigger] splice(ordered, start, x)).subrange(start + m, start + t.len())
                == t.subrange(m, t.len() as int),
{
    assert(ordered.subrange(start, start + m) =~= t.subrange(0, m));
    assert(ordered.subrange(start + m, start + t.len()) =~= t.subrange(m, t.len() as int));
    assert forall|x: Seq<TriangleCPU>| x.len() == m implies (#[trigger] splice(
        ordered,
        start,
        x,
    )).subrange(start + m, start + t.len()) == t.subrange(m, t.len() as int) by {
        assert(splice(ordered, start, x).subrange(start + m, start + t.len()) =~= t.subrange(
            m,
            t.len() as int,
        ));
    }
}

/// Replacing a run by `t`, then the first `x.len()` positions of the run by
/// `x` and the rest by `y`, is replacing the run by `x + y`.
proof fn lemma_splice_twice(
    initial: Seq<TriangleCPU>,
    ordered: Seq<TriangleCPU>,
    halfway: Seq<TriangleCPU>,
    finished: Seq<TriangleCPU>,
    start: int,
    t: Seq<TriangleCPU>,
    x: Seq<TriangleCPU>,
    y: Seq<TriangleCPU>,
)
    requires
        0 <= start,
        start + t.len() <= initial.len(),
        x.len() + y.len() == t.len(),
        ordered == splice(initial, start, t),
        halfway == splice(ordered, start, x),
        finished == splice(halfway, start + x.len(), y),
    ensures
        finished == splice(initial, start, x + y),
        ordered.len() == initial.len(),
        halfway.len() == initial.len(),
        ordered.subrange(start, start + x.len()) == t.subrange(0, x.len() as int),
        ordered.subrange(start + x.len(), start + t.len()) == t.subrange(x.len() as int, t.len() as int),
        halfway.subrange(start + x.len(), start + t.len()) == t.subrange(x.len() as int, t.len() as int),
{
    assert(ordered.len() == initial.len());
    assert(halfway.len() == initial.len());
    assert(finished =~= splice(initial, start, x + y));
    assert(ordered.subrange(start, start + x.len()) =~= t.subrange(0, x.len() as int));
    assert(ordered.subrange(start + x.len(), start + t.len()) =~= t.subrange(
        x.len() as int,
        t.len() as int,
    ));
    assert(halfway.subrange(start + x.len(), start + t.len()) =~= t.subrange(
        x.len() as int,
        t.len() as int,
    ));
}

/// Appending the layouts of two subtrees and then the record of their
/// parent appends the layout of the parent's tree.
proof fn lemma_append_branch(
    n0: Seq<BVHNode>,
    n2: Seq<BVHNode>,
    left: Tree,
    right: Tree,
    node: BVHNode,
)
    requires
        n2 == n0 + left.postorder(n0.len() as int) + right.postorder(
            (n0.len() + left.size()) as int,
        ),
        n0.len() + left.size() + right.size() + 1 <= i32::MAX,
        node.aabb == n2[n0.len() + left.size() - 1].aabb.joined(
            n2[n0.len() + left.size() + right.size() - 1].aabb,
        ),
        node.left == n0.len() + left.size() - 1,
        node.right == n0.len() + left.size() + right.size() - 1,
        node.triangle == -1,
    ensures
        n2.push(node) == n0 + (Tree::Branch {
            bounds: left.bounds().joined(right.bounds()),
            left: Box::new(left),
            right: Box::new(right),
        }).postorder(n0.len() as int),
{
    let base = n0.len() as int;
    let tree = Tree::Branch {
        bounds: left.bounds().joined(right.bounds()),
        left: Box::new(left),
        right: Box::new(right),
    };
    left.lemma_root_record(base);
    right.lemma_root_record(base + left.size());
    assert(n2[base + left.size() - 1] == left.postorder(base)[left.size() - 1]);
    assert(n2[base + left.size() + right.size() - 1] == right.postorder(base + left.size())[
        right.size() - 1
    ]);
    assert(node == tree.record(base + left.size() - 1, base + left.size() + right.size() - 1));
    assert(n2.push(node) =~= n0 + tree.postorder(base));
}

impl BVHNode {
    /// Builds the subtree over `primitives[start..end]`, appends its records
    /// to `nodes`, children before parents, and returns the index of the
    /// subtree's root.
    fn new(
        nodes: &mut Vec<BVHNode>,
        primitives: &mut Vec<TriangleCPU>,
        start: usize,
        end: usize,
    ) -> (index: i32)
        requires
            start < end <= old(primitives)@.len(),
            end <= MAX_PRIMITIVES,
            old(nodes)@.len() + 2 * (end - start) - 1 <= i32::MAX,
        ensures
            final(primitives)@ == splice(
                old(primitives)@,
                start as int,
                arranged(range(old(primitives)@, start, end)),
            ),
            final(primitives)@.to_multiset() == old(primitives)@.to_multiset(),
            final(nodes)@ == old(nodes)@ + hierarchy(
                range(old(primitives)@, start, end),
                start as int,
            ).postorder(old(nodes)@.len() as int),
            index == final(nodes)@.len() - 1,
        decreases end - start,
    {
        let ghost run = range(primitives@, start, end);
        let ghost base = nodes@.len() as int;
        let object_span = end - start;
        if object_span == 1 {
            proof {
                lemma_build_leaf(run, start as int);
                assert(run[0] == primitives@[start as int]);
                assert(primitives@ =~= splice(primitives@, start as int, run));
            }
            nodes.push(
                BVHNode {
                    aabb: primitives[start].bounding_box(),
                    left: -1,
                    right: -1,
                    triangle: start as i32,
                },
            );
        } else {
            let split = best_divide(primitives, start, end);
            let ghost sorted = sorted_by_min(run, best_axis(run));
            let ghost m = split - start;
            let ghost first_part = sorted.subrange(0, m);
            let ghost second_part = sorted.subrange(m, sorted.len() as int);
            let ghost left_tree = hierarchy(first_part, start as int);
            let ghost right_tree = hierarchy(second_part, split as int);
            let ghost ordered = primitives@;
            proof {
                lemma_build_step(run, start as int);
                lemma_hierarchy_counts(first_part, start as int);
                lemma_hierarchy_counts(second_part, split as int);
                left_tree.lemma_layout_len(base);
                right_tree.lemma_layout_len(base + left_tree.size());
                lemma_splice_parts(old(primitives)@, ordered, start as int, sorted, m);
            }
            let left = BVHNode::new(nodes, primitives, start, split);
            let ghost halfway = primitives@;
            let right = BVHNode::new(nodes, primitives, split, end);
            proof {
                lemma_splice_twice(
                    old(primitives)@,
                    ordered,
                    halfway,
                    primitives@,
                    start as int,
                    sorted,
                    arranged(first_part),
                    arranged(second_part),
                );
            }
            let aabb = nodes[left as usize].aabb.union(&nodes[right as usize].aabb);
            let node = BVHNode { aabb, left, right, triangle: -1 };
            proof {
                lemma_append_branch(old(nodes)@, nodes@, left_tree, right_tree, node);
            }
            nodes.push(node);
        }
        (nodes.len() - 1) as i32
    }
}

/// A bounding volume hierarchy: the index of the root and the array of node
/// records that the indices in the records refer to.
pub struct BVH {
    root: i32,
    nodes: Vec<BVHNode>,
    tree: Ghost<Tree>,
}

impl View for BVH {
    type V = Tree;

    /// The tree that the node array holds at the root index.
    closed spec fn view(&self) -> Tree {
        self.tree@
    }
}

impl Clone for BVH {
    /// A copy with the same root index and the same node records.
    fn clone(&self) -> (r: Self)
        ensures
            r.wf(),
            r@ == self@,
            r.spec_nodes() == self.spec_nodes(),
            r.spec_root() == self.spec_root(),
    {
        proof {
            use_type_invariant(self);
        }
        let mut nodes: Vec<BVHNode> = Vec::with_capacity(self.nodes.len());
        let mut i: usize = 0;
        while i < self.nodes.len()
            invariant
                i <= self.nodes@.len(),
                nodes@ == self.nodes@.subrange(0, i as int),
            decreases self.nodes@.len() - i,
        {
            nodes.push(self.nodes[i]);
            proof {
                assert(nodes@ =~= self.nodes@.subrange(0, i + 1));
            }
            i += 1;
        }
        proof {
            assert(nodes@ =~= self.nodes@);
        }
        BVH { root: self.root, nodes, tree: Ghost(self.tree@) }
    }
}

impl BVH {
    /// The node records.
    pub closed spec fn spec_nodes(&self) -> Seq<BVHNode> {
        self.nodes@
    }

    /// The index of the root record.
    pub closed spec fn spec_root(&self) -> int {
        self.root as int
    }

    /// Whether the node array holds the tree `self@` with its root at the
    /// root index, and holds one record per node of that tree.
    pub open spec fn wf(&self) -> bool {
        &&& self@.is_at(self.spec_nodes(), self.spec_root())
        &&& self@.size() == self.spec_nodes().len()
        &&& self.spec_nodes().len() <= i32::MAX
    }

    #[verifier::type_invariant]
    /// Every tree that exists is well formed.
    spec fn well_formed(&self) -> bool {
        self.wf()
    }

    /// Whether this is the tree that `new` builds over `input`, and `output`
    /// the order in which `new` leaves the primitives: the tree is
    /// `hierarchy(input, 0)`, stored children before parents with the root
    /// last, and the primitives are `arranged(input)`, a reordering of
    /// `input`.
    pub open spec fn is_build_of(&self, input: Seq<TriangleCPU>, output: Seq<TriangleCPU>) -> bool {
        &&& self.wf()
        &&& self@ == hierarchy(input, 0)
        &&& self.spec_nodes() == self@.postorder(0)
        &&& self.spec_root() == self.spec_nodes().len() - 1
        &&& output == arranged(input)
        &&& output.to_multiset() == input.to_multiset()
    }

    /// Whether this is what `reorder_nodes` makes of `before`: the same
    /// tree, stored in the depth-first layout with the root at index 0.
    pub open spec fn is_flattening_of(&self, before: BVH) -> bool {
        &&& self.wf()
        &&& self@ == before@
        &&& self.spec_nodes() == before@.preorder(0)
        &&& self.spec_root() == 0
    }

    /// Builds the tree over all of `primitives`, which are reordered in
    /// place. `seed` is accepted and has no effect on the result.
    ///
    /// No tree is built over no primitives, nor over more than
    /// `MAX_PRIMITIVES`; the primitives are then left as they are.
    pub fn new(primitives: &mut Vec<TriangleCPU>, seed: u64) -> (r: Result<BVH, BuildError>)
        ensures
            old(primitives)@.len() == 0 <==> r == Err::<BVH, BuildError>(BuildError::EmptyInput),
            old(primitives)@.len() > MAX_PRIMITIVES <==> r == Err::<BVH, BuildError>(
                BuildError::TooManyPrimitives,
            ),
            r is Err ==> final(primitives)@ == old(primitives)@,
            r matches Ok(bvh) ==> {
                &&& bvh.is_build_of(old(primitives)@, final(primitives)@)
                &&& bvh.spec_nodes().len() == 2 * old(primitives)@.len() - 1
                &&& bvh@.leaf_count() == old(primitives)@.len()
                &&& bvh@.branch_count() == old(primitives)@.len() - 1
                &&& bvh@.leaves() == Seq::new(old(primitives)@.len(), |i: int| i)
                &&& bvh@.covers(final(primitives)@, 0)
                &&& bvh@.bounds() == AABB::bounds_of(old(primitives)@)
                &&& runs_fit(bvh@, final(primitives)@.len() as int)
            },
    {
        let count = primitives.len();
        if count == 0 {
            return Err(BuildError::EmptyInput);
        }
        if count > MAX_PRIMITIVES {
            return Err(BuildError::TooManyPrimitives);
        }
        let ghost input = primitives@;
        let ghost tree = hierarchy(input, 0);
        let mut nodes: Vec<BVHNode> = Vec::new();
        proof {
            assert(range(input, 0, count) =~= input);
        }
        let root = BVHNode::new(&mut nodes, primitives, 0, count);
        proof {
            lemma_arranged_len(input);
            assert(primitives@ =~= arranged(input));
            assert(nodes@ =~= tree.postorder(0));
            lemma_build_shape(input, primitives@, nodes@);
        }
        Ok(BVH { root, nodes, tree: Ghost(tree) })
    }

    /// Lists the run of primitives below every node, children before
    /// parents, with the axis along which `primitives` are spread widest in
    /// the run of each internal node. `None` where some node's run does not
    /// end within `primitives`: the tree was then built over other
    /// primitives.
    pub fn node_runs(&self, primitives: &Vec<TriangleCPU>) -> (r: Option<Vec<NodeRun>>)
        ensures
            r is Some <==> runs_fit(self@, primitives@.len() as int),
            r matches Some(runs) ==> runs@ == node_runs_of(
                self@,
                self.spec_nodes(),
                self.spec_root(),
                primitives@,
            ),
    {
        proof {
            use_type_invariant(self);
        }
        let mut runs: Vec<NodeRun> = Vec::new();
        match self.runs_recursive(self.root, primitives, &mut runs, Ghost(self@)) {
            Some(_) => Some(runs),
            None => None,
        }
    }

    /// Appends the runs of the subtree at `node_index` to `runs` and returns
    /// where that subtree's own run starts and how many leaves it has.
    fn runs_recursive(
        &self,
        node_index: i32,
        primitives: &Vec<TriangleCPU>,
        runs: &mut Vec<NodeRun>,
        Ghost(subtree): Ghost<Tree>,
    ) -> (r: Option<(usize, usize)>)
        requires
            subtree.is_at(self.nodes@, node_index as int),
            subtree.size() <= i32::MAX,
        ensures
            r is Some <==> runs_fit(subtree, primitives@.len() as int),
            r matches Some(run) ==> {
                &&& run.0 == first_position(subtree)
                &&& run.1 == subtree.leaf_count()
                &&& final(runs)@ == old(runs)@ + node_runs_of(
                    subtree,
                    self.nodes@,
                    node_index as int,
                    primitives@,
                )
            },
        decreases subtree,
    {
        let node = self.nodes[node_index as usize];
        proof {
            subtree.lemma_counts();
        }
        if node.triangle != -1 {
            let start = node.triangle as usize;
            if start >= primitives.len() {
                return None;
            }
            runs.push(NodeRun { node: node_index, start, end: start + 1, axis: 0, split: 0 });
            Some((start, 1))
        } else {
            let ghost left_tree = *subtree->left;
            let ghost right_tree = *subtree->right;
            proof {
                left_tree.lemma_counts();
                right_tree.lemma_counts();
            }
            let left = match self.runs_recursive(node.left, primitives, runs, Ghost(left_tree)) {
                Some(run) => run,
                None => {
                    return None;
                },
            };
            let right = match self.runs_recursive(node.right, primitives, runs, Ghost(right_tree)) {
                Some(run) => run,
                None => {
                    return None;
                },
            };
            let start = left.0;
            let count = left.1 + right.1;
            if count > primitives.len() - start {
                return None;
            }
            let end = start + count;
            let axis = select_axis(primitives, start, end);
            proof {
                assert(range(primitives@, start, end) == primitives@.subrange(
                    start as int,
                    end as int,
                ));
            }
            runs.push(NodeRun { node: node_index, start, end, axis, split: start + left.1 });
            Some((start, count))
        }
    }

    /// Packs the tree into the fixed binary layout: see `serialize`. The
    /// words of each box are grid coordinates; whoever hands the buffer to a
    /// reader of floating-point boxes turns those words into floats first.
    pub fn to_buffer(&self) -> (out: Vec<u8>)
        ensures
            out@ == buffer_bytes(self.spec_root() as i32, self.spec_nodes()),
    {
        serialize(self.root, &self.nodes)
    }

    /// The node records.
    pub fn nodes(&self) -> (r: &Vec<BVHNode>)
        ensures
            r@ == self.spec_nodes(),
    {
        &self.nodes
    }

    /// The index of the root record.
    pub fn root(&self) -> (r: i32)
        ensures
            r == self.spec_root(),
    {
        self.root
    }

    /// Rewrites the node array into the depth-first layout: the root at
    /// index 0, each parent directly followed by its whole left subtree and
    /// then its whole right subtree. The tree itself stays as it was.
    pub fn reorder_nodes(&mut self)
        ensures
            final(self).is_flattening_of(*old(self)),
    {
        proof {
            use_type_invariant(&*self);
        }
        let ghost tree = self@;
        let mut ordered_nodes: Vec<BVHNode> = Vec::with_capacity(self.nodes.len());
        let new_root = self.reorder_nodes_recursive(self.root, &mut ordered_nodes, Ghost(tree));
        proof {
            tree.lemma_layout_len(0);
            tree.lemma_is_at_storable(self.nodes@, self.root as int);
            assert(ordered_nodes@ =~= tree.preorder(0));
            assert(ordered_nodes@.subrange(0, tree.size() as int) =~= tree.preorder(0));
            tree.lemma_preorder_is_at(ordered_nodes@, 0);
        }
        *self = BVH { root: new_root, nodes: ordered_nodes, tree: Ghost(tree) };
    }

    /// Appends the subtree at `node_index` to `ordered_nodes` in the
    /// depth-first layout and returns the index at which its root lands.
    /// The index `-1` names no node: nothing is appended for it, and `-1`
    /// comes back.
    fn reorder_nodes_recursive(
        &self,
        node_index: i32,
        ordered_nodes: &mut Vec<BVHNode>,
        Ghost(subtree): Ghost<Tree>,
    ) -> (new_index: i32)
        requires
            node_index == -1 || subtree.is_at(self.nodes@, node_index as int),
            node_index != -1 ==> old(ordered_nodes)@.len() + subtree.size() <= i32::MAX,
        ensures
            node_index == -1 ==> new_index == -1 && final(ordered_nodes)@ == old(ordered_nodes)@,
            node_index != -1 ==> new_index == old(ordered_nodes)@.len() && final(ordered_nodes)@
                == old(ordered_nodes)@ + subtree.preorder(old(ordered_nodes)@.len() as int),
        decreases (if node_index == -1 { 0 } else { subtree.size() }),
    {
        if node_index == -1 {
            return -1;
        }
        let ghost base = ordered_nodes@.len() as int;
        let node = self.nodes[node_index as usize];
        let new_index = ordered_nodes.len() as i32;
        ordered_nodes.push(node);
        let ghost left_tree = if subtree is Branch { *subtree->left } else { subtree };
        let ghost right_tree = if subtree is Branch { *subtree->right } else { subtree };
        proof {
            if subtree is Branch {
                left_tree.lemma_layout_len(base + 1);
                right_tree.lemma_layout_len(base + 1 + left_tree.size());
                assert(left_tree.is_at(self.nodes@, node.left as int));
                assert(right_tree.is_at(self.nodes@, node.right as int));
                assert(node.left >= 0 && node.right >= 0);
            } else {
                assert(node.left == -1 && node.right == -1);
            }
        }
        let new_left = self.reorder_nodes_recursive(node.left, ordered_nodes, Ghost(left_tree));
        let new_right = self.reorder_nodes_recursive(node.right, ordered_nodes, Ghost(right_tree));
        let ghost appended = ordered_nodes@;
        let mut new_node = ordered_nodes[new_index as usize];
        new_node.left = new_left;
        new_node.right = new_right;
        ordered_nodes.set(new_index as usize, new_node);
        proof {
            if subtree is Branch {
                assert(appended =~= old(ordered_nodes)@.push(node) + left_tree.preorder(base + 1)
                    + right_tree.preorder(base + 1 + left_tree.size()));
                assert(new_node == subtree.record(base + 1, base + 1 + left_tree.size()));
            } else {
                assert(appended =~= old(ordered_nodes)@.push(node));
                assert(new_node == subtree.record(-1, -1));
            }
            assert(ordered_nodes@ =~= old(ordered_nodes)@ + subtree.preorder(base));
        }
        new_index
    }
}

impl BVH {
    /// A tree over a single primitive is one leaf that names position 0 and
    /// carries the primitive's box; the primitive stays where it is.
    pub proof fn lemma_single_primitive(&self, input: Seq<TriangleCPU>, output: Seq<TriangleCPU>)
        requires
            input.len() == 1,
            self.is_build_of(input, output),
        ensures
            self@ == (Tree::Leaf { primitive: 0, bounds: input[0]@.bbox }),
            self.spec_nodes() == seq![
                BVHNode { aabb: input[0]@.bbox, left: -1i32, right: -1i32, triangle: 0i32 },
            ],
            self.spec_root() == 0,
            output == input,
    {
        lemma_build_leaf(input, 0);
        assert(self.spec_nodes() =~= seq![
            BVHNode { aabb: input[0]@.bbox, left: -1i32, right: -1i32, triangle: 0i32 },
        ]);
    }

    /// Two builds over the same primitives in the same order give the same
    /// tree, the same node array and the same final order of the
    /// primitives.
    pub proof fn lemma_build_deterministic(
        &self,
        other: &BVH,
        input: Seq<TriangleCPU>,
        output: Seq<TriangleCPU>,
        other_output: Seq<TriangleCPU>,
    )
        requires
            self.is_build_of(input, output),
            other.is_build_of(input, other_output),
        ensures
            self@ == other@,
            self.spec_nodes() == other.spec_nodes(),
            self.spec_root() == other.spec_root(),
            output == other_output,
    {
    }

    /// Reordering the nodes a second time changes nothing.
    pub proof fn lemma_flatten_idempotent(&self, once: &BVH, twice: &BVH)
        requires
            once.is_flattening_of(*self),
            twice.is_flattening_of(*once),
        ensures
            twice.spec_nodes() == once.spec_nodes(),
            twice.spec_root() == once.spec_root(),
            twice@ == once@,
    {
    }

    /// Reordering the nodes keeps the tree: the array that comes out holds
    /// the tree that went in, with the same leaves in the same places under
    /// the same ancestors, and holds no other tree. A walk from its root,
    /// each node before its left subtree and that before its right subtree,
    /// visits the array indices 0, 1, 2, ... in increasing order.
    pub proof fn lemma_flatten_keeps_tree(&self, after: &BVH, other: Tree)
        requires
            self.wf(),
            after.is_flattening_of(*self),
        ensures
            after@ == self@,
            after@.is_at(after.spec_nodes(), 0),
            other.is_at(after.spec_nodes(), 0) ==> other == self@,
            after@.leaves() == self@.leaves(),
            after@.walk(after.spec_nodes(), 0) == Seq::new(self@.size(), |i: int| i),
    {
        let tree = self@;
        let nodes = after.spec_nodes();
        tree.lemma_layout_len(0);
        tree.lemma_is_at_storable(self.spec_nodes(), self.spec_root());
        assert(nodes.subrange(0, tree.size() as int) =~= tree.preorder(0));
        tree.lemma_preorder_walk(nodes, 0);
        if other.is_at(nodes, 0) {
            other.lemma_unique(tree, nodes, 0);
        }
    }
}

} // verus!
