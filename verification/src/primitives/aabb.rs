use vstd::prelude::*;
use crate::primitives::triangle::TriangleCPU;

verus! {

/// The smaller of two coordinates.
pub open spec fn lesser(a: i32, b: i32) -> i32 {
    if a <= b { a } else { b }
}

/// The larger of two coordinates.
pub open spec fn greater(a: i32, b: i32) -> i32 {
    if a >= b { a } else { b }
}

/// An axis-aligned box on the integer grid. Components 0, 1 and 2 of each
/// corner are the x, y and z coordinates; component 3 is alignment padding
/// and takes no part in any geometric operation.
#[derive(Copy, Clone, Debug, PartialEq, Eq)]
pub struct AABB {
    pub min: [i32; 4],
    pub max: [i32; 4],
}

impl AABB {
    /// The sentinel that stands for "no points at all": every lower bound is
    /// the largest coordinate and every upper bound the smallest.
    pub open spec fn empty_box() -> AABB {
        AABB {
            min: [i32::MAX, i32::MAX, i32::MAX, i32::MAX],
            max: [i32::MIN, i32::MIN, i32::MIN, i32::MIN],
        }
    }

    /// Signed length of the box along `axis`.
    pub open spec fn extent(self, axis: int) -> int {
        self.max[axis] - self.min[axis]
    }

    /// Twice the sum of the three face areas, computed from the signed extents.
    pub open spec fn area(self) -> int {
        2 * (self.extent(0) * self.extent(1) + self.extent(1) * self.extent(2) + self.extent(2)
            * self.extent(0))
    }

    /// Whether the lower bound does not exceed the upper bound on each of the
    /// three axes.
    pub open spec fn is_proper(self) -> bool {
        &&& self.min[0] <= self.max[0]
        &&& self.min[1] <= self.max[1]
        &&& self.min[2] <= self.max[2]
    }

    /// Whether both padding components are zero.
    pub open spec fn is_padded(self) -> bool {
        self.min[3] == 0 && self.max[3] == 0
    }

    /// Whether the two boxes agree on the three axes (padding ignored).
    pub open spec fn same_extent(self, other: AABB) -> bool {
        &&& self.min[0] == other.min[0] && self.max[0] == other.max[0]
        &&& self.min[1] == other.min[1] && self.max[1] == other.max[1]
        &&& self.min[2] == other.min[2] && self.max[2] == other.max[2]
    }

    /// The smallest box that holds both boxes; its padding is zero.
    pub open spec fn joined(self, other: AABB) -> AABB {
        AABB {
            min: [
                lesser(self.min[0], other.min[0]),
                lesser(self.min[1], other.min[1]),
                lesser(self.min[2], other.min[2]),
                0i32,
            ],
            max: [
                greater(self.max[0], other.max[0]),
                greater(self.max[1], other.max[1]),
                greater(self.max[2], other.max[2]),
                0i32,
            ],
        }
    }

    /// The componentwise overlap of two boxes, whether or not it is proper;
    /// its padding is zero.
    pub open spec fn overlap(self, other: AABB) -> AABB {
        AABB {
            min: [
                greater(self.min[0], other.min[0]),
                greater(self.min[1], other.min[1]),
                greater(self.min[2], other.min[2]),
                0i32,
            ],
            max: [
                lesser(self.max[0], other.max[0]),
                lesser(self.max[1], other.max[1]),
                lesser(self.max[2], other.max[2]),
                0i32,
            ],
        }
    }

    /// The box that `extend` leaves behind: the join on the three axes, with
    /// the padding of `self` kept.
    pub open spec fn extended(self, other: AABB) -> AABB {
        AABB {
            min: [
                lesser(self.min[0], other.min[0]),
                lesser(self.min[1], other.min[1]),
                lesser(self.min[2], other.min[2]),
                self.min[3],
            ],
            max: [
                greater(self.max[0], other.max[0]),
                greater(self.max[1], other.max[1]),
                greater(self.max[2], other.max[2]),
                self.max[3],
            ],
        }
    }

    /// The box that `contract` leaves behind: the overlap on the three axes,
    /// with the padding of `self` kept.
    pub open spec fn contracted(self, other: AABB) -> AABB {
        AABB {
            min: [
                greater(self.min[0], other.min[0]),
                greater(self.min[1], other.min[1]),
                greater(self.min[2], other.min[2]),
                self.min[3],
            ],
            max: [
                lesser(self.max[0], other.max[0]),
                lesser(self.max[1], other.max[1]),
                lesser(self.max[2], other.max[2]),
                self.max[3],
            ],
        }
    }

    /// The box around a run of primitives: the empty sentinel for no
    /// primitive, the primitive's own box for one, and otherwise the boxes
    /// joined from the first to the last.
    pub open spec fn bounds_of(s: Seq<TriangleCPU>) -> AABB
        decreases s.len(),
    {
        if s.len() == 0 {
            AABB::empty_box()
        } else if s.len() == 1 {
            s[0]@.bbox
        } else {
            AABB::bounds_of(s.drop_last()).joined(s.last()@.bbox)
        }
    }

    /// The box with the given corners, padding included. Nothing is asked
    /// of the corners: a box may end before it starts.
    pub fn new(min: [i32; 4], max: [i32; 4]) -> (r: AABB)
        ensures
            r.min == min,
            r.max == max,
    {
        AABB { min, max }
    }

    /// The degenerate box at the origin.
    pub fn default() -> (r: AABB)
        ensures
            r.min == [0i32, 0i32, 0i32, 0i32],
            r.max == [0i32, 0i32, 0i32, 0i32],
    {
        AABB { min: [0, 0, 0, 0], max: [0, 0, 0, 0] }
    }

    /// The empty sentinel: joining it with a box gives that box, and it
    /// overlaps nothing.
    pub fn empty() -> (r: AABB)
        ensures
            r == AABB::empty_box(),
    {
        AABB {
            min: [i32::MAX, i32::MAX, i32::MAX, i32::MAX],
            max: [i32::MIN, i32::MIN, i32::MIN, i32::MIN],
        }
    }

    /// The smallest box that holds both boxes: on each axis the lesser of
    /// the lower bounds and the greater of the upper bounds.
    pub fn union(&self, other: &AABB) -> (r: AABB)
        ensures
            r == self.joined(*other),
    {
        let min = [
            if self.min[0] <= other.min[0] { self.min[0] } else { other.min[0] },
            if self.min[1] <= other.min[1] { self.min[1] } else { other.min[1] },
            if self.min[2] <= other.min[2] { self.min[2] } else { other.min[2] },
            0,
        ];
        let max = [
            if self.max[0] >= other.max[0] { self.max[0] } else { other.max[0] },
            if self.max[1] >= other.max[1] { self.max[1] } else { other.max[1] },
            if self.max[2] >= other.max[2] { self.max[2] } else { other.max[2] },
            0,
        ];
        AABB { min, max }
    }

    /// The surface area `2 * (dx * dy + dy * dz + dz * dx)`, where `dx`,
    /// `dy` and `dz` are the signed extents of the box. It serves to compare
    /// boxes; it is exact, and negative only for a box that ends before it
    /// starts.
    pub fn surface_area(&self) -> (r: i128)
        ensures
            r == self.area(),
    {
        let x: i128 = self.max[0] as i128 - self.min[0] as i128;
        let y: i128 = self.max[1] as i128 - self.min[1] as i128;
        let z: i128 = self.max[2] as i128 - self.min[2] as i128;
        proof {
            lemma_product_bound(x as int, y as int);
            lemma_product_bound(y as int, z as int);
            lemma_product_bound(z as int, x as int);
        }
        2 * (x * y + y * z + z * x)
    }

    /// What the two boxes have in common: on each axis the greater of the
    /// lower bounds and the lesser of the upper bounds; `None` where that
    /// ends before it starts on some axis.
    pub fn intersection(&self, other: &AABB) -> (r: Option<AABB>)
        ensures
            r == (if self.overlap(*other).is_proper() {
                Some(self.overlap(*other))
            } else {
                None
            }),
    {
        let min = [
            if self.min[0] >= other.min[0] { self.min[0] } else { other.min[0] },
            if self.min[1] >= other.min[1] { self.min[1] } else { other.min[1] },
            if self.min[2] >= other.min[2] { self.min[2] } else { other.min[2] },
            0,
        ];
        let max = [
            if self.max[0] <= other.max[0] { self.max[0] } else { other.max[0] },
            if self.max[1] <= other.max[1] { self.max[1] } else { other.max[1] },
            if self.max[2] <= other.max[2] { self.max[2] } else { other.max[2] },
            0,
        ];
        if min[0] <= max[0] && min[1] <= max[1] && min[2] <= max[2] {
            Some(AABB { min, max })
        } else {
            None
        }
    }

    /// The box around `primitives[start..end]`; the empty sentinel where the
    /// range holds nothing.
    pub fn bounding_box_for_slice(primitives: &[TriangleCPU], start: usize, end: usize) -> (r: AABB)
        requires
            start < end ==> end <= primitives@.len(),
        ensures
            start < end ==> r == AABB::bounds_of(primitives@.subrange(start as int, end as int)),
            start >= end ==> r == AABB::empty_box(),
    {
        if start >= end {
            return AABB::empty();
        }
        let mut bbox = primitives[start].bounding_box();
        let mut i: usize = start + 1;
        assert(primitives@.subrange(start as int, i as int).len() == 1);
        while i < end
            invariant
                start < i <= end <= primitives@.len(),
                bbox == AABB::bounds_of(primitives@.subrange(start as int, i as int)),
            decreases end - i,
        {
            let ghost before = primitives@.subrange(start as int, i as int);
            let ghost after = primitives@.subrange(start as int, i + 1);
            assert(after.drop_last() =~= before);
            bbox = bbox.union(&primitives[i].bounding_box());
            i += 1;
        }
        bbox
    }

    /// Grows the box on its three axes until it holds `other`.
    pub fn extend(&mut self, other: &AABB)
        ensures
            *final(self) == old(self).extended(*other),
    {
        let mut i: usize = 0;
        while i < 3
            invariant
                i <= 3,
                forall|k: int| 0 <= k < i ==> self.min[k] == lesser(old(self).min[k], other.min[k]),
                forall|k: int| 0 <= k < i ==> self.max[k] == greater(old(self).max[k], other.max[k]),
                forall|k: int| i <= k < 4 ==> self.min[k] == old(self).min[k],
                forall|k: int| i <= k < 4 ==> self.max[k] == old(self).max[k],
            decreases 3 - i,
        {
            if other.min[i] < self.min[i] {
                self.min[i] = other.min[i];
            }
            if other.max[i] > self.max[i] {
                self.max[i] = other.max[i];
            }
            i += 1;
        }
        assert(self.min =~= old(self).extended(*other).min);
        assert(self.max =~= old(self).extended(*other).max);
    }

    /// Shrinks the box on its three axes to what it has in common with
    /// `other`, whether or not anything is left.
    pub fn contract(&mut self, other: &AABB)
        ensures
            *final(self) == old(self).contracted(*other),
    {
        let mut i: usize = 0;
        while i < 3
            invariant
                i <= 3,
                forall|k: int| 0 <= k < i ==> self.min[k] == greater(old(self).min[k], other.min[k]),
                forall|k: int| 0 <= k < i ==> self.max[k] == lesser(old(self).max[k], other.max[k]),
                forall|k: int| i <= k < 4 ==> self.min[k] == old(self).min[k],
                forall|k: int| i <= k < 4 ==> self.max[k] == old(self).max[k],
            decreases 3 - i,
        {
            if other.min[i] > self.min[i] {
                self.min[i] = other.min[i];
            }
            if other.max[i] < self.max[i] {
                self.max[i] = other.max[i];
            }
            i += 1;
        }
        assert(self.min =~= old(self).contracted(*other).min);
        assert(self.max =~= old(self).contracted(*other).max);
    }
}

/// Joining two boxes does not depend on their order.
pub proof fn lemma_join_commutes(a: AABB, b: AABB)
    ensures
        a.joined(b) == b.joined(a),
{
}

/// Joining three boxes does not depend on how they are grouped.
pub proof fn lemma_join_associates(a: AABB, b: AABB, c: AABB)
    ensures
        a.joined(b).joined(c) == a.joined(b.joined(c)),
{
}

/// Joining with the empty sentinel leaves the three axes of a box as they
/// are, and the whole box where its padding is zero.
pub proof fn lemma_join_empty(a: AABB)
    ensures
        a.joined(AABB::empty_box()).same_extent(a),
        AABB::empty_box().joined(a).same_extent(a),
        a.is_padded() ==> a.joined(AABB::empty_box()) == a && AABB::empty_box().joined(a) == a,
{
    if a.is_padded() {
        assert(a.joined(AABB::empty_box()).min =~= a.min);
        assert(a.joined(AABB::empty_box()).max =~= a.max);
        assert(AABB::empty_box().joined(a).min =~= a.min);
        assert(AABB::empty_box().joined(a).max =~= a.max);
    }
}

/// The join of two boxes that do not end before they start does not either.
pub proof fn lemma_join_proper(a: AABB, b: AABB)
    requires
        a.is_proper(),
        b.is_proper(),
    ensures
        a.joined(b).is_proper(),
{
}

/// The empty sentinel overlaps no box, itself included.
pub proof fn lemma_overlap_empty(a: AABB)
    ensures
        !a.overlap(AABB::empty_box()).is_proper(),
        !AABB::empty_box().overlap(a).is_proper(),
{
}

/// The box around two runs put together is the join of the boxes around
/// each.
pub proof fn lemma_bounds_concat(x: Seq<TriangleCPU>, y: Seq<TriangleCPU>)
    requires
        x.len() >= 1,
        y.len() >= 1,
    ensures
        AABB::bounds_of(x + y) == AABB::bounds_of(x).joined(AABB::bounds_of(y)),
    decreases y.len(),
{
    let whole = x + y;
    if y.len() == 1 {
        assert(whole.drop_last() =~= x);
    } else {
        assert(whole.drop_last() =~= x + y.drop_last());
        lemma_bounds_concat(x, y.drop_last());
        lemma_join_associates(
            AABB::bounds_of(x),
            AABB::bounds_of(y.drop_last()),
            y.last()@.bbox,
        );
    }
}

/// Whether, along `axis`, `b` starts where the first of the primitives'
/// boxes starts and ends where the last of them ends.
pub open spec fn is_tight_on(b: AABB, s: Seq<TriangleCPU>, axis: int) -> bool {
    &&& forall|i: int| 0 <= i < s.len() ==> b.min[axis] <= (#[trigger] s[i])@.bbox.min[axis]
    &&& forall|i: int| 0 <= i < s.len() ==> b.max[axis] >= (#[trigger] s[i])@.bbox.max[axis]
    &&& exists|i: int| 0 <= i < s.len() && b.min[axis] == (#[trigger] s[i])@.bbox.min[axis]
    &&& exists|i: int| 0 <= i < s.len() && b.max[axis] == (#[trigger] s[i])@.bbox.max[axis]
}

/// The box around a run of primitives is the smallest box that holds all
/// their boxes.
pub proof fn lemma_bounds_tight(s: Seq<TriangleCPU>, axis: int)
    requires
        s.len() >= 1,
        0 <= axis < 3,
    ensures
        is_tight_on(AABB::bounds_of(s), s, axis),
        s.len() >= 2 ==> AABB::bounds_of(s).is_padded(),
    decreases s.len(),
{
    let b = AABB::bounds_of(s);
    if s.len() == 1 {
        assert(s[0]@.bbox.min[axis] == b.min[axis]);
    } else {
        let front = s.drop_last();
        let fb = AABB::bounds_of(front);
        lemma_bounds_tight(front, axis);
        let lo = choose|i: int| 0 <= i < front.len() && fb.min[axis] == (#[trigger] front[i])@.bbox.min[axis];
        let hi = choose|i: int| 0 <= i < front.len() && fb.max[axis] == (#[trigger] front[i])@.bbox.max[axis];
        let last = s.len() - 1;
        assert(front[lo] == s[lo] && front[hi] == s[hi]);
        assert forall|i: int| 0 <= i < s.len() implies b.min[axis] <= (#[trigger] s[i])@.bbox.min[axis]
            && b.max[axis] >= s[i]@.bbox.max[axis] by {
            if i < last {
                assert(front[i] == s[i]);
            }
        }
        if b.min[axis] == s[last]@.bbox.min[axis] {
        } else {
            assert(b.min[axis] == s[lo]@.bbox.min[axis]);
        }
        if b.max[axis] == s[last]@.bbox.max[axis] {
        } else {
            assert(b.max[axis] == s[hi]@.bbox.max[axis]);
        }
    }
}

/// The box around a run of primitives does not depend on the order of the
/// run.
pub proof fn lemma_bounds_rearranged(s: Seq<TriangleCPU>, t: Seq<TriangleCPU>)
    requires
        s.to_multiset() == t.to_multiset(),
    ensures
        AABB::bounds_of(s) == AABB::bounds_of(t),
{
    broadcast use vstd::seq_lib::to_multiset_len, vstd::seq_lib::to_multiset_contains;

    assert(s.len() == s.to_multiset().len());
    assert(t.len() == t.to_multiset().len());
    let a = AABB::bounds_of(s);
    let b = AABB::bounds_of(t);
    assert forall|i: int| 0 <= i < s.len() implies t.contains(#[trigger] s[i]) by {
        assert(s.contains(s[i]));
        assert(s.to_multiset().count(s[i]) > 0);
    }
    assert forall|i: int| 0 <= i < t.len() implies s.contains(#[trigger] t[i]) by {
        assert(t.contains(t[i]));
        assert(t.to_multiset().count(t[i]) > 0);
    }
    if s.len() == 1 {
        assert(t.contains(s[0]));
        assert(t[0] == s[0]);
    } else if s.len() >= 2 {
        assert forall|axis: int| 0 <= axis < 3 implies a.min[axis] == b.min[axis] && a.max[axis]
            == b.max[axis] by {
            lemma_bounds_tight(s, axis);
            lemma_bounds_tight(t, axis);
            let sl = choose|i: int| 0 <= i < s.len() && a.min[axis] == (#[trigger] s[i])@.bbox.min[axis];
            let sh = choose|i: int| 0 <= i < s.len() && a.max[axis] == (#[trigger] s[i])@.bbox.max[axis];
            let tl = choose|i: int| 0 <= i < t.len() && b.min[axis] == (#[trigger] t[i])@.bbox.min[axis];
            let th = choose|i: int| 0 <= i < t.len() && b.max[axis] == (#[trigger] t[i])@.bbox.max[axis];
            assert(t.contains(s[sl]) && t.contains(s[sh]));
            assert(s.contains(t[tl]) && s.contains(t[th]));
            let sl2 = choose|j: int| 0 <= j < t.len() && t[j] == s[sl];
            let sh2 = choose|j: int| 0 <= j < t.len() && t[j] == s[sh];
            let tl2 = choose|j: int| 0 <= j < s.len() && s[j] == t[tl];
            let th2 = choose|j: int| 0 <= j < s.len() && s[j] == t[th];
            assert(b.min[axis] <= t[sl2]@.bbox.min[axis]);
            assert(b.max[axis] >= t[sh2]@.bbox.max[axis]);
            assert(a.min[axis] <= s[tl2]@.bbox.min[axis]);
            assert(a.max[axis] >= s[th2]@.bbox.max[axis]);
        }
        lemma_bounds_tight(s, 0);
        lemma_bounds_tight(t, 0);
        assert(a.min =~= b.min);
        assert(a.max =~= b.max);
    }
}

/// The product of two coordinate differences stays within 65 bits.
pub proof fn lemma_product_bound(x: int, y: int)
    requires
        -0x1_0000_0000 < x < 0x1_0000_0000,
        -0x1_0000_0000 < y < 0x1_0000_0000,
    ensures
        -0x1_0000_0000_0000_0000 < x * y < 0x1_0000_0000_0000_0000,
{
    assert(-0x1_0000_0000_0000_0000 < x * y < 0x1_0000_0000_0000_0000) by (nonlinear_arith)
        requires
            -0x1_0000_0000 < x < 0x1_0000_0000,
            -0x1_0000_0000 < y < 0x1_0000_0000,
    ;
}

} // verus!
