use vstd::prelude::*;
use std::cmp::Ordering;
use crate::primitives::triangle::TriangleCPU;

verus! {

/// The coordinate by which primitives are ordered along `axis`: the lower
/// bound of the primitive's box.
pub open spec fn min_key(p: TriangleCPU, axis: usize) -> int {
    p@.bbox.min[axis as int] as int
}

/// Orders two primitives by the lower bound of their boxes along `axis`.
pub fn box_compare(a: &TriangleCPU, b: &TriangleCPU, axis: usize) -> (r: Ordering)
    requires
        axis < 3,
    ensures
        (r == Ordering::Less) == (min_key(*a, axis) < min_key(*b, axis)),
        (r == Ordering::Equal) == (min_key(*a, axis) == min_key(*b, axis)),
        (r == Ordering::Greater) == (min_key(*a, axis) > min_key(*b, axis)),
{
    let x = a.bounding_box().min[axis];
    let y = b.bounding_box().min[axis];
    if x < y {
        Ordering::Less
    } else if x == y {
        Ordering::Equal
    } else {
        Ordering::Greater
    }
}

} // verus!
