use vstd::prelude::*;
use rayon::iter::{IntoParallelIterator, IntoParallelRefIterator, ParallelIterator};
use rayon::slice::ParallelSliceMut;
use crate::primitives::triangle::TriangleCPU;
use crate::process::order::box_compare;
use crate::process::split::{
    boundary_cost, boundary_offset, centroid_term, eval_boundary, is_sorted_by, range, term_sum,
    BUCKET_COUNT, MAX_PRIMITIVES,
};

verus! {

/// Sorts `primitives[start..end]` with rayon's `par_sort_by`, comparing by
/// `box_compare` on `axis`. The contract states what rayon documents of that
/// sort: the run is rearranged into non-decreasing key order, primitives
/// with equal keys keep their relative order, and nothing outside the run
/// moves.
#[verifier::external_body]
pub(crate) fn par_sort_by_min(
    primitives: &mut Vec<TriangleCPU>,
    start: usize,
    end: usize,
    axis: usize,
)
    requires
        start <= end <= old(primitives)@.len(),
        axis < 3,
    ensures
        exists|order: Seq<int>|
            is_sorted_by(final(primitives)@, old(primitives)@, start, end, axis, order),
{
    primitives[start..end].par_sort_by(|a, b| box_compare(a, b, axis));
}

/// Adds up one centroid statistic over `primitives[start..end]` with
/// rayon's `map` and `sum`: the centroid coordinates along `axis`, or their
/// squares, each coordinate taken three times. The contract states that
/// the parallel sum is the sum. No partial sum leaves the range of the
/// result: a term is less than 2^66 in magnitude, and the run holds at most
/// 2^30 of them.
#[verifier::external_body]
pub(crate) fn par_term_sum(
    primitives: &Vec<TriangleCPU>,
    start: usize,
    end: usize,
    axis: usize,
    squared: bool,
) -> (r: i128)
    requires
        start <= end <= primitives@.len(),
        end - start <= MAX_PRIMITIVES,
        axis < 3,
    ensures
        r == term_sum(range(primitives@, start, end), axis as int, squared),
{
    primitives[start..end].par_iter().map(|p| centroid_term(p, axis, squared)).sum()
}

/// Evaluates the first `buckets` bucket boundaries of
/// `primitives[start..end]` with rayon's `map` and `collect` over the
/// bucket numbers. The contract states that the collected vector holds, in
/// bucket order, what `eval_boundary` returns for each bucket.
#[verifier::external_body]
pub(crate) fn par_boundary_costs(
    primitives: &Vec<TriangleCPU>,
    start: usize,
    end: usize,
    buckets: usize,
) -> (r: Vec<(i128, usize)>)
    requires
        start < end <= primitives@.len(),
        end - start <= MAX_PRIMITIVES,
        buckets <= BUCKET_COUNT,
    ensures
        r@.len() == buckets,
        forall|k: int|
            0 <= k < buckets ==> {
                &&& (#[trigger] r@[k]).0 == boundary_cost(
                    range(primitives@, start, end),
                    boundary_offset(end - start, k),
                )
                &&& r@[k].1 == start + boundary_offset(end - start, k)
            },
{
    (0..buckets).into_par_iter().map(|k| eval_boundary(primitives, start, end, k)).collect()
}

} // verus!
