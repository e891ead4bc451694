use vstd::prelude::*;
use crate::primitives::aabb::{AABB, lemma_product_bound};
use crate::primitives::triangle::{lemma_centroid_sum_bound, TriangleCPU};
use crate::process::order::min_key;
use crate::process::parallel::{par_boundary_costs, par_sort_by_min, par_term_sum};

verus! {

/// Number of equal-length index buckets that a range is cut into when the
/// split position is searched.
pub const BUCKET_COUNT: usize = 12;

/// The largest number of primitives that one tree can hold: with more, a
/// node index would not fit a node record.
pub const MAX_PRIMITIVES: usize = 0x4000_0000;

/// The run `s[start..end]`.
pub open spec fn range(s: Seq<TriangleCPU>, start: usize, end: usize) -> Seq<TriangleCPU> {
    s.subrange(start as int, end as int)
}

/// `s` with the run that starts at `start` replaced by `part`.
pub open spec fn splice(s: Seq<TriangleCPU>, start: int, part: Seq<TriangleCPU>) -> Seq<
    TriangleCPU,
> {
    s.subrange(0, start) + part + s.subrange(start + part.len(), s.len() as int)
}

// ---------------------------------------------------------------------
// Axis selection
// ---------------------------------------------------------------------
/// What one primitive adds to a centroid statistic: three times its
/// centroid coordinate along `axis` (the sum of its vertices), or the
/// square of that.
pub open spec fn term_of(p: TriangleCPU, axis: int, squared: bool) -> int {
    let c = p@.centroid_sum[axis] as int;
    if squared { c * c } else { c }
}

/// The sum of `term_of` over a run.
pub open spec fn term_sum(s: Seq<TriangleCPU>, axis: int, squared: bool) -> int
    decreases s.len(),
{
    if s.len() == 0 {
        0
    } else {
        term_sum(s.drop_last(), axis, squared) + term_of(s.last(), axis, squared)
    }
}

/// The sum of the cached box surface areas over a run, or of their squares.
pub open spec fn area_sum(s: Seq<TriangleCPU>, squared: bool) -> int
    decreases s.len(),
{
    if s.len() == 0 {
        0
    } else {
        let a = s.last()@.bbox_surface_area;
        area_sum(s.drop_last(), squared) + if squared { a * a } else { a }
    }
}

/// The variance of the centroid coordinates along `axis`, times nine times
/// the square of the run's length: `n * sum(s^2) - sum(s)^2`, where `s` is
/// three times a centroid coordinate.
pub open spec fn centroid_spread(s: Seq<TriangleCPU>, axis: int) -> int {
    s.len() * term_sum(s, axis, true) - term_sum(s, axis, false) * term_sum(s, axis, false)
}

/// The variance of the cached box surface areas, times the square of the
/// run's length.
pub open spec fn area_spread(s: Seq<TriangleCPU>) -> int {
    s.len() * area_sum(s, true) - area_sum(s, false) * area_sum(s, false)
}

/// The score of an axis: centroid variance plus surface-area variance, both
/// times nine times the square of the run's length. All axes of one run
/// share that factor, so scores compare as the sums of the two variances
/// do.
pub open spec fn axis_score(s: Seq<TriangleCPU>, axis: int) -> int {
    centroid_spread(s, axis) + 9 * area_spread(s)
}

/// The axis with the largest score; among equal scores the lowest axis.
pub open spec fn best_axis(s: Seq<TriangleCPU>) -> usize {
    if axis_score(s, 1) > axis_score(s, 0) {
        if axis_score(s, 2) > axis_score(s, 1) { 2usize } else { 1usize }
    } else {
        if axis_score(s, 2) > axis_score(s, 0) { 2usize } else { 0usize }
    }
}

// ---------------------------------------------------------------------
// Ordering
// ---------------------------------------------------------------------
/// The ordering keys of a run along `axis`.
pub open spec fn min_keys(s: Seq<TriangleCPU>, axis: usize) -> Seq<int> {
    Seq::new(s.len(), |i: int| min_key(s[i], axis))
}

/// Whether `order` names every position below its length exactly once.
pub open spec fn is_reordering(order: Seq<int>) -> bool {
    &&& forall|i: int| 0 <= i < order.len() ==> 0 <= #[trigger] order[i] < order.len()
    &&& forall|i: int, j: int|
        0 <= i < j < order.len() ==> #[trigger] order[i] != #[trigger] order[j]
    &&& forall|j: int| 0 <= j < order.len() ==> #[trigger] order.contains(j)
}

/// Whether `order` rearranges `keys` as a stable sort does: it names every
/// position exactly once, the keys do not decrease along it, and equal keys
/// keep the order they had.
#[verifier::opaque]
pub open spec fn is_stable_order(keys: Seq<int>, order: Seq<int>) -> bool {
    &&& order.len() == keys.len()
    &&& is_reordering(order)
    &&& forall|i: int, j: int|
        0 <= i < j < order.len() ==> keys[#[trigger] order[i]] <= keys[#[trigger] order[j]]
    &&& forall|i: int, j: int|
        0 <= i < j < order.len() && keys[#[trigger] order[i]] == keys[#[trigger] order[j]]
            ==> order[i] < order[j]
}

/// The order in which a stable sort puts a sequence of keys: entry `i` is
/// the position, in `keys`, of the key that comes out at position `i`.
/// There is exactly one such order: see `lemma_stable_order_unique`.
pub open spec fn stable_order(keys: Seq<int>) -> Seq<int> {
    choose|order: Seq<int>| is_stable_order(keys, order)
}

/// A run rearranged by `order`: position `i` holds what was at `order[i]`.
pub open spec fn rearranged(s: Seq<TriangleCPU>, order: Seq<int>) -> Seq<TriangleCPU> {
    Seq::new(s.len(), |i: int| s[order[i]])
}

/// A run in the order in which a stable sort by `min_key` leaves it.
pub open spec fn sorted_by_min(s: Seq<TriangleCPU>, axis: usize) -> Seq<TriangleCPU> {
    rearranged(s, stable_order(min_keys(s, axis)))
}

/// Whether `after` is `before` with the run `start..end` rearranged by
/// `order`, where `order` is how a stable sort by `min_key` along `axis`
/// orders that run, and with everything else in place.
pub open spec fn is_sorted_by(
    after: Seq<TriangleCPU>,
    before: Seq<TriangleCPU>,
    start: usize,
    end: usize,
    axis: usize,
    order: Seq<int>,
) -> bool {
    let run = range(before, start, end);
    &&& after == splice(before, start as int, rearranged(run, order))
    &&& is_stable_order(min_keys(run, axis), order)
}

/// Whether `after` is `before` with the run `start..end` stably sorted by
/// `min_key` along `axis` and everything else in place.
pub open spec fn is_sorted_in_place(
    after: Seq<TriangleCPU>,
    before: Seq<TriangleCPU>,
    start: usize,
    end: usize,
    axis: usize,
) -> bool {
    is_sorted_by(after, before, start, end, axis, stable_order(min_keys(range(before, start, end), axis)))
}

/// Two orders that both rearrange `keys` as a stable sort does agree on
/// their first `upto` entries.
proof fn lemma_stable_orders_agree(keys: Seq<int>, a: Seq<int>, b: Seq<int>, upto: int)
    requires
        is_stable_order(keys, a),
        is_stable_order(keys, b),
        0 <= upto <= keys.len(),
    ensures
        forall|k: int| 0 <= k < upto ==> a[k] == b[k],
    decreases upto,
{
    reveal(is_stable_order);
    if upto > 0 {
        lemma_stable_orders_agree(keys, a, b, upto - 1);
        let i = upto - 1;
        if a[i] != b[i] {
            assert(b.contains(a[i]));
            let j = choose|j: int| 0 <= j < b.len() && b[j] == a[i];
            if j < i {
                assert(a[j] == b[j]);
                assert(a[j] != a[i]);
            }
            assert(a.contains(b[i]));
            let k = choose|k: int| 0 <= k < a.len() && a[k] == b[i];
            if k < i {
                assert(b[k] == a[k]);
                assert(b[k] != b[i]);
            }
            assert(keys[a[i]] <= keys[a[k]]);
            assert(keys[b[i]] <= keys[b[j]]);
            assert(a[i] < a[k]);
            assert(b[i] < b[j]);
        }
    }
}

/// The first position from `i` on at which `order` names a key greater than
/// `k`; the length of `order` where there is none.
spec fn first_greater(keys: Seq<int>, order: Seq<int>, k: int, i: int) -> int
    decreases order.len() - i,
{
    if i >= order.len() {
        order.len() as int
    } else if keys[order[i]] > k {
        i
    } else {
        first_greater(keys, order, k, i + 1)
    }
}

/// Up to `first_greater` no key exceeds `k`, and the key there does.
proof fn lemma_first_greater(keys: Seq<int>, order: Seq<int>, k: int, i: int)
    requires
        0 <= i <= order.len(),
    ensures
        i <= first_greater(keys, order, k, i) <= order.len(),
        forall|j: int| i <= j < first_greater(keys, order, k, i) ==> keys[#[trigger] order[j]] <= k,
        first_greater(keys, order, k, i) < order.len() ==> keys[order[first_greater(
            keys,
            order,
            k,
            i,
        )]] > k,
    decreases order.len() - i,
{
    if i < order.len() && keys[order[i]] <= k {
        lemma_first_greater(keys, order, k, i + 1);
    }
}

/// `order` with the position `last` put in before entry `at`.
spec fn with_last(order: Seq<int>, at: int, last: int) -> Seq<int> {
    Seq::new(
        order.len() + 1,
        |i: int|
            if i < at {
                order[i]
            } else if i == at {
                last
            } else {
                order[i - 1]
            },
    )
}

/// A witness of `lemma_stable_order_exists`: the keys but the last in their
/// stable order, with the last key put in behind every key that does not
/// exceed it.
spec fn stable_order_built(keys: Seq<int>) -> Seq<int>
    decreases keys.len(),
{
    if keys.len() == 0 {
        Seq::empty()
    } else {
        let front = stable_order_built(keys.drop_last());
        with_last(front, first_greater(keys, front, keys.last(), 0), keys.len() - 1)
    }
}

/// Every sequence of keys has a stable order.
pub proof fn lemma_stable_order_exists(keys: Seq<int>)
    ensures
        is_stable_order(keys, stable_order(keys)),
{
    lemma_stable_order_built(keys);
}

/// A run sorted by `min_key` holds what the run holds, in an order in which
/// the keys do not decrease.
pub proof fn lemma_sorted_by_min(s: Seq<TriangleCPU>, axis: usize)
    ensures
        sorted_by_min(s, axis).len() == s.len(),
        sorted_by_min(s, axis).to_multiset() == s.to_multiset(),
        forall|i: int, j: int|
            0 <= i <= j < s.len() ==> min_key(#[trigger] sorted_by_min(s, axis)[i], axis) <= min_key(
                #[trigger] sorted_by_min(s, axis)[j],
                axis,
            ),
{
    let keys = min_keys(s, axis);
    let order = stable_order(keys);
    lemma_stable_order_exists(keys);
    reveal(is_stable_order);
    lemma_rearranged_multiset(s, order);
    assert forall|i: int, j: int| 0 <= i <= j < s.len() implies min_key(
        #[trigger] sorted_by_min(s, axis)[i],
        axis,
    ) <= min_key(#[trigger] sorted_by_min(s, axis)[j], axis) by {
        assert(keys[order[i]] == min_key(s[order[i]], axis));
        assert(keys[order[j]] == min_key(s[order[j]], axis));
    }
}

/// The witness is a stable order.
proof fn lemma_stable_order_built(keys: Seq<int>)
    ensures
        is_stable_order(keys, stable_order_built(keys)),
    decreases keys.len(),
{
    reveal(is_stable_order);
    let built = stable_order_built(keys);
    if keys.len() > 0 {
        let shorter = keys.drop_last();
        let front = stable_order_built(shorter);
        let last = keys.len() - 1;
        let k = keys.last();
        lemma_stable_order_built(shorter);
        lemma_first_greater(keys, front, k, 0);
        let at = first_greater(keys, front, k, 0);
        assert forall|i: int| 0 <= i < front.len() implies keys[#[trigger] front[i]]
            == shorter[front[i]] by {}
        assert forall|j: int| at <= j < front.len() implies keys[#[trigger] front[j]] > k by {
            if j > at {
                assert(shorter[front[at]] <= shorter[front[j]]);
            }
        }
        assert forall|i: int| 0 <= i < built.len() implies 0 <= #[trigger] built[i] < built.len() by {
            if i < at {
                assert(0 <= front[i] < front.len());
            } else if i > at {
                assert(0 <= front[i - 1] < front.len());
            }
        }
        assert forall|i: int, j: int| 0 <= i < j < built.len() implies #[trigger] built[i]
            != #[trigger] built[j] by {
            let a = if i < at { i } else { i - 1 };
            let b = if j < at { j } else { j - 1 };
            if i != at && j != at {
                assert(front[a] != front[b]);
            } else if i == at {
                assert(0 <= front[b] < front.len());
            } else {
                assert(0 <= front[a] < front.len());
            }
        }
        assert forall|j: int| 0 <= j < built.len() implies #[trigger] built.contains(j) by {
            if j == last {
                assert(built[at] == j);
            } else {
                assert(front.contains(j));
                let i = choose|i: int| 0 <= i < front.len() && front[i] == j;
                if i < at {
                    assert(built[i] == j);
                } else {
                    assert(built[i + 1] == j);
                }
            }
        }
        assert forall|i: int, j: int| 0 <= i < j < built.len() implies keys[#[trigger] built[i]]
            <= keys[#[trigger] built[j]] && (keys[built[i]] == keys[built[j]] ==> built[i]
            < built[j]) by {
            let a = if i < at { i } else { i - 1 };
            let b = if j < at { j } else { j - 1 };
            if i != at && j != at {
                assert(shorter[front[a]] <= shorter[front[b]]);
                assert(keys[front[a]] == shorter[front[a]]);
                assert(keys[front[b]] == shorter[front[b]]);
            } else if i == at {
                assert(keys[front[b]] > k);
            } else {
                assert(keys[front[a]] <= k);
                assert(0 <= front[a] < front.len());
            }
        }
    }
    assert(is_stable_order(keys, built));
}

/// A stable sort orders a sequence of keys in one way only.
pub proof fn lemma_stable_order_unique(keys: Seq<int>, a: Seq<int>, b: Seq<int>)
    requires
        is_stable_order(keys, a),
        is_stable_order(keys, b),
    ensures
        a == b,
{
    lemma_stable_orders_agree(keys, a, b, keys.len() as int);
    assert(a.len() == keys.len() && b.len() == keys.len()) by {
        reveal(is_stable_order);
    }
    assert(a =~= b);
}

/// Rearranging a run keeps what is in it.
pub proof fn lemma_rearranged_multiset(s: Seq<TriangleCPU>, order: Seq<int>)
    requires
        order.len() == s.len(),
        is_reordering(order),
    ensures
        rearranged(s, order).to_multiset() == s.to_multiset(),
    decreases s.len(),
{
    broadcast use vstd::seq_lib::to_multiset_build, vstd::seq_lib::to_multiset_remove;

    let t = rearranged(s, order);
    if s.len() == 0 {
        assert(t =~= s);
    } else {
        let last = s.len() - 1;
        assert(order.contains(last));
        let at = choose|i: int| 0 <= i < order.len() && order[i] == last;
        let fewer = order.remove(at);
        let front = s.drop_last();
        assert forall|i: int| 0 <= i < fewer.len() implies 0 <= #[trigger] fewer[i] < fewer.len() by {
            if i < at {
                assert(order[i] != order[at]);
            } else {
                assert(order[at] != order[i + 1]);
            }
        }
        assert forall|i: int, j: int| 0 <= i < j < fewer.len() implies #[trigger] fewer[i]
            != #[trigger] fewer[j] by {
            let a = if i < at { i } else { i + 1 };
            let b = if j < at { j } else { j + 1 };
            assert(order[a] != order[b]);
        }
        assert forall|j: int| 0 <= j < fewer.len() implies #[trigger] fewer.contains(j) by {
            assert(order.contains(j));
            let i = choose|i: int| 0 <= i < order.len() && order[i] == j;
            if i < at {
                assert(fewer[i] == j);
            } else {
                assert(fewer[i - 1] == j);
            }
        }
        lemma_rearranged_multiset(front, fewer);
        assert(t.remove(at) =~= rearranged(front, fewer));
        assert(s =~= front.push(s[last]));
        assert(t[at] == s[last]);
        assert(t.to_multiset().count(s[last]) > 0) by {
            broadcast use vstd::seq_lib::to_multiset_contains;

            assert(t.contains(t[at]));
        }
        assert(t.to_multiset() =~= t.to_multiset().remove(s[last]).insert(s[last]));
    }
}

/// Replacing a run by a rearrangement of the run keeps what is in the array.
pub proof fn lemma_splice_multiset(s: Seq<TriangleCPU>, start: int, end: int, order: Seq<int>)
    requires
        0 <= start <= end <= s.len(),
        order.len() == end - start,
        is_reordering(order),
    ensures
        splice(s, start, rearranged(s.subrange(start, end), order)).to_multiset()
            == s.to_multiset(),
{
    broadcast use vstd::seq_lib::lemma_multiset_commutative;

    let run = s.subrange(start, end);
    let head = s.subrange(0, start);
    let tail = s.subrange(end, s.len() as int);
    lemma_rearranged_multiset(run, order);
    assert(s =~= head + run + tail);
    assert(splice(s, start, rearranged(run, order)) =~= head + rearranged(run, order) + tail);
}

// ---------------------------------------------------------------------
// Split position
// ---------------------------------------------------------------------
/// Where bucket `k` of a run of `n` primitives ends, counted from the start
/// of the run. Buckets have `n / BUCKET_COUNT` primitives each; the last one
/// takes the remainder too.
pub open spec fn boundary_offset(n: int, k: int) -> int {
    if k < BUCKET_COUNT - 1 {
        (k + 1) * (n / BUCKET_COUNT as int)
    } else {
        n
    }
}

/// The cost of cutting a run before position `b`: for each side, the surface
/// area of the side's box times the number of primitives on that side.
pub open spec fn boundary_cost(s: Seq<TriangleCPU>, b: int) -> int {
    AABB::bounds_of(s.subrange(0, b)).area() * b + AABB::bounds_of(
        s.subrange(b, s.len() as int),
    ).area() * (s.len() - b)
}

/// The cost at the end of bucket `k`.
pub open spec fn bucket_cost(s: Seq<TriangleCPU>, k: int) -> int {
    boundary_cost(s, boundary_offset(s.len() as int, k))
}

/// Among buckets `0..=k`, the first one whose boundary has the least cost.
pub open spec fn cheapest_bucket(s: Seq<TriangleCPU>, k: int) -> int
    decreases k,
{
    if k <= 0 {
        0
    } else {
        let before = cheapest_bucket(s, k - 1);
        if bucket_cost(s, k) < bucket_cost(s, before) {
            k
        } else {
            before
        }
    }
}

/// The first bucket boundary of least cost, counted from the run's start.
pub open spec fn cheapest_boundary(s: Seq<TriangleCPU>) -> int {
    boundary_offset(s.len() as int, cheapest_bucket(s, BUCKET_COUNT - 1))
}

/// Whether every bucket boundary costs the same, so that none improves on
/// another.
pub open spec fn costs_are_equal(s: Seq<TriangleCPU>) -> bool {
    forall|k: int| 0 <= k < BUCKET_COUNT ==> #[trigger] bucket_cost(s, k) == bucket_cost(s, 0)
}

/// Where a run is cut, counted from its start: at the cheapest bucket
/// boundary; or, where no boundary improves on another or the cheapest one
/// is not strictly inside the run, at the run's midpoint.
pub open spec fn split_point(s: Seq<TriangleCPU>) -> int {
    let b = cheapest_boundary(s);
    if !costs_are_equal(s) && 0 < b < s.len() {
        b
    } else {
        s.len() as int / 2
    }
}

/// Where the search down from position `i` ends: at the last position of
/// the run of positions `i`, `i - 1`, ... that each cost less than the best
/// position before it, `best` at first.
pub open spec fn descent(s: Seq<TriangleCPU>, i: int, best: int) -> int
    decreases i,
{
    if i <= 0 {
        best
    } else if boundary_cost(s, i) < boundary_cost(s, best) {
        descent(s, i - 1, i)
    } else {
        best
    }
}

/// Where the search up from position `i` ends: at the last position of the
/// run of positions `i`, `i + 1`, ... that each cost less than the best
/// position before it, `best` at first.
pub open spec fn ascent(s: Seq<TriangleCPU>, i: int, best: int) -> int
    decreases s.len() - i,
{
    if i >= s.len() {
        best
    } else if boundary_cost(s, i) < boundary_cost(s, best) {
        ascent(s, i + 1, i)
    } else {
        best
    }
}

/// Where a run is cut by the search from the middle outwards, counted from
/// the run's start: the search starts at the midpoint, moves down while the
/// cost falls, and from there moves up from above the midpoint while the
/// cost falls further. A run of fewer than two primitives is cut at 0.
pub open spec fn middle_out_point(s: Seq<TriangleCPU>) -> int {
    let middle = s.len() as int / 2;
    if middle <= 0 {
        0
    } else {
        ascent(s, middle + 1, descent(s, middle - 1, middle))
    }
}

/// The search down ends between 1 and where it began.
pub proof fn lemma_descent_range(s: Seq<TriangleCPU>, i: int, best: int)
    requires
        0 <= i < best,
    ensures
        1 <= descent(s, i, best) <= best,
    decreases i,
{
    if i > 0 && boundary_cost(s, i) < boundary_cost(s, best) {
        lemma_descent_range(s, i - 1, i);
    }
}

/// The search up ends inside the run, at its best position so far or above
/// where it began.
pub proof fn lemma_ascent_range(s: Seq<TriangleCPU>, i: int, best: int)
    requires
        1 <= best < i,
        best < s.len(),
    ensures
        descent_or_above(s, i, best),
    decreases s.len() - i,
{
    if i < s.len() && boundary_cost(s, i) < boundary_cost(s, best) {
        lemma_ascent_range(s, i + 1, i);
    }
}

/// Whether the search up from `i` ends at `best` or at a position from `i`
/// on, inside the run.
pub open spec fn descent_or_above(s: Seq<TriangleCPU>, i: int, best: int) -> bool {
    let r = ascent(s, i, best);
    1 <= r < s.len() && (r == best || r >= i)
}

/// A run of two or more primitives is cut strictly inside, whatever its
/// length.
pub proof fn lemma_split_point_inside(s: Seq<TriangleCPU>)
    requires
        s.len() >= 2,
    ensures
        0 < split_point(s) < s.len(),
{
}

/// A run whose search selects no boundary strictly inside is cut at its
/// midpoint, whatever its length: where all boundaries cost the same, and
/// where the cheapest boundary lies at an end of the run.
pub proof fn lemma_split_point_midpoint(s: Seq<TriangleCPU>)
    requires
        costs_are_equal(s) || cheapest_boundary(s) <= 0 || cheapest_boundary(s) >= s.len(),
    ensures
        split_point(s) == s.len() as int / 2,
{
}

/// In a run of fewer primitives than buckets every bucket but the last is
/// empty, every boundary lies at an end of the run and costs the same, and
/// the run is cut at its midpoint.
pub proof fn lemma_short_run_costs(s: Seq<TriangleCPU>)
    ensures
        s.len() < BUCKET_COUNT ==> costs_are_equal(s) && split_point(s) == s.len() as int / 2,
{
    if s.len() < BUCKET_COUNT {
        let n = s.len() as int;
        assert(s.subrange(0, n) =~= s);
        assert(s.subrange(0, 0) =~= s.subrange(n, n));
        assert forall|k: int| 0 <= k < BUCKET_COUNT implies #[trigger] bucket_cost(s, k)
            == bucket_cost(s, 0) by {
            assert(boundary_offset(n, k) == 0 || boundary_offset(n, k) == n);
            assert(boundary_offset(n, 0) == 0 || boundary_offset(n, 0) == n);
        }
    }
}

/// Every box has a surface area of less than 2^67 in magnitude.
pub proof fn lemma_area_bound(b: AABB)
    ensures
        -0x8_0000_0000_0000_0000 < b.area() < 0x8_0000_0000_0000_0000,
{
    lemma_product_bound(b.extent(0), b.extent(1));
    lemma_product_bound(b.extent(1), b.extent(2));
    lemma_product_bound(b.extent(2), b.extent(0));
}

/// A centroid statistic of a run is bounded by the run's length.
pub proof fn lemma_term_sum_bound(s: Seq<TriangleCPU>, axis: int, squared: bool)
    requires
        0 <= axis < 3,
    ensures
        !squared ==> -0x2_0000_0000 * s.len() <= term_sum(s, axis, squared) <= 0x2_0000_0000
            * s.len(),
        squared ==> 0 <= term_sum(s, axis, squared) <= 0x4_0000_0000_0000_0000 * s.len(),
    decreases s.len(),
{
    if s.len() > 0 {
        lemma_term_sum_bound(s.drop_last(), axis, squared);
        lemma_centroid_sum_bound(s.last(), axis);
        let c = s.last()@.centroid_sum[axis] as int;
        assert(0 <= c * c <= 0x4_0000_0000_0000_0000) by (nonlinear_arith)
            requires
                -0x2_0000_0000 <= c <= 0x2_0000_0000,
        ;
    }
}

/// What one primitive adds to a centroid statistic.
pub fn centroid_term(p: &TriangleCPU, axis: usize, squared: bool) -> (r: i128)
    requires
        axis < 3,
    ensures
        r == term_of(*p, axis as int, squared),
{
    let c: i128 = p.centroid()[axis] as i128;
    if squared {
        proof {
            lemma_centroid_sum_bound(*p, axis as int);
        }
        assert(0 <= c * c <= 0x4_0000_0000_0000_0000) by (nonlinear_arith)
            requires
                -0x2_0000_0000 <= c <= 0x2_0000_0000,
        ;
        c * c
    } else {
        c
    }
}

/// The cost of cutting `primitives[start..end]` before index `at`.
pub fn cut_cost(primitives: &Vec<TriangleCPU>, start: usize, end: usize, at: usize) -> (r: i128)
    requires
        start <= at <= end <= primitives@.len(),
        end - start <= MAX_PRIMITIVES,
    ensures
        r == boundary_cost(range(primitives@, start, end), at - start),
{
    let ghost run = range(primitives@, start, end);
    let left_box = AABB::bounding_box_for_slice(primitives.as_slice(), start, at);
    let right_box = AABB::bounding_box_for_slice(primitives.as_slice(), at, end);
    proof {
        assert(run.subrange(0, at - start) =~= primitives@.subrange(start as int, at as int));
        assert(run.subrange(at - start, run.len() as int) =~= primitives@.subrange(
            at as int,
            end as int,
        ));
        lemma_area_bound(left_box);
        lemma_area_bound(right_box);
    }
    let left = left_box.surface_area();
    let right = right_box.surface_area();
    let left_count: i128 = (at - start) as i128;
    let right_count: i128 = (end - at) as i128;
    assert(-0x8_0000_0000_0000_0000 * 0x4000_0000 <= left * left_count <= 0x8_0000_0000_0000_0000
        * 0x4000_0000) by (nonlinear_arith)
        requires
            -0x8_0000_0000_0000_0000 < left < 0x8_0000_0000_0000_0000,
            0 <= left_count <= 0x4000_0000,
    ;
    assert(-0x8_0000_0000_0000_0000 * 0x4000_0000 <= right * right_count <= 0x8_0000_0000_0000_0000
        * 0x4000_0000) by (nonlinear_arith)
        requires
            -0x8_0000_0000_0000_0000 < right < 0x8_0000_0000_0000_0000,
            0 <= right_count <= 0x4000_0000,
    ;
    left * left_count + right * right_count
}

/// The cost of cutting `primitives[start..end]` at the end of bucket `k`,
/// and the index at which that bucket ends.
pub fn eval_boundary(primitives: &Vec<TriangleCPU>, start: usize, end: usize, k: usize) -> (r: (
    i128,
    usize,
))
    requires
        start < end <= primitives@.len(),
        end - start <= MAX_PRIMITIVES,
        k < BUCKET_COUNT,
    ensures
        r.0 == boundary_cost(range(primitives@, start, end), boundary_offset(end - start, k as int)),
        r.1 == start + boundary_offset(end - start, k as int),
{
    let bucket_size = (end - start) / BUCKET_COUNT;
    let bucket_end = if k < BUCKET_COUNT - 1 {
        assert((k + 1) * bucket_size <= end - start) by (nonlinear_arith)
            requires
                k + 1 <= 12,
                bucket_size == (end - start) / 12,
        ;
        start + (k + 1) * bucket_size
    } else {
        end
    };
    (cut_cost(primitives, start, end, bucket_end), bucket_end)
}

/// Chooses the axis along which `primitives[start..end]` is ordered: the one
/// with the largest score, the lowest such axis where scores tie.
///
/// The surface-area variance is the same on every axis, so the axis with the
/// largest centroid spread has the largest score; only the spreads are
/// computed.
pub fn select_axis(primitives: &Vec<TriangleCPU>, start: usize, end: usize) -> (axis: usize)
    requires
        start <= end <= primitives@.len(),
        end - start <= MAX_PRIMITIVES,
    ensures
        axis == best_axis(range(primitives@, start, end)),
        axis < 3,
{
    let count: i128 = (end - start) as i128;
    let ghost run = range(primitives@, start, end);
    let mut spreads: [i128; 3] = [0, 0, 0];
    let mut axis: usize = 0;
    while axis < 3
        invariant
            axis <= 3,
            start <= end <= primitives@.len(),
            count == end - start,
            count <= MAX_PRIMITIVES,
            run == range(primitives@, start, end),
            forall|a: int| 0 <= a < axis ==> spreads[a] == centroid_spread(run, a),
        decreases 3 - axis,
    {
        let sum = par_term_sum(primitives, start, end, axis, false);
        let squares = par_term_sum(primitives, start, end, axis, true);
        proof {
            lemma_term_sum_bound(run, axis as int, false);
            lemma_term_sum_bound(run, axis as int, true);
            assert(0 <= count * squares <= 0x4000_0000_0000_0000_0000_0000_0000_0000)
                by (nonlinear_arith)
                requires
                    0 <= count <= 0x4000_0000,
                    0 <= squares <= 0x4_0000_0000_0000_0000 * count,
            ;
            assert(0 <= sum * sum <= 0x4000_0000_0000_0000_0000_0000_0000_0000)
                by (nonlinear_arith)
                requires
                    0 <= count <= 0x4000_0000,
                    -0x2_0000_0000 * count <= sum <= 0x2_0000_0000 * count,
            ;
        }
        spreads[axis] = count * squares - sum * sum;
        axis += 1;
    }
    if spreads[1] > spreads[0] {
        if spreads[2] > spreads[1] { 2 } else { 1 }
    } else {
        if spreads[2] > spreads[0] { 2 } else { 0 }
    }
}

/// Searches the bucket boundaries of `primitives[start..end]` for the one
/// with the least cost and returns the index at which to cut. Where no
/// boundary improves on another, or the cheapest one is not strictly inside
/// the range, the range is cut at its midpoint.
pub fn sah_split(primitives: &Vec<TriangleCPU>, start: usize, end: usize) -> (r: usize)
    requires
        start < end <= primitives@.len(),
        end - start <= MAX_PRIMITIVES,
    ensures
        r == start + split_point(range(primitives@, start, end)),
        ({
            let run = range(primitives@, start, end);
            let b = cheapest_boundary(run);
            if !costs_are_equal(run) && 0 < b < end - start {
                r == start + b
            } else {
                r == start + (end - start) / 2
            }
        }),
        end - start < BUCKET_COUNT ==> r == start + (end - start) / 2,
        start <= r < end,
        end - start >= 2 ==> start < r,
{
    let ghost run = range(primitives@, start, end);
    let costs = par_boundary_costs(primitives, start, end, BUCKET_COUNT);
    let first_cost = costs[0].0;
    let mut best_cost = first_cost;
    let mut best_index = costs[0].1;
    let mut improved = false;
    let mut k: usize = 1;
    while k < BUCKET_COUNT
        invariant
            1 <= k <= BUCKET_COUNT,
            costs@.len() == BUCKET_COUNT,
            run.len() == end - start,
            first_cost == bucket_cost(run, 0),
            forall|j: int|
                0 <= j < BUCKET_COUNT ==> {
                    &&& (#[trigger] costs@[j]).0 == bucket_cost(run, j)
                    &&& costs@[j].1 == start + boundary_offset(end - start, j)
                },
            best_cost == bucket_cost(run, cheapest_bucket(run, k - 1)),
            best_index == start + boundary_offset(end - start, cheapest_bucket(run, k - 1)),
            !improved <==> (forall|j: int| 0 <= j < k ==> #[trigger] bucket_cost(run, j)
                == bucket_cost(run, 0)),
        decreases BUCKET_COUNT - k,
    {
        let (cost, index) = costs[k];
        if cost != first_cost {
            improved = true;
            assert(bucket_cost(run, k as int) != bucket_cost(run, 0));
        }
        if cost < best_cost {
            best_cost = cost;
            best_index = index;
        }
        k += 1;
    }
    proof {
        lemma_short_run_costs(run);
    }
    if !improved || best_index <= start || best_index >= end {
        best_index = (end - start) / 2 + start;
    }
    best_index
}

/// Searches for a cut of `primitives[start..end]` from the middle outwards:
/// down from the midpoint while the cost falls, then up from above the
/// midpoint while it falls further. Returns the index at which to cut.
pub fn sah_middle_out(primitives: &Vec<TriangleCPU>, start: usize, end: usize) -> (r: usize)
    requires
        start <= end <= primitives@.len(),
        end - start <= MAX_PRIMITIVES,
    ensures
        r == start + middle_out_point(range(primitives@, start, end)),
        end - start >= 2 ==> start < r < end,
        end - start < 2 ==> r == start,
{
    let ghost run = range(primitives@, start, end);
    let span = end - start;
    let split = span / 2;
    if split == 0 {
        return start;
    }
    let mut best_cost = cut_cost(primitives, start, end, start + split);
    let mut best_index = split;
    let mut i = split - 1;
    proof {
        lemma_descent_range(run, split - 1, split as int);
    }
    while i > 0
        invariant_except_break
            0 <= i < best_index <= split,
            descent(run, i as int, best_index as int) == descent(run, split - 1, split as int),
        invariant
            start <= end <= primitives@.len(),
            span == end - start,
            span <= MAX_PRIMITIVES,
            split == span / 2,
            split >= 1,
            run == range(primitives@, start, end),
            1 <= best_index <= split,
            best_cost == boundary_cost(run, best_index as int),
        ensures
            best_index == descent(run, split - 1, split as int),
        decreases i,
    {
        let cost = cut_cost(primitives, start, end, start + i);
        if cost < best_cost {
            best_cost = cost;
            best_index = i;
        } else {
            break ;
        }
        i -= 1;
    }
    let ghost low = best_index as int;
    let mut i = split + 1;
    proof {
        lemma_ascent_range(run, split + 1, low);
    }
    while i < span
        invariant_except_break
            split < i <= span,
            ascent(run, i as int, best_index as int) == ascent(run, split + 1, low),
        invariant
            start <= end <= primitives@.len(),
            span == end - start,
            span <= MAX_PRIMITIVES,
            run == range(primitives@, start, end),
            run.len() == span,
            1 <= best_index < span,
            best_cost == boundary_cost(run, best_index as int),
        ensures
            best_index == ascent(run, split + 1, low),
        decreases span - i,
    {
        let cost = cut_cost(primitives, start, end, start + i);
        if cost < best_cost {
            best_cost = cost;
            best_index = i;
        } else {
            break ;
        }
        i += 1;
    }
    start + best_index
}

/// Orders `primitives[start..end]` along its best axis and returns the index
/// at which the ordered range is cut in two.
pub fn best_divide(primitives: &mut Vec<TriangleCPU>, start: usize, end: usize) -> (r: usize)
    requires
        start < end <= old(primitives)@.len(),
        end - start <= MAX_PRIMITIVES,
    ensures
        ({
            let run = range(old(primitives)@, start, end);
            let axis = best_axis(run);
            &&& is_sorted_in_place(final(primitives)@, old(primitives)@, start, end, axis)
            &&& r == start + split_point(sorted_by_min(run, axis))
        }),
        final(primitives)@.to_multiset() == old(primitives)@.to_multiset(),
        forall|i: int, j: int|
            start <= i <= j < end ==> min_key(
                final(primitives)@[i],
                best_axis(range(old(primitives)@, start, end)),
            ) <= min_key(final(primitives)@[j], best_axis(range(old(primitives)@, start, end))),
        start <= r < end,
        end - start >= 2 ==> start < r,
{
    let best_axis = select_axis(primitives, start, end);
    par_sort_by_min(primitives, start, end, best_axis);
    proof {
        let run = range(old(primitives)@, start, end);
        let keys = min_keys(run, best_axis);
        let order = choose|order: Seq<int>|
            is_sorted_by(primitives@, old(primitives)@, start, end, best_axis, order);
        lemma_stable_order_unique(keys, order, stable_order(keys));
        assert(range(primitives@, start, end) =~= sorted_by_min(run, best_axis));
        assert forall|i: int, j: int| start <= i <= j < end implies min_key(primitives@[i], best_axis)
            <= min_key(primitives@[j], best_axis) by {
            reveal(is_stable_order);
            assert(primitives@[i] == run[order[i - start]]);
            assert(primitives@[j] == run[order[j - start]]);
            assert(keys[order[i - start]] == min_key(run[order[i - start]], best_axis));
            assert(keys[order[j - start]] == min_key(run[order[j - start]], best_axis));
        }
        assert(is_reordering(order) && order.len() == run.len()) by {
            reveal(is_stable_order);
        }
        lemma_splice_multiset(old(primitives)@, start as int, end as int, order);
    }
    sah_split(primitives, start, end)
}

} // verus!
