//! Per-day counters kept in a Fenwick tree of the `segment_tree` crate.
//!
//! The tree itself is not verified here. Its contents are named by
//! [`counters`], and each call into it goes through one function of this
//! module whose contract is taken on trust from the crate's source.

use segment_tree::ops::Add;
use segment_tree::PrefixPoint;
use vstd::prelude::*;

verus! {

/// A `PrefixPoint<i32, Add>`: signed counters with point update and
/// inclusive prefix sums in logarithmic time.
#[verifier::external_body]
pub struct DayCounts {
    tree: PrefixPoint<i32, Add>,
}

/// The counters that a tree holds, by position.
pub uninterp spec fn counters(tree: DayCounts) -> Seq<i32>;

/// The sum of the first `n` entries of `c`.
pub open spec fn sum_first(c: Seq<i32>, n: int) -> int
    decreases n,
{
    if n <= 0 {
        0
    } else {
        sum_first(c, n - 1) + c[n - 1]
    }
}

/// No counter is negative and all of them together fit in an `i32`. Every
/// node of the tree holds the sum of a run of neighbouring counters, so under
/// this bound no addition inside the tree overflows.
pub open spec fn bounded(c: Seq<i32>) -> bool {
    &&& forall|i: int| 0 <= i < c.len() ==> 0 <= #[trigger] c[i]
    &&& sum_first(c, c.len() as int) <= i32::MAX
}

/// `PrefixPoint::build` with the operator `Add`: a tree over the given
/// values, in their order.
#[verifier::external_body]
pub(crate) fn tree_build(values: Vec<i32>) -> (tree: DayCounts)
    requires
        bounded(values@),
    ensures
        counters(tree) == values@,
{
    DayCounts { tree: PrefixPoint::build(values, Add) }
}

/// `PrefixPoint::len`: the number of counters.
#[verifier::external_body]
pub(crate) fn tree_len(tree: &DayCounts) -> (n: usize)
    ensures
        n == counters(*tree).len(),
{
    tree.tree.len()
}

/// `PrefixPoint::query`: the sum of the counters at positions `0..=i`. The
/// call indexes its buffer at `i`, so `i` has to be a position of the tree.
#[verifier::external_body]
pub(crate) fn tree_query(tree: &DayCounts, i: usize) -> (sum: i32)
    requires
        i < counters(*tree).len(),
        bounded(counters(*tree)),
    ensures
        sum == sum_first(counters(*tree), i + 1),
{
    tree.tree.query(i)
}

/// `PrefixPoint::modify`: adds `delta` to the counter at position `i` and
/// leaves the others as they were.
#[verifier::external_body]
pub(crate) fn tree_modify(tree: &mut DayCounts, i: usize, delta: i32)
    requires
        i < counters(*old(tree)).len(),
        0 <= counters(*old(tree))[i as int] + delta <= i32::MAX,
        bounded(
            counters(*old(tree)).update(i as int, (counters(*old(tree))[i as int] + delta) as i32),
        ),
    ensures
        counters(*final(tree)) == counters(*old(tree)).update(
            i as int,
            (counters(*old(tree))[i as int] + delta) as i32,
        ),
{
    tree.tree.modify(i, delta)
}

/// `Extend::extend` of `PrefixPoint`: appends the given values behind the
/// counters already there, which keep their positions and values.
#[verifier::external_body]
pub(crate) fn tree_extend(tree: &mut DayCounts, values: Vec<i32>)
    requires
        bounded(counters(*old(tree)) + values@),
    ensures
        counters(*final(tree)) == counters(*old(tree)) + values@,
{
    tree.tree.extend(values)
}

/// `Clone::clone` of `PrefixPoint`: a tree with the same counters.
#[verifier::external_body]
pub(crate) fn tree_clone(tree: &DayCounts) -> (copy: DayCounts)
    ensures
        counters(copy) == counters(*tree),
{
    DayCounts { tree: tree.tree.clone() }
}

} // verus!
