//! Which two clusters are merged next.

use crate::mathfuncs::{distance, l2, lemma_distance_nonnegative};
use crate::matrix::rows_view;
use vstd::prelude::*;

verus! {

/// The distance between the means at `a` and `b`.
pub open spec fn gap_at(means: Seq<Seq<i32>>, a: int, b: int) -> int {
    distance(means[a], means[b])
}

/// Whether the pair `(a, b)` comes before `(i, j)` when all pairs are read
/// row by row.
pub open spec fn before(a: int, b: int, i: int, j: int) -> bool {
    a < i || (a == i && b < j)
}

/// Whether `(i, j)` is the pair of clusters to merge next, given the mean
/// of each cluster: no two means are nearer, and every pair read before it
/// has means farther apart.
pub open spec fn is_closest_pair(means: Seq<Seq<i32>>, i: int, j: int) -> bool {
    &&& 0 <= i < j < means.len()
    &&& forall|a: int, b: int|
        0 <= a < b < means.len() ==> gap_at(means, i, j) <= #[trigger] gap_at(means, a, b)
    &&& forall|a: int, b: int|
        0 <= a < b < means.len() && before(a, b, i, j) ==> gap_at(means, i, j) < #[trigger] gap_at(
            means,
            a,
            b,
        )
}

/// The pair of clusters to merge next.
pub open spec fn closest_pair(means: Seq<Seq<i32>>) -> (int, int) {
    choose|p: (int, int)| is_closest_pair(means, p.0, p.1)
}

/// Among at least two clusters there is a pair to merge next.
pub proof fn lemma_closest_exists(means: Seq<Seq<i32>>, a: int, b: int)
    requires
        0 <= a < b < means.len(),
    ensures
        exists|p: (int, int)| is_closest_pair(means, p.0, p.1),
        is_closest_pair(means, closest_pair(means).0, closest_pair(means).1),
    decreases gap_at(means, a, b), a, b,
{
    lemma_distance_nonnegative(means[a], means[b]);
    if is_closest_pair(means, a, b) {
        assert(is_closest_pair(means, (a, b).0, (a, b).1));
    } else {
        if exists|c: int, d: int|
            0 <= c < d < means.len() && gap_at(means, a, b) > #[trigger] gap_at(means, c, d) {
            let (c, d) = choose|c: int, d: int|
                0 <= c < d < means.len() && gap_at(means, a, b) > #[trigger] gap_at(means, c, d);
            lemma_distance_nonnegative(means[c], means[d]);
            lemma_closest_exists(means, c, d);
        } else {
            let (c, d) = choose|c: int, d: int|
                0 <= c < d < means.len() && before(c, d, a, b) && gap_at(means, a, b)
                    >= #[trigger] gap_at(means, c, d);
            lemma_distance_nonnegative(means[c], means[d]);
            lemma_closest_exists(means, c, d);
        }
    }
}

/// There is only one pair to merge next.
pub proof fn lemma_closest_unique(means: Seq<Seq<i32>>, i: int, j: int, a: int, b: int)
    requires
        is_closest_pair(means, i, j),
        is_closest_pair(means, a, b),
    ensures
        i == a,
        j == b,
{
    if before(a, b, i, j) {
        assert(gap_at(means, i, j) < gap_at(means, a, b));
        assert(gap_at(means, a, b) <= gap_at(means, i, j));
    }
    if before(i, j, a, b) {
        assert(gap_at(means, a, b) < gap_at(means, i, j));
        assert(gap_at(means, i, j) <= gap_at(means, a, b));
    }
}

/// A pair found to be the next to merge is the one that [`closest_pair`]
/// names.
pub proof fn lemma_closest_found(means: Seq<Seq<i32>>, i: int, j: int)
    requires
        is_closest_pair(means, i, j),
    ensures
        closest_pair(means) == (i, j),
{
    assert(is_closest_pair(means, (i, j).0, (i, j).1));
    let p = closest_pair(means);
    lemma_closest_unique(means, i, j, p.0, p.1);
}

/// Whether `(bi, bj)` is the pair to merge among the pairs read before
/// `(i, j)`, and `min` the distance between its means.
pub open spec fn best_so_far(
    means: Seq<Seq<i32>>,
    bi: int,
    bj: int,
    min: int,
    i: int,
    j: int,
) -> bool {
    &&& 0 <= bi < bj < means.len()
    &&& before(bi, bj, i, j)
    &&& min == gap_at(means, bi, bj)
    &&& forall|a: int, b: int|
        0 <= a < b < means.len() && before(a, b, i, j) ==> min <= #[trigger] gap_at(means, a, b)
    &&& forall|a: int, b: int|
        0 <= a < b < means.len() && before(a, b, bi, bj) ==> min < #[trigger] gap_at(means, a, b)
}

/// The pair of clusters to merge next, given the mean of each cluster.
pub(crate) fn nearest_pair(means: &Vec<Vec<i32>>) -> (pair: (usize, usize))
    requires
        means@.len() >= 2,
        forall|k: int| 0 <= k < means@.len() ==> (#[trigger] means@[k])@.len() == means@[0]@.len(),
    ensures
        is_closest_pair(rows_view(means@), pair.0 as int, pair.1 as int),
{
    let n: usize = means.len();
    let ghost rows = rows_view(means@);
    let mut found: bool = false;
    let mut min: u64 = 0;
    let mut min_idx: (usize, usize) = (0, 0);
    let mut i: usize = 0;
    while i < n - 1
        invariant
            n == means@.len(),
            n >= 2,
            rows == rows_view(means@),
            forall|k: int| 0 <= k < n ==> (#[trigger] means@[k])@.len() == means@[0]@.len(),
            i <= n - 1,
            found <==> i > 0,
            found ==> best_so_far(
                rows,
                min_idx.0 as int,
                min_idx.1 as int,
                min as int,
                i as int,
                i + 1,
            ),
        decreases n - i,
    {
        let mut j: usize = i + 1;
        while j < n
            invariant
                n == means@.len(),
                n >= 2,
                rows == rows_view(means@),
                forall|k: int| 0 <= k < n ==> (#[trigger] means@[k])@.len() == means@[0]@.len(),
                i < n - 1,
                i + 1 <= j <= n,
                found <==> i > 0 || j > i + 1,
                found ==> best_so_far(
                    rows,
                    min_idx.0 as int,
                    min_idx.1 as int,
                    min as int,
                    i as int,
                    j as int,
                ),
            decreases n - j,
        {
            let distance: u64 = l2(&means[i], &means[j], false);
            assert(distance == gap_at(rows, i as int, j as int));
            if !found || distance < min {
                min_idx = (i, j);
                min = distance;
                found = true;
            }
            j += 1;
        }
        i += 1;
    }
    min_idx
}

} // verus!
