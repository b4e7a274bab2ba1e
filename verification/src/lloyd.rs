//! The k-means engine.

use crate::convert::{to_i32, to_usize};
use crate::error::ClusterError;
use crate::lloyd_model::{
    as_ints, assignments, fitted, fixed_runs, initial_centroids, largest_count,
    lemma_first_over, lemma_nearest_range, lemma_seeding_rows, lloyd, member_values,
    membership, nearest, plus_seeding, random_rows, rectangular, refusal, rounds_of, run,
    search, smallest_dist, tries_at, updated_centroids, weight, weights, width, zero_labels,
    Best, Settings,
};
use crate::mathfuncs::{
    cumsum, distance, floor_div, l2, labels_within, lemma_mean_fits, lemma_total_bounds,
    lemma_total_push, silhouette, silhouette_score, total, INFINITE, ONE,
};
use crate::matrix::{
    lemma_shape_fits_fewer, matrix_cols, matrix_rows, shape_check, shape_fits, zero_matrix,
    zero_rows, Matrix,
};
use crate::random::{draw_below, fresh_seed, seeded_draw, stream_seed};
use vstd::prelude::*;

verus! {

/// A k-means engine: Lloyd's iteration from seeded centroids, restarted
/// several times, the best-scoring run kept.
pub struct Kmeans {
    /// The number of clusters, or `0` to search for it.
    pub centers: i32,
    /// When searching, cluster counts from `2` up to but not including this
    /// one are tried.
    pub max_centers: i32,
    /// When searching, a score above this one ends the search.
    pub accept: i32,
    /// The centroids of the kept run, one per row.
    pub centroids: Matrix,
    /// The label of each point in the kept run.
    pub partition: Vec<i32>,
    /// `"kmeans++"`, or anything else for uniformly drawn rows.
    pub initializer: &'static str,
    /// The most rounds of Lloyd's iteration in one run.
    pub max_iter: i32,
    /// The number of runs at each cluster count.
    pub retries: i32,
    /// The seed of every fit, or `None` to draw a fresh one each time.
    pub seed: Option<u64>,
}

/// The default of [`Kmeans::accept`]: seven tenths of [`ONE`], rounded down.
pub const DEFAULT_ACCEPT: i32 = 45875;

/// How an engine and its result stand after a fit of `data` with `seed`.
///
/// A refused input leaves the engine as it was. Otherwise the engine holds
/// the centroids and labels of [`fitted`], its settings are unchanged, and
/// the labels are returned: one per point, each below the cluster count.
/// When the count was searched, each is below the number of centroids
/// found, and `0` if no run was made.
pub open spec fn fit_outcome(
    before: Kmeans,
    data: Matrix,
    seed: u64,
    after: Kmeans,
    r: Result<Vec<i32>, ClusterError>,
) -> bool {
    match refusal(data@, matrix_cols(data), before.settings()) {
        Some(e) => r == Err::<Vec<i32>, ClusterError>(e) && after == before,
        None => {
            let best = fitted(data@, before.settings(), seed);
            &&& r is Ok
            &&& r->Ok_0@ == best.labels
            &&& after.partition@ == best.labels
            &&& after.centroids@ == best.centroids
            &&& matrix_cols(after.centroids) == matrix_cols(data)
            &&& after.settings() == before.settings()
            &&& after.seed == before.seed
            &&& labels_within(
                best.labels,
                data@.len(),
                if best.centroids.len() > 0 {
                    best.centroids.len()
                } else {
                    1
                },
            )
            &&& before.centers > 0 ==> best.centroids.len() == before.centers
        },
    }
}

/// The best run so far as a fit holds it: its score, its centroids and its
/// labels.
spec fn kept(minimum: Option<i32>, centroids: Matrix, labels: Vec<i32>) -> Best {
    Best {
        score: match minimum {
            Some(score) => Some(score as int),
            None => None,
        },
        centroids: centroids@,
        labels: labels@,
    }
}

/// A vector of `n` zeros.
fn zero_vec(n: usize) -> (v: Vec<i32>)
    ensures
        v@ == zero_labels(n as nat),
{
    let mut v: Vec<i32> = Vec::new();
    let mut i: usize = 0;
    while i < n
        invariant
            i <= n,
            v@.len() == i,
            forall|k: int| 0 <= k < i ==> v@[k] == 0,
        decreases n - i,
    {
        v.push(0);
        i += 1;
    }
    assert(v@ =~= zero_labels(n as nat));
    v
}

/// The number of points labelled `k`, and the sum of their coordinate `c`.
fn member_sum(data: &Matrix, labels: &Vec<i32>, k: i32, c: usize) -> (r: (i128, usize))
    requires
        labels@.len() == data@.len(),
        c < matrix_cols(*data),
    ensures
        r.0 == total(member_values(data@, labels@, k as int, c as int)),
        r.1 == total(membership(labels@, k as int)),
        r.1 * i32::MIN <= r.0 <= r.1 * i32::MAX,
{
    let n: usize = labels.len();
    let ghost values = member_values(data@, labels@, k as int, c as int);
    let ghost marks = membership(labels@, k as int);
    let mut sum: i128 = 0;
    let mut counter: usize = 0;
    let mut j: usize = 0;
    while j < n
        invariant
            n == labels@.len(),
            n == data@.len(),
            c < matrix_cols(*data),
            values == member_values(data@, labels@, k as int, c as int),
            marks == membership(labels@, k as int),
            j <= n,
            counter <= j,
            sum == total(values.take(j as int)),
            counter == total(marks.take(j as int)),
            counter * i32::MIN <= sum <= counter * i32::MAX,
        decreases n - j,
    {
        proof {
            assert(values.take(j + 1) =~= values.take(j as int).push(values[j as int]));
            assert(marks.take(j + 1) =~= marks.take(j as int).push(marks[j as int]));
            lemma_total_push(values.take(j as int), values[j as int]);
            lemma_total_push(marks.take(j as int), marks[j as int]);
            assert((counter + 1) * i32::MIN == counter * i32::MIN + i32::MIN) by (nonlinear_arith);
            assert((counter + 1) * i32::MAX == counter * i32::MAX + i32::MAX) by (nonlinear_arith);
            assert(counter * i32::MAX <= usize::MAX * i32::MAX) by (nonlinear_arith)
                requires
                    counter <= usize::MAX,
            ;
            assert(counter * i32::MIN >= usize::MAX * i32::MIN) by (nonlinear_arith)
                requires
                    counter <= usize::MAX,
            ;
        }
        if labels[j] == k {
            sum = sum + data.get(j, c) as i128;
            counter += 1;
        }
        j += 1;
    }
    proof {
        assert(values.take(n as int) =~= values);
        assert(marks.take(n as int) =~= marks);
    }
    (sum, counter)
}

/// Copies row `row2` of `arr2` into row `row` of `arr1`.
fn replace_values(arr1: &mut Matrix, arr2: &Matrix, row: usize, row2: usize)
    requires
        row < old(arr1)@.len(),
        row2 < arr2@.len(),
        matrix_cols(*old(arr1)) == matrix_cols(*arr2),
    ensures
        final(arr1)@ == old(arr1)@.update(row as int, arr2@[row2 as int]),
        matrix_cols(*final(arr1)) == matrix_cols(*old(arr1)),
        matrix_rows(*final(arr1)) == matrix_rows(*old(arr1)),
{
    let cols: usize = arr1.ncols();
    let mut i: usize = 0;
    while i < cols
        invariant
            row < old(arr1)@.len(),
            row2 < arr2@.len(),
            cols == matrix_cols(*arr1),
            cols == matrix_cols(*arr2),
            matrix_rows(*arr1) == matrix_rows(*old(arr1)),
            matrix_cols(*arr1) == matrix_cols(*old(arr1)),
            i <= cols,
            forall|a: int|
                0 <= a < arr1@.len() && a != row ==> #[trigger] arr1@[a] == old(arr1)@[a],
            forall|b: int|
                0 <= b < i ==> #[trigger] arr1@[row as int][b] == arr2@[row2 as int][b],
        decreases cols - i,
    {
        arr1.set(row, i, arr2.get(row2, i));
        i += 1;
    }
    assert(arr1@ =~~= old(arr1)@.update(row as int, arr2@[row2 as int]));
}

/// Whether `vector` holds `value`.
fn is_in_vec(vector: &Vec<usize>, value: &usize) -> (found: bool)
    ensures
        found == vector@.contains(*value),
{
    let mut i: usize = 0;
    while i < vector.len()
        invariant
            i <= vector@.len(),
            forall|k: int| 0 <= k < i ==> vector@[k] != *value,
        decreases vector@.len() - i,
    {
        if vector[i] == *value {
            return true;
        }
        i += 1;
    }
    false
}

/// Whether another round is due: there was none yet, or some cell of
/// `current` differs from that of `last`.
fn check_if_finished(current: &Matrix, last: &Option<Matrix>) -> (moved: bool)
    requires
        *last matches Some(held) ==> matrix_cols(*current) == matrix_cols(held),
    ensures
        moved == !(*last matches Some(held) && held@ == current@),
{
    match last {
        Some(held) => !current.same_as(held),
        None => true,
    }
}

/// The least distance from `point` to one of the rows of `data` listed in
/// `chosen`.
fn get_smallest_dist(point: &Vec<i32>, data: &Matrix, chosen: &Vec<usize>) -> (minimum: u64)
    requires
        point@.len() == matrix_cols(*data),
        forall|i: int| 0 <= i < chosen@.len() ==> #[trigger] chosen@[i] < data@.len(),
    ensures
        minimum == smallest_dist(point@, data@, as_ints(chosen@), chosen@.len() as int),
        chosen@.len() > 0 ==> minimum < INFINITE,
{
    let mut minimum: u64 = INFINITE;
    let mut i: usize = 0;
    while i < chosen.len()
        invariant
            point@.len() == matrix_cols(*data),
            forall|a: int| 0 <= a < chosen@.len() ==> #[trigger] chosen@[a] < data@.len(),
            i <= chosen@.len(),
            minimum == smallest_dist(point@, data@, as_ints(chosen@), i as int),
            i > 0 ==> minimum < INFINITE,
        decreases chosen@.len() - i,
    {
        let dist: u64 = l2(point, &data.row(chosen[i]), false);
        if dist < minimum {
            minimum = dist;
        }
        i += 1;
    }
    minimum
}

/// The first position at which `cumulated` exceeds `threshold`, or its
/// length.
fn first_above(cumulated: &Vec<u64>, threshold: u64) -> (at: usize)
    ensures
        at <= cumulated@.len(),
        at < cumulated@.len() ==> threshold < cumulated@[at as int],
        forall|i: int| 0 <= i < at ==> threshold >= cumulated@[i],
{
    let mut j: usize = 0;
    while j < cumulated.len()
        invariant
            j <= cumulated@.len(),
            forall|i: int| 0 <= i < j ==> threshold >= cumulated@[i],
        decreases cumulated@.len() - j,
    {
        if threshold < cumulated[j] {
            return j;
        }
        j += 1;
    }
    j
}

/// The weight of every row of `data`, given the rows chosen already.
fn point_weights(data: &Matrix, chosen: &Vec<usize>) -> (probs: Vec<u64>)
    requires
        data@.len() > 0,
        chosen@.len() > 0,
        forall|i: int| 0 <= i < chosen@.len() ==> #[trigger] chosen@[i] < data@.len(),
    ensures
        probs@.map_values(|v: u64| v as int) == weights(data@, as_ints(chosen@)),
        total(probs@.map_values(|v: u64| v as int)) <= u64::MAX,
{
    let n: usize = data.nrows();
    let ghost listed = as_ints(chosen@);
    let mut probs: Vec<u64> = Vec::new();
    let mut j: usize = 0;
    while j < n
        invariant
            n == data@.len(),
            n > 0,
            chosen@.len() > 0,
            listed == as_ints(chosen@),
            forall|i: int| 0 <= i < chosen@.len() ==> #[trigger] chosen@[i] < data@.len(),
            j <= n,
            probs@.len() == j,
            forall|a: int| 0 <= a < j ==> #[trigger] probs@[a] == weight(data@, listed, a),
            forall|a: int| 0 <= a < j ==> 0 <= #[trigger] probs@[a] <= u64::MAX / (n as u64),
        decreases n - j,
    {
        proof {
            assert(listed.contains(j as int) <==> chosen@.contains(j)) by {
                if chosen@.contains(j) {
                    let at = choose|at: int| 0 <= at < chosen@.len() && chosen@[at] == j;
                    assert(listed[at] == j as int);
                }
                if listed.contains(j as int) {
                    let at = choose|at: int| 0 <= at < listed.len() && listed[at] == j as int;
                    assert(chosen@[at] == j);
                }
            }
        }
        if is_in_vec(chosen, &j) {
            probs.push(0);
        } else {
            let gap: u64 = get_smallest_dist(&data.row(j), data, chosen);
            assert(gap as int / n as int <= u64::MAX as int / n as int) by (nonlinear_arith)
                requires
                    0 <= gap <= u64::MAX,
                    n > 0,
            ;
            probs.push(gap / (n as u64));
        }
        j += 1;
    }
    proof {
        let items = probs@.map_values(|v: u64| v as int);
        assert(items =~= weights(data@, listed));
        let cap: int = u64::MAX as int / n as int;
        lemma_total_bounds(items, 0, cap);
        assert(n * cap <= u64::MAX) by (nonlinear_arith)
            requires
                n > 0,
                cap == u64::MAX as int / n as int,
        ;
    }
    probs
}

/// Fills `centroids` with rows of `data` drawn uniformly.
fn random_choice(data: &Matrix, centroids: &mut Matrix, start: u64)
    requires
        data@.len() > 0,
        matrix_cols(*old(centroids)) == matrix_cols(*data),
    ensures
        final(centroids)@ == random_rows(data@, old(centroids)@.len(), start),
        matrix_cols(*final(centroids)) == matrix_cols(*data),
{
    let n: usize = data.nrows();
    let k: usize = centroids.nrows();
    let mut random_vec: Vec<usize> = Vec::new();
    let mut i: usize = 0;
    while i < k
        invariant
            n == data@.len(),
            n > 0,
            i <= k,
            random_vec@.len() == i,
            forall|a: int|
                0 <= a < i ==> #[trigger] random_vec@[a] == seeded_draw(
                    stream_seed(start, a),
                    n as u64,
                ) && random_vec@[a] < n,
        decreases k - i,
    {
        let drawn: u64 = draw_below(start.wrapping_add(i as u64), n as u64);
        random_vec.push(drawn as usize);
        i += 1;
    }
    let mut i: usize = 0;
    while i < k
        invariant
            n == data@.len(),
            k == centroids@.len(),
            k == old(centroids)@.len(),
            matrix_cols(*centroids) == matrix_cols(*data),
            i <= k,
            random_vec@.len() == k,
            forall|a: int|
                0 <= a < k ==> #[trigger] random_vec@[a] == seeded_draw(
                    stream_seed(start, a),
                    n as u64,
                ) && random_vec@[a] < n,
            forall|a: int|
                0 <= a < i ==> #[trigger] centroids@[a] == data@[random_vec@[a] as int],
        decreases k - i,
    {
        replace_values(centroids, data, i, random_vec[i]);
        i += 1;
    }
    assert(centroids@ =~= random_rows(data@, k as nat, start));
}

/// Fills the zero matrix `centroids` by weighted seeding.
fn kmeanspp(data: &Matrix, centroids: &mut Matrix, start: u64)
    requires
        data@.len() > 0,
        old(centroids)@.len() > 0,
        matrix_cols(*old(centroids)) == matrix_cols(*data),
        old(centroids)@ == zero_rows(old(centroids)@.len(), matrix_cols(*data)),
    ensures
        final(centroids)@ == plus_seeding(data@, start, old(centroids)@.len() - 1).rows,
        matrix_cols(*final(centroids)) == matrix_cols(*data),
        matrix_rows(*final(centroids)) == matrix_rows(*old(centroids)),
{
    let n: usize = data.nrows();
    let k: usize = centroids.nrows();
    let ghost cols = matrix_cols(*data);
    let first: u64 = draw_below(start.wrapping_add(0), n as u64);
    let mut points: Vec<usize> = Vec::new();
    points.push(first as usize);
    replace_values(centroids, data, 0, points[0]);
    proof {
        assert(as_ints(points@) =~= seq![first as int]);
        assert(centroids@.take(1) =~= seq![data@[first as int]]);
        assert(width(data@) == cols);
    }
    let mut i: usize = 1;
    while i < k
        invariant
            n == data@.len(),
            n > 0,
            k == centroids@.len(),
            k == old(centroids)@.len(),
            cols == matrix_cols(*data),
            cols == width(data@),
            matrix_cols(*centroids) == cols,
            matrix_rows(*centroids) == matrix_rows(*old(centroids)),
            1 <= i <= k,
            points@.len() > 0,
            forall|a: int| 0 <= a < points@.len() ==> #[trigger] points@[a] < n,
            as_ints(points@) == plus_seeding(data@, start, i - 1).chosen,
            centroids@.take(i as int) == plus_seeding(data@, start, i - 1).rows,
            forall|a: int|
                i <= a < k ==> #[trigger] centroids@[a] == Seq::new(cols, |c: int| 0i32),
        decreases k - i,
    {
        let ghost prev = plus_seeding(data@, start, i - 1);
        let mut probs = point_weights(data, &points);
        let ghost ws = probs@.map_values(|v: u64| v as int);
        cumsum(&mut probs);
        let random_num: u64 = draw_below(start.wrapping_add(i as u64), ONE as u64);
        let j: usize = first_above(&probs, random_num);
        proof {
            assert forall|a: int| 0 <= a < j implies random_num >= total(
                #[trigger] ws.take(a + 1),
            ) by {
                assert(probs@[a] == total(ws.take(a + 1)));
            }
            if j < n {
                assert(probs@[j as int] == total(ws.take(j + 1)));
            }
            lemma_first_over(ws, random_num as int, 0, j as int);
        }
        let ghost before = centroids@;
        if j < n {
            points.push(j);
            replace_values(centroids, data, i, j);
            proof {
                assert(as_ints(points@) =~= prev.chosen.push(j as int));
                assert(centroids@.take(i + 1) =~= before.take(i as int).push(data@[j as int]));
            }
        } else {
            proof {
                assert(centroids@.take(i + 1) =~= before.take(i as int).push(
                    Seq::new(cols, |c: int| 0i32),
                ));
            }
        }
        i += 1;
    }
    assert(centroids@.take(k as int) =~= centroids@);
}

impl Kmeans {
    /// The settings of this engine.
    pub open spec fn settings(self) -> Settings {
        Settings {
            centers: self.centers as int,
            max_centers: self.max_centers as int,
            accept: self.accept as int,
            plus_plus: self.initializer@ == "kmeans++"@,
            max_iter: self.max_iter as int,
            retries: self.retries as int,
        }
    }

    /// Labels every point by its nearest centroid.
    fn update_partitions(&mut self, data: &Matrix)
        requires
            old(self).partition@.len() == data@.len(),
            matrix_cols(old(self).centroids) == matrix_cols(*data),
            old(self).centroids@.len() <= i32::MAX,
        ensures
            final(self).partition@ == assignments(data@, old(self).centroids@),
            final(self).centroids == old(self).centroids,
            final(self).settings() == old(self).settings(),
            final(self).seed == old(self).seed,
    {
        let n: usize = data.nrows();
        let k: usize = self.centroids.nrows();
        let mut i: usize = 0;
        while i < n
            invariant
                n == data@.len(),
                k == self.centroids@.len(),
                k <= i32::MAX,
                self.partition@.len() == n,
                matrix_cols(self.centroids) == matrix_cols(*data),
                self.centroids == old(self).centroids,
                self.settings() == old(self).settings(),
                self.seed == old(self).seed,
                i <= n,
                forall|a: int|
                    0 <= a < i ==> #[trigger] self.partition@[a] == nearest(
                        data@[a],
                        self.centroids@,
                        k as int,
                    ),
            decreases n - i,
        {
            let point = data.row(i);
            let mut min: u64 = INFINITE;
            let mut best_centroid: usize = 0;
            let mut j: usize = 0;
            while j < k
                invariant
                    k == self.centroids@.len(),
                    matrix_cols(self.centroids) == matrix_cols(*data),
                    i < data@.len(),
                    point@ == data@[i as int],
                    j <= k,
                    best_centroid == nearest(point@, self.centroids@, j as int),
                    j == 0 ==> min == INFINITE,
                    j > 0 ==> min == distance(point@, self.centroids@[best_centroid as int]),
                    j > 0 ==> best_centroid < j,
                    j == 0 ==> best_centroid == 0,
                decreases k - j,
            {
                let dist: u64 = l2(&point, &self.centroids.row(j), false);
                if dist <= min {
                    min = dist;
                    best_centroid = j;
                }
                j += 1;
            }
            let label: i32 = match to_i32(best_centroid) {
                Some(l) => l,
                None => 0,
            };
            self.partition.set(i, label);
            i += 1;
        }
        assert(self.partition@ =~= assignments(data@, self.centroids@));
    }

    /// Moves every centroid that has points to their mean.
    fn update_centroids(&mut self, data: &Matrix)
        requires
            old(self).partition@.len() == data@.len(),
            matrix_cols(old(self).centroids) == matrix_cols(*data),
            old(self).centroids@.len() <= i32::MAX,
        ensures
            final(self).centroids@ == updated_centroids(
                data@,
                old(self).partition@,
                old(self).centroids@,
            ),
            matrix_cols(final(self).centroids) == matrix_cols(old(self).centroids),
            final(self).partition == old(self).partition,
            final(self).settings() == old(self).settings(),
            final(self).seed == old(self).seed,
    {
        let k: usize = self.centroids.nrows();
        let cols: usize = self.centroids.ncols();
        let ghost before = self.centroids@;
        let ghost after = updated_centroids(data@, self.partition@, before);
        let mut i: usize = 0;
        while i < k
            invariant
                k == before.len(),
                k <= i32::MAX,
                k == matrix_rows(self.centroids),
                cols == matrix_cols(self.centroids),
                cols == matrix_cols(*data),
                before == old(self).centroids@,
                rectangular(before, cols as nat),
                after == updated_centroids(data@, self.partition@, before),
                self.partition == old(self).partition,
                self.partition@.len() == data@.len(),
                self.settings() == old(self).settings(),
                self.seed == old(self).seed,
                i <= k,
                forall|a: int| 0 <= a < i ==> #[trigger] self.centroids@[a] == after[a],
                forall|a: int| i <= a < k ==> #[trigger] self.centroids@[a] == before[a],
            decreases k - i,
        {
            let own: i32 = match to_i32(i) {
                Some(l) => l,
                None => 0,
            };
            let mut c: usize = 0;
            while c < cols
                invariant
                    k == before.len(),
                    k == matrix_rows(self.centroids),
                    cols == matrix_cols(self.centroids),
                    cols == matrix_cols(*data),
                    before == old(self).centroids@,
                    after == updated_centroids(data@, self.partition@, before),
                    self.partition == old(self).partition,
                    self.partition@.len() == data@.len(),
                    self.settings() == old(self).settings(),
                    self.seed == old(self).seed,
                    i < k,
                    own == i,
                    c <= cols,
                    before[i as int].len() == cols,
                    forall|a: int| 0 <= a < i ==> #[trigger] self.centroids@[a] == after[a],
                    forall|a: int| i < a < k ==> #[trigger] self.centroids@[a] == before[a],
                    forall|b: int|
                        0 <= b < c ==> #[trigger] self.centroids@[i as int][b]
                            == after[i as int][b],
                    forall|b: int|
                        c <= b < cols ==> #[trigger] self.centroids@[i as int][b]
                            == before[i as int][b],
                decreases cols - c,
            {
                let (sum, counter) = member_sum(data, &self.partition, own, c);
                if counter != 0 {
                    proof {
                        lemma_mean_fits(sum as int, counter as int);
                    }
                    let mean: i32 = floor_div(sum, counter) as i32;
                    self.centroids.set(i, c, mean);
                }
                c += 1;
            }
            assert(self.centroids@[i as int] =~= after[i as int]);
            i += 1;
        }
        assert(self.centroids@ =~= after);
    }

    /// An engine for `centers` clusters (`0` to search for the count) with
    /// `centers` zero centroids, every point labelled `0`, weighted seeding,
    /// at most 100 rounds per run, 10 runs, counts below 10 when searching,
    /// [`DEFAULT_ACCEPT`] as the score that ends a search, and no fixed seed.
    ///
    /// A negative `centers` is refused with `InvalidCenters`, centroids too
    /// large to allocate with `TooLarge`.
    pub fn new(data: &Matrix, centers: i32) -> (r: Result<Kmeans, ClusterError>)
        ensures
            r is Ok <==> centers >= 0 && shape_fits(centers as nat, matrix_cols(*data)),
            r matches Err(e) ==> e == (if centers < 0 {
                ClusterError::InvalidCenters
            } else {
                ClusterError::TooLarge
            }),
            r matches Ok(engine) ==> {
                &&& engine.settings() == (Settings {
                    centers: centers as int,
                    max_centers: 10,
                    accept: DEFAULT_ACCEPT as int,
                    plus_plus: true,
                    max_iter: 100,
                    retries: 10,
                })
                &&& engine.centroids@ == zero_rows(centers as nat, matrix_cols(*data))
                &&& engine.partition@ == zero_labels(data@.len())
                &&& engine.seed is None
            },
    {
        let rows: usize = match to_usize(centers) {
            Some(rows) => rows,
            None => {
                return Err(ClusterError::InvalidCenters);
            },
        };
        let cols: usize = data.ncols();
        if !shape_check(rows, cols) {
            return Err(ClusterError::TooLarge);
        }
        Ok(
            Kmeans {
                centers,
                max_centers: 10,
                accept: DEFAULT_ACCEPT,
                centroids: zero_matrix(rows, cols),
                partition: zero_vec(data.nrows()),
                initializer: "kmeans++",
                max_iter: 100,
                retries: 10,
                seed: None,
            },
        )
    }

    /// Sets the score above which the search for the cluster count ends.
    pub fn config_silhouette(&mut self, accepted_score: i32)
        ensures
            *final(self) == (Kmeans { accept: accepted_score, ..*old(self) }),
    {
        self.accept = accepted_score;
    }

    /// Sets the way initial centroids are found: `"kmeans++"` for weighted
    /// seeding, anything else for uniformly drawn rows.
    pub fn set_initializer(&mut self, initializer: &'static str)
        ensures
            *final(self) == (Kmeans { initializer, ..*old(self) }),
    {
        self.initializer = initializer;
    }

    /// Sets the most rounds per run and the number of runs.
    pub fn set_fitting_time(&mut self, max_iter: i32, retries: i32)
        ensures
            *final(self) == (Kmeans { max_iter, retries, ..*old(self) }),
    {
        self.retries = retries;
        self.max_iter = max_iter;
    }

    /// Sets the cluster count that a search stops short of.
    pub fn set_max_centers(&mut self, max_centers: i32)
        ensures
            *final(self) == (Kmeans { max_centers, ..*old(self) }),
    {
        self.max_centers = max_centers;
    }

    /// Fixes the seed of every later fit.
    pub fn set_seed(&mut self, seed: u64)
        ensures
            *final(self) == (Kmeans { seed: Some(seed), ..*old(self) }),
    {
        self.seed = Some(seed);
    }

    /// Replaces the centroids by `n_centers` initial ones.
    fn initialize(&mut self, data: &Matrix, n_centers: usize, start: u64)
        requires
            data@.len() > 0,
            n_centers > 0,
            shape_fits(n_centers as nat, matrix_cols(*data)),
        ensures
            final(self).centroids@ == initial_centroids(
                data@,
                n_centers as nat,
                old(self).settings().plus_plus,
                start,
            ),
            matrix_cols(final(self).centroids) == matrix_cols(*data),
            final(self).partition == old(self).partition,
            final(self).settings() == old(self).settings(),
            final(self).seed == old(self).seed,
    {
        self.centroids = zero_matrix(n_centers, data.ncols());
        if self.initializer.to_owned() == "kmeans++".to_owned() {
            kmeanspp(data, &mut self.centroids, start);
        } else {
            random_choice(data, &mut self.centroids, start);
        }
    }

    /// One run at `k` clusters; the score of its outcome.
    fn attempt(&mut self, data: &Matrix, k: usize, start: u64) -> (score: i32)
        requires
            data@.len() > 0,
            0 < k <= i32::MAX,
            shape_fits(k as nat, matrix_cols(*data)),
        ensures
            (final(self).centroids@, final(self).partition@) == run(
                data@,
                k as nat,
                old(self).settings(),
                start,
            ),
            score == silhouette(data@, final(self).partition@, final(self).centroids@),
            labels_within(final(self).partition@, data@.len(), k as nat),
            final(self).centroids@.len() == k,
            matrix_cols(final(self).centroids) == matrix_cols(*data),
            final(self).settings() == old(self).settings(),
            final(self).seed == old(self).seed,
    {
        let n: usize = data.nrows();
        let cols: usize = data.ncols();
        self.initialize(data, k, start);
        self.partition = zero_vec(n);
        let mut count: i32 = 0;
        let mut last_centroids: Option<Matrix> = None;
        let ghost rounds = rounds_of(self.max_iter as int);
        proof {
            if self.settings().plus_plus {
                lemma_seeding_rows(data@, start, k - 1);
            }
            assert(width(data@) == cols);
        }
        while check_if_finished(&self.centroids, &last_centroids) && count < self.max_iter
            invariant
                n == data@.len(),
                n > 0,
                0 < k <= i32::MAX,
                self.centroids@.len() == k,
                self.partition@.len() == n,
                matrix_cols(self.centroids) == matrix_cols(*data),
                last_centroids matches Some(held) ==> matrix_cols(held) == matrix_cols(*data),
                self.settings() == old(self).settings(),
                self.seed == old(self).seed,
                rounds == rounds_of(self.max_iter as int),
                0 <= count <= rounds,
                labels_within(self.partition@, n as nat, k as nat),
                lloyd(
                    data@,
                    self.centroids@,
                    match last_centroids {
                        Some(held) => Some(held@),
                        None => None,
                    },
                    self.partition@,
                    (rounds - count) as nat,
                ) == run(data@, k as nat, old(self).settings(), start),
            decreases rounds - count,
        {
            count += 1;
            let ghost held = self.centroids@;
            last_centroids = Some(self.centroids.clone());
            self.update_partitions(data);
            self.update_centroids(data);
            proof {
                assert forall|i: int| 0 <= i < n implies 0 <= #[trigger] self.partition@[i]
                    < k by {
                    lemma_nearest_range(data@[i], held, k as int);
                }
            }
        }
        silhouette_score(data, &self.partition, &self.centroids)
    }

    /// Fits the engine to `data` with the given seed and returns the label of
    /// each point. [`fit_outcome`] says what is refused and what a fit yields.
    pub fn fit_predict_seeded(&mut self, data: &Matrix, seed: u64) -> (r: Result<
        Vec<i32>,
        ClusterError,
    >)
        ensures
            fit_outcome(*old(self), *data, seed, *final(self), r),
    {
        let n: usize = data.nrows();
        let cols: usize = data.ncols();
        if n == 0 {
            return Err(ClusterError::EmptyInput);
        }
        if cols == 0 {
            return Err(ClusterError::ZeroDimensions);
        }
        let centers: usize = match to_usize(self.centers) {
            Some(centers) => centers,
            None => {
                return Err(ClusterError::InvalidCenters);
            },
        };
        let largest: usize = if centers > 0 {
            centers
        } else if self.max_centers > 2 {
            (self.max_centers - 1) as usize
        } else {
            0
        };
        if !shape_check(largest, cols) {
            return Err(ClusterError::TooLarge);
        }
        let ghost settings = self.settings();
        let ghost goal = fitted(data@, settings, seed);
        proof {
            lemma_shape_fits_fewer(largest as nat, centers as nat, cols as nat);
            assert(width(data@) == cols);
        }
        let mut best_centroids = zero_matrix(centers, cols);
        let mut best_partition: Vec<i32> = zero_vec(n);
        let mut minimum: Option<i32> = None;
        let mut start: u64 = seed;
        let mut tried: i32 = 0;
        if centers > 0 {
            while tried < self.retries
                invariant
                    n == data@.len(),
                    n > 0,
                    cols == matrix_cols(*data),
                    0 < centers <= i32::MAX,
                    centers == self.centers,
                    shape_fits(centers as nat, cols as nat),
                    settings == old(self).settings(),
                    self.settings() == settings,
                    self.seed == old(self).seed,
                    0 <= tried,
                    tried <= rounds_of(self.retries as int),
                    matrix_cols(best_centroids) == cols,
                    best_centroids@.len() == centers,
                    labels_within(best_partition@, n as nat, centers as nat),
                    minimum is Some ==> minimum.unwrap() == silhouette(
                        data@,
                        best_partition@,
                        best_centroids@,
                    ),
                    fixed_runs(
                        data@,
                        settings,
                        start,
                        (rounds_of(self.retries as int) - tried) as nat,
                        kept(minimum, best_centroids, best_partition),
                    ) == goal,
                decreases self.retries - tried,
            {
                let score: i32 = self.attempt(data, centers, start);
                let improved: bool = match minimum {
                    Some(held) => score > held,
                    None => true,
                };
                if improved {
                    minimum = Some(score);
                    best_centroids = self.centroids.clone();
                    best_partition = self.partition.clone();
                }
                start = start.wrapping_add(centers as u64);
                tried += 1;
            }
        } else {
            let mut i: i32 = 2;
            let mut accepted: bool = false;
            while !accepted && i < self.max_centers
                invariant
                    n == data@.len(),
                    n > 0,
                    cols == matrix_cols(*data),
                    self.centers == 0,
                    largest == largest_count(settings),
                    shape_fits(largest as nat, cols as nat),
                    settings == old(self).settings(),
                    self.settings() == settings,
                    self.seed == old(self).seed,
                    2 <= i,
                    matrix_cols(best_centroids) == cols,
                    labels_within(
                        best_partition@,
                        n as nat,
                        if best_centroids@.len() > 0 {
                            best_centroids@.len()
                        } else {
                            1
                        },
                    ),
                    !accepted ==> search(
                        data@,
                        settings,
                        i as int,
                        start,
                        kept(minimum, best_centroids, best_partition),
                    ) == goal,
                    accepted ==> kept(minimum, best_centroids, best_partition) == goal,
                decreases
                        (if accepted {
                            0int
                        } else {
                            self.max_centers - i + 1
                        }),
            {
                let k: usize = i as usize;
                let ghost entry = kept(minimum, best_centroids, best_partition);
                let ghost entry_start = start;
                proof {
                    lemma_shape_fits_fewer(largest as nat, k as nat, cols as nat);
                }
                tried = 0;
                while !accepted && tried < self.retries
                    invariant
                        n == data@.len(),
                        n > 0,
                        cols == matrix_cols(*data),
                        k == i,
                        2 <= k <= i32::MAX,
                        shape_fits(k as nat, cols as nat),
                        settings == old(self).settings(),
                        self.settings() == settings,
                        self.seed == old(self).seed,
                        0 <= tried,
                        tried <= rounds_of(self.retries as int),
                        matrix_cols(best_centroids) == cols,
                        labels_within(
                            best_partition@,
                            n as nat,
                            if best_centroids@.len() > 0 {
                                best_centroids@.len()
                            } else {
                                1
                            },
                        ),
                        !accepted ==> tries_at(
                            data@,
                            settings,
                            k as nat,
                            start,
                            (rounds_of(self.retries as int) - tried) as nat,
                            kept(minimum, best_centroids, best_partition),
                        ) == tries_at(
                            data@,
                            settings,
                            k as nat,
                            entry_start,
                            rounds_of(self.retries as int),
                            entry,
                        ),
                        accepted ==> (kept(minimum, best_centroids, best_partition), start, true)
                            == tries_at(
                            data@,
                            settings,
                            k as nat,
                            entry_start,
                            rounds_of(self.retries as int),
                            entry,
                        ),
                    decreases
                            (if accepted {
                                0int
                            } else {
                                self.retries - tried + 1
                            }),
                {
                    let score: i32 = self.attempt(data, k, start);
                    let improved: bool = match minimum {
                        Some(held) => score > held,
                        None => true,
                    };
                    if improved {
                        minimum = Some(score);
                        best_centroids = self.centroids.clone();
                        best_partition = self.partition.clone();
                    }
                    start = start.wrapping_add(k as u64);
                    if score > self.accept {
                        accepted = true;
                    } else {
                        tried += 1;
                    }
                }
                if !accepted {
                    i += 1;
                }
            }
        }
        self.partition = best_partition;
        self.centroids = best_centroids;
        Ok(self.partition.clone())
    }

    /// Fits the engine to `data` and returns the label of each point, with
    /// the engine's seed if it has one and a freshly drawn one if not.
    pub fn fit_predict(&mut self, data: &Matrix) -> (r: Result<Vec<i32>, ClusterError>)
        ensures
            exists|seed: u64|
                (old(self).seed matches Some(fixed) ==> seed == fixed) && #[trigger] fit_outcome(
                    *old(self),
                    *data,
                    seed,
                    *final(self),
                    r,
                ),
    {
        let seed: u64 = match self.seed {
            Some(fixed) => fixed,
            None => fresh_seed(),
        };
        self.fit_predict_seeded(data, seed)
    }
}

/// Two engines with the same settings fit the same points with the same
/// seed to the same centroids and the same labels, whatever either engine
/// held before.
pub proof fn lemma_fit_is_reproducible(
    first: Kmeans,
    second: Kmeans,
    data: Matrix,
    seed: u64,
    first_after: Kmeans,
    second_after: Kmeans,
    first_labels: Result<Vec<i32>, ClusterError>,
    second_labels: Result<Vec<i32>, ClusterError>,
)
    requires
        first.settings() == second.settings(),
        fit_outcome(first, data, seed, first_after, first_labels),
        fit_outcome(second, data, seed, second_after, second_labels),
    ensures
        first_labels is Ok <==> second_labels is Ok,
        first_labels is Ok ==> first_labels->Ok_0@ == second_labels->Ok_0@,
        first_labels is Ok ==> first_after.centroids@ == second_after.centroids@,
        first_labels is Err ==> first_labels->Err_0 == second_labels->Err_0,
{
}

} // verus!
