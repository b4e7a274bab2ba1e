//! The k-means model: what Lloyd's iteration, the two ways of finding initial
//! centroids and the choice among several runs yield, as functions of the
//! points, the settings and the seed.

use crate::error::ClusterError;
use crate::mathfuncs::{distance, silhouette, total, INFINITE, ONE};
use crate::matrix::{shape_fits, zero_rows};
use crate::random::{seeded_draw, stream_seed};
use vstd::prelude::*;

verus! {

/// What decides a fit besides the points and the seed.
pub struct Settings {
    pub centers: int,
    pub max_centers: int,
    pub accept: int,
    pub plus_plus: bool,
    pub max_iter: int,
    pub retries: int,
}

/// The best run so far: its score, if there was a run, its centroids and
/// its labels.
pub struct Best {
    pub score: Option<int>,
    pub centroids: Seq<Seq<i32>>,
    pub labels: Seq<i32>,
}

/// The points chosen as centroids so far, and the centroid rows so far.
pub struct Seeding {
    pub chosen: Seq<int>,
    pub rows: Seq<Seq<i32>>,
}

/// The number of columns of `points`: the length of its first row.
pub open spec fn width(points: Seq<Seq<i32>>) -> nat {
    if points.len() == 0 {
        0
    } else {
        points[0].len()
    }
}

/// Whether every row of `rows` has length `cols`.
pub open spec fn rectangular(rows: Seq<Seq<i32>>, cols: nat) -> bool {
    forall|i: int| 0 <= i < rows.len() ==> (#[trigger] rows[i]).len() == cols
}

/// The label `0` for each of `n` points.
pub open spec fn zero_labels(n: nat) -> Seq<i32> {
    Seq::new(n, |i: int| 0i32)
}

/// The number of rounds or runs that a setting of `count` allows.
pub open spec fn rounds_of(count: int) -> nat {
    if count > 0 {
        count as nat
    } else {
        0
    }
}

/// The centroid nearest to `p` among the first `k`; of several at the same
/// distance, the last.
pub open spec fn nearest(p: Seq<i32>, centroids: Seq<Seq<i32>>, k: int) -> int
    decreases k,
{
    if k <= 1 {
        0
    } else {
        let best = nearest(p, centroids, k - 1);
        if distance(p, centroids[k - 1]) <= distance(p, centroids[best]) {
            k - 1
        } else {
            best
        }
    }
}

/// The label of every point: its nearest centroid.
pub open spec fn assignments(points: Seq<Seq<i32>>, centroids: Seq<Seq<i32>>) -> Seq<i32> {
    Seq::new(points.len(), |i: int| nearest(points[i], centroids, centroids.len() as int) as i32)
}

/// For each point, `1` if its label is `k` and `0` if not.
pub open spec fn membership(labels: Seq<i32>, k: int) -> Seq<int> {
    Seq::new(
        labels.len(),
        |i: int|
            if labels[i] == k {
                1int
            } else {
                0int
            },
    )
}

/// For each point, its coordinate `c` if its label is `k` and `0` if not.
pub open spec fn member_values(
    points: Seq<Seq<i32>>,
    labels: Seq<i32>,
    k: int,
    c: int,
) -> Seq<int> {
    Seq::new(
        labels.len(),
        |i: int|
            if labels[i] == k {
                points[i][c] as int
            } else {
                0int
            },
    )
}

/// Coordinate `c` of centroid `k` after an update: the mean of that
/// coordinate over the points labelled `k`, rounded down, or the old value
/// when no point is labelled `k`.
pub open spec fn updated_cell(
    points: Seq<Seq<i32>>,
    labels: Seq<i32>,
    centroids: Seq<Seq<i32>>,
    k: int,
    c: int,
) -> int {
    if total(membership(labels, k)) == 0 {
        centroids[k][c] as int
    } else {
        total(member_values(points, labels, k, c)) / total(membership(labels, k))
    }
}

/// The centroids after an update.
pub open spec fn updated_centroids(
    points: Seq<Seq<i32>>,
    labels: Seq<i32>,
    centroids: Seq<Seq<i32>>,
) -> Seq<Seq<i32>> {
    Seq::new(
        centroids.len(),
        |k: int|
            Seq::new(
                centroids[k].len(),
                |c: int| updated_cell(points, labels, centroids, k, c) as i32,
            ),
    )
}

/// Lloyd's iteration: as long as the centroids differ from those of the
/// round before, if there was one, and rounds are left, label every point
/// by its nearest centroid and move every centroid to the mean of its
/// points. The result is the last centroids with the labels that led to
/// them.
pub open spec fn lloyd(
    points: Seq<Seq<i32>>,
    centroids: Seq<Seq<i32>>,
    last: Option<Seq<Seq<i32>>>,
    labels: Seq<i32>,
    rounds: nat,
) -> (Seq<Seq<i32>>, Seq<i32>)
    decreases rounds,
{
    if rounds == 0 || last == Some(centroids) {
        (centroids, labels)
    } else {
        let assigned = assignments(points, centroids);
        lloyd(
            points,
            updated_centroids(points, assigned, centroids),
            Some(centroids),
            assigned,
            (rounds - 1) as nat,
        )
    }
}

/// `k` rows of `points`, each drawn uniformly with its own draw of the
/// stream that starts at `start`. A row may be drawn more than once.
pub open spec fn random_rows(points: Seq<Seq<i32>>, k: nat, start: u64) -> Seq<Seq<i32>> {
    Seq::new(
        k,
        |i: int| points[seeded_draw(stream_seed(start, i), points.len() as u64) as int],
    )
}

/// The list of chosen points as the model sees it.
pub open spec fn as_ints(chosen: Seq<usize>) -> Seq<int> {
    chosen.map_values(|c: usize| c as int)
}

/// The least distance from `p` to one of the first `m` points listed in
/// `chosen`; [`INFINITE`] when `m` is zero.
pub open spec fn smallest_dist(p: Seq<i32>, points: Seq<Seq<i32>>, chosen: Seq<int>, m: int) -> int
    decreases m,
{
    if m <= 0 {
        INFINITE as int
    } else {
        let rest = smallest_dist(p, points, chosen, m - 1);
        let d = distance(p, points[chosen[m - 1]]);
        if d < rest {
            d
        } else {
            rest
        }
    }
}

/// The weight of point `j` when the points in `chosen` are centroids
/// already: nothing if it is one of them, else its distance to the nearest
/// of them, divided by the number of points.
pub open spec fn weight(points: Seq<Seq<i32>>, chosen: Seq<int>, j: int) -> int {
    if chosen.contains(j) {
        0
    } else {
        smallest_dist(points[j], points, chosen, chosen.len() as int) / (points.len() as int)
    }
}

/// The weight of every point.
pub open spec fn weights(points: Seq<Seq<i32>>, chosen: Seq<int>) -> Seq<int> {
    Seq::new(points.len(), |j: int| weight(points, chosen, j))
}

/// The first position from `j` on at which the running sum of `ws` exceeds
/// `u`; the length of `ws` when there is none.
pub open spec fn first_over(ws: Seq<int>, u: int, j: int) -> int
    decreases ws.len() - j,
{
    if j >= ws.len() {
        ws.len() as int
    } else if u < total(ws.take(j + 1)) {
        j
    } else {
        first_over(ws, u, j + 1)
    }
}

/// The state of the weighted seeding after row `i`.
///
/// Row `0` is a point drawn uniformly. For each later row every point gets
/// its [`weight`], a threshold below [`ONE`] is drawn, and the first point at
/// which the running sum of the weights exceeds the threshold becomes the
/// row. When the sum never exceeds it, the row stays zero and no point is
/// chosen.
pub open spec fn plus_seeding(points: Seq<Seq<i32>>, start: u64, i: int) -> Seeding
    decreases i,
{
    if i <= 0 {
        let first = seeded_draw(stream_seed(start, 0), points.len() as u64) as int;
        Seeding { chosen: seq![first], rows: seq![points[first]] }
    } else {
        let prev = plus_seeding(points, start, i - 1);
        let threshold = seeded_draw(stream_seed(start, i), ONE as u64) as int;
        let j = first_over(weights(points, prev.chosen), threshold, 0);
        if j < points.len() {
            Seeding { chosen: prev.chosen.push(j), rows: prev.rows.push(points[j]) }
        } else {
            Seeding {
                chosen: prev.chosen,
                rows: prev.rows.push(Seq::new(width(points), |c: int| 0i32)),
            }
        }
    }
}

/// The `k` centroids that a run starts from: seeded by weight when
/// `plus_plus` is set, drawn uniformly otherwise.
pub open spec fn initial_centroids(
    points: Seq<Seq<i32>>,
    k: nat,
    plus_plus: bool,
    start: u64,
) -> Seq<Seq<i32>> {
    if plus_plus {
        plus_seeding(points, start, k - 1).rows
    } else {
        random_rows(points, k, start)
    }
}

/// One run at `k` clusters: Lloyd's iteration from the initial centroids,
/// with all points labelled `0` and no round before. So the first round
/// is made whatever the initial centroids are, if any round is allowed.
pub open spec fn run(points: Seq<Seq<i32>>, k: nat, settings: Settings, start: u64) -> (
    Seq<Seq<i32>>,
    Seq<i32>,
) {
    lloyd(
        points,
        initial_centroids(points, k, settings.plus_plus, start),
        None,
        zero_labels(points.len()),
        rounds_of(settings.max_iter),
    )
}

/// The state before any run: no score, `k` zero centroids, every label `0`.
pub open spec fn no_run(points: Seq<Seq<i32>>, k: nat) -> Best {
    Best { score: None, centroids: zero_rows(k, width(points)), labels: zero_labels(points.len()) }
}

/// `best`, or the run given if it scores strictly higher or is the first.
pub open spec fn better(
    best: Best,
    points: Seq<Seq<i32>>,
    centroids: Seq<Seq<i32>>,
    labels: Seq<i32>,
) -> Best {
    let score = silhouette(points, labels, centroids);
    if best.score is None || score > best.score.unwrap() {
        Best { score: Some(score), centroids, labels }
    } else {
        best
    }
}

/// The best of `runs` runs at `settings.centers` clusters, after `best`.
/// Each run takes as many draws of the stream as it has clusters.
pub open spec fn fixed_runs(
    points: Seq<Seq<i32>>,
    settings: Settings,
    start: u64,
    runs: nat,
    best: Best,
) -> Best
    decreases runs,
{
    if runs == 0 {
        best
    } else {
        let k = settings.centers as nat;
        let (centroids, labels) = run(points, k, settings, start);
        fixed_runs(
            points,
            settings,
            stream_seed(start, k as int),
            (runs - 1) as nat,
            better(best, points, centroids, labels),
        )
    }
}

/// What `runs` runs at `k` clusters, after `best`, lead to when the cluster
/// count is searched: the best so far, the seed at which the stream goes
/// on, and whether a run scored above `settings.accept`. Such a run is the
/// last one made.
pub open spec fn tries_at(
    points: Seq<Seq<i32>>,
    settings: Settings,
    k: nat,
    start: u64,
    runs: nat,
    best: Best,
) -> (Best, u64, bool)
    decreases runs,
{
    if runs == 0 {
        (best, start, false)
    } else {
        let (centroids, labels) = run(points, k, settings, start);
        let next = better(best, points, centroids, labels);
        let after = stream_seed(start, k as int);
        if silhouette(points, labels, centroids) > settings.accept {
            (next, after, true)
        } else {
            tries_at(points, settings, k, after, (runs - 1) as nat, next)
        }
    }
}

/// The search for the cluster count from `k` on: `settings.retries` runs at
/// each count up to but not including `settings.max_centers`, the best of
/// all runs kept, and the search over as soon as a run scores above
/// `settings.accept`.
pub open spec fn search(
    points: Seq<Seq<i32>>,
    settings: Settings,
    k: int,
    start: u64,
    best: Best,
) -> Best
    decreases settings.max_centers - k,
{
    if k >= settings.max_centers || k < 0 {
        best
    } else {
        let (next, after, accepted) = tries_at(
            points,
            settings,
            k as nat,
            start,
            rounds_of(settings.retries),
            best,
        );
        if accepted {
            next
        } else {
            search(points, settings, k + 1, after, next)
        }
    }
}

/// What a fit of `points` yields: with a positive cluster count the best of
/// `settings.retries` runs at that count, otherwise what the search for the
/// count yields, from two clusters on.
pub open spec fn fitted(points: Seq<Seq<i32>>, settings: Settings, seed: u64) -> Best {
    if settings.centers > 0 {
        fixed_runs(
            points,
            settings,
            seed,
            rounds_of(settings.retries),
            no_run(points, settings.centers as nat),
        )
    } else {
        search(points, settings, 2, seed, no_run(points, 0))
    }
}

/// The largest number of centroids that a fit with `settings` may hold.
pub open spec fn largest_count(settings: Settings) -> nat {
    if settings.centers > 0 {
        settings.centers as nat
    } else if settings.max_centers > 2 {
        (settings.max_centers - 1) as nat
    } else {
        0
    }
}

/// The error with which a fit refuses `points`, if it does: no points, no
/// columns, a negative cluster count, centroids too large to allocate, in
/// this order.
pub open spec fn refusal(points: Seq<Seq<i32>>, cols: nat, settings: Settings) -> Option<
    ClusterError,
> {
    if points.len() == 0 {
        Some(ClusterError::EmptyInput)
    } else if cols == 0 {
        Some(ClusterError::ZeroDimensions)
    } else if settings.centers < 0 {
        Some(ClusterError::InvalidCenters)
    } else if !shape_fits(largest_count(settings), cols) {
        Some(ClusterError::TooLarge)
    } else {
        None
    }
}

/// The seed at which run number `i` of a fit at `k` clusters starts: each
/// run takes `k` draws of the stream.
pub open spec fn run_start(seed: u64, k: nat, i: nat) -> u64
    decreases i,
{
    if i == 0 {
        seed
    } else {
        stream_seed(run_start(seed, k, (i - 1) as nat), k as int)
    }
}

/// The outcome of run number `i` of a fit at a fixed cluster count, with
/// its score.
pub open spec fn nth_run(points: Seq<Seq<i32>>, settings: Settings, seed: u64, i: nat) -> Best {
    let k = settings.centers as nat;
    let (centroids, labels) = run(points, k, settings, run_start(seed, k, i));
    Best { score: Some(silhouette(points, labels, centroids)), centroids, labels }
}

/// Whether run number `kept` scores highest among the first `done` runs,
/// and higher than every run before it.
pub open spec fn leads(
    points: Seq<Seq<i32>>,
    settings: Settings,
    seed: u64,
    kept: nat,
    done: nat,
) -> bool {
    &&& kept < done
    &&& forall|i: nat|
        i < done ==> (#[trigger] nth_run(points, settings, seed, i)).score.unwrap() <= nth_run(
            points,
            settings,
            seed,
            kept,
        ).score.unwrap()
    &&& forall|i: nat|
        i < kept ==> (#[trigger] nth_run(points, settings, seed, i)).score.unwrap() < nth_run(
            points,
            settings,
            seed,
            kept,
        ).score.unwrap()
}

/// The nearest centroid is one of the first `k`, or `0`.
pub proof fn lemma_nearest_range(p: Seq<i32>, centroids: Seq<Seq<i32>>, k: int)
    ensures
        0 <= nearest(p, centroids, k),
        k >= 1 ==> nearest(p, centroids, k) < k,
        k < 1 ==> nearest(p, centroids, k) == 0,
    decreases k,
{
    if k > 1 {
        lemma_nearest_range(p, centroids, k - 1);
    }
}

/// The nearest centroid is no farther than any other, and nearer than every
/// later one: of several at the least distance it is the last.
pub proof fn lemma_nearest_is_last_minimum(p: Seq<i32>, centroids: Seq<Seq<i32>>, k: int)
    requires
        k >= 1,
    ensures
        0 <= nearest(p, centroids, k) < k,
        forall|j: int|
            0 <= j < k ==> distance(p, centroids[nearest(p, centroids, k)]) <= distance(
                p,
                #[trigger] centroids[j],
            ),
        forall|j: int|
            nearest(p, centroids, k) < j < k ==> distance(p, centroids[nearest(p, centroids, k)])
                < distance(p, #[trigger] centroids[j]),
    decreases k,
{
    if k > 1 {
        lemma_nearest_is_last_minimum(p, centroids, k - 1);
    }
}

/// If the running sum first exceeds `u` at `r` when searched from `j`, that
/// is what [`first_over`] finds.
pub proof fn lemma_first_over(ws: Seq<int>, u: int, j: int, r: int)
    requires
        0 <= j <= r <= ws.len(),
        forall|i: int| j <= i < r ==> u >= total(#[trigger] ws.take(i + 1)),
        r < ws.len() ==> u < total(ws.take(r + 1)),
    ensures
        first_over(ws, u, j) == r,
    decreases r - j,
{
    if j < r {
        assert(u >= total(ws.take(j + 1)));
        lemma_first_over(ws, u, j + 1, r);
    }
}

/// The weighted seeding yields `i + 1` rows after row `i`.
pub proof fn lemma_seeding_rows(points: Seq<Seq<i32>>, start: u64, i: int)
    requires
        i >= 0,
    ensures
        plus_seeding(points, start, i).rows.len() == i + 1,
    decreases i,
{
    if i > 0 {
        lemma_seeding_rows(points, start, i - 1);
    }
}

/// Going on from the best of the first `done` runs through `runs` more
/// yields the best of them all.
pub proof fn lemma_fixed_runs(
    points: Seq<Seq<i32>>,
    settings: Settings,
    seed: u64,
    done: nat,
    runs: nat,
    best: Best,
    kept: nat,
) -> (last: nat)
    requires
        done == 0 ==> best.score is None,
        done > 0 ==> leads(points, settings, seed, kept, done) && best == nth_run(
            points,
            settings,
            seed,
            kept,
        ),
        done + runs >= 1,
    ensures
        leads(points, settings, seed, last, done + runs),
        fixed_runs(
            points,
            settings,
            run_start(seed, settings.centers as nat, done),
            runs,
            best,
        ) == nth_run(points, settings, seed, last),
    decreases runs,
{
    if runs == 0 {
        kept
    } else {
        let k = settings.centers as nat;
        let this = nth_run(points, settings, seed, done);
        let next = better(best, points, this.centroids, this.labels);
        if done == 0 || this.score.unwrap() > best.score.unwrap() {
            assert(next == this);
            lemma_fixed_runs(points, settings, seed, done + 1, (runs - 1) as nat, next, done)
        } else {
            assert(next == best);
            lemma_fixed_runs(points, settings, seed, done + 1, (runs - 1) as nat, next, kept)
        }
    }
}

/// A fit at a fixed cluster count with at least one run keeps the run
/// that scores highest; of several that score the same, the first.
pub proof fn lemma_best_run_is_kept(points: Seq<Seq<i32>>, settings: Settings, seed: u64) -> (kept:
    nat)
    requires
        settings.centers > 0,
        settings.retries > 0,
    ensures
        leads(points, settings, seed, kept, settings.retries as nat),
        fitted(points, settings, seed) == nth_run(points, settings, seed, kept),
{
    lemma_fixed_runs(
        points,
        settings,
        seed,
        0,
        settings.retries as nat,
        no_run(points, settings.centers as nat),
        0,
    )
}

} // verus!
