//! The flat agglomerative engine, which keeps lists of points in place of a
//! tree.

use crate::convert::to_i32;
use crate::error::ClusterError;
use crate::mathfuncs::{mean_of, mean_of_vec_arr};
use crate::matrix::{matrix_cols, rows_view, Matrix};
use crate::pairs::{closest_pair, lemma_closest_found, nearest_pair};
use vstd::prelude::*;

verus! {

/// The clusters as the model sees them: each a sequence of points.
pub open spec fn deep(clusters: Seq<Vec<Vec<i32>>>) -> Seq<Seq<Seq<i32>>> {
    Seq::new(clusters.len(), |i: int| rows_view(clusters[i]@))
}

/// The mean of the points of `cluster`, each coordinate rounded down.
pub open spec fn cluster_mean(cluster: Seq<Seq<i32>>) -> Seq<i32> {
    mean_of(cluster).map_values(|v: int| v as i32)
}

/// The mean of each of `clusters`.
pub open spec fn flat_means(clusters: Seq<Seq<Seq<i32>>>) -> Seq<Seq<i32>> {
    Seq::new(clusters.len(), |i: int| cluster_mean(clusters[i]))
}

/// `clusters` after the one at `j` was joined to the one at `i`: its
/// points follow those of the first, and it leaves the list.
pub open spec fn joined(clusters: Seq<Seq<Seq<i32>>>, i: int, j: int) -> Seq<Seq<Seq<i32>>> {
    clusters.update(i, clusters[i] + clusters[j]).remove(j)
}

/// `clusters` joined pair by pair, each time the two whose means are
/// nearest, until no more than `centers` are left.
pub open spec fn merged_down(clusters: Seq<Seq<Seq<i32>>>, centers: nat) -> Seq<Seq<Seq<i32>>>
    decreases clusters.len(),
{
    if clusters.len() <= centers || clusters.len() < 2 {
        clusters
    } else {
        let (i, j) = closest_pair(flat_means(clusters));
        if 0 <= i < j < clusters.len() {
            merged_down(joined(clusters, i, j), centers)
        } else {
            clusters
        }
    }
}

/// One cluster per point, in row order.
pub open spec fn singletons(points: Seq<Seq<i32>>) -> Seq<Seq<Seq<i32>>> {
    Seq::new(points.len(), |i: int| seq![points[i]])
}

/// The last of the first `upto` clusters that holds a point with the
/// coordinates `row`; `0` when none does.
pub open spec fn last_holder(clusters: Seq<Seq<Seq<i32>>>, row: Seq<i32>, upto: int) -> int
    decreases upto,
{
    if upto <= 0 {
        0
    } else if clusters[upto - 1].contains(row) {
        upto - 1
    } else {
        last_holder(clusters, row, upto - 1)
    }
}

/// The label of each point: the last cluster that holds a point with its
/// coordinates.
pub open spec fn flat_labels(clusters: Seq<Seq<Seq<i32>>>, points: Seq<Seq<i32>>) -> Seq<i32> {
    Seq::new(points.len(), |j: int| last_holder(clusters, points[j], clusters.len() as int) as i32)
}

/// Whether no cluster is empty and every point has `cols` coordinates.
pub open spec fn sound(clusters: Seq<Seq<Seq<i32>>>, cols: nat) -> bool {
    forall|i: int|
        0 <= i < clusters.len() ==> (#[trigger] clusters[i]).len() > 0 && forall|k: int|
            0 <= k < clusters[i].len() ==> (#[trigger] clusters[i][k]).len() == cols
}

/// The last holder is a cluster, or `0`.
pub proof fn lemma_last_holder_range(clusters: Seq<Seq<Seq<i32>>>, row: Seq<i32>, upto: int)
    requires
        upto <= clusters.len(),
    ensures
        0 <= last_holder(clusters, row, upto),
        last_holder(clusters, row, upto) <= clusters.len(),
    decreases upto,
{
    if upto > 0 && !clusters[upto - 1].contains(row) {
        lemma_last_holder_range(clusters, row, upto - 1);
    }
}

/// A copy of `point`.
fn copy_point(point: &Vec<i32>) -> (copy: Vec<i32>)
    ensures
        copy@ == point@,
{
    let mut copy: Vec<i32> = Vec::new();
    let mut i: usize = 0;
    while i < point.len()
        invariant
            i <= point@.len(),
            copy@ == point@.take(i as int),
        decreases point@.len() - i,
    {
        copy.push(point[i]);
        assert(point@.take(i + 1) =~= point@.take(i as int).push(point@[i as int]));
        i += 1;
    }
    assert(point@.take(i as int) =~= point@);
    copy
}

/// Appends a copy of every point of `more` to `cluster`.
fn append_points(cluster: &mut Vec<Vec<i32>>, more: &Vec<Vec<i32>>)
    ensures
        rows_view(final(cluster)@) == rows_view(old(cluster)@) + rows_view(more@),
{
    let mut i: usize = 0;
    assert(rows_view(more@).take(0) =~= Seq::<Seq<i32>>::empty());
    assert(rows_view(cluster@) + Seq::<Seq<i32>>::empty() =~= rows_view(cluster@));
    while i < more.len()
        invariant
            i <= more@.len(),
            rows_view(cluster@) == rows_view(old(cluster)@) + rows_view(more@).take(i as int),
        decreases more@.len() - i,
    {
        let ghost held = rows_view(cluster@);
        cluster.push(copy_point(&more[i]));
        assert(rows_view(cluster@) =~= held.push(more@[i as int]@));
        assert(rows_view(more@).take(i + 1) =~= rows_view(more@).take(i as int).push(
            more@[i as int]@,
        ));
        assert(rows_view(old(cluster)@) + rows_view(more@).take(i + 1) =~= held.push(
            more@[i as int]@,
        ));
        i += 1;
    }
    assert(rows_view(more@).take(i as int) =~= rows_view(more@));
}

/// Whether `a` and `b` have the same coordinates.
fn same_point(a: &Vec<i32>, b: &Vec<i32>) -> (same: bool)
    ensures
        same == (a@ == b@),
{
    if a.len() != b.len() {
        return false;
    }
    let mut i: usize = 0;
    while i < a.len()
        invariant
            a@.len() == b@.len(),
            i <= a@.len(),
            forall|k: int| 0 <= k < i ==> a@[k] == b@[k],
        decreases a@.len() - i,
    {
        if a[i] != b[i] {
            return false;
        }
        i += 1;
    }
    assert(a@ =~= b@);
    true
}

/// One cluster per row of `data`.
fn singleton_clusters(data: &Matrix) -> (clusters: Vec<Vec<Vec<i32>>>)
    ensures
        deep(clusters@) == singletons(data@),
{
    let n: usize = data.nrows();
    let mut clusters: Vec<Vec<Vec<i32>>> = Vec::new();
    let mut i: usize = 0;
    while i < n
        invariant
            n == data@.len(),
            i <= n,
            clusters@.len() == i,
            forall|k: int| 0 <= k < i ==> rows_view((#[trigger] clusters@[k])@) == seq![data@[k]],
        decreases n - i,
    {
        let mut cluster: Vec<Vec<i32>> = Vec::new();
        cluster.push(data.row(i));
        assert(rows_view(cluster@) =~= seq![data@[i as int]]);
        clusters.push(cluster);
        i += 1;
    }
    assert(deep(clusters@) =~= singletons(data@));
    clusters
}

/// The flat agglomerative engine: it joins the two clusters whose means
/// are nearest until a requested number is left, and labels each point by
/// the cluster that holds its coordinates.
pub struct AgglomerativeCluster {
    /// The number of clusters to stop at.
    pub centers: usize,
    /// The clusters, each a list of points.
    pub clusters: Vec<Vec<Vec<i32>>>,
}

impl AgglomerativeCluster {
    /// An engine that stops at `centers` clusters, with one cluster per row
    /// of `data`.
    pub fn new(data: &Matrix, centers: usize) -> (engine: AgglomerativeCluster)
        ensures
            engine.centers == centers,
            deep(engine.clusters@) == singletons(data@),
    {
        AgglomerativeCluster { centers, clusters: singleton_clusters(data) }
    }

    /// Starts over with one cluster per row of `data`.
    fn initialize(&mut self, data: &Matrix)
        ensures
            final(self).centers == old(self).centers,
            deep(final(self).clusters@) == singletons(data@),
    {
        self.clusters = singleton_clusters(data);
    }

    /// The two clusters to join next.
    fn update(&self) -> (best: Vec<usize>)
        requires
            self.clusters@.len() >= 2,
            exists|cols: nat| sound(deep(self.clusters@), cols),
        ensures
            best@.len() == 2,
            crate::pairs::is_closest_pair(
                flat_means(deep(self.clusters@)),
                best@[0] as int,
                best@[1] as int,
            ),
    {
        let n: usize = self.clusters.len();
        let ghost cols = choose|cols: nat| sound(deep(self.clusters@), cols);
        let ghost model = deep(self.clusters@);
        let mut means: Vec<Vec<i32>> = Vec::new();
        let mut i: usize = 0;
        while i < n
            invariant
                n == self.clusters@.len(),
                model == deep(self.clusters@),
                sound(model, cols),
                i <= n,
                means@.len() == i,
                forall|k: int| 0 <= k < i ==> (#[trigger] means@[k])@ == cluster_mean(model[k]),
            decreases n - i,
        {
            let cluster: &Vec<Vec<i32>> = &self.clusters[i];
            proof {
                assert(model[i as int].len() > 0);
                assert forall|k: int| 0 <= k < cluster@.len() implies (
                #[trigger] cluster@[k])@.len() == cluster@[0]@.len() by {
                    assert(model[i as int][k].len() == cols);
                    assert(model[i as int][0].len() == cols);
                }
            }
            let mean = mean_of_vec_arr(cluster);
            proof {
                assert(mean@ =~= cluster_mean(model[i as int])) by {
                    let exact = mean_of(rows_view(cluster@));
                    assert(mean@.map_values(|v: i32| v as int) == exact);
                    assert forall|c: int| 0 <= c < mean@.len() implies mean@[c] == (exact[c]
                        as i32) by {
                        assert(mean@.map_values(|v: i32| v as int)[c] == exact[c]);
                    }
                }
            }
            means.push(mean);
            i += 1;
        }
        proof {
            assert(rows_view(means@) =~= flat_means(model));
            assert forall|k: int| 0 <= k < means@.len() implies (#[trigger] means@[k])@.len()
                == means@[0]@.len() by {
                assert(model[k][0].len() == cols);
                assert(model[0][0].len() == cols);
            }
        }
        let pair = nearest_pair(&means);
        let mut best: Vec<usize> = Vec::new();
        best.push(pair.0);
        best.push(pair.1);
        best
    }

    /// The label of each row of `data`: the last cluster that holds a point
    /// with its coordinates.
    fn get_partition(&self, data: &Matrix) -> (partitions: Vec<i32>)
        requires
            self.clusters@.len() <= i32::MAX,
        ensures
            partitions@ == flat_labels(deep(self.clusters@), data@),
    {
        let n: usize = data.nrows();
        let rows = data.to_rows();
        let ghost model = deep(self.clusters@);
        let mut partitions: Vec<i32> = Vec::new();
        let mut j: usize = 0;
        while j < n
            invariant
                j <= n,
                partitions@.len() == j,
                forall|k: int| 0 <= k < j ==> partitions@[k] == 0,
            decreases n - j,
        {
            partitions.push(0);
            j += 1;
        }
        let count: usize = self.clusters.len();
        let mut i: usize = 0;
        while i < count
            invariant
                n == data@.len(),
                rows_view(rows@) == data@,
                rows@.len() == n,
                count == self.clusters@.len(),
                count <= i32::MAX,
                model == deep(self.clusters@),
                i <= count,
                partitions@.len() == n,
                forall|k: int|
                    0 <= k < n ==> #[trigger] partitions@[k] == last_holder(
                        model,
                        data@[k],
                        i as int,
                    ),
            decreases count - i,
        {
            let cluster: &Vec<Vec<i32>> = &self.clusters[i];
            let label: i32 = match to_i32(i) {
                Some(label) => label,
                None => 0,
            };
            let mut p: usize = 0;
            while p < cluster.len()
                invariant
                    n == data@.len(),
                    rows_view(rows@) == data@,
                    rows@.len() == n,
                    model == deep(self.clusters@),
                    i < self.clusters@.len(),
                    cluster@ == self.clusters@[i as int]@,
                    label == i,
                    p <= cluster@.len(),
                    partitions@.len() == n,
                    forall|k: int|
                        0 <= k < n ==> #[trigger] partitions@[k] == (if model[i as int].take(
                            p as int,
                        ).contains(data@[k]) {
                            i as int
                        } else {
                            last_holder(model, data@[k], i as int)
                        }),
                decreases cluster@.len() - p,
            {
                let point: &Vec<i32> = &cluster[p];
                let ghost tried = model[i as int].take(p as int);
                let ghost next = model[i as int].take(p + 1);
                assert(next =~= tried.push(point@));
                let mut j: usize = 0;
                while j < n
                    invariant
                        n == data@.len(),
                        rows_view(rows@) == data@,
                        rows@.len() == n,
                        label == i,
                        j <= n,
                        next == tried.push(point@),
                        partitions@.len() == n,
                        forall|k: int|
                            0 <= k < j ==> #[trigger] partitions@[k] == (if next.contains(
                                data@[k],
                            ) {
                                i as int
                            } else {
                                last_holder(model, data@[k], i as int)
                            }),
                        forall|k: int|
                            j <= k < n ==> #[trigger] partitions@[k] == (if tried.contains(
                                data@[k],
                            ) {
                                i as int
                            } else {
                                last_holder(model, data@[k], i as int)
                            }),
                    decreases n - j,
                {
                    proof {
                        assert(rows_view(rows@)[j as int] == rows@[j as int]@);
                        let row = data@[j as int];
                        if tried.contains(row) {
                            let at = choose|at: int| 0 <= at < tried.len() && tried[at] == row;
                            assert(next[at] == row);
                        }
                        if next.contains(row) && !tried.contains(row) {
                            let at = choose|at: int| 0 <= at < next.len() && next[at] == row;
                            if at < tried.len() {
                                assert(tried[at] == row);
                            }
                        }
                        if point@ == row {
                            assert(next[tried.len() as int] == row);
                        }
                    }
                    if same_point(point, &rows[j]) {
                        partitions.set(j, label);
                    }
                    j += 1;
                }
                p += 1;
            }
            proof {
                assert(model[i as int].take(cluster@.len() as int) =~= model[i as int]);
            }
            i += 1;
        }
        proof {
            assert forall|k: int| 0 <= k < n implies partitions@[k] == flat_labels(
                model,
                data@,
            )[k] by {
                lemma_last_holder_range(model, data@[k], count as int);
            }
            assert(partitions@ =~= flat_labels(model, data@));
        }
        partitions
    }

    /// Joins the clusters of `data` down to the requested number and labels
    /// every row.
    ///
    /// A matrix without rows or columns is refused, and so are a request
    /// for no cluster at all and a matrix with more rows than an `i32` can
    /// number. A refusal leaves the engine as it was.
    pub fn fit_predict(&mut self, data: &Matrix) -> (r: Result<Vec<i32>, ClusterError>)
        ensures
            r is Ok <==> 0 < data@.len() <= i32::MAX && matrix_cols(*data) > 0 && old(self).centers
                > 0,
            r matches Err(e) ==> *final(self) == *old(self) && e == (if data@.len() == 0 {
                ClusterError::EmptyInput
            } else if matrix_cols(*data) == 0 {
                ClusterError::ZeroDimensions
            } else if old(self).centers == 0 {
                ClusterError::InvalidCenters
            } else {
                ClusterError::TooLarge
            }),
            r matches Ok(labels) ==> {
                &&& final(self).centers == old(self).centers
                &&& deep(final(self).clusters@) == merged_down(
                    singletons(data@),
                    old(self).centers as nat,
                )
                &&& labels@ == flat_labels(deep(final(self).clusters@), data@)
            },
    {
        let n: usize = data.nrows();
        let cols: usize = data.ncols();
        if n == 0 {
            return Err(ClusterError::EmptyInput);
        }
        if cols == 0 {
            return Err(ClusterError::ZeroDimensions);
        }
        if self.centers == 0 {
            return Err(ClusterError::InvalidCenters);
        }
        if to_i32(n).is_none() {
            return Err(ClusterError::TooLarge);
        }
        self.initialize(data);
        proof {
            assert(sound(deep(self.clusters@), cols as nat));
        }
        while self.clusters.len() > self.centers
            invariant
                self.centers == old(self).centers,
                self.centers > 0,
                self.clusters@.len() <= data@.len() <= i32::MAX,
                sound(deep(self.clusters@), cols as nat),
                merged_down(deep(self.clusters@), self.centers as nat) == merged_down(
                    singletons(data@),
                    self.centers as nat,
                ),
            decreases self.clusters@.len(),
        {
            let ghost model = deep(self.clusters@);
            let best = self.update();
            let first: usize = best[0];
            let second: usize = best[1];
            proof {
                lemma_closest_found(flat_means(model), first as int, second as int);
            }
            let moved = self.clusters.remove(second);
            let mut grown = self.clusters.remove(first);
            append_points(&mut grown, &moved);
            self.clusters.insert(first, grown);
            proof {
                let next = joined(model, first as int, second as int);
                assert(deep(self.clusters@) =~= next);
                assert forall|i: int| 0 <= i < next.len() implies (#[trigger] next[i]).len() > 0
                    && forall|k: int|
                    0 <= k < next[i].len() ==> (#[trigger] next[i][k]).len() == cols by {
                    let from = if i < second {
                        i
                    } else {
                        i + 1
                    };
                    assert(model[from].len() > 0);
                    assert(model[second as int].len() > 0);
                    assert forall|k: int| 0 <= k < next[i].len() implies (
                    #[trigger] next[i][k]).len() == cols by {
                        if i == first {
                            if k < model[first as int].len() {
                                assert(model[first as int][k].len() == cols);
                            } else {
                                assert(model[second as int][k - model[first as int].len()].len()
                                    == cols);
                            }
                        } else {
                            assert(model[from][k].len() == cols);
                        }
                    }
                }
            }
        }
        let partitions = self.get_partition(data);
        Ok(partitions)
    }
}

} // verus!
