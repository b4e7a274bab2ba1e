//! The DBSCAN engine.

use crate::convert::to_i32;
use crate::dbscan_model::{
    below, lemma_below, lemma_neighbours, lemma_unvisited, neighbours, unvisited, Ground, Scan,
};
use crate::error::ClusterError;
use crate::mathfuncs::l2;
use crate::matrix::{matrix_cols, Matrix};
use std::collections::HashSet;
use vstd::prelude::*;

verus! {

/// A density-based engine: a cluster starts at a point with enough
/// neighbours and takes in what it can reach through such points; what no
/// cluster reaches is noise, labelled `0`.
pub struct DBScan {
    /// The neighbour count that makes a point dense.
    pub min_points: usize,
    /// The radius within which points are neighbours.
    pub epsilon: u64,
    /// The points whose neighbourhood was looked at in the last fit.
    pub is_visited: HashSet<usize>,
    /// The points that were given a cluster when first looked at.
    pub is_in_cluster: HashSet<usize>,
    /// The points that had too few neighbours to start a cluster when
    /// their turn came.
    pub is_noise: HashSet<usize>,
    /// The label of each point after the last fit.
    pub partitions: Vec<i32>,
    /// The number of the next cluster.
    pub current_clusters: i32,
}

/// The default neighbour count.
pub const DEFAULT_MIN_POINTS: usize = 10;

/// The default radius: three tenths of one, rounded down.
pub const DEFAULT_EPSILON: u64 = 19660;

/// A vector of `n` zeros.
fn zero_labels(n: usize) -> (v: Vec<i32>)
    ensures
        v@ == Seq::new(n as nat, |q: int| 0i32),
{
    let mut v: Vec<i32> = Vec::new();
    let mut i: usize = 0;
    while i < n
        invariant
            i <= n,
            v@.len() == i,
            forall|k: int| 0 <= k < i ==> v@[k] == 0,
        decreases n - i,
    {
        v.push(0);
        i += 1;
    }
    assert(v@ =~= Seq::new(n as nat, |q: int| 0i32));
    v
}

impl DBScan {
    /// What a scan of `data` with this engine goes by.
    pub open spec fn ground(self, data: Matrix) -> Ground {
        Ground { points: data@, eps: self.epsilon, min_points: self.min_points as nat }
    }

    /// The state that the engine holds.
    pub open spec fn state(self) -> Scan {
        Scan {
            visited: self.is_visited@,
            assigned: self.is_in_cluster@,
            noise: self.is_noise@,
            labels: self.partitions@,
            next: self.current_clusters as int,
        }
    }

    /// An engine with the default neighbour count and radius, no point
    /// looked at, and the label `0` for every row of `data`.
    pub fn new(data: &Matrix) -> (engine: DBScan)
        ensures
            engine.min_points == DEFAULT_MIN_POINTS,
            engine.epsilon == DEFAULT_EPSILON,
            engine.state() == engine.ground(*data).scanned(0),
    {
        let engine = DBScan {
            min_points: DEFAULT_MIN_POINTS,
            epsilon: DEFAULT_EPSILON,
            is_visited: HashSet::new(),
            is_in_cluster: HashSet::new(),
            is_noise: HashSet::new(),
            partitions: zero_labels(data.nrows()),
            current_clusters: 1,
        };
        assert(engine.state().visited =~= Set::<usize>::empty());
        assert(engine.state().assigned =~= Set::<usize>::empty());
        assert(engine.state().noise =~= Set::<usize>::empty());
        engine
    }

    /// Sets the neighbour count.
    pub fn set_min_points(&mut self, min_pts: usize)
        ensures
            *final(self) == (DBScan { min_points: min_pts, ..*old(self) }),
    {
        self.min_points = min_pts;
    }

    /// Sets the radius.
    pub fn set_epsilon(&mut self, epsilon: u64)
        ensures
            *final(self) == (DBScan { epsilon, ..*old(self) }),
    {
        self.epsilon = epsilon;
    }

    /// Forgets the last fit.
    fn initialize(&mut self, data: &Matrix)
        ensures
            final(self).state() == old(self).ground(*data).scanned(0),
            final(self).min_points == old(self).min_points,
            final(self).epsilon == old(self).epsilon,
    {
        self.partitions = zero_labels(data.nrows());
        self.current_clusters = 1;
        self.is_visited.clear();
        self.is_in_cluster.clear();
        self.is_noise.clear();
        assert(self.state().visited =~= Set::<usize>::empty());
        assert(self.state().assigned =~= Set::<usize>::empty());
        assert(self.state().noise =~= Set::<usize>::empty());
    }

    /// The rows of `data` within the radius of row `index`, in row order.
    fn get_neighbours(&self, data: &Matrix, index: usize) -> (found: Vec<usize>)
        requires
            index < data@.len(),
        ensures
            found@ == neighbours(data@, self.epsilon, index as int, data@.len() as int),
    {
        let n: usize = data.nrows();
        let point = data.row(index);
        let mut found: Vec<usize> = Vec::new();
        let mut i: usize = 0;
        while i < n
            invariant
                n == data@.len(),
                index < n,
                point@ == data@[index as int],
                i <= n,
                found@ == neighbours(data@, self.epsilon, index as int, i as int),
            decreases n - i,
        {
            let dist: u64 = l2(&point, &data.row(i), false);
            if dist <= self.epsilon {
                found.push(i);
            }
            i += 1;
        }
        found
    }

    /// Puts `found` on `stack`, last first, so that the first comes off
    /// first.
    fn push_reversed(stack: &mut Vec<usize>, found: &Vec<usize>)
        ensures
            final(stack)@.len() == old(stack)@.len() + found@.len(),
            final(stack)@.subrange(0, old(stack)@.len() as int) == old(stack)@,
            forall|q: usize|
                final(stack)@.subrange(
                    old(stack)@.len() as int,
                    final(stack)@.len() as int,
                ).contains(q) <==> found@.contains(q),
    {
        let ghost base = stack@;
        let mut k: usize = found.len();
        while k > 0
            invariant
                k <= found@.len(),
                stack@.len() == base.len() + (found@.len() - k),
                stack@.subrange(0, base.len() as int) == base,
                forall|a: int|
                    0 <= a < found@.len() - k ==> #[trigger] stack@[base.len() + a]
                        == found@[found@.len() - 1 - a],
            decreases k,
        {
            k -= 1;
            let ghost held = stack@;
            stack.push(found[k]);
            assert(stack@.subrange(0, base.len() as int) =~= held.subrange(0, base.len() as int));
        }
        proof {
            let top = stack@.subrange(base.len() as int, stack@.len() as int);
            assert forall|q: usize| top.contains(q) <==> found@.contains(q) by {
                if top.contains(q) {
                    let at = choose|at: int| 0 <= at < top.len() && top[at] == q;
                    assert(stack@[base.len() + at] == found@[found@.len() - 1 - at]);
                }
                if found@.contains(q) {
                    let at = choose|at: int| 0 <= at < found@.len() && found@[at] == q;
                    assert(top[found@.len() - 1 - at] == stack@[base.len() + (found@.len() - 1
                        - at)]);
                }
            }
        }
    }

    /// Grows the cluster seeded at `index`, whose neighbours are `found`.
    ///
    /// The points still to be tried wait on a stack. One that has no
    /// cluster yet gets the cluster's number; if it had not been looked at,
    /// it counts as looked at and as having a cluster, and if it is dense
    /// too, its neighbours go on the stack.
    fn expand_cluster(
        &mut self,
        data: &Matrix,
        index: usize,
        found: Vec<usize>,
        Ghost(before): Ghost<Scan>,
    )
        requires
            index < data@.len(),
            before.labels.len() == data@.len(),
            !before.visited.contains(index),
            forall|x: usize| before.visited.contains(x) ==> x < data@.len(),
            old(self).is_visited@ == before.visited.insert(index),
            old(self).is_in_cluster@ == before.assigned.insert(index),
            old(self).partitions@ == before.labels.update(
                index as int,
                old(self).current_clusters,
            ),
            found@ == neighbours(data@, old(self).epsilon, index as int, data@.len() as int),
        ensures
            final(self).min_points == old(self).min_points,
            final(self).epsilon == old(self).epsilon,
            final(self).current_clusters == old(self).current_clusters,
            final(self).is_noise == old(self).is_noise,
            final(self).is_visited@ == before.visited.insert(index).union(
                old(self).ground(*data).touched(before, index),
            ),
            final(self).is_in_cluster@ == before.assigned.insert(index).union(
                old(self).ground(*data).touched(before, index).difference(before.visited),
            ),
            final(self).partitions@ == Seq::new(
                before.labels.len(),
                |q: int|
                    if q == index || old(self).ground(*data).touched(before, index).contains(
                        q as usize,
                    ) {
                        old(self).current_clusters
                    } else {
                        before.labels[q]
                    },
            ),
            forall|x: usize| final(self).is_visited@.contains(x) ==> x < data@.len(),
    {
        let n: usize = data.nrows();
        let label: i32 = self.current_clusters;
        let ghost g = self.ground(*data);
        let mut stack: Vec<usize> = Vec::new();
        Self::push_reversed(&mut stack, &found);
        let ghost mut done: Set<usize> = Set::empty();
        proof {
            lemma_neighbours(data@, self.epsilon, index as int, n as int);
            assert(stack@.subrange(0, stack@.len() as int) =~= stack@);
            assert forall|k: int| 0 <= k < stack@.len() implies #[trigger] stack@[k] < n
                && g.offered(before, index, stack@[k]) by {
                let top = stack@.subrange(0, stack@.len() as int);
                assert(top[k] == stack@[k]);
                assert(top.contains(stack@[k]));
                assert(found@.contains(stack@[k]));
                let at = choose|at: int| 0 <= at < found@.len() && found@[at] == stack@[k];
                assert(neighbours(data@, self.epsilon, index as int, n as int)[at] == stack@[k]);
                assert(g.near(index, stack@[k]));
                assert(g.expands(before, index, index));
            }
            assert(self.state().visited =~= before.visited.insert(index).union(done));
            assert(self.state().assigned =~= before.assigned.insert(index).union(
                done.difference(before.visited),
            ));
            assert(g.growing(before, index, label, done, stack@, self.state()));
        }
        while stack.len() > 0
            invariant
                n == data@.len(),
                index < n,
                g == self.ground(*data),
                label == self.current_clusters,
                self.min_points == old(self).min_points,
                self.epsilon == old(self).epsilon,
                self.current_clusters == old(self).current_clusters,
                self.is_noise == old(self).is_noise,
                before.labels.len() == n,
                forall|x: usize| self.is_visited@.contains(x) ==> x < n,
                g.growing(before, index, label, done, stack@, self.state()),
            decreases unvisited(n as nat, self.is_visited@).len(), stack@.len(),
        {
            let ghost now = self.state();
            let ghost held = stack@;
            let point: usize = match stack.pop() {
                Some(point) => point,
                None => 0,
            };
            assert(point == held.last() && stack@ == held.drop_last());
            assert(held[held.len() - 1] < n);
            if !self.is_in_cluster.contains(&point) {
                self.partitions.set(point, label);
                if !self.is_visited.contains(&point) {
                    proof {
                        lemma_unvisited(n as nat, self.is_visited@, point);
                    }
                    self.is_visited.insert(point);
                    self.is_in_cluster.insert(point);
                    let close_by = self.get_neighbours(data, point);
                    if close_by.len() >= self.min_points {
                        let ghost rest = stack@;
                        Self::push_reversed(&mut stack, &close_by);
                        proof {
                            let pushed = stack@.subrange(rest.len() as int, stack@.len() as int);
                            lemma_neighbours(data@, self.epsilon, point as int, n as int);
                            assert forall|q: usize| pushed.contains(q) <==> g.near(point, q) by {
                                if pushed.contains(q) {
                                    assert(close_by@.contains(q));
                                    let at = choose|at: int|
                                        0 <= at < close_by@.len() && close_by@[at] == q;
                                    assert(neighbours(
                                        data@,
                                        self.epsilon,
                                        point as int,
                                        n as int,
                                    )[at] == q);
                                }
                                if g.near(point, q) {
                                    assert(close_by@.contains(q));
                                }
                            }
                            assert(stack@ =~= rest + pushed);
                            g.lemma_take_in(
                                before,
                                index,
                                label,
                                done,
                                held,
                                now,
                                pushed,
                                self.state(),
                            );
                        }
                    } else {
                        proof {
                            assert(stack@ =~= held.drop_last() + Seq::<usize>::empty());
                            g.lemma_take_in(
                                before,
                                index,
                                label,
                                done,
                                held,
                                now,
                                Seq::empty(),
                                self.state(),
                            );
                        }
                    }
                } else {
                    proof {
                        assert(stack@ =~= held.drop_last() + Seq::<usize>::empty());
                        g.lemma_take_in(
                            before,
                            index,
                            label,
                            done,
                            held,
                            now,
                            Seq::empty(),
                            self.state(),
                        );
                    }
                }
                proof {
                    done = done.insert(point);
                }
            } else {
                proof {
                    g.lemma_pass_over(before, index, label, done, held, now);
                }
            }
        }
        proof {
            assert(stack@ =~= Seq::<usize>::empty());
            g.lemma_grown(before, index, label, done, self.state());
            assert(self.partitions@ =~= Seq::new(
                before.labels.len(),
                |q: int|
                    if q == index || g.touched(before, index).contains(q as usize) {
                        label
                    } else {
                        before.labels[q]
                    },
            ));
        }
    }

    /// Labels every row of `data` by its cluster.
    ///
    /// The points have their turn in row order; [`Ground::visit`] says what
    /// a turn does. A matrix without rows or columns is refused, and so is
    /// one with more rows than an `i32` can number; a refusal leaves the
    /// engine as it was. Otherwise every point has been looked at in the
    /// end.
    pub fn fit_predict(&mut self, data: &Matrix) -> (r: Result<Vec<i32>, ClusterError>)
        ensures
            r is Ok <==> 0 < data@.len() < i32::MAX && matrix_cols(*data) > 0,
            r matches Err(e) ==> *final(self) == *old(self) && e == (if data@.len() == 0 {
                ClusterError::EmptyInput
            } else if matrix_cols(*data) == 0 {
                ClusterError::ZeroDimensions
            } else {
                ClusterError::TooLarge
            }),
            r matches Ok(labels) ==> {
                &&& final(self).state() == old(self).ground(*data).scanned(data@.len() as int)
                &&& labels@ == final(self).partitions@
                &&& labels@.len() == data@.len()
                &&& final(self).is_visited@ == below(data@.len())
                &&& final(self).is_visited@.len() == data@.len()
                &&& final(self).min_points == old(self).min_points
                &&& final(self).epsilon == old(self).epsilon
                &&& forall|q: int|
                    0 <= q < labels@.len() ==> 0 <= #[trigger] labels@[q]
                        < final(self).current_clusters
            },
    {
        let n: usize = data.nrows();
        if n == 0 {
            return Err(ClusterError::EmptyInput);
        }
        if data.ncols() == 0 {
            return Err(ClusterError::ZeroDimensions);
        }
        match to_i32(n) {
            Some(count) => {
                if count == i32::MAX {
                    return Err(ClusterError::TooLarge);
                }
            },
            None => {
                return Err(ClusterError::TooLarge);
            },
        }
        let ghost g = self.ground(*data);
        self.initialize(data);
        let mut i: usize = 0;
        while i < n
            invariant
                n == data@.len(),
                0 < n < i32::MAX,
                i <= n,
                g == self.ground(*data),
                self.min_points == old(self).min_points,
                self.epsilon == old(self).epsilon,
                self.state() == g.scanned(i as int),
                self.partitions@.len() == n,
                1 <= self.current_clusters <= i + 1,
                forall|x: usize| self.is_visited@.contains(x) ==> x < n,
                forall|x: usize| x < i ==> self.is_visited@.contains(x),
                forall|q: int|
                    0 <= q < n ==> 0 <= #[trigger] self.partitions@[q] < self.current_clusters,
            decreases n - i,
        {
            let ghost before = self.state();
            if !self.is_visited.contains(&i) {
                self.is_visited.insert(i);
                let found = self.get_neighbours(data, i);
                if found.len() <= self.min_points {
                    self.is_noise.insert(i);
                    assert(self.state() == g.visit(before, i));
                } else {
                    self.partitions.set(i, self.current_clusters);
                    self.is_in_cluster.insert(i);
                    self.expand_cluster(data, i, found, Ghost(before));
                    self.current_clusters += 1;
                    proof {
                        let turn = g.visit(before, i);
                        assert(g.starts(i));
                        assert(self.state().visited =~= turn.visited);
                        assert(self.state().assigned =~= turn.assigned);
                        assert(self.state().labels =~= turn.labels);
                        assert(self.state().noise == turn.noise);
                        assert(self.state().next == turn.next);
                    }
                    assert(self.state() == g.visit(before, i));
                }
            }
            i += 1;
        }
        proof {
            assert(self.is_visited@ =~= below(n as nat));
            lemma_below(n as nat);
        }
        Ok(self.partitions.clone())
    }
}

} // verus!
