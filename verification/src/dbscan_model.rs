//! The DBSCAN model: what a scan over the points yields, as a function of
//! the points, the radius and the neighbour count.

use crate::mathfuncs::distance;
use vstd::prelude::*;

verus! {

/// Whether the points `p` and `q` lie within `eps` of each other.
pub open spec fn close(points: Seq<Seq<i32>>, eps: u64, p: int, q: int) -> bool {
    distance(points[p], points[q]) <= eps
}

/// The points among the first `upto` that lie within `eps` of point `p`, in
/// row order. The point itself is one of them.
pub open spec fn neighbours(points: Seq<Seq<i32>>, eps: u64, p: int, upto: int) -> Seq<usize>
    decreases upto,
{
    if upto <= 0 {
        Seq::empty()
    } else {
        let rest = neighbours(points, eps, p, upto - 1);
        if close(points, eps, p, upto - 1) {
            rest.push((upto - 1) as usize)
        } else {
            rest
        }
    }
}

/// The number of points within `eps` of point `p`.
pub open spec fn degree(points: Seq<Seq<i32>>, eps: u64, p: int) -> nat {
    neighbours(points, eps, p, points.len() as int).len()
}

/// The state of a scan: the points whose neighbourhood was looked at, the
/// points that were given a cluster when first looked at, the points that
/// had too few neighbours to start a cluster when their turn came, the
/// label of every point, and the number of the next cluster.
pub struct Scan {
    pub visited: Set<usize>,
    pub assigned: Set<usize>,
    pub noise: Set<usize>,
    pub labels: Seq<i32>,
    pub next: int,
}

/// What a scan goes by: the points, the radius and the neighbour count.
pub struct Ground {
    pub points: Seq<Seq<i32>>,
    pub eps: u64,
    pub min_points: nat,
}

impl Ground {
    /// Whether `p` has at least `min_points` points within the radius, so
    /// that a cluster that reaches it goes on through it.
    pub open spec fn dense(self, p: usize) -> bool {
        degree(self.points, self.eps, p as int) >= self.min_points
    }

    /// Whether `p` has more than `min_points` points within the radius, so
    /// that a cluster starts at it.
    pub open spec fn starts(self, p: usize) -> bool {
        degree(self.points, self.eps, p as int) > self.min_points
    }

    /// Whether `q` is a point within the radius of the point `p`.
    pub open spec fn near(self, p: usize, q: usize) -> bool {
        p < self.points.len() && q < self.points.len() && close(
            self.points,
            self.eps,
            p as int,
            q as int,
        )
    }

    /// Whether `trail` leads from the seed `s` of a cluster to a point that
    /// the cluster takes in, given the state `before` the seed was looked
    /// at: each point lies within the radius of the one before it, none
    /// after the seed had a cluster already, and every point between the
    /// seed and the last had not been looked at and is dense.
    pub open spec fn is_trail(self, before: Scan, s: usize, trail: Seq<usize>) -> bool {
        &&& trail.len() >= 2
        &&& trail[0] == s
        &&& forall|k: int|
            0 <= k < trail.len() - 1 ==> self.near(#[trigger] trail[k], trail[k + 1])
        &&& forall|k: int|
            1 <= k < trail.len() ==> !before.assigned.contains(#[trigger] trail[k]) && trail[k]
                != s
        &&& forall|k: int|
            1 <= k < trail.len() - 1 ==> !before.visited.contains(#[trigger] trail[k])
                && self.dense(trail[k])
    }

    /// Whether the cluster seeded at `s` takes in the point `q`.
    pub open spec fn reached(self, before: Scan, s: usize, q: usize) -> bool {
        exists|trail: Seq<usize>| #[trigger] self.is_trail(before, s, trail) && trail.last() == q
    }

    /// The points that the cluster seeded at `s` takes in.
    pub open spec fn touched(self, before: Scan, s: usize) -> Set<usize> {
        Set::new(|q: usize| self.reached(before, s, q))
    }

    /// The state after point `i` had its turn in the scan.
    ///
    /// A point looked at already is passed over. Otherwise it counts as
    /// looked at. With too few neighbours it is noise, and keeps its label
    /// unless a later cluster takes it in. With enough it starts the next
    /// cluster: it and every point that the cluster takes in get the
    /// cluster's number; those of them that had not been looked at count
    /// as looked at and as having a cluster.
    pub open spec fn visit(self, before: Scan, i: usize) -> Scan {
        if before.visited.contains(i) {
            before
        } else if !self.starts(i) {
            Scan { visited: before.visited.insert(i), noise: before.noise.insert(i), ..before }
        } else {
            let touched = self.touched(before, i);
            Scan {
                visited: before.visited.insert(i).union(touched),
                assigned: before.assigned.insert(i).union(touched.difference(before.visited)),
                labels: Seq::new(
                    before.labels.len(),
                    |q: int|
                        if q == i || touched.contains(q as usize) {
                            before.next as i32
                        } else {
                            before.labels[q]
                        },
                ),
                next: before.next + 1,
                noise: before.noise,
            }
        }
    }

    /// The state after the first `upto` points had their turn, from no
    /// point looked at, every label `0` and `1` as the first cluster.
    pub open spec fn scanned(self, upto: int) -> Scan
        decreases upto,
    {
        if upto <= 0 {
            Scan {
                visited: Set::empty(),
                assigned: Set::empty(),
                noise: Set::empty(),
                labels: Seq::new(self.points.len(), |q: int| 0i32),
                next: 1,
            }
        } else {
            self.visit(self.scanned(upto - 1), (upto - 1) as usize)
        }
    }

    /// Whether the neighbours of `p` are offered to the cluster seeded at
    /// `s`: `p` is the seed, or a dense point that the cluster takes in and
    /// that had not been looked at.
    pub open spec fn expands(self, before: Scan, s: usize, p: usize) -> bool {
        p == s || (self.reached(before, s, p) && !before.visited.contains(p) && self.dense(p))
    }

    /// Whether some point whose neighbours are offered to the cluster
    /// seeded at `s` has `q` within its radius.
    pub open spec fn offered(self, before: Scan, s: usize, q: usize) -> bool {
        exists|p: usize| self.expands(before, s, p) && #[trigger] self.near(p, q)
    }

    /// Whether a cluster seeded at `s` and numbered `label` stands midway in
    /// its growth: `done` are the points taken in so far, `stack` those
    /// still to be tried.
    pub open spec fn growing(
        self,
        before: Scan,
        s: usize,
        label: i32,
        done: Set<usize>,
        stack: Seq<usize>,
        now: Scan,
    ) -> bool {
        &&& forall|w: usize| done.contains(w) ==> #[trigger] self.reached(before, s, w)
        &&& forall|k: int|
            0 <= k < stack.len() ==> #[trigger] stack[k] < self.points.len() && self.offered(
                before,
                s,
                stack[k],
            )
        &&& forall|p: usize, q: usize|
            (p == s || (done.contains(p) && !before.visited.contains(p) && self.dense(p)))
                && #[trigger] self.near(p, q) && !before.assigned.contains(q) && q != s
                ==> done.contains(q) || stack.contains(q)
        &&& now.visited == before.visited.insert(s).union(done)
        &&& now.assigned == before.assigned.insert(s).union(done.difference(before.visited))
        &&& now.labels.len() == self.points.len()
        &&& forall|q: int|
            0 <= q < now.labels.len() ==> #[trigger] now.labels[q] == (if q == s || done.contains(
                q as usize,
            ) {
                label
            } else {
                before.labels[q]
            })
    }
}

/// The neighbours of `p` among the first `upto` points are points within
/// the radius, and every such point is among them.
pub proof fn lemma_neighbours(points: Seq<Seq<i32>>, eps: u64, p: int, upto: int)
    requires
        0 <= upto <= usize::MAX,
    ensures
        neighbours(points, eps, p, upto).len() <= upto,
        forall|k: int|
            0 <= k < neighbours(points, eps, p, upto).len() ==> #[trigger] neighbours(
                points,
                eps,
                p,
                upto,
            )[k] < upto && close(points, eps, p, neighbours(points, eps, p, upto)[k] as int),
        forall|q: usize|
            q < upto && close(points, eps, p, q as int) ==> neighbours(
                points,
                eps,
                p,
                upto,
            ).contains(q),
    decreases upto,
{
    if upto > 0 {
        lemma_neighbours(points, eps, p, upto - 1);
        let rest = neighbours(points, eps, p, upto - 1);
        let all = neighbours(points, eps, p, upto);
        assert forall|q: usize| q < upto && close(points, eps, p, q as int) implies all.contains(
            q,
        ) by {
            if q < upto - 1 {
                let at = choose|at: int| 0 <= at < rest.len() && rest[at] == q;
                assert(all[at] == q);
            } else {
                assert(all[all.len() - 1] == q);
            }
        }
    }
}

/// The points below `n`.
pub open spec fn below(n: nat) -> Set<usize> {
    Set::new(|x: usize| x < n)
}

/// The points below `n` that are not in `visited`.
pub open spec fn unvisited(n: nat, visited: Set<usize>) -> Set<usize> {
    Set::new(|x: usize| x < n && !visited.contains(x))
}

/// There are `n` points below `n`.
pub proof fn lemma_below(n: nat)
    requires
        n <= usize::MAX,
    ensures
        below(n).finite(),
        below(n).len() == n,
    decreases n,
{
    if n == 0 {
        assert(below(0) =~= Set::<usize>::empty());
    } else {
        lemma_below((n - 1) as nat);
        assert(below(n) =~= below((n - 1) as nat).insert((n - 1) as usize));
    }
}

/// The points not looked at are finitely many, and one fewer once another
/// is looked at.
pub proof fn lemma_unvisited(n: nat, visited: Set<usize>, x: usize)
    requires
        n <= usize::MAX,
    ensures
        unvisited(n, visited).finite(),
        x < n && !visited.contains(x) ==> unvisited(n, visited.insert(x)).len() + 1 == unvisited(
            n,
            visited,
        ).len(),
{
    lemma_below(n);
    vstd::set_lib::lemma_len_subset(unvisited(n, visited), below(n));
    if x < n && !visited.contains(x) {
        assert(unvisited(n, visited.insert(x)) =~= unvisited(n, visited).remove(x));
    }
}

impl Ground {
    /// A point offered to a cluster that had no cluster before and is not
    /// the seed is taken in.
    pub proof fn lemma_offer_taken(self, before: Scan, s: usize, p: usize, q: usize)
        requires
            self.expands(before, s, p),
            self.near(p, q),
            !before.assigned.contains(q),
            q != s,
            s < self.points.len(),
        ensures
            self.reached(before, s, q),
    {
        if p == s {
            let trail = seq![s, q];
            assert(self.is_trail(before, s, trail));
            assert(trail.last() == q);
        } else {
            let to_p = choose|trail: Seq<usize>| #[trigger]
                self.is_trail(before, s, trail) && trail.last() == p;
            let trail = to_p.push(q);
            assert forall|k: int| 0 <= k < trail.len() - 1 implies self.near(
                #[trigger] trail[k],
                trail[k + 1],
            ) by {
                if k < to_p.len() - 1 {
                    assert(self.near(to_p[k], to_p[k + 1]));
                }
            }
            assert forall|k: int| 1 <= k < trail.len() implies !before.assigned.contains(
                #[trigger] trail[k],
            ) && trail[k] != s by {
                if k < to_p.len() {
                    assert(!before.assigned.contains(to_p[k]) && to_p[k] != s);
                }
            }
            assert forall|k: int| 1 <= k < trail.len() - 1 implies !before.visited.contains(
                #[trigger] trail[k],
            ) && self.dense(trail[k]) by {
                if k < to_p.len() - 1 {
                    assert(!before.visited.contains(to_p[k]) && self.dense(to_p[k]));
                }
            }
            assert(self.is_trail(before, s, trail));
            assert(trail.last() == q);
        }
    }

    /// A set that holds every point offered by the seed and by its own
    /// dense, newly looked-at points holds every point that the cluster
    /// takes in.
    pub proof fn lemma_closed_holds_all(
        self,
        before: Scan,
        s: usize,
        done: Set<usize>,
        trail: Seq<usize>,
    )
        requires
            self.is_trail(before, s, trail),
            forall|p: usize, q: usize|
                (p == s || (done.contains(p) && !before.visited.contains(p) && self.dense(p)))
                    && #[trigger] self.near(p, q) && !before.assigned.contains(q) && q != s
                    ==> done.contains(q),
        ensures
            done.contains(trail.last()),
        decreases trail.len(),
    {
        let q = trail.last();
        let p = trail[trail.len() - 2];
        assert(self.near(trail[trail.len() - 2], trail[trail.len() - 2 + 1]));
        assert(!before.assigned.contains(trail[trail.len() - 1]) && trail[trail.len() - 1] != s);
        if trail.len() > 2 {
            let shorter = trail.drop_last();
            assert forall|k: int| 0 <= k < shorter.len() - 1 implies self.near(
                #[trigger] shorter[k],
                shorter[k + 1],
            ) by {
                assert(self.near(trail[k], trail[k + 1]));
            }
            assert forall|k: int| 1 <= k < shorter.len() implies !before.assigned.contains(
                #[trigger] shorter[k],
            ) && shorter[k] != s by {
                assert(!before.assigned.contains(trail[k]) && trail[k] != s);
            }
            assert forall|k: int| 1 <= k < shorter.len() - 1 implies !before.visited.contains(
                #[trigger] shorter[k],
            ) && self.dense(shorter[k]) by {
                assert(!before.visited.contains(trail[k]) && self.dense(trail[k]));
            }
            assert(self.is_trail(before, s, shorter));
            self.lemma_closed_holds_all(before, s, done, shorter);
            assert(!before.visited.contains(trail[trail.len() - 2]) && self.dense(
                trail[trail.len() - 2],
            ));
        }
    }

    /// A point on the stack that has a cluster already can be dropped.
    pub proof fn lemma_pass_over(
        self,
        before: Scan,
        s: usize,
        label: i32,
        done: Set<usize>,
        stack: Seq<usize>,
        now: Scan,
    )
        requires
            self.growing(before, s, label, done, stack, now),
            stack.len() > 0,
            now.assigned.contains(stack.last()),
        ensures
            self.growing(before, s, label, done, stack.drop_last(), now),
    {
        let rest = stack.drop_last();
        let e = stack.last();
        assert forall|k: int| 0 <= k < rest.len() implies #[trigger] rest[k] < self.points.len()
            && self.offered(before, s, rest[k]) by {
            assert(rest[k] == stack[k]);
        }
        assert forall|p: usize, q: usize|
            (p == s || (done.contains(p) && !before.visited.contains(p) && self.dense(p)))
                && #[trigger] self.near(p, q) && !before.assigned.contains(q) && q
                != s implies done.contains(q) || rest.contains(q) by {
            if !done.contains(q) {
                assert(stack.contains(q));
                let at = choose|at: int| 0 <= at < stack.len() && stack[at] == q;
                assert(at < rest.len());
                assert(rest[at] == q);
            }
        }
    }

    /// A point on the stack without a cluster is taken in. Its neighbours
    /// are offered in turn if it had not been looked at and is dense; then
    /// `pushed` are those neighbours.
    pub proof fn lemma_take_in(
        self,
        before: Scan,
        s: usize,
        label: i32,
        done: Set<usize>,
        stack: Seq<usize>,
        now: Scan,
        pushed: Seq<usize>,
        after: Scan,
    )
        requires
            self.growing(before, s, label, done, stack, now),
            s < self.points.len(),
            self.points.len() <= usize::MAX,
            stack.len() > 0,
            !now.assigned.contains(stack.last()),
            after.labels == now.labels.update(stack.last() as int, label),
            now.visited.contains(stack.last()) ==> after.visited == now.visited && after.assigned
                == now.assigned && pushed.len() == 0,
            !now.visited.contains(stack.last()) ==> after.visited == now.visited.insert(
                stack.last(),
            ) && after.assigned == now.assigned.insert(stack.last()),
            !now.visited.contains(stack.last()) && self.dense(stack.last()) ==> (forall|q: usize|
                pushed.contains(q) <==> self.near(stack.last(), q)),
            !self.dense(stack.last()) ==> pushed.len() == 0,
        ensures
            self.growing(
                before,
                s,
                label,
                done.insert(stack.last()),
                stack.drop_last() + pushed,
                after,
            ),
    {
        let rest = stack.drop_last();
        let e = stack.last();
        let more = done.insert(e);
        let next = rest + pushed;
        assert(stack[stack.len() - 1] < self.points.len() && self.offered(before, s, e));
        let parent = choose|p: usize| self.expands(before, s, p) && #[trigger] self.near(p, e);
        self.lemma_offer_taken(before, s, parent, e);
        assert forall|k: int| 0 <= k < next.len() implies #[trigger] next[k] < self.points.len()
            && self.offered(before, s, next[k]) by {
            if k < rest.len() {
                assert(next[k] == stack[k]);
            } else {
                let q = pushed[k - rest.len()];
                assert(pushed.contains(q));
                assert(self.near(e, q));
                assert(self.expands(before, s, e));
            }
        }
        assert forall|p: usize, q: usize|
            (p == s || (more.contains(p) && !before.visited.contains(p) && self.dense(p)))
                && #[trigger] self.near(p, q) && !before.assigned.contains(q) && q
                != s implies more.contains(q) || next.contains(q) by {
            if p == e && !done.contains(e) && p != s {
                assert(!now.visited.contains(e));
                assert(pushed.contains(q));
                let at = choose|at: int| 0 <= at < pushed.len() && pushed[at] == q;
                assert(next[rest.len() + at] == q);
            } else {
                if !done.contains(q) && q != e {
                    assert(stack.contains(q));
                    let at = choose|at: int| 0 <= at < stack.len() && stack[at] == q;
                    assert(next[at] == q);
                }
            }
        }
        assert(after.visited =~= before.visited.insert(s).union(more));
        assert(after.assigned =~= before.assigned.insert(s).union(more.difference(before.visited)));
    }

    /// When nothing is left to try, the points taken in are those that the
    /// cluster takes in.
    pub proof fn lemma_grown(
        self,
        before: Scan,
        s: usize,
        label: i32,
        done: Set<usize>,
        now: Scan,
    )
        requires
            self.growing(before, s, label, done, Seq::empty(), now),
        ensures
            done == self.touched(before, s),
    {
        let stack = Seq::<usize>::empty();
        assert forall|q: usize| self.reached(before, s, q) implies done.contains(q) by {
            let trail = choose|trail: Seq<usize>| #[trigger]
                self.is_trail(before, s, trail) && trail.last() == q;
            assert forall|p: usize, r: usize|
                (p == s || (done.contains(p) && !before.visited.contains(p) && self.dense(p)))
                    && #[trigger] self.near(p, r) && !before.assigned.contains(r) && r
                    != s implies done.contains(r) by {
                assert(done.contains(r) || stack.contains(r));
            }
            self.lemma_closed_holds_all(before, s, done, trail);
        }
        assert(done =~= self.touched(before, s));
    }
}

impl Ground {
    /// A turn changes no label but that of a point which starts a cluster
    /// and those of the points that the cluster takes in: noise stays noise
    /// until a cluster reaches it.
    pub proof fn lemma_label_kept(self, before: Scan, i: usize, q: usize)
        requires
            q < before.labels.len(),
            !self.starts(i) || before.visited.contains(i) || (q != i && !self.reached(
                before,
                i,
                q,
            )),
        ensures
            self.visit(before, i).labels[q as int] == before.labels[q as int],
    {
    }

    /// After its turn a point counts as looked at, and so does every point
    /// that did before.
    pub proof fn lemma_turn_looks(self, before: Scan, i: usize, x: usize)
        ensures
            self.visit(before, i).visited.contains(i),
            before.visited.contains(x) ==> self.visit(before, i).visited.contains(x),
    {
    }
}

} // verus!
