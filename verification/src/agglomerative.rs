//! The hierarchical engine: it builds the merge tree of a point matrix, cuts
//! it into a requested number of clusters and labels the points by them.

use crate::convert::to_i32;
use crate::error::ClusterError;
use crate::mathfuncs::{floor_div, lemma_mean_fits};
use crate::matrix::{matrix_cols, rows_view, Matrix};
use crate::pairs::{lemma_closest_found, nearest_pair};
use crate::tree::{
    all_owned, clusters_at, covered, cut, forest, holds, leaf_trees, lemma_cut_length,
    lemma_cut_partitions, lemma_grow_length, lemma_leaves, lemma_merge_step, lemma_owner_found,
    lemma_slot_found, lemma_sort_length, lemma_sums_bounded, lemma_tree_covers, merge_all,
    merge_step, owner, sort_desc, tree_means, tree_of, Tree,
};
use std::rc::Rc;
use vstd::prelude::*;

verus! {

/// A node of the merge tree: one point, or the merge of two nodes.
pub struct Cluster {
    cluster_1: Option<Rc<Cluster>>,
    cluster_2: Option<Rc<Cluster>>,
    members: Vec<usize>,
    index: usize,
    center: Vec<i128>,
}

/// `members` as the model numbers them.
pub open spec fn as_nats(members: Seq<usize>) -> Seq<nat> {
    members.map_values(|m: usize| m as nat)
}

/// `sums` as the model holds them.
pub open spec fn as_sums(sums: Seq<i128>) -> Seq<int> {
    sums.map_values(|v: i128| v as int)
}

impl View for Cluster {
    type V = Tree;

    closed spec fn view(&self) -> Tree {
        self.tree()
    }
}

impl Cluster {
    /// The tree that this node stands for.
    pub closed spec fn tree(self) -> Tree
        decreases self,
    {
        match (self.cluster_1, self.cluster_2) {
            (Some(a), Some(b)) => Tree::Node {
                index: self.index as nat,
                first: Box::new(a.tree()),
                second: Box::new(b.tree()),
            },
            _ => Tree::Leaf { item: self.members@[0] as nat, sums: as_sums(self.center@) },
        }
    }

    /// Whether the node is well formed: its tree is valid, it has two
    /// children or none, its children are well formed, and its member list,
    /// merge index and centroid sums are those of its tree.
    #[verifier::type_invariant]
    spec fn wf(self) -> bool
        decreases self,
    {
        &&& self@.valid()
        &&& as_nats(self.members@) == self@.members()
        &&& as_sums(self.center@) == self@.sums()
        &&& self.index == self@.index()
        &&& match (self.cluster_1, self.cluster_2) {
            (Some(a), Some(b)) => a.wf() && b.wf(),
            (None, None) => true,
            _ => false,
        }
    }

    /// The points below this node.
    pub fn members(&self) -> (members: &Vec<usize>)
        ensures
            as_nats(members@) == self@.members(),
            self@.valid(),
    {
        proof {
            use_type_invariant(self);
        }
        &self.members
    }

    /// The merge index: `0` for a leaf.
    pub fn index(&self) -> (index: usize)
        ensures
            index == self@.index(),
    {
        proof {
            use_type_invariant(self);
        }
        self.index
    }

    /// The sum of the coordinates of the points below this node.
    pub fn center(&self) -> (center: &Vec<i128>)
        ensures
            as_sums(center@) == self@.sums(),
    {
        proof {
            use_type_invariant(self);
        }
        &self.center
    }

    /// The two nodes that were merged into this one; nothing for a leaf.
    pub fn children(&self) -> (pair: Option<(Rc<Cluster>, Rc<Cluster>)>)
        ensures
            pair is None <==> self@ is Leaf,
            pair matches Some(both) ==> both.0@ == *self@->first && both.1@ == *self@->second,
    {
        proof {
            use_type_invariant(self);
        }
        match (&self.cluster_1, &self.cluster_2) {
            (Some(first), Some(second)) => Some((Rc::clone(first), Rc::clone(second))),
            _ => None,
        }
    }

    /// The leaf for point `item` with the coordinates `center`.
    fn new(item: usize, center: &Vec<i32>) -> (leaf: Cluster)
        ensures
            leaf.wf(),
            leaf@ == (Tree::Leaf {
                item: item as nat,
                sums: center@.map_values(|v: i32| v as int),
            }),
    {
        let mut sums: Vec<i128> = Vec::new();
        let mut i: usize = 0;
        while i < center.len()
            invariant
                i <= center@.len(),
                sums@.len() == i,
                forall|k: int| 0 <= k < i ==> sums@[k] == center@[k],
            decreases center@.len() - i,
        {
            sums.push(center[i] as i128);
            i += 1;
        }
        let mut members: Vec<usize> = Vec::new();
        members.push(item);
        proof {
            assert(as_sums(sums@) =~= center@.map_values(|v: i32| v as int));
            assert(as_nats(members@) =~= seq![item as nat]);
        }
        Cluster { cluster_1: None, cluster_2: None, members, index: 0, center: sums }
    }

    /// The merge of two nodes, numbered `index`.
    fn next_cluster(cluster_1: Rc<Cluster>, cluster_2: Rc<Cluster>, index: usize) -> (merged:
        Cluster)
        requires
            cluster_1.wf(),
            cluster_2.wf(),
            index > cluster_1@.index(),
            index > cluster_2@.index(),
            cluster_1@.sums().len() == cluster_2@.sums().len(),
            (cluster_1@.members() + cluster_2@.members()).no_duplicates(),
        ensures
            merged.wf(),
            merged@ == (Tree::Node {
                index: index as nat,
                first: Box::new(cluster_1@),
                second: Box::new(cluster_2@),
            }),
    {
        let mut members: Vec<usize> = Vec::new();
        let mut i: usize = 0;
        while i < cluster_1.members.len()
            invariant
                i <= cluster_1.members@.len(),
                members@ == cluster_1.members@.take(i as int),
            decreases cluster_1.members@.len() - i,
        {
            members.push(cluster_1.members[i]);
            assert(cluster_1.members@.take(i + 1) =~= cluster_1.members@.take(i as int).push(
                cluster_1.members@[i as int],
            ));
            i += 1;
        }
        assert(cluster_1.members@.take(i as int) =~= cluster_1.members@);
        let mut i: usize = 0;
        while i < cluster_2.members.len()
            invariant
                i <= cluster_2.members@.len(),
                members@ == cluster_1.members@ + cluster_2.members@.take(i as int),
            decreases cluster_2.members@.len() - i,
        {
            members.push(cluster_2.members[i]);
            assert(cluster_1.members@ + cluster_2.members@.take(i + 1) =~= (cluster_1.members@
                + cluster_2.members@.take(i as int)).push(cluster_2.members@[i as int]));
            i += 1;
        }
        assert(cluster_2.members@.take(i as int) =~= cluster_2.members@);
        proof {
            lemma_sums_bounded(cluster_1@);
            lemma_sums_bounded(cluster_2@);
        }
        let width: usize = cluster_1.center.len();
        let count_1: usize = cluster_1.members.len();
        let count_2: usize = cluster_2.members.len();
        let mut center: Vec<i128> = Vec::new();
        let mut i: usize = 0;
        while i < width
            invariant
                count_1 == cluster_1.members@.len(),
                count_2 == cluster_2.members@.len(),
                cluster_1.wf(),
                cluster_2.wf(),
                width == cluster_1.center@.len(),
                width == cluster_2.center@.len(),
                as_sums(cluster_1.center@) == cluster_1@.sums(),
                as_sums(cluster_2.center@) == cluster_2@.sums(),
                forall|c: int|
                    0 <= c < width ==> cluster_1@.members().len() * i32::MIN
                        <= #[trigger] cluster_1@.sums()[c] <= cluster_1@.members().len()
                        * i32::MAX,
                forall|c: int|
                    0 <= c < width ==> cluster_2@.members().len() * i32::MIN
                        <= #[trigger] cluster_2@.sums()[c] <= cluster_2@.members().len()
                        * i32::MAX,
                cluster_1@.members().len() == cluster_1.members@.len(),
                cluster_2@.members().len() == cluster_2.members@.len(),
                i <= width,
                center@.len() == i,
                forall|c: int|
                    0 <= c < i ==> #[trigger] center@[c] == cluster_1.center@[c]
                        + cluster_2.center@[c],
            decreases width - i,
        {
            proof {
                let n1 = cluster_1.members@.len() as int;
                let n2 = cluster_2.members@.len() as int;
                let c = i as int;
                assert(cluster_1@.sums()[c] == cluster_1.center@[c]);
                assert(cluster_2@.sums()[c] == cluster_2.center@[c]);
                assert(n1 * i32::MAX <= usize::MAX * i32::MAX) by (nonlinear_arith)
                    requires
                        0 <= n1 <= usize::MAX,
                ;
                assert(n2 * i32::MAX <= usize::MAX * i32::MAX) by (nonlinear_arith)
                    requires
                        0 <= n2 <= usize::MAX,
                ;
                assert(n1 * i32::MIN >= usize::MAX * i32::MIN) by (nonlinear_arith)
                    requires
                        0 <= n1 <= usize::MAX,
                ;
                assert(n2 * i32::MIN >= usize::MAX * i32::MIN) by (nonlinear_arith)
                    requires
                        0 <= n2 <= usize::MAX,
                ;
            }
            center.push(cluster_1.center[i] + cluster_2.center[i]);
            i += 1;
        }
        proof {
            let node = Tree::Node {
                index: index as nat,
                first: Box::new(cluster_1@),
                second: Box::new(cluster_2@),
            };
            assert(as_nats(members@) =~= cluster_1@.members() + cluster_2@.members());
            assert(as_sums(center@) =~= node.sums());
        }
        Cluster { cluster_1: Some(cluster_1), cluster_2: Some(cluster_2), members, index, center }
    }
}

/// The trees that the nodes of `all` stand for.
pub open spec fn nodes(all: Seq<Rc<Cluster>>) -> Seq<Tree> {
    Seq::new(all.len(), |i: int| all[i].tree())
}

/// Whether every node of `all` is well formed.
spec fn all_wf(all: Seq<Rc<Cluster>>) -> bool {
    forall|i: int| 0 <= i < all.len() ==> (#[trigger] all[i]).wf()
}

/// The mean of the points below `node`.
fn mean_center(node: &Cluster) -> (mean: Vec<i32>)
    requires
        node.wf(),
    ensures
        mean@ == node@.mean(),
{
    let count: usize = node.members.len();
    let width: usize = node.center.len();
    proof {
        lemma_sums_bounded(node@);
    }
    let mut mean: Vec<i32> = Vec::new();
    let mut c: usize = 0;
    while c < width
        invariant
            node.wf(),
            count == node.members@.len(),
            count == node@.members().len(),
            count >= 1,
            width == node.center@.len(),
            width == node@.sums().len(),
            forall|k: int|
                0 <= k < width ==> count * i32::MIN <= #[trigger] node@.sums()[k] <= count
                    * i32::MAX,
            c <= width,
            mean@.len() == c,
            forall|k: int| 0 <= k < c ==> #[trigger] mean@[k] == node@.mean()[k],
        decreases width - c,
    {
        proof {
            assert(node@.sums()[c as int] == node.center@[c as int]);
            lemma_mean_fits(node.center@[c as int] as int, count as int);
            assert(count * i32::MIN >= usize::MAX * i32::MIN) by (nonlinear_arith)
                requires
                    0 <= count <= usize::MAX,
            ;
        }
        mean.push(floor_div(node.center[c], count) as i32);
        c += 1;
    }
    assert(mean@ =~= node@.mean());
    mean
}

/// `list` in descending order of merge index; nodes with the same index keep
/// the order in which they stood.
fn sort_by_index(list: &Vec<Rc<Cluster>>) -> (sorted: Vec<Rc<Cluster>>)
    requires
        all_wf(list@),
    ensures
        nodes(sorted@) == sort_desc(nodes(list@)),
        all_wf(sorted@),
{
    let n: usize = list.len();
    let ghost trees = nodes(list@);
    let mut sorted: Vec<Rc<Cluster>> = Vec::new();
    let mut i: usize = 0;
    assert(trees.take(0) =~= Seq::<Tree>::empty());
    while i < n
        invariant
            n == list@.len(),
            trees == nodes(list@),
            all_wf(list@),
            all_wf(sorted@),
            i <= n,
            nodes(sorted@) == sort_desc(trees.take(i as int)),
        decreases n - i,
    {
        let item = Rc::clone(&list[i]);
        let ghost placed = nodes(sorted@);
        let mut at: usize = 0;
        while at < sorted.len() && sorted[at].index >= item.index
            invariant
                all_wf(sorted@),
                item.wf(),
                placed == nodes(sorted@),
                at <= sorted@.len(),
                forall|k: int| 0 <= k < at ==> placed[k].index() >= item@.index(),
            decreases sorted@.len() - at,
        {
            at += 1;
        }
        proof {
            if at < sorted@.len() {
                assert(placed[at as int].index() < item@.index());
            }
            lemma_slot_found(placed, item@.index(), 0, at as int);
            assert(trees.take(i + 1).drop_last() =~= trees.take(i as int));
            assert(trees.take(i + 1).last() == item@);
        }
        sorted.insert(at, item);
        proof {
            assert(nodes(sorted@) =~= placed.insert(at as int, item@));
            assert forall|k: int| 0 <= k < sorted@.len() implies (#[trigger] sorted@[k]).wf() by {
                if k < at {
                } else if k > at {
                }
            }
        }
        i += 1;
    }
    assert(trees.take(n as int) =~= trees);
    sorted
}

/// Whether `members` holds `x`.
fn holds_point(members: &Vec<usize>, x: usize) -> (found: bool)
    ensures
        found == members@.contains(x),
{
    let mut i: usize = 0;
    while i < members.len()
        invariant
            i <= members@.len(),
            forall|k: int| 0 <= k < i ==> members@[k] != x,
        decreases members@.len() - i,
    {
        if members[i] == x {
            return true;
        }
        i += 1;
    }
    false
}

/// A well-formed node lists exactly the points that lie below its tree.
proof fn lemma_listed(node: &Cluster, x: usize)
    requires
        node.wf(),
    ensures
        node.members@.contains(x) <==> holds(node@, x as nat),
{
    let listed = as_nats(node.members@);
    if node.members@.contains(x) {
        let at = choose|at: int| 0 <= at < node.members@.len() && node.members@[at] == x;
        assert(listed[at] == x as nat);
    }
    if holds(node@, x as nat) {
        let at = choose|at: int| 0 <= at < listed.len() && listed[at] == x as nat;
        assert(node.members@[at] == x);
    }
}

/// The label of each point: the position of the first of `clusters` that
/// holds it.
///
/// More clusters than an `i32` can number are refused with `TooLarge`, a
/// point that no cluster holds with `UnassignedPoint`.
pub fn get_partitions(clusters: &Vec<Rc<Cluster>>, data: &Matrix) -> (r: Result<
    Vec<i32>,
    ClusterError,
>)
    ensures
        r is Ok <==> clusters@.len() <= i32::MAX && all_owned(nodes(clusters@), data@.len()),
        r matches Ok(labels) ==> labels@.len() == data@.len() && forall|x: int|
            0 <= x < data@.len() ==> #[trigger] labels@[x] == owner(
                nodes(clusters@),
                x as nat,
                0,
            ),
        r matches Err(e) ==> e == (if clusters@.len() > i32::MAX {
            ClusterError::TooLarge
        } else {
            ClusterError::UnassignedPoint
        }),
{
    let n: usize = data.nrows();
    let count: usize = clusters.len();
    if to_i32(count).is_none() {
        return Err(ClusterError::TooLarge);
    }
    let ghost trees = nodes(clusters@);
    let mut partitions: Vec<i32> = Vec::new();
    let mut i: usize = 0;
    while i < n
        invariant
            n == data@.len(),
            count == clusters@.len(),
            count <= i32::MAX,
            trees == nodes(clusters@),
            i <= n,
            partitions@.len() == i,
            forall|x: nat| x < i ==> #[trigger] owner(trees, x, 0) < count,
            forall|x: int| 0 <= x < i ==> #[trigger] partitions@[x] == owner(trees, x as nat, 0),
        decreases n - i,
    {
        let mut j: usize = 0;
        let mut found: bool = false;
        while j < count && !found
            invariant
                count == clusters@.len(),
                trees == nodes(clusters@),
                j <= count,
                forall|k: int| 0 <= k < j ==> !holds(trees[k], i as nat),
                found ==> j < count && holds(trees[j as int], i as nat),
            decreases count - j + (if found { 0int } else { 1int }),
        {
            let node: &Cluster = &clusters[j];
            proof {
                use_type_invariant(node);
                lemma_listed(node, i);
            }
            if holds_point(&node.members, i) {
                found = true;
            } else {
                j += 1;
            }
        }
        proof {
            lemma_owner_found(trees, i as nat, 0, j as int);
        }
        if !found {
            return Err(ClusterError::UnassignedPoint);
        }
        let label: i32 = match to_i32(j) {
            Some(label) => label,
            None => 0,
        };
        partitions.push(label);
        i += 1;
    }
    Ok(partitions)
}

/// The agglomerative engine: it builds the merge tree of a point matrix
/// and cuts it into a requested number of clusters.
pub struct AggloClusterer {
    /// The root of the merge tree, once one was built.
    pub head: Option<Rc<Cluster>>,
}

impl AggloClusterer {
    /// An engine without a tree.
    pub fn new() -> (engine: AggloClusterer)
        ensures
            engine.head is None,
    {
        AggloClusterer { head: None }
    }

    /// The mean of each of `all`.
    fn means_of(all: &Vec<Rc<Cluster>>) -> (means: Vec<Vec<i32>>)
        requires
            all_wf(all@),
        ensures
            means@.len() == all@.len(),
            forall|k: int| 0 <= k < all@.len() ==> (#[trigger] means@[k])@ == all@[k]@.mean(),
    {
        let n: usize = all.len();
        let mut means: Vec<Vec<i32>> = Vec::new();
        let mut i: usize = 0;
        while i < n
            invariant
                n == all@.len(),
                all_wf(all@),
                i <= n,
                means@.len() == i,
                forall|k: int| 0 <= k < i ==> (#[trigger] means@[k])@ == all@[k]@.mean(),
            decreases n - i,
        {
            let node: &Cluster = &all[i];
            means.push(mean_center(node));
            i += 1;
        }
        means
    }

    /// Builds the merge tree of the rows of `data`.
    ///
    /// Every point starts as a leaf. As long as more than one node is left,
    /// the two nodes whose means are nearest are merged; of several pairs
    /// at the same distance, the first in row order. A matrix without rows
    /// or without columns is refused and leaves the engine as it was.
    pub fn fit(&mut self, data: &Matrix) -> (r: Result<(), ClusterError>)
        ensures
            r is Ok <==> data@.len() > 0 && matrix_cols(*data) > 0,
            r matches Err(e) ==> *final(self) == *old(self) && e == (if data@.len() == 0 {
                ClusterError::EmptyInput
            } else {
                ClusterError::ZeroDimensions
            }),
            r is Ok ==> (final(self).head matches Some(head) && {
                &&& head@ == tree_of(data@)
                &&& head@.valid()
                &&& head@.members().no_duplicates()
                &&& head@.members().len() == data@.len()
                &&& forall|x: nat| #[trigger] holds(head@, x) <==> x < data@.len()
            }),
    {
        let n: usize = data.nrows();
        let cols: usize = data.ncols();
        if n == 0 {
            return Err(ClusterError::EmptyInput);
        }
        if cols == 0 {
            return Err(ClusterError::ZeroDimensions);
        }
        let mut all_clusters: Vec<Rc<Cluster>> = Vec::new();
        let mut i: usize = 0;
        while i < n
            invariant
                n == data@.len(),
                cols == matrix_cols(*data),
                i <= n,
                all_clusters@.len() == i,
                all_wf(all_clusters@),
                forall|k: int|
                    0 <= k < i ==> (#[trigger] all_clusters@[k])@ == leaf_trees(data@)[k],
            decreases n - i,
        {
            let leaf = Cluster::new(i, &data.row(i));
            all_clusters.push(Rc::new(leaf));
            i += 1;
        }
        let mut index: usize = 1;
        proof {
            assert(nodes(all_clusters@) =~= leaf_trees(data@));
            lemma_leaves(data@, cols as nat);
        }
        while all_clusters.len() > 1
            invariant
                n == data@.len(),
                n >= 1,
                all_clusters@.len() >= 1,
                all_wf(all_clusters@),
                forest(nodes(all_clusters@), n as nat, cols as nat, index as nat),
                index + all_clusters@.len() == n + 1,
                merge_all(nodes(all_clusters@), index as nat) == merge_all(leaf_trees(data@), 1),
            decreases all_clusters@.len(),
        {
            let ghost live = nodes(all_clusters@);
            let means = Self::means_of(&all_clusters);
            proof {
                assert forall|k: int| 0 <= k < means@.len() implies (#[trigger] means@[k])@.len()
                    == means@[0]@.len() by {
                    assert(live[k].sums().len() == cols);
                    assert(live[0].sums().len() == cols);
                }
            }
            let min_idx = nearest_pair(&means);
            proof {
                assert(rows_view(means@) =~= tree_means(live));
                lemma_closest_found(tree_means(live), min_idx.0 as int, min_idx.1 as int);
                lemma_merge_step(
                    live,
                    n as nat,
                    cols as nat,
                    index as nat,
                    min_idx.0 as int,
                    min_idx.1 as int,
                );
                assert(live[min_idx.0 as int].valid() && live[min_idx.1 as int].valid());
                assert(live[min_idx.0 as int].index() < index);
                assert(live[min_idx.1 as int].index() < index);
                assert(live[min_idx.0 as int].sums().len() == cols);
                assert(live[min_idx.1 as int].sums().len() == cols);
            }
            let new_cluster = Cluster::next_cluster(
                Rc::clone(&all_clusters[min_idx.0]),
                Rc::clone(&all_clusters[min_idx.1]),
                index,
            );
            index += 1;
            all_clusters.set(min_idx.0, Rc::new(new_cluster));
            all_clusters.remove(min_idx.1);
            proof {
                assert(nodes(all_clusters@) =~= merge_step(
                    live,
                    min_idx.0 as int,
                    min_idx.1 as int,
                    (index - 1) as nat,
                ));
            }
        }
        self.head = Some(all_clusters[0].clone());
        proof {
            let last = nodes(all_clusters@);
            assert(merge_all(last, index as nat) == last);
            assert(last[0] == all_clusters@[0]@);
            lemma_tree_covers(data@, cols as nat);
        }
        Ok(())
    }

    /// Cuts the merge tree into `n_clusters` clusters.
    ///
    /// One cluster is the root. For more, a frontier grows from the two
    /// children of the root: the node with the highest merge index leaves
    /// and its two children come in, until the frontier holds `n_clusters`
    /// nodes; it is kept in descending order of merge index. An engine
    /// without a tree yields no clusters. More clusters than the tree has
    /// points are refused with `TooManyClusters`.
    pub fn retrieve_clusters(&self, n_clusters: usize) -> (r: Result<
        Vec<Rc<Cluster>>,
        ClusterError,
    >)
        ensures
            self.head is None ==> (r matches Ok(found) && found@.len() == 0),
            self.head matches Some(head) ==> {
                &&& r is Ok <==> n_clusters <= head@.members().len()
                &&& r matches Ok(found) ==> {
                    &&& nodes(found@) == clusters_at(head@, n_clusters as nat)
                    &&& found@.len() == n_clusters
                    &&& n_clusters >= 1 ==> forall|x: nat|
                        holds(head@, x) <==> #[trigger] covered(nodes(found@), x)
                    &&& forall|i: int, j: int, x: nat|
                        0 <= i < found@.len() && 0 <= j < found@.len() && i != j
                            && #[trigger] holds(nodes(found@)[i], x) ==> !#[trigger] holds(
                            nodes(found@)[j],
                            x,
                        )
                }
                &&& r matches Err(e) ==> e == ClusterError::TooManyClusters
            },
    {
        let head: &Rc<Cluster> = match &self.head {
            Some(head) => head,
            None => {
                return Ok(Vec::new());
            },
        };
        proof {
            use_type_invariant(&**head);
            lemma_sums_bounded(head@);
            lemma_cut_length(head@, n_clusters as nat);
            if 2 <= n_clusters <= head@.members().len() {
                lemma_cut_partitions(head@, n_clusters as nat);
            }
        }
        let mut current: Rc<Cluster> = Rc::clone(head);
        let mut all_clusters: Vec<Rc<Cluster>> = Vec::new();
        if n_clusters == 1 {
            all_clusters.push(current);
            proof {
                let one = nodes(all_clusters@);
                assert(one =~= seq![head@]);
                assert forall|x: nat| holds(head@, x) <==> #[trigger] covered(one, x) by {
                    if holds(head@, x) {
                        assert(holds(one[0], x));
                    }
                }
            }
            return Ok(all_clusters);
        }
        assert(nodes(all_clusters@) =~= Seq::<Tree>::empty());
        while all_clusters.len() < n_clusters
            invariant
                self.head == Some(*head),
                head.wf(),
                2 <= n_clusters <= head@.members().len() ==> {
                    &&& forall|x: nat|
                        holds(head@, x) <==> #[trigger] covered(
                            clusters_at(head@, n_clusters as nat),
                            x,
                        )
                    &&& forall|i: int, j: int, x: nat|
                        0 <= i < n_clusters && 0 <= j < n_clusters && i != j && #[trigger] holds(
                            clusters_at(head@, n_clusters as nat)[i],
                            x,
                        ) ==> !#[trigger] holds(clusters_at(head@, n_clusters as nat)[j], x)
                },
                n_clusters <= head@.members().len() ==> clusters_at(
                    head@,
                    n_clusters as nat,
                ).len() == n_clusters,
                n_clusters > head@.members().len() ==> clusters_at(head@, n_clusters as nat).len()
                    < n_clusters,
                head@.members().len() == head.members@.len(),
                all_wf(all_clusters@),
                current.wf(),
                n_clusters != 1,
                cut(nodes(all_clusters@), current@, n_clusters as nat) == clusters_at(
                    head@,
                    n_clusters as nat,
                ),
            decreases
                    (if n_clusters > all_clusters@.len() {
                        n_clusters - all_clusters@.len()
                    } else {
                        0
                    }),
        {
            let ghost frontier = nodes(all_clusters@);
            let first: Rc<Cluster>;
            let second: Rc<Cluster>;
            match (&current.cluster_1, &current.cluster_2) {
                (Some(cluster_1), Some(cluster_2)) => {
                    first = Rc::clone(cluster_1);
                    second = Rc::clone(cluster_2);
                },
                _ => {
                    return Err(ClusterError::TooManyClusters);
                },
            }
            if all_clusters.len() > 1 {
                all_clusters.remove(0);
            }
            all_clusters.push(first);
            all_clusters.push(second);
            proof {
                let kept = if frontier.len() > 1 {
                    frontier.remove(0)
                } else {
                    frontier
                };
                assert(nodes(all_clusters@) =~= kept.push(first@).push(second@));
                lemma_grow_length(frontier, first@, second@);
                lemma_sort_length(nodes(all_clusters@));
            }
            let ghost loose = all_clusters@.len();
            all_clusters = sort_by_index(&all_clusters);
            assert(all_clusters@.len() == nodes(all_clusters@).len() == loose);
            current = Rc::clone(&all_clusters[0]);
        }
        Ok(all_clusters)
    }
}

} // verus!
