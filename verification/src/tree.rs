//! The model of the hierarchical engine: merge trees as mathematical
//! values, how a tree is built and cut, and what holds of both.

use crate::pairs::{closest_pair, lemma_closest_exists};
use vstd::prelude::*;
use vstd::seq_lib::lemma_no_dup_in_concat;

verus! {

/// The merge tree as a mathematical value: a leaf is one point with its
/// coordinates, a node is the merge of two trees, numbered in the order in
/// which the merges were made.
pub enum Tree {
    Leaf { item: nat, sums: Seq<int> },
    Node { index: nat, first: Box<Tree>, second: Box<Tree> },
}

impl Tree {
    /// The merge index: `0` for a leaf.
    pub open spec fn index(self) -> nat {
        match self {
            Tree::Leaf { .. } => 0,
            Tree::Node { index, .. } => index,
        }
    }

    /// The points below this tree: those of the first child, then those of
    /// the second.
    pub open spec fn members(self) -> Seq<nat>
        decreases self,
    {
        match self {
            Tree::Leaf { item, .. } => seq![item],
            Tree::Node { first, second, .. } => first.members() + second.members(),
        }
    }

    /// The sum of the coordinates of the points below this tree.
    pub open spec fn sums(self) -> Seq<int>
        decreases self,
    {
        match self {
            Tree::Leaf { sums, .. } => sums,
            Tree::Node { first, second, .. } => Seq::new(
                first.sums().len(),
                |c: int| first.sums()[c] + second.sums()[c],
            ),
        }
    }

    /// The mean of the points below this tree, each coordinate rounded down.
    pub open spec fn mean(self) -> Seq<i32> {
        Seq::new(
            self.sums().len(),
            |c: int| (self.sums()[c] / (self.members().len() as int)) as i32,
        )
    }

    /// Whether the tree could have been built by merging: every leaf holds
    /// coordinates that fit `i32`, every node is numbered above its
    /// children, both children sum as many coordinates, and no point
    /// occurs twice below a node.
    pub open spec fn valid(self) -> bool
        decreases self,
    {
        match self {
            Tree::Leaf { sums, .. } => forall|c: int|
                0 <= c < sums.len() ==> i32::MIN <= #[trigger] sums[c] <= i32::MAX,
            Tree::Node { index, first, second } => {
                &&& first.valid()
                &&& second.valid()
                &&& index > first.index()
                &&& index > second.index()
                &&& first.sums().len() == second.sums().len()
                &&& (first.members() + second.members()).no_duplicates()
            },
        }
    }
}

/// A valid tree has at least one point below it, and each of its sums lies
/// within what so many `i32` coordinates can add up to.
pub proof fn lemma_sums_bounded(tree: Tree)
    requires
        tree.valid(),
    ensures
        tree.members().len() >= 1,
        forall|c: int|
            0 <= c < tree.sums().len() ==> tree.members().len() * i32::MIN
                <= #[trigger] tree.sums()[c] <= tree.members().len() * i32::MAX,
    decreases tree,
{
    match tree {
        Tree::Leaf { sums, .. } => {},
        Tree::Node { first, second, .. } => {
            lemma_sums_bounded(*first);
            lemma_sums_bounded(*second);
            let n1 = first.members().len() as int;
            let n2 = second.members().len() as int;
            assert((n1 + n2) * i32::MIN == n1 * i32::MIN + n2 * i32::MIN) by (nonlinear_arith);
            assert((n1 + n2) * i32::MAX == n1 * i32::MAX + n2 * i32::MAX) by (nonlinear_arith);
            assert forall|c: int| 0 <= c < tree.sums().len() implies tree.members().len()
                * i32::MIN <= #[trigger] tree.sums()[c] <= tree.members().len() * i32::MAX by {
                assert(tree.sums()[c] == first.sums()[c] + second.sums()[c]);
            }
        },
    }
}

/// The mean of each tree of `live`.
pub open spec fn tree_means(live: Seq<Tree>) -> Seq<Seq<i32>> {
    Seq::new(live.len(), |i: int| live[i].mean())
}

/// `live` after the trees at `i` and `j` were merged into a node numbered
/// `index`: the node takes the place of the first, the second leaves.
pub open spec fn merge_step(live: Seq<Tree>, i: int, j: int, index: nat) -> Seq<Tree> {
    let node = Tree::Node { index, first: Box::new(live[i]), second: Box::new(live[j]) };
    live.update(i, node).remove(j)
}

/// `live` merged pair by pair until one tree is left, each time the two
/// trees whose means are nearest; the merges are numbered from `index` on.
pub open spec fn merge_all(live: Seq<Tree>, index: nat) -> Seq<Tree>
    decreases live.len(),
{
    if live.len() <= 1 {
        live
    } else {
        let (i, j) = closest_pair(tree_means(live));
        if 0 <= i < j < live.len() {
            merge_all(merge_step(live, i, j, index), index + 1)
        } else {
            live
        }
    }
}

/// One leaf per point, in row order.
pub open spec fn leaf_trees(points: Seq<Seq<i32>>) -> Seq<Tree> {
    Seq::new(
        points.len(),
        |i: int| Tree::Leaf { item: i as nat, sums: points[i].map_values(|v: i32| v as int) },
    )
}

/// The merge tree of `points`.
pub open spec fn tree_of(points: Seq<Seq<i32>>) -> Tree {
    merge_all(leaf_trees(points), 1)[0]
}

/// Whether point `x` lies below `tree`.
pub open spec fn holds(tree: Tree, x: nat) -> bool {
    tree.members().contains(x)
}

/// Whether point `x` lies below one of the trees of `live`.
pub open spec fn covered(live: Seq<Tree>, x: nat) -> bool {
    exists|i: int| 0 <= i < live.len() && #[trigger] holds(live[i], x)
}

/// Whether the trees of `live` are valid and part the points `0..n` among
/// them: each tree holds only such points, each such point lies below a
/// tree, and no point lies below two.
pub open spec fn partitions(live: Seq<Tree>, n: nat) -> bool {
    &&& forall|i: int| 0 <= i < live.len() ==> (#[trigger] live[i]).valid()
    &&& forall|i: int, x: nat| 0 <= i < live.len() && #[trigger] holds(live[i], x) ==> x < n
    &&& forall|x: nat| x < n ==> #[trigger] covered(live, x)
    &&& forall|i: int, j: int, x: nat|
        0 <= i < live.len() && 0 <= j < live.len() && i != j && #[trigger] holds(live[i], x)
            ==> !#[trigger] holds(live[j], x)
}

/// The sum of `f` over the trees of `live`.
pub open spec fn tally(live: Seq<Tree>, f: spec_fn(Tree) -> int) -> int
    decreases live.len(),
{
    if live.len() == 0 {
        0
    } else {
        tally(live.drop_last(), f) + f(live.last())
    }
}

/// The number of points below a tree, as a function to sum.
pub open spec fn size() -> spec_fn(Tree) -> int {
    |t: Tree| t.members().len() as int
}

/// `1` for a tree that point `x` lies below and `0` for any other, as a
/// function to sum.
pub open spec fn holding(x: nat) -> spec_fn(Tree) -> int {
    |t: Tree|
        if holds(t, x) {
            1int
        } else {
            0int
        }
}

/// A sum grows by the value of a tree that is appended.
pub proof fn lemma_tally_push(live: Seq<Tree>, x: Tree, f: spec_fn(Tree) -> int)
    ensures
        tally(live.push(x), f) == tally(live, f) + f(x),
{
    assert(live.push(x).drop_last() =~= live);
}

/// A sum grows by the value of a tree that is inserted, wherever.
pub proof fn lemma_tally_insert(live: Seq<Tree>, at: int, x: Tree, f: spec_fn(Tree) -> int)
    requires
        0 <= at <= live.len(),
    ensures
        tally(live.insert(at, x), f) == tally(live, f) + f(x),
    decreases live.len(),
{
    if at == live.len() {
        assert(live.insert(at, x) =~= live.push(x));
        lemma_tally_push(live, x, f);
    } else {
        assert(live.insert(at, x).drop_last() =~= live.drop_last().insert(at, x));
        assert(live.insert(at, x).last() == live.last());
        lemma_tally_insert(live.drop_last(), at, x, f);
    }
}

/// A sum shrinks by the value of a tree that is taken out.
pub proof fn lemma_tally_remove(live: Seq<Tree>, at: int, f: spec_fn(Tree) -> int)
    requires
        0 <= at < live.len(),
    ensures
        tally(live.remove(at), f) == tally(live, f) - f(live[at]),
    decreases live.len(),
{
    if at == live.len() - 1 {
        assert(live.remove(at) =~= live.drop_last());
    } else {
        assert(live.remove(at).drop_last() =~= live.drop_last().remove(at));
        assert(live.remove(at).last() == live.last());
        lemma_tally_remove(live.drop_last(), at, f);
    }
}

/// A sum changes by the difference in value when a tree is replaced.
pub proof fn lemma_tally_update(live: Seq<Tree>, at: int, x: Tree, f: spec_fn(Tree) -> int)
    requires
        0 <= at < live.len(),
    ensures
        tally(live.update(at, x), f) == tally(live, f) - f(live[at]) + f(x),
    decreases live.len(),
{
    if at == live.len() - 1 {
        assert(live.update(at, x).drop_last() =~= live.drop_last());
    } else {
        assert(live.update(at, x).drop_last() =~= live.drop_last().update(at, x));
        lemma_tally_update(live.drop_last(), at, x, f);
    }
}

/// A sum of values that are never negative is at least any one of them,
/// and at least any two of them together.
pub proof fn lemma_tally_lower(live: Seq<Tree>, f: spec_fn(Tree) -> int, i: int, j: int)
    requires
        forall|t: Tree| #[trigger] f(t) >= 0,
        0 <= i < live.len(),
        0 <= j < live.len(),
    ensures
        tally(live, f) >= 0,
        tally(live, f) >= f(live[i]),
        i != j ==> tally(live, f) >= f(live[i]) + f(live[j]),
    decreases live.len(),
{
    let rest = live.drop_last();
    let end = live.len() - 1;
    assert(f(live.last()) >= 0);
    assert(f(live[i]) >= 0 && f(live[j]) >= 0);
    if rest.len() == 0 {
        assert(tally(rest, f) == 0);
    } else {
        let a = if i < end {
            i
        } else {
            0
        };
        let b = if j < end {
            j
        } else {
            0
        };
        lemma_tally_lower(rest, f, a, b);
        if i < end && j == end {
            lemma_tally_lower(rest, f, i, i);
        }
        if j < end && i == end {
            lemma_tally_lower(rest, f, j, j);
        }
    }
}

/// A positive sum of values that are never negative has a positive value
/// in it.
pub proof fn lemma_tally_witness(live: Seq<Tree>, f: spec_fn(Tree) -> int) -> (at: int)
    requires
        forall|t: Tree| #[trigger] f(t) >= 0,
        tally(live, f) >= 1,
    ensures
        0 <= at < live.len(),
        f(live[at]) >= 1,
    decreases live.len(),
{
    if f(live.last()) >= 1 {
        live.len() - 1
    } else {
        lemma_tally_witness(live.drop_last(), f)
    }
}

/// A sum of ones is the number of trees.
pub proof fn lemma_tally_ones(live: Seq<Tree>, f: spec_fn(Tree) -> int)
    requires
        forall|i: int| 0 <= i < live.len() ==> f(#[trigger] live[i]) == 1,
    ensures
        tally(live, f) == live.len(),
    decreases live.len(),
{
    if live.len() > 0 {
        assert forall|i: int| 0 <= i < live.drop_last().len() implies f(
            #[trigger] live.drop_last()[i],
        ) == 1 by {
            assert(live.drop_last()[i] == live[i]);
        }
        lemma_tally_ones(live.drop_last(), f);
    }
}

/// Whether `live` is a stage of building a tree over `n` points of `cols`
/// coordinates, with the merges so far numbered below `index`: the trees
/// part the points among them and hold `n` points in all.
pub open spec fn forest(live: Seq<Tree>, n: nat, cols: nat, index: nat) -> bool {
    &&& partitions(live, n)
    &&& tally(live, size()) == n
    &&& forall|i: int| 0 <= i < live.len() ==> (#[trigger] live[i]).index() < index
    &&& forall|i: int| 0 <= i < live.len() ==> (#[trigger] live[i]).sums().len() == cols
}

/// Merging two trees of a stage gives the next stage, one tree shorter.
pub proof fn lemma_merge_step(live: Seq<Tree>, n: nat, cols: nat, index: nat, i: int, j: int)
    requires
        forest(live, n, cols, index),
        0 <= i < j < live.len(),
    ensures
        forest(merge_step(live, i, j, index), n, cols, index + 1),
        merge_step(live, i, j, index).len() == live.len() - 1,
        (Tree::Node { index, first: Box::new(live[i]), second: Box::new(live[j]) }).valid(),
{
    let first = live[i];
    let second = live[j];
    let node = Tree::Node { index, first: Box::new(first), second: Box::new(second) };
    let next = merge_step(live, i, j, index);
    assert(first.valid() && second.valid());
    assert forall|p: int, q: int|
        0 <= p < first.members().len() && 0 <= q < second.members().len() implies first.members()[p]
        != second.members()[q] by {
        assert(holds(live[i], first.members()[p]));
        assert(holds(live[j], second.members()[q]));
    }
    lemma_no_dup_in_concat(first.members(), second.members());
    assert(node.valid());
    assert forall|x: nat| holds(node, x) <==> holds(first, x) || holds(second, x) by {
        if holds(node, x) {
            let at = choose|at: int| 0 <= at < node.members().len() && node.members()[at] == x;
            if at < first.members().len() {
                assert(first.members()[at] == x);
            } else {
                assert(second.members()[at - first.members().len()] == x);
            }
        }
        if holds(first, x) {
            let at = choose|at: int| 0 <= at < first.members().len() && first.members()[at] == x;
            assert(node.members()[at] == x);
        }
        if holds(second, x) {
            let at = choose|at: int|
                0 <= at < second.members().len() && second.members()[at] == x;
            assert(node.members()[first.members().len() + at] == x);
        }
    }
    // where each tree of the next stage stood in this one
    let from = |k: int|
        if k < j {
            k
        } else {
            k + 1
        };
    assert forall|k: int| 0 <= k < next.len() implies #[trigger] next[k] == (if k == i {
        node
    } else {
        live[from(k)]
    }) by {}
    assert forall|k: int| 0 <= k < next.len() implies (#[trigger] next[k]).valid() by {
        assert(live[from(k)].valid());
    }
    assert forall|k: int, x: nat| 0 <= k < next.len() && #[trigger] holds(next[k], x) implies x
        < n by {
        if k == i {
            assert(holds(live[i], x) || holds(live[j], x));
        } else {
            assert(holds(live[from(k)], x));
        }
    }
    assert forall|x: nat| x < n implies #[trigger] covered(next, x) by {
        assert(covered(live, x));
        let at = choose|at: int| 0 <= at < live.len() && #[trigger] holds(live[at], x);
        if at == i || at == j {
            assert(holds(next[i], x));
        } else if at < j {
            assert(holds(next[at], x));
        } else {
            assert(holds(next[at - 1], x));
        }
    }
    assert forall|k: int, m: int, x: nat|
        0 <= k < next.len() && 0 <= m < next.len() && k != m && #[trigger] holds(
            next[k],
            x,
        ) implies !#[trigger] holds(next[m], x) by {
        if k == i {
            assert(holds(live[i], x) || holds(live[j], x));
            assert(!holds(live[from(m)], x));
        } else if m == i {
            assert(holds(live[from(k)], x));
            assert(!holds(live[i], x) && !holds(live[j], x));
        } else {
            assert(holds(live[from(k)], x));
            assert(!holds(live[from(m)], x));
        }
    }
    lemma_tally_update(live, i, node, size());
    lemma_tally_remove(live.update(i, node), j, size());
    assert forall|k: int| 0 <= k < next.len() implies (#[trigger] next[k]).index() < index + 1 by {
        assert(live[from(k)].index() < index);
    }
    assert forall|k: int| 0 <= k < next.len() implies (#[trigger] next[k]).sums().len()
        == cols by {
        assert(live[from(k)].sums().len() == cols);
        assert(live[i].sums().len() == cols);
    }
}

/// Merging a stage to the end leaves one valid tree over all the points.
pub proof fn lemma_merge_all(live: Seq<Tree>, n: nat, cols: nat, index: nat)
    requires
        forest(live, n, cols, index),
        live.len() >= 1,
    ensures
        merge_all(live, index).len() == 1,
        partitions(merge_all(live, index), n),
        tally(merge_all(live, index), size()) == n,
    decreases live.len(),
{
    if live.len() > 1 {
        lemma_closest_exists(tree_means(live), 0, 1);
        let p = closest_pair(tree_means(live));
        lemma_merge_step(live, n, cols, index, p.0, p.1);
        lemma_merge_all(merge_step(live, p.0, p.1, index), n, cols, index + 1);
    }
}

/// The leaves of `points` are the first stage of building its tree.
pub proof fn lemma_leaves(points: Seq<Seq<i32>>, cols: nat)
    requires
        forall|i: int| 0 <= i < points.len() ==> (#[trigger] points[i]).len() == cols,
    ensures
        forest(leaf_trees(points), points.len(), cols, 1),
{
    let live = leaf_trees(points);
    assert forall|i: int, x: nat| 0 <= i < live.len() && #[trigger] holds(live[i], x) implies x
        == i by {
        let at = choose|at: int| 0 <= at < live[i].members().len() && live[i].members()[at] == x;
    }
    assert forall|x: nat| x < points.len() implies #[trigger] covered(live, x) by {
        assert(live[x as int].members()[0] == x);
        assert(holds(live[x as int], x));
    }
    lemma_tally_ones(live, size());
}

/// The merge tree of at least one point is valid, and the points below it
/// are exactly `0..n`, each once.
pub proof fn lemma_tree_covers(points: Seq<Seq<i32>>, cols: nat)
    requires
        points.len() >= 1,
        forall|i: int| 0 <= i < points.len() ==> (#[trigger] points[i]).len() == cols,
    ensures
        tree_of(points).valid(),
        tree_of(points).members().no_duplicates(),
        tree_of(points).members().len() == points.len(),
        forall|x: nat| tree_of(points).members().contains(x) <==> x < points.len(),
{
    lemma_leaves(points, cols);
    lemma_merge_all(leaf_trees(points), points.len(), cols, 1);
    let last = merge_all(leaf_trees(points), 1);
    let head = tree_of(points);
    assert(head == last[0]);
    assert(tally(last.drop_last(), size()) == 0);
    assert(tally(last, size()) == size()(head));
    assert forall|x: nat| head.members().contains(x) <==> x < points.len() by {
        if head.members().contains(x) {
            assert(holds(last[0], x));
        }
        if x < points.len() {
            assert(covered(last, x));
            let at = choose|at: int| 0 <= at < last.len() && #[trigger] holds(last[at], x);
            assert(at == 0);
        }
    }
}

/// The first position from `from` on at which `sorted` holds a tree with a
/// merge index below `index`; the length of `sorted` when there is none.
pub open spec fn slot(sorted: Seq<Tree>, index: nat, from: int) -> int
    decreases sorted.len() - from,
{
    if from >= sorted.len() {
        sorted.len() as int
    } else if sorted[from].index() < index {
        from
    } else {
        slot(sorted, index, from + 1)
    }
}

/// `sorted` with `x` put in behind every tree whose merge index is not
/// below its own.
pub open spec fn insert_sorted(sorted: Seq<Tree>, x: Tree) -> Seq<Tree> {
    sorted.insert(slot(sorted, x.index(), 0), x)
}

/// `s` in descending order of merge index; trees with the same index keep
/// the order in which they stood.
pub open spec fn sort_desc(s: Seq<Tree>) -> Seq<Tree>
    decreases s.len(),
{
    if s.len() == 0 {
        s
    } else {
        insert_sorted(sort_desc(s.drop_last()), s.last())
    }
}

/// Whether the merge indices of `s` never rise.
pub open spec fn descending(s: Seq<Tree>) -> bool {
    forall|a: int, b: int| 0 <= a < b < s.len() ==> s[a].index() >= s[b].index()
}

/// The frontier after one step from `frontier` with `first` and `second`
/// the children of the node to descend into: the tree at the front leaves
/// if there is more than one, the children are appended, and the list is
/// sorted again.
pub open spec fn grow(frontier: Seq<Tree>, first: Tree, second: Tree) -> Seq<Tree> {
    let kept = if frontier.len() > 1 {
        frontier.remove(0)
    } else {
        frontier
    };
    sort_desc(kept.push(first).push(second))
}

/// The frontier grown from `frontier` until it holds `n` trees, descending
/// each time into `current` and going on with the tree then at the front.
/// It stops short where `current` is a leaf.
pub open spec fn cut(frontier: Seq<Tree>, current: Tree, n: nat) -> Seq<Tree>
    decreases
            (if n > frontier.len() {
                n - frontier.len()
            } else {
                0
            }),
{
    if frontier.len() >= n || current is Leaf {
        frontier
    } else {
        let grown = grow(frontier, *current->first, *current->second);
        proof {
            lemma_grow_length(frontier, *current->first, *current->second);
        }
        cut(grown, grown[0], n)
    }
}

/// A step makes the frontier longer.
pub proof fn lemma_grow_length(frontier: Seq<Tree>, first: Tree, second: Tree)
    ensures
        grow(frontier, first, second).len() > frontier.len(),
{
    let kept = if frontier.len() > 1 {
        frontier.remove(0)
    } else {
        frontier
    };
    lemma_sort_length(kept.push(first).push(second));
}

/// Sorting keeps the length.
pub proof fn lemma_sort_length(s: Seq<Tree>)
    ensures
        sort_desc(s).len() == s.len(),
    decreases s.len(),
{
    if s.len() > 0 {
        lemma_sort_length(s.drop_last());
        lemma_slot(sort_desc(s.drop_last()), s.last().index(), 0);
    }
}

/// The clusters that a cut of the tree under `head` into `n` yields: the
/// head alone for one, else the frontier grown from nothing.
pub open spec fn clusters_at(head: Tree, n: nat) -> Seq<Tree> {
    if n == 1 {
        seq![head]
    } else {
        cut(Seq::empty(), head, n)
    }
}

/// `1` for a tree that is not valid and `0` for one that is, as a function
/// to sum.
pub open spec fn flawed() -> spec_fn(Tree) -> int {
    |t: Tree|
        if t.valid() {
            0int
        } else {
            1int
        }
}

/// Whether `frontier` is a stage of cutting the tree under `head`: its
/// trees are valid and in descending order, each point below `head` lies
/// below exactly one of them, and they hold as many points as `head`.
pub open spec fn cutting(frontier: Seq<Tree>, head: Tree) -> bool {
    &&& tally(frontier, flawed()) == 0
    &&& forall|x: nat| #[trigger] tally(frontier, holding(x)) == holding(x)(head)
    &&& tally(frontier, size()) == head.members().len()
    &&& descending(frontier)
}

/// The insertion point lies from `from` on, every tree between is not
/// below `index`, and the tree at the point, if any, is.
pub proof fn lemma_slot(sorted: Seq<Tree>, index: nat, from: int)
    requires
        0 <= from <= sorted.len(),
    ensures
        from <= slot(sorted, index, from) <= sorted.len(),
        forall|k: int| from <= k < slot(sorted, index, from) ==> sorted[k].index() >= index,
        slot(sorted, index, from) < sorted.len() ==> sorted[slot(sorted, index, from)].index()
            < index,
    decreases sorted.len() - from,
{
    if from < sorted.len() && sorted[from].index() >= index {
        lemma_slot(sorted, index, from + 1);
    }
}

/// A position with those properties is the insertion point.
pub proof fn lemma_slot_found(sorted: Seq<Tree>, index: nat, from: int, at: int)
    requires
        0 <= from <= at <= sorted.len(),
        forall|k: int| from <= k < at ==> sorted[k].index() >= index,
        at < sorted.len() ==> sorted[at].index() < index,
    ensures
        slot(sorted, index, from) == at,
    decreases at - from,
{
    if from < at {
        lemma_slot_found(sorted, index, from + 1, at);
    }
}

/// Sorting keeps the length and every sum over the trees, and yields a
/// descending list.
pub proof fn lemma_sort(s: Seq<Tree>)
    ensures
        sort_desc(s).len() == s.len(),
        descending(sort_desc(s)),
        forall|f: spec_fn(Tree) -> int| #[trigger] tally(sort_desc(s), f) == tally(s, f),
    decreases s.len(),
{
    if s.len() > 0 {
        let rest = sort_desc(s.drop_last());
        let x = s.last();
        lemma_sort(s.drop_last());
        lemma_slot(rest, x.index(), 0);
        let at = slot(rest, x.index(), 0);
        let out = rest.insert(at, x);
        assert forall|a: int, b: int| 0 <= a < b < out.len() implies out[a].index()
            >= out[b].index() by {
            if b == at {
                assert(out[a] == rest[a]);
            } else if a == at {
                assert(out[b] == rest[b - 1]);
                if at < b - 1 {
                    assert(rest[at].index() >= rest[b - 1].index());
                }
            } else {
                let a0 = if a < at {
                    a
                } else {
                    a - 1
                };
                let b0 = if b < at {
                    b
                } else {
                    b - 1
                };
                assert(out[a] == rest[a0] && out[b] == rest[b0]);
            }
        }
        assert forall|f: spec_fn(Tree) -> int| #[trigger] tally(sort_desc(s), f) == tally(s, f) by {
            lemma_tally_insert(rest, at, x, f);
            assert(tally(rest, f) == tally(s.drop_last(), f));
        }
    }
}

/// A valid tree numbered `0` is a leaf, and a leaf holds one point.
pub proof fn lemma_unmerged_is_leaf(tree: Tree)
    requires
        tree.valid(),
        tree.index() == 0,
    ensures
        tree is Leaf,
        tree.members().len() == 1,
{
}

/// One step of a cut: while a stage holds fewer trees than there are
/// points, the tree at its front is a node, and descending into it gives
/// the next stage, one tree longer.
pub proof fn lemma_grow(frontier: Seq<Tree>, head: Tree)
    requires
        cutting(frontier, head),
        2 <= frontier.len() < head.members().len(),
    ensures
        frontier[0] is Node,
        cutting(grow(frontier, *frontier[0]->first, *frontier[0]->second), head),
        grow(frontier, *frontier[0]->first, *frontier[0]->second).len() == frontier.len() + 1,
{
    let front = frontier[0];
    assert forall|i: int| 0 <= i < frontier.len() implies (#[trigger] frontier[i]).valid() by {
        if !frontier[i].valid() {
            lemma_tally_lower(frontier, flawed(), i, i);
        }
    }
    if front.index() == 0 {
        assert forall|i: int| 0 <= i < frontier.len() implies size()(#[trigger] frontier[i])
            == 1 by {
            assert(frontier[0].index() >= frontier[i].index());
            lemma_unmerged_is_leaf(frontier[i]);
        }
        lemma_tally_ones(frontier, size());
    }
    let first = *front->first;
    let second = *front->second;
    let kept = frontier.remove(0);
    let loose = kept.push(first).push(second);
    lemma_sort(loose);
    assert forall|f: spec_fn(Tree) -> int| #[trigger] tally(loose, f) == tally(frontier, f) - f(
        front,
    ) + f(first) + f(second) by {
        lemma_tally_remove(frontier, 0, f);
        lemma_tally_push(kept, first, f);
        lemma_tally_push(kept.push(first), second, f);
    }
    let grown = sort_desc(loose);
    assert(tally(grown, flawed()) == tally(loose, flawed()));
    assert(tally(grown, size()) == tally(loose, size()));
    assert forall|x: nat| #[trigger] tally(grown, holding(x)) == holding(x)(head) by {
        assert(tally(grown, holding(x)) == tally(loose, holding(x)));
        assert(tally(frontier, holding(x)) == holding(x)(head));
        lemma_holds_either(front, x);
    }
}

/// A point lies below a valid node just when it lies below one of its
/// children, and it never lies below both.
pub proof fn lemma_holds_either(node: Tree, x: nat)
    requires
        node.valid(),
        node is Node,
    ensures
        holds(node, x) <==> holds(*node->first, x) || holds(*node->second, x),
        !(holds(*node->first, x) && holds(*node->second, x)),
{
    let first = node->first.members();
    let second = node->second.members();
    let both = node.members();
    if holds(node, x) {
        let at = choose|at: int| 0 <= at < both.len() && both[at] == x;
        if at < first.len() {
            assert(first[at] == x);
        } else {
            assert(second[at - first.len()] == x);
        }
    }
    if holds(*node->first, x) {
        let at = choose|at: int| 0 <= at < first.len() && first[at] == x;
        assert(both[at] == x);
        if holds(*node->second, x) {
            let other = choose|other: int| 0 <= other < second.len() && second[other] == x;
            assert(both[first.len() + other] == x);
        }
    }
    if holds(*node->second, x) {
        let at = choose|at: int| 0 <= at < second.len() && second[at] == x;
        assert(both[first.len() + at] == x);
    }
}

/// Valid trees hold at least one point each.
pub proof fn lemma_tally_floor(live: Seq<Tree>)
    ensures
        tally(live, flawed()) == 0 ==> tally(live, size()) >= live.len(),
        tally(live, flawed()) >= 0,
    decreases live.len(),
{
    if live.len() > 0 {
        lemma_tally_floor(live.drop_last());
        if live.last().valid() {
            lemma_sums_bounded(live.last());
        }
    }
}

/// Growing a stage of a cut until it holds `n` trees yields a stage of `n`
/// trees when there are that many points, and one tree per point when
/// there are fewer.
pub proof fn lemma_cut(frontier: Seq<Tree>, head: Tree, n: nat)
    requires
        cutting(frontier, head),
        2 <= frontier.len(),
    ensures
        cutting(cut(frontier, frontier[0], n), head),
        cut(frontier, frontier[0], n).len() == (if n <= frontier.len() {
            frontier.len()
        } else if n <= head.members().len() {
            n
        } else {
            head.members().len()
        }),
    decreases n - frontier.len(),
{
    lemma_tally_floor(frontier);
    if frontier.len() < n {
        if frontier.len() < head.members().len() {
            lemma_grow(frontier, head);
            let grown = grow(frontier, *frontier[0]->first, *frontier[0]->second);
            lemma_cut(grown, head, n);
        } else {
            // one tree per point: all are leaves, and the cut stops
            assert forall|i: int| 0 <= i < frontier.len() implies (#[trigger] frontier[i]).valid(
            ) by {
                if !frontier[i].valid() {
                    lemma_tally_lower(frontier, flawed(), i, i);
                }
            }
            if frontier[0] is Node {
                lemma_sums_bounded(*frontier[0]->first);
                lemma_sums_bounded(*frontier[0]->second);
                assert(size()(frontier[0]) >= 2);
                lemma_tally_remove(frontier, 0, size());
                lemma_tally_remove(frontier, 0, flawed());
                lemma_tally_floor(frontier.remove(0));
            }
        }
    }
}

/// The first step of a cut: the two children of a valid node, sorted, are
/// a stage of cutting the tree under it.
pub proof fn lemma_first_stage(head: Tree)
    requires
        head.valid(),
        head is Node,
    ensures
        cutting(grow(Seq::empty(), *head->first, *head->second), head),
        grow(Seq::empty(), *head->first, *head->second).len() == 2,
{
    let first = *head->first;
    let second = *head->second;
    let none = Seq::<Tree>::empty();
    let loose = none.push(first).push(second);
    lemma_sort(loose);
    assert forall|f: spec_fn(Tree) -> int| #[trigger] tally(loose, f) == f(first) + f(second) by {
        lemma_tally_push(none, first, f);
        lemma_tally_push(none.push(first), second, f);
        assert(tally(none, f) == 0);
    }
    let grown = sort_desc(loose);
    assert(tally(grown, flawed()) == tally(loose, flawed()));
    assert(tally(grown, size()) == tally(loose, size()));
    assert forall|x: nat| #[trigger] tally(grown, holding(x)) == holding(x)(head) by {
        assert(tally(grown, holding(x)) == tally(loose, holding(x)));
        lemma_holds_either(head, x);
    }
}

/// A cut of a valid tree into `n` clusters, for `n` from two up to the
/// number of points, yields exactly `n` valid trees that part the points
/// among them: each point of the tree lies below one of them, and none
/// below two.
pub proof fn lemma_cut_partitions(head: Tree, n: nat)
    requires
        head.valid(),
        2 <= n <= head.members().len(),
    ensures
        clusters_at(head, n).len() == n,
        forall|i: int| 0 <= i < n ==> (#[trigger] clusters_at(head, n)[i]).valid(),
        forall|x: nat| holds(head, x) <==> #[trigger] covered(clusters_at(head, n), x),
        forall|i: int, j: int, x: nat|
            0 <= i < n && 0 <= j < n && i != j && #[trigger] holds(clusters_at(head, n)[i], x)
                ==> !#[trigger] holds(clusters_at(head, n)[j], x),
{
    let out = clusters_at(head, n);
    lemma_cut_length(head, n);
    assert forall|i: int| 0 <= i < n implies (#[trigger] out[i]).valid() by {
        if !out[i].valid() {
            lemma_tally_lower(out, flawed(), i, i);
        }
    }
    assert forall|x: nat| holds(head, x) <==> #[trigger] covered(out, x) by {
        assert(tally(out, holding(x)) == holding(x)(head));
        if holds(head, x) {
            let at = lemma_tally_witness(out, holding(x));
            assert(holds(out[at], x));
        }
        if covered(out, x) {
            let at = choose|at: int| 0 <= at < out.len() && #[trigger] holds(out[at], x);
            lemma_tally_lower(out, holding(x), at, at);
        }
    }
    assert forall|i: int, j: int, x: nat|
        0 <= i < n && 0 <= j < n && i != j && #[trigger] holds(out[i], x) implies !#[trigger] holds(
        out[j],
        x,
    ) by {
        assert(tally(out, holding(x)) == holding(x)(head));
        lemma_tally_lower(out, holding(x), i, j);
    }
}

/// A cut of a valid tree into `n` clusters yields `n` of them when the
/// tree holds that many points, and a stage of the cut in any case where
/// `n` is two or more and the tree is no leaf.
pub proof fn lemma_cut_length(head: Tree, n: nat)
    requires
        head.valid(),
    ensures
        n <= head.members().len() ==> clusters_at(head, n).len() == n,
        n > head.members().len() ==> clusters_at(head, n).len() < n,
        2 <= n <= head.members().len() ==> cutting(clusters_at(head, n), head),
{
    lemma_sums_bounded(head);
    if n >= 2 {
        let none = Seq::<Tree>::empty();
        if head is Leaf {
            assert(cut(none, head, n) == none);
        } else {
            lemma_first_stage(head);
            lemma_sums_bounded(*head->first);
            lemma_sums_bounded(*head->second);
            let grown = grow(none, *head->first, *head->second);
            assert(cut(none, head, n) == cut(grown, grown[0], n));
            lemma_cut(grown, head, n);
        }
    }
}

/// The merge tree of `points`, cut into one cluster, is the root alone,
/// and the points below it are exactly `0..n`, each once.
pub proof fn lemma_single_cut_covers(points: Seq<Seq<i32>>, cols: nat)
    requires
        points.len() >= 1,
        forall|i: int| 0 <= i < points.len() ==> (#[trigger] points[i]).len() == cols,
    ensures
        clusters_at(tree_of(points), 1).len() == 1,
        clusters_at(tree_of(points), 1)[0] == tree_of(points),
        tree_of(points).members().no_duplicates(),
        tree_of(points).members().len() == points.len(),
        forall|x: nat| tree_of(points).members().contains(x) <==> x < points.len(),
{
    lemma_tree_covers(points, cols);
}

/// The first position from `from` on at which `trees` holds a tree that
/// point `x` lies below; the length of `trees` when there is none.
pub open spec fn owner(trees: Seq<Tree>, x: nat, from: int) -> int
    decreases trees.len() - from,
{
    if from >= trees.len() {
        trees.len() as int
    } else if holds(trees[from], x) {
        from
    } else {
        owner(trees, x, from + 1)
    }
}

/// Whether each of the points `0..n` lies below one of `trees`.
pub open spec fn all_owned(trees: Seq<Tree>, n: nat) -> bool {
    forall|x: nat| x < n ==> #[trigger] owner(trees, x, 0) < trees.len()
}

/// If `at` is the first position from `from` on whose tree holds `x`, it
/// is the owner.
pub proof fn lemma_owner_found(trees: Seq<Tree>, x: nat, from: int, at: int)
    requires
        0 <= from <= at <= trees.len(),
        forall|k: int| from <= k < at ==> !holds(trees[k], x),
        at < trees.len() ==> holds(trees[at], x),
    ensures
        owner(trees, x, from) == at,
    decreases at - from,
{
    if from < at {
        lemma_owner_found(trees, x, from + 1, at);
    }
}

/// A point that lies below the tree at `at` is owned by that tree or an
/// earlier one.
pub proof fn lemma_owner_bound(trees: Seq<Tree>, x: nat, from: int, at: int)
    requires
        0 <= from <= at < trees.len(),
        holds(trees[at], x),
    ensures
        from <= owner(trees, x, from) <= at,
    decreases at - from,
{
    if from < at && !holds(trees[from], x) {
        lemma_owner_bound(trees, x, from + 1, at);
    }
}

/// Where each of the points `0..n` lies below one of `trees`, each has an
/// owner.
pub proof fn lemma_covered_is_owned(trees: Seq<Tree>, n: nat)
    requires
        forall|x: nat| x < n ==> #[trigger] covered(trees, x),
    ensures
        all_owned(trees, n),
{
    assert forall|x: nat| x < n implies #[trigger] owner(trees, x, 0) < trees.len() by {
        assert(covered(trees, x));
        let at = choose|at: int| 0 <= at < trees.len() && #[trigger] holds(trees[at], x);
        lemma_owner_bound(trees, x, 0, at);
    }
}

/// The merge tree of `points`, cut into `k` clusters for `k` from two up to
/// the number of points, yields `k` clusters that part the points `0..n`
/// among them: every point lies below one of them, none below two, and so
/// every point has an owner.
pub proof fn lemma_cut_of_fit(points: Seq<Seq<i32>>, cols: nat, k: nat)
    requires
        2 <= k <= points.len(),
        forall|i: int| 0 <= i < points.len() ==> (#[trigger] points[i]).len() == cols,
    ensures
        clusters_at(tree_of(points), k).len() == k,
        forall|x: nat| x < points.len() <==> #[trigger] covered(clusters_at(tree_of(points), k), x),
        forall|i: int, j: int, x: nat|
            0 <= i < k && 0 <= j < k && i != j && #[trigger] holds(
                clusters_at(tree_of(points), k)[i],
                x,
            ) ==> !#[trigger] holds(clusters_at(tree_of(points), k)[j], x),
        all_owned(clusters_at(tree_of(points), k), points.len()),
{
    let head = tree_of(points);
    let out = clusters_at(head, k);
    lemma_tree_covers(points, cols);
    lemma_cut_partitions(head, k);
    assert forall|x: nat| x < points.len() <==> #[trigger] covered(out, x) by {
        assert(holds(head, x) <==> covered(out, x));
    }
    lemma_covered_is_owned(out, points.len());
}

} // verus!
